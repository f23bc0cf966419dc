//! Shared logic of the solvers that label the landing positions with
//! distinct temperatures and answer by the closest temperature.
use vstd::prelude::*;
use crate::ahc022::usize_tools::{UsizeTools, dist_spec};
use crate::ahc022::gaussian_filter::grid_view;
use crate::ahc022::temperature_field::{Pos, is_first_min};

verus! {

/// Temperature step between consecutive labels.
pub const LABEL_STEP: usize = 10;

/// The last index at which `p` occurs in `pos`, or `-1`.
pub open spec fn last_index(pos: Seq<Pos>, p: Pos) -> int
    decreases pos.len(),
{
    if pos.len() == 0 {
        -1
    } else if pos.last() == p {
        pos.len() - 1
    } else {
        last_index(pos.drop_last(), p)
    }
}

/// `g` with the cell of each landing position `i` set to `10 * i`; where
/// a cell is listed twice, the later position wins.
pub open spec fn labelled(g: Seq<Seq<usize>>, pos: Seq<Pos>) -> Seq<Seq<usize>> {
    Seq::new(
        g.len(),
        |x: int|
            Seq::new(
                g[x].len(),
                |y: int|
                    if last_index(pos, (x as usize, y as usize)) >= 0 {
                        (LABEL_STEP * last_index(pos, (x as usize, y as usize))) as usize
                    } else {
                        g[x][y]
                    },
            ),
    )
}

/// The labels fit in the grid and in a `usize`.
pub open spec fn labels_fit(g: Seq<Seq<usize>>, pos: Seq<Pos>) -> bool {
    &&& LABEL_STEP * pos.len() <= usize::MAX
    &&& forall|i: int|
        0 <= i < pos.len() ==> #[trigger] pos[i].0 < g.len() && pos[i].1 < g[pos[i].0 as int].len()
}

proof fn lemma_last_index_bounds(pos: Seq<Pos>, p: Pos)
    ensures
        -1 <= last_index(pos, p) < pos.len(),
        last_index(pos, p) >= 0 ==> pos[last_index(pos, p)] == p,
    decreases pos.len(),
{
    if pos.len() > 0 && pos.last() != p {
        lemma_last_index_bounds(pos.drop_last(), p);
    }
}

/// Writes the labels into `g`.
pub fn place_labels(g: &mut Vec<Vec<usize>>, pos: &Vec<Pos>)
    requires
        labels_fit(grid_view(old(g)@), pos@),
    ensures
        grid_view(final(g)@) == labelled(grid_view(old(g)@), pos@),
{
    let ghost g0 = grid_view(g@);
    let mut i: usize = 0;
    while i < pos.len()
        invariant
            0 <= i <= pos.len(),
            g0 == grid_view(old(g)@),
            labels_fit(g0, pos@),
            g.len() == g0.len(),
            forall|x: int| 0 <= x < g0.len() ==> #[trigger] g@[x].len() == g0[x].len(),
            forall|x: int, y: int|
                0 <= x < g0.len() && 0 <= y < g0[x].len() ==> #[trigger] g@[x]@[y] == labelled(
                    g0,
                    pos@.take(i as int),
                )[x][y],
        decreases pos.len() - i,
    {
        let (r, c) = pos[i];
        proof {
            assert(pos@[i as int].0 < g0.len());
            assert(g@[r as int].len() == g0[r as int].len());
        }
        let ghost before = g@;
        g[r][c] = LABEL_STEP * i;
        proof {
            let pre = pos@.take(i as int);
            let post = pos@.take(i + 1);
            assert(post.drop_last() =~= pre);
            assert(post.last() == pos@[i as int]);
            assert forall|x: int| 0 <= x < g0.len() implies #[trigger] g@[x].len() == g0[x].len() by {
                if x != r {
                    assert(g@[x] == before[x]);
                }
            }
            assert forall|x: int, y: int|
                0 <= x < g0.len() && 0 <= y < g0[x].len() implies #[trigger] g@[x]@[y] == labelled(
                g0,
                post,
            )[x][y] by {
                if x != r {
                    assert(g@[x] == before[x]);
                }
                lemma_last_index_bounds(pre, (x as usize, y as usize));
            }
        }
        i += 1;
    }
    proof {
        assert(i == pos.len());
        assert(pos@.take(i as int) =~= pos@);
        let gv = grid_view(g@);
        let want = labelled(g0, pos@);
        assert forall|x: int| 0 <= x < gv.len() implies #[trigger] gv[x] =~= want[x] by {
            assert(g@[x].len() == g0[x].len());
            assert forall|y: int| 0 <= y < gv[x].len() implies #[trigger] gv[x][y] == want[x][y] by {
                assert(g@[x]@[y] == labelled(g0, pos@.take(i as int))[x][y]);
            }
        }
        assert(gv =~= want);
    }
}

/// The middle one of three values.
pub open spec fn median_spec(a: int, b: int, c: int) -> int {
    if (a <= b && b <= c) || (c <= b && b <= a) {
        b
    } else if (b <= a && a <= c) || (c <= a && a <= b) {
        a
    } else {
        c
    }
}

/// The middle of three values is one of them, and of the other two one is
/// at most it and the other at least it: it is the middle entry of the
/// sorted triple.
pub proof fn lemma_median_is_middle(a: int, b: int, c: int)
    ensures
        ({
            let m = median_spec(a, b, c);
            ||| m == a && ((b <= m && m <= c) || (c <= m && m <= b))
            ||| m == b && ((a <= m && m <= c) || (c <= m && m <= a))
            ||| m == c && ((a <= m && m <= b) || (b <= m && m <= a))
        }),
{
}

/// The middle one of three measurements.
pub fn median(m: [usize; 3]) -> (mid: usize)
    ensures
        mid == median_spec(m[0] as int, m[1] as int, m[2] as int),
        mid == m[0] && ((m[1] <= mid && mid <= m[2]) || (m[2] <= mid && mid <= m[1]))
            || mid == m[1] && ((m[0] <= mid && mid <= m[2]) || (m[2] <= mid && mid <= m[0]))
            || mid == m[2] && ((m[0] <= mid && mid <= m[1]) || (m[1] <= mid && mid <= m[0])),
{
    let (a, b, c) = (m[0], m[1], m[2]);
    if (a <= b && b <= c) || (c <= b && b <= a) {
        b
    } else if (b <= a && a <= c) || (c <= a && a <= b) {
        a
    } else {
        c
    }
}

/// The distance from `mid` of the temperature at each of the first `n`
/// landing positions.
pub open spec fn label_gaps(g: Seq<Seq<usize>>, pos: Seq<Pos>, n: int, mid: int) -> Seq<int> {
    Seq::new(n as nat, |i: int| dist_spec(g[pos[i].0 as int][pos[i].1 as int] as int, mid))
}

/// A reading equal to the temperature of landing position `k` picks a
/// position with exactly that temperature: `k` itself or one listed before
/// it, so distinct labels read without noise identify the exit.
pub proof fn lemma_exact_label_found(g: Seq<Seq<usize>>, pos: Seq<Pos>, n: int, mid: int, k: int, best: int)
    requires
        0 <= k < n,
        mid == g[pos[k].0 as int][pos[k].1 as int],
        is_first_min(label_gaps(g, pos, n, mid), best),
    ensures
        g[pos[best].0 as int][pos[best].1 as int] == mid,
        best <= k,
{
    let gaps = label_gaps(g, pos, n, mid);
    assert(gaps[k] == 0);
    assert(gaps[best] <= gaps[k]);
}

/// The first of the first `n` landing positions whose temperature is closest
/// to `mid`.
pub fn closest_label(g: &Vec<Vec<usize>>, pos: &Vec<Pos>, n: usize, mid: usize) -> (best: usize)
    requires
        0 < n <= pos.len(),
        forall|i: int|
            0 <= i < n ==> #[trigger] pos@[i].0 < g.len() && pos@[i].1 < g@[pos@[i].0 as int].len(),
    ensures
        is_first_min(label_gaps(grid_view(g@), pos@, n as int, mid as int), best as int),
{
    let ghost gaps = label_gaps(grid_view(g@), pos@, n as int, mid as int);
    let (r0, c0) = pos[0];
    let mut best: usize = 0;
    let mut best_key: usize = UsizeTools::abs_diff(&g[r0][c0], mid);
    let mut i: usize = 1;
    while i < n
        invariant
            0 < n <= pos.len(),
            1 <= i <= n,
            gaps == label_gaps(grid_view(g@), pos@, n as int, mid as int),
            forall|q: int|
                0 <= q < n ==> #[trigger] pos@[q].0 < g.len() && pos@[q].1 < g@[pos@[q].0 as int].len(),
            0 <= best < i,
            best_key == gaps[best as int],
            forall|q: int| 0 <= q < i ==> best_key <= #[trigger] gaps[q],
            forall|q: int| 0 <= q < best ==> best_key < #[trigger] gaps[q],
        decreases n - i,
    {
        let (r, c) = pos[i];
        proof {
            assert(pos@[i as int].0 < g.len());
        }
        let key = UsizeTools::abs_diff(&g[r][c], mid);
        if key < best_key {
            best = i;
            best_key = key;
        }
        i += 1;
    }
    best
}

/// A `side x side` grid holding `value` everywhere.
pub fn filled_grid(side: usize, value: usize) -> (g: Vec<Vec<usize>>)
    ensures
        g.len() == side,
        forall|x: int| 0 <= x < side ==> #[trigger] g@[x]@ == Seq::new(side as nat, |y: int| value),
{
    let mut g: Vec<Vec<usize>> = Vec::new();
    let mut x: usize = 0;
    while x < side
        invariant
            0 <= x <= side,
            g.len() == x,
            forall|y: int| 0 <= y < x ==> #[trigger] g@[y]@ == Seq::new(side as nat, |z: int| value),
        decreases side - x,
    {
        g.push(vec![value; side]);
        x += 1;
    }
    g
}

} // verus!
