//! Cells of the square, distances between them, and the cell states.
use vstd::prelude::*;

verus! {


/// A cell `(row, column)`.
pub type Pos = (usize, usize);

/// A cost larger than any that occurs.
pub const INF: u64 = 1152921504606846976;

/// The distance between two naturals.
pub open spec fn gap(a: int, b: int) -> int {
    if a < b {
        b - a
    } else {
        a - b
    }
}

/// The Manhattan distance of two cells.
pub open spec fn manhattan(p: Pos, q: Pos) -> int {
    gap(p.0 as int, q.0 as int) + gap(p.1 as int, q.1 as int)
}

/// The Manhattan distance of two cells fits in a `usize`.
pub open spec fn dist_fits(p: Pos, q: Pos) -> bool {
    manhattan(p, q) <= usize::MAX
}

/// `a` comes before `b` in row-major order.
pub open spec fn pos_lt(a: Pos, b: Pos) -> bool {
    a.0 < b.0 || (a.0 == b.0 && a.1 < b.1)
}

/// `r` is the integer square root of `x`.
pub open spec fn is_isqrt(x: int, r: int) -> bool {
    r >= 0 && r * r <= x && x < (r + 1) * (r + 1)
}

/// Arithmetic helpers on `usize`.
pub trait UsizeTools: Sized {
    /// The absolute value of the difference.
    fn abs_diff(&self, other: Self) -> usize;

    /// The integer square root.
    fn sqrt(&self) -> usize;
}

impl UsizeTools for usize {
    fn abs_diff(&self, other: usize) -> (d: usize)
        ensures
            d == gap(*self as int, other as int),
    {
        if *self < other {
            other - *self
        } else {
            *self - other
        }
    }

    /// Binary search on `0..INF` for the largest `m` with `m * m <= self`.
    fn sqrt(&self) -> (ok: usize)
        ensures
            is_isqrt(*self as int, ok as int),
    {
        let x = *self as u64;
        let mut ok: u64 = 0;
        let mut ng: u64 = INF;
        proof {
            assert(usize::MAX <= u64::MAX);
            assert(x < (INF as int) * (INF as int)) by (nonlinear_arith)
                requires
                    x <= u64::MAX,
            ;
        }
        while ng - ok > 1
            invariant
                ok < ng <= INF,
                ok * ok <= x,
                x < ng * ng,
            decreases ng - ok,
        {
            let mid = ok + (ng - ok) / 2;
            // `mid * mid <= x`, decided without overflow
            let fits = mid <= x / mid;
            proof {
                assert(mid > 0);
                assert(fits <==> mid * mid <= x) by (nonlinear_arith)
                    requires
                        mid > 0,
                        fits == (mid <= x / mid),
                        x >= 0,
                ;
            }
            if fits {
                ok = mid;
            } else {
                ng = mid;
            }
        }
        proof {
            assert(ng == ok + 1);
            assert(ok <= x) by (nonlinear_arith)
                requires
                    ok * ok <= x,
                    ok >= 0,
            ;
        }
        ok as usize
    }
}

/// Vector operations on cells.
pub trait Vec2: Sized {
    /// The difference fits (no component underflows).
    spec fn sub_fits(&self, other: &Self) -> bool;

    /// The Manhattan distance fits in a `usize`.
    spec fn dist_ok(&self, other: &Self) -> bool;

    /// The componentwise difference.
    fn sub(&self, other: &Self) -> Self
        requires
            self.sub_fits(other),
    ;

    /// The Manhattan distance.
    fn dist(&self, other: &Self) -> usize
        requires
            self.dist_ok(other),
    ;
}

impl Vec2 for Pos {
    open spec fn sub_fits(&self, other: &Pos) -> bool {
        self.0 >= other.0 && self.1 >= other.1
    }

    open spec fn dist_ok(&self, other: &Pos) -> bool {
        dist_fits(*self, *other)
    }

    fn sub(&self, other: &Pos) -> (d: Pos)
        ensures
            d == ((self.0 - other.0) as usize, (self.1 - other.1) as usize),
    {
        (self.0 - other.0, self.1 - other.1)
    }

    fn dist(&self, other: &Pos) -> (d: usize)
        ensures
            d == manhattan(*self, *other),
    {
        UsizeTools::abs_diff(&self.0, other.0) + UsizeTools::abs_diff(&self.1, other.1)
    }
}

/// The state of a cell.
#[derive(Debug, Clone, Copy, PartialEq, Eq)]
pub enum State {
    /// rock, with the damage dealt so far
    Rock(usize),
    /// broken rock, with the damage that broke it
    Destroyed(usize),
}

/// What a reply of the judge to a dig means.
#[derive(Debug, Clone, Copy, PartialEq, Eq)]
pub enum Reply {
    /// the rock still stands
    Standing,
    /// the rock broke
    Broken,
    /// the game is over (every house has water, or the dig was invalid)
    Over,
}

/// The meaning of a numeric reply: `0` standing, `1` broken, anything else over.
pub open spec fn reply_of(code: isize) -> Reply {
    if code == 0 {
        Reply::Standing
    } else if code == 1 {
        Reply::Broken
    } else {
        Reply::Over
    }
}

/// A grid of cell states that is `n x n`.
pub open spec fn square_grid(state: Seq<Vec<State>>, n: int) -> bool {
    &&& state.len() == n
    &&& forall|r: int| 0 <= r < n ==> #[trigger] state[r].len() == n
}

/// The state of cell `p`.
pub open spec fn cell(state: Seq<Vec<State>>, p: Pos) -> State {
    state[p.0 as int]@[p.1 as int]
}

/// An `n x n` grid of untouched rock.
pub fn rock_grid(n: usize) -> (state: Vec<Vec<State>>)
    ensures
        square_grid(state@, n as int),
        forall|r: int, c: int| 0 <= r < n && 0 <= c < n ==> #[trigger] state@[r]@[c] == State::Rock(0),
{
    let mut state: Vec<Vec<State>> = Vec::new();
    let mut r: usize = 0;
    while r < n
        invariant
            0 <= r <= n,
            state.len() == r,
            forall|q: int| 0 <= q < r ==> #[trigger] state@[q]@ == Seq::new(n as nat, |c: int| State::Rock(0)),
        decreases n - r,
    {
        state.push(vec![State::Rock(0); n]);
        r += 1;
    }
    state
}

/// A dig aimed at a cell that is already broken.
#[derive(Debug, Clone, Copy, PartialEq, Eq)]
pub struct NotRock;

/// What a dig of power `x` at `pos`, answered by `code`, does to the grid
/// `before`, giving `after` and `result`. On rock the result is the meaning
/// of the reply, and only `pos` may change: its damage grows by `x` while it
/// stands, it breaks with that damage on `Broken`, and stays as it was on
/// `Over`. On a broken cell the result is `Err(NotRock)` and nothing changes.
pub open spec fn dig_outcome(
    before: Seq<Vec<State>>,
    after: Seq<Vec<State>>,
    pos: Pos,
    x: usize,
    code: isize,
    result: Result<Reply, NotRock>,
) -> bool {
    match cell(before, pos) {
        State::Destroyed(_) => result == Err::<Reply, NotRock>(NotRock) && after == before,
        State::Rock(d) => {
            &&& result == Ok::<Reply, NotRock>(reply_of(code))
            &&& after.len() == before.len()
            &&& forall|r: int| 0 <= r < before.len() ==> #[trigger] after[r].len() == before[r].len()
            &&& forall|r: int, c: int|
                0 <= r < before.len() && 0 <= c < before[r].len() && (r, c) != (pos.0 as int, pos.1 as int)
                    ==> #[trigger] after[r]@[c] == before[r]@[c]
            &&& cell(after, pos) == match reply_of(code) {
                Reply::Standing => State::Rock((d + x) as usize),
                Reply::Broken => State::Destroyed((d + x) as usize),
                Reply::Over => State::Rock(d),
            }
        },
    }
}

/// Records the judge's reply `code` to a dig of power `x` at `pos`
/// (see `dig_outcome`): a cell of rock takes the damage and breaks on a
/// reply of `1`; a broken cell is refused with `Err(NotRock)`.
pub fn record_dig(state: &mut Vec<Vec<State>>, pos: Pos, x: usize, code: isize) -> (result: Result<Reply, NotRock>)
    requires
        pos.0 < old(state).len(),
        pos.1 < old(state)@[pos.0 as int].len(),
        cell(old(state)@, pos) is Rock ==> cell(old(state)@, pos)->Rock_0 + x <= usize::MAX,
    ensures
        dig_outcome(old(state)@, final(state)@, pos, x, code, result),
{
    let (r, c) = pos;
    let d = match state[r][c] {
        State::Rock(d) => d,
        State::Destroyed(_) => {
            return Err(NotRock);
        },
    };
    let ghost before = state@;
    if code == 0 {
        state[r][c] = State::Rock(d + x);
        proof {
            assert forall|q: int| 0 <= q < before.len() implies #[trigger] state@[q].len() == before[q].len() by {
                if q != r {
                    assert(state@[q] == before[q]);
                }
            }
            assert forall|q: int, k: int|
                0 <= q < before.len() && 0 <= k < before[q].len() && (q, k) != (r as int, c as int)
                    implies #[trigger] state@[q]@[k] == before[q]@[k] by {
                if q != r {
                    assert(state@[q] == before[q]);
                }
            }
        }
        Ok(Reply::Standing)
    } else if code == 1 {
        state[r][c] = State::Destroyed(d + x);
        proof {
            assert forall|q: int| 0 <= q < before.len() implies #[trigger] state@[q].len() == before[q].len() by {
                if q != r {
                    assert(state@[q] == before[q]);
                }
            }
            assert forall|q: int, k: int|
                0 <= q < before.len() && 0 <= k < before[q].len() && (q, k) != (r as int, c as int)
                    implies #[trigger] state@[q]@[k] == before[q]@[k] by {
                if q != r {
                    assert(state@[q] == before[q]);
                }
            }
        }
        Ok(Reply::Broken)
    } else {
        Ok(Reply::Over)
    }
}

/// `Some(strength)` for a broken cell, `None` for rock.
pub fn broken_strength(state: &Vec<Vec<State>>, pos: Pos) -> (s: Option<usize>)
    requires
        pos.0 < state.len(),
        pos.1 < state@[pos.0 as int].len(),
    ensures
        s == match cell(state@, pos) {
            State::Rock(_) => None,
            State::Destroyed(d) => Some(d),
        },
{
    match state[pos.0][pos.1] {
        State::Rock(_) => None,
        State::Destroyed(d) => Some(d),
    }
}

/// The cells dug, in order, when digging along column `c` from row `rstart`
/// to row `rend`, both included.
pub open spec fn column_cells(c: usize, rstart: usize, rend: usize) -> Seq<Pos> {
    if rstart <= rend {
        Seq::new((rend - rstart + 1) as nat, |k: int| ((rstart + k) as usize, c))
    } else {
        Seq::new((rstart - rend + 1) as nat, |k: int| ((rstart - k) as usize, c))
    }
}

/// The cells dug, in order, when digging along row `r` from column `cstart`
/// to column `cend`, both included.
pub open spec fn row_cells(r: usize, cstart: usize, cend: usize) -> Seq<Pos> {
    if cstart <= cend {
        Seq::new((cend - cstart + 1) as nat, |k: int| (r, (cstart + k) as usize))
    } else {
        Seq::new((cstart - cend + 1) as nat, |k: int| (r, (cstart - k) as usize))
    }
}

/// The cells of `tunnel(start, end)`: down the column of `start` to the row
/// of `end`, then along that row to the column of `end`.
pub open spec fn tunnel_cells(start: Pos, end: Pos) -> Seq<Pos> {
    column_cells(start.1, start.0, end.0) + row_cells(end.0, start.1, end.1)
}

/// Appends the cells of a vertical dig along column `c` from `rstart` to `rend`.
pub fn push_column(cells: &mut Vec<Pos>, c: usize, rstart: usize, rend: usize)
    ensures
        final(cells)@ == old(cells)@ + column_cells(c, rstart, rend),
{
    let ghost c0 = cells@;
    let mut r = rstart;
    loop
        invariant_except_break
            rstart <= rend ==> rstart <= r <= rend,
            rstart > rend ==> rend <= r <= rstart,
            rstart <= rend ==> cells@ == c0 + column_cells(c, rstart, rend).take(r - rstart),
            rstart > rend ==> cells@ == c0 + column_cells(c, rstart, rend).take(rstart - r),
        ensures
            cells@ == c0 + column_cells(c, rstart, rend),
        decreases if rstart <= rend { rend - r } else { r - rend },
    {
        cells.push((r, c));
        if r == rend {
            proof {
                if rstart <= rend {
                    assert(column_cells(c, rstart, rend).take(r - rstart + 1) =~= column_cells(c, rstart, rend));
                } else {
                    assert(column_cells(c, rstart, rend).take(rstart - r + 1) =~= column_cells(c, rstart, rend));
                }
                assert(cells@ =~= c0 + column_cells(c, rstart, rend));
            }
            break;
        } else if rend < r {
            proof {
                assert(cells@ =~= c0 + column_cells(c, rstart, rend).take(rstart - r + 1));
            }
            r -= 1;
        } else {
            proof {
                assert(cells@ =~= c0 + column_cells(c, rstart, rend).take(r - rstart + 1));
            }
            r += 1;
        }
    }
}

/// Appends the cells of a horizontal dig along row `r` from `cstart` to `cend`.
pub fn push_row(cells: &mut Vec<Pos>, r: usize, cstart: usize, cend: usize)
    ensures
        final(cells)@ == old(cells)@ + row_cells(r, cstart, cend),
{
    let ghost c0 = cells@;
    let mut c = cstart;
    loop
        invariant_except_break
            cstart <= cend ==> cstart <= c <= cend,
            cstart > cend ==> cend <= c <= cstart,
            cstart <= cend ==> cells@ == c0 + row_cells(r, cstart, cend).take(c - cstart),
            cstart > cend ==> cells@ == c0 + row_cells(r, cstart, cend).take(cstart - c),
        ensures
            cells@ == c0 + row_cells(r, cstart, cend),
        decreases if cstart <= cend { cend - c } else { c - cend },
    {
        cells.push((r, c));
        if c == cend {
            proof {
                if cstart <= cend {
                    assert(row_cells(r, cstart, cend).take(c - cstart + 1) =~= row_cells(r, cstart, cend));
                } else {
                    assert(row_cells(r, cstart, cend).take(cstart - c + 1) =~= row_cells(r, cstart, cend));
                }
                assert(cells@ =~= c0 + row_cells(r, cstart, cend));
            }
            break;
        } else if cend < c {
            proof {
                assert(cells@ =~= c0 + row_cells(r, cstart, cend).take(cstart - c + 1));
            }
            c -= 1;
        } else {
            proof {
                assert(cells@ =~= c0 + row_cells(r, cstart, cend).take(c - cstart + 1));
            }
            c += 1;
        }
    }
}

/// The cells of a dig from `start` to `end`: vertically first, then horizontally.
pub fn tunnel_route(start: Pos, end: Pos) -> (cells: Vec<Pos>)
    ensures
        cells@ == tunnel_cells(start, end),
{
    let mut cells: Vec<Pos> = Vec::new();
    push_column(&mut cells, start.1, start.0, end.0);
    push_row(&mut cells, end.0, start.1, end.1);
    proof {
        assert(cells@ =~= tunnel_cells(start, end));
    }
    cells
}

/// The cell after position `i` of `cells` is the cell at `i` or one of its
/// four neighbours.
pub open spec fn step_ok(cells: Seq<Pos>, i: int) -> bool {
    manhattan(cells[i], cells[i + 1]) <= 1
}

/// `cells` is a chain from `a` to `b`: it starts at `a`, ends at `b`, and
/// each cell is the previous one or a neighbour of it, so water let in at
/// `a` reaches `b` once every cell is dug.
pub open spec fn is_chain(cells: Seq<Pos>, a: Pos, b: Pos) -> bool {
    &&& cells.len() > 0
    &&& cells[0] == a
    &&& cells[cells.len() - 1] == b
    &&& forall|i: int| 0 <= i < cells.len() - 1 ==> #[trigger] step_ok(cells, i)
}

/// Two chains joined where the first ends next to (or at) the start of the
/// second form one chain.
pub proof fn lemma_chain_concat(x: Seq<Pos>, y: Seq<Pos>, a: Pos, m: Pos, m2: Pos, b: Pos)
    requires
        is_chain(x, a, m),
        is_chain(y, m2, b),
        manhattan(m, m2) <= 1,
    ensures
        is_chain(x + y, a, b),
{
    let z = x + y;
    assert forall|i: int| 0 <= i < z.len() - 1 implies #[trigger] step_ok(z, i) by {
        if i < x.len() - 1 {
            assert(step_ok(x, i));
        } else if i == x.len() - 1 {
            assert(z[i] == m);
            assert(z[i + 1] == m2);
        } else {
            assert(step_ok(y, i - x.len()));
            assert(z[i] == y[i - x.len()]);
            assert(z[i + 1] == y[i - x.len() + 1]);
        }
    }
}

/// A dig along a column is a chain between its ends.
pub proof fn lemma_column_chain(c: usize, rstart: usize, rend: usize)
    ensures
        is_chain(column_cells(c, rstart, rend), (rstart, c), (rend, c)),
{
    let s = column_cells(c, rstart, rend);
    assert forall|i: int| 0 <= i < s.len() - 1 implies #[trigger] step_ok(s, i) by {}
}

/// A dig along a row is a chain between its ends.
pub proof fn lemma_row_chain(r: usize, cstart: usize, cend: usize)
    ensures
        is_chain(row_cells(r, cstart, cend), (r, cstart), (r, cend)),
{
    let s = row_cells(r, cstart, cend);
    assert forall|i: int| 0 <= i < s.len() - 1 implies #[trigger] step_ok(s, i) by {}
}

/// The cells of `tunnel(start, end)` form a chain from `start` to `end`.
pub proof fn lemma_tunnel_chain(start: Pos, end: Pos)
    ensures
        is_chain(tunnel_cells(start, end), start, end),
{
    lemma_column_chain(start.1, start.0, end.0);
    lemma_row_chain(end.0, start.1, end.1);
    lemma_chain_concat(
        column_cells(start.1, start.0, end.0),
        row_cells(end.0, start.1, end.1),
        start,
        (end.0, start.1),
        (end.0, start.1),
        end,
    );
}

/// `k` is what a running minimum started at `cap` picks: the first position
/// of a least value of `scores` when some value lies below `cap`, else `0`.
pub open spec fn first_min_below(scores: Seq<int>, cap: int, k: int) -> bool {
    if exists|i: int| 0 <= i < scores.len() && #[trigger] scores[i] < cap {
        &&& 0 <= k < scores.len()
        &&& forall|q: int| 0 <= q < scores.len() ==> scores[k] <= #[trigger] scores[q]
        &&& forall|q: int| 0 <= q < k ==> scores[k] < #[trigger] scores[q]
    } else {
        k == 0
    }
}

/// The distance from `p` to each cell of `cells`.
pub open spec fn distances(p: Pos, cells: Seq<Pos>) -> Seq<int> {
    Seq::new(cells.len(), |i: int| manhattan(p, cells[i]))
}

/// The index of the cell of `cells` nearest to `p` (the first on ties; `0`
/// when none is nearer than `INF`).
pub fn nearest_index(p: Pos, cells: &Vec<Pos>) -> (k: usize)
    requires
        forall|i: int| 0 <= i < cells.len() ==> #[trigger] dist_fits(p, cells@[i]),
    ensures
        first_min_below(distances(p, cells@), INF as int, k as int),
{
    let ghost ds = distances(p, cells@);
    let mut idx: usize = 0;
    let mut best: u64 = INF;
    let mut i: usize = 0;
    while i < cells.len()
        invariant
            0 <= i <= cells.len(),
            ds == distances(p, cells@),
            forall|q: int| 0 <= q < cells.len() ==> #[trigger] dist_fits(p, cells@[q]),
            best <= INF,
            (exists|q: int| 0 <= q < i && #[trigger] ds[q] < INF) ==> {
                &&& 0 <= idx < i
                &&& best == ds[idx as int]
                &&& forall|q: int| 0 <= q < i ==> best <= #[trigger] ds[q]
                &&& forall|q: int| 0 <= q < idx ==> best < #[trigger] ds[q]
            },
            !(exists|q: int| 0 <= q < i && #[trigger] ds[q] < INF) ==> idx == 0 && best == INF,
        decreases cells.len() - i,
    {
        let d = Vec2::dist(&p, &cells[i]);
        proof {
            assert(usize::MAX <= u64::MAX);
        }
        if best > d as u64 {
            best = d as u64;
            idx = i;
        }
        proof {
            if !(exists|q: int| 0 <= q < i && #[trigger] ds[q] < INF) {
                if ds[i as int] < INF {
                    assert(exists|q: int| 0 <= q < i + 1 && #[trigger] ds[q] < INF);
                } else {
                    assert forall|q: int| 0 <= q < i + 1 implies !(#[trigger] ds[q] < INF) by {}
                }
            } else {
                let w = choose|q: int| 0 <= q < i && #[trigger] ds[q] < INF;
                assert(0 <= w < i + 1 && ds[w] < INF);
            }
        }
        i += 1;
    }
    idx
}

/// The choice of a running minimum is determined by the scores.
pub proof fn lemma_first_min_unique(scores: Seq<int>, cap: int, k: int)
    requires
        first_min_below(scores, cap, k),
    ensures
        (choose|j: int| first_min_below(scores, cap, j)) == k,
{
    let j = choose|j: int| first_min_below(scores, cap, j);
    assert(first_min_below(scores, cap, j));
    if exists|i: int| 0 <= i < scores.len() && #[trigger] scores[i] < cap {
        if j < k {
            assert(scores[k] < scores[j]);
        } else if k < j {
            assert(scores[j] < scores[k]);
        }
    }
}

} // verus!
