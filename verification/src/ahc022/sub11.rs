//! Keeps a random field only around the landing positions, fills the rest,
//! smooths it when the noise is low, and answers by matching a measured 5x5
//! pattern.
use vstd::prelude::*;
use crate::ahc022::gaussian_filter::{grid_view, smoothing_grid, kernel5x5, lemma_smoothing_unique};
use crate::ahc022::temperature_field::{
    Pos,
    TemperatureField,
    is_first_min,
    is_random_field,
    FIELD_MAX,
};
use crate::ahc022::sub08::lemma_random_field_smoothable;

verus! {

/// Side of the measured pattern.
pub const PATTERN_LEN: usize = 5;

/// Half the side of the pattern (`PATTERN_LEN / 2`).
pub const HALF: isize = 2;

/// Temperature of the cells far from every landing position.
pub const FILL: usize = 500;

/// Noise below which the field is smoothed.
pub const SMOOTH_BELOW: usize = 100;

/// Coordinate `v` shifted by `d` and wrapped as the code does:
/// `((v as isize + d) as usize) % l`.
pub open spec fn shifted(v: usize, d: int, l: usize) -> int {
    ((((v as isize) + d) as usize) % l) as int
}

/// Cell `(x, y)` lies in the 5x5 window around `(r, c)`, among the offsets
/// `(a, b)` that come before `(da, db)` in row-major order.
pub open spec fn hit_before(r: usize, c: usize, l: usize, x: int, y: int, da: int, db: int) -> bool {
    exists|a: int, b: int|
        -HALF <= a <= HALF && -HALF <= b <= HALF && (a < da || (a == da && b < db)) && #[trigger] shifted(
            r,
            a,
            l,
        ) == x && #[trigger] shifted(c, b, l) == y
}

/// Cell `(x, y)` lies in the 5x5 window around `(r, c)`.
pub open spec fn in_window(r: usize, c: usize, l: usize, x: int, y: int) -> bool {
    hit_before(r, c, l, x, y, HALF + 1, -HALF)
}

/// Cell `(x, y)` lies in the window of one of the first `k` positions.
pub open spec fn masked_by(pos: Seq<Pos>, k: int, l: usize, x: int, y: int) -> bool {
    exists|q: int| 0 <= q < k && #[trigger] in_window(pos[q].0, pos[q].1, l, x, y)
}

/// The field `g` kept inside the windows and `FILL` elsewhere.
pub open spec fn masked_field(g: Seq<Seq<usize>>, pos: Seq<Pos>, l: usize) -> Seq<Seq<usize>> {
    Seq::new(
        l as nat,
        |x: int|
            Seq::new(
                l as nat,
                |y: int|
                    if masked_by(pos, pos.len() as int, l, x, y) {
                        g[x][y]
                    } else {
                        FILL
                    },
            ),
    )
}

/// Marks the 5x5 window around `(r, c)`.
fn mark_around(mask: &mut Vec<Vec<bool>>, r: usize, c: usize, l: usize)
    requires
        l > 0,
        r + 2 <= isize::MAX,
        c + 2 <= isize::MAX,
        old(mask).len() == l,
        forall|x: int| 0 <= x < l ==> #[trigger] old(mask)@[x].len() == l,
    ensures
        final(mask).len() == l,
        forall|x: int| 0 <= x < l ==> #[trigger] final(mask)@[x].len() == l,
        forall|x: int, y: int|
            0 <= x < l && 0 <= y < l ==> #[trigger] final(mask)@[x]@[y] == (old(mask)@[x]@[y] || in_window(
                r,
                c,
                l,
                x,
                y,
            )),
{
    let ghost m0 = mask@;
    let mut dr: isize = -HALF;
    while dr <= HALF
        invariant
            l > 0,
            r + 2 <= isize::MAX,
            c + 2 <= isize::MAX,
            -HALF <= dr <= HALF + 1,
            mask.len() == l,
            forall|x: int| 0 <= x < l ==> #[trigger] mask@[x].len() == l,
            forall|x: int, y: int|
                0 <= x < l && 0 <= y < l ==> #[trigger] mask@[x]@[y] == (m0[x]@[y] || hit_before(
                    r,
                    c,
                    l,
                    x,
                    y,
                    dr as int,
                    -HALF as int,
                )),
        decreases HALF + 1 - dr,
    {
        let mut dc: isize = -HALF;
        while dc <= HALF
            invariant
                l > 0,
                r + 2 <= isize::MAX,
                c + 2 <= isize::MAX,
                -HALF <= dr <= HALF,
                -HALF <= dc <= HALF + 1,
                mask.len() == l,
                forall|x: int| 0 <= x < l ==> #[trigger] mask@[x].len() == l,
                forall|x: int, y: int|
                    0 <= x < l && 0 <= y < l ==> #[trigger] mask@[x]@[y] == (m0[x]@[y] || hit_before(
                        r,
                        c,
                        l,
                        x,
                        y,
                        dr as int,
                        dc as int,
                    )),
            decreases HALF + 1 - dc,
        {
            let i = ((r as isize) + dr) as usize % l;
            let j = ((c as isize) + dc) as usize % l;
            proof {
                assert(i == shifted(r, dr as int, l));
                assert(j == shifted(c, dc as int, l));
                assert(mask@[i as int].len() == l);
            }
            let ghost before = mask@;
            mask[i][j] = true;
            proof {
                assert forall|x: int| 0 <= x < l implies #[trigger] mask@[x].len() == l by {
                    if x != i {
                        assert(mask@[x] == before[x]);
                    }
                }
                assert forall|x: int, y: int|
                    0 <= x < l && 0 <= y < l implies #[trigger] mask@[x]@[y] == (m0[x]@[y] || hit_before(
                    r,
                    c,
                    l,
                    x,
                    y,
                    dr as int,
                    dc + 1,
                )) by {
                    if x != i {
                        assert(mask@[x] == before[x]);
                    }
                    if hit_before(r, c, l, x, y, dr as int, dc + 1) {
                        let (a, b) = choose|a: int, b: int|
                            -HALF <= a <= HALF && -HALF <= b <= HALF && (a < dr || (a == dr && b < dc + 1))
                                && #[trigger] shifted(r, a, l) == x && #[trigger] shifted(c, b, l) == y;
                        if !(a == dr && b == dc) {
                            assert(hit_before(r, c, l, x, y, dr as int, dc as int));
                        }
                    }
                    if x == i && y == j {
                        assert(shifted(r, dr as int, l) == x && shifted(c, dc as int, l) == y);
                        assert(hit_before(r, c, l, x, y, dr as int, dc + 1));
                    }
                    if hit_before(r, c, l, x, y, dr as int, dc as int) {
                        let (a, b) = choose|a: int, b: int|
                            -HALF <= a <= HALF && -HALF <= b <= HALF && (a < dr || (a == dr && b < dc))
                                && #[trigger] shifted(r, a, l) == x && #[trigger] shifted(c, b, l) == y;
                        assert(hit_before(r, c, l, x, y, dr as int, dc + 1));
                    }
                }
            }
            dc += 1;
        }
        proof {
            assert forall|x: int, y: int|
                0 <= x < l && 0 <= y < l implies #[trigger] mask@[x]@[y] == (m0[x]@[y] || hit_before(
                r,
                c,
                l,
                x,
                y,
                dr + 1,
                -HALF as int,
            )) by {
                if hit_before(r, c, l, x, y, dr + 1, -HALF as int) {
                    let (a, b) = choose|a: int, b: int|
                        -HALF <= a <= HALF && -HALF <= b <= HALF && (a < dr + 1 || (a == dr + 1 && b
                            < -HALF)) && #[trigger] shifted(r, a, l) == x && #[trigger] shifted(c, b, l) == y;
                    assert(hit_before(r, c, l, x, y, dr as int, HALF + 1));
                }
                if hit_before(r, c, l, x, y, dr as int, HALF + 1) {
                    let (a, b) = choose|a: int, b: int|
                        -HALF <= a <= HALF && -HALF <= b <= HALF && (a < dr || (a == dr && b < HALF
                            + 1)) && #[trigger] shifted(r, a, l) == x && #[trigger] shifted(c, b, l) == y;
                    assert(hit_before(r, c, l, x, y, dr + 1, -HALF as int));
                }
            }
        }
        dr += 1;
    }
}

/// The mask of the windows around all landing positions.
fn window_mask(pos: &Vec<Pos>, l: usize) -> (mask: Vec<Vec<bool>>)
    requires
        pos.len() > 0 ==> l > 0,
        forall|q: int| 0 <= q < pos.len() ==> #[trigger] pos@[q].0 + 2 <= isize::MAX && pos@[q].1 + 2 <= isize::MAX,
    ensures
        mask.len() == l,
        forall|x: int| 0 <= x < l ==> #[trigger] mask@[x].len() == l,
        forall|x: int, y: int|
            0 <= x < l && 0 <= y < l ==> #[trigger] mask@[x]@[y] == masked_by(pos@, pos.len() as int, l, x, y),
{
    let mut mask: Vec<Vec<bool>> = Vec::new();
    let mut x: usize = 0;
    while x < l
        invariant
            0 <= x <= l,
            mask.len() == x,
            forall|z: int| 0 <= z < x ==> #[trigger] mask@[z]@ == Seq::new(l as nat, |w: int| false),
        decreases l - x,
    {
        mask.push(vec![false; l]);
        x += 1;
    }
    let mut k: usize = 0;
    while k < pos.len()
        invariant
            0 <= k <= pos.len(),
            pos.len() > 0 ==> l > 0,
            forall|q: int| 0 <= q < pos.len() ==> #[trigger] pos@[q].0 + 2 <= isize::MAX && pos@[q].1 + 2 <= isize::MAX,
            mask.len() == l,
            forall|z: int| 0 <= z < l ==> #[trigger] mask@[z].len() == l,
            forall|z: int, y: int|
                0 <= z < l && 0 <= y < l ==> #[trigger] mask@[z]@[y] == masked_by(pos@, k as int, l, z, y),
        decreases pos.len() - k,
    {
        let (r, c) = pos[k];
        proof {
            assert(pos@[k as int].0 + 2 <= isize::MAX);
        }
        let ghost before = mask@;
        mark_around(&mut mask, r, c, l);
        proof {
            assert forall|z: int, y: int|
                0 <= z < l && 0 <= y < l implies #[trigger] mask@[z]@[y] == masked_by(pos@, k + 1, l, z, y) by {
                assert(before[z]@[y] == masked_by(pos@, k as int, l, z, y));
                if masked_by(pos@, k + 1, l, z, y) {
                    let q = choose|q: int| 0 <= q < k + 1 && #[trigger] in_window(pos@[q].0, pos@[q].1, l, z, y);
                    if q < k {
                        assert(masked_by(pos@, k as int, l, z, y));
                    }
                }
                if masked_by(pos@, k as int, l, z, y) {
                    let q = choose|q: int| 0 <= q < k && #[trigger] in_window(pos@[q].0, pos@[q].1, l, z, y);
                    assert(masked_by(pos@, k + 1, l, z, y));
                }
                if in_window(r, c, l, z, y) {
                    assert(in_window(pos@[k as int].0, pos@[k as int].1, l, z, y));
                    assert(masked_by(pos@, k + 1, l, z, y));
                }
            }
        }
        k += 1;
    }
    mask
}

/// # Solver
pub struct Solver {
    /// side of the torus
    pub L: usize,
    /// number of exits
    pub N: usize,
    /// measurement noise
    pub S: usize,
    /// the temperatures and the exits
    pub temperature: TemperatureField,
}

impl Solver {
    /// A solver with an `l x l` field of zeros.
    pub fn new(l: usize, n: usize, s: usize, landing_pos: Vec<Pos>) -> (solver: Self)
        ensures
            solver.L == l,
            solver.N == n,
            solver.S == s,
            solver.temperature.L == l,
            solver.temperature.landing_pos@ == landing_pos@,
            solver.temperature.is_square(),
    {
        let temperature = TemperatureField::new(l, landing_pos);
        Solver { L: l, N: n, S: s, temperature }
    }

    /// Fills the field at random, keeps it only in the 5x5 windows around the
    /// landing positions (`FILL` elsewhere) and, when the noise `S` is below
    /// 100, smooths it with the 5x5 kernel.
    pub fn create_temperature(&mut self)
        requires
            old(self).temperature.is_square(),
            old(self).L == old(self).temperature.L,
            old(self).temperature.landing_pos.len() > 0 ==> old(self).temperature.L > 0,
            forall|q: int|
                0 <= q < old(self).temperature.landing_pos.len() ==> #[trigger] old(self).temperature.landing_pos@[q].0
                    + 2 <= isize::MAX && old(self).temperature.landing_pos@[q].1 + 2 <= isize::MAX,
            old(self).S < SMOOTH_BELOW ==> 2 <= old(self).temperature.L,
        ensures
            final(self).L == old(self).L,
            final(self).N == old(self).N,
            final(self).S == old(self).S,
            final(self).temperature.L == old(self).temperature.L,
            final(self).temperature.landing_pos == old(self).temperature.landing_pos,
            exists|g: Seq<Seq<usize>>|
                #[trigger] is_random_field(g, old(self).temperature.L as int) && final(self).temperature.grid()
                    == (if old(self).S < SMOOTH_BELOW {
                    smoothing_grid(
                        masked_field(g, old(self).temperature.landing_pos@, old(self).temperature.L),
                        kernel5x5(),
                    )
                } else {
                    masked_field(g, old(self).temperature.landing_pos@, old(self).temperature.L)
                }),
    {
        let l = self.temperature.L;
        self.temperature.generate_random_field();
        let ghost g = self.temperature.grid();
        let ghost pos = self.temperature.landing_pos@;
        proof {
            assert forall|x: int| 0 <= x < l implies #[trigger] g[x].len() == l by {
                assert(self.temperature.field@[x].len() == l);
            }
            assert forall|x: int, y: int| 0 <= x < l && 0 <= y < l implies #[trigger] g[x][y] < FIELD_MAX by {
                assert(self.temperature.field@[x]@[y] < FIELD_MAX);
            }
            assert(is_random_field(g, l as int));
        }
        let mask = window_mask(&self.temperature.landing_pos, l);
        let mut r: usize = 0;
        while r < l
            invariant
                0 <= r <= l,
                l == self.temperature.L,
                pos == self.temperature.landing_pos@,
                self.temperature.landing_pos == old(self).temperature.landing_pos,
                is_random_field(g, l as int),
                mask.len() == l,
                forall|x: int| 0 <= x < l ==> #[trigger] mask@[x].len() == l,
                forall|x: int, y: int|
                    0 <= x < l && 0 <= y < l ==> #[trigger] mask@[x]@[y] == masked_by(pos, pos.len() as int, l, x, y),
                self.temperature.is_square(),
                forall|x: int, y: int|
                    0 <= x < l && 0 <= y < l ==> #[trigger] self.temperature.field@[x]@[y] == if x < r {
                        masked_field(g, pos, l)[x][y]
                    } else {
                        g[x][y]
                    },
                self.L == old(self).L,
                self.N == old(self).N,
                self.S == old(self).S,
            decreases l - r,
        {
            let mut c: usize = 0;
            while c < l
                invariant
                    0 <= r < l,
                    0 <= c <= l,
                    l == self.temperature.L,
                    pos == self.temperature.landing_pos@,
                    self.temperature.landing_pos == old(self).temperature.landing_pos,
                self.temperature.landing_pos == old(self).temperature.landing_pos,
                    is_random_field(g, l as int),
                    mask.len() == l,
                    forall|x: int| 0 <= x < l ==> #[trigger] mask@[x].len() == l,
                    forall|x: int, y: int|
                        0 <= x < l && 0 <= y < l ==> #[trigger] mask@[x]@[y] == masked_by(pos, pos.len() as int, l, x, y),
                    self.temperature.is_square(),
                    forall|x: int, y: int|
                        0 <= x < l && 0 <= y < l ==> #[trigger] self.temperature.field@[x]@[y] == if x < r || (x == r && y < c) {
                            masked_field(g, pos, l)[x][y]
                        } else {
                            g[x][y]
                        },
                    self.L == old(self).L,
                    self.N == old(self).N,
                    self.S == old(self).S,
                decreases l - c,
            {
                proof {
                    assert(mask@[r as int].len() == l);
                    assert(self.temperature.field@[r as int].len() == l);
                }
                if !mask[r][c] {
                    let ghost before = self.temperature.field@;
                    self.temperature.field[r][c] = FILL;
                    proof {
                        assert forall|x: int| 0 <= x < l implies #[trigger] self.temperature.field@[x].len() == l by {
                            if x != r {
                                assert(self.temperature.field@[x] == before[x]);
                            }
                        }
                        assert forall|x: int, y: int|
                            0 <= x < l && 0 <= y < l implies #[trigger] self.temperature.field@[x]@[y] == if x < r || (x == r && y < c + 1) {
                                masked_field(g, pos, l)[x][y]
                            } else {
                                g[x][y]
                            } by {
                            if x != r {
                                assert(self.temperature.field@[x] == before[x]);
                            }
                        }
                    }
                }
                c += 1;
            }
            r += 1;
        }
        let ghost m = masked_field(g, pos, l);
        proof {
            let gr = self.temperature.grid();
            assert forall|x: int| 0 <= x < l implies #[trigger] gr[x] =~= m[x] by {
                assert(self.temperature.field@[x].len() == l);
                assert forall|y: int| 0 <= y < l implies #[trigger] gr[x][y] == m[x][y] by {
                    assert(self.temperature.field@[x]@[y] == m[x][y]);
                }
            }
            assert(gr =~= m);
            assert forall|x: int| 0 <= x < l implies #[trigger] m[x].len() == l by {}
            assert forall|x: int, y: int| 0 <= x < l && 0 <= y < l implies #[trigger] m[x][y] < FIELD_MAX by {
                assert(g[x][y] < FIELD_MAX);
            }
            assert(is_random_field(m, l as int));
        }
        if self.S < SMOOTH_BELOW {
            proof {
                lemma_random_field_smoothable(m, l as int);
            }
            self.temperature.smoothing5x5();
            proof {
                lemma_smoothing_unique(self.temperature.grid(), m, kernel5x5());
            }
        }
    }

    /// The exit around which the measured `pattern` matches the field best.
    pub fn locate(&self, pattern: &Vec<Vec<usize>>) -> (exit: usize)
        requires
            pattern.len() > 0,
            forall|i: int| 0 <= i < pattern.len() ==> #[trigger] pattern@[i].len() >= pattern@[0].len(),
            self.temperature.pattern_fits(pattern.len() as int, pattern@[0].len() as int),
            forall|q: int|
                0 <= q < self.temperature.landing_pos.len() ==> #[trigger] self.temperature.scores(
                    grid_view(pattern@),
                )[q] <= usize::MAX,
        ensures
            is_first_min(self.temperature.scores(grid_view(pattern@)), exit as int),
    {
        self.temperature.find_nearest_pattern(pattern)
    }
}

/// Number of readings whose median stands for one measurement.
pub const MEASURE_TIMES: usize = 3;

/// The number of entries of `s` below `v`.
pub open spec fn count_lt(s: Seq<usize>, v: usize) -> int
    decreases s.len(),
{
    if s.len() == 0 {
        0
    } else {
        count_lt(s.drop_last(), v) + if s.last() < v {
            1int
        } else {
            0int
        }
    }
}

/// The number of entries of `s` at most `v`.
pub open spec fn count_le(s: Seq<usize>, v: usize) -> int
    decreases s.len(),
{
    if s.len() == 0 {
        0
    } else {
        count_le(s.drop_last(), v) + if s.last() <= v {
            1int
        } else {
            0int
        }
    }
}

/// `m` is the median of `s`: the entry at position `s.len() / 2` once `s` is
/// sorted, that is an entry with at most `s.len() / 2` entries below it and
/// more than `s.len() / 2` at or below it.
pub open spec fn is_median(s: Seq<usize>, m: usize) -> bool {
    &&& s.contains(m)
    &&& count_lt(s, m) <= s.len() / 2
    &&& s.len() / 2 < count_le(s, m)
}

/// An entry of `s` below `v` exists when the count below `v` is positive.
proof fn lemma_count_lt_witness(s: Seq<usize>, v: usize) -> (k: int)
    requires
        count_lt(s, v) > 0,
    ensures
        0 <= k < s.len(),
        s[k] < v,
        forall|i: int| 0 <= i < s.len() && s[i] < v ==> s[i] <= s[k],
    decreases s.len(),
{
    let t = s.drop_last();
    if count_lt(t, v) > 0 {
        let k0 = lemma_count_lt_witness(t, v);
        if s.last() < v && s.last() > t[k0] {
            assert forall|i: int| 0 <= i < s.len() && #[trigger] s[i] < v implies s[i] <= s[s.len() - 1] by {
                if i < t.len() {
                    assert(s[i] == t[i]);
                }
            }
            (s.len() - 1) as int
        } else {
            assert forall|i: int| 0 <= i < s.len() && s[i] < v implies s[i] <= s[k0] by {
                if i < t.len() {
                    assert(s[i] == t[i]);
                }
            }
            k0
        }
    } else {
        assert forall|i: int| 0 <= i < t.len() implies !(t[i] < v) by {
            if t[i] < v {
                lemma_count_lt_one(t, v, i);
            }
        }
        lemma_count_nonneg(t, v);
        assert forall|i: int| 0 <= i < s.len() && #[trigger] s[i] < v implies s[i] <= s[s.len() - 1] by {
            if i < t.len() {
                assert(s[i] == t[i]);
            }
        }
        (s.len() - 1) as int
    }
}

/// An entry below `v` makes the count below `v` positive.
proof fn lemma_count_lt_one(s: Seq<usize>, v: usize, i: int)
    requires
        0 <= i < s.len(),
        s[i] < v,
    ensures
        count_lt(s, v) > 0,
    decreases s.len(),
{
    lemma_count_nonneg(s.drop_last(), v);
    if i < s.len() - 1 {
        lemma_count_lt_one(s.drop_last(), v, i);
    }
}

proof fn lemma_count_nonneg(s: Seq<usize>, v: usize)
    ensures
        0 <= count_lt(s, v) <= count_le(s, v) <= s.len(),
    decreases s.len(),
{
    if s.len() > 0 {
        lemma_count_nonneg(s.drop_last(), v);
    }
}

/// When exactly the entries below `v` are at most `w`, both counts agree.
proof fn lemma_count_same(s: Seq<usize>, w: usize, v: usize)
    requires
        forall|i: int| 0 <= i < s.len() ==> (s[i] <= w <==> s[i] < v),
    ensures
        count_le(s, w) == count_lt(s, v),
    decreases s.len(),
{
    if s.len() > 0 {
        lemma_count_same(s.drop_last(), w, v);
    }
}

/// When every entry is at most `v`, all of them count.
proof fn lemma_count_le_all(s: Seq<usize>, v: usize)
    requires
        forall|i: int| 0 <= i < s.len() ==> s[i] <= v,
    ensures
        count_le(s, v) == s.len(),
    decreases s.len(),
{
    if s.len() > 0 {
        lemma_count_le_all(s.drop_last(), v);
    }
}

/// Starting from an entry with more than half of `s` at or below it, going
/// down to the next smaller entry while more than half lies below reaches a
/// median.
proof fn lemma_median_from(s: Seq<usize>, k: int) -> (j: int)
    requires
        0 <= k < s.len(),
        s.len() / 2 < count_le(s, s[k]),
    ensures
        0 <= j < s.len(),
        is_median(s, s[j]),
    decreases s[k],
{
    if count_lt(s, s[k]) <= s.len() / 2 {
        assert(s.contains(s[k]));
        k
    } else {
        let w = lemma_count_lt_witness(s, s[k]);
        lemma_count_same(s, s[w], s[k]);
        lemma_median_from(s, w)
    }
}

/// A position of a largest of the first `n` entries.
proof fn lemma_max_index(s: Seq<usize>, n: int) -> (k: int)
    requires
        0 < n <= s.len(),
    ensures
        0 <= k < n,
        forall|q: int| 0 <= q < n ==> s[q] <= s[k],
    decreases n,
{
    if n == 1 {
        0
    } else {
        let k0 = lemma_max_index(s, n - 1);
        if s[n - 1] > s[k0] {
            n - 1
        } else {
            k0
        }
    }
}

/// A non-empty sequence has a median among its entries.
pub proof fn lemma_median_exists(s: Seq<usize>) -> (j: int)
    requires
        s.len() > 0,
    ensures
        0 <= j < s.len(),
        is_median(s, s[j]),
{
    let k = lemma_max_index(s, s.len() as int);
    lemma_count_le_all(s, s[k]);
    lemma_median_from(s, k)
}

/// Entries at most `a` are below `b` when `a < b`.
proof fn lemma_count_le_lt(s: Seq<usize>, a: usize, b: usize)
    requires
        a < b,
    ensures
        count_le(s, a) <= count_lt(s, b),
    decreases s.len(),
{
    if s.len() > 0 {
        lemma_count_le_lt(s.drop_last(), a, b);
    }
}

/// A sequence has one median.
pub proof fn lemma_median_unique(s: Seq<usize>, m1: usize, m2: usize)
    requires
        is_median(s, m1),
        is_median(s, m2),
    ensures
        m1 == m2,
{
    if m1 < m2 {
        lemma_count_le_lt(s, m1, m2);
    } else if m2 < m1 {
        lemma_count_le_lt(s, m2, m1);
    }
}

/// The number of readings below `v` and at most `v`.
fn counts(readings: &Vec<usize>, v: usize) -> (res: (usize, usize))
    ensures
        res.0 == count_lt(readings@, v),
        res.1 == count_le(readings@, v),
{
    let mut lt: usize = 0;
    let mut le: usize = 0;
    let mut i: usize = 0;
    while i < readings.len()
        invariant
            0 <= i <= readings.len(),
            lt == count_lt(readings@.take(i as int), v),
            le == count_le(readings@.take(i as int), v),
        decreases readings.len() - i,
    {
        proof {
            assert(readings@.take(i + 1).drop_last() =~= readings@.take(i as int));
            lemma_count_nonneg(readings@.take(i as int), v);
        }
        if readings[i] < v {
            lt = lt + 1;
        }
        if readings[i] <= v {
            le = le + 1;
        }
        i = i + 1;
    }
    proof {
        assert(readings@.take(i as int) =~= readings@);
    }
    (lt, le)
}

/// The median of several readings of one cell, which stands for its
/// measurement.
pub fn median(readings: &Vec<usize>) -> (m: usize)
    requires
        readings.len() > 0,
    ensures
        is_median(readings@, m),
{
    let ghost s = readings@;
    let ghost j = lemma_median_exists(s);
    let half = readings.len() / 2;
    let mut i: usize = 0;
    while i < readings.len()
        invariant
            0 <= i <= readings.len(),
            s == readings@,
            half == readings.len() / 2,
            0 <= j < s.len(),
            is_median(s, s[j]),
            forall|q: int| 0 <= q < i ==> !(count_lt(s, s[q]) <= half && half < count_le(s, s[q])),
        decreases readings.len() - i,
    {
        let v = readings[i];
        let (lt, le) = counts(readings, v);
        if lt <= half && half < le {
            proof {
                assert(s[i as int] == v);
                assert(s.contains(v));
            }
            return v;
        }
        i = i + 1;
    }
    proof {
        assert(!(count_lt(s, s[j]) <= half && half < count_le(s, s[j])));
    }
    readings[0]
}

} // verus!
