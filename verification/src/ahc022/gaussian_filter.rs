//! Gaussian smoothing of a grid that is read as a torus.
use vstd::prelude::*;
use crate::ahc022::sums::{
    sum_to,
    at,
    row_sums,
    col_sums,
    lemma_sum_ext,
    lemma_sum_swap,
    lemma_sum_hit,
};

verus! {

/// A grid of `Vec` rows seen as a sequence of sequences.
pub open spec fn grid_view(g: Seq<Vec<usize>>) -> Seq<Seq<usize>> {
    Seq::new(g.len(), |i: int| g[i]@)
}

/// Sum of the first `n` entries of a row.
pub open spec fn row_sum_to(s: Seq<usize>, n: int) -> int
    decreases n,
{
    if n <= 0 {
        0
    } else {
        row_sum_to(s, n - 1) + s[n - 1]
    }
}

/// Sum of the entries of a row.
pub open spec fn row_sum(s: Seq<usize>) -> int {
    row_sum_to(s, s.len() as int)
}

/// Sum of all entries of the first `n` rows.
pub open spec fn grid_sum_to(g: Seq<Seq<usize>>, n: int) -> int
    decreases n,
{
    if n <= 0 {
        0
    } else {
        grid_sum_to(g, n - 1) + row_sum(g[n - 1])
    }
}

/// Sum of all entries of a grid, every row taken at its full length.
pub open spec fn grid_sum(g: Seq<Seq<usize>>) -> int {
    grid_sum_to(g, g.len() as int)
}

/// Where offset `k` of a window of size `w` that starts around `x` lands on a
/// cycle of length `n`: `(x + k - w / 2) mod n`, computed as the code does.
pub open spec fn torus_index(n: int, w: int, x: int, k: int) -> int {
    (n - w / 2 + x + k) % n
}

/// What target cell `(r, c)`, weighted by filter entry `(i, j)`, adds to
/// result cell `(rr, cc)`.
spec fn spread_term(
    t: Seq<Seq<usize>>,
    f: Seq<Seq<usize>>,
    rr: int,
    cc: int,
    r: int,
    c: int,
    i: int,
    j: int,
) -> int {
    if torus_index(t.len() as int, f.len() as int, r, i) == rr && torus_index(
        t[0].len() as int,
        f[0].len() as int,
        c,
        j,
    ) == cc {
        t[r][c] * f[i][j]
    } else {
        0
    }
}

/// Contributions to `(rr, cc)` of the filter columns `0..n` of row `i`.
spec fn spread_j(
    t: Seq<Seq<usize>>,
    f: Seq<Seq<usize>>,
    rr: int,
    cc: int,
    r: int,
    c: int,
    i: int,
    n: int,
) -> int
    decreases n,
{
    if n <= 0 {
        0
    } else {
        spread_j(t, f, rr, cc, r, c, i, n - 1) + spread_term(t, f, rr, cc, r, c, i, n - 1)
    }
}

/// Contributions to `(rr, cc)` of the filter rows `0..n` at target cell `(r, c)`.
spec fn spread_i(
    t: Seq<Seq<usize>>,
    f: Seq<Seq<usize>>,
    rr: int,
    cc: int,
    r: int,
    c: int,
    n: int,
) -> int
    decreases n,
{
    if n <= 0 {
        0
    } else {
        spread_i(t, f, rr, cc, r, c, n - 1) + spread_j(t, f, rr, cc, r, c, n - 1, f[0].len() as int)
    }
}

/// Contributions to `(rr, cc)` of the target cells `(r, 0..n)`.
spec fn spread_c(
    t: Seq<Seq<usize>>,
    f: Seq<Seq<usize>>,
    rr: int,
    cc: int,
    r: int,
    n: int,
) -> int
    decreases n,
{
    if n <= 0 {
        0
    } else {
        spread_c(t, f, rr, cc, r, n - 1) + spread_i(t, f, rr, cc, r, n - 1, f.len() as int)
    }
}

/// Contributions to `(rr, cc)` of the target rows `0..n`.
spec fn spread_r(t: Seq<Seq<usize>>, f: Seq<Seq<usize>>, rr: int, cc: int, n: int) -> int
    decreases n,
{
    if n <= 0 {
        0
    } else {
        spread_r(t, f, rr, cc, n - 1) + spread_c(t, f, rr, cc, n - 1, t[0].len() as int)
    }
}

/// Everything that result cell `(rr, cc)` receives: the sum of
/// `t[r][c] * f[i][j]` over all `r, c, i, j` with
/// `(r + i - f.len() / 2) mod rows == rr` and `(c + j - f[0].len() / 2) mod cols == cc`.
spec fn spread_total(t: Seq<Seq<usize>>, f: Seq<Seq<usize>>, rr: int, cc: int) -> int {
    spread_r(t, f, rr, cc, t.len() as int)
}

/// The target index that offset `k` of a window of size `w` reads for
/// result index `y` on a cycle of length `n`: `(y + w / 2 - k) mod n`.
pub open spec fn source_index(n: int, w: int, y: int, k: int) -> int {
    (y + w / 2 - k) % n
}

/// The weighted window of result cell `(rr, cc)`: the sum, over the kernel
/// offsets `(i, j)` with `i < f.len()` and `j < f[0].len()`, of `f[i][j]`
/// times the target cell `(rr + f.len() / 2 - i, cc + f[0].len() / 2 - j)`
/// (indices taken modulo the target's size).
pub open spec fn window_sum(t: Seq<Seq<usize>>, f: Seq<Seq<usize>>, rr: int, cc: int) -> int {
    sum_to(|i: int| window_row(t, f, rr, cc, i), f.len() as int)
}

/// Kernel row `i` of the window of `(rr, cc)`.
pub open spec fn window_row(t: Seq<Seq<usize>>, f: Seq<Seq<usize>>, rr: int, cc: int, i: int) -> int {
    sum_to(|j: int| window_term(t, f, rr, cc, i, j), f[0].len() as int)
}

/// Kernel offset `(i, j)` of the window of `(rr, cc)`.
pub open spec fn window_term(t: Seq<Seq<usize>>, f: Seq<Seq<usize>>, rr: int, cc: int, i: int, j: int) -> int {
    f[i][j] * t[source_index(t.len() as int, f.len() as int, rr, i)][source_index(
        t[0].len() as int,
        f[0].len() as int,
        cc,
        j,
    )]
}

/// The smoothed value of cell `(rr, cc)`: its weighted window divided by
/// the filter's weight, rounded up.
pub open spec fn smoothed(t: Seq<Seq<usize>>, f: Seq<Seq<usize>>, rr: int, cc: int) -> int {
    (window_sum(t, f, rr, cc) + grid_sum(f) - 1) / grid_sum(f)
}

/// The inputs on which the convolution runs without a panic or an overflow.
pub open spec fn convolution_defined(t: Seq<Seq<usize>>, f: Seq<Seq<usize>>) -> bool {
    &&& t.len() > 0
    &&& f.len() > 0
    &&& forall|r: int| 0 <= r < t.len() ==> #[trigger] t[r].len() >= t[0].len()
    // inside the spreading loop: no underflow and every filter entry exists
    &&& (t[0].len() > 0 && f[0].len() > 0) ==> {
        &&& f.len() / 2 <= t.len()
        &&& f[0].len() / 2 <= t[0].len()
        &&& forall|i: int| 0 <= i < f.len() ==> #[trigger] f[i].len() >= f[0].len()
    }
    // the averaging divides by the filter's weight and does not overflow
    &&& t[0].len() > 0 ==> grid_sum(f) > 0
    &&& forall|rr: int, cc: int|
        0 <= rr < t.len() && 0 <= cc < t[0].len() ==> #[trigger] window_sum(t, f, rr, cc)
            + grid_sum(f) - 1 <= usize::MAX
}

/// The grid `res` is the smoothing of `t` by `f`.
pub open spec fn is_smoothing_of(
    res: Seq<Seq<usize>>,
    t: Seq<Seq<usize>>,
    f: Seq<Seq<usize>>,
) -> bool {
    &&& res.len() == t.len()
    &&& forall|rr: int| 0 <= rr < res.len() ==> #[trigger] res[rr].len() == t[0].len()
    &&& forall|rr: int, cc: int|
        0 <= rr < res.len() && 0 <= cc < t[0].len() ==> #[trigger] res[rr][cc] == smoothed(
            t,
            f,
            rr,
            cc,
        )
}

/// The smoothing of `t` by `f`, cell by cell.
pub open spec fn smoothing_grid(t: Seq<Seq<usize>>, f: Seq<Seq<usize>>) -> Seq<Seq<usize>> {
    Seq::new(t.len(), |rr: int| Seq::new(t[0].len(), |cc: int| smoothed(t, f, rr, cc) as usize))
}

/// A grid that is the smoothing of `t` by `f` is `smoothing_grid(t, f)`.
pub proof fn lemma_smoothing_unique(res: Seq<Seq<usize>>, t: Seq<Seq<usize>>, f: Seq<Seq<usize>>)
    requires
        is_smoothing_of(res, t, f),
    ensures
        res == smoothing_grid(t, f),
{
    let want = smoothing_grid(t, f);
    assert forall|rr: int| 0 <= rr < res.len() implies #[trigger] res[rr] =~= want[rr] by {
        assert forall|cc: int| 0 <= cc < res[rr].len() implies #[trigger] res[rr][cc] == want[rr][cc] by {
            assert(res[rr][cc] == smoothed(t, f, rr, cc));
        }
    }
    assert(res =~= want);
}

/// The 3x3 Gaussian kernel.
pub open spec fn kernel3x3() -> Seq<Seq<usize>> {
    seq![seq![1usize, 2, 1], seq![2usize, 4, 2], seq![1usize, 2, 1]]
}

/// The 5x5 Gaussian kernel.
pub open spec fn kernel5x5() -> Seq<Seq<usize>> {
    seq![
        seq![1usize, 4, 6, 4, 1],
        seq![4usize, 16, 24, 16, 4],
        seq![6usize, 24, 36, 24, 6],
        seq![4usize, 16, 24, 16, 4],
        seq![1usize, 4, 6, 4, 1],
    ]
}

proof fn lemma_row_sum_mono(s: Seq<usize>, a: int, b: int)
    requires
        0 <= a <= b,
    ensures
        0 <= row_sum_to(s, a) <= row_sum_to(s, b),
    decreases b,
{
    if b > a {
        lemma_row_sum_mono(s, a, b - 1);
    } else if a > 0 {
        lemma_row_sum_mono(s, 0, a - 1);
    }
}

proof fn lemma_grid_sum_mono(g: Seq<Seq<usize>>, a: int, b: int)
    requires
        0 <= a <= b,
    ensures
        0 <= grid_sum_to(g, a) <= grid_sum_to(g, b),
    decreases b,
{
    if b > a {
        lemma_grid_sum_mono(g, a, b - 1);
        lemma_row_sum_mono(g[b - 1], 0, g[b - 1].len() as int);
    } else if a > 0 {
        lemma_grid_sum_mono(g, 0, a - 1);
        lemma_row_sum_mono(g[a - 1], 0, g[a - 1].len() as int);
    }
}

proof fn lemma_spread_j_mono(
    t: Seq<Seq<usize>>,
    f: Seq<Seq<usize>>,
    rr: int,
    cc: int,
    r: int,
    c: int,
    i: int,
    a: int,
    b: int,
)
    requires
        0 <= a <= b,
    ensures
        0 <= spread_j(t, f, rr, cc, r, c, i, a) <= spread_j(t, f, rr, cc, r, c, i, b),
    decreases b,
{
    if b > 0 {
        let x = t[r][c];
        let y = f[i][b - 1];
        assert(x * y >= 0) by (nonlinear_arith);
        if b > a {
            lemma_spread_j_mono(t, f, rr, cc, r, c, i, a, b - 1);
        } else {
            lemma_spread_j_mono(t, f, rr, cc, r, c, i, 0, b - 1);
        }
    }
}

proof fn lemma_spread_i_mono(
    t: Seq<Seq<usize>>,
    f: Seq<Seq<usize>>,
    rr: int,
    cc: int,
    r: int,
    c: int,
    a: int,
    b: int,
)
    requires
        0 <= a <= b,
    ensures
        0 <= spread_i(t, f, rr, cc, r, c, a) <= spread_i(t, f, rr, cc, r, c, b),
    decreases b,
{
    if b > 0 {
        lemma_spread_j_mono(t, f, rr, cc, r, c, b - 1, 0, f[0].len() as int);
        if b > a {
            lemma_spread_i_mono(t, f, rr, cc, r, c, a, b - 1);
        } else {
            lemma_spread_i_mono(t, f, rr, cc, r, c, 0, b - 1);
        }
    }
}

proof fn lemma_spread_c_mono(
    t: Seq<Seq<usize>>,
    f: Seq<Seq<usize>>,
    rr: int,
    cc: int,
    r: int,
    a: int,
    b: int,
)
    requires
        0 <= a <= b,
    ensures
        0 <= spread_c(t, f, rr, cc, r, a) <= spread_c(t, f, rr, cc, r, b),
    decreases b,
{
    if b > 0 {
        lemma_spread_i_mono(t, f, rr, cc, r, b - 1, 0, f.len() as int);
        if b > a {
            lemma_spread_c_mono(t, f, rr, cc, r, a, b - 1);
        } else {
            lemma_spread_c_mono(t, f, rr, cc, r, 0, b - 1);
        }
    }
}

proof fn lemma_spread_r_mono(t: Seq<Seq<usize>>, f: Seq<Seq<usize>>, rr: int, cc: int, a: int, b: int)
    requires
        0 <= a <= b,
    ensures
        0 <= spread_r(t, f, rr, cc, a) <= spread_r(t, f, rr, cc, b),
    decreases b,
{
    if b > 0 {
        lemma_spread_c_mono(t, f, rr, cc, b - 1, 0, t[0].len() as int);
        if b > a {
            lemma_spread_r_mono(t, f, rr, cc, a, b - 1);
        } else {
            lemma_spread_r_mono(t, f, rr, cc, 0, b - 1);
        }
    }
}

/// While the spreading loop sits at `(r, c, i, j)`, what a cell has received
/// so far, including the term at `j`, is bounded by its total.
proof fn lemma_spread_prefix_bounded(
    t: Seq<Seq<usize>>,
    f: Seq<Seq<usize>>,
    rr: int,
    cc: int,
    r: int,
    c: int,
    i: int,
    j: int,
)
    requires
        0 <= r < t.len(),
        0 <= c < t[0].len(),
        0 <= i < f.len(),
        0 <= j < f[0].len(),
    ensures
        0 <= spread_r(t, f, rr, cc, r),
        0 <= spread_c(t, f, rr, cc, r, c),
        0 <= spread_i(t, f, rr, cc, r, c, i),
        0 <= spread_j(t, f, rr, cc, r, c, i, j),
        spread_r(t, f, rr, cc, r) + spread_c(t, f, rr, cc, r, c) + spread_i(t, f, rr, cc, r, c, i)
            + spread_j(t, f, rr, cc, r, c, i, j + 1) <= spread_total(t, f, rr, cc),
{
    lemma_spread_j_mono(t, f, rr, cc, r, c, i, j, j + 1);
    lemma_spread_j_mono(t, f, rr, cc, r, c, i, j + 1, f[0].len() as int);
    lemma_spread_i_mono(t, f, rr, cc, r, c, i, i + 1);
    lemma_spread_i_mono(t, f, rr, cc, r, c, i + 1, f.len() as int);
    lemma_spread_c_mono(t, f, rr, cc, r, c, c + 1);
    lemma_spread_c_mono(t, f, rr, cc, r, c + 1, t[0].len() as int);
    lemma_spread_r_mono(t, f, rr, cc, r, r + 1);
    lemma_spread_r_mono(t, f, rr, cc, r + 1, t.len() as int);
}

/// Kernel row `i` of a window is at most `vmax` times the row's first
/// `n` weights.
proof fn lemma_window_row_bound(t: Seq<Seq<usize>>, f: Seq<Seq<usize>>, rr: int, cc: int, i: int, n: int, vmax: int)
    requires
        0 <= rr < t.len(),
        0 <= cc < t[0].len(),
        0 <= n <= f[0].len(),
        vmax >= 0,
        forall|r: int, c: int| 0 <= r < t.len() && 0 <= c < t[0].len() ==> #[trigger] t[r][c] <= vmax,
    ensures
        0 <= sum_to(|j: int| window_term(t, f, rr, cc, i, j), n) <= vmax * row_sum_to(f[i], n),
    decreases n,
{
    if n > 0 {
        lemma_window_row_bound(t, f, rr, cc, i, n - 1, vmax);
        let sr = source_index(t.len() as int, f.len() as int, rr, i);
        let sc = source_index(t[0].len() as int, f[0].len() as int, cc, n - 1);
        lemma_source_index(t.len() as int, f.len() as int, rr, i);
        lemma_source_index(t[0].len() as int, f[0].len() as int, cc, n - 1);
        let a = f[i][n - 1] as int;
        let b = t[sr][sc] as int;
        assert(0 <= a * b <= vmax * a) by (nonlinear_arith)
            requires
                0 <= a,
                0 <= b <= vmax,
        ;
        let p = sum_to(|j: int| window_term(t, f, rr, cc, i, j), n - 1);
        let q = row_sum_to(f[i], n - 1);
        assert(vmax * q + vmax * a == vmax * (q + a)) by (nonlinear_arith);
    }
}

/// The window sums of kernel rows `0..n` are at most `vmax` times their
/// weights.
proof fn lemma_window_rows_bound(t: Seq<Seq<usize>>, f: Seq<Seq<usize>>, rr: int, cc: int, n: int, vmax: int)
    requires
        0 <= rr < t.len(),
        0 <= cc < t[0].len(),
        0 <= n <= f.len(),
        vmax >= 0,
        forall|i: int| 0 <= i < f.len() ==> #[trigger] f[i].len() >= f[0].len(),
        forall|r: int, c: int| 0 <= r < t.len() && 0 <= c < t[0].len() ==> #[trigger] t[r][c] <= vmax,
    ensures
        0 <= sum_to(|i: int| window_row(t, f, rr, cc, i), n) <= vmax * grid_sum_to(f, n),
    decreases n,
{
    if n > 0 {
        lemma_window_rows_bound(t, f, rr, cc, n - 1, vmax);
        lemma_window_row_bound(t, f, rr, cc, n - 1, f[0].len() as int, vmax);
        lemma_row_sum_mono(f[n - 1], f[0].len() as int, f[n - 1].len() as int);
        let x = row_sum_to(f[n - 1], f[0].len() as int);
        let y = row_sum(f[n - 1]);
        let q = grid_sum_to(f, n - 1);
        assert(vmax * x <= vmax * y) by (nonlinear_arith)
            requires
                vmax >= 0,
                x <= y,
        ;
        assert(vmax * q + vmax * y == vmax * (q + y)) by (nonlinear_arith);
    }
}

/// A window over values at most `vmax` sums to at most `vmax` times the
/// kernel's weight.
pub proof fn lemma_window_bound(t: Seq<Seq<usize>>, f: Seq<Seq<usize>>, rr: int, cc: int, vmax: int)
    requires
        0 <= rr < t.len(),
        0 <= cc < t[0].len(),
        vmax >= 0,
        forall|i: int| 0 <= i < f.len() ==> #[trigger] f[i].len() >= f[0].len(),
        forall|r: int, c: int| 0 <= r < t.len() && 0 <= c < t[0].len() ==> #[trigger] t[r][c] <= vmax,
    ensures
        0 <= window_sum(t, f, rr, cc) <= vmax * grid_sum(f),
{
    lemma_window_rows_bound(t, f, rr, cc, f.len() as int, vmax);
}

/// The source index is in range, and offset `k` laid at it lands on `y`.
proof fn lemma_source_index(n: int, w: int, y: int, k: int)
    requires
        0 < n,
        0 <= y < n,
    ensures
        0 <= source_index(n, w, y, k) < n,
        torus_index(n, w, source_index(n, w, y, k), k) == y,
{
    let h = w / 2;
    let s = source_index(n, w, y, k);
    let q = (y + h - k) / n;
    vstd::arithmetic::div_mod::lemma_fundamental_div_mod(y + h - k, n);
    vstd::arithmetic::div_mod::lemma_mod_bound(y + h - k, n);
    assert(n - h + s + k == n * (1 - q) + y) by (nonlinear_arith)
        requires
            y + h - k == n * q + s,
    ;
    vstd::arithmetic::div_mod::lemma_mod_multiples_vanish(1 - q, y, n);
    vstd::arithmetic::div_mod::lemma_small_mod(y as nat, n as nat);
}

/// The only index of a cycle that offset `k` carries onto `y` is the
/// source index.
proof fn lemma_source_unique(n: int, w: int, y: int, k: int, x: int)
    requires
        0 < n,
        0 <= y < n,
        0 <= x < n,
        torus_index(n, w, x, k) == y,
    ensures
        x == source_index(n, w, y, k),
{
    lemma_source_index(n, w, y, k);
    let z = crate::ahc022::sums::lemma_torus_hit(n, w, k, y);
    assert(x == z);
    assert(source_index(n, w, y, k) == z);
}

proof fn lemma_spread_j_sum(
    t: Seq<Seq<usize>>,
    f: Seq<Seq<usize>>,
    rr: int,
    cc: int,
    r: int,
    c: int,
    i: int,
    n: int,
)
    ensures
        spread_j(t, f, rr, cc, r, c, i, n) == sum_to(|j: int| spread_term(t, f, rr, cc, r, c, i, j), n),
    decreases n,
{
    if n > 0 {
        lemma_spread_j_sum(t, f, rr, cc, r, c, i, n - 1);
    }
}

/// What target cell `(r, c)` sends to `(rr, cc)` through kernel row `i`.
spec fn over_j(t: Seq<Seq<usize>>, f: Seq<Seq<usize>>, rr: int, cc: int, r: int, c: int, i: int) -> int {
    sum_to(|j: int| spread_term(t, f, rr, cc, r, c, i, j), f[0].len() as int)
}

/// What target cell `(r, c)` sends to `(rr, cc)`.
spec fn over_ij(t: Seq<Seq<usize>>, f: Seq<Seq<usize>>, rr: int, cc: int, r: int, c: int) -> int {
    sum_to(|i: int| over_j(t, f, rr, cc, r, c, i), f.len() as int)
}

/// What target row `r` sends to `(rr, cc)`.
spec fn over_cij(t: Seq<Seq<usize>>, f: Seq<Seq<usize>>, rr: int, cc: int, r: int) -> int {
    sum_to(|c: int| over_ij(t, f, rr, cc, r, c), t[0].len() as int)
}

/// What target row `r` sends to `(rr, cc)` through kernel row `i`.
spec fn over_cj(t: Seq<Seq<usize>>, f: Seq<Seq<usize>>, rr: int, cc: int, r: int, i: int) -> int {
    sum_to(|c: int| over_j(t, f, rr, cc, r, c, i), t[0].len() as int)
}

/// What target row `r` sends to `(rr, cc)` through kernel offset `(i, j)`.
spec fn over_c(t: Seq<Seq<usize>>, f: Seq<Seq<usize>>, rr: int, cc: int, r: int, i: int, j: int) -> int {
    sum_to(|c: int| spread_term(t, f, rr, cc, r, c, i, j), t[0].len() as int)
}

proof fn lemma_spread_i_sum(t: Seq<Seq<usize>>, f: Seq<Seq<usize>>, rr: int, cc: int, r: int, c: int, n: int)
    ensures
        spread_i(t, f, rr, cc, r, c, n) == sum_to(|i: int| over_j(t, f, rr, cc, r, c, i), n),
    decreases n,
{
    if n > 0 {
        lemma_spread_i_sum(t, f, rr, cc, r, c, n - 1);
        lemma_spread_j_sum(t, f, rr, cc, r, c, n - 1, f[0].len() as int);
    }
}

proof fn lemma_spread_c_sum(t: Seq<Seq<usize>>, f: Seq<Seq<usize>>, rr: int, cc: int, r: int, n: int)
    ensures
        spread_c(t, f, rr, cc, r, n) == sum_to(|c: int| over_ij(t, f, rr, cc, r, c), n),
    decreases n,
{
    if n > 0 {
        lemma_spread_c_sum(t, f, rr, cc, r, n - 1);
        lemma_spread_i_sum(t, f, rr, cc, r, n - 1, f.len() as int);
    }
}

proof fn lemma_spread_r_sum(t: Seq<Seq<usize>>, f: Seq<Seq<usize>>, rr: int, cc: int, n: int)
    ensures
        spread_r(t, f, rr, cc, n) == sum_to(|r: int| over_cij(t, f, rr, cc, r), n),
    decreases n,
{
    if n > 0 {
        lemma_spread_r_sum(t, f, rr, cc, n - 1);
        lemma_spread_c_sum(t, f, rr, cc, n - 1, t[0].len() as int);
    }
}

/// Through kernel offset `(i, j)`, the target rows send to `(rr, cc)` that
/// offset's term of the window.
proof fn lemma_offset_total(t: Seq<Seq<usize>>, f: Seq<Seq<usize>>, rr: int, cc: int, i: int, j: int)
    requires
        t.len() > 0,
        t[0].len() > 0,
        0 <= rr < t.len(),
        0 <= cc < t[0].len(),
    ensures
        sum_to(|r: int| over_c(t, f, rr, cc, r, i, j), t.len() as int) == window_term(t, f, rr, cc, i, j),
{
    let rows = t.len() as int;
    let cols = t[0].len() as int;
    let fr = f.len() as int;
    let fc = f[0].len() as int;
    let sr = source_index(rows, fr, rr, i);
    let sc = source_index(cols, fc, cc, j);
    lemma_source_index(rows, fr, rr, i);
    lemma_source_index(cols, fc, cc, j);
    let per_row = |r: int| over_c(t, f, rr, cc, r, i, j);
    assert forall|y: int| 0 <= y < rows implies #[trigger] at(per_row, y) == if torus_index(rows, fr, y, i) == rr {
        t[sr][sc] * f[i][j]
    } else {
        0
    } by {
        let h = |c: int| spread_term(t, f, rr, cc, y, c, i, j);
        let val = if torus_index(rows, fr, y, i) == rr {
            t[y][sc] * f[i][j]
        } else {
            0
        };
        assert forall|x: int| 0 <= x < cols implies #[trigger] at(h, x) == if torus_index(cols, fc, x, j) == cc {
            val
        } else {
            0
        } by {
            if torus_index(cols, fc, x, j) == cc {
                lemma_source_unique(cols, fc, cc, j, x);
            }
        }
        lemma_sum_hit(h, cols, fc, j, cc, val);
        if torus_index(rows, fr, y, i) == rr {
            lemma_source_unique(rows, fr, rr, i, y);
        }
    }
    lemma_sum_hit(per_row, rows, fr, i, rr, t[sr][sc] * f[i][j]);
}

/// What the convolution's scattering loop gathers in result cell `(rr, cc)`
/// is the weighted window of that cell.
proof fn lemma_spread_total_is_window_sum(t: Seq<Seq<usize>>, f: Seq<Seq<usize>>, rr: int, cc: int)
    requires
        t.len() > 0,
        t[0].len() > 0,
        0 <= rr < t.len(),
        0 <= cc < t[0].len(),
    ensures
        spread_total(t, f, rr, cc) == window_sum(t, f, rr, cc),
{
    let rows = t.len() as int;
    let cols = t[0].len() as int;
    let fr = f.len() as int;
    let fc = f[0].len() as int;
    lemma_spread_r_sum(t, f, rr, cc, rows);
    // kernel rows outside target columns
    let s1 = |r: int| over_cij(t, f, rr, cc, r);
    let s2 = |r: int| sum_to(|i: int| over_cj(t, f, rr, cc, r, i), fr);
    assert forall|r: int| 0 <= r < rows implies #[trigger] at(s1, r) == at(s2, r) by {
        let g = |c: int, i: int| over_j(t, f, rr, cc, r, c, i);
        lemma_sum_swap(g, cols, fr);
        let a1 = |c: int| over_ij(t, f, rr, cc, r, c);
        assert forall|c: int| 0 <= c < cols implies #[trigger] at(a1, c) == at(row_sums(g, fr), c) by {
            assert((|b: int| g(c, b)) =~= (|i: int| over_j(t, f, rr, cc, r, c, i)));
        }
        lemma_sum_ext(a1, row_sums(g, fr), cols);
        let b1 = |i: int| over_cj(t, f, rr, cc, r, i);
        assert forall|i: int| 0 <= i < fr implies #[trigger] at(b1, i) == at(col_sums(g, cols), i) by {
            assert((|a: int| g(a, i)) =~= (|c: int| over_j(t, f, rr, cc, r, c, i)));
        }
        lemma_sum_ext(b1, col_sums(g, cols), fr);
    }
    lemma_sum_ext(s1, s2, rows);
    // target rows inside kernel rows
    let g2 = |r: int, i: int| over_cj(t, f, rr, cc, r, i);
    lemma_sum_swap(g2, rows, fr);
    assert forall|r: int| 0 <= r < rows implies #[trigger] at(s2, r) == at(row_sums(g2, fr), r) by {
        assert((|b: int| g2(r, b)) =~= (|i: int| over_cj(t, f, rr, cc, r, i)));
    }
    lemma_sum_ext(s2, row_sums(g2, fr), rows);
    // for each kernel row: target columns inside kernel columns, then target rows inside kernel columns
    let w = |i: int| window_row(t, f, rr, cc, i);
    assert forall|i: int| 0 <= i < fr implies #[trigger] at(col_sums(g2, rows), i) == at(w, i) by {
        let p1 = |r: int| over_cj(t, f, rr, cc, r, i);
        let p2 = |r: int| sum_to(|j: int| over_c(t, f, rr, cc, r, i, j), fc);
        assert forall|r: int| 0 <= r < rows implies #[trigger] at(p1, r) == at(p2, r) by {
            let g3 = |c: int, j: int| spread_term(t, f, rr, cc, r, c, i, j);
            lemma_sum_swap(g3, cols, fc);
            let a3 = |c: int| over_j(t, f, rr, cc, r, c, i);
            assert forall|c: int| 0 <= c < cols implies #[trigger] at(a3, c) == at(row_sums(g3, fc), c) by {
                assert((|b: int| g3(c, b)) =~= (|j: int| spread_term(t, f, rr, cc, r, c, i, j)));
            }
            lemma_sum_ext(a3, row_sums(g3, fc), cols);
            let b3 = |j: int| over_c(t, f, rr, cc, r, i, j);
            assert forall|j: int| 0 <= j < fc implies #[trigger] at(b3, j) == at(col_sums(g3, cols), j) by {
                assert((|a: int| g3(a, j)) =~= (|c: int| spread_term(t, f, rr, cc, r, c, i, j)));
            }
            lemma_sum_ext(b3, col_sums(g3, cols), fc);
        }
        assert((|a: int| g2(a, i)) =~= p1);
        lemma_sum_ext(p1, p2, rows);
        let g4 = |r: int, j: int| over_c(t, f, rr, cc, r, i, j);
        lemma_sum_swap(g4, rows, fc);
        assert forall|r: int| 0 <= r < rows implies #[trigger] at(p2, r) == at(row_sums(g4, fc), r) by {
            assert((|b: int| g4(r, b)) =~= (|j: int| over_c(t, f, rr, cc, r, i, j)));
        }
        lemma_sum_ext(p2, row_sums(g4, fc), rows);
        let q = |j: int| window_term(t, f, rr, cc, i, j);
        assert forall|j: int| 0 <= j < fc implies #[trigger] at(col_sums(g4, rows), j) == at(q, j) by {
            assert((|a: int| g4(a, j)) =~= (|r: int| over_c(t, f, rr, cc, r, i, j)));
            lemma_offset_total(t, f, rr, cc, i, j);
        }
        lemma_sum_ext(col_sums(g4, rows), q, fc);
    }
    lemma_sum_ext(col_sums(g2, rows), w, fr);
}

/// The one-cell unit kernel.
pub open spec fn unit_kernel() -> Seq<Seq<usize>> {
    seq![seq![1usize]]
}

/// Under the unit kernel, the window of a cell is the cell itself.
proof fn lemma_unit_window(t: Seq<Seq<usize>>, rr: int, cc: int)
    requires
        0 <= rr < t.len(),
        0 <= cc < t[0].len(),
    ensures
        window_sum(t, unit_kernel(), rr, cc) == t[rr][cc],
{
    let f = unit_kernel();
    assert(f.len() == 1 && f[0].len() == 1 && f[0][0] == 1);
    vstd::arithmetic::div_mod::lemma_small_mod(rr as nat, t.len() as nat);
    vstd::arithmetic::div_mod::lemma_small_mod(cc as nat, t[0].len() as nat);
    assert(source_index(t.len() as int, 1, rr, 0) == rr);
    assert(source_index(t[0].len() as int, 1, cc, 0) == cc);
    reveal_with_fuel(sum_to, 2);
    assert(window_row(t, f, rr, cc, 0) == window_term(t, f, rr, cc, 0, 0));
}

/// Smoothing with the one-cell unit kernel `[[1]]` leaves a grid whose rows
/// all have the length of the first as it is: the convolution is defined on
/// it, every cell keeps its value, and the one grid that is such a smoothing
/// is the target itself.
pub proof fn lemma_unit_filter_identity(t: Seq<Seq<usize>>, res: Seq<Seq<usize>>)
    requires
        t.len() > 0,
        forall|r: int| 0 <= r < t.len() ==> #[trigger] t[r].len() == t[0].len(),
    ensures
        convolution_defined(t, unit_kernel()),
        forall|rr: int, cc: int|
            0 <= rr < t.len() && 0 <= cc < t[0].len() ==> #[trigger] smoothed(t, unit_kernel(), rr, cc) == t[rr][cc],
        is_smoothing_of(res, t, unit_kernel()) ==> res == t,
{
    let f = unit_kernel();
    reveal_with_fuel(row_sum_to, 2);
    reveal_with_fuel(grid_sum_to, 2);
    assert(row_sum(f[0]) == 1);
    assert(grid_sum(f) == 1);
    assert forall|rr: int, cc: int| 0 <= rr < t.len() && 0 <= cc < t[0].len() implies #[trigger] window_sum(
        t,
        f,
        rr,
        cc,
    ) == t[rr][cc] by {
        lemma_unit_window(t, rr, cc);
    }
    assert forall|rr: int, cc: int| 0 <= rr < t.len() && 0 <= cc < t[0].len() implies #[trigger] smoothed(
        t,
        f,
        rr,
        cc,
    ) == t[rr][cc] by {
        lemma_unit_window(t, rr, cc);
    }
    if is_smoothing_of(res, t, f) {
        assert forall|rr: int| 0 <= rr < res.len() implies #[trigger] res[rr] =~= t[rr] by {
            assert forall|cc: int| 0 <= cc < res[rr].len() implies res[rr][cc] == t[rr][cc] by {
                assert(res[rr][cc] == smoothed(t, f, rr, cc));
            }
        }
        assert(res =~= t);
    }
}

/// The 3x3 kernel weighs 16.
pub proof fn lemma_kernel3x3_weight()
    ensures
        grid_sum(kernel3x3()) == 16,
{
    let k = kernel3x3();
    reveal_with_fuel(row_sum_to, 4);
    reveal_with_fuel(grid_sum_to, 4);
    assert(row_sum(k[0]) == 4);
    assert(row_sum(k[1]) == 8);
    assert(row_sum(k[2]) == 4);
}

/// The 5x5 kernel weighs 256.
pub proof fn lemma_kernel5x5_weight()
    ensures
        grid_sum(kernel5x5()) == 256,
{
    let k = kernel5x5();
    reveal_with_fuel(row_sum_to, 6);
    reveal_with_fuel(grid_sum_to, 6);
    assert(row_sum(k[0]) == 16);
    assert(row_sum(k[1]) == 64);
    assert(row_sum(k[2]) == 96);
    assert(row_sum(k[3]) == 64);
    assert(row_sum(k[4]) == 16);
}

/// `torus_index(n, w, x, k)`, computed without an intermediate value
/// beyond `n`.
fn torus_step(n: usize, w: usize, x: usize, k: usize) -> (p: usize)
    requires
        0 <= x < n,
        w / 2 <= n,
    ensures
        p == torus_index(n as int, w as int, x as int, k as int),
        p < n,
{
    let h = w / 2;
    // `(x - h) mod n`
    let a = if x >= h {
        x - h
    } else {
        n - (h - x)
    };
    // `k mod n`
    let b = k % n;
    let p = if a >= n - b {
        a - (n - b)
    } else {
        a + b
    };
    proof {
        let ni = n as int;
        let q = (k as int) / ni;
        vstd::arithmetic::div_mod::lemma_fundamental_div_mod(k as int, ni);
        let m: int = (if x >= h { 1int } else { 0int }) + q + (if a >= n - b { 1int } else { 0int });
        assert(ni - h + x + k == ni * m + p) by (nonlinear_arith)
            requires
                k == ni * q + b,
                a == (if x >= h { x - h } else { ni - (h - x) }),
                p == (if a >= ni - b { a - (ni - b) } else { a + b }),
                m == (if x >= h { 1int } else { 0int }) + q + (if a >= ni - b { 1int } else { 0int }),
        ;
        vstd::arithmetic::div_mod::lemma_mod_multiples_vanish(m, p as int, ni);
        vstd::arithmetic::div_mod::lemma_small_mod(p as nat, n as nat);
    }
    p
}

/// # Gaussian filter
///
/// A weighted kernel together with its dimensions and the sum of its weights.
pub struct GaussianFilter {
    row: usize,
    col: usize,
    sum: usize,
    filter: Vec<Vec<usize>>,
}

impl GaussianFilter {
    #[verifier::type_invariant]
    spec fn well_formed(self) -> bool {
        &&& self.row == self.filter.len()
        &&& self.row > 0
        &&& self.col == self.filter@[0].len()
        &&& self.sum == grid_sum(grid_view(self.filter@))
    }

    /// The kernel's weights.
    pub closed spec fn kernel(&self) -> Seq<Seq<usize>> {
        grid_view(self.filter@)
    }

    /// Builds a filter from its kernel. The kernel has at least one row
    /// (its first row fixes the width) and its weights sum to a `usize`.
    pub fn new(filter: Vec<Vec<usize>>) -> (res: Self)
        requires
            filter.len() > 0,
            grid_sum(grid_view(filter@)) <= usize::MAX,
        ensures
            res.kernel() == grid_view(filter@),
    {
        let ghost g = grid_view(filter@);
        let mut sum: usize = 0;
        let mut i: usize = 0;
        while i < filter.len()
            invariant
                g == grid_view(filter@),
                grid_sum(g) <= usize::MAX,
                0 <= i <= filter.len(),
                sum == grid_sum_to(g, i as int),
            decreases filter.len() - i,
        {
            let mut j: usize = 0;
            while j < filter[i].len()
                invariant
                    g == grid_view(filter@),
                    grid_sum(g) <= usize::MAX,
                    0 <= i < filter.len(),
                    0 <= j <= filter@[i as int].len(),
                    sum == grid_sum_to(g, i as int) + row_sum_to(g[i as int], j as int),
                decreases filter@[i as int].len() - j,
            {
                proof {
                    lemma_row_sum_mono(g[i as int], (j + 1) as int, g[i as int].len() as int);
                    lemma_grid_sum_mono(g, (i + 1) as int, g.len() as int);
                }
                sum = sum + filter[i][j];
                j = j + 1;
            }
            i = i + 1;
        }
        let row = filter.len();
        let col = filter[0].len();
        GaussianFilter { row, col, sum, filter }
    }

    /// Convolution over the target read as a torus: every target cell
    /// `(r, c)` spreads `target[r][c] * filter[i][j]` onto cell
    /// `(r + i - rows / 2, c + j - cols / 2)` (indices taken modulo the
    /// target's size); each cell's total is then divided by the filter's
    /// weight, rounded up so that no information is lost. The total of a
    /// cell is its weighted window (`window_sum`), so each result cell is
    /// `smoothed`.
    #[verifier::loop_isolation(false)]
    pub fn convolution(&self, target: &Vec<Vec<usize>>) -> (result: Vec<Vec<usize>>)
        requires
            convolution_defined(grid_view(target@), self.kernel()),
        ensures
            is_smoothing_of(grid_view(result@), grid_view(target@), self.kernel()),
    {
        proof {
            use_type_invariant(self);
        }
        let ghost t = grid_view(target@);
        let ghost f = self.kernel();
        let row = target.len();
        let col = target[0].len();
        proof {
            assert forall|rr: int, cc: int| 0 <= rr < row && 0 <= cc < col implies #[trigger] spread_total(t, f, rr, cc)
                == window_sum(t, f, rr, cc) by {
                lemma_spread_total_is_window_sum(t, f, rr, cc);
            }
        }

        let mut result: Vec<Vec<usize>> = Vec::new();
        let mut k: usize = 0;
        while k < row
            invariant
                0 <= k <= row,
                result.len() == k,
                forall|q: int| 0 <= q < k ==> #[trigger] result@[q]@ == Seq::new(col as nat, |x: int| 0usize),
            decreases row - k,
        {
            result.push(vec![0usize; col]);
            k = k + 1;
        }

        // spreading
        let mut r: usize = 0;
        while r < row
            invariant
                0 <= r <= row,
                result.len() == row,
                forall|q: int| 0 <= q < row ==> #[trigger] result@[q].len() == col,
                forall|rr: int, cc: int|
                    0 <= rr < row && 0 <= cc < col ==> #[trigger] result@[rr]@[cc] == spread_r(
                        t,
                        f,
                        rr,
                        cc,
                        r as int,
                    ),
            decreases row - r,
        {
            let mut c: usize = 0;
            while c < col
                invariant
                    0 <= r < row,
                    0 <= c <= col,
                    result.len() == row,
                    forall|q: int| 0 <= q < row ==> #[trigger] result@[q].len() == col,
                    forall|rr: int, cc: int|
                        0 <= rr < row && 0 <= cc < col ==> #[trigger] result@[rr]@[cc] == spread_r(
                            t,
                            f,
                            rr,
                            cc,
                            r as int,
                        ) + spread_c(t, f, rr, cc, r as int, c as int),
                decreases col - c,
            {
                let mut i: usize = 0;
                while i < self.row
                    invariant
                        0 <= r < row,
                        0 <= c < col,
                        0 <= i <= self.row,
                        result.len() == row,
                        forall|q: int| 0 <= q < row ==> #[trigger] result@[q].len() == col,
                        forall|rr: int, cc: int|
                            0 <= rr < row && 0 <= cc < col ==> #[trigger] result@[rr]@[cc]
                                == spread_r(t, f, rr, cc, r as int) + spread_c(
                                t,
                                f,
                                rr,
                                cc,
                                r as int,
                                c as int,
                            ) + spread_i(t, f, rr, cc, r as int, c as int, i as int),
                    decreases self.row - i,
                {
                    let mut j: usize = 0;
                    while j < self.col
                        invariant
                            0 <= r < row,
                            0 <= c < col,
                            0 <= i < self.row,
                            0 <= j <= self.col,
                            result.len() == row,
                            forall|q: int| 0 <= q < row ==> #[trigger] result@[q].len() == col,
                            forall|rr: int, cc: int|
                                0 <= rr < row && 0 <= cc < col ==> #[trigger] result@[rr]@[cc]
                                    == spread_r(t, f, rr, cc, r as int) + spread_c(
                                    t,
                                    f,
                                    rr,
                                    cc,
                                    r as int,
                                    c as int,
                                ) + spread_i(t, f, rr, cc, r as int, c as int, i as int)
                                    + spread_j(t, f, rr, cc, r as int, c as int, i as int, j as int),
                        decreases self.col - j,
                    {
                        let new_r = torus_step(row, self.row, r, i);
                        let new_c = torus_step(col, self.col, c, j);
                        proof {
                            lemma_spread_prefix_bounded(
                                t,
                                f,
                                new_r as int,
                                new_c as int,
                                r as int,
                                c as int,
                                i as int,
                                j as int,
                            );
                        }
                        assert(result@[new_r as int].len() == col);
                        assert(target@[r as int].len() >= col);
                        assert(self.filter@[i as int].len() >= self.col);
                        let w = target[r][c] * self.filter[i][j];
                        result[new_r][new_c] = result[new_r][new_c] + w;
                        j = j + 1;
                    }
                    i = i + 1;
                }
                c = c + 1;
            }
            r = r + 1;
        }

        // averaging, rounded up
        let mut r: usize = 0;
        while r < row
            invariant
                0 <= r <= row,
                result.len() == row,
                forall|q: int| 0 <= q < row ==> #[trigger] result@[q].len() == col,
                forall|rr: int, cc: int|
                    0 <= rr < row && 0 <= cc < col ==> #[trigger] result@[rr]@[cc] == if rr < r {
                        smoothed(t, f, rr, cc)
                    } else {
                        spread_total(t, f, rr, cc)
                    },
            decreases row - r,
        {
            let mut c: usize = 0;
            while c < col
                invariant
                    0 <= r < row,
                    0 <= c <= col,
                    result.len() == row,
                    forall|q: int| 0 <= q < row ==> #[trigger] result@[q].len() == col,
                    forall|rr: int, cc: int|
                        0 <= rr < row && 0 <= cc < col ==> #[trigger] result@[rr]@[cc] == if rr < r
                            || (rr == r && cc < c) {
                            smoothed(t, f, rr, cc)
                        } else {
                            spread_total(t, f, rr, cc)
                        },
                decreases col - c,
            {
                assert(result@[r as int].len() == col);
                assert(spread_total(t, f, r as int, c as int) + grid_sum(f) - 1 <= usize::MAX);
                result[r][c] = result[r][c] + (self.sum - 1);
                result[r][c] = result[r][c] / self.sum;
                c = c + 1;
            }
            r = r + 1;
        }
        proof {
            let res = grid_view(result@);
            assert forall|rr: int| 0 <= rr < res.len() implies #[trigger] res[rr].len() == t[0].len() by {
                assert(result@[rr].len() == col);
            }
            assert forall|rr: int, cc: int|
                0 <= rr < res.len() && 0 <= cc < t[0].len() implies #[trigger] res[rr][cc]
                == smoothed(t, f, rr, cc) by {
                assert(result@[rr]@[cc] == smoothed(t, f, rr, cc));
            }
        }
        result
    }

    /// Smoothing with the 3x3 Gaussian kernel (weight 16).
    pub fn smoothing3x3(target: &Vec<Vec<usize>>) -> (result: Vec<Vec<usize>>)
        requires
            convolution_defined(grid_view(target@), kernel3x3()),
        ensures
            is_smoothing_of(grid_view(result@), grid_view(target@), kernel3x3()),
    {
        let kernel = vec![vec![1, 2, 1], vec![2, 4, 2], vec![1, 2, 1]];
        proof {
            assert(kernel@[0]@ =~= kernel3x3()[0]);
            assert(kernel@[1]@ =~= kernel3x3()[1]);
            assert(kernel@[2]@ =~= kernel3x3()[2]);
            assert(grid_view(kernel@) =~= kernel3x3());
            lemma_kernel3x3_weight();
        }
        let filter3x3 = GaussianFilter::new(kernel);
        filter3x3.convolution(target)
    }

    /// Smoothing with the 5x5 Gaussian kernel (weight 256).
    pub fn smoothing5x5(target: &Vec<Vec<usize>>) -> (result: Vec<Vec<usize>>)
        requires
            convolution_defined(grid_view(target@), kernel5x5()),
        ensures
            is_smoothing_of(grid_view(result@), grid_view(target@), kernel5x5()),
    {
        let kernel = vec![
            vec![1, 4, 6, 4, 1],
            vec![4, 16, 24, 16, 4],
            vec![6, 24, 36, 24, 6],
            vec![4, 16, 24, 16, 4],
            vec![1, 4, 6, 4, 1],
        ];
        proof {
            assert(kernel@[0]@ =~= kernel5x5()[0]);
            assert(kernel@[1]@ =~= kernel5x5()[1]);
            assert(kernel@[2]@ =~= kernel5x5()[2]);
            assert(kernel@[3]@ =~= kernel5x5()[3]);
            assert(kernel@[4]@ =~= kernel5x5()[4]);
            assert(grid_view(kernel@) =~= kernel5x5());
            lemma_kernel5x5_weight();
        }
        let filter5x5 = GaussianFilter::new(kernel);
        filter5x5.convolution(target)
    }
}

} // verus!
