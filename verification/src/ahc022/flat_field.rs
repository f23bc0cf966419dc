//! Smoothing a flat field leaves it flat: the window of every cell holds
//! the value under every kernel weight, so its sum is the value times the
//! kernel's weight and the rounded-up average is the value itself.
use vstd::prelude::*;
use crate::ahc022::gaussian_filter::{
    window_sum,
    window_row,
    window_term,
    source_index,
    smoothed,
    is_smoothing_of,
    row_sum_to,
    grid_sum_to,
    grid_sum,
    row_sum,
};
use crate::ahc022::sums::sum_to;

verus! {

/// `t` is a field of `t.len()` rows and `t[0].len()` columns (rows may be
/// longer) holding `v` in every cell.
pub open spec fn flat(t: Seq<Seq<usize>>, v: int) -> bool {
    &&& t.len() > 0
    &&& forall|r: int| 0 <= r < t.len() ==> #[trigger] t[r].len() >= t[0].len()
    &&& forall|r: int, c: int| 0 <= r < t.len() && 0 <= c < t[0].len() ==> #[trigger] t[r][c] == v
}

/// Every row of the kernel `f` is as long as the first.
pub open spec fn rectangular(f: Seq<Seq<usize>>) -> bool {
    &&& f.len() > 0
    &&& forall|i: int| 0 <= i < f.len() ==> #[trigger] f[i].len() == f[0].len()
}

/// On a flat field, kernel row `i` of a window is `v` times the row's first
/// `n` weights.
proof fn lemma_flat_row(t: Seq<Seq<usize>>, f: Seq<Seq<usize>>, rr: int, cc: int, v: int, i: int, n: int)
    requires
        flat(t, v),
        0 <= rr < t.len(),
        0 <= cc < t[0].len(),
    ensures
        sum_to(|j: int| window_term(t, f, rr, cc, i, j), n) == v * row_sum_to(f[i], n),
    decreases n,
{
    if n > 0 {
        lemma_flat_row(t, f, rr, cc, v, i, n - 1);
        let rows = t.len() as int;
        let cols = t[0].len() as int;
        let sr = source_index(rows, f.len() as int, rr, i);
        let sc = source_index(cols, f[0].len() as int, cc, n - 1);
        vstd::arithmetic::div_mod::lemma_mod_bound(rr + f.len() / 2 - i, rows);
        vstd::arithmetic::div_mod::lemma_mod_bound(cc + f[0].len() / 2 - (n - 1), cols);
        assert(t[sr][sc] == v);
        let q = row_sum_to(f[i], n - 1);
        let a = f[i][n - 1] as int;
        assert(v * q + a * v == v * (q + a)) by (nonlinear_arith);
    }
}

/// On a flat field, the kernel rows `0..n` of a window add up to `v` times
/// their weights.
proof fn lemma_flat_rows(t: Seq<Seq<usize>>, f: Seq<Seq<usize>>, rr: int, cc: int, v: int, n: int)
    requires
        flat(t, v),
        rectangular(f),
        0 <= rr < t.len(),
        0 <= cc < t[0].len(),
        n <= f.len(),
    ensures
        sum_to(|i: int| window_row(t, f, rr, cc, i), n) == v * grid_sum_to(f, n),
    decreases n,
{
    if n > 0 {
        lemma_flat_rows(t, f, rr, cc, v, n - 1);
        lemma_flat_row(t, f, rr, cc, v, n - 1, f[0].len() as int);
        assert(f[n - 1].len() == f[0].len());
        let q = grid_sum_to(f, n - 1);
        let a = row_sum(f[n - 1]);
        assert(v * q + v * a == v * (q + a)) by (nonlinear_arith);
    }
}

/// The window of every cell of a flat field of value `v` sums to `v` times
/// the kernel's weight.
pub proof fn lemma_flat_window_sum(t: Seq<Seq<usize>>, f: Seq<Seq<usize>>, rr: int, cc: int, v: int)
    requires
        flat(t, v),
        rectangular(f),
        0 <= rr < t.len(),
        0 <= cc < t[0].len(),
    ensures
        window_sum(t, f, rr, cc) == v * grid_sum(f),
{
    lemma_flat_rows(t, f, rr, cc, v, f.len() as int);
}

/// Smoothing a flat field gives back its value in every cell: each cell
/// receives every kernel weight exactly once, and the rounded-up average of
/// `v` times the weight is `v`.
pub proof fn lemma_flat_field_unchanged(t: Seq<Seq<usize>>, f: Seq<Seq<usize>>, v: int, rr: int, cc: int)
    requires
        flat(t, v),
        rectangular(f),
        grid_sum(f) > 0,
        0 <= rr < t.len(),
        0 <= cc < t[0].len(),
    ensures
        smoothed(t, f, rr, cc) == v,
{
    lemma_flat_window_sum(t, f, rr, cc, v);
    let w = grid_sum(f);
    assert(t[0][0] == v);
    assert((v * w + w - 1) / w == v) by (nonlinear_arith)
        requires
            w > 0,
            v >= 0,
    {
        vstd::arithmetic::div_mod::lemma_fundamental_div_mod_converse(v * w + w - 1, w, v, w - 1);
    }
}


/// A smoothing of a flat field (such as `GaussianFilter::convolution`
/// returns) is the same flat field.
pub proof fn lemma_smoothing_keeps_flat(res: Seq<Seq<usize>>, t: Seq<Seq<usize>>, f: Seq<Seq<usize>>, v: int)
    requires
        is_smoothing_of(res, t, f),
        flat(t, v),
        rectangular(f),
        grid_sum(f) > 0,
    ensures
        res.len() == t.len(),
        forall|rr: int, cc: int| 0 <= rr < res.len() && 0 <= cc < t[0].len() ==> #[trigger] res[rr][cc] == v,
{
    assert forall|rr: int, cc: int| 0 <= rr < res.len() && 0 <= cc < t[0].len() implies #[trigger] res[rr][cc]
        == v by {
        lemma_flat_field_unchanged(t, f, v, rr, cc);
    }
}

} // verus!
