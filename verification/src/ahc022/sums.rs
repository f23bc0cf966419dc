//! Finite sums of integer-valued spec functions: extensionality, splitting,
//! scaling, exchanging the order of a double sum, and sums over a cycle that
//! pick out the one index landing on a given place.
use vstd::prelude::*;
use crate::ahc022::gaussian_filter::torus_index;

verus! {

/// `g(0) + g(1) + ... + g(n - 1)`.
pub open spec fn sum_to(g: spec_fn(int) -> int, n: int) -> int
    decreases n,
{
    if n <= 0 {
        0
    } else {
        sum_to(g, n - 1) + g(n - 1)
    }
}

/// `g` applied to `k`.
pub open spec fn at(g: spec_fn(int) -> int, k: int) -> int {
    g(k)
}

/// Sums of functions that agree on `0..n` agree.
pub proof fn lemma_sum_ext(g1: spec_fn(int) -> int, g2: spec_fn(int) -> int, n: int)
    requires
        forall|k: int| 0 <= k < n ==> #[trigger] at(g1, k) == at(g2, k),
    ensures
        sum_to(g1, n) == sum_to(g2, n),
    decreases n,
{
    if n > 0 {
        lemma_sum_ext(g1, g2, n - 1);
        assert(at(g1, n - 1) == at(g2, n - 1));
    }
}

/// The pointwise sum of two functions.
pub open spec fn plus(g1: spec_fn(int) -> int, g2: spec_fn(int) -> int) -> spec_fn(int) -> int {
    |k: int| g1(k) + g2(k)
}

/// The sum of a pointwise sum is the sum of the sums.
pub proof fn lemma_sum_add(g1: spec_fn(int) -> int, g2: spec_fn(int) -> int, n: int)
    ensures
        sum_to(plus(g1, g2), n) == sum_to(g1, n) + sum_to(g2, n),
    decreases n,
{
    if n > 0 {
        lemma_sum_add(g1, g2, n - 1);
    }
}

/// A sum whose terms vanish but at `k` is its term at `k`.
pub proof fn lemma_sum_single(g: spec_fn(int) -> int, n: int, k: int)
    requires
        0 <= k < n,
        forall|a: int| 0 <= a < n && a != k ==> #[trigger] at(g, a) == 0,
    ensures
        sum_to(g, n) == g(k),
    decreases n,
{
    if n - 1 > k {
        lemma_sum_single(g, n - 1, k);
        assert(at(g, n - 1) == 0);
    } else {
        lemma_sum_zero(g, n - 1);
    }
}

/// A sum of zeros is zero.
pub proof fn lemma_sum_zero(g: spec_fn(int) -> int, n: int)
    requires
        forall|a: int| 0 <= a < n ==> #[trigger] at(g, a) == 0,
    ensures
        sum_to(g, n) == 0,
    decreases n,
{
    if n > 0 {
        lemma_sum_zero(g, n - 1);
        assert(at(g, n - 1) == 0);
    }
}

/// The row sums of `g` over `0..m`: `a |-> g(a, 0) + ... + g(a, m - 1)`.
pub open spec fn row_sums(g: spec_fn(int, int) -> int, m: int) -> spec_fn(int) -> int {
    |a: int| sum_to(|b: int| g(a, b), m)
}

/// The column sums of `g` over `0..n`: `b |-> g(0, b) + ... + g(n - 1, b)`.
pub open spec fn col_sums(g: spec_fn(int, int) -> int, n: int) -> spec_fn(int) -> int {
    |b: int| sum_to(|a: int| g(a, b), n)
}

/// The order of a double sum does not matter.
pub proof fn lemma_sum_swap(g: spec_fn(int, int) -> int, n: int, m: int)
    ensures
        sum_to(row_sums(g, m), n) == sum_to(col_sums(g, n), m),
    decreases n,
{
    if n > 0 {
        lemma_sum_swap(g, n - 1, m);
        let prev = col_sums(g, n - 1);
        let last = |b: int| g(n - 1, b);
        lemma_sum_add(prev, last, m);
        let whole = col_sums(g, n);
        let split = plus(prev, last);
        assert forall|k: int| 0 <= k < m implies #[trigger] at(whole, k) == at(split, k) by {
            assert(sum_to(|a: int| g(a, k), n) == sum_to(|a: int| g(a, k), n - 1) + g(n - 1, k));
        }
        lemma_sum_ext(whole, split, m);
        let rows = row_sums(g, m);
        assert(sum_to(rows, n) == sum_to(rows, n - 1) + rows(n - 1));
        assert(rows(n - 1) == sum_to(last, m));
        assert(sum_to(whole, m) == sum_to(split, m));
        assert(sum_to(split, m) == sum_to(prev, m) + sum_to(last, m));
        assert(sum_to(rows, n - 1) == sum_to(prev, m));
    } else {
        let zero = col_sums(g, n);
        assert forall|k: int| 0 <= k < m implies #[trigger] at(zero, k) == 0 by {}
        lemma_sum_zero(zero, m);
    }
}

/// On a cycle of length `n`, exactly one start `x` in `0..n` puts offset `k`
/// of a window of size `w` on `target`.
pub proof fn lemma_torus_hit(n: int, w: int, k: int, target: int) -> (x: int)
    requires
        0 < n,
        0 <= target < n,
    ensures
        0 <= x < n,
        torus_index(n, w, x, k) == target,
        forall|y: int| 0 <= y < n && #[trigger] torus_index(n, w, y, k) == target ==> y == x,
{
    let s = n - w / 2 + k;
    let x = (target - s) % n;
    let q = (target - s) / n;
    vstd::arithmetic::div_mod::lemma_fundamental_div_mod(target - s, n);
    vstd::arithmetic::div_mod::lemma_mod_bound(target - s, n);
    assert(s + x == (-q) * n + target) by (nonlinear_arith)
        requires
            target - s == n * q + x,
    ;
    vstd::arithmetic::div_mod::lemma_fundamental_div_mod_converse(s + x, n, -q, target);
    assert forall|y: int| 0 <= y < n && #[trigger] torus_index(n, w, y, k) == target implies y == x by {
        let q2 = (s + y) / n;
        vstd::arithmetic::div_mod::lemma_fundamental_div_mod(s + y, n);
        assert(y - x == n * (q2 + q)) by (nonlinear_arith)
            requires
                s + y == n * q2 + target,
                target - s == n * q + x,
        ;
        assert(q2 + q == 0) by (nonlinear_arith)
            requires
                y - x == n * (q2 + q),
                0 <= y < n,
                0 <= x < n,
                0 < n,
        ;
    }
    x
}

/// A sum over one full cycle of the value picked where offset `k` lands on
/// `target` (and zero elsewhere) is the value.
pub proof fn lemma_sum_hit(g: spec_fn(int) -> int, n: int, w: int, k: int, target: int, val: int)
    requires
        0 < n,
        0 <= target < n,
        forall|y: int|
            0 <= y < n ==> #[trigger] at(g, y) == if torus_index(n, w, y, k) == target {
                val
            } else {
                0
            },
    ensures
        sum_to(g, n) == val,
{
    let x = lemma_torus_hit(n, w, k, target);
    assert forall|y: int| 0 <= y < n && y != x implies #[trigger] at(g, y) == 0 by {
        if torus_index(n, w, y, k) == target {
            assert(y == x);
        }
    }
    assert(at(g, x) == val);
    lemma_sum_single(g, n, x);
}

} // verus!
