use vstd::prelude::*;

verus! {

/// The distance between two naturals.
pub open spec fn dist_spec(a: int, b: int) -> int {
    if a > b {
        a - b
    } else {
        b - a
    }
}

/// Arithmetic helpers on `usize` that the solvers share.
pub trait UsizeTools: Sized {
    /// The squared difference of `self` and `other` fits in the type.
    spec fn sq_err_fits(&self, other: Self) -> bool;

    /// The absolute value of the difference.
    fn abs_diff(&self, other: Self) -> Self;

    /// The square of the difference.
    fn sq_err(&self, other: Self) -> Self
        requires
            self.sq_err_fits(other),
    ;
}

impl UsizeTools for usize {
    open spec fn sq_err_fits(&self, other: usize) -> bool {
        dist_spec(*self as int, other as int) * dist_spec(*self as int, other as int) <= usize::MAX
    }

    fn abs_diff(&self, other: usize) -> (d: usize)
        ensures
            d == dist_spec(*self as int, other as int),
    {
        if *self > other {
            *self - other
        } else {
            other - *self
        }
    }

    fn sq_err(&self, other: usize) -> (e: usize)
        ensures
            e == dist_spec(*self as int, other as int) * dist_spec(*self as int, other as int),
    {
        let d = UsizeTools::abs_diff(self, other);
        d * d
    }
}

} // verus!
