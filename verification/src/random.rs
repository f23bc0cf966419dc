//! The pseudo-random generators that the solvers draw from.
//!
//! The generators themselves are those of the `rand` crate; only the bounds of
//! each drawn number are stated, since which number comes out depends on the
//! generator's internal state.
use vstd::prelude::*;

verus! {

#[verifier::external_type_specification]
#[verifier::external_body]
pub struct ExSmallRng(rand::rngs::SmallRng);

#[verifier::external_type_specification]
#[verifier::external_body]
pub struct ExStdRng(rand::rngs::StdRng);

/// Seeds a `rand::rngs::SmallRng` through `rand::SeedableRng::seed_from_u64`.
/// Nothing is claimed of the generator that comes back.
#[verifier::external_body]
pub fn small_rng_from_seed(seed: u64) -> rand::rngs::SmallRng {
    <rand::rngs::SmallRng as rand::SeedableRng>::seed_from_u64(seed)
}

/// Seeds a `rand::rngs::StdRng` through `rand::SeedableRng::seed_from_u64`.
/// Nothing is claimed of the generator that comes back.
#[verifier::external_body]
pub fn std_rng_from_seed(seed: u64) -> rand::rngs::StdRng {
    <rand::rngs::StdRng as rand::SeedableRng>::seed_from_u64(seed)
}

/// Draws a number through `rand::Rng::gen_range(low, high)` on a `SmallRng`.
/// The crate samples uniformly from `low..high` and panics when `low >= high`;
/// the contract claims only that the number lies in that range.
#[verifier::external_body]
pub fn small_rng_gen_range(rng: &mut rand::rngs::SmallRng, low: usize, high: usize) -> (r: usize)
    requires
        low < high,
    ensures
        low <= r < high,
{
    rand::Rng::gen_range(rng, low, high)
}

/// Draws a number through `rand::Rng::gen_range(low, high)` on a `StdRng`.
/// The crate samples uniformly from `low..high` and panics when `low >= high`;
/// the contract claims only that the number lies in that range.
#[verifier::external_body]
pub fn std_rng_gen_range(rng: &mut rand::rngs::StdRng, low: usize, high: usize) -> (r: usize)
    requires
        low < high,
    ensures
        low <= r < high,
{
    rand::Rng::gen_range(rng, low, high)
}

} // verus!
