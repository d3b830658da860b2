//! The pseudo-random number generator that drives puzzle generation.
//!
//! Nothing here is verified: the contracts below state what the `rand`
//! crate documents of the functions that are called.
use rand::rngs::SmallRng;
use rand::{Rng, SeedableRng};
use vstd::prelude::*;

verus! {

/// `rand::rngs::SmallRng`, whose state the library only passes on.
#[verifier::external_type_specification]
#[verifier::external_body]
pub struct ExSmallRng(SmallRng);

/// Calls `SmallRng::seed_from_u64`. The generator that comes back depends
/// on the platform as well as on the seed, so nothing is claimed of it.
#[verifier::external_body]
pub(crate) fn seeded(seed: u64) -> SmallRng {
    SmallRng::seed_from_u64(seed)
}

/// Calls `Rng::random_range` on the inclusive range from `low` to `high`.
/// The range must hold a value, else the call would panic; the value that
/// comes back lies in the range, and nothing more is claimed of it.
#[verifier::external_body]
pub(crate) fn draw(rng: &mut SmallRng, low: usize, high: usize) -> (value: usize)
    requires
        low <= high,
    ensures
        low <= value <= high,
{
    rng.random_range(low..=high)
}

} // verus!
