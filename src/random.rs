//! The random source of the sampling traversals.
use rand::rngs::SmallRng;
use rand::{Rng, SeedableRng};
use vstd::prelude::*;

verus! {

/// rand's small, fast generator, opaque here.
#[verifier::external_type_specification]
#[verifier::external_body]
pub struct ExSmallRng(SmallRng);

/// Relies on rand's `Rng::gen_range`: a value in `[low, high)`, here an octant digit.
#[verifier::external_body]
pub(crate) fn random_digit(rng: &mut SmallRng) -> (r: usize)
    ensures
        r < 8,
{
    rng.gen_range(0, 8)
}

/// Relies on rand's `SeedableRng::from_entropy`: a generator seeded from the operating system.
#[verifier::external_body]
pub(crate) fn fresh_rng() -> SmallRng {
    SmallRng::from_entropy()
}

} // verus!
