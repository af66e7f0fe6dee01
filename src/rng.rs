use vstd::prelude::*;

use rand::rngs::SmallRng;

verus! {

#[verifier::external_type_specification]
#[verifier::external_body]
pub struct ExSmallRng(rand::rngs::SmallRng);

/// Relies on rand's `SeedableRng::seed_from_u64` for `SmallRng`: builds a
/// generator from a 64-bit seed. Nothing is promised of the generator.
#[verifier::external_body]
pub(crate) fn seeded_rng(seed: u64) -> (r: SmallRng) {
    <SmallRng as rand::SeedableRng>::seed_from_u64(seed)
}

/// Relies on rand's `RngCore::next_u32` for `SmallRng`: draws the next 32
/// random bits. Nothing is promised of the value.
#[verifier::external_body]
pub(crate) fn next_random(rng: &mut SmallRng) -> (r: u32) {
    rand::RngCore::next_u32(rng)
}

} // verus!
