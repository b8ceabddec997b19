//! The seedable pseudo-random source behind piece placement.
//!
//! The generator itself comes from the `rand` crate and is opaque here: the
//! wrappers state only what holds of every draw, and the placement logic is
//! verified for every value a draw can take.

use vstd::prelude::*;

verus! {

#[verifier::external_type_specification]
#[verifier::external_body]
pub struct ExStdRng(rand::rngs::StdRng);

/// Relies on rand's `StdRng::seed_from_u64`: a generator built from a fixed
/// seed, whose sequence of draws replays identically for that seed.
#[verifier::external_body]
pub fn seed_rng(seed: u64) -> rand::rngs::StdRng {
    <rand::rngs::StdRng as rand::SeedableRng>::seed_from_u64(seed)
}

/// Relies on `rand::random`: a fresh seed drawn from the thread-local
/// generator. Nothing is promised of its value.
#[verifier::external_body]
pub fn entropy_seed() -> u64 {
    rand::random()
}

/// Relies on rand's `Rng::random_range`: a draw from `0..bound` lies below
/// `bound`. Nothing else is promised of its value.
#[verifier::external_body]
pub fn rand_below(rng: &mut rand::rngs::StdRng, bound: usize) -> (r: usize)
    requires
        bound >= 1,
    ensures
        r < bound,
{
    rand::Rng::random_range(rng, 0..bound)
}

} // verus!
