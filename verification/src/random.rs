//! The injected random source: uniform fixed-point draws in `[0, 1)`.

use vstd::prelude::*;
use crate::scalar::SCALE;

verus! {

#[verifier::external_type_specification]
#[verifier::external_body]
pub struct ExStdRng(rand::rngs::StdRng);

/// Relies on rand's `SeedableRng::seed_from_u64` for `StdRng`: builds a
/// generator whose stream is determined by the seed.
#[verifier::external_body]
fn std_rng_from_seed(seed: u64) -> rand::rngs::StdRng {
    <rand::rngs::StdRng as rand::SeedableRng>::seed_from_u64(seed)
}

/// Relies on rand's `SeedableRng::from_entropy` for `StdRng`: builds a
/// generator seeded from operating-system entropy.  rand documents that
/// this call panics if the operating system's entropy source fails — an
/// environmental failure, not one any input could avoid.
#[verifier::external_body]
fn std_rng_from_entropy() -> rand::rngs::StdRng {
    <rand::rngs::StdRng as rand::SeedableRng>::from_entropy()
}

/// Relies on rand's `RngCore::next_u64`: the next value of the generator's
/// stream.  Nothing is assumed of the value.
#[verifier::external_body]
fn std_rng_next_u64(rng: &mut rand::rngs::StdRng) -> u64 {
    rand::RngCore::next_u64(rng)
}

/// A source of uniform fixed-point draws in `[0, 1)`, threaded explicitly
/// through randomized construction and through every step so that a run can
/// be reproduced from its seed.
pub struct RandomSource {
    rng: rand::rngs::StdRng,
}

impl RandomSource {
    /// A reproducible source: the same seed yields the same draw stream.
    pub fn from_seed(seed: u64) -> RandomSource {
        RandomSource { rng: std_rng_from_seed(seed) }
    }

    /// A non-reproducible source seeded from operating-system entropy.
    pub fn from_entropy() -> RandomSource {
        RandomSource { rng: std_rng_from_entropy() }
    }

    /// The next draw, in `[0, SCALE)` fixed-point units, that is in the
    /// unit interval `[0, 1)`.
    pub fn next_unit(&mut self) -> (r: i64)
        ensures
            0 <= r < SCALE,
    {
        let raw = std_rng_next_u64(&mut self.rng);
        (raw % (SCALE as u64)) as i64
    }
}

} // verus!
