use vstd::prelude::*;
use rand::Rng;
use rand::SeedableRng;

verus! {

/// rand's standard generator, declared so that a value of it can sit in a
/// field of a verified struct. Verus sees it as an opaque type.
#[verifier::external_type_specification]
#[verifier::external_body]
pub struct ExStdRng(rand::rngs::StdRng);

/// A seeded pseudo-random source. The search takes one explicitly wherever it
/// draws, so a run can be reproduced from its seed.
pub struct RandomSource {
    inner: rand::rngs::StdRng,
}

impl RandomSource {
    /// Relies on rand's `StdRng::seed_from_u64` (from `SeedableRng`): builds a
    /// generator determined by the seed. Nothing is claimed of the draws.
    #[verifier::external_body]
    pub fn from_seed(seed: u64) -> (r: RandomSource) {
        RandomSource { inner: rand::rngs::StdRng::seed_from_u64(seed) }
    }

    /// Relies on rand's `Rng::gen::<bool>`: one fresh draw. No outcome is
    /// promised; callers must hold for both results.
    #[verifier::external_body]
    pub fn next_bool(&mut self) -> (r: bool) {
        self.inner.gen()
    }

    /// Relies on rand's `Rng::gen::<u64>`: one fresh draw. No outcome is
    /// promised; callers must hold for every result.
    #[verifier::external_body]
    pub fn next_u64(&mut self) -> (r: u64) {
        self.inner.gen()
    }
}

} // verus!
