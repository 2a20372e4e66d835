//! The one source of randomness the solver draws on.  Every randomized
//! operation takes a `RandomSource` explicitly, so a placement can be
//! reproduced from a seed.

use vstd::prelude::*;

verus! {

#[verifier::external_type_specification]
#[verifier::external_body]
pub struct ExStdRng(rand::rngs::StdRng);

/// A stream of pseudo-random values.  Opaque to the verifier: nothing is
/// assumed of the values drawn beyond the bounds each drawing method
/// states, so every proof holds whatever comes out.
pub struct RandomSource {
    rng: rand::rngs::StdRng,
}

impl RandomSource {
    /// Relies on rand's `SeedableRng::seed_from_u64` to build a generator
    /// from a seed.  Nothing is assumed about the stream it produces.
    #[verifier::external_body]
    pub fn from_seed(seed: u64) -> Self {
        RandomSource { rng: <rand::rngs::StdRng as rand::SeedableRng>::seed_from_u64(seed) }
    }

    /// Relies on rand's `SeedableRng::from_entropy` to build a generator
    /// from fresh system entropy.  Nothing is assumed about its stream;
    /// the call aborts if the system's entropy source fails.
    #[verifier::external_body]
    pub fn from_entropy() -> Self {
        RandomSource { rng: <rand::rngs::StdRng as rand::SeedableRng>::from_entropy() }
    }

    /// Relies on rand's `Rng::gen_range` over the half-open range `0..n`,
    /// which returns a value of that range and panics only when the range
    /// is empty; the bound below is all that is assumed of the draw.
    #[verifier::external_body]
    pub fn below(&mut self, n: usize) -> (r: usize)
        requires
            n >= 1,
        ensures
            r < n,
    {
        rand::Rng::gen_range(&mut self.rng, 0..n)
    }

    /// Relies on rand's `Rng::gen` with the `Standard` distribution on
    /// `bool`, a coin flip.  Nothing is assumed of the outcome.
    #[verifier::external_body]
    pub fn coin(&mut self) -> bool {
        rand::Rng::gen::<bool>(&mut self.rng)
    }
}

} // verus!
