//! The library's source of randomness, wrapping rand's standard generator.
//!
//! Everything random that the evolutionary engine does (picking a mutation
//! operator, rejection-sampling node pairs, drawing exemplars) is driven by
//! `gen_below`, so a single uniform-integer primitive is all that is assumed
//! of the outside crate.

use vstd::prelude::*;

verus! {

/// Declares rand's standard generator type so a value of it can be stored.
#[verifier::external_type_specification]
#[verifier::external_body]
pub struct ExStdRng(rand::rngs::StdRng);

/// A seedable source of uniform random integers.
pub struct RngSource {
    inner: rand::rngs::StdRng,
}

impl RngSource {
    /// Relies on rand's `SeedableRng::seed_from_u64` to build a generator
    /// deterministically from a 64-bit seed.
    #[verifier::external_body]
    pub fn from_seed(seed: u64) -> RngSource {
        RngSource { inner: rand::SeedableRng::seed_from_u64(seed) }
    }

    /// Relies on rand's `Rng::gen_range` over the half-open range `0..n`:
    /// the result lies in `[0, n)`, and the call panics only when the range
    /// is empty, which the precondition rules out.
    #[verifier::external_body]
    pub fn gen_below(&mut self, n: usize) -> (r: usize)
        requires
            1 <= n,
        ensures
            r < n,
    {
        rand::Rng::gen_range(&mut self.inner, 0..n)
    }
}

} // verus!
