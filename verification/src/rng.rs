//! The pseudorandom source behind filler bits and carrier shuffling.
//!
//! The generator is seeded explicitly, so a run is reproducible from its
//! seed; nothing else is assumed about the bytes it yields.

use vstd::prelude::*;

verus! {

#[verifier::external_type_specification]
#[verifier::external_body]
pub struct ExStdRng(rand::rngs::StdRng);

/// A deterministic pseudorandom byte source.
pub struct StegoRng {
    rng: rand::rngs::StdRng,
}

impl StegoRng {
    /// Relies on rand's `SeedableRng::seed_from_u64`: the generator's
    /// stream is a function of the seed alone.
    #[verifier::external_body]
    pub fn from_seed(seed: u64) -> StegoRng {
        StegoRng { rng: <rand::rngs::StdRng as rand::SeedableRng>::seed_from_u64(seed) }
    }

    /// Relies on rand's `Rng::gen` to draw one pseudorandom byte; nothing
    /// is promised of the value, and callers must hold for every outcome.
    #[verifier::external_body]
    pub fn next_byte(&mut self) -> u8 {
        let b: u8 = rand::Rng::gen(&mut self.rng);
        b
    }

    /// Relies on rand's `SliceRandom::shuffle`, a Fisher-Yates shuffle that
    /// permutes the slice in place: the same strings remain, reordered.
    #[verifier::external_body]
    pub fn shuffle_paths(&mut self, paths: &mut Vec<String>)
        ensures
            final(paths)@.len() == old(paths)@.len(),
            final(paths)@.to_multiset() == old(paths)@.to_multiset(),
    {
        rand::seq::SliceRandom::shuffle(paths.as_mut_slice(), &mut self.rng);
    }
}

} // verus!
