//! The injected randomness capability: the sampler asks for one random limb
//! at a time, so deterministic substitutes can drive it under test.

use vstd::prelude::*;

verus! {

/// A source of single random limbs. Nothing is assumed of the distribution
/// of the words it yields: every caller must hold for every outcome.
pub trait RandomSource {
    /// Produces one 64-bit word on demand.
    fn next_word(&mut self) -> u64;
}

#[verifier::external_type_specification]
#[verifier::external_body]
pub struct ExThreadRng(rand::rngs::ThreadRng);

/// A randomness source backed by the `rand` crate's thread-local generator.
pub struct ThreadRandom {
    rng: rand::rngs::ThreadRng,
}

/// Relies on rand::rng: hands out the calling thread's generator. It panics
/// only if the operating system's entropy source fails at first seeding.
#[verifier::external_body]
fn obtain_thread_rng() -> rand::rngs::ThreadRng {
    rand::rng()
}

/// Relies on rand::Rng::next_u64 for ThreadRng: returns one random word.
/// Nothing can be promised of the value.
#[verifier::external_body]
fn thread_rng_next(r: &mut rand::rngs::ThreadRng) -> u64 {
    rand::Rng::next_u64(r)
}

impl ThreadRandom {
    /// Opens a handle to the thread-local generator.
    pub fn new() -> ThreadRandom {
        ThreadRandom { rng: obtain_thread_rng() }
    }
}

impl RandomSource for ThreadRandom {
    fn next_word(&mut self) -> u64 {
        thread_rng_next(&mut self.rng)
    }
}

} // verus!
