//! Sources of random words.
//!
//! The sampler consumes unbiased bits; where they come from is the caller's
//! concern. A [`BitSource`] hands out one 64-bit word per call. The crate
//! ships a tiny deterministic generator ([`XorShift64`]) and an adapter over
//! the `rand` crate's seedable generator ([`StdRngSource`]).

use vstd::prelude::*;

verus! {

/// A provider of 64-bit words of (ideally unbiased) random bits. Nothing is
/// promised about the words: every consumer must be correct whatever comes
/// back.
pub trait BitSource {
    fn next_word(&mut self) -> u64;
}

/// The xorshift step: three shift-xor rounds.
pub open spec fn xorshift64_step(s: u64) -> u64 {
    let a = s ^ (s << 13);
    let b = a ^ (a >> 7);
    b ^ (b << 17)
}

/// A small deterministic generator (64-bit xorshift). Good enough for
/// reproducible tests and demonstrations; the state must start nonzero to
/// cycle through its full period.
pub struct XorShift64 {
    state: u64,
}

impl XorShift64 {
    pub closed spec fn view_state(&self) -> u64 {
        self.state
    }

    /// A zero seed is replaced by a fixed odd constant, since the all-zero
    /// state is a fixed point of the xorshift step.
    pub fn new(seed: u64) -> (g: XorShift64)
        ensures
            g.view_state() == (if seed == 0 {
                0x9E3779B97F4A7C15u64
            } else {
                seed
            }),
    {
        if seed == 0 {
            XorShift64 { state: 0x9E3779B97F4A7C15 }
        } else {
            XorShift64 { state: seed }
        }
    }
}

impl BitSource for XorShift64 {
    fn next_word(&mut self) -> (w: u64)
        ensures
            final(self).view_state() == xorshift64_step(old(self).view_state()),
            w == final(self).view_state(),
    {
        let mut z = self.state;
        z = z ^ (z << 13u64);
        z = z ^ (z >> 7u64);
        z = z ^ (z << 17u64);
        self.state = z;
        z
    }
}

/// Declares rand::rngs::StdRng as an opaque outside type so a field can hold
/// one; nothing about its inner state is visible to proofs.
#[verifier::external_type_specification]
#[verifier::external_body]
pub struct ExStdRng(rand::rngs::StdRng);

/// A bit source backed by `rand`'s seedable standard generator.
pub struct StdRngSource {
    rng: rand::rngs::StdRng,
}

impl StdRngSource {
    /// Relies on rand::SeedableRng::seed_from_u64: builds the generator in a
    /// deterministic state derived from the seed.
    #[verifier::external_body]
    pub fn from_seed(seed: u64) -> StdRngSource {
        StdRngSource { rng: <rand::rngs::StdRng as rand::SeedableRng>::seed_from_u64(seed) }
    }

    /// Relies on rand::RngCore::next_u64: one fresh 64-bit random word.
    #[verifier::external_body]
    fn fresh_word(&mut self) -> u64 {
        rand::RngCore::next_u64(&mut self.rng)
    }
}

impl BitSource for StdRngSource {
    fn next_word(&mut self) -> u64 {
        self.fresh_word()
    }
}

} // verus!
