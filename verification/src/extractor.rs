//! The buffered bit extractor: draws a 64-bit word from a [`BitSource`] only
//! when its buffer runs dry, and serves one bit per call, most significant
//! first. It also counts how many words were drawn, for entropy accounting.

use vstd::prelude::*;
use vstd::arithmetic::power2::pow2;
use crate::bitmath::bit_of;
use crate::source::BitSource;

verus! {

/// Width of the buffered word, in bits.
pub const FLIP_K: u64 = 64;

/// Buffered random state: the current word, the number of unserved bits left
/// in it, and how often the underlying source has been invoked.
pub struct FlipState {
    pub(crate) num_rng_calls: u64,
    pub(crate) flip_word: u64,
    pub(crate) flip_pos: u64,
}

impl FlipState {
    /// How many times the bit source has been invoked (wraps at `u64::MAX`;
    /// observational only).
    pub closed spec fn calls(&self) -> u64 {
        self.num_rng_calls
    }

    /// The buffered word.
    pub closed spec fn word(&self) -> u64 {
        self.flip_word
    }

    /// How many bits of the buffered word are still unserved.
    pub closed spec fn cursor(&self) -> u64 {
        self.flip_pos
    }

    pub open spec fn inv(&self) -> bool {
        self.cursor() <= 64
    }

    /// A fresh extractor: empty buffer, so the first bit draws a word.
    pub fn new() -> (st: FlipState)
        ensures
            st.inv(),
            st.calls() == 0,
            st.word() == 0,
            st.cursor() == 0,
    {
        FlipState { num_rng_calls: 0, flip_word: 0, flip_pos: 0 }
    }

    /// Read the invocation counter.
    pub fn rng_calls(&self) -> (n: u64)
        ensures
            n == self.calls(),
    {
        self.num_rng_calls
    }

    /// Unserved bits left in the buffer (for entropy accounting: bits
    /// consumed are `64 * calls - bits_left`).
    pub fn bits_left(&self) -> (n: u64)
        ensures
            n == self.cursor(),
    {
        self.flip_pos
    }
}

/// Serve one bit: refill the buffer from the source when it is empty, then
/// hand out the bit below the cursor.
pub fn flip<B: BitSource>(src: &mut B, st: &mut FlipState) -> (b: u32)
    requires
        old(st).inv(),
    ensures
        final(st).inv(),
        b == 0 || b == 1,
        old(st).cursor() > 0 ==> final(st).word() == old(st).word() && final(st).calls() == old(
            st,
        ).calls() && final(st).cursor() == old(st).cursor() - 1,
        old(st).cursor() == 0 ==> final(st).cursor() == 63 && final(st).calls() == (if old(
            st,
        ).calls() == u64::MAX {
            0u64
        } else {
            (old(st).calls() + 1) as u64
        }),
        b as nat == bit_of(final(st).word() as nat, final(st).cursor() as nat),
{
    if st.flip_pos == 0 {
        st.num_rng_calls = st.num_rng_calls.wrapping_add(1);
        st.flip_word = src.next_word();
        st.flip_pos = FLIP_K;
    }
    st.flip_pos = st.flip_pos - 1;
    proof {
        vstd::bits::lemma_u64_shr_is_div(st.flip_word, st.flip_pos);
    }
    ((st.flip_word >> st.flip_pos) % 2) as u32
}

} // verus!
