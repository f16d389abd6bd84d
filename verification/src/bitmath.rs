//! Bit-level arithmetic: single bits of an integer, population counts, and
//! small verified executable helpers (`pow2_u64`, `popcount_u64`, `ceil_log2_u64`).

use vstd::prelude::*;
use vstd::arithmetic::power2::*;
use vstd::arithmetic::div_mod::*;

verus! {

/// The bit of `v` at position `q` (position 0 is the least significant), as 0 or 1.
pub open spec fn bit_of(v: nat, q: nat) -> nat {
    (v / pow2(q)) % 2
}

/// Number of set bits in the binary representation of `v`.
pub open spec fn popcnt(v: nat) -> nat
    decreases v,
{
    if v == 0 {
        0
    } else {
        (v % 2) + popcnt(v / 2)
    }
}

/// Number of set bits of `v` at positions `q` and above.
pub open spec fn popcnt_from(v: nat, q: nat) -> nat {
    popcnt(v / pow2(q))
}

/// Smallest exponent `k` such that `m <= pow2(k)`.
pub open spec fn log2_ceil(m: nat) -> nat
    decreases m,
{
    if m <= 1 {
        0
    } else {
        1 + log2_ceil((m + 1) / 2)
    }
}

/// Counting high bits one position at a time: position `q` joins the count.
pub proof fn lemma_popcnt_from_step(v: nat, q: nat)
    ensures
        popcnt_from(v, q) == popcnt_from(v, q + 1) + bit_of(v, q),
{
    lemma_pow2_pos(q);
    lemma_pow2_adds(q, 1);
    lemma2_to64();
    let w = v / pow2(q);
    lemma_div_denominator(v as int, pow2(q) as int, 2);
    assert(w / 2 == v / pow2(q + 1));
    assert(popcnt(w) == (w % 2) + popcnt(w / 2));
}

/// No bits at or above `q` when `v < pow2(q)`.
pub proof fn lemma_popcnt_from_zero(v: nat, q: nat)
    requires
        v < pow2(q),
    ensures
        popcnt_from(v, q) == 0,
{
    lemma_pow2_pos(q);
    lemma_basic_div(v as int, pow2(q) as int);
}

/// Counting from position 0 counts every bit.
pub proof fn lemma_popcnt_from_base(v: nat)
    ensures
        popcnt_from(v, 0) == popcnt(v),
{
    lemma2_to64();
    assert(v / pow2(0) == v);
}

/// A value below `pow2(w)` has at most `w` set bits.
pub proof fn lemma_popcnt_bound(v: nat, w: nat)
    requires
        v < pow2(w),
    ensures
        popcnt(v) <= w,
    decreases w,
{
    if v == 0 {
    } else if w == 0 {
        lemma2_to64();
    } else {
        lemma_pow2_unfold(w);
        assert(v / 2 < pow2((w - 1) as nat));
        lemma_popcnt_bound(v / 2, (w - 1) as nat);
    }
}

/// A positive value has at least one set bit.
pub proof fn lemma_popcnt_pos(v: nat)
    requires
        v > 0,
    ensures
        popcnt(v) >= 1,
    decreases v,
{
    if v % 2 == 0 {
        lemma_popcnt_pos(v / 2);
    }
}

/// A set bit at position `q` puts `v` at or above `pow2(q)`.
pub proof fn lemma_bit_set_lower_bound(v: nat, q: nat)
    requires
        bit_of(v, q) == 1,
    ensures
        v >= pow2(q),
{
    lemma_pow2_pos(q);
    if v < pow2(q) {
        lemma_basic_div(v as int, pow2(q) as int);
    }
}

/// Splitting off the bit at position `q` from the low `q + 1` bits.
pub proof fn lemma_bit_decompose(v: nat, q: nat)
    ensures
        v % pow2(q + 1) == v % pow2(q) + bit_of(v, q) * pow2(q),
{
    lemma_pow2_pos(q);
    lemma_pow2_adds(q, 1);
    lemma2_to64();
    assert(pow2(q + 1) == pow2(q) * 2);
    lemma_breakdown(v as int, pow2(q) as int, 2);
    assert(v as int % (pow2(q) as int * 2) == pow2(q) as int * ((v as int / pow2(q) as int) % 2)
        + v as int % pow2(q) as int);
    vstd::arithmetic::mul::lemma_mul_is_commutative(pow2(q) as int, bit_of(v, q) as int);
}

/// `pow2` as an executable function on `u64`.
pub fn pow2_u64(e: u64) -> (p: u64)
    requires
        e <= 63,
    ensures
        p as nat == pow2(e as nat),
{
    let mut p: u64 = 1;
    let mut i: u64 = 0;
    proof {
        lemma2_to64();
    }
    while i < e
        invariant
            i <= e <= 63,
            p as nat == pow2(i as nat),
        decreases e - i,
    {
        proof {
            lemma_pow2_adds(i as nat, 1);
            lemma2_to64();
            lemma_pow2_strictly_increases(i as nat, 63);
            lemma2_to64_rest();
        }
        p = p * 2;
        i = i + 1;
    }
    p
}

/// Population count of a `u64`, by repeated halving.
pub fn popcount_u64(v: u64) -> (c: u32)
    ensures
        c as nat == popcnt(v as nat),
        c <= 64,
{
    let mut x: u64 = v;
    let mut c: u32 = 0;
    proof {
        lemma2_to64_rest();
        lemma_popcnt_bound(v as nat, 64);
    }
    while x > 0
        invariant
            c as nat + popcnt(x as nat) == popcnt(v as nat),
            popcnt(v as nat) <= 64,
        decreases x,
    {
        proof {
            lemma_popcnt_pos(x as nat);
        }
        c = c + (x % 2) as u32;
        x = x / 2;
    }
    c
}

/// `log2_ceil` as an executable function on `u64`.
pub fn ceil_log2_u64(m: u64) -> (k: u64)
    requires
        1 <= m < u64::MAX,
    ensures
        k as nat == log2_ceil(m as nat),
        k <= 64,
    decreases m,
{
    if m <= 1 {
        0
    } else {
        let k1 = ceil_log2_u64((m + 1) / 2);
        proof {
            lemma2_to64_rest();
            lemma_log2_ceil_le(m as nat, 64);
        }
        1 + k1
    }
}

/// The defining upper bound of `log2_ceil`.
pub proof fn lemma_log2_ceil_bound(m: nat)
    requires
        m >= 1,
    ensures
        m <= pow2(log2_ceil(m)),
    decreases m,
{
    if m <= 1 {
        lemma2_to64();
    } else {
        lemma_log2_ceil_bound((m + 1) / 2);
        lemma_pow2_unfold(log2_ceil(m));
    }
}

/// `log2_ceil` is bounded by any exponent whose power covers `m`.
pub proof fn lemma_log2_ceil_le(m: nat, w: nat)
    requires
        m <= pow2(w),
    ensures
        log2_ceil(m) <= w,
    decreases w,
{
    if m <= 1 {
    } else if w == 0 {
        lemma2_to64();
    } else {
        lemma_pow2_unfold(w);
        lemma_log2_ceil_le((m + 1) / 2, (w - 1) as nat);
    }
}

} // verus!
