//! Preprocessing: turn a weight vector into a [`Sampler`].
//!
//! The builder sums the weights, derives the depth `bk` (twice the bit length
//! of the total mass by default, or a caller-chosen depth), pre-counts the
//! leaves with population counts, allocates both arrays once, and fills them
//! level by level, most significant bit first.

use vstd::prelude::*;
use vstd::arithmetic::power2::{pow2, lemma_pow2_pos, lemma_pow2_unfold, lemma2_to64, lemma2_to64_rest, lemma_pow2_strictly_increases, lemma_pow2_adds};
use crate::bitmath::{
    bit_of, popcnt, log2_ceil, pow2_u64, popcount_u64, ceil_log2_u64, lemma_log2_ceil_bound,
    lemma_log2_ceil_le,
};
use crate::model::{
    mass, amp_factor, reject_mass, ampw, row_at, row_outcomes, leaves_upto, leaf_count, pc_sum,
    lemma_mass_nonneg, lemma_mass_take_succ, lemma_mass_take_le,
    lemma_amp_bounds, lemma_leaf_count_is_len, lemma_upto_prefix, lemma_row_outcomes_prefix,
    lemma_row_outcomes_len_le,
};
use crate::sampler::Sampler;

verus! {

/// Failure of the builder: the distribution is empty or does not fit the
/// supported precision.
#[derive(Clone, Copy, Debug, PartialEq, Eq, Structural)]
pub enum ConstructionError {
    /// The weights sum to zero: there is nothing to sample.
    ZeroTotalMass,
    /// The weights, the outcome count or the chosen depth exceed what the
    /// fixed-width construction can represent.
    PrecisionOverflow,
}

/// Largest total mass accepted by [`build`], which chooses depth `2 * k`:
/// the mass must fit in 31 bits so that `pow2(2 * k)` fits in a `u64`.
pub const MAX_TOTAL_MASS: u64 = 0x8000_0000;

/// The inputs on which construction at depth `bk` succeeds.
pub open spec fn buildable(x: Seq<u32>, bk: nat) -> bool {
    &&& x.len() < 0xffff_ffff
    &&& 1 <= mass(x)
    &&& bk <= 63
    &&& mass(x) <= pow2(bk)
    &&& leaf_count(x, bk) <= usize::MAX
}

/// Sum of the weights, bailing out once the sum leaves the supported range.
fn total_mass(x: &Vec<u32>) -> (res: Option<u64>)
    ensures
        res is Some <==> mass(x@) <= 0x8000_0000_0000_0000,
        res matches Some(m) ==> m as int == mass(x@),
{
    let mut acc: u64 = 0;
    let mut i: usize = 0;
    let n = x.len();
    proof {
        assert(x@.take(0) =~= Seq::<u32>::empty());
    }
    while i < n
        invariant
            0 <= i <= n == x@.len(),
            acc as int == mass(x@.take(i as int)),
            acc <= 0x8000_0000_0000_0000,
        decreases n - i,
    {
        proof {
            lemma_mass_take_succ(x@, i as int);
            lemma_mass_take_le(x@, i as int + 1);
        }
        let w = x[i];
        if acc > 0x8000_0000_0000_0000 - (w as u64) {
            return None;
        }
        acc = acc + (w as u64);
        i = i + 1;
    }
    proof {
        assert(x@.take(n as int) =~= x@);
    }
    Some(acc)
}

/// Fresh zero-filled vector of the given length.
fn zero_vec_u32(n: usize) -> (v: Vec<u32>)
    ensures
        v@.len() == n,
        forall|t: int| 0 <= t < n ==> v@[t] == 0u32,
{
    let mut v: Vec<u32> = Vec::new();
    let mut i: usize = 0;
    while i < n
        invariant
            i <= n,
            v@.len() == i,
            forall|t: int| 0 <= t < i ==> v@[t] == 0u32,
        decreases n - i,
    {
        v.push(0);
        i = i + 1;
    }
    v
}

/// Build a sampler with the default depth `2 * k`, where `k` is the bit
/// length of the total mass (`k` is one less than the raw bit length when the
/// mass is an exact power of two).
pub fn build(x: &Vec<u32>) -> (res: Result<Sampler, ConstructionError>)
    ensures
        res is Ok <==> buildable(x@, (2 * log2_ceil(mass(x@) as nat)) as nat) && mass(x@)
            <= MAX_TOTAL_MASS,
        (res matches Ok(s) ==> s.wf() && s.weights() == x@ && s.depth() == 2 * log2_ceil(
            mass(x@) as nat,
        )),
        (res matches Err(e) ==> (e == ConstructionError::ZeroTotalMass <==> (x@.len()
            < 0xffff_ffff && mass(x@) == 0))),
{
    if x.len() >= (u32::MAX as usize) {
        return Err(ConstructionError::PrecisionOverflow);
    }
    let m = match total_mass(x) {
        Some(m) => m,
        None => {
            proof {
                lemma_mass_nonneg(x@);
            }
            return Err(ConstructionError::PrecisionOverflow);
        },
    };
    if m == 0 {
        return Err(ConstructionError::ZeroTotalMass);
    }
    if m > MAX_TOTAL_MASS {
        return Err(ConstructionError::PrecisionOverflow);
    }
    let k = ceil_log2_u64(m);
    proof {
        lemma2_to64();
        lemma_log2_ceil_le(m as nat, 31);
        lemma_log2_ceil_bound(m as nat);
        lemma_pow2_strictly_increases(log2_ceil(m as nat), (2 * log2_ceil(m as nat) + 1) as nat);
        if log2_ceil(m as nat) < 2 * log2_ceil(m as nat) {
            lemma_pow2_strictly_increases(
                log2_ceil(m as nat),
                (2 * log2_ceil(m as nat)) as nat,
            );
        }
    }
    build_with_depth(x, 2 * k)
}

/// Build a sampler at a caller-chosen depth `bk`; the depth must cover the
/// total mass (`mass <= pow2(bk)`, `bk <= 63`).
pub fn build_with_depth(x: &Vec<u32>, bk: u64) -> (res: Result<Sampler, ConstructionError>)
    ensures
        res is Ok <==> buildable(x@, bk as nat),
        (res matches Ok(s) ==> s.wf() && s.weights() == x@ && s.depth() == bk as nat),
        (res matches Err(e) ==> (e == ConstructionError::ZeroTotalMass <==> (x@.len()
            < 0xffff_ffff && mass(x@) == 0))),
{
    let ghost xs = x@;
    if x.len() >= (u32::MAX as usize) {
        return Err(ConstructionError::PrecisionOverflow);
    }
    let m = match total_mass(x) {
        Some(m) => m,
        None => {
            proof {
                lemma2_to64_rest();
                if bk < 63 {
                    lemma_pow2_strictly_increases(bk as nat, 63);
                }
            }
            return Err(ConstructionError::PrecisionOverflow);
        },
    };
    if m == 0 {
        return Err(ConstructionError::ZeroTotalMass);
    }
    if bk > 63 {
        return Err(ConstructionError::PrecisionOverflow);
    }
    let p2k = pow2_u64(bk);
    if m > p2k {
        return Err(ConstructionError::PrecisionOverflow);
    }
    let c: u64 = p2k / m;
    let r: u64 = p2k % m;
    let ghost cs = amp_factor(xs, bk as nat);
    let ghost rs = reject_mass(xs, bk as nat);
    proof {
        lemma_amp_bounds(xs, bk as nat);
        assert(c as int == cs);
        assert(r as int == rs);
    }
    let n = x.len();

    // Pre-count the leaves: popcount of the reject mass plus popcount of each
    // amplified weight.
    let mut num: u64 = popcount_u64(r) as u64;
    let mut i: usize = 0;
    while i < n
        invariant
            0 <= i <= n == xs.len(),
            xs == x@,
            c as int == cs,
            1 <= m as int == mass(xs) <= pow2(bk as nat),
            bk <= 63,
            xs.len() < 0xffff_ffff,
            r as int == rs,
            cs == amp_factor(xs, bk as nat),
            rs == reject_mass(xs, bk as nat),
            num as int == popcnt(r as nat) + pc_sum(xs, cs, i as int),
            num <= 64 + 64 * i,
        decreases n - i,
    {
        proof {
            lemma_amp_bounds(xs, bk as nat);
            assert(0 <= ampw(xs, cs, i as int) <= pow2(bk as nat));
            lemma_pow2_strictly_increases(bk as nat, 64);
            lemma2_to64_rest();
        }
        let v: u64 = c * (x[i] as u64);
        proof {
            assert(v as int == ampw(xs, cs, i as int));
        }
        num = num + (popcount_u64(v) as u64);
        i = i + 1;
    }
    proof {
        assert(num as int == leaf_count(xs, bk as nat));
        lemma_leaf_count_is_len(xs, bk as nat);
    }
    if num > (usize::MAX as u64) {
        return Err(ConstructionError::PrecisionOverflow);
    }
    let num_leaves: usize = num as usize;

    let bkz: usize = bk as usize;
    let mut breadths = zero_vec_u32(bkz + 1);
    let mut leaves_flat = zero_vec_u32(num_leaves);
    let mut location: usize = 0;
    let mut p2: u64 = p2k;
    let mut j: usize = 0;

    while j <= bkz
        invariant
            0 <= j <= bkz + 1,
            bkz == bk as nat,
            bk <= 63,
            xs == x@,
            n == xs.len(),
            xs.len() < 0xffff_ffff,
            c as int == cs,
            r as int == rs,
            1 <= mass(xs) <= pow2(bk as nat),
            cs == amp_factor(xs, bk as nat),
            rs == reject_mass(xs, bk as nat),
            breadths@.len() == bkz + 1,
            leaves_flat@.len() == num_leaves == leaves_upto(xs, cs, rs, bk as nat, bk + 1 as int).len(),
            forall|t: int|
                0 <= t < j ==> #[trigger] breadths@[t] as int == row_at(
                    xs,
                    cs,
                    rs,
                    (bk - t) as nat,
                ).len(),
            forall|t: int| j <= t <= bkz ==> #[trigger] breadths@[t] == 0u32,
            location == leaves_upto(xs, cs, rs, bk as nat, j as int).len(),
            leaves_flat@.take(location as int) == leaves_upto(xs, cs, rs, bk as nat, j as int),
            j <= bkz ==> p2 as int == pow2((bk - j) as nat),
        decreases bkz + 1 - j,
    {
        let ghost q = (bk - j) as nat;
        let ghost pre = leaves_upto(xs, cs, rs, bk as nat, j as int);
        proof {
            lemma_upto_prefix(xs, cs, rs, bk as nat, j + 1 as int, bk + 1 as int);
            assert(leaves_upto(xs, cs, rs, bk as nat, j + 1 as int) == pre + row_at(xs, cs, rs, q));
            lemma_pow2_pos(q);
        }

        // Reject leaf of this level, if bit `q` of the reject mass is set.
        if (r / p2) % 2 == 1 {
            proof {
                assert(bit_of(rs as nat, q) == 1);
                assert(row_at(xs, cs, rs, q).take(1) =~= seq![0u32]);
            }
            leaves_flat.set(location, 0);
            let bj = breadths[j];
            breadths.set(j, bj + 1);
            proof {
                assert(leaves_flat@.take(location + 1 as int) =~= pre.push(0u32));
                assert(pre.push(0u32) =~= pre + row_at(xs, cs, rs, q).take(1));
            }
            location = location + 1;
        } else {
            proof {
                assert(bit_of(rs as nat, q) == 0);
                assert(pre + row_at(xs, cs, rs, q).take(0) =~= pre);
            }
        }

        // One leaf per outcome whose amplified weight has bit `q` set.
        let ghost rej_len: int = if bit_of(rs as nat, q) == 1 { 1int } else { 0int };
        let mut i: usize = 0;
        while i < n
            invariant
                0 <= i <= n == xs.len(),
                xs == x@,
                j <= bkz,
                bkz == bk as nat,
                bk <= 63,
                xs.len() < 0xffff_ffff,
                c as int == cs,
                r as int == rs,
                1 <= mass(xs) <= pow2(bk as nat),
                cs == amp_factor(xs, bk as nat),
                rs == reject_mass(xs, bk as nat),
                q == (bk - j) as nat,
                p2 as int == pow2(q),
                rej_len == (if bit_of(rs as nat, q) == 1 { 1int } else { 0int }),
                breadths@.len() == bkz + 1,
                leaves_flat@.len() == num_leaves == leaves_upto(xs, cs, rs, bk as nat, bk + 1 as int).len(),
                forall|t: int|
                    0 <= t < j ==> #[trigger] breadths@[t] as int == row_at(
                        xs,
                        cs,
                        rs,
                        (bk - t) as nat,
                    ).len(),
                forall|t: int| j < t <= bkz ==> #[trigger] breadths@[t] == 0u32,
                breadths@[j as int] as int == rej_len + row_outcomes(xs, cs, q, i as int).len(),
                pre == leaves_upto(xs, cs, rs, bk as nat, j as int),
                location == pre.len() + rej_len + row_outcomes(xs, cs, q, i as int).len(),
                leaves_flat@.take(location as int) == pre + row_at(xs, cs, rs, q).take(
                    rej_len + row_outcomes(xs, cs, q, i as int).len(),
                ),
            decreases n - i,
        {
            proof {
                lemma_amp_bounds(xs, bk as nat);
                assert(0 <= ampw(xs, cs, i as int) <= pow2(bk as nat));
                lemma_pow2_strictly_increases(bk as nat, 64);
                lemma2_to64_rest();
                lemma_pow2_pos(q);
            }
            let v: u64 = c * (x[i] as u64);
            proof {
                assert(v as int == ampw(xs, cs, i as int));
                assert(row_outcomes(xs, cs, q, i + 1 as int) == row_outcomes(xs, cs, q, i as int)
                    + (if bit_of(ampw(xs, cs, i as int) as nat, q) == 1 {
                    seq![(i + 1) as u32]
                } else {
                    Seq::<u32>::empty()
                }));
                lemma_row_outcomes_prefix(xs, cs, q, i + 1 as int, xs.len() as int);
                lemma_row_outcomes_len_le(xs, cs, q, i as int);
            }
            if (v / p2) % 2 == 1 {
                proof {
                    assert(bit_of(v as nat, q) == 1);
                    lemma_upto_prefix(xs, cs, rs, bk as nat, j + 1 as int, bk + 1 as int);
                    let ro_n = row_outcomes(xs, cs, q, xs.len() as int);
                    let rli = row_outcomes(xs, cs, q, i as int).len() as int;
                    let rl = rej_len + rli;
                    assert(row_outcomes(xs, cs, q, i + 1 as int).len() == rli + 1);
                    assert(ro_n.take(rli + 1) == row_outcomes(xs, cs, q, i + 1 as int));
                    assert(ro_n[rli] == row_outcomes(xs, cs, q, i + 1 as int)[rli]);
                    assert(row_outcomes(xs, cs, q, i + 1 as int)[rli] == (i + 1) as u32);
                    assert(row_at(xs, cs, rs, q)[rl] == ro_n[rli]);
                    assert(rl < row_at(xs, cs, rs, q).len());
                    assert(leaves_upto(xs, cs, rs, bk as nat, j + 1 as int) == leaves_upto(
                        xs,
                        cs,
                        rs,
                        bk as nat,
                        j as int,
                    ) + row_at(xs, cs, rs, q));
                    assert(location < num_leaves);
                }
                leaves_flat.set(location, (i as u32) + 1);
                let bj = breadths[j];
                proof {
                    assert(bj as int == rej_len + row_outcomes(xs, cs, q, i as int).len());
                    assert(bj as int <= 1 + xs.len());
                }
                breadths.set(j, bj + 1);
                proof {
                    let rl = rej_len + row_outcomes(xs, cs, q, i as int).len();
                    assert(leaves_flat@.take(location + 1 as int) =~= (pre + row_at(
                        xs,
                        cs,
                        rs,
                        q,
                    ).take(rl)).push((i + 1) as u32));
                    assert((pre + row_at(xs, cs, rs, q).take(rl)).push((i + 1) as u32) =~= pre
                        + row_at(xs, cs, rs, q).take(rl + 1));
                }
                location = location + 1;
            }
            i = i + 1;
        }
        proof {
            assert(row_outcomes(xs, cs, q, n as int).len() == row_outcomes(
                xs,
                cs,
                q,
                xs.len() as int,
            ).len());
            assert(row_at(xs, cs, rs, q).take(rej_len + row_outcomes(xs, cs, q, n as int).len())
                =~= row_at(xs, cs, rs, q));
            assert(breadths@[j as int] as int == row_at(xs, cs, rs, q).len());
        }
        if j < bkz {
            proof {
                lemma_pow2_unfold(q);
            }
            p2 = p2 / 2;
        }
        j = j + 1;
    }
    proof {
        assert(location == leaves_upto(xs, cs, rs, bk as nat, bk + 1 as int).len());
        assert(leaves_flat@.take(location as int) =~= leaves_flat@);
    }
    let s = Sampler::assemble(breadths, leaves_flat, Ghost(xs), Ghost(bk as nat));
    Ok(s)
}

} // verus!
