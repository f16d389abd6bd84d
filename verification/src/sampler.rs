//! The immutable sampler artifact: per-depth leaf counts (`breadths`) and the
//! flattened leaves, plus the laws that tie the two together.

use vstd::prelude::*;
use vstd::arithmetic::power2::{
    pow2, lemma_pow2_pos, lemma_pow2_strictly_increases, lemma2_to64, lemma2_to64_rest,
};
use vstd::arithmetic::div_mod::{lemma_mod_multiples_basic, lemma_div_by_self};
use crate::bitmath::{bit_of, popcnt, lemma_popcnt_bound};
use crate::model::{
    mass, amp_factor, reject_mass, ampw, row_at, row_outcomes, leaves_upto, leaf_count,
    lemma_amp_bounds, lemma_upto_prefix, lemma_row_index, lemma_row_elem, lemma_leaf_count_is_len,
    pc_sum,
};

verus! {

/// The immutable result of preprocessing a weight vector: `breadths[j]` counts
/// the leaves at tree depth `j`, and `leaves_flat` holds all leaves grouped by
/// depth (0 is the reject sentinel; `i + 1` encodes outcome `i`).
pub struct Sampler {
    pub(crate) breadths: Vec<u32>,
    pub(crate) leaves_flat: Vec<u32>,
    pub(crate) wts: Ghost<Seq<u32>>,
    pub(crate) amp_depth: Ghost<nat>,
}

impl Sampler {
    /// The weight vector this sampler was built from.
    pub closed spec fn weights(&self) -> Seq<u32> {
        self.wts@
    }

    /// The tree depth (the deepest level; bit positions run from `depth()`
    /// down to 0).
    pub closed spec fn depth(&self) -> nat {
        self.amp_depth@
    }

    pub closed spec fn breadths_seq(&self) -> Seq<u32> {
        self.breadths@
    }

    pub closed spec fn leaves_seq(&self) -> Seq<u32> {
        self.leaves_flat@
    }

    /// Well-formedness: the stored arrays are exactly the model's rows for the
    /// stored weights at the stored depth.
    pub open spec fn wf(&self) -> bool {
        let x = self.weights();
        let bk = self.depth();
        let c = amp_factor(x, bk);
        let r = reject_mass(x, bk);
        &&& 1 <= mass(x)
        &&& mass(x) <= pow2(bk)
        &&& bk <= 63
        &&& x.len() < 0xffff_ffff
        &&& self.breadths_seq().len() == bk + 1
        &&& (forall|j: int|
            0 <= j <= bk ==> #[trigger] self.breadths_seq()[j] as int == row_at(
                x,
                c,
                r,
                (bk - j) as nat,
            ).len())
        &&& self.leaves_seq() == leaves_upto(x, c, r, bk, bk + 1 as int)
    }

    /// Assemble a sampler from its parts (the builder proves the parts match
    /// the model before calling).
    pub(crate) fn assemble(
        breadths: Vec<u32>,
        leaves_flat: Vec<u32>,
        wts: Ghost<Seq<u32>>,
        amp_depth: Ghost<nat>,
    ) -> (s: Sampler)
        ensures
            s.breadths_seq() == breadths@,
            s.leaves_seq() == leaves_flat@,
            s.weights() == wts@,
            s.depth() == amp_depth@,
    {
        Sampler { breadths, leaves_flat, wts, amp_depth }
    }

    /// The number of leaves at depth `j`.
    pub fn breadth_at(&self, j: usize) -> (b: u32)
        requires
            j < self.breadths_seq().len(),
        ensures
            b == self.breadths_seq()[j as int],
    {
        self.breadths[j]
    }

    /// The leaf entry at flat index `t`.
    pub fn leaf_at(&self, t: usize) -> (l: u32)
        requires
            t < self.leaves_seq().len(),
        ensures
            l == self.leaves_seq()[t as int],
    {
        self.leaves_flat[t]
    }

    /// Number of leaves held by the sampler.
    pub fn num_leaves(&self) -> (n: usize)
        ensures
            n == self.leaves_seq().len(),
    {
        self.leaves_flat.len()
    }

    /// Number of depth levels (the depth plus one).
    pub fn num_levels(&self) -> (n: usize)
        ensures
            n == self.breadths_seq().len(),
    {
        self.breadths.len()
    }

    /// Memory footprint in fixed-width words: one per breadth entry plus one
    /// per leaf.
    pub fn footprint_words(&self) -> (w: u64)
        requires
            self.wf(),
        ensures
            w == self.breadths_seq().len() + self.leaves_seq().len(),
    {
        proof {
            lemma_wf_leaves_bound(self);
        }
        (self.breadths.len() as u64) + (self.leaves_flat.len() as u64)
    }
}

/// Sum of the first `j` breadth entries: the offset of depth `j`'s row inside
/// the flattened leaves.
pub open spec fn breadth_total(b: Seq<u32>, j: int) -> int
    decreases j,
{
    if j <= 0 {
        0
    } else {
        breadth_total(b, j - 1) + b[j - 1]
    }
}

/// Under well-formedness, breadth offsets agree with the model's prefix
/// lengths.
pub proof fn lemma_breadth_offsets(s: &Sampler, j: int)
    requires
        s.wf(),
        0 <= j <= s.depth() + 1,
    ensures
        breadth_total(s.breadths_seq(), j) == leaves_upto(
            s.weights(),
            amp_factor(s.weights(), s.depth()),
            reject_mass(s.weights(), s.depth()),
            s.depth(),
            j,
        ).len(),
    decreases j,
{
    if j > 0 {
        lemma_breadth_offsets(s, j - 1);
    }
}

/// A well-formed sampler holds at most 64 leaves per value: one 64-bit word
/// of bits for the reject mass and one per weight.
pub proof fn lemma_wf_leaves_bound(s: &Sampler)
    requires
        s.wf(),
    ensures
        s.leaves_seq().len() <= 64 + 64 * s.weights().len(),
{
    let x = s.weights();
    let bk = s.depth();
    let c = amp_factor(x, bk);
    let r = reject_mass(x, bk);
    lemma_amp_bounds(x, bk);
    lemma_leaf_count_is_len(x, bk);
    lemma_pow2_strictly_increases(bk, 64);
    lemma2_to64_rest();
    lemma_popcnt_bound(r as nat, 64);
    lemma_pc_sum_bound(x, c, x.len() as int);
}

/// Each summand of `pc_sum` is a population count of a 64-bit value.
proof fn lemma_pc_sum_bound(x: Seq<u32>, c: int, i: int)
    requires
        0 <= i,
        forall|t: int| 0 <= t < i ==> 0 <= #[trigger] ampw(x, c, t) < pow2(64),
    ensures
        pc_sum(x, c, i) <= 64 * i,
    decreases i,
{
    if i > 0 {
        lemma_pc_sum_bound(x, c, i - 1);
        lemma_popcnt_bound(ampw(x, c, i - 1) as nat, 64);
        assert(pc_sum(x, c, i) == pc_sum(x, c, i - 1) + popcnt(ampw(x, c, i - 1) as nat));
        assert(popcnt(ampw(x, c, i - 1) as nat) <= 64);
        assert(64 * i == 64 * (i - 1) + 64);
    }
}

/// Law: the breadths sum to the number of leaves, and slicing the flattened
/// leaves at the running breadth offsets recovers exactly the per-depth rows:
/// the rows partition the leaves with no gap and no overlap.
pub proof fn lemma_leaf_breadth_partition(s: &Sampler)
    requires
        s.wf(),
    ensures
        breadth_total(s.breadths_seq(), s.breadths_seq().len() as int) == s.leaves_seq().len(),
        forall|j: int|
            0 <= j <= s.depth() ==> breadth_total(s.breadths_seq(), j) + s.breadths_seq()[j]
                <= s.leaves_seq().len(),
        forall|j: int|
            0 <= j <= s.depth() ==> #[trigger] s.leaves_seq().subrange(
                breadth_total(s.breadths_seq(), j),
                breadth_total(s.breadths_seq(), j) + s.breadths_seq()[j],
            ) == row_at(
                s.weights(),
                amp_factor(s.weights(), s.depth()),
                reject_mass(s.weights(), s.depth()),
                (s.depth() - j) as nat,
            ),
{
    let x = s.weights();
    let bk = s.depth();
    let c = amp_factor(x, bk);
    let r = reject_mass(x, bk);
    lemma_breadth_offsets(s, (bk + 1) as int);
    assert forall|j: int| 0 <= j <= bk implies breadth_total(s.breadths_seq(), j)
        + s.breadths_seq()[j] <= s.leaves_seq().len() by {
        lemma_breadth_offsets(s, j);
        lemma_breadth_offsets(s, j + 1);
        lemma_upto_prefix(x, c, r, bk, j + 1, bk + 1 as int);
    }
    assert forall|j: int| 0 <= j <= bk implies #[trigger] s.leaves_seq().subrange(
        breadth_total(s.breadths_seq(), j),
        breadth_total(s.breadths_seq(), j) + s.breadths_seq()[j],
    ) == row_at(x, c, r, (bk - j) as nat) by {
        lemma_breadth_offsets(s, j);
        lemma_breadth_offsets(s, j + 1);
        let off = leaves_upto(x, c, r, bk, j).len() as int;
        let row = row_at(x, c, r, (bk - j) as nat);
        lemma_upto_prefix(x, c, r, bk, j + 1, bk + 1 as int);
        assert forall|v: int| 0 <= v < row.len() implies s.leaves_seq()[off + v] == row[v] by {
            lemma_row_index(x, c, r, bk, j, v);
        }
        assert(s.leaves_seq().subrange(off, off + row.len() as int) =~= row);
    }
}

/// Law: when the total mass is an exact power of two, the reject mass is zero
/// and the sampler holds no reject leaf at all.
pub proof fn lemma_power_of_two_no_reject(s: &Sampler, e: nat)
    requires
        s.wf(),
        mass(s.weights()) == pow2(e),
    ensures
        reject_mass(s.weights(), s.depth()) == 0,
        forall|t: int|
            0 <= t < s.leaves_seq().len() ==> #[trigger] s.leaves_seq()[t] != 0,
{
    let x = s.weights();
    let bk = s.depth();
    let c = amp_factor(x, bk);
    let r = reject_mass(x, bk);
    assert(e <= bk) by {
        if e > bk {
            lemma_pow2_strictly_increases(bk, e);
        }
    }
    vstd::arithmetic::power2::lemma_pow2_adds((bk - e) as nat, e);
    lemma_pow2_pos(e);
    lemma_mod_multiples_basic(pow2((bk - e) as nat) as int, pow2(e) as int);
    assert(pow2(bk) as int == pow2((bk - e) as nat) as int * pow2(e) as int);
    assert(r == 0);
    assert forall|t: int| 0 <= t < s.leaves_seq().len() implies #[trigger] s.leaves_seq()[t]
        != 0 by {
        lemma_upto_no_sentinel(x, c, r, bk, bk + 1 as int, t);
    }
}

/// With a zero reject mass no row holds the sentinel.
proof fn lemma_upto_no_sentinel(x: Seq<u32>, c: int, r: int, bk: nat, j: int, t: int)
    requires
        r == 0,
        x.len() < 0xffff_ffff,
        0 <= t < leaves_upto(x, c, r, bk, j).len(),
    ensures
        leaves_upto(x, c, r, bk, j)[t] != 0,
    decreases j,
{
    let prev = leaves_upto(x, c, r, bk, j - 1);
    if t < prev.len() {
        lemma_upto_no_sentinel(x, c, r, bk, j - 1, t);
    } else {
        let q = (bk - (j - 1)) as nat;
        lemma_pow2_pos(q);
        assert(bit_of(0nat, q) == 0) by {
            vstd::arithmetic::div_mod::lemma_div_of0(pow2(q) as int);
        }
        lemma_row_elem(x, c, r, q, t - prev.len());
    }
}

/// Law: a single-outcome sampler whose weight is a power of two puts its one
/// outcome leaf at depth 0, so a walk returns it before drawing any bit.
pub proof fn lemma_single_outcome_immediate(s: &Sampler, e: nat)
    requires
        s.wf(),
        s.weights().len() == 1,
        mass(s.weights()) == pow2(e),
    ensures
        s.breadths_seq()[0] == 1,
        s.leaves_seq().len() > 0,
        s.leaves_seq()[0] == 1,
{
    let x = s.weights();
    let bk = s.depth();
    let c = amp_factor(x, bk);
    let r = reject_mass(x, bk);
    lemma_power_of_two_no_reject(s, e);
    lemma_amp_bounds(x, bk);
    assert(ampw(x, c, 0) == pow2(bk)) by {
        assert(x.drop_last() =~= Seq::<u32>::empty());
        assert(mass(Seq::<u32>::empty()) == 0);
        assert(x.last() == x[0]);
        assert(mass(x) == x[0]);
        assert(c * x[0] == c * mass(x));
    }
    assert(bit_of(pow2(bk), bk) == 1) by {
        lemma_pow2_pos(bk);
        lemma_div_by_self(pow2(bk) as int);
    }
    assert(row_outcomes(x, c, bk, 1) == row_outcomes(x, c, bk, 0) + seq![1u32]);
    assert(row_at(x, c, r, bk) =~= seq![1u32]);
    assert(s.breadths_seq()[0] as int == row_at(x, c, r, (bk - 0) as nat).len());
    lemma_row_index(x, c, r, bk, 0, 0);
    assert(leaves_upto(x, c, r, bk, 0).len() == 0);
}

} // verus!
