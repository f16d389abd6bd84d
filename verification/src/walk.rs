//! The sampling walk: one descent of the flattened tree, one random bit per
//! level, ending at a leaf that is either an outcome or the reject sentinel.

use vstd::prelude::*;
use vstd::arithmetic::power2::{
    pow2, lemma_pow2_pos, lemma_pow2_strictly_increases, lemma2_to64_rest,
};
use crate::bitmath::{bit_of, lemma_bit_set_lower_bound};
use crate::model::{
    mass, amp_factor, reject_mass, ampw, row_at, leaves_upto, nodes, lemma_nodes_facts,
    lemma_row_index, lemma_row_elem, lemma_upto_prefix, lemma_amp_bounds,
};
use crate::sampler::Sampler;
use crate::source::BitSource;
use crate::extractor::{FlipState, flip};

verus! {

/// One complete walk of the tree: starting at the root, either land on a leaf
/// of the current depth or consume one fresh bit and descend. Returns the
/// decoded outcome, or `None` when the walk ended on a reject leaf (which can
/// happen only when the reject mass is nonzero); the caller restarts.
///
/// When depth 0 already holds a leaf, the walk returns it without drawing a
/// single bit and leaves the extractor untouched.
pub fn sample_attempt<B: BitSource>(s: &Sampler, src: &mut B, st: &mut FlipState) -> (res: Option<
    u32,
>)
    requires
        s.wf(),
        old(st).inv(),
    ensures
        final(st).inv(),
        (res matches Some(i) ==> i < s.weights().len() && s.weights()[i as int] > 0
            && s.leaves_seq().contains((i + 1) as u32)),
        (res is None ==> reject_mass(s.weights(), s.depth()) != 0),
        s.breadths_seq()[0] as int > 0 ==> *final(st) == *old(st) && s.leaves_seq().len() > 0
            && res == (
        if s.leaves_seq()[0] == 0 {
            Option::<u32>::None
        } else {
            Option::Some((s.leaves_seq()[0] - 1) as u32)
        }),
{
    let ghost x = s.weights();
    let ghost bk = s.depth();
    let ghost c = amp_factor(x, bk);
    let ghost r = reject_mass(x, bk);
    let mut depth: usize = 0;
    let mut location: usize = 0;
    let mut val: u64 = 0;
    let nl: usize = s.num_leaves();
    loop
        invariant
            s.wf(),
            st.inv(),
            nl == s.leaves_seq().len(),
            x == s.weights(),
            bk == s.depth(),
            c == amp_factor(x, bk),
            r == reject_mass(x, bk),
            depth <= bk,
            location == leaves_upto(x, c, r, bk, depth as int).len(),
            (val as int) < nodes(x, c, r, bk, depth as int),
            depth == 0 ==> *st == *old(st),
            depth > 0 ==> s.breadths_seq()[0] == 0,
        decreases bk - depth,
    {
        proof {
            lemma_nodes_facts(x, bk, depth as int);
        }
        let b: u32 = s.breadth_at(depth);
        if val < (b as u64) {
            proof {
                lemma_row_index(x, c, r, bk, depth as int, val as int);
                lemma_row_elem(x, c, r, (bk - depth) as nat, val as int);
                lemma_amp_bounds(x, bk);
            }
            let leaf = s.leaf_at(location + (val as usize));
            let ghost q = (bk - depth) as nat;
            if leaf == 0 {
                proof {
                    lemma_bit_set_lower_bound(r as nat, q);
                    lemma_pow2_pos(q);
                }
                return None;
            } else {
                proof {
                    let t = leaf as int - 1;
                    assert(bit_of(ampw(x, c, t) as nat, q) == 1);
                    lemma_bit_set_lower_bound(ampw(x, c, t) as nat, q);
                    lemma_pow2_pos(q);
                    assert(ampw(x, c, t) >= 1);
                    if x[t] == 0 {
                        assert(ampw(x, c, t) == c * 0);
                        assert(c * 0 == 0) by (nonlinear_arith);
                    }
                    assert(s.leaves_seq().contains(leaf)) by {
                        assert(s.leaves_seq()[location + val as int] == leaf);
                    }
                }
                return Some(leaf - 1);
            }
        }
        // No leaf at this depth for the accumulated value: descend one level,
        // consuming one fresh bit.
        proof {
            if depth == bk {
                // At the deepest level every node is a leaf, so the walk
                // cannot fall through.
                assert(s.breadths_seq()[depth as int] as int == row_at(x, c, r, 0).len());
                assert(false);
            }
            lemma_nodes_facts(x, bk, depth + 1 as int);
            lemma_pow2_strictly_increases((depth + 1) as nat, 64);
            lemma2_to64_rest();
            lemma_upto_prefix(x, c, r, bk, depth + 1 as int, bk + 1 as int);
            assert(leaves_upto(x, c, r, bk, depth + 1 as int) == leaves_upto(
                x,
                c,
                r,
                bk,
                depth as int,
            ) + row_at(x, c, r, (bk - depth) as nat));
            assert(s.breadths_seq()[depth as int] as int == row_at(
                x,
                c,
                r,
                (bk - depth) as nat,
            ).len());
        }
        location = location + (b as usize);
        let bit = flip(src, st);
        val = (val - (b as u64)) * 2 + (bit as u64);
        depth = depth + 1;
    }
}

} // verus!
