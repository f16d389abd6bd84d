//! Mathematical model of the flattened sampling tree.
//!
//! A weight vector `x` with positive total mass `m` and a chosen depth `bk`
//! determine an amplification factor `c = pow2(bk) / m` and a reject mass
//! `r = pow2(bk) % m`. Depth level `d` of the tree holds one leaf for the bit
//! at position `bk - d` of `r` (the reject sentinel, encoded 0) followed by one
//! leaf per outcome `i` whose amplified weight `c * x[i]` has that bit set
//! (encoded `i + 1`). The model gives the rows, their flattened concatenation,
//! and the node counts per depth, together with the counting lemmas the
//! builder and the walk are proved against.

use vstd::prelude::*;
use vstd::arithmetic::power2::*;
use vstd::arithmetic::div_mod::*;
use vstd::arithmetic::mul::*;
use crate::bitmath::{
    bit_of, popcnt, popcnt_from, lemma_popcnt_from_step, lemma_popcnt_from_zero,
    lemma_popcnt_from_base, lemma_bit_decompose,
};

verus! {

/// Total mass: the sum of all weights.
pub open spec fn mass(x: Seq<u32>) -> int
    decreases x.len(),
{
    if x.len() == 0 {
        0
    } else {
        mass(x.drop_last()) + x.last()
    }
}

/// Amplification factor for depth `bk`.
pub open spec fn amp_factor(x: Seq<u32>, bk: nat) -> int {
    pow2(bk) as int / mass(x)
}

/// Reject mass for depth `bk`.
pub open spec fn reject_mass(x: Seq<u32>, bk: nat) -> int {
    pow2(bk) as int % mass(x)
}

/// Amplified weight of outcome `i`.
pub open spec fn ampw(x: Seq<u32>, c: int, i: int) -> int {
    c * x[i]
}

/// Leaf entries at bit position `q` for outcomes of index below `i`, in index
/// order; outcome `i - 1` is encoded as `i`.
pub open spec fn row_outcomes(x: Seq<u32>, c: int, q: nat, i: int) -> Seq<u32>
    decreases i,
{
    if i <= 0 {
        Seq::empty()
    } else {
        row_outcomes(x, c, q, i - 1) + (if bit_of(ampw(x, c, i - 1) as nat, q) == 1 {
            seq![i as u32]
        } else {
            Seq::empty()
        })
    }
}

/// The full leaf row at bit position `q`: a reject sentinel when bit `q` of
/// the reject mass is set, then the outcome entries.
pub open spec fn row_at(x: Seq<u32>, c: int, r: int, q: nat) -> Seq<u32> {
    (if bit_of(r as nat, q) == 1 {
        seq![0u32]
    } else {
        Seq::empty()
    }) + row_outcomes(x, c, q, x.len() as int)
}

/// The flattened leaves of the first `j` depth levels (depth `d` reads bit
/// position `bk - d`).
pub open spec fn leaves_upto(x: Seq<u32>, c: int, r: int, bk: nat, j: int) -> Seq<u32>
    decreases j,
{
    if j <= 0 {
        Seq::empty()
    } else {
        leaves_upto(x, c, r, bk, j - 1) + row_at(x, c, r, (bk - (j - 1)) as nat)
    }
}

/// Sum over outcomes of index below `i` of `popcnt(c * x[i'])`.
pub open spec fn pc_sum(x: Seq<u32>, c: int, i: int) -> int
    decreases i,
{
    if i <= 0 {
        0
    } else {
        pc_sum(x, c, i - 1) + popcnt(ampw(x, c, i - 1) as nat)
    }
}

/// Sum over outcomes of index below `i` of `popcnt_from(c * x[i'], q)`.
pub open spec fn pc_from_sum(x: Seq<u32>, c: int, q: nat, i: int) -> int
    decreases i,
{
    if i <= 0 {
        0
    } else {
        pc_from_sum(x, c, q, i - 1) + popcnt_from(ampw(x, c, i - 1) as nat, q)
    }
}

/// Total number of leaves of the sampler for weights `x` at depth `bk`.
pub open spec fn leaf_count(x: Seq<u32>, bk: nat) -> int {
    popcnt(reject_mass(x, bk) as nat) + pc_sum(x, amp_factor(x, bk), x.len() as int)
}

/// Sum over outcomes of index below `i` of `(c * x[i']) % pow2(q)`.
pub open spec fn low_mass(x: Seq<u32>, c: int, q: nat, i: int) -> int
    decreases i,
{
    if i <= 0 {
        0
    } else {
        low_mass(x, c, q, i - 1) + (ampw(x, c, i - 1) as nat % pow2(q))
    }
}

/// Number of tree nodes at depth `j`: the root alone at depth 0; each level
/// doubles what its leaves leave over.
pub open spec fn nodes(x: Seq<u32>, c: int, r: int, bk: nat, j: int) -> int
    decreases j,
{
    if j <= 0 {
        1
    } else {
        2 * (nodes(x, c, r, bk, j - 1) - row_at(x, c, r, (bk - (j - 1)) as nat).len())
    }
}

/// Probability mass (in units of `1 / pow2(bk)`) of the leaf rows at bit
/// positions below `q`.
pub open spec fn tree_mass(x: Seq<u32>, c: int, r: int, q: nat) -> int
    decreases q,
{
    if q == 0 {
        0
    } else {
        tree_mass(x, c, r, (q - 1) as nat) + row_at(x, c, r, (q - 1) as nat).len() * pow2(
            (q - 1) as nat,
        )
    }
}

proof fn lemma_eq3(t1: nat, t2: int, t3: int, s: nat, u: nat)
    requires
        t1 == t2,
        t2 == t3,
        s == u + t1,
    ensures
        s == u + t3,
{
}

proof fn lemma_chain_tm(
    tq: int,
    tq1: int,
    rmq: nat,
    rmq1: nat,
    lmq: int,
    lmq1: int,
    blp: int,
    bfp: int,
    olp: int,
)
    requires
        tq == tq1 + blp,
        tq1 == rmq1 + lmq1,
        rmq == rmq1 + bfp,
        lmq == lmq1 + olp,
        blp == bfp + olp,
    ensures
        tq == rmq + lmq,
{
}

proof fn lemma_chain5(lq1i: int, lq1i1: int, lqi: int, lqi1: int, m1: nat, m0: nat, bp: int, ap: int, bap: int)
    requires
        lq1i == lq1i1 + m1,
        lq1i1 == lqi1 + ap,
        m1 == m0 + bap,
        lqi == lqi1 + m0,
        bp == ap + bap,
    ensures
        lq1i == lqi + bp,
{
}

pub proof fn lemma_mass_nonneg(x: Seq<u32>)
    ensures
        mass(x) >= 0,
    decreases x.len(),
{
    if x.len() > 0 {
        lemma_mass_nonneg(x.drop_last());
    }
}

/// Extending a prefix by one element adds that element's weight to its mass.
pub proof fn lemma_mass_take_succ(x: Seq<u32>, i: int)
    requires
        0 <= i < x.len(),
    ensures
        mass(x.take(i + 1)) == mass(x.take(i)) + x[i],
{
    assert(x.take(i + 1).drop_last() =~= x.take(i));
    assert(x.take(i + 1).last() == x[i]);
}

/// A prefix never has more mass than the whole.
pub proof fn lemma_mass_take_le(x: Seq<u32>, i: int)
    requires
        0 <= i <= x.len(),
    ensures
        mass(x.take(i)) <= mass(x),
    decreases x.len() - i,
{
    if i == x.len() {
        assert(x.take(i) =~= x);
    } else {
        lemma_mass_take_succ(x, i);
        lemma_mass_take_le(x, i + 1);
    }
}

/// Each single weight is at most the total mass.
pub proof fn lemma_elem_le_mass(x: Seq<u32>, i: int)
    requires
        0 <= i < x.len(),
    ensures
        x[i] <= mass(x),
{
    lemma_mass_take_succ(x, i);
    lemma_mass_take_le(x, i + 1);
    lemma_mass_nonneg(x.take(i));
}

/// The basic facts about the amplification factor and the reject mass.
pub proof fn lemma_amp_bounds(x: Seq<u32>, bk: nat)
    requires
        1 <= mass(x),
        mass(x) <= pow2(bk),
    ensures
        ({
            let c = amp_factor(x, bk);
            let r = reject_mass(x, bk);
            &&& 1 <= c
            &&& 0 <= r < mass(x)
            &&& c * mass(x) + r == pow2(bk)
            &&& forall|t: int|
                0 <= t < x.len() ==> 0 <= #[trigger] ampw(x, c, t) <= pow2(bk)
        }),
{
    let m = mass(x);
    let c = amp_factor(x, bk);
    let r = reject_mass(x, bk);
    lemma_pow2_pos(bk);
    lemma_fundamental_div_mod(pow2(bk) as int, m);
    lemma_mod_division_less_than_divisor(pow2(bk) as int, m);
    assert(m * c + r == pow2(bk));
    lemma_mul_is_commutative(m, c);
    assert(c >= 1) by {
        if c <= 0 {
            assert(c * m <= 0) by (nonlinear_arith)
                requires
                    c <= 0,
                    m >= 1,
            ;
            assert(c * m + r < pow2(bk));
        }
    }
    assert forall|t: int| 0 <= t < x.len() implies 0 <= #[trigger] ampw(x, c, t) <= pow2(bk) by {
        lemma_elem_le_mass(x, t);
        lemma_mul_nonnegative(c, x[t] as int);
        lemma_mul_left_inequality(c, x[t] as int, m);
        assert(c * m <= pow2(bk));
    }
}

/// Stepping `pc_from_sum` down one bit position adds that position's row.
pub proof fn lemma_pc_from_sum_step(x: Seq<u32>, c: int, q: nat, i: int)
    ensures
        pc_from_sum(x, c, q, i) == pc_from_sum(x, c, (q + 1) as nat, i) + row_outcomes(
            x,
            c,
            q,
            i,
        ).len(),
    decreases i,
{
    if i > 0 {
        lemma_pc_from_sum_step(x, c, q, i - 1);
        lemma_popcnt_from_step(ampw(x, c, i - 1) as nat, q);
    }
}

/// No outcome has bits at or above `q` when all amplified weights lie below
/// `pow2(q)`.
pub proof fn lemma_pc_from_sum_zero(x: Seq<u32>, c: int, q: nat, i: int)
    requires
        forall|t: int| 0 <= t < i ==> #[trigger] ampw(x, c, t) < pow2(q),
        forall|t: int| 0 <= t < i ==> #[trigger] ampw(x, c, t) >= 0,
    ensures
        pc_from_sum(x, c, q, i) == 0,
    decreases i,
{
    if i > 0 {
        lemma_pc_from_sum_zero(x, c, q, i - 1);
        lemma_popcnt_from_zero(ampw(x, c, i - 1) as nat, q);
    }
}

/// At bit position 0 the high-bit sums count every bit.
pub proof fn lemma_pc_from_sum_base(x: Seq<u32>, c: int, i: int)
    ensures
        pc_from_sum(x, c, 0, i) == pc_sum(x, c, i),
    decreases i,
{
    if i > 0 {
        lemma_pc_from_sum_base(x, c, i - 1);
        lemma_popcnt_from_base(ampw(x, c, i - 1) as nat);
    }
}

/// Length of the flattened prefix of rows, as a sum of high-bit counts.
pub proof fn lemma_leaves_upto_len(x: Seq<u32>, c: int, r: int, bk: nat, j: int)
    requires
        0 <= j <= bk + 1,
        0 <= r < pow2((bk + 1) as nat),
        forall|t: int| 0 <= t < x.len() ==> 0 <= #[trigger] ampw(x, c, t) < pow2((bk + 1) as nat),
    ensures
        leaves_upto(x, c, r, bk, j).len() == popcnt_from(r as nat, (bk + 1 - j) as nat)
            + pc_from_sum(x, c, (bk + 1 - j) as nat, x.len() as int),
    decreases j,
{
    if j == 0 {
        lemma_popcnt_from_zero(r as nat, (bk + 1) as nat);
        lemma_pc_from_sum_zero(x, c, (bk + 1) as nat, x.len() as int);
    } else {
        lemma_leaves_upto_len(x, c, r, bk, j - 1);
        let q = (bk + 1 - j) as nat;
        lemma_popcnt_from_step(r as nat, q);
        lemma_pc_from_sum_step(x, c, q, x.len() as int);
    }
}

/// The pre-counted allocation size equals the length of the flattened tree.
pub proof fn lemma_leaf_count_is_len(x: Seq<u32>, bk: nat)
    requires
        1 <= mass(x),
        mass(x) <= pow2(bk),
    ensures
        leaves_upto(x, amp_factor(x, bk), reject_mass(x, bk), bk, bk + 1 as int).len()
            == leaf_count(x, bk),
{
    let c = amp_factor(x, bk);
    let r = reject_mass(x, bk);
    lemma_amp_bounds(x, bk);
    lemma_pow2_strictly_increases(bk, (bk + 1) as nat);
    lemma_leaves_upto_len(x, c, r, bk, bk + 1 as int);
    lemma_popcnt_from_base(r as nat);
    lemma_pc_from_sum_base(x, c, x.len() as int);
}

/// A low-bit mass of zero at position 0.
pub proof fn lemma_low_mass_base(x: Seq<u32>, c: int, i: int)
    ensures
        low_mass(x, c, 0, i) == 0,
    decreases i,
{
    lemma2_to64();
    if i > 0 {
        lemma_low_mass_base(x, c, i - 1);
    }
}

/// Stepping the low-bit mass up one position adds that position's row mass.
#[verifier::rlimit(50)]
pub proof fn lemma_low_mass_step(x: Seq<u32>, c: int, q: nat, i: int)
    requires
        forall|t: int| 0 <= t < i ==> #[trigger] ampw(x, c, t) >= 0,
    ensures
        low_mass(x, c, (q + 1) as nat, i) == low_mass(x, c, q, i) + row_outcomes(x, c, q, i).len()
            * pow2(q),
    decreases i,
{
    if i <= 0 {
    } else {
        lemma_low_mass_step(x, c, q, i - 1);
        let v = ampw(x, c, i - 1) as nat;
        lemma_bit_decompose(v, q);
        let a = row_outcomes(x, c, q, i - 1).len() as int;
        let b = row_outcomes(x, c, q, i).len() as int;
        let p = pow2(q) as int;
        assert(b == a + (if bit_of(v, q) == 1 {
            1int
        } else {
            0int
        }));
        assert(bit_of(v, q) as int == b - a);
        assert(b * p == a * p + (b - a) * p) by (nonlinear_arith)
            requires
                b == a + (b - a),
        ;
        assert(bit_of(v, q) as int * p == (b - a) * p);
        assert(low_mass(x, c, (q + 1) as nat, i) == low_mass(x, c, (q + 1) as nat, i - 1) + (v
            % pow2(q + 1)));
        assert(low_mass(x, c, q, i) == low_mass(x, c, q, i - 1) + (v % pow2(q)));
        assert(b * p == row_outcomes(x, c, q, i).len() * pow2(q));
        assert(a * p == row_outcomes(x, c, q, i - 1).len() * pow2(q));
        assert(low_mass(x, c, (q + 1) as nat, i - 1) == low_mass(x, c, q, i - 1) + a * p);
        assert(bit_of(v, q) * pow2(q) == bit_of(v, q) as int * p);
        lemma_eq3(
            bit_of(v, q) * pow2(q),
            bit_of(v, q) as int * p,
            (b - a) * p,
            v % pow2(q + 1),
            v % pow2(q),
        );
        lemma_chain5(
            low_mass(x, c, (q + 1) as nat, i),
            low_mass(x, c, (q + 1) as nat, i - 1),
            low_mass(x, c, q, i),
            low_mass(x, c, q, i - 1),
            v % pow2(q + 1),
            v % pow2(q),
            b * p,
            a * p,
            (b - a) * p,
        );
        assert(low_mass(x, c, (q + 1) as nat, i) == low_mass(x, c, q, i) + b * p);
    }
}

/// When all values fit below `pow2(q)`, the low-bit mass is the amplified
/// total mass.
pub proof fn lemma_low_mass_full(x: Seq<u32>, c: int, q: nat, i: int)
    requires
        c >= 0,
        0 <= i <= x.len(),
        forall|t: int| 0 <= t < i ==> #[trigger] ampw(x, c, t) < pow2(q),
        forall|t: int| 0 <= t < i ==> #[trigger] ampw(x, c, t) >= 0,
    ensures
        low_mass(x, c, q, i) == c * mass(x.take(i)),
    decreases i,
{
    if i == 0 {
        assert(x.take(0) =~= Seq::<u32>::empty());
    } else {
        lemma_low_mass_full(x, c, q, i - 1);
        lemma_small_mod(ampw(x, c, i - 1) as nat, pow2(q));
        lemma_mass_take_succ(x, i - 1);
        lemma_mul_is_distributive_add(c, mass(x.take(i - 1)), x[i - 1] as int);
    }
}

/// The tree mass below position `q` is the low-bit mass of the reject weight
/// and of every amplified weight.
pub proof fn lemma_tree_mass_eq(x: Seq<u32>, c: int, r: int, q: nat)
    requires
        r >= 0,
        forall|t: int| 0 <= t < x.len() ==> #[trigger] ampw(x, c, t) >= 0,
    ensures
        tree_mass(x, c, r, q) == (r as nat) % pow2(q) + low_mass(x, c, q, x.len() as int),
    decreases q,
{
    let rv = r as nat;
    let n = x.len() as int;
    if q == 0 {
        lemma2_to64();
        lemma_low_mass_base(x, c, n);
        lemma_mod_multiples_basic(rv as int, 1);
        assert(rv as int * 1 == rv as int);
        assert(rv % pow2(0) == 0);
    } else {
        let q1 = (q - 1) as nat;
        lemma_tree_mass_eq(x, c, r, q1);
        lemma_bit_decompose(rv, q1);
        lemma_low_mass_step(x, c, q1, n);
        let bf: int = if bit_of(rv, q1) == 1 {
            1int
        } else {
            0int
        };
        let ol = row_outcomes(x, c, q1, n).len() as int;
        let bl = row_at(x, c, r, q1).len() as int;
        let p = pow2(q1) as int;
        assert(bl == bf + ol);
        assert(bl * p == bf * p + ol * p) by (nonlinear_arith)
            requires
                bl == bf + ol,
        ;
        assert(bit_of(rv, q1) as int == bf);
        assert(bit_of(rv, q1) as int * p == bf * p);
        lemma_eq3(bit_of(rv, q1) * pow2(q1), bit_of(rv, q1) as int * p, bf * p, rv % pow2(q), rv
            % pow2(q1));
        assert(row_outcomes(x, c, q1, n).len() * pow2(q1) == ol * p);
        assert(row_at(x, c, r, q1).len() * pow2(q1) == bl * p);
        lemma_chain_tm(
            tree_mass(x, c, r, q),
            tree_mass(x, c, r, q1),
            rv % pow2(q),
            rv % pow2(q1),
            low_mass(x, c, q, n),
            low_mass(x, c, q1, n),
            bl * p,
            bf * p,
            ol * p,
        );
    }
}

/// The whole tree carries mass exactly `pow2(bk)`: every level's leaves,
/// weighted by their subtree sizes, partition the amplified sample space.
pub proof fn lemma_tree_mass_total(x: Seq<u32>, bk: nat)
    requires
        1 <= mass(x),
        mass(x) <= pow2(bk),
    ensures
        tree_mass(x, amp_factor(x, bk), reject_mass(x, bk), (bk + 1) as nat) == pow2(bk),
{
    let c = amp_factor(x, bk);
    let r = reject_mass(x, bk);
    lemma_amp_bounds(x, bk);
    lemma_pow2_strictly_increases(bk, (bk + 1) as nat);
    lemma_tree_mass_eq(x, c, r, (bk + 1) as nat);
    lemma_small_mod(r as nat, pow2((bk + 1) as nat));
    lemma_low_mass_full(x, c, (bk + 1) as nat, x.len() as int);
    assert(x.take(x.len() as int) =~= x);
}

/// The tree mass grows with the position and never goes negative.
pub proof fn lemma_tree_mass_mono(x: Seq<u32>, c: int, r: int, q1: nat, q2: nat)
    requires
        q1 <= q2,
    ensures
        0 <= tree_mass(x, c, r, q1) <= tree_mass(x, c, r, q2),
    decreases q2,
{
    if q2 > 0 {
        let q3 = (q2 - 1) as nat;
        lemma_tree_mass_mono(x, c, r, if q1 <= q3 { q1 } else { q3 }, q3);
        lemma_pow2_pos(q3);
        lemma_mul_nonnegative(row_at(x, c, r, q3).len() as int, pow2(q3) as int);
    }
}

/// Node counts against tree mass: at depth `j` the remaining subtrees carry
/// exactly the mass of the rows below bit position `bk + 1 - j`.
pub proof fn lemma_nodes_mass(x: Seq<u32>, bk: nat, j: int)
    requires
        1 <= mass(x),
        mass(x) <= pow2(bk),
        0 <= j <= bk,
    ensures
        nodes(x, amp_factor(x, bk), reject_mass(x, bk), bk, j) * pow2((bk - j) as nat) == tree_mass(
            x,
            amp_factor(x, bk),
            reject_mass(x, bk),
            (bk + 1 - j) as nat,
        ),
    decreases j,
{
    let c = amp_factor(x, bk);
    let r = reject_mass(x, bk);
    if j == 0 {
        lemma_tree_mass_total(x, bk);
    } else {
        lemma_nodes_mass(x, bk, j - 1);
        let b = row_at(x, c, r, (bk - (j - 1)) as nat).len() as int;
        let n1 = nodes(x, c, r, bk, j - 1);
        let p = pow2((bk - j) as nat) as int;
        lemma_pow2_adds((bk - j) as nat, 1);
        lemma2_to64();
        assert(pow2((bk + 1 - j) as nat) == p * 2);
        assert(nodes(x, c, r, bk, j) * p == 2 * (n1 - b) * p);
        assert(2 * (n1 - b) * p == (n1 - b) * (p * 2)) by (nonlinear_arith);
        lemma_mul_is_distributive_sub_other_way(p * 2, n1, b);
        assert((n1 - b) * (p * 2) == n1 * (p * 2) - b * (p * 2));
        assert(n1 * pow2((bk - (j - 1)) as nat) == tree_mass(x, c, r, (bk + 1 - (j - 1)) as nat));
        assert(tree_mass(x, c, r, (bk + 2 - j) as nat) == tree_mass(x, c, r, (bk + 1 - j) as nat)
            + b * pow2((bk + 1 - j) as nat));
    }
}

/// Each level's leaf row fits in that level's node count, the node count is
/// bounded by `pow2(j)`, and the deepest level is all leaves.
pub proof fn lemma_nodes_facts(x: Seq<u32>, bk: nat, j: int)
    requires
        1 <= mass(x),
        mass(x) <= pow2(bk),
        0 <= j <= bk,
    ensures
        ({
            let c = amp_factor(x, bk);
            let r = reject_mass(x, bk);
            &&& 0 <= nodes(x, c, r, bk, j) <= pow2(j as nat)
            &&& row_at(x, c, r, (bk - j) as nat).len() <= nodes(x, c, r, bk, j)
            &&& (j == bk ==> nodes(x, c, r, bk, j) == row_at(x, c, r, 0).len())
        }),
{
    let c = amp_factor(x, bk);
    let r = reject_mass(x, bk);
    let nd = nodes(x, c, r, bk, j);
    let b = row_at(x, c, r, (bk - j) as nat).len() as int;
    let p = pow2((bk - j) as nat) as int;
    lemma_nodes_mass(x, bk, j);
    lemma_pow2_pos((bk - j) as nat);
    assert(tree_mass(x, c, r, (bk + 1 - j) as nat) == tree_mass(x, c, r, (bk - j) as nat) + b * p);
    lemma_tree_mass_mono(x, c, r, 0, (bk - j) as nat);
    lemma_mul_nonnegative(b, p);
    assert(nd * p >= b * p);
    assert(b <= nd) by (nonlinear_arith)
        requires
            nd * p >= b * p,
            p > 0,
    ;
    assert(nd * p >= 0);
    assert(nd >= 0) by (nonlinear_arith)
        requires
            nd * p >= 0,
            p > 0,
    ;
    lemma_tree_mass_mono(x, c, r, (bk + 1 - j) as nat, (bk + 1) as nat);
    lemma_tree_mass_total(x, bk);
    lemma_pow2_adds(j as nat, (bk - j) as nat);
    assert(nd * p <= pow2(bk));
    assert(pow2(bk) == pow2(j as nat) * p);
    assert(nd <= pow2(j as nat)) by (nonlinear_arith)
        requires
            nd * p <= pow2(j as nat) * p,
            p > 0,
    ;
    if j == bk {
        assert(p == 1) by {
            lemma2_to64();
        }
        assert((bk - j) as nat == 0);
        assert(tree_mass(x, c, r, 1) == tree_mass(x, c, r, 0) + row_at(x, c, r, 0).len() * pow2(
            0,
        ));
        assert(row_at(x, c, r, 0).len() * pow2(0) == b * p);
        assert(nd * p == nd) by (nonlinear_arith)
            requires
                p == 1,
        ;
        assert(nd == 0 + b * 1);
    }
}

/// A shorter row prefix is a prefix of a longer one.
pub proof fn lemma_row_outcomes_prefix(x: Seq<u32>, c: int, q: nat, i1: int, i2: int)
    requires
        0 <= i1 <= i2,
    ensures
        row_outcomes(x, c, q, i1).len() <= row_outcomes(x, c, q, i2).len(),
        row_outcomes(x, c, q, i2).take(row_outcomes(x, c, q, i1).len() as int) == row_outcomes(
            x,
            c,
            q,
            i1,
        ),
    decreases i2 - i1,
{
    if i1 == i2 {
        assert(row_outcomes(x, c, q, i2).take(row_outcomes(x, c, q, i1).len() as int)
            =~= row_outcomes(x, c, q, i1));
    } else {
        lemma_row_outcomes_prefix(x, c, q, i1, i2 - 1);
        assert(row_outcomes(x, c, q, i2).take(row_outcomes(x, c, q, i1).len() as int)
            =~= row_outcomes(x, c, q, i2 - 1).take(row_outcomes(x, c, q, i1).len() as int));
    }
}

/// An outcome row over the first `i` outcomes has at most `i` entries.
pub proof fn lemma_row_outcomes_len_le(x: Seq<u32>, c: int, q: nat, i: int)
    requires
        0 <= i,
    ensures
        row_outcomes(x, c, q, i).len() <= i,
    decreases i,
{
    if i > 0 {
        lemma_row_outcomes_len_le(x, c, q, i - 1);
    }
}

/// A shorter flattened prefix is a prefix of a longer one.
pub proof fn lemma_upto_prefix(x: Seq<u32>, c: int, r: int, bk: nat, j1: int, j2: int)
    requires
        0 <= j1 <= j2,
    ensures
        leaves_upto(x, c, r, bk, j1).len() <= leaves_upto(x, c, r, bk, j2).len(),
        leaves_upto(x, c, r, bk, j2).take(leaves_upto(x, c, r, bk, j1).len() as int) == leaves_upto(
            x,
            c,
            r,
            bk,
            j1,
        ),
    decreases j2 - j1,
{
    if j1 == j2 {
        assert(leaves_upto(x, c, r, bk, j2).take(leaves_upto(x, c, r, bk, j1).len() as int)
            =~= leaves_upto(x, c, r, bk, j1));
    } else {
        lemma_upto_prefix(x, c, r, bk, j1, j2 - 1);
        assert(leaves_upto(x, c, r, bk, j2).take(leaves_upto(x, c, r, bk, j1).len() as int)
            =~= leaves_upto(x, c, r, bk, j2 - 1).take(leaves_upto(x, c, r, bk, j1).len() as int));
    }
}

/// Indexing the flattened tree inside the row of depth `j`.
pub proof fn lemma_row_index(x: Seq<u32>, c: int, r: int, bk: nat, j: int, v: int)
    requires
        0 <= j <= bk,
        0 <= v < row_at(x, c, r, (bk - j) as nat).len(),
    ensures
        ({
            let full = leaves_upto(x, c, r, bk, bk + 1 as int);
            let off = leaves_upto(x, c, r, bk, j).len();
            &&& off + v < full.len()
            &&& full[off + v as int] == row_at(x, c, r, (bk - j) as nat)[v]
        }),
{
    let full = leaves_upto(x, c, r, bk, bk + 1 as int);
    let off = leaves_upto(x, c, r, bk, j).len();
    lemma_upto_prefix(x, c, r, bk, j + 1, bk + 1 as int);
    assert(leaves_upto(x, c, r, bk, j + 1) == leaves_upto(x, c, r, bk, j) + row_at(
        x,
        c,
        r,
        (bk - j) as nat,
    ));
    assert(full.take(leaves_upto(x, c, r, bk, j + 1).len() as int)[off + v] == row_at(
        x,
        c,
        r,
        (bk - j) as nat,
    )[v]);
}

/// Every entry of an outcome row names an outcome of index below `i`, with the
/// matching bit of its amplified weight set.
pub proof fn lemma_row_outcomes_elem(x: Seq<u32>, c: int, q: nat, i: int, t: int)
    requires
        0 <= t < row_outcomes(x, c, q, i).len(),
        i <= x.len(),
        i < 0x1_0000_0000,
    ensures
        ({
            let e = row_outcomes(x, c, q, i)[t];
            &&& 1 <= e <= i
            &&& bit_of(ampw(x, c, e as int - 1) as nat, q) == 1
        }),
    decreases i,
{
    if i > 0 {
        if t < row_outcomes(x, c, q, i - 1).len() {
            lemma_row_outcomes_elem(x, c, q, i - 1, t);
        } else {
            assert(bit_of(ampw(x, c, i - 1) as nat, q) == 1);
            assert(row_outcomes(x, c, q, i)[t] == (i as u32));
        }
    }
}

/// Every entry of a full row is either the reject sentinel (only when bit `q`
/// of the reject mass is set) or an encoded outcome whose amplified weight has
/// bit `q` set.
pub proof fn lemma_row_elem(x: Seq<u32>, c: int, r: int, q: nat, v: int)
    requires
        0 <= v < row_at(x, c, r, q).len(),
        x.len() < 0x1_0000_0000,
    ensures
        ({
            let e = row_at(x, c, r, q)[v];
            &&& e as int <= x.len()
            &&& (e == 0 ==> bit_of(r as nat, q) == 1)
            &&& (e != 0 ==> bit_of(ampw(x, c, e as int - 1) as nat, q) == 1)
        }),
{
    if bit_of(r as nat, q) == 1 {
        if v > 0 {
            lemma_row_outcomes_elem(x, c, q, x.len() as int, v - 1);
        }
    } else {
        lemma_row_outcomes_elem(x, c, q, x.len() as int, v);
    }
}

} // verus!
