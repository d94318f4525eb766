//! The deterministic accumulator behind the account tree.
//!
//! Every hash here is a pure function of its inputs: the Merkle root of a
//! sequence of leaf hashes is a spec-level function, and the executable
//! code is proved to compute exactly that function. That is what makes
//! replay deterministic.

use vstd::prelude::*;

verus! {

/// Depth of the sparse Merkle tree of accounts; the tree holds up to
/// `2^TREE_DEPTH` leaves.
pub const TREE_DEPTH: u64 = 24;

/// Hash of a leaf slot that holds no account.
pub const EMPTY_LEAF_HASH: u64 = 0x6b79_7a5b_21cd_8a13;

/// Odd multipliers of the mixing step; both fit in 32 bits so the mixed
/// sum fits in a `u128` without wrapping.
pub const MIX_A: u64 = 0x9e37_79b9;
pub const MIX_B: u64 = 0x85eb_ca6b;
pub const MIX_C: u64 = 0xc2b2_ae35;

/// The two-to-one compression step: a linear mix of both children,
/// reduced modulo `2^64`.
pub open spec fn mix(a: u64, b: u64) -> u64 {
    (((a as int) * (MIX_A as int) + (b as int) * (MIX_B as int) + (MIX_C as int))
        % 0x1_0000_0000_0000_0000) as u64
}

/// Computes `mix` exactly.
pub fn mix_exec(a: u64, b: u64) -> (r: u64)
    ensures
        r == mix(a, b),
{
    proof {
        assert((a as int) * (MIX_A as int) <= 0xffff_ffff_ffff_ffff * 0x9e37_79b9)
            by (nonlinear_arith)
            requires a <= 0xffff_ffff_ffff_ffffu64,
        ;
        assert((b as int) * (MIX_B as int) <= 0xffff_ffff_ffff_ffff * 0x85eb_ca6b)
            by (nonlinear_arith)
            requires b <= 0xffff_ffff_ffff_ffffu64,
        ;
        assert((a as int) * (MIX_A as int) >= 0) by (nonlinear_arith)
            requires a >= 0,
        ;
        assert((b as int) * (MIX_B as int) >= 0) by (nonlinear_arith)
            requires b >= 0,
        ;
    }
    let t: u128 = (a as u128) * (MIX_A as u128) + (b as u128) * (MIX_B as u128) + (MIX_C as u128);
    (t % 0x1_0000_0000_0000_0000u128) as u64
}

/// `2^e`.
pub open spec fn pow2(e: nat) -> nat
    decreases e,
{
    if e == 0 {
        1
    } else {
        2 * pow2((e - 1) as nat)
    }
}

/// Computes `2^e` for exponents up to the tree depth.
pub fn pow2_exec(e: u64) -> (r: u64)
    requires
        e <= TREE_DEPTH,
    ensures
        r as nat == pow2(e as nat),
{
    let mut r: u64 = 1;
    let mut i: u64 = 0;
    while i < e
        invariant
            i <= e <= TREE_DEPTH,
            r as nat == pow2(i as nat),
        decreases e - i,
    {
        proof {
            lemma_tree_capacity();
            lemma_pow2_monotone((i + 1) as nat, e as nat);
            lemma_pow2_monotone(e as nat, TREE_DEPTH as nat);
        }
        r = r * 2;
        i = i + 1;
    }
    r
}

/// `pow2` never returns zero.
pub proof fn lemma_pow2_positive(e: nat)
    ensures
        pow2(e) >= 1,
    decreases e,
{
    if e > 0 {
        lemma_pow2_positive((e - 1) as nat);
    }
}

/// `pow2` is monotone.
pub proof fn lemma_pow2_monotone(a: nat, b: nat)
    requires
        a <= b,
    ensures
        pow2(a) <= pow2(b),
    decreases b,
{
    if a < b {
        lemma_pow2_monotone(a, (b - 1) as nat);
        lemma_pow2_positive((b - 1) as nat);
    }
}

/// The tree's leaf capacity, `2^TREE_DEPTH`, as a literal.
pub proof fn lemma_tree_capacity()
    ensures
        pow2(TREE_DEPTH as nat) == 0x100_0000,
{
    reveal_with_fuel(pow2, 25);
}

/// Hash of a subtree of the given level that holds no account at all.
pub open spec fn empty_subtree(level: nat) -> u64
    decreases level,
{
    if level == 0 {
        EMPTY_LEAF_HASH
    } else {
        mix(empty_subtree((level - 1) as nat), empty_subtree((level - 1) as nat))
    }
}

/// Computes `empty_subtree`.
pub fn empty_subtree_exec(level: u64) -> (r: u64)
    requires
        level <= TREE_DEPTH,
    ensures
        r == empty_subtree(level as nat),
{
    let mut r: u64 = EMPTY_LEAF_HASH;
    let mut i: u64 = 0;
    while i < level
        invariant
            i <= level,
            r == empty_subtree(i as nat),
        decreases level - i,
    {
        r = mix_exec(r, r);
        i = i + 1;
    }
    r
}

/// Hash of the subtree at `level` whose leftmost leaf index is `base`,
/// over the leaf sequence `leaves` (absent slots hash as empty).
pub open spec fn subtree_hash(leaves: Seq<u64>, level: nat, base: nat) -> u64
    decreases level,
{
    if level == 0 {
        if base < leaves.len() {
            leaves[base as int]
        } else {
            EMPTY_LEAF_HASH
        }
    } else {
        mix(
            subtree_hash(leaves, (level - 1) as nat, base),
            subtree_hash(leaves, (level - 1) as nat, base + pow2((level - 1) as nat)),
        )
    }
}

/// The root of the fixed-depth sparse Merkle tree over the given leaves.
pub open spec fn merkle_root(leaves: Seq<u64>) -> u64 {
    subtree_hash(leaves, TREE_DEPTH as nat, 0)
}

/// A subtree that starts at or past the end of the leaf sequence is empty.
proof fn lemma_subtree_past_end(leaves: Seq<u64>, level: nat, base: nat)
    requires
        base >= leaves.len(),
    ensures
        subtree_hash(leaves, level, base) == empty_subtree(level),
    decreases level,
{
    if level > 0 {
        lemma_subtree_past_end(leaves, (level - 1) as nat, base);
        lemma_subtree_past_end(leaves, (level - 1) as nat, base + pow2((level - 1) as nat));
    }
}

/// Computes `subtree_hash`, pruning subtrees that lie wholly past the end
/// of the leaf vector.
fn subtree_hash_exec(leaves: &Vec<u64>, level: u64, base: u64) -> (r: u64)
    requires
        level <= TREE_DEPTH,
        base as nat + pow2(level as nat) <= pow2(TREE_DEPTH as nat),
    ensures
        r == subtree_hash(leaves@, level as nat, base as nat),
    decreases level,
{
    proof {
        lemma_tree_capacity();
        lemma_pow2_positive(level as nat);
    }
    if base as usize >= leaves.len() {
        proof {
            lemma_subtree_past_end(leaves@, level as nat, base as nat);
        }
        empty_subtree_exec(level)
    } else if level == 0 {
        leaves[base as usize]
    } else {
        proof {
            lemma_pow2_positive((level - 1) as nat);
        }
        let half = pow2_exec(level - 1);
        let left = subtree_hash_exec(leaves, level - 1, base);
        let right = subtree_hash_exec(leaves, level - 1, base + half);
        mix_exec(left, right)
    }
}

/// Computes the Merkle root of the given leaf hashes.
pub fn merkle_root_exec(leaves: &Vec<u64>) -> (r: u64)
    requires
        leaves@.len() <= pow2(TREE_DEPTH as nat),
    ensures
        r == merkle_root(leaves@),
{
    subtree_hash_exec(leaves, TREE_DEPTH, 0)
}

} // verus!
