use vstd::prelude::*;
use vstd::arithmetic::div_mod::{lemma_basic_div, lemma_div_denominator, lemma_fundamental_div_mod};
use vstd::arithmetic::power2::{lemma2_to64, lemma_pow2_pos, lemma_pow2_unfold, pow2};
use crate::error::MerkleError;
use crate::field::Field;
use crate::hasher::{LeafHash, PathHash};
use crate::path::{climb, indicator_bit, root_of, PathView};

verus! {

/// The hash of the node that stands `height` levels above the leaves, at
/// `position` from the left, in the tree over the leaf hashes `leaves`.
/// `None` where there is no such node or a combination below it fails.
pub open spec fn node<PH: PathHash>(
    path_hasher: &PH,
    leaves: Seq<Field>,
    height: nat,
    position: nat,
) -> Option<Field>
    decreases height,
{
    if height == 0 {
        if position < leaves.len() {
            Some(leaves[position as int])
        } else {
            None
        }
    } else {
        let below = (height - 1) as nat;
        match (
            node(path_hasher, leaves, below, 2 * position),
            node(path_hasher, leaves, below, 2 * position + 1),
        ) {
            (Some(left), Some(right)) => path_hasher.children_digest(left, right),
            _ => None,
        }
    }
}

/// The position, at `level`, of the node above leaf `leaf_index`.
pub open spec fn position_at(leaf_index: u64, level: nat) -> nat {
    leaf_index as nat / pow2(level)
}

/// The position, at `level`, of the sibling of that node.
pub open spec fn sibling_position(leaf_index: u64, level: nat) -> nat {
    let position = position_at(leaf_index, level);
    if position % 2 == 0 {
        position + 1
    } else {
        (position - 1) as nat
    }
}

/// The path of leaf `leaf_index` in the tree of height `depth` over
/// `leaves`: at each level the hash of the sibling node.
pub open spec fn honest_path<PH: PathHash>(
    path_hasher: &PH,
    leaves: Seq<Field>,
    depth: nat,
    leaf_index: u64,
) -> PathView {
    PathView {
        leaf_index,
        siblings: Seq::new(
            depth,
            |level: int|
                node(
                    path_hasher,
                    leaves,
                    level as nat,
                    sibling_position(leaf_index, level as nat),
                ).unwrap(),
        ),
    }
}

/// One level up, the position halves, and the indicator bit is what is
/// left over.
proof fn lemma_position_step(leaf_index: u64, level: nat)
    ensures
        position_at(leaf_index, level) == 2 * position_at(leaf_index, level + 1) + indicator_bit(
            leaf_index,
            level,
        ),
        indicator_bit(leaf_index, level) < 2,
{
    lemma_pow2_pos(level);
    lemma_pow2_unfold(level + 1);
    lemma_div_denominator(leaf_index as int, pow2(level) as int, 2);
    lemma_fundamental_div_mod(position_at(leaf_index, level) as int, 2);
}

/// Following the honest path of a leaf for `level` levels reaches the node
/// above that leaf at that level.
proof fn lemma_climb_reaches_node<PH: PathHash>(
    path_hasher: &PH,
    leaves: Seq<Field>,
    depth: nat,
    leaf_index: u64,
    level: nat,
)
    requires
        level <= depth,
        node(path_hasher, leaves, level, position_at(leaf_index, level)) is Some,
    ensures
        leaf_index < leaves.len(),
        climb(
            path_hasher,
            leaves[leaf_index as int],
            leaf_index,
            honest_path(path_hasher, leaves, depth, leaf_index).siblings,
            level,
        ) == node(path_hasher, leaves, level, position_at(leaf_index, level)),
    decreases level,
{
    if level == 0 {
        lemma2_to64();
    } else {
        let below = (level - 1) as nat;
        lemma_position_step(leaf_index, below);
        lemma_climb_reaches_node(path_hasher, leaves, depth, leaf_index, below);
    }
}

/// For a tree of height `depth` in `1..=64` over leaf hashes `leaves` whose
/// root is `root`, and a leaf whose hash stands at `leaf_index`, below
/// `2^depth`: the path made of the sibling nodes leads from that leaf to
/// `root`, so it verifies against `root`.
pub proof fn lemma_honest_path_verifies<LH: LeafHash, PH: PathHash>(
    depth: u8,
    leaf_hasher: &LH,
    path_hasher: &PH,
    leaves: Seq<Field>,
    leaf_index: u64,
    leaf: &LH::Leaf,
    root: Field,
)
    requires
        1 <= depth <= 64,
        leaf_index < pow2(depth as nat),
        node(path_hasher, leaves, depth as nat, 0) == Some(root),
        leaf_hasher.leaf_digest(leaf) == node(path_hasher, leaves, 0, leaf_index as nat),
    ensures
        root_of(
            depth,
            honest_path(path_hasher, leaves, depth as nat, leaf_index),
            leaf_hasher,
            path_hasher,
            leaf,
        ) == Ok::<Field, MerkleError>(root),
{
    lemma_pow2_pos(depth as nat);
    lemma_basic_div(leaf_index as int, pow2(depth as nat) as int);
    lemma_climb_reaches_node(path_hasher, leaves, depth as nat, leaf_index, depth as nat);
}

} // verus!
