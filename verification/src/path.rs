use vstd::prelude::*;
use vstd::arithmetic::power2::{lemma_pow2_pos, pow2};
use vstd::arithmetic::div_mod::{lemma_basic_div, lemma_small_div_converse};
use vstd::bits::{lemma_u128_shr_is_div, lemma_u64_shr_is_div};
use vstd::std_specs::cmp::PartialEqSpecImpl;
use vstd::std_specs::convert::TryFromSpecImpl;
use crate::error::MerkleError;
use crate::field::Field;
use crate::hasher::{LeafHash, PathHash};

verus! {

/// What a Merkle path holds: the leaf's position and the sibling hashes
/// from the leaf's level up to the level below the root.
pub ghost struct PathView {
    pub leaf_index: u64,
    pub siblings: Seq<Field>,
}

/// The first rule that a leaf index and a sibling count break for a tree of
/// the given depth, or `None` where they break none.
pub open spec fn construct_check(depth: u8, leaf_index: u64, len: nat) -> Option<MerkleError> {
    if depth < 1 || depth > 64 {
        Some(MerkleError::InvalidDepth)
    } else if leaf_index >= pow2(depth as nat) {
        Some(MerkleError::LeafIndexOutOfBounds)
    } else if len != depth {
        Some(MerkleError::PathLengthMismatch)
    } else {
        None
    }
}

/// Bit `level` of `leaf_index`, bit 0 being the least significant: 0 where
/// the running hash is the left child at that level, 1 where it is the right.
pub open spec fn indicator_bit(leaf_index: u64, level: nat) -> nat {
    (leaf_index as nat / pow2(level)) % 2
}

/// The hash reached after `levels` levels, starting from `start` at the leaf
/// level: at level `i` the running hash is combined with `siblings[i]`, to
/// its right where bit `i` of `leaf_index` is 0 and to its left where it is
/// 1. `None` where one of the combinations fails.
pub open spec fn climb<PH: PathHash>(
    path_hasher: &PH,
    start: Field,
    leaf_index: u64,
    siblings: Seq<Field>,
    levels: nat,
) -> Option<Field>
    decreases levels,
{
    if levels == 0 {
        Some(start)
    } else {
        let level = (levels - 1) as nat;
        match climb(path_hasher, start, leaf_index, siblings, level) {
            None => None,
            Some(current) => if indicator_bit(leaf_index, level) == 0 {
                path_hasher.children_digest(current, siblings[level as int])
            } else {
                path_hasher.children_digest(siblings[level as int], current)
            },
        }
    }
}

/// The root that a path leads to from `leaf` in a tree of height `depth`,
/// or the first thing that goes wrong on the way: a broken rule of the path,
/// then a failure to hash the leaf, then a failure to combine two children.
pub open spec fn root_of<LH: LeafHash, PH: PathHash>(
    depth: u8,
    path: PathView,
    leaf_hasher: &LH,
    path_hasher: &PH,
    leaf: &LH::Leaf,
) -> Result<Field, MerkleError> {
    match construct_check(depth, path.leaf_index, path.siblings.len()) {
        Some(e) => Err(e),
        None => match leaf_hasher.leaf_digest(leaf) {
            None => Err(MerkleError::HashError),
            Some(start) => match climb(
                path_hasher,
                start,
                path.leaf_index,
                path.siblings,
                depth as nat,
            ) {
                None => Err(MerkleError::HashError),
                Some(root) => Ok(root),
            },
        },
    }
}

/// Once a combination has failed, no later level is reached.
pub proof fn lemma_climb_stays_failed<PH: PathHash>(
    path_hasher: &PH,
    start: Field,
    leaf_index: u64,
    siblings: Seq<Field>,
    failed: nat,
    levels: nat,
)
    requires
        failed <= levels,
        climb(path_hasher, start, leaf_index, siblings, failed) is None,
    ensures
        climb(path_hasher, start, leaf_index, siblings, levels) is None,
    decreases levels,
{
    if failed < levels {
        lemma_climb_stays_failed(
            path_hasher,
            start,
            leaf_index,
            siblings,
            failed,
            (levels - 1) as nat,
        );
    }
}

/// No two different ordered pairs of children have the same parent.
pub open spec fn collision_free<PH: PathHash>(path_hasher: &PH) -> bool {
    forall|l1: Field, r1: Field, l2: Field, r2: Field|
        (#[trigger] path_hasher.children_digest(l1, r1)) is Some && path_hasher.children_digest(
            l1,
            r1,
        ) == #[trigger] path_hasher.children_digest(l2, r2) ==> l1 == l2 && r1 == r2
}

/// With a collision-free hasher, two sibling lists that differ at some level
/// below `levels` do not lead to the same hash: changing one sibling, by one
/// bit or more, changes what the path leads to.
pub proof fn lemma_changed_sibling_changes_climb<PH: PathHash>(
    path_hasher: &PH,
    start: Field,
    leaf_index: u64,
    siblings: Seq<Field>,
    forged: Seq<Field>,
    changed: nat,
    levels: nat,
)
    requires
        collision_free(path_hasher),
        changed < levels,
        siblings[changed as int] != forged[changed as int],
        climb(path_hasher, start, leaf_index, siblings, levels) is Some,
    ensures
        climb(path_hasher, start, leaf_index, forged, levels) != climb(
            path_hasher,
            start,
            leaf_index,
            siblings,
            levels,
        ),
    decreases levels,
{
    let level = (levels - 1) as nat;
    if changed < level {
        lemma_changed_sibling_changes_climb(
            path_hasher,
            start,
            leaf_index,
            siblings,
            forged,
            changed,
            level,
        );
    }
}

/// With a collision-free path hasher: where a path leads from `leaf` to
/// `root`, a path with the same leaf index and one sibling or more changed
/// does not, so `verify` rejects it.
pub proof fn lemma_changed_sibling_is_rejected<LH: LeafHash, PH: PathHash>(
    depth: u8,
    path: PathView,
    forged: PathView,
    changed: nat,
    leaf_hasher: &LH,
    path_hasher: &PH,
    leaf: &LH::Leaf,
    root: Field,
)
    requires
        collision_free(path_hasher),
        root_of(depth, path, leaf_hasher, path_hasher, leaf) == Ok::<Field, MerkleError>(root),
        forged.leaf_index == path.leaf_index,
        changed < depth,
        forged.siblings[changed as int] != path.siblings[changed as int],
    ensures
        root_of(depth, forged, leaf_hasher, path_hasher, leaf) != Ok::<Field, MerkleError>(root),
{
    if construct_check(depth, forged.leaf_index, forged.siblings.len()) is None {
        lemma_changed_sibling_changes_climb(
            path_hasher,
            leaf_hasher.leaf_digest(leaf).unwrap(),
            path.leaf_index,
            path.siblings,
            forged.siblings,
            changed,
            depth as nat,
        );
    }
}

/// For a depth outside `1..=64` nothing can be constructed.
pub proof fn lemma_invalid_depth_iff(depth: u8, leaf_index: u64, len: nat)
    ensures
        construct_check(depth, leaf_index, len) == Some(MerkleError::InvalidDepth) <==> !(1
            <= depth <= 64),
{
}

/// For a depth in `1..=64`, construction fails with `LeafIndexOutOfBounds`
/// exactly where the leaf index is not below `2^depth`.
pub proof fn lemma_leaf_index_out_of_bounds_iff(depth: u8, leaf_index: u64, len: nat)
    requires
        1 <= depth <= 64,
    ensures
        construct_check(depth, leaf_index, len) == Some(MerkleError::LeafIndexOutOfBounds)
            <==> leaf_index >= pow2(depth as nat),
{
}

/// For a depth in `1..=64` and a leaf index below `2^depth`, construction
/// fails with `PathLengthMismatch` exactly where the number of siblings is
/// not the depth, and succeeds where it is.
pub proof fn lemma_path_length_mismatch_iff(depth: u8, leaf_index: u64, len: nat)
    requires
        1 <= depth <= 64,
        leaf_index < pow2(depth as nat),
    ensures
        construct_check(depth, leaf_index, len) == Some(MerkleError::PathLengthMismatch) <==> len
            != depth,
        construct_check(depth, leaf_index, len) is None <==> len == depth,
{
}

/// The 128-bit comparison against `1 << depth` decides `leaf_index < 2^depth`.
proof fn lemma_below_pow2(leaf_index: u64, depth: u8)
    requires
        depth <= 64,
    ensures
        ((leaf_index as u128) < (1u128 << (depth as u128))) == (leaf_index < pow2(depth as nat)),
{
    let x = leaf_index as u128;
    let d = depth as u128;
    assert((x < (1u128 << d)) == ((x >> d) == 0)) by (bit_vector)
        requires
            d <= 64,
            x <= 0xffff_ffff_ffff_ffff,
    ;
    lemma_u128_shr_is_div(x, d);
    lemma_pow2_pos(depth as nat);
    if leaf_index < pow2(depth as nat) {
        lemma_basic_div(leaf_index as int, pow2(depth as nat) as int);
    } else {
        lemma_small_div_converse(leaf_index as int, pow2(depth as nat) as int);
    }
}

/// Shifting and masking reads the indicator bit.
proof fn lemma_indicator_bit(leaf_index: u64, level: u8)
    requires
        level < 64,
    ensures
        ((leaf_index >> (level as u64)) & 1) == indicator_bit(leaf_index, level as nat),
{
    let y = leaf_index >> (level as u64);
    lemma_u64_shr_is_div(leaf_index, level as u64);
    assert(y & 1 == y % 2) by (bit_vector);
}

/// An authentication path in a Merkle tree of height `DEPTH`.
#[derive(Debug, Hash)]
pub struct MerklePath<const DEPTH: u8> {
    leaf_index: u64,
    siblings: Vec<Field>,
}

impl<const DEPTH: u8> View for MerklePath<DEPTH> {
    type V = PathView;

    closed spec fn view(&self) -> PathView {
        PathView { leaf_index: self.leaf_index, siblings: self.siblings@ }
    }
}

impl<const DEPTH: u8> MerklePath<DEPTH> {
    /// The path breaks no rule of a tree of height `DEPTH`.
    pub open spec fn wf(&self) -> bool {
        construct_check(DEPTH, self@.leaf_index, self@.siblings.len()) is None
    }

    /// Returns the root that the path leads to from `leaf`, or the first
    /// thing that goes wrong on the way. The path's own rules are checked
    /// again here, whatever built it.
    pub fn compute_root<LH: LeafHash, PH: PathHash>(
        &self,
        leaf_hasher: &LH,
        path_hasher: &PH,
        leaf: &LH::Leaf,
    ) -> (r: Result<Field, MerkleError>)
        ensures
            r == root_of(DEPTH, self@, leaf_hasher, path_hasher, leaf),
    {
        if DEPTH < 1 || DEPTH > 64 {
            return Err(MerkleError::InvalidDepth);
        }
        proof {
            lemma_below_pow2(self.leaf_index, DEPTH);
        }
        if (self.leaf_index as u128) >= (1u128 << (DEPTH as u128)) {
            return Err(MerkleError::LeafIndexOutOfBounds);
        }
        if self.siblings.len() != DEPTH as usize {
            return Err(MerkleError::PathLengthMismatch);
        }
        let start = match leaf_hasher.hash_leaf(leaf) {
            Ok(hash) => hash,
            Err(_) => {
                return Err(MerkleError::HashError);
            },
        };
        let mut current = start;
        let mut level: u8 = 0;
        while level < DEPTH
            invariant
                1 <= DEPTH <= 64,
                level <= DEPTH,
                self.leaf_index < pow2(DEPTH as nat),
                self.siblings@.len() == DEPTH,
                leaf_hasher.leaf_digest(leaf) == Some(start),
                climb(path_hasher, start, self.leaf_index, self.siblings@, level as nat) == Some(
                    current,
                ),
            decreases DEPTH - level,
        {
            let sibling = self.siblings[level as usize];
            proof {
                lemma_indicator_bit(self.leaf_index, level);
            }
            let parent = if ((self.leaf_index >> (level as u64)) & 1) == 0 {
                path_hasher.hash_children(&current, &sibling)
            } else {
                path_hasher.hash_children(&sibling, &current)
            };
            match parent {
                Ok(hash) => {
                    current = hash;
                },
                Err(_) => {
                    proof {
                        assert(climb(
                            path_hasher,
                            start,
                            self.leaf_index,
                            self.siblings@,
                            (level + 1) as nat,
                        ) is None);
                        lemma_climb_stays_failed(
                            path_hasher,
                            start,
                            self.leaf_index,
                            self.siblings@,
                            (level + 1) as nat,
                            DEPTH as nat,
                        );
                    }
                    return Err(MerkleError::HashError);
                },
            }
            level += 1;
        }
        Ok(current)
    }

    /// Returns `true` if the Merkle path is valid for the given root and
    /// leaf: if it leads from the leaf to exactly that root. Every failure
    /// on the way gives `false`.
    pub fn verify<LH: LeafHash, PH: PathHash>(
        &self,
        leaf_hasher: &LH,
        path_hasher: &PH,
        root: &Field,
        leaf: &LH::Leaf,
    ) -> (valid: bool)
        ensures
            valid == (root_of(DEPTH, self@, leaf_hasher, path_hasher, leaf) == Ok::<
                Field,
                MerkleError,
            >(*root)),
    {
        match self.compute_root(leaf_hasher, path_hasher, leaf) {
            Ok(candidate) => {
                proof {
                    if candidate@ == root@ {
                        Field::lemma_view_injective(candidate, *root);
                    }
                }
                candidate == *root
            },
            Err(_) => false,
        }
    }

    /// Returns the leaf index for the path.
    pub fn leaf_index(&self) -> (i: u64)
        ensures
            i == self@.leaf_index,
    {
        self.leaf_index
    }

    /// Returns the siblings for the path.
    pub fn siblings(&self) -> (s: &[Field])
        ensures
            s@ == self@.siblings,
    {
        self.siblings.as_slice()
    }
}

impl<const DEPTH: u8> Clone for MerklePath<DEPTH> {
    /// A path with the same leaf index and the same siblings.
    fn clone(&self) -> (copy: Self)
        ensures
            copy@ == self@,
    {
        let mut siblings: Vec<Field> = Vec::new();
        let mut k: usize = 0;
        while k < self.siblings.len()
            invariant
                k <= self.siblings@.len(),
                siblings@ == self.siblings@.take(k as int),
            decreases self.siblings@.len() - k,
        {
            siblings.push(self.siblings[k]);
            proof {
                assert(siblings@ =~= self.siblings@.take(k as int + 1));
            }
            k += 1;
        }
        proof {
            assert(siblings@ =~= self.siblings@);
        }
        MerklePath { leaf_index: self.leaf_index, siblings }
    }
}

impl<const DEPTH: u8> PartialEq for MerklePath<DEPTH> {
    /// Two paths are equal where their leaf indices and their siblings are.
    fn eq(&self, other: &Self) -> (r: bool) {
        if self.leaf_index != other.leaf_index || self.siblings.len() != other.siblings.len() {
            return false;
        }
        let mut k: usize = 0;
        while k < self.siblings.len()
            invariant
                k <= self.siblings@.len(),
                self.siblings@.len() == other.siblings@.len(),
                forall|j: int| 0 <= j < k ==> self.siblings@[j] == other.siblings@[j],
            decreases self.siblings@.len() - k,
        {
            let mine = self.siblings[k];
            let theirs = other.siblings[k];
            if mine != theirs {
                return false;
            }
            proof {
                Field::lemma_view_injective(mine, theirs);
            }
            k += 1;
        }
        proof {
            assert(self.siblings@ =~= other.siblings@);
        }
        true
    }
}

impl<const DEPTH: u8> PartialEqSpecImpl for MerklePath<DEPTH> {
    open spec fn obeys_eq_spec() -> bool {
        true
    }

    open spec fn eq_spec(&self, other: &Self) -> bool {
        self@ == other@
    }
}

impl<const DEPTH: u8> Eq for MerklePath<DEPTH> {

}

impl<const DEPTH: u8> TryFrom<(u64, Vec<Field>)> for MerklePath<DEPTH> {
    type Error = MerkleError;

    /// Returns a new instance of a Merkle path: the leaf index and the
    /// siblings as given, where they break no rule of a tree of height
    /// `DEPTH`, and else the first rule broken.
    fn try_from(parts: (u64, Vec<Field>)) -> (r: Result<Self, MerkleError>)
        ensures
            match construct_check(DEPTH, parts.0, parts.1@.len()) {
                Some(e) => r == Err::<Self, MerkleError>(e),
                None => r is Ok && r.unwrap().wf() && r.unwrap()@ == (PathView {
                    leaf_index: parts.0,
                    siblings: parts.1@,
                }),
            },
    {
        let leaf_index = parts.0;
        let siblings = parts.1;
        if DEPTH < 1 || DEPTH > 64 {
            return Err(MerkleError::InvalidDepth);
        }
        proof {
            lemma_below_pow2(leaf_index, DEPTH);
        }
        if (leaf_index as u128) >= (1u128 << (DEPTH as u128)) {
            return Err(MerkleError::LeafIndexOutOfBounds);
        }
        if siblings.len() != DEPTH as usize {
            return Err(MerkleError::PathLengthMismatch);
        }
        Ok(MerklePath { leaf_index, siblings })
    }
}

impl<const DEPTH: u8> TryFromSpecImpl<(u64, Vec<Field>)> for MerklePath<DEPTH> {
    open spec fn obeys_try_from_spec() -> bool {
        true
    }

    closed spec fn try_from_spec(parts: (u64, Vec<Field>)) -> Result<Self, MerkleError> {
        match construct_check(DEPTH, parts.0, parts.1@.len()) {
            Some(e) => Err(e),
            None => Ok(MerklePath { leaf_index: parts.0, siblings: parts.1 }),
        }
    }
}

} // verus!
