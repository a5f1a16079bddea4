use vstd::prelude::*;
use crate::field::Field;

verus! {

/// An opaque failure of a hasher.
#[derive(Clone, Copy, Debug, PartialEq, Eq, Structural)]
pub struct HashError;

/// Maps a leaf value to a field element. An implementation is deterministic:
/// `leaf_digest` names what `hash_leaf` returns, `None` where it fails. What
/// is proved of a path holds for every implementation that keeps to this;
/// one that is verified defines `leaf_digest` itself.
pub trait LeafHash {
    type Leaf;

    /// The digest of `leaf`, or `None` where hashing it fails.
    closed spec fn leaf_digest(&self, leaf: &Self::Leaf) -> Option<Field> {
        arbitrary()
    }

    /// Hashes a leaf.
    fn hash_leaf(&self, leaf: &Self::Leaf) -> (r: Result<Field, HashError>)
        ensures
            r.ok() == self.leaf_digest(leaf),
    ;
}

/// Maps an ordered pair of children to their parent. An implementation is
/// deterministic: `children_digest` names what `hash_children` returns,
/// `None` where it fails. What is proved of a path holds for every
/// implementation that keeps to this; one that is verified defines
/// `children_digest` itself.
pub trait PathHash {
    /// The parent of `left` and `right`, in that order, or `None` where
    /// hashing them fails.
    closed spec fn children_digest(&self, left: Field, right: Field) -> Option<Field> {
        arbitrary()
    }

    /// Hashes two children into their parent.
    fn hash_children(&self, left: &Field, right: &Field) -> (r: Result<Field, HashError>)
        ensures
            r.ok() == self.children_digest(*left, *right),
    ;
}

} // verus!
