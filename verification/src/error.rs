use vstd::prelude::*;

verus! {

/// Why a Merkle path could not be built, decoded or followed to a root.
#[derive(Clone, Copy, Debug, PartialEq, Eq, Structural)]
pub enum MerkleError {
    /// The tree depth is not in `1..=64`.
    InvalidDepth,
    /// The leaf index is not below `2^DEPTH`.
    LeafIndexOutOfBounds,
    /// The number of siblings differs from the depth.
    PathLengthMismatch,
    /// Fewer bytes were given than the encoding of a path takes.
    TruncatedInput,
    /// A leaf or path hasher failed.
    HashError,
}

impl MerkleError {
    /// A human-readable cause, for diagnostics only.
    pub fn message(&self) -> (s: &'static str)
        ensures
            s@ == (match *self {
                MerkleError::InvalidDepth => "Merkle tree depth must be between 1 and 64"@,
                MerkleError::LeafIndexOutOfBounds => "Found an out of bounds Merkle leaf index"@,
                MerkleError::PathLengthMismatch => "Found an incorrect Merkle path length"@,
                MerkleError::TruncatedInput => "Found a truncated Merkle path encoding"@,
                MerkleError::HashError => "Failed to hash during Merkle path verification"@,
            }),
    {
        match self {
            MerkleError::InvalidDepth => "Merkle tree depth must be between 1 and 64",
            MerkleError::LeafIndexOutOfBounds => "Found an out of bounds Merkle leaf index",
            MerkleError::PathLengthMismatch => "Found an incorrect Merkle path length",
            MerkleError::TruncatedInput => "Found a truncated Merkle path encoding",
            MerkleError::HashError => "Failed to hash during Merkle path verification",
        }
    }
}

} // verus!
