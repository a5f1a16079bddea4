//! Depth-bounded Merkle authentication paths: validated construction,
//! root recomputation and membership verification, and the canonical
//! fixed-size binary encoding.

pub mod codec;
pub mod error;
pub mod field;
pub mod hasher;
pub mod path;
pub mod tree;

pub use error::MerkleError;
pub use field::{Field, FIELD_SIZE_IN_BITS, FIELD_SIZE_IN_BYTES};
pub use hasher::{HashError, LeafHash, PathHash};
pub use path::{MerklePath, PathView};
