//! A sparse binary Merkle store: a fixed-depth binary hash tree whose nodes are
//! kept in a content-addressed byte store, with authenticated reads, staged
//! writes and recorded storage proofs.

use vstd::prelude::*;

mod digest_map;
pub mod hasher;
pub mod indices;
pub mod key;
pub mod laws;
pub mod laws_commit;
pub mod laws_content;
pub mod laws_insert;
pub mod laws_reads;
pub mod laws_replay;
pub mod node;
pub mod reading;
pub mod recorder;
pub mod storage_proof;
pub mod store;
pub mod tree;
pub mod treedb;
pub mod treedbmut;
pub mod writing;

pub use hasher::{compute_null_hashes, Hasher, NullHashes, Sha3};
pub use key::{Key, KeyIter};
pub use node::{decode_hash, Node, NodeHash, Value};
pub use recorder::{Recorder, TreeRecorder};
pub use storage_proof::StorageProof;
pub use store::NodeStore;
pub use tree::{Tree, TreeMut};
pub use treedb::{TreeDB, TreeDBBuilder};
pub use treedbmut::{TreeDBMut, TreeDBMutBuilder};

verus! {

/// Database value
pub type DBValue = Vec<u8>;

/// Tree Errors
#[derive(Clone, Copy, Debug, PartialEq, Eq, Structural)]
pub enum TreeError {
    /// A digest that is not the digest of an empty subtree was not found.
    DataNotFound,
    /// The key does not have as many bits as the tree has levels.
    IndexOutOfBounds,
    /// A value was met where an inner node was needed, or the reverse.
    UnexpectedNodeType,
    /// The stored bytes are empty or start with an unknown tag.
    NodeDeserializationFailed,
    /// A key byte is neither 0 nor 1.
    NodeIndexOutOfBounds,
    /// The bytes of a child digest do not have the digest length.
    DecodeHashFailed,
}

} // verus!
