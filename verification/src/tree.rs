//! The interfaces of the reader and of the writer.

use crate::hasher::Hasher;
use crate::node::NodeView;
use crate::reading::{
    bytes_result_view, leaf_at, log_after, proof_at, proof_result_view, value_at, walk_recorded,
    Nodes,
};
use crate::writing::WriterState;
use crate::{DBValue, TreeError};
use vstd::prelude::*;

verus! {

/// An index-value datastore implemented as a database-backed binary merkle
/// tree. The tree root, internal nodes and leaves are digests; the values
/// are byte strings. Tree nodes are indexed as `2^layer + offset`, where
/// the root's layer is 0 and the offset counts the nodes of a layer from
/// the left, starting from 0.
/// ```text
///       1 *         <- tree root
///       /   \
///      /     \
///   2 *      3 *    <- internal nodes
///    / \     / \
/// 4 o   o   o   o   <- leaves
///   |   |   |   |
///   #   #   #   #   <- values
///
///   0   1   2   3   <- offset
/// ```
pub trait Tree<H: Hasher> {
    /// The nodes that the tree reads from.
    spec fn nodes(&self) -> Nodes;

    /// The digest of the root.
    spec fn spec_root(&self) -> Seq<u8>;

    /// The number of levels below the root.
    spec fn spec_depth(&self) -> nat;

    /// Whether a recorder is attached.
    spec fn has_recorder(&self) -> bool;

    /// What the attached recorder holds.
    spec fn recorded(&self) -> Seq<NodeView>;

    /// Return the root of the tree.
    fn root(&self) -> (root: &Vec<u8>)
        ensures
            root@ == self.spec_root(),
    ;

    /// Return the depth of the tree.
    fn depth(&self) -> (depth: usize)
        ensures
            depth == self.spec_depth(),
    ;

    /// Get the value at the specified key.
    fn get_value(&mut self, key: &[u8]) -> (r: Result<DBValue, TreeError>)
        ensures
            bytes_result_view(r) == value_at::<H>(
                old(self).nodes(),
                old(self).spec_depth(),
                old(self).spec_root(),
                key@,
            ),
            final(self).nodes() == old(self).nodes(),
            final(self).spec_root() == old(self).spec_root(),
            final(self).spec_depth() == old(self).spec_depth(),
            final(self).has_recorder() == old(self).has_recorder(),
            final(self).recorded() == log_after(
                old(self).has_recorder(),
                old(self).recorded(),
                if key@.len() == old(self).spec_depth() {
                    walk_recorded::<H>(
                        old(self).nodes(),
                        old(self).spec_depth(),
                        old(self).spec_root(),
                        key@,
                    )
                } else {
                    Seq::empty()
                },
            ),
    ;

    /// Get the leaf digest at the specified key.
    fn get_leaf(&mut self, key: &[u8]) -> (r: Result<Vec<u8>, TreeError>)
        requires
            old(self).spec_depth() >= 1,
        ensures
            bytes_result_view(r) == leaf_at::<H>(
                old(self).nodes(),
                old(self).spec_depth(),
                old(self).spec_root(),
                key@,
            ),
            final(self).nodes() == old(self).nodes(),
            final(self).spec_root() == old(self).spec_root(),
            final(self).spec_depth() == old(self).spec_depth(),
            final(self).has_recorder() == old(self).has_recorder(),
            final(self).recorded() == log_after(
                old(self).has_recorder(),
                old(self).recorded(),
                if key@.len() == old(self).spec_depth() {
                    walk_recorded::<H>(
                        old(self).nodes(),
                        old(self).spec_depth(),
                        old(self).spec_root(),
                        key@.drop_last(),
                    )
                } else {
                    Seq::empty()
                },
            ),
    ;

    /// Get an inclusion proof for the leaf at the specified key.
    fn get_proof(&mut self, key: &[u8]) -> (r: Result<Vec<(usize, DBValue)>, TreeError>)
        requires
            old(self).spec_depth() < usize::BITS,
        ensures
            proof_result_view(r) == proof_at::<H>(
                old(self).nodes(),
                old(self).spec_depth(),
                old(self).spec_root(),
                old(self).spec_root(),
                key@,
            ),
            final(self).nodes() == old(self).nodes(),
            final(self).spec_root() == old(self).spec_root(),
            final(self).spec_depth() == old(self).spec_depth(),
            final(self).has_recorder() == old(self).has_recorder(),
            final(self).recorded() == log_after(
                old(self).has_recorder(),
                old(self).recorded(),
                if key@.len() == old(self).spec_depth() {
                    walk_recorded::<H>(
                        old(self).nodes(),
                        old(self).spec_depth(),
                        old(self).spec_root(),
                        key@,
                    )
                } else {
                    Seq::empty()
                },
            ),
    ;
}

/// An index-value datastore implemented as a database-backed binary merkle
/// tree, with writes that are staged until they are committed.
pub trait TreeMut<H: Hasher> {
    /// The staged nodes and the store, the two roots and the depth.
    spec fn state(&self) -> WriterState;

    /// Whether a recorder is attached.
    spec fn has_recorder(&self) -> bool;

    /// What the attached recorder holds.
    spec fn recorded(&self) -> Seq<NodeView>;

    /// Commit what is staged and return the root of the tree.
    fn root(&mut self) -> (root: &Vec<u8>)
        ensures
            final(self).state() == old(self).state().committed::<H>(),
            root@ == old(self).state().committed::<H>().root,
            final(self).has_recorder() == old(self).has_recorder(),
            final(self).recorded() == old(self).recorded(),
    ;

    /// Return the depth of the tree.
    fn depth(&self) -> (depth: usize)
        ensures
            depth == self.state().depth,
    ;

    /// Get the value at the specified key, as of the current root.
    fn get_value(&mut self, key: &[u8]) -> (r: Result<DBValue, TreeError>)
        ensures
            bytes_result_view(r) == value_at::<H>(
                old(self).state().nodes,
                old(self).state().depth,
                old(self).state().handle.digest(),
                key@,
            ),
            final(self).state() == old(self).state(),
            final(self).has_recorder() == old(self).has_recorder(),
            final(self).recorded() == log_after(
                old(self).has_recorder(),
                old(self).recorded(),
                if key@.len() == old(self).state().depth {
                    walk_recorded::<H>(
                        old(self).state().nodes,
                        old(self).state().depth,
                        old(self).state().handle.digest(),
                        key@,
                    )
                } else {
                    Seq::empty()
                },
            ),
    ;

    /// Get the leaf digest at the specified key, as of the current root.
    fn get_leaf(&mut self, key: &[u8]) -> (r: Result<Vec<u8>, TreeError>)
        requires
            old(self).state().depth >= 1,
        ensures
            bytes_result_view(r) == leaf_at::<H>(
                old(self).state().nodes,
                old(self).state().depth,
                old(self).state().handle.digest(),
                key@,
            ),
            final(self).state() == old(self).state(),
            final(self).has_recorder() == old(self).has_recorder(),
            final(self).recorded() == log_after(
                old(self).has_recorder(),
                old(self).recorded(),
                if key@.len() == old(self).state().depth {
                    walk_recorded::<H>(
                        old(self).state().nodes,
                        old(self).state().depth,
                        old(self).state().handle.digest(),
                        key@.drop_last(),
                    )
                } else {
                    Seq::empty()
                },
            ),
    ;

    /// Get an inclusion proof for the leaf at the specified key, as of the
    /// current root. Its entry for the root holds the root as of the last
    /// commit.
    fn get_proof(&mut self, key: &[u8]) -> (r: Result<Vec<(usize, DBValue)>, TreeError>)
        requires
            old(self).state().depth < usize::BITS,
        ensures
            proof_result_view(r) == proof_at::<H>(
                old(self).state().nodes,
                old(self).state().depth,
                old(self).state().handle.digest(),
                old(self).state().root,
                key@,
            ),
            final(self).state() == old(self).state(),
            final(self).has_recorder() == old(self).has_recorder(),
            final(self).recorded() == log_after(
                old(self).has_recorder(),
                old(self).recorded(),
                if key@.len() == old(self).state().depth {
                    walk_recorded::<H>(
                        old(self).state().nodes,
                        old(self).state().depth,
                        old(self).state().handle.digest(),
                        key@,
                    )
                } else {
                    Seq::empty()
                },
            ),
    ;

    /// Insert a value at the specified key. Returns the old value at the
    /// specified key.
    fn insert(&mut self, key: &[u8], value: DBValue) -> (r: Result<DBValue, TreeError>)
        requires
            old(self).state().depth >= 1,
        ensures
            bytes_result_view(r) == value_at::<H>(
                old(self).state().nodes,
                old(self).state().depth,
                old(self).state().handle.digest(),
                key@,
            ),
            final(self).state() == old(self).state().inserted::<H>(key@, value@),
            final(self).has_recorder() == old(self).has_recorder(),
            final(self).recorded() == log_after(
                old(self).has_recorder(),
                old(self).recorded(),
                if key@.len() == old(self).state().depth {
                    walk_recorded::<H>(
                        old(self).state().nodes,
                        old(self).state().depth,
                        old(self).state().handle.digest(),
                        key@,
                    )
                } else {
                    Seq::empty()
                },
            ),
    ;
}

} // verus!
