//! The reader: authenticated lookups in a tree whose nodes are in a store.

use crate::digest_map::bytes_eq;
use crate::hasher::{Hasher, NullHashes};
use crate::indices::{compute_index, is_bit_path, lemma_path_index_bounds, path_index};
use crate::node::{node_result_view, Node, NodeHash, NodeView, Value};
use crate::reading::{
    entries_view, lemma_log_after_twice, lemma_walk_fails_from_prefix, log_after, lookup,
    lookup_recorded, sibling_entries, walk, walk_recorded, Nodes,
};
use crate::recorder::{Recorder, TreeRecorder};
use crate::store::NodeStore;
use crate::tree::Tree;
use crate::{DBValue, TreeError};
use core::marker::PhantomData;
use vstd::arithmetic::power2::lemma_pow2_strictly_increases;
use vstd::prelude::*;
use vstd::slice::slice_subrange;

verus! {

/// Collects what a reader is made of: the store, the root, the depth and
/// an optional recorder.
pub struct TreeDBBuilder<'db, H: Hasher, R: TreeRecorder = Recorder> {
    db: &'db NodeStore,
    root: &'db Vec<u8>,
    depth: usize,
    recorder: Option<R>,
    hasher: PhantomData<H>,
}

impl<'db, H: Hasher> TreeDBBuilder<'db, H, Recorder> {
    /// A builder for a reader of the tree of the given depth with the
    /// given root in `db`, without a recorder.
    pub fn new(db: &'db NodeStore, root: &'db Vec<u8>, depth: usize) -> (builder: Self)
        ensures
            builder.store() == db@,
            builder.spec_root() == root@,
            builder.spec_depth() == depth,
            !builder.has_recorder(),
    {
        Self { db, root, depth, recorder: None, hasher: PhantomData }
    }
}

impl<'db, H: Hasher, R: TreeRecorder> TreeDBBuilder<'db, H, R> {
    /// The content of the store.
    pub closed spec fn store(&self) -> Map<Seq<u8>, Seq<u8>> {
        self.db@
    }

    /// The digest of the root.
    pub closed spec fn spec_root(&self) -> Seq<u8> {
        self.root@
    }

    /// The number of levels below the root.
    pub closed spec fn spec_depth(&self) -> nat {
        self.depth as nat
    }

    /// Whether a recorder is attached.
    pub closed spec fn has_recorder(&self) -> bool {
        self.recorder is Some
    }

    /// What the attached recorder holds.
    pub closed spec fn recorded(&self) -> Seq<NodeView> {
        match self.recorder {
            Some(recorder) => recorder.recorded(),
            None => Seq::empty(),
        }
    }

    /// Attach a recorder, in place of the one attached before.
    pub fn with_recorder<R2: TreeRecorder>(self, recorder: R2) -> (builder: TreeDBBuilder<
        'db,
        H,
        R2,
    >)
        ensures
            builder.store() == self.store(),
            builder.spec_root() == self.spec_root(),
            builder.spec_depth() == self.spec_depth(),
            builder.has_recorder(),
            builder.recorded() == recorder.recorded(),
    {
        TreeDBBuilder {
            db: self.db,
            root: self.root,
            depth: self.depth,
            recorder: Some(recorder),
            hasher: PhantomData,
        }
    }

    /// Attach a recorder if there is one, in place of the one attached
    /// before.
    pub fn with_optional_recorder<R2: TreeRecorder>(self, recorder: Option<R2>) -> (builder:
        TreeDBBuilder<'db, H, R2>)
        ensures
            builder.store() == self.store(),
            builder.spec_root() == self.spec_root(),
            builder.spec_depth() == self.spec_depth(),
            builder.has_recorder() == recorder.is_some(),
            builder.recorded() == match recorder {
                Some(recorder) => recorder.recorded(),
                None => Seq::empty(),
            },
    {
        TreeDBBuilder {
            db: self.db,
            root: self.root,
            depth: self.depth,
            recorder,
            hasher: PhantomData,
        }
    }

    /// The reader, with the digests of the empty subtrees computed.
    pub fn build(self) -> (tree: TreeDB<'db, H, R>)
        requires
            self.spec_depth() < usize::MAX,
        ensures
            tree.nodes() == Nodes::of_store(self.store()),
            tree.spec_root() == self.spec_root(),
            tree.spec_depth() == self.spec_depth(),
            tree.has_recorder() == self.has_recorder(),
            tree.recorded() == self.recorded(),
    {
        TreeDB {
            db: self.db,
            root: self.root,
            recorder: self.recorder,
            null_hashes: NullHashes::new(self.depth),
        }
    }
}

/// A `Tree` implementation using a `NodeStore` backing database and a
/// generic `Hasher` to generate keys.
///
/// You can use `db()` to get the backing database object.
pub struct TreeDB<'a, H: Hasher, R: TreeRecorder = Recorder> {
    db: &'a NodeStore,
    root: &'a Vec<u8>,
    recorder: Option<R>,
    null_hashes: NullHashes<H>,
}

impl<'a, H: Hasher, R: TreeRecorder> TreeDB<'a, H, R> {
    /// Get the backing database.
    pub fn db(&self) -> (db: &NodeStore)
        ensures
            db@ == self.nodes().stored,
    {
        self.db
    }

    /// Give the attached recorder back.
    pub fn into_recorder(self) -> (recorder: Option<R>)
        ensures
            recorder.is_some() == self.has_recorder(),
            match recorder {
                Some(recorder) => recorder.recorded() == self.recorded(),
                None => true,
            },
    {
        self.recorder
    }

    fn record(&mut self, node: &Node)
        ensures
            final(self).nodes() == old(self).nodes(),
            final(self).spec_root() == old(self).spec_root(),
            final(self).spec_depth() == old(self).spec_depth(),
            final(self).has_recorder() == old(self).has_recorder(),
            final(self).recorded() == log_after(
                old(self).has_recorder(),
                old(self).recorded(),
                seq![node@],
            ),
    {
        match &mut self.recorder {
            Some(recorder) => {
                recorder.record(node.clone());
            },
            None => {},
        }
        assert(self.has_recorder() ==> self.recorded() =~= old(self).recorded() + seq![node@]);
    }

    /// The node under digest `key` at level `depth`: the decoded stored
    /// node, which is handed to the recorder, or the node of the empty
    /// subtree where the digest is that of the empty subtree of the level.
    pub fn lookup(&mut self, key: &Vec<u8>, depth: usize) -> (r: Result<Node, TreeError>)
        ensures
            node_result_view(r) == lookup::<H>(
                old(self).nodes(),
                old(self).spec_depth(),
                key@,
                depth as nat,
            ),
            final(self).nodes() == old(self).nodes(),
            final(self).spec_root() == old(self).spec_root(),
            final(self).spec_depth() == old(self).spec_depth(),
            final(self).has_recorder() == old(self).has_recorder(),
            final(self).recorded() == log_after(
                old(self).has_recorder(),
                old(self).recorded(),
                lookup_recorded::<H>(old(self).nodes(), key@),
            ),
    {
        let data = match self.db.get(key.as_slice()) {
            Some(value) => value,
            None => {
                assert(self.recorded() =~= self.recorded() + Seq::<NodeView>::empty());
                if depth > self.null_hashes.depth() {
                    return Err(TreeError::DataNotFound);
                } else if depth == self.null_hashes.depth() && bytes_eq(
                    key.as_slice(),
                    self.null_hashes.get(depth).as_slice(),
                ) {
                    return Ok(Node::Value(Value::Cached(Vec::new())));
                } else if bytes_eq(key.as_slice(), self.null_hashes.get(depth).as_slice()) {
                    let null_hash = self.null_hashes.get(depth + 1);
                    return Ok(
                        Node::Inner(
                            NodeHash::Hash(null_hash.clone()),
                            NodeHash::Hash(null_hash.clone()),
                        ),
                    );
                } else {
                    return Err(TreeError::DataNotFound);
                }
            },
        };
        match Node::decode::<H>(data) {
            Ok(node) => {
                self.record(&node);
                Ok(node)
            },
            Err(e) => {
                assert(self.recorded() =~= self.recorded() + Seq::<NodeView>::empty());
                Err(e)
            },
        }
    }

    /// The node that the path `key` leads to from the root.
    pub fn get(&mut self, key: &[u8]) -> (r: Result<Node, TreeError>)
        ensures
            node_result_view(r) == walk::<H>(
                old(self).nodes(),
                old(self).spec_depth(),
                old(self).spec_root(),
                key@,
            ),
            final(self).nodes() == old(self).nodes(),
            final(self).spec_root() == old(self).spec_root(),
            final(self).spec_depth() == old(self).spec_depth(),
            final(self).has_recorder() == old(self).has_recorder(),
            final(self).recorded() == log_after(
                old(self).has_recorder(),
                old(self).recorded(),
                walk_recorded::<H>(
                    old(self).nodes(),
                    old(self).spec_depth(),
                    old(self).spec_root(),
                    key@,
                ),
            ),
    {
        let ghost nodes = self.nodes();
        let ghost depth = self.spec_depth();
        let ghost root = self.spec_root();
        let root_digest = self.root;
        let mut current_node = match self.lookup(root_digest, 0) {
            Ok(node) => node,
            Err(e) => {
                proof {
                    assert(key@.take(0) =~= Seq::<u8>::empty());
                    lemma_walk_fails_from_prefix::<H>(nodes, depth, root, root, key@, 0);
                }
                return Err(e);
            },
        };
        let mut i: usize = 0;
        assert(key@.take(0) =~= Seq::<u8>::empty());
        while i < key.len()
            invariant
                i <= key@.len(),
                nodes == old(self).nodes(),
                depth == old(self).spec_depth(),
                root == old(self).spec_root(),
                self.nodes() == nodes,
                self.spec_root() == root,
                self.spec_depth() == depth,
                self.has_recorder() == old(self).has_recorder(),
                walk::<H>(nodes, depth, root, key@.take(i as int)) == Ok::<NodeView, TreeError>(
                    current_node@,
                ),
                self.recorded() == log_after(
                    old(self).has_recorder(),
                    old(self).recorded(),
                    walk_recorded::<H>(nodes, depth, root, key@.take(i as int)),
                ),
            decreases key@.len() - i,
        {
            proof {
                assert(key@.take(i + 1).drop_last() =~= key@.take(i as int));
                assert(key@.take(i + 1).last() == key@[i as int]);
            }
            let child = match current_node.get_child(key[i]) {
                Ok(child) => child.get_hash().clone(),
                Err(e) => {
                    proof {
                        lemma_walk_fails_from_prefix::<H>(nodes, depth, root, root, key@, i + 1);
                    }
                    return Err(e);
                },
            };
            proof {
                lemma_log_after_twice(
                    old(self).has_recorder(),
                    old(self).recorded(),
                    walk_recorded::<H>(nodes, depth, root, key@.take(i as int)),
                    lookup_recorded::<H>(nodes, child@),
                );
            }
            current_node = match self.lookup(&child, i + 1) {
                Ok(node) => node,
                Err(e) => {
                    proof {
                        lemma_walk_fails_from_prefix::<H>(nodes, depth, root, root, key@, i + 1);
                    }
                    return Err(e);
                },
            };
            i += 1;
        }
        proof {
            assert(key@.take(key@.len() as int) =~= key@);
        }
        Ok(current_node)
    }
}

impl<'a, H: Hasher, R: TreeRecorder> Tree<H> for TreeDB<'a, H, R> {
    closed spec fn nodes(&self) -> Nodes {
        Nodes::of_store(self.db@)
    }

    closed spec fn spec_root(&self) -> Seq<u8> {
        self.root@
    }

    closed spec fn spec_depth(&self) -> nat {
        self.null_hashes.spec_depth()
    }

    closed spec fn has_recorder(&self) -> bool {
        self.recorder is Some
    }

    closed spec fn recorded(&self) -> Seq<NodeView> {
        match self.recorder {
            Some(recorder) => recorder.recorded(),
            None => Seq::empty(),
        }
    }

    fn root(&self) -> (root: &Vec<u8>) {
        self.root
    }

    fn depth(&self) -> (depth: usize) {
        self.null_hashes.depth()
    }

    fn get_value(&mut self, key: &[u8]) -> (r: Result<DBValue, TreeError>) {
        if key.len() != self.null_hashes.depth() {
            assert(self.recorded() =~= self.recorded() + Seq::<NodeView>::empty());
            return Err(TreeError::IndexOutOfBounds);
        }
        match self.get(key) {
            Ok(node) => match node.get_value() {
                Ok(value) => Ok(value.get().clone()),
                Err(e) => Err(e),
            },
            Err(e) => Err(e),
        }
    }

    fn get_leaf(&mut self, key: &[u8]) -> (r: Result<Vec<u8>, TreeError>) {
        if key.len() != self.null_hashes.depth() {
            assert(self.recorded() =~= self.recorded() + Seq::<NodeView>::empty());
            return Err(TreeError::IndexOutOfBounds);
        }
        let last = key.len() - 1;
        proof {
            assert(key@.subrange(0, last as int) =~= key@.drop_last());
        }
        match self.get(slice_subrange(key, 0, last)) {
            Ok(node) => match node.get_child(key[last]) {
                Ok(child) => Ok(child.get_hash().clone()),
                Err(e) => Err(e),
            },
            Err(e) => Err(e),
        }
    }

    fn get_proof(&mut self, key: &[u8]) -> (r: Result<Vec<(usize, DBValue)>, TreeError>) {
        if key.len() != self.null_hashes.depth() {
            assert(self.recorded() =~= self.recorded() + Seq::<NodeView>::empty());
            return Err(TreeError::IndexOutOfBounds);
        }
        let ghost nodes = self.nodes();
        let ghost depth = self.spec_depth();
        let ghost root = self.spec_root();
        let root_digest = self.root;
        let mut proof: Vec<(usize, DBValue)> = Vec::new();
        proof.push((1, root_digest.clone()));
        let mut current_node = match self.lookup(root_digest, 0) {
            Ok(node) => node,
            Err(e) => {
                proof {
                    assert(key@.take(0) =~= Seq::<u8>::empty());
                    lemma_walk_fails_from_prefix::<H>(nodes, depth, root, root, key@, 0);
                }
                return Err(e);
            },
        };
        let mut i: usize = 0;
        proof {
            assert(key@.take(0) =~= Seq::<u8>::empty());
            assert(entries_view(proof@) =~= sibling_entries::<H>(
                nodes,
                depth,
                root,
                root,
                key@.take(0),
            ));
        }
        while i < key.len()
            invariant
                i <= key@.len(),
                key@.len() == depth,
                depth < usize::BITS,
                nodes == old(self).nodes(),
                depth == old(self).spec_depth(),
                root == old(self).spec_root(),
                self.nodes() == nodes,
                self.spec_root() == root,
                self.spec_depth() == depth,
                self.has_recorder() == old(self).has_recorder(),
                is_bit_path(key@.take(i as int)),
                walk::<H>(nodes, depth, root, key@.take(i as int)) == Ok::<NodeView, TreeError>(
                    current_node@,
                ),
                self.recorded() == log_after(
                    old(self).has_recorder(),
                    old(self).recorded(),
                    walk_recorded::<H>(nodes, depth, root, key@.take(i as int)),
                ),
                entries_view(proof@) == sibling_entries::<H>(
                    nodes,
                    depth,
                    root,
                    root,
                    key@.take(i as int),
                ),
            decreases key@.len() - i,
        {
            let ghost above = key@.take(i as int);
            let ghost path = key@.take(i + 1);
            proof {
                assert(path.drop_last() =~= above);
                assert(path.last() == key@[i as int]);
            }
            let bit = key[i];
            if bit > 1 {
                proof {
                    lemma_walk_fails_from_prefix::<H>(nodes, depth, root, root, key@, i + 1);
                }
                return Err(TreeError::NodeIndexOutOfBounds);
            }
            proof {
                assert(is_bit_path(path)) by {
                    assert forall|j: int| 0 <= j < path.len() implies #[trigger] path[j] <= 1 by {
                        if j < i {
                            assert(above[j] == path[j]);
                        }
                    }
                }
                lemma_path_index_bounds(path);
                lemma_path_index_bounds(above);
                vstd::layout::unsigned_int_max_values();
                if path.len() + 1 < usize::BITS {
                    lemma_pow2_strictly_increases(path.len() + 1, usize::BITS as nat);
                }
                assert(key@.subrange(0, i + 1) =~= path);
            }
            let index = compute_index(slice_subrange(key, 0, i + 1));
            let left_index = if index % 2 == 0 {
                index
            } else {
                index - 1
            };
            let (left, right) = match &current_node {
                Node::Inner(left, right) => (left.get_hash().clone(), right.get_hash().clone()),
                Node::Value(_) => {
                    proof {
                        lemma_walk_fails_from_prefix::<H>(nodes, depth, root, root, key@, i + 1);
                    }
                    return Err(TreeError::UnexpectedNodeType);
                },
            };
            let child = if bit == 0 {
                left.clone()
            } else {
                right.clone()
            };
            let ghost entries_before = entries_view(proof@);
            let ghost parent = current_node@;
            proof {
                lemma_log_after_twice(
                    old(self).has_recorder(),
                    old(self).recorded(),
                    walk_recorded::<H>(nodes, depth, root, above),
                    lookup_recorded::<H>(nodes, child@),
                );
            }
            current_node = match self.lookup(&child, i + 1) {
                Ok(node) => node,
                Err(e) => {
                    proof {
                        lemma_walk_fails_from_prefix::<H>(nodes, depth, root, root, key@, i + 1);
                    }
                    return Err(e);
                },
            };
            proof.push((left_index, left));
            proof.push((left_index + 1, right));
            proof {
                assert(left_index == 2 * path_index(above));
                assert(entries_view(proof@) =~= entries_before + seq![
                    (2 * path_index(above), parent->Inner_0.digest()),
                    (2 * path_index(above) + 1, parent->Inner_1.digest()),
                ]);
            }
            i += 1;
        }
        proof {
            assert(key@.take(key@.len() as int) =~= key@);
        }
        let ghost entries_before = entries_view(proof@);
        match current_node.get_value() {
            Ok(value) => {
                proof.push((0, value.get().clone()));
                proof {
                    assert(entries_view(proof@) =~= entries_before + seq![
                        (0nat, value@.bytes()),
                    ]);
                }
                Ok(proof)
            },
            Err(e) => Err(e),
        }
    }
}

} // verus!
