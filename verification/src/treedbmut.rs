//! The writer: reads through an overlay of staged nodes, inserts that
//! rewrite a key's path into the overlay, and commits that move the staged
//! nodes to the store.

use crate::digest_map::{bytes_eq, DigestMap};
use crate::hasher::{Hasher, NullHashes};
use crate::indices::{compute_index, is_bit_path, lemma_path_index_bounds, path_index};
use crate::laws_commit::lemma_commit_keeps_content_addressed;
use crate::laws_content::content_addressed;
use crate::laws_insert::lemma_insert_keeps_content_addressed;
use crate::node::{node_result_view, Node, NodeHash, NodeHashView, NodeView, Value};
use crate::reading::{
    entries_view, lemma_log_after_twice, lemma_walk_fails_from_prefix, log_after, lookup,
    lookup_recorded, sibling_entries, walk, walk_recorded, Nodes,
};
use crate::recorder::{Recorder, TreeRecorder};
use crate::store::{spec_emplace, NodeStore};
use crate::tree::TreeMut;
use crate::writing::{drained, drained_node, lemma_drained_concat, moved, WriterState};
use crate::{DBValue, TreeError};
use core::marker::PhantomData;
use vstd::arithmetic::power2::lemma_pow2_strictly_increases;
use vstd::prelude::*;
use vstd::slice::slice_subrange;

verus! {

/// Collects what a writer is made of: the store, the root, the depth and
/// an optional recorder.
pub struct TreeDBMutBuilder<H: Hasher, R: TreeRecorder = Recorder> {
    db: NodeStore,
    root: Vec<u8>,
    depth: usize,
    recorder: Option<R>,
    hasher: PhantomData<H>,
}

impl<H: Hasher> TreeDBMutBuilder<H, Recorder> {
    /// A builder for a writer of the tree of the given depth with the
    /// given root in `db`, without a recorder.
    pub fn new(db: NodeStore, root: Vec<u8>, depth: usize) -> (builder: Self)
        ensures
            builder.store() == db@,
            builder.spec_root() == root@,
            builder.spec_depth() == depth,
            !builder.has_recorder(),
    {
        Self { db, root, depth, recorder: None, hasher: PhantomData }
    }
}

impl<H: Hasher, R: TreeRecorder> TreeDBMutBuilder<H, R> {
    /// The content of the store.
    pub closed spec fn store(&self) -> Map<Seq<u8>, Seq<u8>> {
        self.db@
    }

    /// The digest of the root.
    pub closed spec fn spec_root(&self) -> Seq<u8> {
        self.root@
    }

    /// The number of levels below the root.
    pub closed spec fn spec_depth(&self) -> nat {
        self.depth as nat
    }

    /// Whether a recorder is attached.
    pub closed spec fn has_recorder(&self) -> bool {
        self.recorder is Some
    }

    /// What the attached recorder holds.
    pub closed spec fn recorded(&self) -> Seq<NodeView> {
        match self.recorder {
            Some(recorder) => recorder.recorded(),
            None => Seq::empty(),
        }
    }

    /// Attach a recorder, in place of the one attached before.
    pub fn with_recorder<R2: TreeRecorder>(self, recorder: R2) -> (builder: TreeDBMutBuilder<H, R2>)
        ensures
            builder.store() == self.store(),
            builder.spec_root() == self.spec_root(),
            builder.spec_depth() == self.spec_depth(),
            builder.has_recorder(),
            builder.recorded() == recorder.recorded(),
    {
        TreeDBMutBuilder {
            db: self.db,
            root: self.root,
            depth: self.depth,
            recorder: Some(recorder),
            hasher: PhantomData,
        }
    }

    /// Attach a recorder if there is one, in place of the one attached
    /// before.
    pub fn with_optional_recorder<R2: TreeRecorder>(self, recorder: Option<R2>) -> (builder:
        TreeDBMutBuilder<H, R2>)
        ensures
            builder.store() == self.store(),
            builder.spec_root() == self.spec_root(),
            builder.spec_depth() == self.spec_depth(),
            builder.has_recorder() == recorder.is_some(),
            builder.recorded() == match recorder {
                Some(recorder) => recorder.recorded(),
                None => Seq::empty(),
            },
    {
        TreeDBMutBuilder {
            db: self.db,
            root: self.root,
            depth: self.depth,
            recorder,
            hasher: PhantomData,
        }
    }

    /// The writer, with nothing staged, the given root as its stored
    /// current root, and the digests of the empty subtrees computed.
    pub fn build(self) -> (tree: TreeDBMut<H, R>)
        requires
            self.spec_depth() < usize::MAX,
        ensures
            tree.state() == (WriterState {
                nodes: Nodes::of_store(self.store()),
                root: self.spec_root(),
                handle: NodeHashView::Hash(self.spec_root()),
                depth: self.spec_depth(),
            }),
            tree.has_recorder() == self.has_recorder(),
            tree.recorded() == self.recorded(),
    {
        let root_handle = NodeHash::Hash(self.root.clone());
        TreeDBMut {
            db: self.db,
            storage: DigestMap::new(),
            root: self.root,
            root_handle,
            recorder: self.recorder,
            null_hashes: NullHashes::new(self.depth),
        }
    }
}

/// A `TreeMut` implementation using a `NodeStore` backing database.
///
/// You can use `db()` to get the backing database object. Changes are not
/// committed until `commit()` is called; querying the root commits them.
pub struct TreeDBMut<H: Hasher, R: TreeRecorder = Recorder> {
    db: NodeStore,
    storage: DigestMap<Node>,
    root: Vec<u8>,
    root_handle: NodeHash,
    recorder: Option<R>,
    null_hashes: NullHashes<H>,
}

impl<H: Hasher, R: TreeRecorder> TreeDBMut<H, R> {
    /// How many nodes are staged.
    pub closed spec fn staged_count(&self) -> nat {
        self.storage.count()
    }

    /// The overlay holds finitely many nodes.
    pub proof fn lemma_staged_finite(&self)
        ensures
            self.state().nodes.staged.dom().finite(),
    {
        self.storage.lemma_finite();
    }

    /// Get the backing database.
    pub fn db(&self) -> (db: &NodeStore)
        ensures
            db@ == self.state().nodes.stored,
    {
        &self.db
    }

    /// Get the backing database for changes from outside the tree.
    pub fn db_mut(&mut self) -> (db: &mut NodeStore)
        ensures
            db@ == old(self).state().nodes.stored,
            final(self).state() == (WriterState {
                nodes: Nodes { staged: old(self).state().nodes.staged, stored: final(db)@ },
                ..old(self).state()
            }),
            final(self).has_recorder() == old(self).has_recorder(),
            final(self).recorded() == old(self).recorded(),
    {
        &mut self.db
    }

    /// Give the store, the root as of the last commit and the attached
    /// recorder back. What is staged is dropped.
    pub fn into_parts(self) -> (parts: (NodeStore, Vec<u8>, Option<R>))
        ensures
            parts.0@ == self.state().nodes.stored,
            parts.1@ == self.state().root,
            parts.2.is_some() == self.has_recorder(),
            match parts.2 {
                Some(recorder) => recorder.recorded() == self.recorded(),
                None => true,
            },
    {
        (self.db, self.root, self.recorder)
    }

    fn record(&mut self, node: &Node)
        ensures
            final(self).state() == old(self).state(),
            final(self).staged_count() == old(self).staged_count(),
            final(self).has_recorder() == old(self).has_recorder(),
            final(self).recorded() == log_after(
                old(self).has_recorder(),
                old(self).recorded(),
                seq![node@],
            ),
    {
        match &mut self.recorder {
            Some(recorder) => {
                recorder.record(node.clone());
            },
            None => {},
        }
        assert(self.has_recorder() ==> self.recorded() =~= old(self).recorded() + seq![node@]);
    }

    /// Stage `node` under `digest`.
    fn stage(&mut self, digest: Vec<u8>, node: Node)
        ensures
            final(self).state() == old(self).state().with_staged(
                old(self).state().nodes.staged.insert(digest@, node@),
            ),
            final(self).has_recorder() == old(self).has_recorder(),
            final(self).recorded() == old(self).recorded(),
    {
        self.storage.insert(digest, node);
    }

    /// Take the node staged under `digest` out of the overlay.
    fn unstage(&mut self, digest: &Vec<u8>) -> (r: Option<Node>)
        ensures
            match r {
                Some(node) => {
                    &&& old(self).state().nodes.staged.contains_key(digest@)
                    &&& old(self).state().nodes.staged[digest@] == node@
                    &&& final(self).staged_count() + 1 == old(self).staged_count()
                },
                None => {
                    &&& !old(self).state().nodes.staged.contains_key(digest@)
                    &&& final(self).staged_count() == old(self).staged_count()
                },
            },
            final(self).state() == old(self).state().with_staged(
                old(self).state().nodes.staged.remove(digest@),
            ),
            final(self).has_recorder() == old(self).has_recorder(),
            final(self).recorded() == old(self).recorded(),
    {
        let r = self.storage.remove(digest.as_slice());
        proof {
            if r.is_none() {
                assert(self.storage@.remove(digest@) =~= self.storage@);
            }
        }
        r
    }

    /// Offer `bytes` to the store under `digest`.
    fn emplace(&mut self, digest: Vec<u8>, bytes: DBValue)
        ensures
            final(self).state() == (WriterState {
                nodes: Nodes {
                    staged: old(self).state().nodes.staged,
                    stored: spec_emplace(old(self).state().nodes.stored, digest@, bytes@),
                },
                ..old(self).state()
            }),
            final(self).staged_count() == old(self).staged_count(),
            final(self).has_recorder() == old(self).has_recorder(),
            final(self).recorded() == old(self).recorded(),
    {
        self.db.emplace(digest, bytes);
    }

    /// The node under digest `key` at level `depth`: the staged node, else
    /// the decoded stored node, which is handed to the recorder, else the
    /// node of the empty subtree where the digest is that of the empty
    /// subtree of the level.
    pub fn lookup(&mut self, key: &Vec<u8>, depth: usize) -> (r: Result<Node, TreeError>)
        ensures
            node_result_view(r) == lookup::<H>(
                old(self).state().nodes,
                old(self).state().depth,
                key@,
                depth as nat,
            ),
            final(self).state() == old(self).state(),
            final(self).has_recorder() == old(self).has_recorder(),
            final(self).recorded() == log_after(
                old(self).has_recorder(),
                old(self).recorded(),
                lookup_recorded::<H>(old(self).state().nodes, key@),
            ),
    {
        proof {
            assert(self.recorded() =~= self.recorded() + Seq::<NodeView>::empty());
        }
        match self.storage.get(key.as_slice()) {
            Some(node) => {
                return Ok(node.clone());
            },
            None => {},
        }
        let data = match self.db.get(key.as_slice()) {
            Some(value) => value,
            None => {
                if depth > self.null_hashes.depth() {
                    return Err(TreeError::DataNotFound);
                } else if depth == self.null_hashes.depth() && bytes_eq(
                    key.as_slice(),
                    self.null_hashes.get(depth).as_slice(),
                ) {
                    return Ok(Node::Value(Value::Cached(Vec::new())));
                } else if bytes_eq(key.as_slice(), self.null_hashes.get(depth).as_slice()) {
                    let null_hash = self.null_hashes.get(depth + 1);
                    return Ok(
                        Node::Inner(
                            NodeHash::Hash(null_hash.clone()),
                            NodeHash::Hash(null_hash.clone()),
                        ),
                    );
                } else {
                    return Err(TreeError::DataNotFound);
                }
            },
        };
        match Node::decode::<H>(data) {
            Ok(node) => {
                self.record(&node);
                Ok(node)
            },
            Err(e) => Err(e),
        }
    }

    /// The node that the path `key` leads to from the current root.
    pub fn get(&mut self, key: &[u8]) -> (r: Result<Node, TreeError>)
        ensures
            node_result_view(r) == walk::<H>(
                old(self).state().nodes,
                old(self).state().depth,
                old(self).state().handle.digest(),
                key@,
            ),
            final(self).state() == old(self).state(),
            final(self).has_recorder() == old(self).has_recorder(),
            final(self).recorded() == log_after(
                old(self).has_recorder(),
                old(self).recorded(),
                walk_recorded::<H>(
                    old(self).state().nodes,
                    old(self).state().depth,
                    old(self).state().handle.digest(),
                    key@,
                ),
            ),
    {
        let ghost nodes = self.state().nodes;
        let ghost depth = self.state().depth;
        let ghost root = self.state().handle.digest();
        let root_digest = self.root_handle.get_hash().clone();
        let mut current_node = match self.lookup(&root_digest, 0) {
            Ok(node) => node,
            Err(e) => {
                proof {
                    assert(key@.take(0) =~= Seq::<u8>::empty());
                    lemma_walk_fails_from_prefix::<H>(nodes, depth, root, root, key@, 0);
                }
                return Err(e);
            },
        };
        let mut i: usize = 0;
        assert(key@.take(0) =~= Seq::<u8>::empty());
        while i < key.len()
            invariant
                i <= key@.len(),
                nodes == old(self).state().nodes,
                depth == old(self).state().depth,
                root == old(self).state().handle.digest(),
                self.state() == old(self).state(),
                self.has_recorder() == old(self).has_recorder(),
                walk::<H>(nodes, depth, root, key@.take(i as int)) == Ok::<NodeView, TreeError>(
                    current_node@,
                ),
                self.recorded() == log_after(
                    old(self).has_recorder(),
                    old(self).recorded(),
                    walk_recorded::<H>(nodes, depth, root, key@.take(i as int)),
                ),
            decreases key@.len() - i,
        {
            proof {
                assert(key@.take(i + 1).drop_last() =~= key@.take(i as int));
                assert(key@.take(i + 1).last() == key@[i as int]);
            }
            let child = match current_node.get_child(key[i]) {
                Ok(child) => child.get_hash().clone(),
                Err(e) => {
                    proof {
                        lemma_walk_fails_from_prefix::<H>(nodes, depth, root, root, key@, i + 1);
                    }
                    return Err(e);
                },
            };
            proof {
                lemma_log_after_twice(
                    old(self).has_recorder(),
                    old(self).recorded(),
                    walk_recorded::<H>(nodes, depth, root, key@.take(i as int)),
                    lookup_recorded::<H>(nodes, child@),
                );
            }
            current_node = match self.lookup(&child, i + 1) {
                Ok(node) => node,
                Err(e) => {
                    proof {
                        lemma_walk_fails_from_prefix::<H>(nodes, depth, root, root, key@, i + 1);
                    }
                    return Err(e);
                },
            };
            i += 1;
        }
        proof {
            assert(key@.take(key@.len() as int) =~= key@);
        }
        Ok(current_node)
    }

    /// Rewrite the path of `key` from `level` down: on success
    /// `current_node`, the node of `level`, is its rewritten form, the
    /// rewritten nodes below it are staged, and the node that was at the
    /// leaf is returned. On failure nothing is staged.
    fn insert_at(
        &mut self,
        current_node: &mut Node,
        key: &[u8],
        level: usize,
        value: DBValue,
        Ghost(start): Ghost<WriterState>,
        Ghost(log): Ghost<Seq<NodeView>>,
    ) -> (r: Result<Node, TreeError>)
        requires
            level < key@.len(),
            key@.len() == start.depth,
            old(self).state() == start,
            walk::<H>(start.nodes, start.depth, start.handle.digest(), key@.take(level as int))
                == Ok::<NodeView, TreeError>(old(current_node)@),
            old(self).recorded() == log_after(
                old(self).has_recorder(),
                log,
                walk_recorded::<H>(
                    start.nodes,
                    start.depth,
                    start.handle.digest(),
                    key@.take(level as int),
                ),
            ),
        ensures
            final(self).has_recorder() == old(self).has_recorder(),
            final(self).recorded() == log_after(
                old(self).has_recorder(),
                log,
                walk_recorded::<H>(start.nodes, start.depth, start.handle.digest(), key@),
            ),
            match r {
                Ok(leaf) => walk::<H>(start.nodes, start.depth, start.handle.digest(), key@)
                    == Ok::<NodeView, TreeError>(leaf@) && final(current_node)@
                    == start.rewritten::<H>(key@, value@, level as nat) && final(self).state()
                    == start.with_staged(start.staged_from::<H>(key@, value@, (level + 1) as nat)),
                Err(e) => walk::<H>(start.nodes, start.depth, start.handle.digest(), key@)
                    == Err::<NodeView, TreeError>(e) && final(self).state() == start,
            },
        decreases key@.len() - level,
    {
        let ghost nodes = start.nodes;
        let ghost depth = start.depth;
        let ghost root = start.handle.digest();
        let ghost above = key@.take(level as int);
        let ghost path = key@.take(level + 1);
        proof {
            assert(path.drop_last() =~= above);
            assert(path.last() == key@[level as int]);
        }
        let bit = key[level];
        let child_key = match current_node.get_child(bit) {
            Ok(child) => child.get_hash().clone(),
            Err(e) => {
                proof {
                    lemma_walk_fails_from_prefix::<H>(nodes, depth, root, root, key@, level + 1);
                }
                return Err(e);
            },
        };
        proof {
            lemma_log_after_twice(
                old(self).has_recorder(),
                log,
                walk_recorded::<H>(nodes, depth, root, above),
                lookup_recorded::<H>(nodes, child_key@),
            );
        }
        let mut child_node = match self.lookup(&child_key, level + 1) {
            Ok(node) => node,
            Err(e) => {
                proof {
                    lemma_walk_fails_from_prefix::<H>(nodes, depth, root, root, key@, level + 1);
                }
                return Err(e);
            },
        };
        if key.len() - level == 1 {
            proof {
                assert(path =~= key@);
            }
            let old_value = child_node;
            let new_node = Node::Value(Value::New(value));
            let new_hash = new_node.hash::<H>();
            let _ = current_node.set_child_hash(bit, NodeHash::InMemory(new_hash.clone()));
            self.stage(new_hash, new_node);
            Ok(old_value)
        } else {
            let old_value = match self.insert_at(
                &mut child_node,
                key,
                level + 1,
                value,
                Ghost(start),
                Ghost(log),
            ) {
                Ok(leaf) => leaf,
                Err(e) => {
                    return Err(e);
                },
            };
            let child_hash = child_node.hash::<H>();
            let _ = current_node.set_child_hash(bit, NodeHash::InMemory(child_hash.clone()));
            self.stage(child_hash, child_node);
            Ok(old_value)
        }
    }

    /// Move the staged node that `hash` refers to, and the staged nodes
    /// below it, to the store.
    fn commit_hash(&mut self, hash: NodeHash)
        ensures
            final(self).state() == (WriterState {
                nodes: drained(old(self).state().nodes, seq![hash@]),
                ..old(self).state()
            }),
            final(self).staged_count() <= old(self).staged_count(),
            final(self).has_recorder() == old(self).has_recorder(),
            final(self).recorded() == old(self).recorded(),
        decreases old(self).staged_count(), 0int,
    {
        let ghost nodes = self.state().nodes;
        proof {
            self.storage.lemma_finite();
            assert(seq![hash@].drop_first() =~= Seq::<NodeHashView>::empty());
            assert(seq![hash@].first() == hash@);
            assert(drained(nodes, Seq::empty()) == nodes);
        }
        match hash {
            NodeHash::Hash(_) => (),
            NodeHash::InMemory(hash) => match self.unstage(&hash) {
                Some(node) => {
                    let encoded_node: Vec<u8> = node.encode();
                    self.emplace(hash, encoded_node);
                    proof {
                        assert(self.state().nodes == moved(nodes, hash@));
                        assert(drained(moved(nodes, hash@), Seq::empty()) == moved(nodes, hash@));
                    }
                    if let Node::Inner(_, _) = &node {
                        proof {
                            assert(seq![node@->Inner_0, node@->Inner_1] + Seq::<
                                NodeHashView,
                            >::empty() =~= seq![node@->Inner_0, node@->Inner_1]);
                        }
                        self.commit_child(node)
                    }
                },
                None => {
                    assert(self.state().nodes.staged =~= nodes.staged);
                },
            },
        }
    }

    /// Move the staged nodes below `node` to the store; for a value
    /// written in this session, store its encoding under its digest.
    fn commit_child(&mut self, node: Node)
        ensures
            final(self).state() == (WriterState {
                nodes: drained_node::<H>(old(self).state().nodes, node@),
                ..old(self).state()
            }),
            final(self).staged_count() <= old(self).staged_count(),
            final(self).has_recorder() == old(self).has_recorder(),
            final(self).recorded() == old(self).recorded(),
        decreases old(self).staged_count(), 1int,
    {
        let ghost nodes = self.state().nodes;
        match node {
            Node::Inner(left, right) => {
                proof {
                    self.storage.lemma_finite();
                    lemma_drained_concat(nodes, seq![left@], seq![right@]);
                    assert(seq![left@] + seq![right@] =~= seq![left@, right@]);
                }
                self.commit_hash(left);
                self.commit_hash(right);
            },
            Node::Value(value) => match value {
                Value::Cached(_) => (),
                Value::New(mut value) => {
                    let hash = H::hash(value.as_slice());
                    let mut encoded_node: Vec<u8> = Vec::new();
                    encoded_node.push(0);
                    encoded_node.append(&mut value);
                    assert(encoded_node@ =~= node@.encoding());
                    self.emplace(hash, encoded_node);
                },
            },
        }
    }

    /// Move the staged nodes that can be reached from the current root to
    /// the store, and make that root the stored root that is held for the
    /// outside. Does nothing where the current root is stored already.
    pub fn commit(&mut self)
        ensures
            final(self).state() == old(self).state().committed::<H>(),
            content_addressed::<H>(old(self).state().nodes) ==> content_addressed::<H>(
                final(self).state().nodes,
            ),
            final(self).has_recorder() == old(self).has_recorder(),
            final(self).recorded() == old(self).recorded(),
    {
        proof {
            self.storage.lemma_finite();
            if content_addressed::<H>(self.state().nodes) {
                lemma_commit_keeps_content_addressed::<H>(self.state());
            }
        }
        let root_hash = match &self.root_handle {
            NodeHash::Hash(_) => {
                return ;
            },
            NodeHash::InMemory(h) => h.clone(),
        };
        match self.unstage(&root_hash) {
            Some(node) => {
                let encoded_node: Vec<u8> = node.encode();
                self.emplace(root_hash.clone(), encoded_node);
                self.commit_child(node);
                self.root = root_hash.clone();
                self.root_handle = NodeHash::Hash(root_hash);
            },
            None => {
                assert(self.state().nodes.staged =~= old(self).state().nodes.staged);
                return ;
            },
        }
    }
}

impl<H: Hasher, R: TreeRecorder> TreeMut<H> for TreeDBMut<H, R> {
    closed spec fn state(&self) -> WriterState {
        WriterState {
            nodes: Nodes { staged: self.storage@, stored: self.db@ },
            root: self.root@,
            handle: self.root_handle@,
            depth: self.null_hashes.spec_depth(),
        }
    }

    closed spec fn has_recorder(&self) -> bool {
        self.recorder is Some
    }

    closed spec fn recorded(&self) -> Seq<NodeView> {
        match self.recorder {
            Some(recorder) => recorder.recorded(),
            None => Seq::empty(),
        }
    }

    fn root(&mut self) -> (root: &Vec<u8>)
        ensures
            content_addressed::<H>(old(self).state().nodes) ==> content_addressed::<H>(
                final(self).state().nodes,
            ),
    {
        self.commit();
        &self.root
    }

    fn depth(&self) -> (depth: usize) {
        self.null_hashes.depth()
    }

    fn get_value(&mut self, key: &[u8]) -> (r: Result<DBValue, TreeError>) {
        if key.len() != self.null_hashes.depth() {
            assert(self.recorded() =~= self.recorded() + Seq::<NodeView>::empty());
            return Err(TreeError::IndexOutOfBounds);
        }
        match self.get(key) {
            Ok(node) => match node.get_value() {
                Ok(value) => Ok(value.get().clone()),
                Err(e) => Err(e),
            },
            Err(e) => Err(e),
        }
    }

    fn get_leaf(&mut self, key: &[u8]) -> (r: Result<Vec<u8>, TreeError>) {
        if key.len() != self.null_hashes.depth() {
            assert(self.recorded() =~= self.recorded() + Seq::<NodeView>::empty());
            return Err(TreeError::IndexOutOfBounds);
        }
        let last = key.len() - 1;
        proof {
            assert(key@.subrange(0, last as int) =~= key@.drop_last());
        }
        match self.get(slice_subrange(key, 0, last)) {
            Ok(node) => match node.get_child(key[last]) {
                Ok(child) => Ok(child.get_hash().clone()),
                Err(e) => Err(e),
            },
            Err(e) => Err(e),
        }
    }

    fn get_proof(&mut self, key: &[u8]) -> (r: Result<Vec<(usize, DBValue)>, TreeError>) {
        if key.len() != self.null_hashes.depth() {
            assert(self.recorded() =~= self.recorded() + Seq::<NodeView>::empty());
            return Err(TreeError::IndexOutOfBounds);
        }
        let ghost nodes = self.state().nodes;
        let ghost depth = self.state().depth;
        let ghost root = self.state().handle.digest();
        let ghost held = self.state().root;
        let root_digest = self.root_handle.get_hash().clone();
        let mut proof: Vec<(usize, DBValue)> = Vec::new();
        proof.push((1, self.root.clone()));
        let mut current_node = match self.lookup(&root_digest, 0) {
            Ok(node) => node,
            Err(e) => {
                proof {
                    assert(key@.take(0) =~= Seq::<u8>::empty());
                    lemma_walk_fails_from_prefix::<H>(nodes, depth, root, held, key@, 0);
                }
                return Err(e);
            },
        };
        let mut i: usize = 0;
        proof {
            assert(key@.take(0) =~= Seq::<u8>::empty());
            assert(entries_view(proof@) =~= sibling_entries::<H>(
                nodes,
                depth,
                root,
                held,
                key@.take(0),
            ));
        }
        while i < key.len()
            invariant
                i <= key@.len(),
                key@.len() == depth,
                depth < usize::BITS,
                nodes == old(self).state().nodes,
                depth == old(self).state().depth,
                root == old(self).state().handle.digest(),
                held == old(self).state().root,
                self.state() == old(self).state(),
                self.has_recorder() == old(self).has_recorder(),
                is_bit_path(key@.take(i as int)),
                walk::<H>(nodes, depth, root, key@.take(i as int)) == Ok::<NodeView, TreeError>(
                    current_node@,
                ),
                self.recorded() == log_after(
                    old(self).has_recorder(),
                    old(self).recorded(),
                    walk_recorded::<H>(nodes, depth, root, key@.take(i as int)),
                ),
                entries_view(proof@) == sibling_entries::<H>(
                    nodes,
                    depth,
                    root,
                    held,
                    key@.take(i as int),
                ),
            decreases key@.len() - i,
        {
            let ghost above = key@.take(i as int);
            let ghost path = key@.take(i + 1);
            proof {
                assert(path.drop_last() =~= above);
                assert(path.last() == key@[i as int]);
            }
            let bit = key[i];
            if bit > 1 {
                proof {
                    lemma_walk_fails_from_prefix::<H>(nodes, depth, root, held, key@, i + 1);
                }
                return Err(TreeError::NodeIndexOutOfBounds);
            }
            proof {
                assert(is_bit_path(path)) by {
                    assert forall|j: int| 0 <= j < path.len() implies #[trigger] path[j] <= 1 by {
                        if j < i {
                            assert(above[j] == path[j]);
                        }
                    }
                }
                lemma_path_index_bounds(path);
                lemma_path_index_bounds(above);
                vstd::layout::unsigned_int_max_values();
                if path.len() + 1 < usize::BITS {
                    lemma_pow2_strictly_increases(path.len() + 1, usize::BITS as nat);
                }
                assert(key@.subrange(0, i + 1) =~= path);
            }
            let index = compute_index(slice_subrange(key, 0, i + 1));
            let left_index = if index % 2 == 0 {
                index
            } else {
                index - 1
            };
            let (left, right) = match &current_node {
                Node::Inner(left, right) => (left.get_hash().clone(), right.get_hash().clone()),
                Node::Value(_) => {
                    proof {
                        lemma_walk_fails_from_prefix::<H>(nodes, depth, root, held, key@, i + 1);
                    }
                    return Err(TreeError::UnexpectedNodeType);
                },
            };
            let child = if bit == 0 {
                left.clone()
            } else {
                right.clone()
            };
            let ghost entries_before = entries_view(proof@);
            let ghost parent = current_node@;
            proof {
                lemma_log_after_twice(
                    old(self).has_recorder(),
                    old(self).recorded(),
                    walk_recorded::<H>(nodes, depth, root, above),
                    lookup_recorded::<H>(nodes, child@),
                );
            }
            current_node = match self.lookup(&child, i + 1) {
                Ok(node) => node,
                Err(e) => {
                    proof {
                        lemma_walk_fails_from_prefix::<H>(nodes, depth, root, held, key@, i + 1);
                    }
                    return Err(e);
                },
            };
            proof.push((left_index, left));
            proof.push((left_index + 1, right));
            proof {
                assert(left_index == 2 * path_index(above));
                assert(entries_view(proof@) =~= entries_before + seq![
                    (2 * path_index(above), parent->Inner_0.digest()),
                    (2 * path_index(above) + 1, parent->Inner_1.digest()),
                ]);
            }
            i += 1;
        }
        proof {
            assert(key@.take(key@.len() as int) =~= key@);
        }
        let ghost entries_before = entries_view(proof@);
        match current_node.get_value() {
            Ok(value) => {
                proof.push((0, value.get().clone()));
                proof {
                    assert(entries_view(proof@) =~= entries_before + seq![
                        (0nat, value@.bytes()),
                    ]);
                }
                Ok(proof)
            },
            Err(e) => Err(e),
        }
    }

    fn insert(&mut self, key: &[u8], value: DBValue) -> (r: Result<DBValue, TreeError>)
        ensures
            content_addressed::<H>(old(self).state().nodes) ==> content_addressed::<H>(
                final(self).state().nodes,
            ),
    {
        proof {
            if content_addressed::<H>(self.state().nodes) {
                lemma_insert_keeps_content_addressed::<H>(self.state(), key@, value@);
            }
        }
        if key.len() != self.null_hashes.depth() {
            assert(self.recorded() =~= self.recorded() + Seq::<NodeView>::empty());
            return Err(TreeError::IndexOutOfBounds);
        }
        let ghost start = self.state();
        let ghost log = self.recorded();
        let ghost entry = start.handle.digest();
        let root_digest = self.root_handle.get_hash().clone();
        let mut root_data = match self.lookup(&root_digest, 0) {
            Ok(node) => node,
            Err(e) => {
                proof {
                    assert(key@.take(0) =~= Seq::<u8>::empty());
                    lemma_walk_fails_from_prefix::<H>(
                        start.nodes,
                        start.depth,
                        entry,
                        entry,
                        key@,
                        0,
                    );
                }
                return Err(e);
            },
        };
        proof {
            assert(key@.take(0) =~= Seq::<u8>::empty());
        }
        let old_value = match self.insert_at(
            &mut root_data,
            key,
            0,
            value,
            Ghost(start),
            Ghost(log),
        ) {
            Ok(leaf) => leaf,
            Err(e) => {
                return Err(e);
            },
        };
        let root_hash = root_data.hash::<H>();
        self.stage(root_hash.clone(), root_data.clone());
        self.root_handle = NodeHash::InMemory(root_hash);
        match old_value.get_value() {
            Ok(value) => Ok(value.get().clone()),
            Err(e) => Err(e),
        }
    }
}

} // verus!
