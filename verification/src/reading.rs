//! What reads return: the mathematical model of looking up digests and of
//! walking a key's path from the root, shared by the reader and the writer.

use crate::hasher::{null_hash, Hasher};
use crate::indices::path_index;
use crate::node::{NodeHashView, NodeView, ValueView};
use crate::{DBValue, TreeError};
use vstd::prelude::*;

verus! {

/// The nodes that a tree can reach: those staged in a writer's overlay,
/// and the encoded nodes of the store. A reader has nothing staged.
pub struct Nodes {
    pub staged: Map<Seq<u8>, NodeView>,
    pub stored: Map<Seq<u8>, Seq<u8>>,
}

impl Nodes {
    /// The nodes of a store alone.
    pub open spec fn of_store(stored: Map<Seq<u8>, Seq<u8>>) -> Nodes {
        Nodes { staged: Map::empty(), stored }
    }
}

/// The node of an empty subtree at `level`: an empty value at the leaves,
/// above them an inner node over two empty subtrees.
pub open spec fn empty_node<H: Hasher>(depth: nat, level: nat) -> NodeView {
    if level == depth {
        NodeView::Value(ValueView::Cached(Seq::empty()))
    } else {
        NodeView::Inner(
            NodeHashView::Hash(null_hash::<H>(depth, level + 1)),
            NodeHashView::Hash(null_hash::<H>(depth, level + 1)),
        )
    }
}

/// The node found under `digest` at `level`: the staged node, else the
/// decoded stored node, else the empty subtree's node where the digest is
/// that of the empty subtree of this level. Below the leaves there are no
/// empty subtrees.
pub open spec fn lookup<H: Hasher>(nodes: Nodes, depth: nat, digest: Seq<u8>, level: nat) -> Result<
    NodeView,
    TreeError,
> {
    if nodes.staged.contains_key(digest) {
        Ok(nodes.staged[digest])
    } else if nodes.stored.contains_key(digest) {
        NodeView::decode(nodes.stored[digest], H::spec_length())
    } else if level <= depth && digest == null_hash::<H>(depth, level) {
        Ok(empty_node::<H>(depth, level))
    } else {
        Err(TreeError::DataNotFound)
    }
}

/// What looking up `digest` hands to the recorder: the node, where it was
/// decoded from the store; nothing for a staged or an empty node.
pub open spec fn lookup_recorded<H: Hasher>(nodes: Nodes, digest: Seq<u8>) -> Seq<NodeView> {
    if !nodes.staged.contains_key(digest) && nodes.stored.contains_key(digest) {
        match NodeView::decode(nodes.stored[digest], H::spec_length()) {
            Ok(node) => seq![node],
            Err(_) => Seq::empty(),
        }
    } else {
        Seq::empty()
    }
}

/// The node that `path` leads to from the root: the root for the empty
/// path, else the child, on the side of the last bit, of the node that the
/// path without that bit leads to.
pub open spec fn walk<H: Hasher>(nodes: Nodes, depth: nat, root: Seq<u8>, path: Seq<u8>) -> Result<
    NodeView,
    TreeError,
>
    decreases path.len(),
{
    if path.len() == 0 {
        lookup::<H>(nodes, depth, root, 0)
    } else {
        match walk::<H>(nodes, depth, root, path.drop_last()) {
            Err(e) => Err(e),
            Ok(parent) => match parent.child(path.last()) {
                Err(e) => Err(e),
                Ok(child) => lookup::<H>(nodes, depth, child.digest(), path.len()),
            },
        }
    }
}

/// The nodes that walking `path` hands to the recorder, in order.
pub open spec fn walk_recorded<H: Hasher>(
    nodes: Nodes,
    depth: nat,
    root: Seq<u8>,
    path: Seq<u8>,
) -> Seq<NodeView>
    decreases path.len(),
{
    if path.len() == 0 {
        lookup_recorded::<H>(nodes, root)
    } else {
        let before = walk_recorded::<H>(nodes, depth, root, path.drop_last());
        match walk::<H>(nodes, depth, root, path.drop_last()) {
            Err(_) => before,
            Ok(parent) => match parent.child(path.last()) {
                Err(_) => before,
                Ok(child) => before + lookup_recorded::<H>(nodes, child.digest()),
            },
        }
    }
}

/// The value at `key`.
pub open spec fn value_at<H: Hasher>(nodes: Nodes, depth: nat, root: Seq<u8>, key: Seq<u8>) -> Result<
    Seq<u8>,
    TreeError,
> {
    if key.len() != depth {
        Err(TreeError::IndexOutOfBounds)
    } else {
        match walk::<H>(nodes, depth, root, key) {
            Err(e) => Err(e),
            Ok(node) => match node.value() {
                Err(e) => Err(e),
                Ok(value) => Ok(value.bytes()),
            },
        }
    }
}

/// The digest of the leaf at `key`: the child digest, on the side of the
/// last bit, of the last inner node on the key's path.
pub open spec fn leaf_at<H: Hasher>(nodes: Nodes, depth: nat, root: Seq<u8>, key: Seq<u8>) -> Result<
    Seq<u8>,
    TreeError,
> {
    if key.len() != depth {
        Err(TreeError::IndexOutOfBounds)
    } else {
        match walk::<H>(nodes, depth, root, key.drop_last()) {
            Err(e) => Err(e),
            Ok(node) => match node.child(key.last()) {
                Err(e) => Err(e),
                Ok(child) => Ok(child.digest()),
            },
        }
    }
}

/// The sibling pairs along `path`, after the entry for the root: for each
/// inner node on the path, from the root down, its two child digests under
/// the heap indices of the two children.
pub open spec fn sibling_entries<H: Hasher>(
    nodes: Nodes,
    depth: nat,
    root: Seq<u8>,
    root_entry: Seq<u8>,
    path: Seq<u8>,
) -> Seq<(nat, Seq<u8>)>
    decreases path.len(),
{
    if path.len() == 0 {
        seq![(1nat, root_entry)]
    } else {
        let above = path.drop_last();
        let before = sibling_entries::<H>(nodes, depth, root, root_entry, above);
        match walk::<H>(nodes, depth, root, above) {
            Ok(NodeView::Inner(left, right)) => before + seq![
                (2 * path_index(above), left.digest()),
                (2 * path_index(above) + 1, right.digest()),
            ],
            _ => before,
        }
    }
}

/// The inclusion proof for `key`: the root digest under index 1, the
/// sibling pairs from the root down, and the value under index 0.
pub open spec fn proof_at<H: Hasher>(
    nodes: Nodes,
    depth: nat,
    root: Seq<u8>,
    root_entry: Seq<u8>,
    key: Seq<u8>,
) -> Result<Seq<(nat, Seq<u8>)>, TreeError> {
    match value_at::<H>(nodes, depth, root, key) {
        Err(e) => Err(e),
        Ok(value) => Ok(
            sibling_entries::<H>(nodes, depth, root, root_entry, key) + seq![(0nat, value)],
        ),
    }
}

/// The log of a recorder after a read: the nodes that the read fetched
/// from the store are added where a recorder is attached.
pub open spec fn log_after(attached: bool, before: Seq<NodeView>, fetched: Seq<NodeView>) -> Seq<
    NodeView,
> {
    if attached {
        before + fetched
    } else {
        before
    }
}

/// Adding what two reads fetched, one after the other, is adding the two
/// joined.
pub proof fn lemma_log_after_twice(
    attached: bool,
    before: Seq<NodeView>,
    first: Seq<NodeView>,
    second: Seq<NodeView>,
)
    ensures
        log_after(attached, log_after(attached, before, first), second) == log_after(
            attached,
            before,
            first + second,
        ),
{
    assert((before + first) + second =~= before + (first + second));
}

/// The view of a result that holds bytes.
pub open spec fn bytes_result_view(r: Result<DBValue, TreeError>) -> Result<Seq<u8>, TreeError> {
    match r {
        Ok(bytes) => Ok(bytes@),
        Err(e) => Err(e),
    }
}

/// The view of a list of proof entries.
pub open spec fn entries_view(entries: Seq<(usize, DBValue)>) -> Seq<(nat, Seq<u8>)> {
    Seq::new(entries.len(), |i: int| (entries[i].0 as nat, entries[i].1@))
}

/// The view of a result that holds proof entries.
pub open spec fn proof_result_view(r: Result<Vec<(usize, DBValue)>, TreeError>) -> Result<
    Seq<(nat, Seq<u8>)>,
    TreeError,
> {
    match r {
        Ok(entries) => Ok(entries_view(entries@)),
        Err(e) => Err(e),
    }
}

/// A walk that fails on a prefix of a path fails in the same way on the
/// path, and records nothing more.
pub proof fn lemma_walk_fails_from_prefix<H: Hasher>(
    nodes: Nodes,
    depth: nat,
    root: Seq<u8>,
    root_entry: Seq<u8>,
    path: Seq<u8>,
    n: int,
)
    requires
        0 <= n <= path.len(),
        walk::<H>(nodes, depth, root, path.take(n)) is Err,
    ensures
        walk::<H>(nodes, depth, root, path) == walk::<H>(nodes, depth, root, path.take(n)),
        walk_recorded::<H>(nodes, depth, root, path) == walk_recorded::<H>(
            nodes,
            depth,
            root,
            path.take(n),
        ),
        sibling_entries::<H>(nodes, depth, root, root_entry, path) == sibling_entries::<H>(
            nodes,
            depth,
            root,
            root_entry,
            path.take(n),
        ),
    decreases path.len() - n,
{
    if n == path.len() {
        assert(path.take(n) =~= path);
    } else {
        assert(path.drop_last().take(n) =~= path.take(n));
        lemma_walk_fails_from_prefix::<H>(nodes, depth, root, root_entry, path.drop_last(), n);
    }
}

} // verus!
