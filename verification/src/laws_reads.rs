//! When two sets of nodes give the same reads: lookups that keep their
//! content keep every walk, value, leaf and inclusion proof.

use crate::hasher::Hasher;
use crate::node::NodeView;
use crate::reading::{leaf_at, lookup, proof_at, sibling_entries, value_at, walk, Nodes};
use crate::TreeError;
use vstd::prelude::*;

verus! {

/// Whether two nodes have the same content, whatever their provenance
/// marks.
pub open spec fn same_content(a: NodeView, b: NodeView) -> bool {
    a.stored() == b.stored()
}

/// Whether two results hold nodes of the same content.
pub open spec fn same_node_found(
    a: Result<NodeView, TreeError>,
    b: Result<NodeView, TreeError>,
) -> bool {
    a is Ok && b is Ok && same_content(a->Ok_0, b->Ok_0)
}

/// Whether every lookup that finds a node in `before` finds a node of the
/// same content in `after`.
pub open spec fn answers_kept<H: Hasher>(before: Nodes, after: Nodes, depth: nat) -> bool {
    forall|digest: Seq<u8>, level: nat|
        level <= depth && (#[trigger] lookup::<H>(before, depth, digest, level)) is Ok
            ==> same_node_found(
            lookup::<H>(before, depth, digest, level),
            lookup::<H>(after, depth, digest, level),
        )
}

/// Nodes of the same content have the same children, values, digests and
/// wire forms.
pub proof fn lemma_same_content<H: Hasher>(a: NodeView, b: NodeView, bit: u8)
    requires
        same_content(a, b),
    ensures
        a.child(bit) is Ok <==> b.child(bit) is Ok,
        a.child(bit) is Err ==> a.child(bit) == b.child(bit),
        a.child(bit) is Ok ==> a.child(bit)->Ok_0.digest() == b.child(bit)->Ok_0.digest(),
        a.value() is Ok <==> b.value() is Ok,
        a.value() is Err ==> a.value() == b.value(),
        a.value() is Ok ==> a.value()->Ok_0.bytes() == b.value()->Ok_0.bytes(),
        a.digest::<H>() == b.digest::<H>(),
        a.encoding() == b.encoding(),
        a is Inner <==> b is Inner,
        a is Inner ==> a->Inner_0.digest() == b->Inner_0.digest() && a->Inner_1.digest()
            == b->Inner_1.digest(),
{
}

/// Where lookups keep their content, a walk that arrives keeps arriving
/// at a node of the same content.
pub proof fn lemma_walk_kept<H: Hasher>(
    before: Nodes,
    after: Nodes,
    depth: nat,
    root: Seq<u8>,
    path: Seq<u8>,
)
    requires
        answers_kept::<H>(before, after, depth),
        path.len() <= depth,
        walk::<H>(before, depth, root, path) is Ok,
    ensures
        same_node_found(
            walk::<H>(before, depth, root, path),
            walk::<H>(after, depth, root, path),
        ),
    decreases path.len(),
{
    if path.len() > 0 {
        let above = path.drop_last();
        lemma_walk_kept::<H>(before, after, depth, root, above);
        let parent = walk::<H>(before, depth, root, above)->Ok_0;
        let parent_after = walk::<H>(after, depth, root, above)->Ok_0;
        lemma_same_content::<H>(parent, parent_after, path.last());
    }
}

/// Where lookups keep their content, the sibling pairs along a path that
/// can be walked stay the same.
pub proof fn lemma_siblings_kept<H: Hasher>(
    before: Nodes,
    after: Nodes,
    depth: nat,
    root: Seq<u8>,
    root_entry: Seq<u8>,
    path: Seq<u8>,
)
    requires
        answers_kept::<H>(before, after, depth),
        path.len() <= depth,
        walk::<H>(before, depth, root, path) is Ok,
    ensures
        sibling_entries::<H>(before, depth, root, root_entry, path) == sibling_entries::<H>(
            after,
            depth,
            root,
            root_entry,
            path,
        ),
    decreases path.len(),
{
    if path.len() > 0 {
        let above = path.drop_last();
        lemma_siblings_kept::<H>(before, after, depth, root, root_entry, above);
        lemma_walk_kept::<H>(before, after, depth, root, above);
        let parent = walk::<H>(before, depth, root, above)->Ok_0;
        let parent_after = walk::<H>(after, depth, root, above)->Ok_0;
        lemma_same_content::<H>(parent, parent_after, path.last());
    }
}

/// Where lookups keep their content, every value, leaf and inclusion proof
/// that could be read can still be read and is the same.
pub proof fn lemma_reads_kept<H: Hasher>(
    before: Nodes,
    after: Nodes,
    depth: nat,
    root: Seq<u8>,
    root_entry: Seq<u8>,
    key: Seq<u8>,
)
    requires
        answers_kept::<H>(before, after, depth),
    ensures
        value_at::<H>(before, depth, root, key) is Ok ==> value_at::<H>(after, depth, root, key)
            == value_at::<H>(before, depth, root, key),
        depth >= 1 && leaf_at::<H>(before, depth, root, key) is Ok ==> leaf_at::<H>(
            after,
            depth,
            root,
            key,
        ) == leaf_at::<H>(before, depth, root, key),
        proof_at::<H>(before, depth, root, root_entry, key) is Ok ==> proof_at::<H>(
            after,
            depth,
            root,
            root_entry,
            key,
        ) == proof_at::<H>(before, depth, root, root_entry, key),
{
    if value_at::<H>(before, depth, root, key) is Ok {
        lemma_walk_kept::<H>(before, after, depth, root, key);
        lemma_same_content::<H>(
            walk::<H>(before, depth, root, key)->Ok_0,
            walk::<H>(after, depth, root, key)->Ok_0,
            0,
        );
        lemma_siblings_kept::<H>(before, after, depth, root, root_entry, key);
    }
    if depth >= 1 && leaf_at::<H>(before, depth, root, key) is Ok {
        let above = key.drop_last();
        lemma_walk_kept::<H>(before, after, depth, root, above);
        lemma_same_content::<H>(
            walk::<H>(before, depth, root, above)->Ok_0,
            walk::<H>(after, depth, root, above)->Ok_0,
            key.last(),
        );
    }
}

} // verus!
