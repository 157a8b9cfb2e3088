//! Content addressing: every node is kept under its own digest, and no
//! two nodes of different content have the same digest.

use crate::hasher::Hasher;
use crate::laws::{lemma_empty_node_digest, lemma_encoding_of_decoded};
use crate::laws_reads::same_content;
use crate::node::NodeView;
use crate::reading::{empty_node, lookup, Nodes};
use crate::TreeError;
use vstd::prelude::*;

verus! {

/// Whether every node is kept under its own digest: each staged node is
/// well formed and staged under its digest, and each stored entry decodes
/// to a node whose digest is the entry's key.
pub open spec fn content_addressed<H: Hasher>(nodes: Nodes) -> bool {
    &&& forall|digest: Seq<u8>| #[trigger]
        nodes.staged.contains_key(digest) ==> nodes.staged[digest].digest::<H>() == digest
            && nodes.staged[digest].well_formed(H::spec_length())
    &&& forall|digest: Seq<u8>| #[trigger]
        nodes.stored.contains_key(digest) ==> NodeView::decode(
            nodes.stored[digest],
            H::spec_length(),
        ) is Ok && NodeView::decode(nodes.stored[digest], H::spec_length())->Ok_0.digest::<H>()
            == digest
}

/// Whether `node` is staged under some digest.
pub open spec fn staged_holds(nodes: Nodes, node: NodeView) -> bool {
    exists|digest: Seq<u8>| #[trigger] nodes.staged.contains_key(digest) && nodes.staged[digest] == node
}

/// Whether some stored entry decodes to `node`.
pub open spec fn stored_holds<H: Hasher>(nodes: Nodes, node: NodeView) -> bool {
    exists|digest: Seq<u8>| #[trigger]
        nodes.stored.contains_key(digest) && NodeView::decode(
            nodes.stored[digest],
            H::spec_length(),
        ) == Ok::<NodeView, TreeError>(node)
}

/// Whether `node` is the node of an empty subtree of some level.
pub open spec fn is_empty_node<H: Hasher>(depth: nat, node: NodeView) -> bool {
    exists|level: nat| level <= depth && #[trigger] empty_node::<H>(depth, level) == node
}

/// Whether `node` is among the nodes of the tree: staged, stored, or the
/// node of an empty subtree.
pub open spec fn held<H: Hasher>(nodes: Nodes, depth: nat, node: NodeView) -> bool {
    staged_holds(nodes, node) || stored_holds::<H>(nodes, node) || is_empty_node::<H>(depth, node)
}

/// Whether the two nodes have different digests or are the same content.
pub open spec fn no_clash<H: Hasher>(a: NodeView, b: NodeView) -> bool {
    a.digest::<H>() == b.digest::<H>() ==> same_content(a, b)
}

/// Whether no two nodes of different content among the nodes of the tree
/// have the same digest.
pub open spec fn collision_free<H: Hasher>(nodes: Nodes, depth: nat) -> bool {
    forall|a: NodeView, b: NodeView|
        #[trigger] held::<H>(nodes, depth, a) && #[trigger] held::<H>(nodes, depth, b)
            ==> no_clash::<H>(a, b)
}

/// Where nodes are kept under their digests, what a lookup finds under a
/// digest is a node of the tree, has that digest and is well formed.
pub proof fn lemma_lookup_finds<H: Hasher>(nodes: Nodes, depth: nat, digest: Seq<u8>, level: nat)
    requires
        content_addressed::<H>(nodes),
        level <= depth,
        lookup::<H>(nodes, depth, digest, level) is Ok,
    ensures
        lookup::<H>(nodes, depth, digest, level)->Ok_0.digest::<H>() == digest,
        lookup::<H>(nodes, depth, digest, level)->Ok_0.well_formed(H::spec_length()),
        held::<H>(nodes, depth, lookup::<H>(nodes, depth, digest, level)->Ok_0),
{
    let node = lookup::<H>(nodes, depth, digest, level)->Ok_0;
    if nodes.staged.contains_key(digest) {
        assert(staged_holds(nodes, node));
    } else if nodes.stored.contains_key(digest) {
        lemma_encoding_of_decoded(nodes.stored[digest], H::spec_length());
        assert(stored_holds::<H>(nodes, node));
    } else {
        lemma_empty_node_digest::<H>(depth, level);
        assert(is_empty_node::<H>(depth, node));
    }
}

} // verus!
