//! Laws of the tree: what holds of decoding and encoding, of empty trees,
//! and of reads after inserts and commits.

use crate::hasher::{null_hash, Hasher};
use crate::indices::is_bit_path;
use crate::node::NodeView;
use crate::reading::{empty_node, leaf_at, value_at, walk, Nodes};
use crate::TreeError;
use vstd::prelude::*;

verus! {

/// Decoding the wire form of a node gives the node back as a reader sees
/// it, with every provenance mark set to stored, provided that the child
/// digests of an inner node have the digest length.
pub proof fn lemma_decode_encoding(node: NodeView, len: nat)
    requires
        node.well_formed(len),
    ensures
        NodeView::decode(node.encoding(), len) == Ok::<NodeView, TreeError>(node.stored()),
{
    let bytes = node.encoding();
    match node {
        NodeView::Value(v) => {
            assert(bytes.subrange(1, bytes.len() as int) =~= v.bytes());
        },
        NodeView::Inner(l, r) => {
            assert(bytes.subrange(1, 1 + len as int) =~= l.digest());
            assert(bytes.subrange(1 + len as int, 1 + 2 * len as int) =~= r.digest());
        },
    }
}

/// A node whose provenance marks all say stored is what decoding its wire
/// form gives.
pub proof fn lemma_decode_encoding_of_stored(node: NodeView, len: nat)
    requires
        node.well_formed(len),
        node == node.stored(),
    ensures
        NodeView::decode(node.encoding(), len) == Ok::<NodeView, TreeError>(node),
{
    lemma_decode_encoding(node, len);
}

/// What decodes is the wire form of what it decodes to, and that is well
/// formed and marked as stored.
pub proof fn lemma_encoding_of_decoded(bytes: Seq<u8>, len: nat)
    requires
        NodeView::decode(bytes, len) is Ok,
    ensures
        NodeView::decode(bytes, len)->Ok_0.encoding() == bytes,
        NodeView::decode(bytes, len)->Ok_0.well_formed(len),
        NodeView::decode(bytes, len)->Ok_0.stored() == NodeView::decode(bytes, len)->Ok_0,
{
    let node = NodeView::decode(bytes, len)->Ok_0;
    assert(node.encoding() =~= bytes);
}

/// No prefix of the wire form of a well-formed inner node decodes, but the
/// whole of it.
pub proof fn lemma_inner_prefix_is_malformed(node: NodeView, len: nat, n: int)
    requires
        node is Inner,
        node.well_formed(len),
        0 <= n < node.encoding().len(),
    ensures
        NodeView::decode(node.encoding().take(n), len) is Err,
{
}

/// The digest of the node of an empty subtree is the digest of the empty
/// subtree of its level.
pub proof fn lemma_empty_node_digest<H: Hasher>(depth: nat, level: nat)
    requires
        level <= depth,
    ensures
        empty_node::<H>(depth, level).digest::<H>() == null_hash::<H>(depth, level),
        empty_node::<H>(depth, level).well_formed(H::spec_length()),
        empty_node::<H>(depth, level).stored() == empty_node::<H>(depth, level),
{
    if level < depth {
        H::lemma_digest_length(
            null_hash::<H>(depth, level + 2) + null_hash::<H>(depth, level + 2),
        );
        H::lemma_digest_length(Seq::empty());
    }
}

/// In a tree over an empty store whose root is the digest of the empty
/// tree, the path of any key of bits leads through empty subtrees.
pub proof fn lemma_empty_tree_walk<H: Hasher>(depth: nat, path: Seq<u8>)
    requires
        path.len() <= depth,
        is_bit_path(path),
    ensures
        walk::<H>(Nodes::of_store(Map::empty()), depth, null_hash::<H>(depth, 0), path) == Ok::<
            NodeView,
            TreeError,
        >(empty_node::<H>(depth, path.len())),
    decreases path.len(),
{
    if path.len() > 0 {
        let above = path.drop_last();
        assert(is_bit_path(above)) by {
            assert forall|i: int| 0 <= i < above.len() implies #[trigger] above[i] <= 1 by {
                assert(above[i] == path[i]);
            }
        }
        lemma_empty_tree_walk::<H>(depth, above);
        assert(path.last() == path[path.len() - 1]);
    }
}

/// In a tree over an empty store whose root is the digest of the empty
/// tree, every key of bits of the tree's length has the empty value, and
/// its leaf is the digest of the empty value.
pub proof fn lemma_empty_tree_reads_empty<H: Hasher>(depth: nat, key: Seq<u8>)
    requires
        key.len() == depth,
        is_bit_path(key),
    ensures
        value_at::<H>(Nodes::of_store(Map::empty()), depth, null_hash::<H>(depth, 0), key) == Ok::<
            Seq<u8>,
            TreeError,
        >(Seq::empty()),
        depth >= 1 ==> leaf_at::<H>(
            Nodes::of_store(Map::empty()),
            depth,
            null_hash::<H>(depth, 0),
            key,
        ) == Ok::<Seq<u8>, TreeError>(H::spec_hash(Seq::empty())),
{
    lemma_empty_tree_walk::<H>(depth, key);
    if depth >= 1 {
        let above = key.drop_last();
        assert(is_bit_path(above)) by {
            assert forall|i: int| 0 <= i < above.len() implies #[trigger] above[i] <= 1 by {
                assert(above[i] == key[i]);
            }
        }
        lemma_empty_tree_walk::<H>(depth, above);
        assert(key.last() == key[key.len() - 1]);
    }
}

} // verus!
