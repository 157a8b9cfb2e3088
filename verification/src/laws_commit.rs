//! Laws of commits: moving staged nodes to the store keeps nodes under
//! their digests and keeps every read.

use crate::hasher::Hasher;
use crate::laws::{lemma_decode_encoding, lemma_empty_node_digest};
use crate::laws_content::{
    collision_free, content_addressed, held, is_empty_node, no_clash, staged_holds, stored_holds,
};
use crate::laws_insert::{
    insert_is_sound, lemma_insert_keeps_finite, lemma_insert_keeps_other_values,
    lemma_insert_keeps_sound, lemma_insert_then_get, lemma_staged_from, rewritten_under,
};
use crate::laws_reads::{
    answers_kept, lemma_reads_kept, lemma_same_content, same_content, same_node_found,
};
use crate::node::{NodeHashView, NodeView, ValueView};
use crate::reading::{empty_node, leaf_at, lookup, proof_at, value_at, Nodes};
use crate::store::spec_emplace;
use crate::writing::{drained, drained_node, moved, WriterState};
use crate::TreeError;
use vstd::prelude::*;

verus! {

/// Keeping answers carries over two steps.
pub proof fn lemma_answers_kept_transitive<H: Hasher>(
    first: Nodes,
    second: Nodes,
    third: Nodes,
    depth: nat,
)
    requires
        answers_kept::<H>(first, second, depth),
        answers_kept::<H>(second, third, depth),
    ensures
        answers_kept::<H>(first, third, depth),
{
    assert forall|digest: Seq<u8>, level: nat|
        level <= depth && (#[trigger] lookup::<H>(first, depth, digest, level)) is Ok implies same_node_found(
        lookup::<H>(first, depth, digest, level),
        lookup::<H>(third, depth, digest, level),
    ) by {
        assert(lookup::<H>(second, depth, digest, level) is Ok);
    }
}

/// The nodes with the wire form of `node` offered to the store under the
/// node's digest.
pub open spec fn with_entry<H: Hasher>(nodes: Nodes, node: NodeView) -> Nodes {
    Nodes {
        staged: nodes.staged,
        stored: spec_emplace(nodes.stored, node.digest::<H>(), node.encoding()),
    }
}

/// The nodes without the node staged under `digest`.
pub open spec fn without_staged(nodes: Nodes, digest: Seq<u8>) -> Nodes {
    Nodes { staged: nodes.staged.remove(digest), stored: nodes.stored }
}

/// Whether nodes are kept under their digests without collisions.
pub open spec fn sound<H: Hasher>(nodes: Nodes, depth: nat) -> bool {
    content_addressed::<H>(nodes) && collision_free::<H>(nodes, depth)
}

/// Whether some node of the tree has the content of `node`.
pub open spec fn has_like<H: Hasher>(nodes: Nodes, depth: nat, node: NodeView) -> bool {
    exists|like: NodeView| #[trigger] held::<H>(nodes, depth, like) && same_content(node, like)
}

/// Where every node of `after` has the content of a node of `before`,
/// `after` is as free of collisions as `before`.
proof fn lemma_collision_free_from<H: Hasher>(before: Nodes, after: Nodes, depth: nat)
    requires
        collision_free::<H>(before, depth),
        forall|a: NodeView| #[trigger] held::<H>(after, depth, a) ==> has_like::<H>(before, depth, a),
    ensures
        collision_free::<H>(after, depth),
{
    assert forall|a: NodeView, b: NodeView|
        #[trigger] held::<H>(after, depth, a) && #[trigger] held::<H>(
            after,
            depth,
            b,
        ) implies no_clash::<H>(a, b) by {
        let a0 = choose|a0: NodeView| #[trigger] held::<H>(before, depth, a0) && same_content(a, a0);
        let b0 = choose|b0: NodeView| #[trigger] held::<H>(before, depth, b0) && same_content(b, b0);
        lemma_same_content::<H>(a, a0, 0);
        lemma_same_content::<H>(b, b0, 0);
        assert(no_clash::<H>(a0, b0));
    }
}

/// Offering the wire form of a node to the store under its digest keeps
/// nodes under their digests, and keeps the content of what lookups find
/// where the node has the content of a node of the tree.
pub proof fn lemma_entry_added<H: Hasher>(nodes: Nodes, depth: nat, node: NodeView, like: NodeView)
    requires
        sound::<H>(nodes, depth),
        node.well_formed(H::spec_length()),
        held::<H>(nodes, depth, like),
        same_content(node, like),
    ensures
        sound::<H>(with_entry::<H>(nodes, node), depth),
        answers_kept::<H>(nodes, with_entry::<H>(nodes, node), depth),
{
    let after = with_entry::<H>(nodes, node);
    let key = node.digest::<H>();
    lemma_decode_encoding(node, H::spec_length());
    lemma_same_content::<H>(node, node.stored(), 0);
    lemma_same_content::<H>(node, like, 0);
    assert forall|a: NodeView| #[trigger] held::<H>(after, depth, a) implies has_like::<H>(
        nodes,
        depth,
        a,
    ) by {
        if staged_holds(after, a) {
            assert(staged_holds(nodes, a));
            assert(held::<H>(nodes, depth, a) && same_content(a, a));
        } else if stored_holds::<H>(after, a) {
            let digest = choose|digest: Seq<u8>| #[trigger]
                after.stored.contains_key(digest) && NodeView::decode(
                    after.stored[digest],
                    H::spec_length(),
                ) == Ok::<NodeView, TreeError>(a);
            if nodes.stored.contains_key(digest) {
                assert(stored_holds::<H>(nodes, a));
                assert(held::<H>(nodes, depth, a) && same_content(a, a));
            } else {
                assert(a == node.stored());
                assert(held::<H>(nodes, depth, like) && same_content(a, like));
            }
        } else {
            assert(held::<H>(nodes, depth, a) && same_content(a, a));
        }
    }
    lemma_collision_free_from::<H>(nodes, after, depth);
    assert forall|digest: Seq<u8>, level: nat|
        level <= depth && (#[trigger] lookup::<H>(nodes, depth, digest, level)) is Ok implies same_node_found(
        lookup::<H>(nodes, depth, digest, level),
        lookup::<H>(after, depth, digest, level),
    ) by {
        if !nodes.staged.contains_key(digest) && !nodes.stored.contains_key(digest) && digest
            == key {
            lemma_empty_node_digest::<H>(depth, level);
            let empty = empty_node::<H>(depth, level);
            assert(is_empty_node::<H>(depth, empty));
            assert(held::<H>(nodes, depth, empty));
            assert(no_clash::<H>(empty, like));
        }
    }
}

/// Taking a staged node out of the overlay keeps nodes under their
/// digests, and keeps the content of what lookups find where the store
/// holds an entry under the node's digest.
pub proof fn lemma_staged_removed<H: Hasher>(nodes: Nodes, depth: nat, digest: Seq<u8>)
    requires
        sound::<H>(nodes, depth),
        nodes.staged.contains_key(digest),
        nodes.stored.contains_key(digest),
    ensures
        sound::<H>(without_staged(nodes, digest), depth),
        answers_kept::<H>(nodes, without_staged(nodes, digest), depth),
{
    let after = without_staged(nodes, digest);
    assert forall|a: NodeView| #[trigger] held::<H>(after, depth, a) implies has_like::<H>(
        nodes,
        depth,
        a,
    ) by {
        if staged_holds(after, a) {
            assert(staged_holds(nodes, a));
        } else if stored_holds::<H>(after, a) {
            assert(stored_holds::<H>(nodes, a));
        }
        assert(held::<H>(nodes, depth, a) && same_content(a, a));
    }
    lemma_collision_free_from::<H>(nodes, after, depth);
    let staged = nodes.staged[digest];
    let stored = NodeView::decode(nodes.stored[digest], H::spec_length())->Ok_0;
    assert(staged_holds(nodes, staged));
    assert(stored_holds::<H>(nodes, stored));
    assert(held::<H>(nodes, depth, staged));
    assert(held::<H>(nodes, depth, stored));
    assert(no_clash::<H>(staged, stored));
}

/// Moving a staged node to the store keeps nodes under their digests and
/// keeps the content of what lookups find.
pub proof fn lemma_moved<H: Hasher>(nodes: Nodes, depth: nat, digest: Seq<u8>)
    requires
        sound::<H>(nodes, depth),
        nodes.staged.contains_key(digest),
    ensures
        sound::<H>(moved(nodes, digest), depth),
        answers_kept::<H>(nodes, moved(nodes, digest), depth),
{
    let node = nodes.staged[digest];
    assert(staged_holds(nodes, node));
    assert(held::<H>(nodes, depth, node));
    lemma_entry_added::<H>(nodes, depth, node, node);
    let offered = with_entry::<H>(nodes, node);
    lemma_staged_removed::<H>(offered, depth, digest);
    lemma_answers_kept_transitive::<H>(nodes, offered, without_staged(offered, digest), depth);
    assert(moved(nodes, digest) == without_staged(offered, digest));
}

/// Moving staged nodes to the store, along any references, keeps nodes
/// under their digests and keeps the content of what lookups find.
pub proof fn lemma_drained<H: Hasher>(nodes: Nodes, depth: nat, pending: Seq<NodeHashView>)
    requires
        sound::<H>(nodes, depth),
        nodes.staged.dom().finite(),
    ensures
        sound::<H>(drained(nodes, pending), depth),
        answers_kept::<H>(nodes, drained(nodes, pending), depth),
    decreases nodes.staged.dom().len(), pending.len(),
{
    if pending.len() != 0 {
        let rest = pending.drop_first();
        match pending.first() {
            NodeHashView::Hash(_) => lemma_drained::<H>(nodes, depth, rest),
            NodeHashView::InMemory(digest) => if nodes.staged.contains_key(digest) {
                lemma_moved::<H>(nodes, depth, digest);
                let next = match nodes.staged[digest] {
                    NodeView::Inner(left, right) => seq![left, right] + rest,
                    NodeView::Value(_) => rest,
                };
                lemma_drained::<H>(moved(nodes, digest), depth, next);
                lemma_answers_kept_transitive::<H>(
                    nodes,
                    moved(nodes, digest),
                    drained(moved(nodes, digest), next),
                    depth,
                );
            } else {
                lemma_drained::<H>(nodes, depth, rest)
            },
        }
    }
}

/// A commit keeps nodes under their digests and the tree free of
/// collisions, keeps the digest of the current root, and keeps the content
/// of what lookups find.
pub proof fn lemma_commit_keeps_answers<H: Hasher>(state: WriterState)
    requires
        sound::<H>(state.nodes, state.depth),
        state.nodes.staged.dom().finite(),
    ensures
        sound::<H>(state.committed::<H>().nodes, state.depth),
        answers_kept::<H>(state.nodes, state.committed::<H>().nodes, state.depth),
        state.committed::<H>().handle.digest() == state.handle.digest(),
        state.committed::<H>().depth == state.depth,
{
    match state.handle {
        NodeHashView::Hash(_) => {},
        NodeHashView::InMemory(digest) => if state.nodes.staged.contains_key(digest) {
            let node = state.nodes.staged[digest];
            let first = moved(state.nodes, digest);
            lemma_moved::<H>(state.nodes, state.depth, digest);
            match node {
                NodeView::Inner(left, right) => {
                    lemma_drained::<H>(first, state.depth, seq![left, right]);
                },
                NodeView::Value(ValueView::New(_)) => {
                    let stored = NodeView::decode(first.stored[digest], H::spec_length())->Ok_0;
                    assert(stored_holds::<H>(first, stored));
                    assert(held::<H>(first, state.depth, stored));
                    // The stored entry under the digest has the content of the node.
                    assert(same_content(node, stored)) by {
                        if state.nodes.stored.contains_key(digest) {
                            assert(staged_holds(state.nodes, node));
                            assert(stored_holds::<H>(state.nodes, stored));
                            assert(held::<H>(state.nodes, state.depth, node));
                            assert(held::<H>(state.nodes, state.depth, stored));
                            assert(no_clash::<H>(node, stored));
                        } else {
                            lemma_decode_encoding(node, H::spec_length());
                        }
                    }
                    lemma_entry_added::<H>(first, state.depth, node, stored);
                    assert(drained_node::<H>(first, node) == with_entry::<H>(first, node));
                },
                NodeView::Value(ValueView::Cached(_)) => {},
            }
            lemma_answers_kept_transitive::<H>(
                state.nodes,
                first,
                drained_node::<H>(first, node),
                state.depth,
            );
        },
    }
}

/// A commit keeps every read: each value, leaf and inclusion proof that
/// could be read from the current root before can be read after, and is
/// the same.
pub proof fn lemma_commit_keeps_reads<H: Hasher>(
    state: WriterState,
    root_entry: Seq<u8>,
    key: Seq<u8>,
)
    requires
        sound::<H>(state.nodes, state.depth),
        state.nodes.staged.dom().finite(),
    ensures
        value_at::<H>(state.nodes, state.depth, state.handle.digest(), key) is Ok ==> value_at::<
            H,
        >(
            state.committed::<H>().nodes,
            state.depth,
            state.committed::<H>().handle.digest(),
            key,
        ) == value_at::<H>(state.nodes, state.depth, state.handle.digest(), key),
        state.depth >= 1 && leaf_at::<H>(state.nodes, state.depth, state.handle.digest(), key)
            is Ok ==> leaf_at::<H>(
            state.committed::<H>().nodes,
            state.depth,
            state.committed::<H>().handle.digest(),
            key,
        ) == leaf_at::<H>(state.nodes, state.depth, state.handle.digest(), key),
        proof_at::<H>(state.nodes, state.depth, state.handle.digest(), root_entry, key) is Ok
            ==> proof_at::<H>(
            state.committed::<H>().nodes,
            state.depth,
            state.committed::<H>().handle.digest(),
            root_entry,
            key,
        ) == proof_at::<H>(state.nodes, state.depth, state.handle.digest(), root_entry, key),
{
    lemma_commit_keeps_answers::<H>(state);
    lemma_reads_kept::<H>(
        state.nodes,
        state.committed::<H>().nodes,
        state.depth,
        state.handle.digest(),
        root_entry,
        key,
    );
}

/// A second commit changes nothing, and neither does a commit of a tree
/// whose current root is stored.
pub proof fn lemma_commit_idempotent<H: Hasher>(state: WriterState)
    ensures
        state.committed::<H>().committed::<H>() == state.committed::<H>(),
        state.handle is Hash ==> state.committed::<H>() == state,
{
}

/// A commit keeps nodes under their digests: what it writes to the store
/// is written under the digest of the node that it encodes.
pub proof fn lemma_commit_keeps_content_addressed<H: Hasher>(state: WriterState)
    requires
        content_addressed::<H>(state.nodes),
        state.nodes.staged.dom().finite(),
    ensures
        content_addressed::<H>(state.committed::<H>().nodes),
{
    match state.handle {
        NodeHashView::Hash(_) => {},
        NodeHashView::InMemory(digest) => if state.nodes.staged.contains_key(digest) {
            let node = state.nodes.staged[digest];
            let first = moved(state.nodes, digest);
            lemma_moved_content_addressed::<H>(state.nodes, digest);
            match node {
                NodeView::Inner(left, right) => {
                    lemma_drained_content_addressed::<H>(first, seq![left, right]);
                },
                NodeView::Value(ValueView::New(_)) => {
                    lemma_decode_encoding(node, H::spec_length());
                    lemma_same_content::<H>(node, node.stored(), 0);
                },
                NodeView::Value(ValueView::Cached(_)) => {},
            }
        },
    }
}

/// Moving a staged node to the store keeps nodes under their digests.
pub proof fn lemma_moved_content_addressed<H: Hasher>(nodes: Nodes, digest: Seq<u8>)
    requires
        content_addressed::<H>(nodes),
        nodes.staged.contains_key(digest),
    ensures
        content_addressed::<H>(moved(nodes, digest)),
{
    let node = nodes.staged[digest];
    lemma_decode_encoding(node, H::spec_length());
    lemma_same_content::<H>(node, node.stored(), 0);
}

/// Moving staged nodes to the store, along any references, keeps nodes
/// under their digests.
pub proof fn lemma_drained_content_addressed<H: Hasher>(nodes: Nodes, pending: Seq<NodeHashView>)
    requires
        content_addressed::<H>(nodes),
        nodes.staged.dom().finite(),
    ensures
        content_addressed::<H>(drained(nodes, pending)),
    decreases nodes.staged.dom().len(), pending.len(),
{
    if pending.len() != 0 {
        let rest = pending.drop_first();
        match pending.first() {
            NodeHashView::Hash(_) => lemma_drained_content_addressed::<H>(nodes, rest),
            NodeHashView::InMemory(digest) => if nodes.staged.contains_key(digest) {
                lemma_moved_content_addressed::<H>(nodes, digest);
                let next = match nodes.staged[digest] {
                    NodeView::Inner(left, right) => seq![left, right] + rest,
                    NodeView::Value(_) => rest,
                };
                lemma_drained_content_addressed::<H>(moved(nodes, digest), next);
            } else {
                lemma_drained_content_addressed::<H>(nodes, rest)
            },
        }
    }
}

/// After an insert and a commit the new value is read at its key, the
/// leaf of the key is the digest of the new value, and the root that is
/// held for the outside is the digest of the rewritten root.
pub proof fn lemma_insert_commit_then_get<H: Hasher>(
    state: WriterState,
    key: Seq<u8>,
    value: Seq<u8>,
)
    requires
        insert_is_sound::<H>(state, key, value),
        state.nodes.staged.dom().finite(),
    ensures
        value_at::<H>(
            state.inserted::<H>(key, value).committed::<H>().nodes,
            state.depth,
            state.inserted::<H>(key, value).committed::<H>().handle.digest(),
            key,
        ) == Ok::<Seq<u8>, TreeError>(value),
        leaf_at::<H>(
            state.inserted::<H>(key, value).committed::<H>().nodes,
            state.depth,
            state.inserted::<H>(key, value).committed::<H>().handle.digest(),
            key,
        ) == Ok::<Seq<u8>, TreeError>(H::spec_hash(value)),
        state.inserted::<H>(key, value).committed::<H>().root == state.rewritten::<H>(
            key,
            value,
            0,
        ).digest::<H>(),
        state.inserted::<H>(key, value).committed::<H>().handle == NodeHashView::Hash(
            state.inserted::<H>(key, value).committed::<H>().root,
        ),
{
    let staged = state.inserted::<H>(key, value);
    lemma_insert_then_get::<H>(state, key, value);
    lemma_insert_keeps_sound::<H>(state, key, value);
    lemma_insert_keeps_finite::<H>(state, key, value);
    lemma_commit_keeps_reads::<H>(staged, staged.root, key);
    let root = state.rewritten::<H>(key, value, 0).digest::<H>();
    let at = lemma_staged_from::<H>(state, key, value, 0, root);
    assert(rewritten_under::<H>(state, key, value, 0, root));
}

/// After an insert at `key` and a commit, every other key whose value
/// could be read before the insert has the value it had.
pub proof fn lemma_insert_commit_keeps_other_values<H: Hasher>(
    state: WriterState,
    key: Seq<u8>,
    value: Seq<u8>,
    other: Seq<u8>,
)
    requires
        insert_is_sound::<H>(state, key, value),
        state.nodes.staged.dom().finite(),
        other != key,
        value_at::<H>(state.nodes, state.depth, state.handle.digest(), other) is Ok,
    ensures
        value_at::<H>(
            state.inserted::<H>(key, value).committed::<H>().nodes,
            state.depth,
            state.inserted::<H>(key, value).committed::<H>().handle.digest(),
            other,
        ) == value_at::<H>(state.nodes, state.depth, state.handle.digest(), other),
{
    let staged = state.inserted::<H>(key, value);
    lemma_insert_keeps_other_values::<H>(state, key, value, other);
    lemma_insert_keeps_sound::<H>(state, key, value);
    lemma_insert_keeps_finite::<H>(state, key, value);
    lemma_commit_keeps_reads::<H>(staged, staged.root, other);
}

} // verus!
