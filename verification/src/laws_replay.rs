//! The law of replay: reads against the store that is rebuilt from a
//! storage proof give what they gave against the store that the proof was
//! recorded from.

use crate::hasher::Hasher;
use crate::laws::lemma_encoding_of_decoded;
use crate::laws_content::content_addressed;
use crate::node::NodeView;
use crate::reading::{
    leaf_at, lookup, lookup_recorded, proof_at, sibling_entries, value_at, walk, walk_recorded,
    Nodes,
};
use crate::storage_proof::rebuilt_store;
use vstd::prelude::*;

verus! {

/// The digest under which a rebuilt store holds an encoded node: the
/// digest of what follows the tag byte.
pub open spec fn rebuilt_key<H: Hasher>(encoded: Seq<u8>) -> Seq<u8> {
    H::spec_hash(encoded.skip(1))
}

/// Whether every encoded node of the proof is the bytes of an entry of the
/// store.
pub open spec fn taken_from(proof_nodes: Seq<Seq<u8>>, stored: Map<Seq<u8>, Seq<u8>>) -> bool {
    forall|i: int|
        0 <= i < proof_nodes.len() ==> exists|digest: Seq<u8>| #[trigger]
            stored.contains_key(digest) && stored[digest] == #[trigger] proof_nodes[i]
}

/// Whether the proof holds the wire form of every recorded node.
pub open spec fn covers(proof_nodes: Seq<Seq<u8>>, recorded: Seq<NodeView>) -> bool {
    forall|i: int| 0 <= i < recorded.len() ==> proof_nodes.contains((#[trigger] recorded[i]).encoding())
}

/// What follows the tag byte of a wire form is what the node's digest is
/// the digest of.
pub proof fn lemma_rebuilt_key_of_encoding<H: Hasher>(node: NodeView)
    ensures
        rebuilt_key::<H>(node.encoding()) == node.digest::<H>(),
{
    assert(node.encoding().skip(1) =~= node.preimage());
}

/// A rebuilt store holds an entry under a digest where the proof holds an
/// encoded node with that key, and what it holds there is such a node.
pub proof fn lemma_rebuilt_store<H: Hasher>(proof_nodes: Seq<Seq<u8>>, digest: Seq<u8>) -> (at: int)
    ensures
        rebuilt_store::<H>(proof_nodes).contains_key(digest) <==> exists|i: int|
            0 <= i < proof_nodes.len() && rebuilt_key::<H>(#[trigger] proof_nodes[i]) == digest,
        rebuilt_store::<H>(proof_nodes).contains_key(digest) ==> 0 <= at < proof_nodes.len()
            && rebuilt_key::<H>(proof_nodes[at]) == digest && rebuilt_store::<H>(
            proof_nodes,
        )[digest] == proof_nodes[at],
    decreases proof_nodes.len(),
{
    if proof_nodes.len() == 0 {
        0
    } else {
        let front = proof_nodes.drop_last();
        let last = proof_nodes.len() - 1;
        let before = lemma_rebuilt_store::<H>(front, digest);
        if rebuilt_store::<H>(front).contains_key(digest) {
            assert(front[before] == proof_nodes[before]);
            before
        } else {
            if exists|i: int|
                0 <= i < proof_nodes.len() && rebuilt_key::<H>(#[trigger] proof_nodes[i])
                    == digest {
                let i = choose|i: int|
                    0 <= i < proof_nodes.len() && rebuilt_key::<H>(#[trigger] proof_nodes[i])
                        == digest;
                if i < last {
                    assert(front[i] == proof_nodes[i]);
                    assert(rebuilt_key::<H>(front[i]) == digest);
                }
            }
            last
        }
    }
}

/// A store rebuilt from encoded nodes of a store whose nodes are kept
/// under their digests holds each of them under the digest that it had
/// there.
pub proof fn lemma_rebuilt_within<H: Hasher>(
    stored: Map<Seq<u8>, Seq<u8>>,
    proof_nodes: Seq<Seq<u8>>,
    digest: Seq<u8>,
)
    requires
        content_addressed::<H>(Nodes::of_store(stored)),
        taken_from(proof_nodes, stored),
        rebuilt_store::<H>(proof_nodes).contains_key(digest),
    ensures
        stored.contains_key(digest),
        stored[digest] == rebuilt_store::<H>(proof_nodes)[digest],
{
    let at = lemma_rebuilt_store::<H>(proof_nodes, digest);
    let origin = choose|origin: Seq<u8>| #[trigger]
        stored.contains_key(origin) && stored[origin] == proof_nodes[at];
    assert(Nodes::of_store(stored).stored.contains_key(origin));
    lemma_encoding_of_decoded(stored[origin], H::spec_length());
    lemma_rebuilt_key_of_encoding::<H>(NodeView::decode(stored[origin], H::spec_length())->Ok_0);
}

/// Against a store rebuilt from a proof that covers what a lookup hands
/// to the recorder, the lookup finds what it found.
pub proof fn lemma_replay_lookup<H: Hasher>(
    stored: Map<Seq<u8>, Seq<u8>>,
    depth: nat,
    proof_nodes: Seq<Seq<u8>>,
    digest: Seq<u8>,
    level: nat,
)
    requires
        content_addressed::<H>(Nodes::of_store(stored)),
        taken_from(proof_nodes, stored),
        covers(proof_nodes, lookup_recorded::<H>(Nodes::of_store(stored), digest)),
    ensures
        lookup::<H>(Nodes::of_store(rebuilt_store::<H>(proof_nodes)), depth, digest, level)
            == lookup::<H>(Nodes::of_store(stored), depth, digest, level),
{
    let rebuilt = rebuilt_store::<H>(proof_nodes);
    if rebuilt.contains_key(digest) {
        lemma_rebuilt_within::<H>(stored, proof_nodes, digest);
    } else if stored.contains_key(digest) {
        assert(Nodes::of_store(stored).stored.contains_key(digest));
        let node = NodeView::decode(stored[digest], H::spec_length())->Ok_0;
        let recorded = lookup_recorded::<H>(Nodes::of_store(stored), digest);
        assert(recorded[0] == node);
        assert(proof_nodes.contains(node.encoding()));
        let i = choose|i: int| 0 <= i < proof_nodes.len() && proof_nodes[i] == node.encoding();
        lemma_rebuilt_key_of_encoding::<H>(node);
        let at = lemma_rebuilt_store::<H>(proof_nodes, digest);
        assert(rebuilt_key::<H>(proof_nodes[i]) == digest);
    }
}

/// A proof that covers what a walk hands to the recorder covers what the
/// walk of the path without its last bit hands to it.
pub proof fn lemma_covers_prefix<H: Hasher>(
    nodes: Nodes,
    depth: nat,
    root: Seq<u8>,
    path: Seq<u8>,
    proof_nodes: Seq<Seq<u8>>,
)
    requires
        path.len() > 0,
        covers(proof_nodes, walk_recorded::<H>(nodes, depth, root, path)),
    ensures
        covers(proof_nodes, walk_recorded::<H>(nodes, depth, root, path.drop_last())),
        walk::<H>(nodes, depth, root, path.drop_last()) is Ok && walk::<H>(
            nodes,
            depth,
            root,
            path.drop_last(),
        )->Ok_0.child(path.last()) is Ok ==> covers(
            proof_nodes,
            lookup_recorded::<H>(
                nodes,
                walk::<H>(nodes, depth, root, path.drop_last())->Ok_0.child(
                    path.last(),
                )->Ok_0.digest(),
            ),
        ),
{
    let whole = walk_recorded::<H>(nodes, depth, root, path);
    let front = walk_recorded::<H>(nodes, depth, root, path.drop_last());
    assert forall|i: int| 0 <= i < front.len() implies proof_nodes.contains(
        (#[trigger] front[i]).encoding(),
    ) by {
        assert(whole[i] == front[i]);
    }
    if walk::<H>(nodes, depth, root, path.drop_last()) is Ok && walk::<H>(
        nodes,
        depth,
        root,
        path.drop_last(),
    )->Ok_0.child(path.last()) is Ok {
        let last = lookup_recorded::<H>(
            nodes,
            walk::<H>(nodes, depth, root, path.drop_last())->Ok_0.child(path.last())->Ok_0.digest(),
        );
        assert forall|i: int| 0 <= i < last.len() implies proof_nodes.contains(
            (#[trigger] last[i]).encoding(),
        ) by {
            assert(whole[front.len() + i] == last[i]);
        }
    }
}

/// Against a store rebuilt from a proof that covers what a walk hands to
/// the recorder, the walk leads to what it led to, and passes the same
/// siblings.
pub proof fn lemma_replay_walk<H: Hasher>(
    stored: Map<Seq<u8>, Seq<u8>>,
    depth: nat,
    root: Seq<u8>,
    root_entry: Seq<u8>,
    proof_nodes: Seq<Seq<u8>>,
    path: Seq<u8>,
)
    requires
        content_addressed::<H>(Nodes::of_store(stored)),
        taken_from(proof_nodes, stored),
        covers(proof_nodes, walk_recorded::<H>(Nodes::of_store(stored), depth, root, path)),
    ensures
        walk::<H>(Nodes::of_store(rebuilt_store::<H>(proof_nodes)), depth, root, path) == walk::<
            H,
        >(Nodes::of_store(stored), depth, root, path),
        sibling_entries::<H>(
            Nodes::of_store(rebuilt_store::<H>(proof_nodes)),
            depth,
            root,
            root_entry,
            path,
        ) == sibling_entries::<H>(Nodes::of_store(stored), depth, root, root_entry, path),
    decreases path.len(),
{
    let nodes = Nodes::of_store(stored);
    if path.len() == 0 {
        lemma_replay_lookup::<H>(stored, depth, proof_nodes, root, 0);
    } else {
        let above = path.drop_last();
        lemma_covers_prefix::<H>(nodes, depth, root, path, proof_nodes);
        lemma_replay_walk::<H>(stored, depth, root, root_entry, proof_nodes, above);
        match walk::<H>(nodes, depth, root, above) {
            Ok(parent) => match parent.child(path.last()) {
                Ok(child) => {
                    lemma_replay_lookup::<H>(
                        stored,
                        depth,
                        proof_nodes,
                        child.digest(),
                        path.len(),
                    );
                },
                Err(_) => {},
            },
            Err(_) => {},
        }
    }
}

/// Replay of a value: against the store rebuilt from a storage proof,
/// with the same root, `get_value` returns what it returned against the
/// store that the proof was recorded from, provided that the nodes of that
/// store are kept under their digests, that the proof holds nothing but
/// encoded nodes of that store, and that it holds the nodes that the read
/// recorded.
pub proof fn lemma_replay_value<H: Hasher>(
    stored: Map<Seq<u8>, Seq<u8>>,
    depth: nat,
    root: Seq<u8>,
    proof_nodes: Seq<Seq<u8>>,
    key: Seq<u8>,
)
    requires
        content_addressed::<H>(Nodes::of_store(stored)),
        taken_from(proof_nodes, stored),
        covers(proof_nodes, walk_recorded::<H>(Nodes::of_store(stored), depth, root, key)),
    ensures
        value_at::<H>(Nodes::of_store(rebuilt_store::<H>(proof_nodes)), depth, root, key)
            == value_at::<H>(Nodes::of_store(stored), depth, root, key),
{
    lemma_replay_walk::<H>(stored, depth, root, root, proof_nodes, key);
}

/// Replay of a leaf: as for a value, for `get_leaf`, which records the
/// walk of the key without its last bit.
pub proof fn lemma_replay_leaf<H: Hasher>(
    stored: Map<Seq<u8>, Seq<u8>>,
    depth: nat,
    root: Seq<u8>,
    proof_nodes: Seq<Seq<u8>>,
    key: Seq<u8>,
)
    requires
        depth >= 1,
        content_addressed::<H>(Nodes::of_store(stored)),
        taken_from(proof_nodes, stored),
        covers(
            proof_nodes,
            walk_recorded::<H>(Nodes::of_store(stored), depth, root, key.drop_last()),
        ),
    ensures
        leaf_at::<H>(Nodes::of_store(rebuilt_store::<H>(proof_nodes)), depth, root, key)
            == leaf_at::<H>(Nodes::of_store(stored), depth, root, key),
{
    lemma_replay_walk::<H>(stored, depth, root, root, proof_nodes, key.drop_last());
}

/// Replay of an inclusion proof: as for a value, for `get_proof`.
pub proof fn lemma_replay_proof<H: Hasher>(
    stored: Map<Seq<u8>, Seq<u8>>,
    depth: nat,
    root: Seq<u8>,
    root_entry: Seq<u8>,
    proof_nodes: Seq<Seq<u8>>,
    key: Seq<u8>,
)
    requires
        content_addressed::<H>(Nodes::of_store(stored)),
        taken_from(proof_nodes, stored),
        covers(proof_nodes, walk_recorded::<H>(Nodes::of_store(stored), depth, root, key)),
    ensures
        proof_at::<H>(
            Nodes::of_store(rebuilt_store::<H>(proof_nodes)),
            depth,
            root,
            root_entry,
            key,
        ) == proof_at::<H>(Nodes::of_store(stored), depth, root, root_entry, key),
{
    lemma_replay_walk::<H>(stored, depth, root, root_entry, proof_nodes, key);
}

/// A store rebuilt from encoded nodes keeps them under their digests.
pub proof fn lemma_rebuilt_content_addressed<H: Hasher>(proof_nodes: Seq<Seq<u8>>)
    requires
        forall|i: int|
            0 <= i < proof_nodes.len() ==> NodeView::decode(
                #[trigger] proof_nodes[i],
                H::spec_length(),
            ) is Ok,
    ensures
        content_addressed::<H>(Nodes::of_store(rebuilt_store::<H>(proof_nodes))),
{
    let rebuilt = rebuilt_store::<H>(proof_nodes);
    assert forall|digest: Seq<u8>| #[trigger] rebuilt.contains_key(digest) implies NodeView::decode(
        rebuilt[digest],
        H::spec_length(),
    ) is Ok && NodeView::decode(rebuilt[digest], H::spec_length())->Ok_0.digest::<H>() == digest by {
        let at = lemma_rebuilt_store::<H>(proof_nodes, digest);
        lemma_encoding_of_decoded(proof_nodes[at], H::spec_length());
        lemma_rebuilt_key_of_encoding::<H>(
            NodeView::decode(proof_nodes[at], H::spec_length())->Ok_0,
        );
    }
}

} // verus!
