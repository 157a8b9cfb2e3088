//! Laws of inserts: the new value is read back at its key, and every other
//! key keeps its value.

use crate::hasher::Hasher;
use crate::laws_content::{
    collision_free, content_addressed, held, lemma_lookup_finds, no_clash, staged_holds,
    stored_holds,
};
use crate::laws_reads::{answers_kept, lemma_same_content, same_node_found};
use crate::node::{NodeHashView, NodeView, ValueView};
use crate::reading::{leaf_at, lemma_walk_fails_from_prefix, lookup, value_at, walk, Nodes};
use crate::writing::WriterState;
use crate::TreeError;
use vstd::prelude::*;

verus! {

/// Whether writing `value` at `key` meets no collision: no two nodes of
/// different content have the same digest among the nodes of the tree and
/// the rewritten nodes of the key's path.
pub open spec fn insert_collision_free<H: Hasher>(
    state: WriterState,
    key: Seq<u8>,
    value: Seq<u8>,
) -> bool {
    &&& collision_free::<H>(state.nodes, state.depth)
    &&& forall|a: NodeView, level: nat|
        #[trigger] held::<H>(state.nodes, state.depth, a) && level <= state.depth
            ==> no_clash::<H>(a, #[trigger] state.rewritten::<H>(key, value, level))
    &&& forall|upper: nat, lower: nat|
        upper <= state.depth && lower <= state.depth ==> no_clash::<H>(
            #[trigger] state.rewritten::<H>(key, value, upper),
            #[trigger] state.rewritten::<H>(key, value, lower),
        )
}

/// The digest that a walk looks up last: the root for the empty path, else
/// the child digest on the side of the path's last bit.
pub open spec fn last_digest<H: Hasher>(
    nodes: Nodes,
    depth: nat,
    root: Seq<u8>,
    path: Seq<u8>,
) -> Seq<u8> {
    if path.len() == 0 {
        root
    } else {
        walk::<H>(nodes, depth, root, path.drop_last())->Ok_0.child(path.last())->Ok_0.digest()
    }
}

/// A walk that arrives has arrived on every prefix, through inner nodes
/// and along bits, and what it finds is what the lookup of the last digest
/// finds.
pub proof fn lemma_walk_arrives<H: Hasher>(
    nodes: Nodes,
    depth: nat,
    root: Seq<u8>,
    path: Seq<u8>,
    n: int,
)
    requires
        walk::<H>(nodes, depth, root, path) is Ok,
        0 <= n <= path.len(),
    ensures
        walk::<H>(nodes, depth, root, path.take(n)) is Ok,
        walk::<H>(nodes, depth, root, path.take(n)) == lookup::<H>(
            nodes,
            depth,
            last_digest::<H>(nodes, depth, root, path.take(n)),
            n as nat,
        ),
        n < path.len() ==> walk::<H>(nodes, depth, root, path.take(n))->Ok_0 is Inner && path[n]
            <= 1,
{
    if walk::<H>(nodes, depth, root, path.take(n)) is Err {
        lemma_walk_fails_from_prefix::<H>(nodes, depth, root, root, path, n);
    }
    if n < path.len() {
        if walk::<H>(nodes, depth, root, path.take(n + 1)) is Err {
            lemma_walk_fails_from_prefix::<H>(nodes, depth, root, root, path, n + 1);
        }
        assert(path.take(n + 1).drop_last() =~= path.take(n));
        assert(path.take(n + 1).last() == path[n]);
    }
}

/// Where nodes are kept under their digests, the nodes on a path that can
/// be walked are nodes of the tree, have the digests under which they were
/// looked up, and are well formed.
pub proof fn lemma_walk_finds<H: Hasher>(
    nodes: Nodes,
    depth: nat,
    root: Seq<u8>,
    path: Seq<u8>,
    n: int,
)
    requires
        content_addressed::<H>(nodes),
        path.len() <= depth,
        walk::<H>(nodes, depth, root, path) is Ok,
        0 <= n <= path.len(),
    ensures
        held::<H>(nodes, depth, walk::<H>(nodes, depth, root, path.take(n))->Ok_0),
        walk::<H>(nodes, depth, root, path.take(n))->Ok_0.well_formed(H::spec_length()),
        walk::<H>(nodes, depth, root, path.take(n))->Ok_0.digest::<H>() == last_digest::<H>(
            nodes,
            depth,
            root,
            path.take(n),
        ),
{
    lemma_walk_arrives::<H>(nodes, depth, root, path, n);
    lemma_lookup_finds::<H>(
        nodes,
        depth,
        last_digest::<H>(nodes, depth, root, path.take(n)),
        n as nat,
    );
}

/// Whether `digest` is the digest of a rewritten node of a level from
/// `level` down.
pub open spec fn rewritten_under<H: Hasher>(
    state: WriterState,
    key: Seq<u8>,
    value: Seq<u8>,
    level: nat,
    digest: Seq<u8>,
) -> bool {
    exists|at: nat|
        level <= at <= key.len() && (#[trigger] state.rewritten::<H>(key, value, at)).digest::<H>()
            == digest
}

/// What the overlay holds after the rewritten nodes of the levels from
/// `level` down were staged: under the digest of a rewritten node, a
/// rewritten node with that digest; under any other digest, what it held.
pub proof fn lemma_staged_from<H: Hasher>(
    state: WriterState,
    key: Seq<u8>,
    value: Seq<u8>,
    level: nat,
    digest: Seq<u8>,
) -> (at: nat)
    requires
        level <= key.len(),
    ensures
        rewritten_under::<H>(state, key, value, level, digest) ==> level <= at <= key.len()
            && state.rewritten::<H>(key, value, at).digest::<H>() == digest && state.staged_from::<
            H,
        >(key, value, level).contains_key(digest) && state.staged_from::<H>(key, value, level)[digest]
            == state.rewritten::<H>(key, value, at),
        !rewritten_under::<H>(state, key, value, level, digest) ==> state.staged_from::<H>(
            key,
            value,
            level,
        ).contains_key(digest) == state.nodes.staged.contains_key(digest) && (
        state.nodes.staged.contains_key(digest) ==> state.staged_from::<H>(key, value, level)[digest]
            == state.nodes.staged[digest]),
    decreases key.len() - level,
{
    let node = state.rewritten::<H>(key, value, level);
    if level >= key.len() {
        if rewritten_under::<H>(state, key, value, level, digest) {
            let at = choose|at: nat|
                level <= at <= key.len() && (#[trigger] state.rewritten::<H>(
                    key,
                    value,
                    at,
                )).digest::<H>() == digest;
            assert(at == level);
        } else {
            assert(node.digest::<H>() != digest);
        }
        level
    } else {
        let below = lemma_staged_from::<H>(state, key, value, level + 1, digest);
        if node.digest::<H>() == digest {
            assert(rewritten_under::<H>(state, key, value, level, digest));
            level
        } else if rewritten_under::<H>(state, key, value, level, digest) {
            let at = choose|at: nat|
                level <= at <= key.len() && (#[trigger] state.rewritten::<H>(
                    key,
                    value,
                    at,
                )).digest::<H>() == digest;
            assert(at != level);
            assert(rewritten_under::<H>(state, key, value, level + 1, digest));
            below
        } else {
            assert(!rewritten_under::<H>(state, key, value, level + 1, digest)) by {
                if rewritten_under::<H>(state, key, value, level + 1, digest) {
                    let at = choose|at: nat|
                        level + 1 <= at <= key.len() && (#[trigger] state.rewritten::<H>(
                            key,
                            value,
                            at,
                        )).digest::<H>() == digest;
                    assert(rewritten_under::<H>(state, key, value, level, digest));
                }
            }
            below
        }
    }
}

/// Whether an insert of `value` at `key` takes effect and can be reasoned
/// about: the key has the tree's length, which is not zero, its path can
/// be walked, nodes are kept under their digests, and the insert meets no
/// collision.
pub open spec fn insert_is_sound<H: Hasher>(state: WriterState, key: Seq<u8>, value: Seq<u8>) -> bool {
    &&& key.len() == state.depth
    &&& state.depth >= 1
    &&& walk::<H>(state.nodes, state.depth, state.handle.digest(), key) is Ok
    &&& content_addressed::<H>(state.nodes)
    &&& insert_collision_free::<H>(state, key, value)
}

/// The rewritten nodes of an insert are well formed, and above the leaf
/// each one refers to the one below it on the side of the key's bit.
pub proof fn lemma_rewritten<H: Hasher>(
    state: WriterState,
    key: Seq<u8>,
    value: Seq<u8>,
    level: nat,
)
    requires
        key.len() == state.depth,
        walk::<H>(state.nodes, state.depth, state.handle.digest(), key) is Ok,
        content_addressed::<H>(state.nodes),
        level <= key.len(),
    ensures
        state.rewritten::<H>(key, value, level).well_formed(H::spec_length()),
        level < key.len() ==> key[level as int] <= 1 && state.path_node::<H>(key, level) is Inner
            && state.rewritten::<H>(key, value, level).child(key[level as int]) == Ok::<
            NodeHashView,
            TreeError,
        >(NodeHashView::InMemory(state.rewritten::<H>(key, value, level + 1).digest::<H>())),
        level < key.len() ==> forall|bit: u8|
            bit <= 1 && bit != key[level as int] ==> (#[trigger] state.rewritten::<H>(
                key,
                value,
                level,
            ).child(bit)) == state.path_node::<H>(key, level).child(bit),
        level == key.len() ==> state.rewritten::<H>(key, value, level) == NodeView::Value(
            ValueView::New(value),
        ),
{
    if level < key.len() {
        lemma_walk_finds::<H>(
            state.nodes,
            state.depth,
            state.handle.digest(),
            key,
            level as int,
        );
        lemma_walk_arrives::<H>(
            state.nodes,
            state.depth,
            state.handle.digest(),
            key,
            level as int,
        );
        H::lemma_digest_length(state.rewritten::<H>(key, value, level + 1).preimage());
    }
}

/// An insert keeps the content of what every lookup finds.
pub proof fn lemma_insert_keeps_answers<H: Hasher>(
    state: WriterState,
    key: Seq<u8>,
    value: Seq<u8>,
)
    requires
        insert_is_sound::<H>(state, key, value),
    ensures
        answers_kept::<H>(state.nodes, state.inserted::<H>(key, value).nodes, state.depth),
{
    let after = state.inserted::<H>(key, value).nodes;
    assert forall|digest: Seq<u8>, level: nat|
        level <= state.depth && (#[trigger] lookup::<H>(
            state.nodes,
            state.depth,
            digest,
            level,
        )) is Ok implies same_node_found(
        lookup::<H>(state.nodes, state.depth, digest, level),
        lookup::<H>(after, state.depth, digest, level),
    ) by {
        let at = lemma_staged_from::<H>(state, key, value, 0, digest);
        lemma_lookup_finds::<H>(state.nodes, state.depth, digest, level);
        if rewritten_under::<H>(state, key, value, 0, digest) {
            let node = lookup::<H>(state.nodes, state.depth, digest, level)->Ok_0;
            assert(no_clash::<H>(node, state.rewritten::<H>(key, value, at)));
        }
    }
}

/// After an insert, the path of the key leads through the rewritten
/// nodes.
pub proof fn lemma_insert_path<H: Hasher>(
    state: WriterState,
    key: Seq<u8>,
    value: Seq<u8>,
    level: nat,
)
    requires
        insert_is_sound::<H>(state, key, value),
        level <= key.len(),
    ensures
        same_node_found(
            walk::<H>(
                state.inserted::<H>(key, value).nodes,
                state.depth,
                state.inserted::<H>(key, value).handle.digest(),
                key.take(level as int),
            ),
            Ok(state.rewritten::<H>(key, value, level)),
        ),
    decreases level,
{
    let after = state.inserted::<H>(key, value);
    let node = state.rewritten::<H>(key, value, level);
    let at = lemma_staged_from::<H>(state, key, value, 0, node.digest::<H>());
    assert(rewritten_under::<H>(state, key, value, 0, node.digest::<H>()));
    assert(no_clash::<H>(state.rewritten::<H>(key, value, at), node));
    if level > 0 {
        let above = (level - 1) as nat;
        lemma_insert_path::<H>(state, key, value, above);
        lemma_rewritten::<H>(state, key, value, above);
        let path = key.take(level as int);
        assert(path.drop_last() =~= key.take(above as int));
        assert(path.last() == key[above as int]);
        let parent = walk::<H>(after.nodes, after.depth, after.handle.digest(), path.drop_last())->Ok_0;
        lemma_same_content::<H>(parent, state.rewritten::<H>(key, value, above), path.last());
    }
}

/// After an insert the new value is read at its key, and the leaf of the
/// key is the digest of the new value.
pub proof fn lemma_insert_then_get<H: Hasher>(state: WriterState, key: Seq<u8>, value: Seq<u8>)
    requires
        insert_is_sound::<H>(state, key, value),
    ensures
        value_at::<H>(
            state.inserted::<H>(key, value).nodes,
            state.depth,
            state.inserted::<H>(key, value).handle.digest(),
            key,
        ) == Ok::<Seq<u8>, TreeError>(value),
        leaf_at::<H>(
            state.inserted::<H>(key, value).nodes,
            state.depth,
            state.inserted::<H>(key, value).handle.digest(),
            key,
        ) == Ok::<Seq<u8>, TreeError>(H::spec_hash(value)),
{
    let after = state.inserted::<H>(key, value);
    lemma_insert_path::<H>(state, key, value, key.len());
    assert(key.take(key.len() as int) =~= key);
    lemma_rewritten::<H>(state, key, value, key.len());
    let above = (key.len() - 1) as nat;
    lemma_insert_path::<H>(state, key, value, above);
    lemma_rewritten::<H>(state, key, value, above);
    assert(key.take(above as int) =~= key.drop_last());
    let parent = walk::<H>(after.nodes, after.depth, after.handle.digest(), key.drop_last())->Ok_0;
    lemma_same_content::<H>(parent, state.rewritten::<H>(key, value, above), key.last());
}

/// After an insert, a path that leaves the path of the key leads to a
/// node of the same content as before, where it led to one.
pub proof fn lemma_insert_keeps_other_paths<H: Hasher>(
    state: WriterState,
    key: Seq<u8>,
    value: Seq<u8>,
    path: Seq<u8>,
    fork: int,
)
    requires
        insert_is_sound::<H>(state, key, value),
        path.len() <= key.len(),
        0 <= fork < path.len(),
        path[fork] != key[fork],
        walk::<H>(state.nodes, state.depth, state.handle.digest(), path) is Ok,
    ensures
        same_node_found(
            walk::<H>(state.nodes, state.depth, state.handle.digest(), path),
            walk::<H>(
                state.inserted::<H>(key, value).nodes,
                state.depth,
                state.inserted::<H>(key, value).handle.digest(),
                path,
            ),
        ),
    decreases path.len(),
{
    let after = state.inserted::<H>(key, value);
    let root = state.handle.digest();
    let above = path.drop_last();
    let level = above.len();
    lemma_insert_keeps_answers::<H>(state, key, value);
    lemma_walk_arrives::<H>(state.nodes, state.depth, root, path, level as int);
    assert(path.take(level as int) =~= above);
    let parent = walk::<H>(state.nodes, state.depth, root, above)->Ok_0;
    let parent_after = walk::<H>(after.nodes, after.depth, after.handle.digest(), above);
    if fork < level {
        assert(above[fork] == path[fork]);
        lemma_insert_keeps_other_paths::<H>(state, key, value, above, fork);
        lemma_same_content::<H>(parent, parent_after->Ok_0, path.last());
    } else {
        if above =~= key.take(level as int) {
            lemma_insert_path::<H>(state, key, value, level);
            lemma_rewritten::<H>(state, key, value, level);
            lemma_same_content::<H>(
                parent_after->Ok_0,
                state.rewritten::<H>(key, value, level),
                path.last(),
            );
            assert(path.last() == path[fork]);
            assert(state.path_node::<H>(key, level) == parent);
        } else {
            let earlier = choose|i: int| 0 <= i < level && above[i] != key.take(level as int)[i];
            lemma_insert_keeps_other_paths::<H>(state, key, value, above, earlier);
            lemma_same_content::<H>(parent, parent_after->Ok_0, path.last());
        }
    }
}

/// Path copy preserves siblings: after an insert at `key`, every other
/// key whose value could be read has the value it had.
pub proof fn lemma_insert_keeps_other_values<H: Hasher>(
    state: WriterState,
    key: Seq<u8>,
    value: Seq<u8>,
    other: Seq<u8>,
)
    requires
        insert_is_sound::<H>(state, key, value),
        other != key,
        value_at::<H>(state.nodes, state.depth, state.handle.digest(), other) is Ok,
    ensures
        value_at::<H>(
            state.inserted::<H>(key, value).nodes,
            state.depth,
            state.inserted::<H>(key, value).handle.digest(),
            other,
        ) == value_at::<H>(state.nodes, state.depth, state.handle.digest(), other),
{
    let after = state.inserted::<H>(key, value);
    assert(other.len() == key.len());
    if forall|i: int| 0 <= i < key.len() ==> other[i] == key[i] {
        assert(other =~= key);
    }
    let fork = choose|i: int| 0 <= i < key.len() && other[i] != key[i];
    lemma_insert_keeps_other_paths::<H>(state, key, value, other, fork);
    lemma_same_content::<H>(
        walk::<H>(state.nodes, state.depth, state.handle.digest(), other)->Ok_0,
        walk::<H>(after.nodes, after.depth, after.handle.digest(), other)->Ok_0,
        0,
    );
}

/// An insert keeps nodes under their digests: each rewritten node is
/// staged under its own digest.
pub proof fn lemma_insert_keeps_content_addressed<H: Hasher>(
    state: WriterState,
    key: Seq<u8>,
    value: Seq<u8>,
)
    requires
        content_addressed::<H>(state.nodes),
    ensures
        content_addressed::<H>(state.inserted::<H>(key, value).nodes),
{
    let after = state.inserted::<H>(key, value).nodes;
    if after != state.nodes {
        assert forall|digest: Seq<u8>| #[trigger] after.staged.contains_key(digest) implies after.staged[digest].digest::<
            H,
        >() == digest && after.staged[digest].well_formed(H::spec_length()) by {
            let at = lemma_staged_from::<H>(state, key, value, 0, digest);
            if rewritten_under::<H>(state, key, value, 0, digest) {
                lemma_rewritten::<H>(state, key, value, at);
            }
        }
    }
}

/// Staging rewritten nodes leaves a finite overlay finite.
pub proof fn lemma_staged_from_finite<H: Hasher>(
    state: WriterState,
    key: Seq<u8>,
    value: Seq<u8>,
    level: nat,
)
    requires
        state.nodes.staged.dom().finite(),
        level <= key.len(),
    ensures
        state.staged_from::<H>(key, value, level).dom().finite(),
    decreases key.len() - level,
{
    if level < key.len() {
        lemma_staged_from_finite::<H>(state, key, value, level + 1);
    }
}

/// An insert leaves a finite overlay finite.
pub proof fn lemma_insert_keeps_finite<H: Hasher>(state: WriterState, key: Seq<u8>, value: Seq<u8>)
    requires
        state.nodes.staged.dom().finite(),
    ensures
        state.inserted::<H>(key, value).nodes.staged.dom().finite(),
{
    lemma_staged_from_finite::<H>(state, key, value, 0);
}

/// An insert that meets no collision leaves the tree free of collisions,
/// with its nodes under their digests.
pub proof fn lemma_insert_keeps_sound<H: Hasher>(state: WriterState, key: Seq<u8>, value: Seq<u8>)
    requires
        insert_is_sound::<H>(state, key, value),
    ensures
        content_addressed::<H>(state.inserted::<H>(key, value).nodes),
        collision_free::<H>(state.inserted::<H>(key, value).nodes, state.depth),
{
    let after = state.inserted::<H>(key, value).nodes;
    lemma_insert_keeps_content_addressed::<H>(state, key, value);
    // Every node of the tree after the insert was a node of the tree
    // before, or is a rewritten node.
    assert forall|a: NodeView| #[trigger] held::<H>(after, state.depth, a) implies held::<H>(
        state.nodes,
        state.depth,
        a,
    ) || exists|level: nat|
        level <= state.depth && #[trigger] state.rewritten::<H>(key, value, level) == a by {
        if staged_holds(after, a) {
            let digest = choose|digest: Seq<u8>| #[trigger]
                after.staged.contains_key(digest) && after.staged[digest] == a;
            let at = lemma_staged_from::<H>(state, key, value, 0, digest);
            if rewritten_under::<H>(state, key, value, 0, digest) {
                assert(state.rewritten::<H>(key, value, at) == a);
            } else {
                assert(staged_holds(state.nodes, a));
            }
        } else if stored_holds::<H>(after, a) {
            assert(stored_holds::<H>(state.nodes, a));
        }
    }
    assert forall|a: NodeView, b: NodeView|
        #[trigger] held::<H>(after, state.depth, a) && #[trigger] held::<H>(
            after,
            state.depth,
            b,
        ) implies no_clash::<H>(a, b) by {
        if held::<H>(state.nodes, state.depth, a) {
            if !held::<H>(state.nodes, state.depth, b) {
                let level = choose|level: nat|
                    level <= state.depth && #[trigger] state.rewritten::<H>(key, value, level) == b;
                assert(no_clash::<H>(a, state.rewritten::<H>(key, value, level)));
            }
        } else {
            let upper = choose|level: nat|
                level <= state.depth && #[trigger] state.rewritten::<H>(key, value, level) == a;
            if held::<H>(state.nodes, state.depth, b) {
                assert(no_clash::<H>(b, state.rewritten::<H>(key, value, upper)));
            } else {
                let lower = choose|level: nat|
                    level <= state.depth && #[trigger] state.rewritten::<H>(key, value, level) == b;
                assert(no_clash::<H>(
                    state.rewritten::<H>(key, value, upper),
                    state.rewritten::<H>(key, value, lower),
                ));
            }
        }
    }
}

} // verus!
