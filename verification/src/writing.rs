//! What writes do: the mathematical model of staging a rewritten path and
//! of committing staged nodes to the store.

use crate::hasher::Hasher;
use crate::node::{NodeHashView, NodeView, ValueView};
use crate::reading::{walk, Nodes};
use crate::store::spec_emplace;
use vstd::prelude::*;

verus! {

/// The state of a writer.
pub struct WriterState {
    /// The staged nodes and the store.
    pub nodes: Nodes,
    /// The root digest that is held for the outside: the root as of the
    /// last commit.
    pub root: Seq<u8>,
    /// The current root: staged after an insert, stored after a commit.
    pub handle: NodeHashView,
    /// The number of levels below the root.
    pub depth: nat,
}

impl WriterState {
    /// The node at `level` on the path of `key`, read from the current
    /// root.
    pub open spec fn path_node<H: Hasher>(self, key: Seq<u8>, level: nat) -> NodeView {
        match walk::<H>(self.nodes, self.depth, self.handle.digest(), key.take(level as int)) {
            Ok(node) => node,
            Err(_) => NodeView::Value(ValueView::Cached(Seq::empty())),
        }
    }

    /// The node that replaces the one at `level` on the path of `key` when
    /// `value` is written there: the new value at the leaf, and above it
    /// the node of the path with its child on the key's side replaced by a
    /// staged reference to the rewritten node below.
    pub open spec fn rewritten<H: Hasher>(
        self,
        key: Seq<u8>,
        value: Seq<u8>,
        level: nat,
    ) -> NodeView
        decreases key.len() - level,
    {
        if level >= key.len() {
            NodeView::Value(ValueView::New(value))
        } else {
            self.path_node::<H>(key, level).with_child(
                key[level as int],
                NodeHashView::InMemory(self.rewritten::<H>(key, value, level + 1).digest::<H>()),
            )
        }
    }

    /// The overlay after the rewritten nodes of the levels from `level`
    /// down were staged, the leaf first and the node of `level` last, each
    /// under its digest.
    pub open spec fn staged_from<H: Hasher>(
        self,
        key: Seq<u8>,
        value: Seq<u8>,
        level: nat,
    ) -> Map<Seq<u8>, NodeView>
        decreases key.len() - level,
    {
        let node = self.rewritten::<H>(key, value, level);
        if level >= key.len() {
            self.nodes.staged.insert(node.digest::<H>(), node)
        } else {
            self.staged_from::<H>(key, value, level + 1).insert(node.digest::<H>(), node)
        }
    }

    /// The state with the given overlay.
    pub open spec fn with_staged(self, staged: Map<Seq<u8>, NodeView>) -> WriterState {
        WriterState { nodes: Nodes { staged, stored: self.nodes.stored }, ..self }
    }

    /// The state after `value` was inserted at `key`: where the key has
    /// the tree's length and its path can be walked, the whole path is
    /// rewritten into the overlay and the rewritten root becomes the
    /// current root; else nothing changes. The store and the root held for
    /// the outside stay as they are.
    pub open spec fn inserted<H: Hasher>(self, key: Seq<u8>, value: Seq<u8>) -> WriterState {
        if key.len() == self.depth && walk::<H>(
            self.nodes,
            self.depth,
            self.handle.digest(),
            key,
        ) is Ok {
            WriterState {
                nodes: Nodes {
                    staged: self.staged_from::<H>(key, value, 0),
                    stored: self.nodes.stored,
                },
                root: self.root,
                handle: NodeHashView::InMemory(self.rewritten::<H>(key, value, 0).digest::<H>()),
                depth: self.depth,
            }
        } else {
            self
        }
    }

    /// The state after a commit: where the current root is staged and in
    /// the overlay, it is moved to the store with every staged node that
    /// staged references lead to from it, and becomes the stored root
    /// that is held for the outside; else nothing changes.
    pub open spec fn committed<H: Hasher>(self) -> WriterState {
        match self.handle {
            NodeHashView::Hash(_) => self,
            NodeHashView::InMemory(digest) => if self.nodes.staged.contains_key(digest) {
                let node = self.nodes.staged[digest];
                WriterState {
                    nodes: drained_node::<H>(moved(self.nodes, digest), node),
                    root: digest,
                    handle: NodeHashView::Hash(digest),
                    depth: self.depth,
                }
            } else {
                self
            },
        }
    }
}

/// The nodes after the staged node under `digest` was moved to the store.
pub open spec fn moved(nodes: Nodes, digest: Seq<u8>) -> Nodes {
    Nodes {
        staged: nodes.staged.remove(digest),
        stored: spec_emplace(nodes.stored, digest, nodes.staged[digest].encoding()),
    }
}

/// The nodes after the staged nodes that the references in `pending` lead
/// to were moved to the store, the first reference first and, behind each
/// inner node that was moved, its own two children before the rest. A
/// stored reference, and a staged one that is not in the overlay, moves
/// nothing.
pub open spec fn drained(nodes: Nodes, pending: Seq<NodeHashView>) -> Nodes
    decreases nodes.staged.dom().len(), pending.len(),
    when nodes.staged.dom().finite()
{
    if pending.len() == 0 {
        nodes
    } else {
        let rest = pending.drop_first();
        match pending.first() {
            NodeHashView::Hash(_) => drained(nodes, rest),
            NodeHashView::InMemory(digest) => if nodes.staged.contains_key(digest) {
                match nodes.staged[digest] {
                    NodeView::Inner(left, right) => drained(
                        moved(nodes, digest),
                        seq![left, right] + rest,
                    ),
                    NodeView::Value(_) => drained(moved(nodes, digest), rest),
                }
            } else {
                drained(nodes, rest)
            },
        }
    }
}

/// The nodes after what hangs below `node` was moved to the store: the
/// staged nodes below an inner node; for a value written in this session,
/// its encoding under the digest of its bytes.
pub open spec fn drained_node<H: Hasher>(nodes: Nodes, node: NodeView) -> Nodes {
    match node {
        NodeView::Inner(left, right) => drained(nodes, seq![left, right]),
        NodeView::Value(ValueView::New(value)) => Nodes {
            staged: nodes.staged,
            stored: spec_emplace(nodes.stored, H::spec_hash(value), node.encoding()),
        },
        NodeView::Value(ValueView::Cached(_)) => nodes,
    }
}

/// Draining moves staged nodes out of a finite overlay, and leaves it
/// finite and no larger.
pub proof fn lemma_drained_shrinks(nodes: Nodes, pending: Seq<NodeHashView>)
    requires
        nodes.staged.dom().finite(),
    ensures
        drained(nodes, pending).staged.dom().finite(),
        drained(nodes, pending).staged.dom().len() <= nodes.staged.dom().len(),
    decreases nodes.staged.dom().len(), pending.len(),
{
    if pending.len() != 0 {
        let rest = pending.drop_first();
        match pending.first() {
            NodeHashView::Hash(_) => lemma_drained_shrinks(nodes, rest),
            NodeHashView::InMemory(digest) => if nodes.staged.contains_key(digest) {
                match nodes.staged[digest] {
                    NodeView::Inner(left, right) => lemma_drained_shrinks(
                        moved(nodes, digest),
                        seq![left, right] + rest,
                    ),
                    NodeView::Value(_) => lemma_drained_shrinks(moved(nodes, digest), rest),
                }
            } else {
                lemma_drained_shrinks(nodes, rest)
            },
        }
    }
}

/// Draining one list of references and then another is draining the two
/// lists joined.
pub proof fn lemma_drained_concat(
    nodes: Nodes,
    first: Seq<NodeHashView>,
    second: Seq<NodeHashView>,
)
    requires
        nodes.staged.dom().finite(),
    ensures
        drained(nodes, first + second) == drained(drained(nodes, first), second),
    decreases nodes.staged.dom().len(), first.len(),
{
    if first.len() == 0 {
        assert(first + second =~= second);
    } else {
        let rest = first.drop_first();
        assert((first + second).drop_first() =~= rest + second);
        assert((first + second).first() == first.first());
        match first.first() {
            NodeHashView::Hash(_) => lemma_drained_concat(nodes, rest, second),
            NodeHashView::InMemory(digest) => if nodes.staged.contains_key(digest) {
                match nodes.staged[digest] {
                    NodeView::Inner(left, right) => {
                        assert(seq![left, right] + (rest + second) =~= (seq![left, right] + rest)
                            + second);
                        lemma_drained_concat(
                            moved(nodes, digest),
                            seq![left, right] + rest,
                            second,
                        );
                    },
                    NodeView::Value(_) => lemma_drained_concat(moved(nodes, digest), rest, second),
                }
            } else {
                lemma_drained_concat(nodes, rest, second)
            },
        }
    }
}

} // verus!
