//! Recording of the nodes that reads fetch from the store.

use crate::node::{Node, NodeView};
use crate::storage_proof::StorageProof;
use vstd::prelude::*;

verus! {

/// A tree recorder that can be used to record tree accesses.
///
/// The recorder is used to construct a proof that attests to the inclusion
/// of accessed nodes in a tree.
pub trait TreeRecorder {
    /// The nodes recorded so far, oldest first.
    spec fn recorded(&self) -> Seq<NodeView>;

    /// Record access of the given node.
    fn record(&mut self, node: Node)
        ensures
            final(self).recorded() == old(self).recorded().push(node@),
    ;
}

/// The views of a list of nodes.
pub open spec fn node_views(nodes: Seq<Node>) -> Seq<NodeView> {
    Seq::new(nodes.len(), |i: int| nodes[i]@)
}

/// The wire forms of a list of nodes.
pub open spec fn encodings(nodes: Seq<NodeView>) -> Seq<Seq<u8>> {
    Seq::new(nodes.len(), |i: int| nodes[i].encoding())
}

/// Record node accesses.
pub struct Recorder {
    nodes: Vec<Node>,
}

impl Recorder {
    /// Create a new `Recorder`.
    pub fn new() -> (recorder: Self)
        ensures
            recorder.recorded() == Seq::<NodeView>::empty(),
    {
        let recorder = Self { nodes: Vec::new() };
        assert(recorder.recorded() =~= Seq::<NodeView>::empty());
        recorder
    }

    /// Drain all visited nodes.
    pub fn drain(&mut self) -> (nodes: Vec<Node>)
        ensures
            node_views(nodes@) == old(self).recorded(),
            final(self).recorded() == Seq::<NodeView>::empty(),
    {
        let mut nodes: Vec<Node> = Vec::new();
        core::mem::swap(&mut self.nodes, &mut nodes);
        assert(self.recorded() =~= Seq::<NodeView>::empty());
        nodes
    }

    /// The wire forms of all visited nodes, as a set.
    pub fn drain_storage_proof(self) -> (proof: StorageProof)
        ensures
            proof@ == encodings(self.recorded()).to_set(),
    {
        let mut encoded_nodes: Vec<Vec<u8>> = Vec::new();
        let mut i: usize = 0;
        while i < self.nodes.len()
            invariant
                i <= self.nodes.len(),
                encoded_nodes.len() == i,
                forall|j: int| 0 <= j < i ==> (#[trigger] encoded_nodes[j])@ == self.nodes[j]@.encoding(),
            decreases self.nodes.len() - i,
        {
            encoded_nodes.push(self.nodes[i].encode());
            i += 1;
        }
        proof {
            assert(crate::storage_proof::byte_views(encoded_nodes@) =~= encodings(self.recorded()));
        }
        StorageProof::new(encoded_nodes)
    }
}

impl TreeRecorder for Recorder {
    closed spec fn recorded(&self) -> Seq<NodeView> {
        node_views(self.nodes@)
    }

    fn record(&mut self, node: Node) {
        self.nodes.push(node);
        assert(self.recorded() =~= old(self).recorded().push(node@));
    }
}

} // verus!
