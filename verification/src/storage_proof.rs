//! A storage proof: the set of encoded nodes that a sequence of reads
//! fetched, from which a store for replaying those reads is rebuilt.

use crate::hasher::Hasher;
use crate::laws_content::content_addressed;
use crate::laws_replay::lemma_rebuilt_content_addressed;
use crate::node::NodeView;
use crate::reading::Nodes;
use crate::store::{spec_emplace, NodeStore};
use vstd::prelude::*;
use vstd::slice::slice_subrange;

verus! {

/// The views of a list of byte strings.
pub open spec fn byte_views(nodes: Seq<Vec<u8>>) -> Seq<Seq<u8>> {
    Seq::new(nodes.len(), |i: int| nodes[i]@)
}

/// Whether `a` comes before `b` in the order of byte strings: at the first
/// position where they differ `a` has the smaller byte, or `a` is a proper
/// prefix of `b`.
pub open spec fn lex_lt(a: Seq<u8>, b: Seq<u8>) -> bool {
    exists|i: int| #[trigger] differ_at(a, b, i)
}

/// Whether `a` and `b` agree before position `i` and `a` is smaller there.
pub open spec fn differ_at(a: Seq<u8>, b: Seq<u8>, i: int) -> bool {
    &&& 0 <= i <= a.len()
    &&& i < b.len()
    &&& a.take(i) == b.take(i)
    &&& (i == a.len() || a[i] < b[i])
}

/// Whether each byte string comes before the next ones.
pub open spec fn ascending(nodes: Seq<Seq<u8>>) -> bool {
    forall|i: int, j: int| 0 <= i < j < nodes.len() ==> lex_lt(#[trigger] nodes[i], #[trigger] nodes[j])
}

/// The order of byte strings is transitive.
pub proof fn lemma_lex_lt_transitive(a: Seq<u8>, b: Seq<u8>, c: Seq<u8>)
    requires
        lex_lt(a, b),
        lex_lt(b, c),
    ensures
        lex_lt(a, c),
{
    let i = choose|i: int| differ_at(a, b, i);
    let j = choose|j: int| differ_at(b, c, j);
    let k = if i <= j { i } else { j };
    assert(a.take(k) =~= c.take(k)) by {
        assert forall|x: int| 0 <= x < k implies a.take(k)[x] == c.take(k)[x] by {
            assert(a.take(i)[x] == b.take(i)[x]);
            assert(b.take(j)[x] == c.take(j)[x]);
        }
    }
    if i < j {
        assert(b.take(j)[i] == c.take(j)[i]);
    } else if j < i {
        assert(a.take(i)[j] == b.take(i)[j]);
    }
    assert(differ_at(a, c, k));
}

/// No byte string comes before itself.
pub proof fn lemma_lex_lt_irreflexive(a: Seq<u8>)
    ensures
        !lex_lt(a, a),
{
}

/// Compare two byte strings: negative where `a` comes first, zero where
/// they are equal, positive where `b` comes first.
fn compare_bytes(a: &[u8], b: &[u8]) -> (r: i8)
    ensures
        r < 0 ==> lex_lt(a@, b@),
        r == 0 ==> a@ == b@,
        r > 0 ==> lex_lt(b@, a@),
{
    let mut i: usize = 0;
    while i < a.len() && i < b.len()
        invariant
            i <= a@.len(),
            i <= b@.len(),
            a@.take(i as int) == b@.take(i as int),
        decreases a@.len() - i,
    {
        if a[i] < b[i] {
            assert(differ_at(a@, b@, i as int));
            return -1;
        }
        if a[i] > b[i] {
            assert(differ_at(b@, a@, i as int));
            return 1;
        }
        assert(a@.take(i + 1) =~= a@.take(i as int).push(a@[i as int]));
        assert(b@.take(i + 1) =~= b@.take(i as int).push(b@[i as int]));
        i += 1;
    }
    if i < b.len() {
        assert(differ_at(a@, b@, i as int));
        -1
    } else if i < a.len() {
        assert(differ_at(b@, a@, i as int));
        1
    } else {
        assert(a@.take(i as int) =~= a@);
        assert(b@.take(i as int) =~= b@);
        0
    }
}

/// The store that is rebuilt from encoded nodes offered in the given
/// order: each one under the digest of what follows its tag byte, the first
/// one under a digest staying.
pub open spec fn rebuilt_store<H: Hasher>(nodes: Seq<Seq<u8>>) -> Map<Seq<u8>, Seq<u8>>
    decreases nodes.len(),
{
    if nodes.len() == 0 {
        Map::empty()
    } else {
        spec_emplace(
            rebuilt_store::<H>(nodes.drop_last()),
            H::spec_hash(nodes.last().skip(1)),
            nodes.last(),
        )
    }
}

/// A set of encoded nodes.
#[derive(Debug, PartialEq, Eq)]
pub struct StorageProof {
    nodes: Vec<Vec<u8>>,
}

impl View for StorageProof {
    type V = Set<Seq<u8>>;

    open spec fn view(&self) -> Set<Seq<u8>> {
        self.nodes().to_set()
    }
}

impl Clone for StorageProof {
    fn clone(&self) -> (res: Self)
        ensures
            res.nodes() == self.nodes(),
    {
        proof {
            use_type_invariant(self);
        }
        let mut nodes: Vec<Vec<u8>> = Vec::new();
        let mut i: usize = 0;
        while i < self.nodes.len()
            invariant
                i <= self.nodes.len(),
                nodes.len() == i,
                forall|j: int| 0 <= j < i ==> (#[trigger] nodes[j])@ == self.nodes[j]@,
            decreases self.nodes.len() - i,
        {
            nodes.push(self.nodes[i].clone());
            i += 1;
        }
        assert(byte_views(nodes@) =~= byte_views(self.nodes@));
        StorageProof { nodes }
    }
}

impl StorageProof {
    #[verifier::type_invariant]
    spec fn well_formed(self) -> bool {
        ascending(byte_views(self.nodes@))
    }

    /// The encoded nodes in ascending order, each one once.
    pub closed spec fn nodes(&self) -> Seq<Seq<u8>> {
        byte_views(self.nodes@)
    }

    /// The proof that holds each of `nodes` once.
    pub fn new(nodes: Vec<Vec<u8>>) -> (proof: Self)
        ensures
            proof@ == byte_views(nodes@).to_set(),
    {
        let mut sorted: Vec<Vec<u8>> = Vec::new();
        let mut i: usize = 0;
        while i < nodes.len()
            invariant
                i <= nodes.len(),
                ascending(byte_views(sorted@)),
                byte_views(sorted@).to_set() == byte_views(nodes@).take(i as int).to_set(),
            decreases nodes.len() - i,
        {
            let ghost before = byte_views(sorted@);
            let ghost item = nodes[i as int]@;
            insert_ascending(&mut sorted, nodes[i].clone());
            proof {
                let taken = byte_views(nodes@).take(i as int);
                let next = byte_views(nodes@).take(i + 1);
                assert(next =~= taken.push(item));
                assert(next.to_set() =~= taken.to_set().insert(item)) by {
                    assert forall|x: Seq<u8>| next.to_set().contains(x) implies taken.to_set().insert(
                        item,
                    ).contains(x) by {
                        let j = choose|j: int| 0 <= j < next.len() && next[j] == x;
                        if j < taken.len() {
                            assert(taken[j] == x);
                        }
                    }
                    assert forall|x: Seq<u8>| taken.to_set().insert(item).contains(
                        x,
                    ) implies next.to_set().contains(x) by {
                        if x == item {
                            assert(next[i as int] == x);
                        } else {
                            let j = choose|j: int| 0 <= j < taken.len() && taken[j] == x;
                            assert(next[j] == x);
                        }
                    }
                }
            }
            i += 1;
        }
        proof {
            assert(byte_views(nodes@).take(nodes.len() as int) =~= byte_views(nodes@));
        }
        StorageProof { nodes: sorted }
    }

    /// The encoded nodes in ascending order, each one once.
    pub fn into_nodes(self) -> (nodes: Vec<Vec<u8>>)
        ensures
            byte_views(nodes@) == self.nodes(),
            ascending(byte_views(nodes@)),
            byte_views(nodes@).to_set() == self@,
    {
        proof {
            use_type_invariant(&self);
        }
        self.nodes
    }

    /// Rebuild a store from the proof: each encoded node is stored under
    /// the digest of what follows its tag byte, which is the digest under
    /// which the tree addresses it.
    pub fn into_memory_db<H: Hasher>(self) -> (store: NodeStore)
        requires
            forall|node: Seq<u8>| self@.contains(node) ==> node.len() >= 1,
        ensures
            store@ == rebuilt_store::<H>(self.nodes()),
            (forall|node: Seq<u8>| #[trigger]
                self@.contains(node) ==> NodeView::decode(node, H::spec_length()) is Ok)
                ==> content_addressed::<H>(Nodes::of_store(store@)),
    {
        proof {
            if forall|node: Seq<u8>| #[trigger]
                self@.contains(node) ==> NodeView::decode(node, H::spec_length()) is Ok {
                assert forall|i: int| 0 <= i < self.nodes().len() implies NodeView::decode(
                    #[trigger] self.nodes()[i],
                    H::spec_length(),
                ) is Ok by {
                    assert(self@.contains(self.nodes()[i]));
                }
                lemma_rebuilt_content_addressed::<H>(self.nodes());
            }
        }
        let mut store = NodeStore::new();
        let mut i: usize = 0;
        while i < self.nodes.len()
            invariant
                i <= self.nodes.len(),
                forall|node: Seq<u8>| self@.contains(node) ==> node.len() >= 1,
                store@ == rebuilt_store::<H>(self.nodes().take(i as int)),
            decreases self.nodes.len() - i,
        {
            let node = &self.nodes[i];
            proof {
                assert(self.nodes()[i as int] == node@);
                assert(self@.contains(node@));
                assert(self.nodes().take(i + 1).drop_last() =~= self.nodes().take(i as int));
                assert(self.nodes().take(i + 1).last() == node@);
            }
            let key = H::hash(slice_subrange(node.as_slice(), 1, node.len()));
            assert(node@.subrange(1, node@.len() as int) =~= node@.skip(1));
            store.emplace(key, node.clone());
            i += 1;
        }
        proof {
            assert(self.nodes().take(self.nodes.len() as int) =~= self.nodes());
        }
        store
    }
}

/// Put `item` at its place in an ascending list, unless it is there.
fn insert_ascending(sorted: &mut Vec<Vec<u8>>, item: Vec<u8>)
    requires
        ascending(byte_views(old(sorted)@)),
    ensures
        ascending(byte_views(final(sorted)@)),
        byte_views(final(sorted)@).to_set() == byte_views(old(sorted)@).to_set().insert(item@),
{
    let ghost before = byte_views(sorted@);
    let mut at: usize = 0;
    while at < sorted.len()
        invariant
            at <= sorted.len(),
            sorted@ == old(sorted)@,
            before == byte_views(sorted@),
            ascending(before),
            forall|j: int| 0 <= j < at ==> lex_lt(#[trigger] before[j], item@),
        ensures
            at <= sorted.len(),
            sorted@ == old(sorted)@,
            forall|j: int| 0 <= j < at ==> lex_lt(#[trigger] before[j], item@),
            at == sorted.len() || lex_lt(item@, before[at as int]),
        decreases sorted.len() - at,
    {
        let order = compare_bytes(sorted[at].as_slice(), item.as_slice());
        assert(before[at as int] == sorted[at as int]@);
        if order == 0 {
            proof {
                assert(before.to_set().insert(item@) =~= before.to_set());
            }
            return ;
        }
        if order > 0 {
            break ;
        }
        at += 1;
    }
    sorted.insert(at, item);
    proof {
        let after = byte_views(sorted@);
        assert(after =~= before.insert(at as int, item@));
        assert forall|i: int, j: int| 0 <= i < j < after.len() implies lex_lt(
            #[trigger] after[i],
            #[trigger] after[j],
        ) by {
            if j < at {
                assert(after[i] == before[i] && after[j] == before[j]);
            } else if j == at {
                assert(after[i] == before[i]);
            } else if i < at {
                assert(after[i] == before[i] && after[j] == before[j - 1]);
            } else if i == at {
                assert(after[j] == before[j - 1]);
                if j - 1 > at {
                    assert(lex_lt(before[at as int], before[j - 1]));
                    lemma_lex_lt_transitive(item@, before[at as int], before[j - 1]);
                }
            } else {
                assert(after[i] == before[i - 1] && after[j] == before[j - 1]);
            }
        }
        assert(after.to_set() =~= before.to_set().insert(item@)) by {
            assert forall|x: Seq<u8>| after.to_set().contains(x) implies before.to_set().insert(
                item@,
            ).contains(x) by {
                let j = choose|j: int| 0 <= j < after.len() && after[j] == x;
                if j < at {
                    assert(before[j] == x);
                } else if j > at {
                    assert(before[j - 1] == x);
                }
            }
            assert forall|x: Seq<u8>| before.to_set().insert(item@).contains(
                x,
            ) implies after.to_set().contains(x) by {
                if x == item@ {
                    assert(after[at as int] == x);
                } else {
                    let j = choose|j: int| 0 <= j < before.len() && before[j] == x;
                    if j < at {
                        assert(after[j] == x);
                    } else {
                        assert(after[j + 1] == x);
                    }
                }
            }
        }
    }
}

} // verus!
