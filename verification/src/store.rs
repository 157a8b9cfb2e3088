//! The content-addressed byte store that trees read from and commit to,
//! held in memory.

use crate::digest_map::DigestMap;
use crate::DBValue;
use vstd::prelude::*;

verus! {

/// An in-memory store of byte strings keyed by digest.
pub struct NodeStore {
    nodes: DigestMap<DBValue>,
}

impl View for NodeStore {
    type V = Map<Seq<u8>, Seq<u8>>;

    closed spec fn view(&self) -> Map<Seq<u8>, Seq<u8>> {
        self.nodes@
    }
}

impl NodeStore {
    /// The number of entries.
    pub closed spec fn count(&self) -> nat {
        self.nodes.count()
    }

    /// The keys in the order of the entries.
    pub closed spec fn keys(&self) -> Seq<Seq<u8>> {
        self.nodes.keys()
    }

    /// An empty store.
    pub fn new() -> (store: Self)
        ensures
            store@ == Map::<Seq<u8>, Seq<u8>>::empty(),
            store.count() == 0,
    {
        NodeStore { nodes: DigestMap::new() }
    }

    /// The bytes stored under `key`, if any.
    pub fn get(&self, key: &[u8]) -> (r: Option<DBValue>)
        ensures
            match r {
                Some(value) => self@.contains_key(key@) && self@[key@] == value@,
                None => !self@.contains_key(key@),
            },
    {
        match self.nodes.get(key) {
            Some(value) => Some(value.clone()),
            None => None,
        }
    }

    /// Whether anything is stored under `key`.
    pub fn contains(&self, key: &[u8]) -> (found: bool)
        ensures
            found == self@.contains_key(key@),
    {
        self.nodes.contains_key(key)
    }

    /// Store `value` under `key` unless the key is taken: what is stored
    /// under a key is never replaced.
    pub fn emplace(&mut self, key: Vec<u8>, value: DBValue)
        ensures
            final(self)@ == spec_emplace(old(self)@, key@, value@),
    {
        if !self.nodes.contains_key(key.as_slice()) {
            self.nodes.insert(key, value);
        }
    }

    /// The number of entries, each of which holds one key of the store.
    pub fn len(&self) -> (n: usize)
        ensures
            n == self.count(),
            self.keys().len() == n,
            self.keys().no_duplicates(),
            self.keys().to_set() == self@.dom(),
    {
        self.nodes.len()
    }

    /// The key and the bytes of entry `i`; the entries are in no
    /// particular order.
    pub fn entry(&self, i: usize) -> (r: (&Vec<u8>, &DBValue))
        requires
            i < self.count(),
        ensures
            r.0@ == self.keys()[i as int],
            self@.contains_key(r.0@),
            self@[r.0@] == r.1@,
    {
        self.nodes.entry(i)
    }
}

/// The store after `value` was offered under `key`: the first value stored
/// under a key stays.
pub open spec fn spec_emplace(store: Map<Seq<u8>, Seq<u8>>, key: Seq<u8>, value: Seq<u8>) -> Map<
    Seq<u8>,
    Seq<u8>,
> {
    if store.contains_key(key) {
        store
    } else {
        store.insert(key, value)
    }
}

} // verus!
