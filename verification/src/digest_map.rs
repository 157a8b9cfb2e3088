//! A map from digests to values, kept as a list of entries with distinct
//! keys.

use vstd::prelude::*;

verus! {

/// Whether two byte strings are equal.
pub fn bytes_eq(a: &[u8], b: &[u8]) -> (eq: bool)
    ensures
        eq == (a@ == b@),
{
    if a.len() != b.len() {
        return false;
    }
    let mut i: usize = 0;
    while i < a.len()
        invariant
            i <= a@.len(),
            a@.len() == b@.len(),
            forall|j: int| 0 <= j < i ==> a@[j] == b@[j],
        decreases a@.len() - i,
    {
        if a[i] != b[i] {
            return false;
        }
        i += 1;
    }
    assert(a@ =~= b@);
    true
}

spec fn keys_distinct<V>(entries: Seq<(Vec<u8>, V)>) -> bool {
    forall|i: int, j: int|
        0 <= i < j < entries.len() ==> (#[trigger] entries[i]).0@ != (#[trigger] entries[j]).0@
}

spec fn has_key_at<V>(entries: Seq<(Vec<u8>, V)>, key: Seq<u8>, i: int) -> bool {
    0 <= i < entries.len() && entries[i].0@ == key
}

spec fn index_of<V>(entries: Seq<(Vec<u8>, V)>, key: Seq<u8>) -> int {
    choose|i: int| has_key_at(entries, key, i)
}

spec fn entries_map<V: View>(entries: Seq<(Vec<u8>, V)>) -> Map<Seq<u8>, V::V> {
    Map::new(
        |key: Seq<u8>| exists|i: int| has_key_at(entries, key, i),
        |key: Seq<u8>| entries[index_of(entries, key)].1@,
    )
}

proof fn lemma_entry<V: View>(entries: Seq<(Vec<u8>, V)>, i: int)
    requires
        keys_distinct(entries),
        0 <= i < entries.len(),
    ensures
        entries_map(entries).contains_key(entries[i].0@),
        entries_map(entries)[entries[i].0@] == entries[i].1@,
{
    let key = entries[i].0@;
    assert(has_key_at(entries, key, i));
    let j = index_of(entries, key);
    assert(has_key_at(entries, key, j));
    if i < j {
        assert(entries[i].0@ != entries[j].0@);
    } else if j < i {
        assert(entries[j].0@ != entries[i].0@);
    }
}

/// What a list maps a key to is the value of any entry with that key.
proof fn lemma_lookup<V: View>(entries: Seq<(Vec<u8>, V)>, key: Seq<u8>) -> (i: int)
    requires
        keys_distinct(entries),
        entries_map(entries).contains_key(key),
    ensures
        has_key_at(entries, key, i),
        entries_map(entries)[key] == entries[i].1@,
{
    let i = choose|i: int| has_key_at(entries, key, i);
    lemma_entry(entries, i);
    i
}

proof fn lemma_replaced<V: View>(before: Seq<(Vec<u8>, V)>, i: int, entry: (Vec<u8>, V))
    requires
        keys_distinct(before),
        has_key_at(before, entry.0@, i),
    ensures
        keys_distinct(before.update(i, entry)),
        entries_map(before.update(i, entry)) == entries_map(before).insert(entry.0@, entry.1@),
{
    let after = before.update(i, entry);
    let k = entry.0@;
    assert forall|a: int, b: int| 0 <= a < b < after.len() implies (#[trigger] after[a]).0@ != (
    #[trigger] after[b]).0@ by {
        assert(after[a].0@ == before[a].0@);
        assert(after[b].0@ == before[b].0@);
    }
    let target = entries_map(before).insert(k, entry.1@);
    assert forall|key: Seq<u8>| #[trigger]
        entries_map(after).contains_key(key) == target.contains_key(key) by {
        if target.contains_key(key) {
            if key == k {
                assert(has_key_at(after, key, i));
            } else {
                let j = choose|j: int| has_key_at(before, key, j);
                assert(has_key_at(after, key, j));
            }
        }
        if entries_map(after).contains_key(key) {
            let j = choose|j: int| has_key_at(after, key, j);
            assert(has_key_at(before, key, j));
        }
    }
    assert forall|key: Seq<u8>| #[trigger]
        entries_map(after).contains_key(key) implies entries_map(after)[key] == target[key] by {
        let j = lemma_lookup(after, key);
        if j != i {
            lemma_entry(before, j);
        }
    }
    assert(entries_map(after) =~= target);
}

proof fn lemma_pushed<V: View>(before: Seq<(Vec<u8>, V)>, entry: (Vec<u8>, V))
    requires
        keys_distinct(before),
        forall|i: int| !has_key_at(before, entry.0@, i),
    ensures
        keys_distinct(before.push(entry)),
        entries_map(before.push(entry)) == entries_map(before).insert(entry.0@, entry.1@),
{
    let after = before.push(entry);
    let k = entry.0@;
    let n = before.len() as int;
    assert forall|a: int, b: int| 0 <= a < b < after.len() implies (#[trigger] after[a]).0@ != (
    #[trigger] after[b]).0@ by {
        assert(after[a].0@ == before[a].0@);
        if b < n {
            assert(after[b].0@ == before[b].0@);
        } else {
            assert(!has_key_at(before, k, a));
        }
    }
    let target = entries_map(before).insert(k, entry.1@);
    assert forall|key: Seq<u8>| #[trigger]
        entries_map(after).contains_key(key) == target.contains_key(key) by {
        if target.contains_key(key) {
            if key == k {
                assert(has_key_at(after, key, n));
            } else {
                let j = choose|j: int| has_key_at(before, key, j);
                assert(has_key_at(after, key, j));
            }
        }
        if entries_map(after).contains_key(key) {
            let j = choose|j: int| has_key_at(after, key, j);
            if j < n {
                assert(has_key_at(before, key, j));
            }
        }
    }
    assert forall|key: Seq<u8>| #[trigger]
        entries_map(after).contains_key(key) implies entries_map(after)[key] == target[key] by {
        let j = lemma_lookup(after, key);
        if j < n {
            lemma_entry(before, j);
        }
    }
    assert(entries_map(after) =~= target);
}

proof fn lemma_swap_removed<V: View>(before: Seq<(Vec<u8>, V)>, i: int)
    requires
        keys_distinct(before),
        0 <= i < before.len(),
    ensures
        keys_distinct(before.update(i, before.last()).drop_last()),
        entries_map(before.update(i, before.last()).drop_last()) == entries_map(before).remove(
            before[i].0@,
        ),
{
    let after = before.update(i, before.last()).drop_last();
    let k = before[i].0@;
    let n = before.len() as int;
    // Entry `j` of the new list is entry `from(j)` of the old one.
    let from = |j: int| if j == i { n - 1 } else { j };
    assert forall|j: int| 0 <= j < after.len() implies #[trigger] after[j] == before[from(j)] by {}
    assert forall|a: int, b: int| 0 <= a < b < after.len() implies (#[trigger] after[a]).0@ != (
    #[trigger] after[b]).0@ by {
        assert(after[a] == before[from(a)]);
        assert(after[b] == before[from(b)]);
        if from(a) < from(b) {
            assert(before[from(a)].0@ != before[from(b)].0@);
        } else {
            assert(before[from(b)].0@ != before[from(a)].0@);
        }
    }
    let target = entries_map(before).remove(k);
    assert forall|key: Seq<u8>| #[trigger]
        entries_map(after).contains_key(key) == target.contains_key(key) by {
        if target.contains_key(key) {
            let j = choose|j: int| has_key_at(before, key, j);
            assert(j != i);
            if j == n - 1 {
                assert(after[i] == before[from(i)]);
                assert(has_key_at(after, key, i));
            } else {
                assert(after[j] == before[from(j)]);
                assert(has_key_at(after, key, j));
            }
        }
        if entries_map(after).contains_key(key) {
            let j = choose|j: int| has_key_at(after, key, j);
            assert(after[j] == before[from(j)]);
            assert(has_key_at(before, key, from(j)));
            if from(j) < i {
                assert(before[from(j)].0@ != before[i].0@);
            } else {
                assert(before[i].0@ != before[from(j)].0@);
            }
        }
    }
    assert forall|key: Seq<u8>| #[trigger]
        entries_map(after).contains_key(key) implies entries_map(after)[key] == target[key] by {
        let j = lemma_lookup(after, key);
        assert(after[j] == before[from(j)]);
        lemma_entry(before, from(j));
    }
    assert(entries_map(after) =~= target);
}

/// A finite map keyed by byte strings.
pub struct DigestMap<V> {
    entries: Vec<(Vec<u8>, V)>,
}

impl<V> DigestMap<V> {
    #[verifier::type_invariant]
    spec fn well_formed(self) -> bool {
        keys_distinct(self.entries@)
    }
}

impl<V: View> DigestMap<V> {
    /// The map that the entries make up.
    pub closed spec fn view(&self) -> Map<Seq<u8>, V::V> {
        entries_map(self.entries@)
    }

    /// The number of entries.
    pub closed spec fn count(&self) -> nat {
        self.entries.len() as nat
    }

    /// The keys in the order of the entries.
    pub closed spec fn keys(&self) -> Seq<Seq<u8>> {
        Seq::new(self.entries@.len(), |i: int| self.entries@[i].0@)
    }

    /// The map has finitely many keys.
    pub proof fn lemma_finite(&self)
        ensures
            self@.dom().finite(),
    {
        let keys = Seq::new(self.entries@.len(), |i: int| self.entries@[i].0@);
        assert(self@.dom() =~= keys.to_set()) by {
            assert forall|key: Seq<u8>| self@.dom().contains(key) implies keys.to_set().contains(
                key,
            ) by {
                let i = choose|i: int| has_key_at(self.entries@, key, i);
                assert(keys[i] == key);
            }
            assert forall|key: Seq<u8>| keys.to_set().contains(key) implies self@.dom().contains(
                key,
            ) by {
                let i = choose|i: int| 0 <= i < keys.len() && keys[i] == key;
                assert(has_key_at(self.entries@, key, i));
            }
        }
        vstd::seq_lib::seq_to_set_is_finite(keys);
    }

    /// The empty map.
    pub fn new() -> (map: Self)
        ensures
            map@ == Map::<Seq<u8>, V::V>::empty(),
            map.count() == 0,
    {
        let map = DigestMap { entries: Vec::new() };
        assert(map@ =~= Map::<Seq<u8>, V::V>::empty());
        map
    }

    /// The number of entries, each of which holds one key of the map.
    pub fn len(&self) -> (n: usize)
        ensures
            n == self.count(),
            self.keys().len() == n,
            self.keys().no_duplicates(),
            self.keys().to_set() == self@.dom(),
    {
        proof {
            use_type_invariant(self);
            let keys = self.keys();
            assert(keys.to_set() =~= self@.dom()) by {
                assert forall|key: Seq<u8>| self@.dom().contains(key) implies keys.to_set().contains(
                    key,
                ) by {
                    let i = choose|i: int| has_key_at(self.entries@, key, i);
                    assert(keys[i] == key);
                }
                assert forall|key: Seq<u8>| keys.to_set().contains(key) implies self@.dom().contains(
                    key,
                ) by {
                    let i = choose|i: int| 0 <= i < keys.len() && keys[i] == key;
                    assert(has_key_at(self.entries@, key, i));
                }
            }
            assert forall|i: int, j: int|
                0 <= i < keys.len() && 0 <= j < keys.len() && i != j implies keys[i] != keys[j] by {
                if i < j {
                    assert(self.entries@[i].0@ != self.entries@[j].0@);
                } else {
                    assert(self.entries@[j].0@ != self.entries@[i].0@);
                }
            }
        }
        self.entries.len()
    }

    fn find(&self, key: &[u8]) -> (r: Option<usize>)
        ensures
            match r {
                Some(i) => has_key_at(self.entries@, key@, i as int),
                None => forall|i: int| !has_key_at(self.entries@, key@, i),
            },
    {
        let mut i: usize = 0;
        while i < self.entries.len()
            invariant
                i <= self.entries.len(),
                forall|j: int| 0 <= j < i ==> !has_key_at(self.entries@, key@, j),
            decreases self.entries.len() - i,
        {
            if bytes_eq(self.entries[i].0.as_slice(), key) {
                return Some(i);
            }
            i += 1;
        }
        None
    }

    /// Whether the map holds a value under `key`.
    pub fn contains_key(&self, key: &[u8]) -> (found: bool)
        ensures
            found == self@.contains_key(key@),
    {
        self.find(key).is_some()
    }

    /// The value under `key`, if any.
    pub fn get(&self, key: &[u8]) -> (r: Option<&V>)
        ensures
            match r {
                Some(value) => self@.contains_key(key@) && self@[key@] == value@,
                None => !self@.contains_key(key@),
            },
    {
        proof {
            use_type_invariant(self);
        }
        match self.find(key) {
            Some(i) => {
                proof {
                    lemma_entry(self.entries@, i as int);
                }
                Some(&self.entries[i].1)
            },
            None => None,
        }
    }

    /// The key and the value of entry `i`; the entries are in no
    /// particular order.
    pub fn entry(&self, i: usize) -> (r: (&Vec<u8>, &V))
        requires
            i < self.count(),
        ensures
            r.0@ == self.keys()[i as int],
            self@.contains_key(r.0@),
            self@[r.0@] == r.1@,
    {
        proof {
            use_type_invariant(self);
            lemma_entry(self.entries@, i as int);
        }
        (&self.entries[i].0, &self.entries[i].1)
    }

    /// Insert or replace the value under `key`.
    pub fn insert(&mut self, key: Vec<u8>, value: V)
        ensures
            final(self)@ == old(self)@.insert(key@, value@),
            final(self).count() == old(self).count() + (if old(self)@.contains_key(key@) {
                0int
            } else {
                1int
            }),
    {
        proof {
            use_type_invariant(&*self);
        }
        let found = self.find(key.as_slice());
        let mut entries: Vec<(Vec<u8>, V)> = Vec::new();
        core::mem::swap(&mut self.entries, &mut entries);
        let ghost before = entries@;
        match found {
            Some(i) => {
                proof {
                    lemma_replaced(before, i as int, (key, value));
                    lemma_entry(before, i as int);
                }
                entries.set(i, (key, value));
            },
            None => {
                proof {
                    lemma_pushed(before, (key, value));
                }
                entries.push((key, value));
            },
        }
        core::mem::swap(&mut self.entries, &mut entries);
    }

    /// Take the value under `key` out of the map.
    pub fn remove(&mut self, key: &[u8]) -> (r: Option<V>)
        ensures
            match r {
                Some(value) => {
                    &&& old(self)@.contains_key(key@)
                    &&& old(self)@[key@] == value@
                    &&& final(self)@ == old(self)@.remove(key@)
                    &&& final(self).count() + 1 == old(self).count()
                },
                None => {
                    &&& !old(self)@.contains_key(key@)
                    &&& final(self)@ == old(self)@
                    &&& final(self).count() == old(self).count()
                },
            },
    {
        proof {
            use_type_invariant(&*self);
        }
        match self.find(key) {
            Some(i) => {
                let mut entries: Vec<(Vec<u8>, V)> = Vec::new();
                core::mem::swap(&mut self.entries, &mut entries);
                proof {
                    lemma_entry(entries@, i as int);
                    lemma_swap_removed(entries@, i as int);
                }
                let removed = entries.swap_remove(i);
                core::mem::swap(&mut self.entries, &mut entries);
                Some(removed.1)
            },
            None => None,
        }
    }
}

} // verus!
