use std::collections::HashMap;

use sparse_merkle_store::{
    compute_null_hashes, Hasher, Node, NodeStore, Recorder, Sha3, Tree, TreeDBBuilder,
    TreeDBMutBuilder, TreeMut,
};

const DEPTH: usize = 4;

/// A small linear congruential generator, for repeatable inputs.
struct Lcg(u64);

impl Lcg {
    fn next(&mut self) -> u64 {
        self.0 = self
            .0
            .wrapping_mul(6364136223846793005)
            .wrapping_add(1442695040888963407);
        self.0 >> 33
    }

    fn key(&mut self) -> Vec<u8> {
        let bits = self.next();
        (0..DEPTH).map(|i| ((bits >> i) & 1) as u8).collect()
    }

    fn value(&mut self) -> Vec<u8> {
        let len = (self.next() % 5) as usize;
        (0..len).map(|_| (self.next() % 256) as u8).collect()
    }
}

fn all_keys() -> Vec<Vec<u8>> {
    (0..1u32 << DEPTH)
        .map(|n| (0..DEPTH).map(|i| ((n >> (DEPTH - 1 - i)) & 1) as u8).collect())
        .collect()
}

#[test]
fn inserts_and_commits_agree_with_a_map() {
    let mut rng = Lcg(7);
    let mut model: HashMap<Vec<u8>, Vec<u8>> = HashMap::new();
    let root = compute_null_hashes::<Sha3>(DEPTH)[0].clone();
    let mut tree = TreeDBMutBuilder::<Sha3>::new(NodeStore::new(), root, DEPTH).build();
    for step in 0..150 {
        let key = rng.key();
        let value = rng.value();
        let before = model.get(&key).cloned().unwrap_or_default();
        assert_eq!(tree.get_value(&key).unwrap(), before);
        assert_eq!(tree.insert(&key, value.clone()).unwrap(), before);
        model.insert(key.clone(), value.clone());
        if step % 7 == 0 {
            tree.commit();
        }
        for k in all_keys() {
            let want = model.get(&k).cloned().unwrap_or_default();
            assert_eq!(tree.get_value(&k).unwrap(), want);
            assert_eq!(tree.get_leaf(&k).unwrap(), Sha3::hash(&want));
        }
    }
    let root = tree.root().clone();
    let (store, held, _) = tree.into_parts();
    assert_eq!(held, root);
    // Every stored entry is stored under the digest of the node it encodes.
    for i in 0..store.len() {
        let (key, bytes) = store.entry(i);
        assert_eq!(&Node::decode::<Sha3>(bytes.clone()).unwrap().hash::<Sha3>(), key);
    }
    // A reader of the committed tree sees the map, and its reads replay.
    let mut reader = TreeDBBuilder::<Sha3>::new(&store, &root, DEPTH)
        .with_recorder(Recorder::new())
        .build();
    let mut reads = Vec::new();
    for k in all_keys().into_iter().step_by(3) {
        let want = model.get(&k).cloned().unwrap_or_default();
        assert_eq!(reader.get_value(&k).unwrap(), want);
        reads.push((k.clone(), reader.get_leaf(&k), reader.get_proof(&k)));
    }
    let proof = reader.into_recorder().unwrap().drain_storage_proof();
    let replayed = proof.into_memory_db::<Sha3>();
    assert!(replayed.len() <= store.len());
    let mut replay = TreeDBBuilder::<Sha3>::new(&replayed, &root, DEPTH).build();
    for (k, leaf, proof) in reads {
        let want = model.get(&k).cloned().unwrap_or_default();
        assert_eq!(replay.get_value(&k).unwrap(), want);
        assert_eq!(replay.get_leaf(&k), leaf);
        assert_eq!(replay.get_proof(&k), proof);
    }
}

#[test]
fn the_root_depends_on_the_content_alone() {
    // The same values inserted in two orders, with commits at other times.
    let pairs: Vec<(Vec<u8>, Vec<u8>)> = vec![
        (vec![0, 0, 0, 0], vec![1]),
        (vec![1, 0, 1, 0], vec![2, 2]),
        (vec![1, 1, 1, 1], vec![3]),
        (vec![0, 1, 1, 0], vec![4, 4, 4]),
    ];
    let root = compute_null_hashes::<Sha3>(DEPTH)[0].clone();
    let mut first = TreeDBMutBuilder::<Sha3>::new(NodeStore::new(), root.clone(), DEPTH).build();
    for (k, v) in &pairs {
        first.insert(k, v.clone()).unwrap();
    }
    let mut second = TreeDBMutBuilder::<Sha3>::new(NodeStore::new(), root, DEPTH).build();
    for (k, v) in pairs.iter().rev() {
        second.insert(k, vec![9]).unwrap();
        second.commit();
        second.insert(k, v.clone()).unwrap();
    }
    assert_eq!(first.root().clone(), second.root().clone());
}
