use sparse_merkle_store::{
    compute_null_hashes, DBValue, Hasher, Node, NodeHash, NodeStore, Recorder, Sha3, Tree,
    TreeDBBuilder, TreeDBMutBuilder, TreeError, TreeMut, Value,
};

const DEPTH: usize = 3;

fn values() -> Vec<u32> {
    vec![5, 10, 13, 3, 14, 100, 23, 100]
}

fn keys() -> Vec<Vec<u8>> {
    let mut keys = Vec::new();
    for i in 0..8u8 {
        keys.push(vec![(i >> 2) & 1, (i >> 1) & 1, i & 1]);
    }
    keys
}

/// The dense tree of depth 3 over the eight values, built node by node.
fn dense() -> (NodeStore, Vec<u8>) {
    let mut store = NodeStore::new();
    let mut level: Vec<Vec<u8>> = Vec::new();
    for value in values() {
        let node = Node::Value(Value::Cached(value.to_le_bytes().to_vec()));
        let hash = node.hash::<Sha3>();
        store.emplace(hash.clone(), node.encode());
        level.push(hash);
    }
    while level.len() > 1 {
        let mut above = Vec::new();
        for pair in level.chunks(2) {
            let node = Node::Inner(
                NodeHash::Hash(pair[0].clone()),
                NodeHash::Hash(pair[1].clone()),
            );
            let hash = node.hash::<Sha3>();
            store.emplace(hash.clone(), node.encode());
            above.push(hash);
        }
        level = above;
    }
    (store, level[0].clone())
}

fn empty_root() -> Vec<u8> {
    compute_null_hashes::<Sha3>(DEPTH)[0].clone()
}

#[test]
fn dense_value_at_011() {
    let (store, root) = dense();
    let mut tree = TreeDBBuilder::<Sha3>::new(&store, &root, DEPTH).build();
    assert_eq!(tree.depth(), 3);
    assert_eq!(tree.root(), &root);
    assert_eq!(tree.get_value(&[0, 1, 1]).unwrap(), vec![3, 0, 0, 0]);
}

#[test]
fn dense_leaf_at_011() {
    let (store, root) = dense();
    let mut tree = TreeDBBuilder::<Sha3>::new(&store, &root, DEPTH).build();
    assert_eq!(
        tree.get_leaf(&[0, 1, 1]).unwrap(),
        Sha3::hash(&[3, 0, 0, 0])
    );
}

#[test]
fn dense_proof_indices_at_011() {
    let (store, root) = dense();
    let mut tree = TreeDBBuilder::<Sha3>::new(&store, &root, DEPTH).build();
    let proof = tree.get_proof(&[0, 1, 1]).unwrap();
    // The root first, the sibling pairs from the root down, the value last.
    let order: Vec<usize> = proof.iter().map(|entry| entry.0).collect();
    assert_eq!(order, vec![1, 2, 3, 4, 5, 10, 11, 0]);
    let mut indices = order.clone();
    indices.sort();
    assert_eq!(indices, vec![0, 1, 2, 3, 4, 5, 10, 11]);
    assert_eq!(proof[0].1, root);
    assert_eq!(proof[7].1, vec![3, 0, 0, 0]);
    // Each pair hashes to the entry of its parent.
    let find = |index: usize| -> DBValue {
        proof.iter().find(|entry| entry.0 == index).unwrap().1.clone()
    };
    assert_eq!(Sha3::hash(&[find(2), find(3)].concat()), find(1));
    assert_eq!(Sha3::hash(&[find(4), find(5)].concat()), find(2));
    assert_eq!(Sha3::hash(&[find(10), find(11)].concat()), find(5));
    assert_eq!(Sha3::hash(&find(0)), find(11));
}

#[test]
fn reads_of_an_empty_tree() {
    let store = NodeStore::new();
    let root = empty_root();
    let null_hashes = compute_null_hashes::<Sha3>(DEPTH);
    let mut tree = TreeDBBuilder::<Sha3>::new(&store, &root, DEPTH).build();
    assert_eq!(tree.root(), &null_hashes[0]);
    for key in keys() {
        assert_eq!(tree.get_value(&key).unwrap(), Vec::<u8>::new());
        assert_eq!(tree.get_leaf(&key).unwrap(), null_hashes[DEPTH]);
        assert_eq!(tree.get_leaf(&key).unwrap(), Sha3::hash(&[]));
    }
    let proof = tree.get_proof(&[1, 0, 1]).unwrap();
    assert_eq!(
        proof,
        vec![
            (1, null_hashes[0].clone()),
            (2, null_hashes[1].clone()),
            (3, null_hashes[1].clone()),
            (6, null_hashes[2].clone()),
            (7, null_hashes[2].clone()),
            (12, null_hashes[3].clone()),
            (13, null_hashes[3].clone()),
            (0, Vec::new()),
        ]
    );
    assert_eq!(store.len(), 0);

    let mut writer = TreeDBMutBuilder::<Sha3>::new(NodeStore::new(), empty_root(), DEPTH).build();
    assert_eq!(writer.root(), &null_hashes[0]);
    for key in keys() {
        assert_eq!(writer.get_value(&key).unwrap(), Vec::<u8>::new());
    }
}

#[test]
fn lookups_of_empty_subtrees_depend_on_the_level() {
    let store = NodeStore::new();
    let root = empty_root();
    let null_hashes = compute_null_hashes::<Sha3>(DEPTH);
    let mut tree = TreeDBBuilder::<Sha3>::new(&store, &root, DEPTH).build();
    match tree.lookup(&null_hashes[1], 1).unwrap() {
        Node::Inner(NodeHash::Hash(l), NodeHash::Hash(r)) => {
            assert_eq!(l, null_hashes[2]);
            assert_eq!(r, null_hashes[2]);
        }
        other => panic!("unexpected node {:?}", other),
    }
    match tree.lookup(&null_hashes[3], 3).unwrap() {
        Node::Value(Value::Cached(bytes)) => assert!(bytes.is_empty()),
        other => panic!("unexpected node {:?}", other),
    }
    assert_eq!(
        tree.lookup(&null_hashes[1], 2).err(),
        Some(TreeError::DataNotFound)
    );
    assert_eq!(
        tree.lookup(&vec![0u8; 32], 0).err(),
        Some(TreeError::DataNotFound)
    );
}

#[test]
fn insert_then_commit_reads_the_new_value() {
    let (store, root) = dense();
    let mut tree = TreeDBMutBuilder::<Sha3>::new(store, root, DEPTH).build();
    let key = [1, 0, 1];
    let value = vec![42, 43];
    tree.insert(&key, value.clone()).unwrap();
    assert_eq!(tree.get_value(&key).unwrap(), value);
    assert_eq!(tree.get_leaf(&key).unwrap(), Sha3::hash(&value));
    tree.commit();
    assert_eq!(tree.get_value(&key).unwrap(), value);
    assert_eq!(tree.get_leaf(&key).unwrap(), Sha3::hash(&value));

    // A reader over the committed store sees the same.
    let (store, root, _) = tree.into_parts();
    let mut reader = TreeDBBuilder::<Sha3>::new(&store, &root, DEPTH).build();
    assert_eq!(reader.get_value(&key).unwrap(), value);
    assert_eq!(reader.get_leaf(&key).unwrap(), Sha3::hash(&value));
}

#[test]
fn insert_preserves_the_other_values() {
    let (store, root) = dense();
    let mut tree = TreeDBMutBuilder::<Sha3>::new(store, root, DEPTH).build();
    let key = vec![1, 0, 1];
    tree.insert(&key, vec![42]).unwrap();
    for (k, v) in keys().iter().zip(values()) {
        if *k != key {
            assert_eq!(tree.get_value(k).unwrap(), v.to_le_bytes().to_vec());
            assert_eq!(tree.get_leaf(k).unwrap(), Sha3::hash(&v.to_le_bytes()));
        }
    }
    tree.commit();
    for (k, v) in keys().iter().zip(values()) {
        if *k != key {
            assert_eq!(tree.get_value(k).unwrap(), v.to_le_bytes().to_vec());
        }
    }
}

#[test]
fn insert_returns_the_previous_value() {
    let (store, root) = dense();
    let mut tree = TreeDBMutBuilder::<Sha3>::new(store, root, DEPTH).build();
    for (k, v) in keys().iter().zip(values()) {
        let before = tree.get_value(k).unwrap();
        assert_eq!(before, v.to_le_bytes().to_vec());
        assert_eq!(tree.insert(k, vec![k[2], 9]).unwrap(), before);
        assert_eq!(tree.insert(k, vec![1]).unwrap(), vec![k[2], 9]);
    }
    let mut fresh = TreeDBMutBuilder::<Sha3>::new(NodeStore::new(), empty_root(), DEPTH).build();
    assert_eq!(fresh.insert(&[0, 1, 0], vec![7]).unwrap(), Vec::<u8>::new());
}

#[test]
fn commit_root_after_insert_at_011() {
    let (store, root) = dense();
    let mut tree = TreeDBMutBuilder::<Sha3>::new(store, root, DEPTH).build();
    tree.insert(&[0, 1, 1], vec![67, 0, 0, 0]).unwrap();
    tree.commit();
    let expected: Vec<u8> = vec![
        0xDD, 0x8B, 0x60, 0x3F, 0xBA, 0x0F, 0x33, 0x7C, 0xF0, 0xEE, 0xE8, 0x5E, 0x2D, 0xC8, 0xC9,
        0xDD, 0xD2, 0x80, 0x43, 0x0E, 0x1E, 0xFC, 0xC0, 0x4C, 0xC2, 0x1F, 0x8F, 0x74, 0xAB, 0xB2,
        0x98, 0x62,
    ];
    assert_eq!(tree.root(), &expected);
}

#[test]
fn writes_reach_the_store_on_commit_only() {
    let (store, root) = dense();
    let entries = store.len();
    let mut tree = TreeDBMutBuilder::<Sha3>::new(store, root.clone(), DEPTH).build();
    tree.insert(&[0, 0, 1], vec![1, 2, 3]).unwrap();
    assert_eq!(tree.db().len(), entries);
    assert!(!tree.db().contains(&Sha3::hash(&[1, 2, 3])));
    // The proof's entry for the root is the root as of the last commit.
    let proof = tree.get_proof(&[0, 0, 1]).unwrap();
    assert_eq!(proof[0], (1, root.clone()));
    assert_eq!(proof[7], (0, vec![1, 2, 3]));
    tree.commit();
    // The new value and the three rewritten nodes above it.
    assert_eq!(tree.db().len(), entries + 4);
    assert_eq!(
        tree.db().get(&Sha3::hash(&[1, 2, 3])),
        Some(vec![0, 1, 2, 3])
    );
    let new_root = tree.root().clone();
    assert_ne!(new_root, root);
    let proof = tree.get_proof(&[0, 0, 1]).unwrap();
    assert_eq!(proof[0], (1, new_root.clone()));
    // Every stored entry is stored under the digest of the node it encodes.
    for i in 0..tree.db().len() {
        let (key, bytes) = tree.db().entry(i);
        let node = Node::decode::<Sha3>(bytes.clone()).unwrap();
        assert_eq!(&node.hash::<Sha3>(), key);
    }
    // The old root still reads the old value.
    let (store, _, _) = tree.into_parts();
    let mut old = TreeDBBuilder::<Sha3>::new(&store, &root, DEPTH).build();
    assert_eq!(old.get_value(&[0, 0, 1]).unwrap(), vec![10, 0, 0, 0]);
    let mut new = TreeDBBuilder::<Sha3>::new(&store, &new_root, DEPTH).build();
    assert_eq!(new.get_value(&[0, 0, 1]).unwrap(), vec![1, 2, 3]);
}

#[test]
fn dropping_without_commit_discards_the_writes() {
    let (store, root) = dense();
    let entries = store.len();
    let mut tree = TreeDBMutBuilder::<Sha3>::new(store, root.clone(), DEPTH).build();
    tree.insert(&[1, 1, 1], vec![8]).unwrap();
    let (store, held, _) = tree.into_parts();
    assert_eq!(held, root);
    assert_eq!(store.len(), entries);
}

#[test]
fn commit_is_idempotent() {
    let (store, root) = dense();
    let mut tree = TreeDBMutBuilder::<Sha3>::new(store, root, DEPTH).build();
    tree.insert(&[0, 0, 0], vec![1]).unwrap();
    tree.insert(&[1, 1, 0], vec![2]).unwrap();
    tree.insert(&[0, 0, 0], vec![3]).unwrap();
    tree.commit();
    let first = tree.root().clone();
    let entries = tree.db().len();
    tree.commit();
    tree.commit();
    assert_eq!(tree.root(), &first);
    assert_eq!(tree.db().len(), entries);
    assert_eq!(tree.get_value(&[0, 0, 0]).unwrap(), vec![3]);
    assert_eq!(tree.get_value(&[1, 1, 0]).unwrap(), vec![2]);
    assert_eq!(tree.get_value(&[0, 0, 1]).unwrap(), vec![10, 0, 0, 0]);
}

#[test]
fn commit_without_insert_changes_nothing() {
    let (store, root) = dense();
    let entries = store.len();
    let mut tree = TreeDBMutBuilder::<Sha3>::new(store, root.clone(), DEPTH).build();
    tree.commit();
    assert_eq!(tree.root(), &root);
    assert_eq!(tree.db().len(), entries);
}

#[test]
fn sparse_insert_and_read_of_a_null_leaf() {
    let null_hashes = compute_null_hashes::<Sha3>(DEPTH);
    let mut tree = TreeDBMutBuilder::<Sha3>::new(NodeStore::new(), empty_root(), DEPTH).build();
    assert_eq!(tree.insert(&[0, 0, 0], vec![1]).unwrap(), Vec::<u8>::new());
    assert_eq!(tree.get_value(&[1, 1, 1]).unwrap(), Vec::<u8>::new());
    assert_eq!(tree.get_leaf(&[1, 1, 1]).unwrap(), null_hashes[DEPTH]);
    assert_eq!(tree.get_value(&[0, 0, 0]).unwrap(), vec![1]);
    assert_eq!(tree.get_value(&[0, 0, 1]).unwrap(), Vec::<u8>::new());
    let root = tree.root().clone();
    // The root of the tree with one leaf, by hand.
    let leaf = Sha3::hash(&[1]);
    let n2 = Sha3::hash(&[leaf.as_slice(), null_hashes[3].as_slice()].concat());
    let n1 = Sha3::hash(&[n2.as_slice(), null_hashes[2].as_slice()].concat());
    let n0 = Sha3::hash(&[n1.as_slice(), null_hashes[1].as_slice()].concat());
    assert_eq!(root, n0);
    assert_eq!(tree.get_value(&[1, 1, 1]).unwrap(), Vec::<u8>::new());
    assert_eq!(tree.get_leaf(&[1, 1, 1]).unwrap(), null_hashes[DEPTH]);
    assert_eq!(tree.db().len(), 4);
}

#[test]
fn key_length_is_checked() {
    let (store, root) = dense();
    let mut tree = TreeDBBuilder::<Sha3>::new(&store, &root, DEPTH).build();
    for key in [vec![], vec![0, 1], vec![0, 1, 1, 0]] {
        assert_eq!(tree.get_value(&key).err(), Some(TreeError::IndexOutOfBounds));
        assert_eq!(tree.get_leaf(&key).err(), Some(TreeError::IndexOutOfBounds));
        assert_eq!(tree.get_proof(&key).err(), Some(TreeError::IndexOutOfBounds));
    }
    let mut writer = TreeDBMutBuilder::<Sha3>::new(NodeStore::new(), empty_root(), DEPTH).build();
    for key in [vec![], vec![0, 1], vec![0, 1, 1, 0]] {
        assert_eq!(writer.get_value(&key).err(), Some(TreeError::IndexOutOfBounds));
        assert_eq!(writer.get_leaf(&key).err(), Some(TreeError::IndexOutOfBounds));
        assert_eq!(writer.get_proof(&key).err(), Some(TreeError::IndexOutOfBounds));
        assert_eq!(
            writer.insert(&key, vec![1]).err(),
            Some(TreeError::IndexOutOfBounds)
        );
    }
    assert_eq!(writer.db().len(), 0);
    assert_eq!(writer.root(), &empty_root());
}

#[test]
fn key_bytes_other_than_bits_are_rejected() {
    let (store, root) = dense();
    let mut tree = TreeDBBuilder::<Sha3>::new(&store, &root, DEPTH).build();
    for key in [[2, 0, 0], [0, 2, 0], [0, 0, 2], [1, 255, 1]] {
        assert_eq!(
            tree.get_value(&key).err(),
            Some(TreeError::NodeIndexOutOfBounds)
        );
        assert_eq!(
            tree.get_leaf(&key).err(),
            Some(TreeError::NodeIndexOutOfBounds)
        );
        assert_eq!(
            tree.get_proof(&key).err(),
            Some(TreeError::NodeIndexOutOfBounds)
        );
    }
    let mut writer = TreeDBMutBuilder::<Sha3>::new(store, root.clone(), DEPTH).build();
    for key in [[2, 0, 0], [0, 2, 0], [0, 0, 2]] {
        assert_eq!(
            writer.insert(&key, vec![1]).err(),
            Some(TreeError::NodeIndexOutOfBounds)
        );
    }
    // Nothing was staged.
    writer.commit();
    assert_eq!(writer.root(), &root);
}

#[test]
fn unknown_digests_are_not_found() {
    let store = NodeStore::new();
    let root = Sha3::hash(b"no such root");
    let mut tree = TreeDBBuilder::<Sha3>::new(&store, &root, DEPTH).build();
    assert_eq!(tree.get_value(&[0, 0, 0]).err(), Some(TreeError::DataNotFound));
    assert_eq!(tree.get_leaf(&[0, 0, 0]).err(), Some(TreeError::DataNotFound));
    assert_eq!(tree.get_proof(&[0, 0, 0]).err(), Some(TreeError::DataNotFound));
    assert_eq!(tree.get(&[]).err(), Some(TreeError::DataNotFound));
    let mut writer = TreeDBMutBuilder::<Sha3>::new(NodeStore::new(), root, DEPTH).build();
    assert_eq!(
        writer.insert(&[0, 0, 0], vec![1]).err(),
        Some(TreeError::DataNotFound)
    );
}

#[test]
fn a_value_above_the_leaves_is_unexpected() {
    // A store whose root is a value node.
    let mut store = NodeStore::new();
    let value = Node::Value(Value::Cached(vec![1]));
    let root = value.hash::<Sha3>();
    store.emplace(root.clone(), value.encode());
    let mut tree = TreeDBBuilder::<Sha3>::new(&store, &root, DEPTH).build();
    assert_eq!(
        tree.get_value(&[0, 0, 0]).err(),
        Some(TreeError::UnexpectedNodeType)
    );
    assert_eq!(
        tree.get_proof(&[0, 0, 0]).err(),
        Some(TreeError::UnexpectedNodeType)
    );
    // An inner node at the leaves.
    let (dense_store, dense_root) = super_dense();
    let mut shallow = TreeDBBuilder::<Sha3>::new(&dense_store, &dense_root, 2).build();
    assert_eq!(
        shallow.get_value(&[0, 1]).err(),
        Some(TreeError::UnexpectedNodeType)
    );
    assert!(shallow.get_leaf(&[0, 1]).is_ok());
}

fn super_dense() -> (NodeStore, Vec<u8>) {
    dense()
}

#[test]
fn malformed_stored_bytes_fail_to_decode() {
    let mut store = NodeStore::new();
    let root = Sha3::hash(b"root");
    store.emplace(root.clone(), vec![7, 7]);
    let mut tree = TreeDBBuilder::<Sha3>::new(&store, &root, DEPTH).build();
    assert_eq!(
        tree.get_value(&[0, 0, 0]).err(),
        Some(TreeError::NodeDeserializationFailed)
    );
    let mut store = NodeStore::new();
    store.emplace(root.clone(), vec![1, 7]);
    let mut tree = TreeDBBuilder::<Sha3>::new(&store, &root, DEPTH).build();
    assert_eq!(
        tree.get_value(&[0, 0, 0]).err(),
        Some(TreeError::DecodeHashFailed)
    );
}

#[test]
fn recorder_sees_stored_nodes_only() {
    let store = NodeStore::new();
    let root = empty_root();
    let mut tree = TreeDBBuilder::<Sha3>::new(&store, &root, DEPTH)
        .with_recorder(Recorder::new())
        .build();
    tree.get_value(&[0, 1, 0]).unwrap();
    tree.get_proof(&[1, 1, 0]).unwrap();
    let mut recorder = tree.into_recorder().unwrap();
    assert_eq!(recorder.drain().len(), 0);

    let (store, root) = dense();
    let mut tree = TreeDBBuilder::<Sha3>::new(&store, &root, DEPTH)
        .with_optional_recorder(Some(Recorder::new()))
        .build();
    tree.get_value(&[0, 1, 0]).unwrap();
    let mut recorder = tree.into_recorder().unwrap();
    let nodes = recorder.drain();
    // The root, two inner nodes and the value.
    assert_eq!(nodes.len(), 4);
    assert_eq!(nodes[0].hash::<Sha3>(), root);
    assert_eq!(nodes[3].encode(), vec![0, 13, 0, 0, 0]);

    let mut tree = TreeDBBuilder::<Sha3>::new(&store, &root, DEPTH)
        .with_optional_recorder(None::<Recorder>)
        .build();
    tree.get_value(&[0, 1, 0]).unwrap();
    assert!(tree.into_recorder().is_none());

    // Staged nodes are not recorded.
    let mut writer = TreeDBMutBuilder::<Sha3>::new(NodeStore::new(), empty_root(), DEPTH)
        .with_recorder(Recorder::new())
        .build();
    writer.insert(&[0, 0, 0], vec![1]).unwrap();
    writer.get_value(&[0, 0, 0]).unwrap();
    let (_, _, recorder) = writer.into_parts();
    assert_eq!(recorder.unwrap().drain().len(), 0);
}

#[test]
fn replay_gives_the_same_reads_and_the_same_errors() {
    let (store, root) = dense();
    let mut tree = TreeDBBuilder::<Sha3>::new(&store, &root, DEPTH)
        .with_recorder(Recorder::new())
        .build();
    let reads: Vec<Vec<u8>> = vec![vec![1, 0, 0], vec![1, 0, 1], vec![0, 2, 0], vec![0, 1]];
    let mut expected = Vec::new();
    for key in &reads {
        expected.push((
            tree.get_value(key),
            if key.len() == DEPTH { Some(tree.get_leaf(key)) } else { None },
            tree.get_proof(key),
        ));
    }
    let proof = tree.into_recorder().unwrap().drain_storage_proof();
    let replayed = proof.into_memory_db::<Sha3>();
    // The root, its right child, one inner node below and two values.
    assert_eq!(replayed.len(), 6);
    let mut replay = TreeDBBuilder::<Sha3>::new(&replayed, &root, DEPTH).build();
    for (key, want) in reads.iter().zip(expected) {
        assert_eq!(replay.get_value(key), want.0);
        if let Some(leaf) = want.1 {
            assert_eq!(replay.get_leaf(key), leaf);
        }
        assert_eq!(replay.get_proof(key), want.2);
    }
    // What was not read is not in the proof.
    assert_eq!(
        replay.get_value(&[0, 0, 0]).err(),
        Some(TreeError::DataNotFound)
    );
}

#[test]
fn writer_lookup_prefers_staged_nodes() {
    let (store, root) = dense();
    let mut tree = TreeDBMutBuilder::<Sha3>::new(store, root.clone(), DEPTH).build();
    tree.insert(&[0, 0, 0], vec![6]).unwrap();
    match tree.lookup(&Sha3::hash(&[6]), DEPTH).unwrap() {
        Node::Value(Value::New(bytes)) => assert_eq!(bytes, vec![6]),
        other => panic!("unexpected node {:?}", other),
    }
    match tree.get(&[0, 0]).unwrap() {
        Node::Inner(NodeHash::InMemory(l), NodeHash::Hash(r)) => {
            assert_eq!(l, Sha3::hash(&[6]));
            assert_eq!(r, Sha3::hash(&10u32.to_le_bytes()));
        }
        other => panic!("unexpected node {:?}", other),
    }
    match tree.lookup(&root, 0).unwrap() {
        Node::Inner(NodeHash::Hash(_), NodeHash::Hash(_)) => {}
        other => panic!("unexpected node {:?}", other),
    }
    assert_eq!(tree.depth(), DEPTH);
}

#[test]
fn a_tree_without_levels_holds_one_value() {
    let mut store = NodeStore::new();
    let value = Node::Value(Value::Cached(vec![4, 2]));
    let root = value.hash::<Sha3>();
    store.emplace(root.clone(), value.encode());
    let mut tree = TreeDBBuilder::<Sha3>::new(&store, &root, 0).build();
    assert_eq!(tree.depth(), 0);
    assert_eq!(tree.get_value(&[]).unwrap(), vec![4, 2]);
    assert_eq!(
        tree.get_proof(&[]).unwrap(),
        vec![(1, root.clone()), (0, vec![4, 2])]
    );
    assert_eq!(tree.get_value(&[0]).err(), Some(TreeError::IndexOutOfBounds));

    let empty = NodeStore::new();
    let empty_root = Sha3::hash(&[]);
    let mut tree = TreeDBBuilder::<Sha3>::new(&empty, &empty_root, 0).build();
    assert_eq!(tree.get_value(&[]).unwrap(), Vec::<u8>::new());
}

#[test]
fn paths_below_the_leaves_find_nothing() {
    let store = NodeStore::new();
    let root = empty_root();
    let null_hashes = compute_null_hashes::<Sha3>(DEPTH);
    let mut tree = TreeDBBuilder::<Sha3>::new(&store, &root, DEPTH).build();
    assert_eq!(
        tree.lookup(&null_hashes[DEPTH], DEPTH + 1).err(),
        Some(TreeError::DataNotFound)
    );
    assert_eq!(
        tree.get(&[0, 0, 0, 0]).err(),
        Some(TreeError::UnexpectedNodeType)
    );
    assert!(tree.get(&[0, 0, 0]).is_ok());
}

#[test]
fn the_store_of_a_writer_can_be_filled_from_outside() {
    let mut tree = TreeDBMutBuilder::<Sha3>::new(NodeStore::new(), empty_root(), DEPTH).build();
    let value = Node::Value(Value::Cached(vec![5]));
    tree.db_mut().emplace(value.hash::<Sha3>(), value.encode());
    assert_eq!(tree.db().len(), 1);
    match tree.lookup(&value.hash::<Sha3>(), DEPTH).unwrap() {
        Node::Value(Value::Cached(bytes)) => assert_eq!(bytes, vec![5]),
        other => panic!("unexpected node {:?}", other),
    }
}

#[test]
fn inserting_the_same_value_twice() {
    let (store, root) = dense();
    let mut tree = TreeDBMutBuilder::<Sha3>::new(store, root.clone(), DEPTH).build();
    // The value that the key has already: the tree stays the same tree.
    assert_eq!(
        tree.insert(&[0, 1, 1], vec![3, 0, 0, 0]).unwrap(),
        vec![3, 0, 0, 0]
    );
    assert_eq!(tree.root(), &root);
    // The same value at two keys.
    tree.insert(&[0, 0, 0], vec![9]).unwrap();
    tree.insert(&[1, 1, 1], vec![9]).unwrap();
    tree.commit();
    assert_eq!(tree.get_value(&[0, 0, 0]).unwrap(), vec![9]);
    assert_eq!(tree.get_value(&[1, 1, 1]).unwrap(), vec![9]);
    assert_eq!(tree.get_leaf(&[0, 0, 0]).unwrap(), tree.get_leaf(&[1, 1, 1]).unwrap());
    assert_eq!(tree.get_value(&[0, 1, 1]).unwrap(), vec![3, 0, 0, 0]);
}

#[test]
fn a_value_made_of_two_child_digests_takes_the_place_of_their_parent() {
    // The tag byte is not hashed: the value `left || right` has the digest
    // of the inner node with these children.
    let (store, root) = dense();
    let mut tree = TreeDBMutBuilder::<Sha3>::new(store, root, DEPTH).build();
    let (left, right) = match tree.get(&[1]).unwrap() {
        Node::Inner(l, r) => (l.get_hash().clone(), r.get_hash().clone()),
        other => panic!("unexpected node {:?}", other),
    };
    let value = [left.as_slice(), right.as_slice()].concat();
    tree.insert(&[0, 0, 0], value.clone()).unwrap();
    assert_eq!(tree.get_value(&[0, 0, 0]).unwrap(), value);
    // While the value is staged it is found in place of the inner node.
    assert_eq!(
        tree.get_value(&[1, 0, 0]).err(),
        Some(TreeError::UnexpectedNodeType)
    );
    // Once committed, the store keeps the inner node that it had.
    tree.commit();
    assert_eq!(tree.get_value(&[1, 0, 0]).unwrap(), vec![14, 0, 0, 0]);
    assert_eq!(
        tree.get_value(&[0, 0, 0]).err(),
        Some(TreeError::UnexpectedNodeType)
    );
}
