use sparse_merkle_store::indices::compute_index;
use sparse_merkle_store::{
    compute_null_hashes, decode_hash, Hasher, Key, Node, NodeHash, NodeStore, Recorder, Sha3,
    StorageProof, TreeError, TreeRecorder, Value,
};

fn hex(bytes: &[u8]) -> String {
    let mut out = String::new();
    for b in bytes {
        out.push_str(&format!("{:02x}", b));
    }
    out
}

#[test]
fn sha3_digest_of_known_inputs() {
    assert_eq!(Sha3::length(), 32);
    assert_eq!(
        hex(&Sha3::hash(&[])),
        "a7ffc6f8bf1ed76651c14756a061d662f580ff4de43b49fa82d80a4b80f8434a"
    );
    assert_eq!(
        hex(&Sha3::hash(b"abc")),
        "3a985da74fe225b2045c172d6bd390bd855f086e3e9d525b46bfe24511431532"
    );
    assert_ne!(Sha3::hash(b"abc"), b"abc".to_vec());
}

#[test]
fn value_node_wire_form_and_digest() {
    let node = Node::Value(Value::New(vec![3, 0, 0, 0]));
    assert_eq!(node.encode(), vec![0, 3, 0, 0, 0]);
    // The tag is not hashed.
    assert_eq!(node.hash::<Sha3>(), Sha3::hash(&[3, 0, 0, 0]));
    let bytes: Vec<u8> = node.into();
    assert_eq!(bytes, vec![0, 3, 0, 0, 0]);
    let empty = Node::Value(Value::Cached(Vec::new()));
    assert_eq!(empty.encode(), vec![0]);
    assert_eq!(empty.hash::<Sha3>(), Sha3::hash(&[]));
}

#[test]
fn inner_node_wire_form_and_digest() {
    let left = Sha3::hash(b"left");
    let right = Sha3::hash(b"right");
    let node = Node::Inner(NodeHash::InMemory(left.clone()), NodeHash::Hash(right.clone()));
    let mut expected = vec![1u8];
    expected.extend_from_slice(&left);
    expected.extend_from_slice(&right);
    assert_eq!(node.encode(), expected);
    assert_eq!(node.encode().len(), 65);
    assert_eq!(node.hash::<Sha3>(), Sha3::hash(&expected[1..]));
}

#[test]
fn decode_gives_back_what_was_encoded() {
    let value = Node::Value(Value::New(vec![9, 8, 7]));
    match Node::decode::<Sha3>(value.encode()).unwrap() {
        Node::Value(Value::Cached(bytes)) => assert_eq!(bytes, vec![9, 8, 7]),
        other => panic!("unexpected node {:?}", other),
    }
    let left = Sha3::hash(b"l");
    let right = Sha3::hash(b"r");
    let inner = Node::Inner(NodeHash::InMemory(left.clone()), NodeHash::Hash(right.clone()));
    match Node::decode::<Sha3>(inner.encode()).unwrap() {
        Node::Inner(NodeHash::Hash(l), NodeHash::Hash(r)) => {
            assert_eq!(l, left);
            assert_eq!(r, right);
        }
        other => panic!("unexpected node {:?}", other),
    }
    // What decodes encodes to the same bytes.
    let bytes = inner.encode();
    assert_eq!(Node::decode::<Sha3>(bytes.clone()).unwrap().encode(), bytes);
}

#[test]
fn decode_rejects_malformed_buffers() {
    assert_eq!(
        Node::decode::<Sha3>(vec![]).err(),
        Some(TreeError::NodeDeserializationFailed)
    );
    assert_eq!(
        Node::decode::<Sha3>(vec![2, 1, 2, 3]).err(),
        Some(TreeError::NodeDeserializationFailed)
    );
    assert_eq!(
        Node::decode::<Sha3>(vec![255]).err(),
        Some(TreeError::NodeDeserializationFailed)
    );
    let mut too_long = vec![1u8];
    too_long.extend_from_slice(&[7u8; 65]);
    assert_eq!(
        Node::decode::<Sha3>(too_long).err(),
        Some(TreeError::DecodeHashFailed)
    );
}

#[test]
fn decode_rejects_every_prefix_of_an_inner_node() {
    let inner = Node::Inner(
        NodeHash::Hash(Sha3::hash(b"l")),
        NodeHash::Hash(Sha3::hash(b"r")),
    );
    let bytes = inner.encode();
    assert!(Node::decode::<Sha3>(bytes.clone()).is_ok());
    for n in 0..bytes.len() {
        let result = Node::decode::<Sha3>(bytes[..n].to_vec());
        if n == 0 {
            assert_eq!(result.err(), Some(TreeError::NodeDeserializationFailed));
        } else {
            assert_eq!(result.err(), Some(TreeError::DecodeHashFailed));
        }
    }
}

#[test]
fn decode_hash_checks_the_length() {
    let digest = Sha3::hash(b"x");
    assert_eq!(decode_hash::<Sha3>(&digest).unwrap(), digest);
    assert_eq!(
        decode_hash::<Sha3>(&digest[..31]).err(),
        Some(TreeError::DecodeHashFailed)
    );
    assert_eq!(
        decode_hash::<Sha3>(&[]).err(),
        Some(TreeError::DecodeHashFailed)
    );
}

#[test]
fn node_children_and_values() {
    let left = Sha3::hash(b"l");
    let right = Sha3::hash(b"r");
    let mut inner = Node::Inner(NodeHash::Hash(left.clone()), NodeHash::Hash(right.clone()));
    assert_eq!(inner.get_child(0).unwrap().get_hash(), &left);
    assert_eq!(inner.get_child(1).unwrap().get_hash(), &right);
    assert_eq!(inner.get_left_child().unwrap().get_hash(), &left);
    assert_eq!(inner.get_right_child().unwrap().get_hash(), &right);
    assert_eq!(
        inner.get_child(2).err(),
        Some(TreeError::NodeIndexOutOfBounds)
    );
    assert_eq!(inner.get_value().err(), Some(TreeError::UnexpectedNodeType));

    let other = Sha3::hash(b"o");
    assert_eq!(
        inner
            .set_child_hash(1, NodeHash::InMemory(other.clone()))
            .unwrap(),
        right
    );
    assert_eq!(inner.get_child(1).unwrap().get_hash(), &other);
    assert!(matches!(inner.get_child(1).unwrap(), NodeHash::InMemory(_)));
    assert_eq!(inner.get_child(0).unwrap().get_hash(), &left);
    assert_eq!(
        inner
            .set_left_child_hash(NodeHash::Hash(right.clone()))
            .unwrap(),
        left
    );
    assert_eq!(
        inner
            .set_rigth_child_hash(NodeHash::Hash(left.clone()))
            .unwrap(),
        other
    );
    assert_eq!(inner.get_child(0).unwrap().get_hash(), &right);
    assert_eq!(inner.get_child(1).unwrap().get_hash(), &left);
    assert_eq!(
        inner.set_child_hash(7, NodeHash::Hash(left.clone())).err(),
        Some(TreeError::NodeIndexOutOfBounds)
    );
    assert_eq!(
        inner.set_value::<Sha3>(Value::New(vec![1])).err(),
        Some(TreeError::UnexpectedNodeType)
    );

    let mut value = Node::Value(Value::Cached(vec![1, 2]));
    assert_eq!(value.get_value().unwrap().get(), &vec![1, 2]);
    assert_eq!(value.get_child(0).err(), Some(TreeError::UnexpectedNodeType));
    assert_eq!(value.get_child(1).err(), Some(TreeError::UnexpectedNodeType));
    assert_eq!(
        value.get_child(2).err(),
        Some(TreeError::NodeIndexOutOfBounds)
    );
    assert_eq!(
        value
            .set_child_hash(0, NodeHash::Hash(left.clone()))
            .err(),
        Some(TreeError::UnexpectedNodeType)
    );
    assert_eq!(
        value.set_value::<Sha3>(Value::New(vec![5])).unwrap(),
        Sha3::hash(&[1, 2])
    );
    assert_eq!(value.get_value().unwrap().get(), &vec![5]);
    assert!(matches!(value.get_value().unwrap(), Value::New(_)));
    let copy = value.clone();
    assert_eq!(copy.encode(), value.encode());
}

#[test]
fn heap_indices_of_paths() {
    assert_eq!(compute_index(&[]), 1);
    assert_eq!(compute_index(&[0]), 2);
    assert_eq!(compute_index(&[1]), 3);
    assert_eq!(compute_index(&[0, 1]), 5);
    assert_eq!(compute_index(&[0, 1, 1]), 11);
    assert_eq!(compute_index(&[1, 1, 1]), 15);
    assert_eq!(compute_index(&[1, 0, 0, 0]), 24);
    // Each step lands on one of the two children of the node above.
    let key = [1u8, 0, 1, 1, 0];
    for i in 0..key.len() {
        let parent = compute_index(&key[..i]);
        let child = compute_index(&key[..i + 1]);
        assert_eq!(child, 2 * parent + key[i] as usize);
    }
}

#[test]
fn null_hashes_follow_the_chain() {
    let depth = 3;
    let null_hashes = compute_null_hashes::<Sha3>(depth);
    assert_eq!(null_hashes.len(), depth + 1);
    let mut h = Sha3::hash(&[]);
    assert_eq!(null_hashes[depth], h);
    for level in (0..depth).rev() {
        h = Sha3::hash(&[h.as_slice(), h.as_slice()].concat());
        assert_eq!(null_hashes[level], h);
    }
    assert_eq!(compute_null_hashes::<Sha3>(0), vec![Sha3::hash(&[])]);
}

#[test]
fn key_bits() {
    let key = Key::<2>::new([0b1010_0000, 0b0000_0001]);
    assert_eq!(key.as_slice(), &[0b1010_0000, 0b0000_0001]);
    assert!(key.get_bit(&0));
    assert!(!key.get_bit(&1));
    assert!(key.get_bit(&2));
    assert!(!key.get_bit(&3));
    assert!(!key.get_bit(&14));
    assert!(key.get_bit(&15));
    assert!(!key.is_zero());
    assert!(Key::<2>::zero().is_zero());
    assert_eq!(Key::<2>::zero().as_slice(), &[0, 0]);
    assert!(Key::<2>::zero() == Key::<2>::new([0, 0]));

    let mut bits = Vec::new();
    let mut iter = key.iter();
    while let Some(bit) = iter.next() {
        bits.push(bit);
    }
    assert_eq!(bits.len(), 16);
    assert_eq!(
        bits,
        vec![
            true, false, true, false, false, false, false, false, false, false, false, false,
            false, false, false, true
        ]
    );
    assert_eq!(iter.next(), None);
}

#[test]
fn node_store_keeps_the_first_value() {
    let mut store = NodeStore::new();
    assert_eq!(store.len(), 0);
    assert!(!store.contains(&[1, 2]));
    assert_eq!(store.get(&[1, 2]), None);
    store.emplace(vec![1, 2], vec![0, 9]);
    assert!(store.contains(&[1, 2]));
    assert_eq!(store.get(&[1, 2]), Some(vec![0, 9]));
    store.emplace(vec![1, 2], vec![0, 7]);
    assert_eq!(store.get(&[1, 2]), Some(vec![0, 9]));
    store.emplace(vec![1], vec![0, 7]);
    assert_eq!(store.get(&[1]), Some(vec![0, 7]));
    assert_eq!(store.len(), 2);
    let mut seen = Vec::new();
    for i in 0..store.len() {
        let (key, value) = store.entry(i);
        seen.push((key.clone(), value.clone()));
    }
    seen.sort();
    assert_eq!(seen, vec![(vec![1], vec![0, 7]), (vec![1, 2], vec![0, 9])]);
}

#[test]
fn storage_proof_is_an_ascending_set() {
    let proof = StorageProof::new(vec![
        vec![1, 2],
        vec![0, 5],
        vec![1],
        vec![0, 5],
        vec![1, 2, 0],
        vec![1],
    ]);
    assert_eq!(
        proof.into_nodes(),
        vec![vec![0, 5], vec![1], vec![1, 2], vec![1, 2, 0]]
    );
    assert_eq!(StorageProof::new(Vec::new()).into_nodes(), Vec::<Vec<u8>>::new());
}

#[test]
fn storage_proof_rebuilds_a_store_keyed_by_digest() {
    let value = Node::Value(Value::Cached(vec![4, 4]));
    let inner = Node::Inner(
        NodeHash::Hash(Sha3::hash(b"l")),
        NodeHash::Hash(Sha3::hash(b"r")),
    );
    let proof = StorageProof::new(vec![inner.encode(), value.encode(), inner.encode()]);
    let store = proof.into_memory_db::<Sha3>();
    assert_eq!(store.len(), 2);
    assert_eq!(store.get(&value.hash::<Sha3>()), Some(value.encode()));
    assert_eq!(store.get(&inner.hash::<Sha3>()), Some(inner.encode()));
    assert_eq!(store.get(&Sha3::hash(&inner.encode())), None);
}

#[test]
fn recorder_records_in_order() {
    let mut recorder = Recorder::new();
    recorder.record(Node::Value(Value::Cached(vec![2])));
    recorder.record(Node::Value(Value::Cached(vec![1])));
    recorder.record(Node::Value(Value::Cached(vec![2])));
    let drained = recorder.drain();
    assert_eq!(drained.len(), 3);
    assert_eq!(drained[0].encode(), vec![0, 2]);
    assert_eq!(drained[1].encode(), vec![0, 1]);
    assert_eq!(drained[2].encode(), vec![0, 2]);
    assert_eq!(recorder.drain().len(), 0);

    recorder.record(Node::Value(Value::Cached(vec![2])));
    recorder.record(Node::Value(Value::New(vec![1])));
    recorder.record(Node::Value(Value::Cached(vec![2])));
    assert_eq!(
        recorder.drain_storage_proof().into_nodes(),
        vec![vec![0, 1], vec![0, 2]]
    );
}

#[test]
fn null_hashes_by_level() {
    let hashes = sparse_merkle_store::NullHashes::<Sha3>::new(2);
    assert_eq!(hashes.depth(), 2);
    let leaf = Sha3::hash(&[]);
    let middle = Sha3::hash(&[leaf.as_slice(), leaf.as_slice()].concat());
    let root = Sha3::hash(&[middle.as_slice(), middle.as_slice()].concat());
    assert_eq!(hashes.get(2), &leaf);
    assert_eq!(hashes.get(1), &middle);
    assert_eq!(hashes.get(0), &root);
}

#[test]
fn storage_proofs_compare_as_sets() {
    let a = StorageProof::new(vec![vec![1], vec![0, 2], vec![1]]);
    let b = StorageProof::new(vec![vec![0, 2], vec![1]]);
    let c = StorageProof::new(vec![vec![0, 2]]);
    assert!(a == b);
    assert!(a != c);
    assert!(a.clone() == a);
    assert_eq!(format!("{:?}", c), "StorageProof { nodes: [[0, 2]] }");
}
