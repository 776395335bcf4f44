use grovedb::merk::{Merk, MerkError, Op};
use grovedb::storage::{BatchOperation, StorageBatch};
use grovedb::tree::Tree;
use grovedb::tree::TreeFeatureType::{BasicMerk, SummedMerk};

fn key_of(i: u32) -> Vec<u8> {
    i.to_be_bytes().to_vec()
}

#[test]
fn empty_merk_has_null_root_hash() {
    let merk = Merk::new();
    assert!(merk.is_empty());
    assert_eq!(merk.height(), 0);
    assert_eq!(merk.root_hash(), [0u8; 32]);
    assert_eq!(merk.get(b"missing"), None);
}

#[test]
fn put_then_get() {
    let mut merk = Merk::new();
    merk.put(b"key1", b"value1".to_vec(), BasicMerk).unwrap();
    assert!(!merk.is_empty());
    assert_eq!(merk.get(b"key1"), Some(b"value1".as_ref()));
    assert_eq!(merk.get(b"key2"), None);
    merk.put(b"key1", b"value100".to_vec(), BasicMerk).unwrap();
    assert_eq!(merk.get(b"key1"), Some(b"value100".as_ref()));
    assert_eq!(merk.height(), 1);
}

#[test]
fn rising_keys_stay_balanced() {
    let mut merk = Merk::new();
    for i in 0..1000u32 {
        merk.put(&key_of(i), vec![1, 2, 3], BasicMerk).unwrap();
    }
    // 1000 entries fit in a balanced tree of height 10; an AVL tree is at most
    // 1.44 times as high.
    assert!(merk.height() >= 10);
    assert!(merk.height() <= 14);
    for i in 0..1000u32 {
        assert_eq!(merk.get(&key_of(i)), Some([1u8, 2, 3].as_ref()));
    }
    assert_eq!(merk.get(&key_of(1000)), None);
}

#[test]
fn falling_keys_stay_balanced() {
    let mut merk = Merk::new();
    for i in (0..1000u32).rev() {
        merk.put(&key_of(i), key_of(i), BasicMerk).unwrap();
    }
    assert!(merk.height() <= 14);
    for i in 0..1000u32 {
        assert_eq!(merk.get(&key_of(i)), Some(key_of(i).as_slice()));
    }
}

#[test]
fn zigzag_keys_take_double_rotations() {
    let mut merk = Merk::new();
    let mut keys = Vec::new();
    for i in 0..200u32 {
        keys.push(if i % 2 == 0 { i } else { 1000 - i });
    }
    for k in keys.iter() {
        merk.put(&key_of(*k), vec![7], BasicMerk).unwrap();
    }
    assert!(merk.height() <= 11);
    for k in keys.iter() {
        assert_eq!(merk.get(&key_of(*k)), Some([7u8].as_ref()));
    }
}

#[test]
fn three_keys_give_the_same_tree_in_any_order() {
    // With three keys every order of insertion ends in the same shape, so the
    // root hashes agree.
    let orders: [[u8; 3]; 6] = [
        [1, 2, 3],
        [1, 3, 2],
        [2, 1, 3],
        [2, 3, 1],
        [3, 1, 2],
        [3, 2, 1],
    ];
    let mut hashes = Vec::new();
    for order in orders.iter() {
        let mut merk = Merk::new();
        for k in order.iter() {
            merk.put(&[*k], vec![*k, *k], BasicMerk).unwrap();
        }
        assert_eq!(merk.height(), 2);
        hashes.push(merk.root_hash());
    }
    for h in hashes.iter() {
        assert_eq!(*h, hashes[0]);
    }
}

#[test]
fn root_hash_follows_the_content() {
    let mut a = Merk::new();
    let mut b = Merk::new();
    a.put(b"k", b"v".to_vec(), BasicMerk).unwrap();
    b.put(b"k", b"w".to_vec(), BasicMerk).unwrap();
    assert_ne!(a.root_hash(), b.root_hash());
    assert_ne!(a.root_hash(), [0u8; 32]);
    b.put(b"k", b"v".to_vec(), BasicMerk).unwrap();
    assert_eq!(a.root_hash(), b.root_hash());
}

#[test]
fn root_hash_is_the_hash_of_the_node() {
    // One node without children: H(kv ‖ 0^32 ‖ 0^32), kv = H(H(key) ‖ H(value)).
    let mut merk = Merk::new();
    merk.put(b"key1", b"value1".to_vec(), BasicMerk).unwrap();
    let key_hash = blake3::hash(b"key1");
    let value_hash = blake3::hash(b"value1");
    let mut kv_input = Vec::new();
    kv_input.extend_from_slice(key_hash.as_bytes());
    kv_input.extend_from_slice(value_hash.as_bytes());
    let kv = blake3::hash(&kv_input);
    let mut node_input = Vec::new();
    node_input.extend_from_slice(kv.as_bytes());
    node_input.extend_from_slice(&[0u8; 64]);
    assert_eq!(merk.root_hash(), *blake3::hash(&node_input).as_bytes());
}

#[test]
fn long_key_is_refused() {
    let mut merk = Merk::new();
    assert_eq!(
        merk.put(&[7u8; 256], vec![1], BasicMerk),
        Err(MerkError::KeyTooLong)
    );
    assert!(merk.is_empty());
    assert_eq!(merk.put(&[7u8; 255], vec![1], BasicMerk), Ok(()));
}

#[test]
fn commit_writes_each_new_node_once() {
    let mut merk = Merk::new();
    let mut batch = StorageBatch::new();
    merk.commit(b"prefix", &mut batch);
    assert_eq!(batch.len(), 0);

    for k in [2u8, 1, 3] {
        merk.put(&[k], vec![k; 4], BasicMerk).unwrap();
    }
    let root_hash = merk.root_hash();
    merk.commit(b"prefix", &mut batch);
    let ops = batch.into_operations();
    assert_eq!(ops.len(), 3);
    // children first, the root last
    let keys: Vec<Vec<u8>> = ops.iter().map(|op| op.key().clone()).collect();
    assert_eq!(
        keys,
        vec![b"prefix\x01".to_vec(), b"prefix\x03".to_vec(), b"prefix\x02".to_vec()]
    );
    for op in ops.iter() {
        match op {
            BatchOperation::Put { key, value } => {
                let node = Tree::decode(value).unwrap();
                assert_eq!(node.key(), &key[6..]);
                assert_eq!(node.value(), &[key[6]; 4]);
            }
            other => panic!("unexpected operation {:?}", other),
        }
    }
    // the root record names its children
    let root = match &ops[2] {
        BatchOperation::Put { value, .. } => Tree::decode(value).unwrap(),
        other => panic!("unexpected operation {:?}", other),
    };
    assert_eq!(root.link(true).unwrap().key(), &[1]);
    assert_eq!(root.link(false).unwrap().key(), &[3]);
    assert_eq!(root.hash(), root_hash);
    assert_eq!(merk.root_hash(), root_hash);

    // nothing has changed: only the root is written again
    let mut again = StorageBatch::new();
    merk.commit(b"prefix", &mut again);
    assert_eq!(again.len(), 1);

    // one more entry: the path to it is written, the rest is not
    merk.put(&[4], vec![9], BasicMerk).unwrap();
    let mut third = StorageBatch::new();
    merk.commit(b"prefix", &mut third);
    let keys: Vec<Vec<u8>> = third
        .into_operations()
        .iter()
        .map(|op| op.key().clone())
        .collect();
    assert_eq!(
        keys,
        vec![b"prefix\x04".to_vec(), b"prefix\x03".to_vec(), b"prefix\x02".to_vec()]
    );
}

#[test]
fn delete_takes_keys_out_and_keeps_the_balance() {
    let mut merk = Merk::new();
    merk.delete(b"nothing");
    assert!(merk.is_empty());
    for i in 0..512u32 {
        merk.put(&key_of(i), key_of(i), BasicMerk).unwrap();
    }
    assert_eq!(merk.height(), 10);
    // absent keys change nothing
    let hash = merk.root_hash();
    merk.delete(&key_of(1000));
    assert_eq!(merk.root_hash(), hash);
    // take out one side of the tree: the other must be rebalanced
    for i in 0..384u32 {
        merk.delete(&key_of(i));
        assert_eq!(merk.get(&key_of(i)), None);
    }
    assert!(merk.height() <= 9);
    assert!(merk.height() >= 7);
    for i in 384..512u32 {
        assert_eq!(merk.get(&key_of(i)), Some(key_of(i).as_slice()));
    }
    for i in 384..512u32 {
        merk.delete(&key_of(i));
    }
    assert!(merk.is_empty());
    assert_eq!(merk.root_hash(), [0u8; 32]);
}

#[test]
fn delete_of_inner_nodes() {
    // delete roots of subtrees in an order that promotes from both sides
    let mut merk = Merk::new();
    for i in [8u8, 4, 12, 2, 6, 10, 14, 1, 3, 5, 7, 9, 11, 13, 15] {
        merk.put(&[i], vec![i], BasicMerk).unwrap();
    }
    assert_eq!(merk.height(), 4);
    for gone in [8u8, 4, 12, 9, 7, 2, 14] {
        merk.delete(&[gone]);
        assert_eq!(merk.get(&[gone]), None);
    }
    for kept in [1u8, 3, 5, 6, 10, 11, 13, 15] {
        assert_eq!(merk.get(&[kept]), Some([kept].as_ref()));
    }
    assert!(merk.height() <= 4);
    // the same entries put into a new Merk in order give some tree of the
    // same content; both find every key
    let mut other = Merk::new();
    for kept in [1u8, 3, 5, 6, 10, 11, 13, 15] {
        other.put(&[kept], vec![kept], BasicMerk).unwrap();
    }
    for kept in [1u8, 3, 5, 6, 10, 11, 13, 15] {
        assert_eq!(other.get(&[kept]), merk.get(&[kept]));
    }
}

#[test]
fn history_can_change_the_shape_and_with_it_the_hash() {
    let mut rising = Merk::new();
    for k in [1u8, 2, 3, 4] {
        rising.put(&[k], vec![k], BasicMerk).unwrap();
    }
    let mut falling = Merk::new();
    for k in [4u8, 3, 2, 1] {
        falling.put(&[k], vec![k], BasicMerk).unwrap();
    }
    for k in [1u8, 2, 3, 4] {
        assert_eq!(rising.get(&[k]), falling.get(&[k]));
    }
    assert_ne!(rising.root_hash(), falling.root_hash());
}

#[test]
fn apply_batch() {
    let mut merk = Merk::new();
    merk.put(&[2], vec![2], BasicMerk).unwrap();
    let batch = vec![
        (vec![1], Op::Put(vec![10], BasicMerk)),
        (vec![2], Op::Delete),
        (vec![3], Op::Put(vec![30], BasicMerk)),
        (vec![3, 0], Op::Delete),
    ];
    assert_eq!(merk.apply(&batch), Ok(()));
    assert_eq!(merk.get(&[1]), Some([10u8].as_ref()));
    assert_eq!(merk.get(&[2]), None);
    assert_eq!(merk.get(&[3]), Some([30u8].as_ref()));

    let hash = merk.root_hash();
    let duplicate = vec![(vec![5], Op::Put(vec![1], BasicMerk)), (vec![5], Op::Delete)];
    assert_eq!(merk.apply(&duplicate), Err(MerkError::DuplicateKey));
    let unsorted = vec![(vec![5], Op::Put(vec![1], BasicMerk)), (vec![4], Op::Delete)];
    assert_eq!(merk.apply(&unsorted), Err(MerkError::UnsortedBatch));
    let long = vec![(vec![5], Op::Put(vec![1], BasicMerk)), (vec![6; 256], Op::Delete)];
    assert_eq!(merk.apply(&long), Err(MerkError::KeyTooLong));
    // the first fault in the order of the batch is reported
    let both = vec![
        (vec![5], Op::Put(vec![1], BasicMerk)),
        (vec![4], Op::Delete),
        (vec![6; 256], Op::Delete),
    ];
    assert_eq!(merk.apply(&both), Err(MerkError::UnsortedBatch));
    assert_eq!(merk.root_hash(), hash);
    assert_eq!(merk.get(&[5]), None);
    assert_eq!(merk.apply(&vec![]), Ok(()));
}

#[test]
fn empty_merk_has_no_sum() {
    assert_eq!(Merk::new().root_sum(), None);
}

#[test]
fn plain_merk_has_no_sum() {
    let mut merk = Merk::new();
    merk.put(b"a", vec![1], BasicMerk).unwrap();
    assert_eq!(merk.root_sum(), None);
}

#[test]
fn root_sum_adds_up_the_weights() {
    let mut merk = Merk::new();
    let mut expected: i64 = 0;
    for i in 0..100u32 {
        let weight = i as i64 * 3 - 50;
        merk.put(&key_of(i), vec![0], SummedMerk(weight)).unwrap();
        expected += weight;
        assert_eq!(merk.root_sum(), Some(expected as u64));
    }
    // 3 * (0 + .. + 99) - 100 * 50
    assert_eq!(merk.root_sum(), Some(9850));
    // a put under a key that is there replaces its weight
    merk.put(&key_of(10), vec![0], SummedMerk(1000)).unwrap();
    assert_eq!(merk.root_sum(), Some(9850 + 20 + 1000));
    // a deletion takes the weight out
    merk.delete(&key_of(10));
    assert_eq!(merk.root_sum(), Some(9850 + 20));
    merk.delete(b"absent");
    assert_eq!(merk.root_sum(), Some(9850 + 20));
}

#[test]
fn root_sum_wraps() {
    let mut merk = Merk::new();
    merk.put(b"a", vec![0], SummedMerk(-1)).unwrap();
    assert_eq!(merk.root_sum(), Some(u64::MAX));
    merk.put(b"b", vec![0], SummedMerk(i64::MAX)).unwrap();
    merk.put(b"c", vec![0], SummedMerk(i64::MAX)).unwrap();
    merk.put(b"d", vec![0], SummedMerk(3)).unwrap();
    assert_eq!(merk.root_sum(), Some(0));
}

#[test]
fn commit_keeps_the_sum() {
    let mut merk = Merk::new();
    for i in 0..10u32 {
        merk.put(&key_of(i), vec![0], SummedMerk(i as i64)).unwrap();
    }
    let mut batch = StorageBatch::new();
    merk.commit(b"prefix", &mut batch);
    assert_eq!(merk.root_sum(), Some(45));
    assert_eq!(batch.len(), 10);
}

#[test]
fn apply_batch_of_summed_entries() {
    let mut merk = Merk::new();
    merk.put(&[2], vec![0], SummedMerk(100)).unwrap();
    merk.put(&[4], vec![0], SummedMerk(1000)).unwrap();
    let batch = vec![
        (vec![1], Op::Put(vec![10], SummedMerk(1))),
        (vec![2], Op::Put(vec![20], SummedMerk(2))),
        (vec![3], Op::Delete),
        (vec![4], Op::Delete),
        (vec![5], Op::Put(vec![50], SummedMerk(-5))),
    ];
    assert_eq!(merk.apply(&batch), Ok(()));
    assert_eq!(merk.root_sum(), Some((1 + 2 - 5i64) as u64));
    assert_eq!(merk.get(&[2]), Some([20].as_ref()));
    assert_eq!(merk.get(&[4]), None);
}
