use grovedb::costs::OperationCost;
use grovedb::storage::RocksDbStorage;

#[test]
fn test_build_prefix() {
    let path_a = [b"aa".as_ref(), b"b"];
    let path_b = [b"a".as_ref(), b"ab"];
    assert_ne!(
        RocksDbStorage::build_prefix(&path_a),
        RocksDbStorage::build_prefix(&path_b),
    );
    assert_eq!(
        RocksDbStorage::build_prefix(&path_a),
        RocksDbStorage::build_prefix(&path_a),
    );
}

#[test]
fn prefix_is_the_hash_of_the_framed_path() {
    let path: [&[u8]; 2] = [b"aa", b"b"];
    let mut input = Vec::new();
    input.extend_from_slice(b"aab");
    input.extend_from_slice(&2u64.to_le_bytes());
    input.extend_from_slice(&2u64.to_le_bytes());
    input.extend_from_slice(&1u64.to_le_bytes());
    let prefix = RocksDbStorage::build_prefix(&path);
    assert_eq!(prefix.value, blake3::hash(&input).as_bytes().to_vec());
    assert_eq!(
        prefix.cost,
        OperationCost {
            hash_node_calls: 1,
            ..OperationCost::default()
        }
    );
    assert_eq!(prefix.value.len(), 32);
}

#[test]
fn empty_path_has_a_prefix() {
    let prefix = RocksDbStorage::build_prefix(&[]);
    assert_eq!(
        prefix.value,
        blake3::hash(&0u64.to_le_bytes()).as_bytes().to_vec()
    );
}
