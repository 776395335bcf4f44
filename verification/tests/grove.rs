use grovedb::element::Element;
use grovedb::storage::{BatchOperation, RocksDbStorage};
use grovedb::tree::Tree;
use grovedb::grove::{
    Error, GroveDb, EMPTY_REFERENCE, KEY_TOO_LONG, NO_SUBTREE_AT_PATH, ONLY_SUBTREES_AT_ROOT,
};

fn grove_with_tree() -> GroveDb {
    let mut db = GroveDb::new();
    db.insert(&[], b"tree".to_vec(), Element::empty_tree())
        .expect("expected to insert tree");
    db
}

#[test]
fn insert_tree_at_root() {
    let mut db = GroveDb::new();
    let empty_hash = db.root_hash();
    assert_eq!(db.is_empty_tree(&[b"key1"]), Err(Error::PathNotFound));
    db.insert(&[], b"key1".to_vec(), Element::empty_tree()).unwrap();
    assert_eq!(db.is_empty_tree(&[b"key1"]), Ok(true));
    assert_ne!(db.root_hash(), empty_hash);
    // a second insertion of the same leaf changes nothing
    let hash = db.root_hash();
    db.insert(&[], b"key1".to_vec(), Element::empty_tree()).unwrap();
    assert_eq!(db.root_hash(), hash);
}

#[test]
fn only_subtrees_at_root() {
    let mut db = GroveDb::new();
    assert_eq!(
        db.insert(&[], b"key1".to_vec(), Element::new_item(vec![0; 32])),
        Err(Error::InvalidPath(ONLY_SUBTREES_AT_ROOT))
    );
    assert_eq!(
        db.insert(&[], b"key1".to_vec(), Element::new_reference(vec![])),
        Err(Error::InvalidPath(ONLY_SUBTREES_AT_ROOT))
    );
}

#[test]
fn insert_item_and_get() {
    let mut db = grove_with_tree();
    let before = db.root_hash();
    db.insert(
        &[b"tree"],
        b"key1".to_vec(),
        Element::new_item_with_flags(b"value1".to_vec(), Some(vec![0])),
    )
    .expect("expected to insert item");
    assert_eq!(
        db.get(&[b"tree"], b"key1"),
        Ok(Element::new_item_with_flags(b"value1".to_vec(), Some(vec![0])))
    );
    assert_eq!(db.is_empty_tree(&[b"tree"]), Ok(false));
    assert_ne!(db.root_hash(), before);
    db.insert(
        &[b"tree"],
        b"key1".to_vec(),
        Element::new_item_with_flags(b"value100".to_vec(), Some(vec![1])),
    )
    .unwrap();
    assert_eq!(
        db.get(&[b"tree"], b"key1"),
        Ok(Element::new_item_with_flags(b"value100".to_vec(), Some(vec![1])))
    );
}

#[test]
fn missing_subtree_and_key() {
    let mut db = grove_with_tree();
    assert_eq!(
        db.insert(&[b"other"], b"k".to_vec(), Element::new_item(vec![1])),
        Err(Error::InvalidPath(NO_SUBTREE_AT_PATH))
    );
    assert_eq!(
        db.insert(&[b"tree", b"deeper"], b"k".to_vec(), Element::new_item(vec![1])),
        Err(Error::InvalidPath(NO_SUBTREE_AT_PATH))
    );
    assert_eq!(
        db.insert(&[b"other"], b"k".to_vec(), Element::empty_tree()),
        Err(Error::InvalidPath(NO_SUBTREE_AT_PATH))
    );
    assert_eq!(db.get(&[b"tree"], b"k"), Err(Error::PathKeyNotFound));
    assert_eq!(db.get(&[b"other"], b"k"), Err(Error::PathNotFound));
    assert_eq!(db.get(&[], b"tree"), Err(Error::PathNotFound));
}

#[test]
fn long_key_is_refused_and_nothing_changes() {
    let mut db = grove_with_tree();
    let before = db.root_hash();
    assert_eq!(
        db.insert(&[b"tree"], vec![1; 256], Element::new_item(vec![1])),
        Err(Error::InvalidCodeExecution(KEY_TOO_LONG))
    );
    assert_eq!(db.root_hash(), before);
    assert_eq!(db.is_empty_tree(&[b"tree"]), Ok(true));
    assert_eq!(db.insert(&[b"tree"], vec![1; 255], Element::new_item(vec![1])), Ok(()));
}

#[test]
fn nested_subtrees_carry_root_hashes_up() {
    let mut db = grove_with_tree();
    db.insert(&[b"tree"], b"inner".to_vec(), Element::empty_tree()).unwrap();
    assert_eq!(db.get(&[b"tree"], b"inner"), Ok(Element::Tree(None, None)));
    assert_eq!(db.is_empty_tree(&[b"tree", b"inner"]), Ok(true));
    db.insert(&[b"tree", b"inner"], b"deep".to_vec(), Element::Tree(None, Some(vec![7])))
        .unwrap();
    let after_deep = db.root_hash();
    // the parent of `inner` now records a root hash for it
    let inner = db.get(&[b"tree"], b"inner").unwrap();
    let first = match inner {
        Element::Tree(Some(hash), None) => hash,
        other => panic!("unexpected element {:?}", other),
    };
    db.insert(
        &[b"tree", b"inner", b"deep"],
        b"leaf".to_vec(),
        Element::new_item(b"x".to_vec()),
    )
    .unwrap();
    // flags of the subtree element survive the refresh
    match db.get(&[b"tree", b"inner"], b"deep").unwrap() {
        Element::Tree(Some(_), Some(flags)) => assert_eq!(flags, vec![7]),
        other => panic!("unexpected element {:?}", other),
    }
    match db.get(&[b"tree"], b"inner").unwrap() {
        Element::Tree(Some(hash), None) => assert_ne!(hash, first),
        other => panic!("unexpected element {:?}", other),
    }
    assert_ne!(db.root_hash(), after_deep);
    assert_eq!(
        db.get(&[b"tree", b"inner", b"deep"], b"leaf"),
        Ok(Element::new_item(b"x".to_vec()))
    );
}

#[test]
fn same_insertions_give_the_same_root_hash() {
    let build = || {
        let mut db = grove_with_tree();
        db.insert(&[], b"other".to_vec(), Element::empty_tree()).unwrap();
        db.insert(&[b"tree"], b"a".to_vec(), Element::new_item(vec![1])).unwrap();
        db.insert(&[b"other"], b"b".to_vec(), Element::new_item(vec![2])).unwrap();
        db
    };
    assert_eq!(build().root_hash(), build().root_hash());
    let mut changed = build();
    changed.insert(&[b"other"], b"b".to_vec(), Element::new_item(vec![3])).unwrap();
    assert_ne!(changed.root_hash(), build().root_hash());
}

#[test]
fn insert_if_not_exists() {
    let mut db = grove_with_tree();
    assert_eq!(
        db.insert_if_not_exists(&[b"tree"], b"k".to_vec(), Element::new_item(vec![1])),
        Ok(true)
    );
    assert_eq!(
        db.insert_if_not_exists(&[b"tree"], b"k".to_vec(), Element::new_item(vec![2])),
        Ok(false)
    );
    assert_eq!(db.get(&[b"tree"], b"k"), Ok(Element::new_item(vec![1])));
    assert_eq!(
        db.insert_if_not_exists(&[b"nowhere"], b"k".to_vec(), Element::new_item(vec![2])),
        Err(Error::InvalidPath(NO_SUBTREE_AT_PATH))
    );
}

#[test]
fn references_are_followed() {
    let mut db = grove_with_tree();
    db.insert(&[b"tree"], b"item".to_vec(), Element::new_item(vec![42])).unwrap();
    db.insert(
        &[b"tree"],
        b"ref".to_vec(),
        Element::new_reference(vec![b"tree".to_vec(), b"item".to_vec()]),
    )
    .unwrap();
    assert_eq!(db.get(&[b"tree"], b"ref"), Ok(Element::new_item(vec![42])));
    assert_eq!(
        db.get_raw(&[b"tree"], b"ref"),
        Ok(Element::new_reference(vec![b"tree".to_vec(), b"item".to_vec()]))
    );
    db.insert(&[b"tree"], b"nowhere".to_vec(), Element::new_reference(vec![])).unwrap();
    assert_eq!(db.get(&[b"tree"], b"nowhere"), Err(Error::InvalidPath(EMPTY_REFERENCE)));
}

#[test]
fn reference_chains_end_at_the_limit() {
    let mut db = grove_with_tree();
    db.insert(&[b"tree"], b"r0".to_vec(), Element::new_item(vec![1])).unwrap();
    for i in 1..=11u8 {
        let key = format!("r{}", i).into_bytes();
        let target = format!("r{}", i - 1).into_bytes();
        db.insert(&[b"tree"], key, Element::new_reference(vec![b"tree".to_vec(), target]))
            .unwrap();
    }
    // ten references are followed
    assert_eq!(db.get(&[b"tree"], b"r10"), Ok(Element::new_item(vec![1])));
    // the eleventh is one too many
    assert_eq!(db.get(&[b"tree"], b"r11"), Err(Error::ReferenceLimit));
    // a cycle ends in the same way
    db.insert(
        &[b"tree"],
        b"loop".to_vec(),
        Element::new_reference(vec![b"tree".to_vec(), b"loop".to_vec()]),
    )
    .unwrap();
    assert_eq!(db.get(&[b"tree"], b"loop"), Err(Error::ReferenceLimit));
}

#[test]
fn compress_subtree_key_agrees_with_build_prefix() {
    let with_key = GroveDb::compress_subtree_key(&[b"a", b"b"], Some(b"c"));
    assert_eq!(with_key, RocksDbStorage::build_prefix(&[b"a", b"b", b"c"]).unwrap());
    let without = GroveDb::compress_subtree_key(&[b"a", b"b"], None);
    assert_eq!(without, RocksDbStorage::build_prefix(&[b"a", b"b"]).unwrap());
    assert_ne!(with_key, without);
}

#[test]
fn commit_gathers_nodes_and_root_leaves() {
    let mut db = GroveDb::new();
    assert_eq!(db.commit().len(), 0);
    db.insert(&[], b"tree".to_vec(), Element::empty_tree()).unwrap();
    db.insert(&[], b"other".to_vec(), Element::empty_tree()).unwrap();
    db.insert(&[b"tree"], b"k".to_vec(), Element::new_item(vec![1])).unwrap();
    let tree_prefix = RocksDbStorage::build_prefix(&[b"tree"]).unwrap();
    let other_prefix = RocksDbStorage::build_prefix(&[b"other"]).unwrap();
    let ops = db.commit().into_operations();
    let mut node_key = tree_prefix.clone();
    node_key.push(b'k');
    assert_eq!(ops.len(), 3);
    match &ops[0] {
        BatchOperation::Put { key, value } => {
            assert_eq!(key, &node_key);
            let node = Tree::decode(value).unwrap();
            assert_eq!(Element::deserialize(node.value()), Ok(Element::new_item(vec![1])));
        }
        other => panic!("unexpected operation {:?}", other),
    }
    assert_eq!(
        ops[1],
        BatchOperation::PutRoot {
            key: tree_prefix,
            value: vec![0, 0, 0, 0, 0, 0, 0, 0]
        }
    );
    assert_eq!(
        ops[2],
        BatchOperation::PutRoot {
            key: other_prefix,
            value: vec![0, 0, 0, 0, 0, 0, 0, 1]
        }
    );
    let root_hash = db.root_hash();
    // a second commit writes the root of the subtree again and the leaves
    assert_eq!(db.commit().len(), 3);
    assert_eq!(db.root_hash(), root_hash);
    assert_eq!(db.get(&[b"tree"], b"k"), Ok(Element::new_item(vec![1])));
}

#[test]
fn root_refusal_says_why() {
    let mut db = GroveDb::new();
    assert_eq!(
        db.insert(&[], b"key1".to_vec(), Element::SumItem(3, None)),
        Err(Error::InvalidPath("only subtrees are allowed as root-tree leaves"))
    );
    assert_eq!(db.insert(&[], b"key1".to_vec(), Element::empty_tree()), Ok(()));
}

#[test]
fn insert_if_not_exists_overwrites_a_reference_that_leads_nowhere() {
    let mut db = grove_with_tree();
    db.insert(&[b"tree"], b"empty".to_vec(), Element::new_reference(vec![])).unwrap();
    db.insert(
        &[b"tree"],
        b"missing".to_vec(),
        Element::new_reference(vec![b"tree".to_vec(), b"absent".to_vec()]),
    )
    .unwrap();
    assert_eq!(db.get(&[b"tree"], b"empty"), Err(Error::InvalidPath(EMPTY_REFERENCE)));
    assert_eq!(db.get(&[b"tree"], b"missing"), Err(Error::PathKeyNotFound));
    assert_eq!(
        db.insert_if_not_exists(&[b"tree"], b"empty".to_vec(), Element::new_item(vec![1])),
        Ok(true)
    );
    assert_eq!(
        db.insert_if_not_exists(&[b"tree"], b"missing".to_vec(), Element::new_item(vec![2])),
        Ok(true)
    );
    assert_eq!(db.get_raw(&[b"tree"], b"empty"), Ok(Element::new_item(vec![1])));
    assert_eq!(db.get_raw(&[b"tree"], b"missing"), Ok(Element::new_item(vec![2])));
    // a reference that leads to an element counts as an element
    db.insert(
        &[b"tree"],
        b"found".to_vec(),
        Element::new_reference(vec![b"tree".to_vec(), b"empty".to_vec()]),
    )
    .unwrap();
    assert_eq!(
        db.insert_if_not_exists(&[b"tree"], b"found".to_vec(), Element::new_item(vec![3])),
        Ok(false)
    );
    assert_eq!(
        db.get_raw(&[b"tree"], b"found"),
        Ok(Element::new_reference(vec![b"tree".to_vec(), b"empty".to_vec()]))
    );
}

#[test]
fn insert_if_not_exists_at_the_root_fails_as_insert_does() {
    let mut db = GroveDb::new();
    assert_eq!(
        db.insert_if_not_exists(&[], b"k".to_vec(), Element::new_item(vec![1])),
        Err(Error::InvalidPath(ONLY_SUBTREES_AT_ROOT))
    );
}

fn sum_of(db: &GroveDb, path: &[&[u8]], key: &[u8]) -> i64 {
    match db.get_raw(path, key) {
        Ok(Element::SumTree(_, sum, _)) => sum,
        other => panic!("expected a sum tree, found {:?}", other),
    }
}

#[test]
fn sum_tree_carries_its_aggregate_into_its_parent() {
    let mut db = grove_with_tree();
    db.insert(&[b"tree"], b"sums".to_vec(), Element::SumTree(None, 99, None)).unwrap();
    // an empty sum tree has the sum zero, whatever its element said
    assert_eq!(db.get_raw(&[b"tree"], b"sums"), Ok(Element::SumTree(None, 0, None)));
    db.insert(&[b"tree", b"sums"], b"a".to_vec(), Element::SumItem(5, None)).unwrap();
    assert_eq!(sum_of(&db, &[b"tree"], b"sums"), 5);
    db.insert(&[b"tree", b"sums"], b"b".to_vec(), Element::SumItem(7, None)).unwrap();
    db.insert(&[b"tree", b"sums"], b"c".to_vec(), Element::new_item(vec![1])).unwrap();
    assert_eq!(sum_of(&db, &[b"tree"], b"sums"), 12);
    // a new number under a key replaces the old one in the sum
    db.insert(&[b"tree", b"sums"], b"a".to_vec(), Element::SumItem(-20, None)).unwrap();
    assert_eq!(sum_of(&db, &[b"tree"], b"sums"), -13);
    match db.get_raw(&[b"tree"], b"sums") {
        Ok(Element::SumTree(Some(_), -13, None)) => {}
        other => panic!("unexpected element {:?}", other),
    }
}

#[test]
fn sum_trees_add_up_through_the_levels() {
    let mut db = grove_with_tree();
    db.insert(&[b"tree"], b"outer".to_vec(), Element::SumTree(None, 0, Some(vec![9]))).unwrap();
    db.insert(&[b"tree", b"outer"], b"inner".to_vec(), Element::SumTree(None, 0, None)).unwrap();
    db.insert(&[b"tree", b"outer"], b"own".to_vec(), Element::SumItem(100, None)).unwrap();
    for i in 0..20u8 {
        db.insert(&[b"tree", b"outer", b"inner"], vec![i], Element::SumItem(i as i64, None))
            .unwrap();
    }
    assert_eq!(sum_of(&db, &[b"tree", b"outer"], b"inner"), 190);
    assert_eq!(sum_of(&db, &[b"tree"], b"outer"), 290);
    assert_eq!(
        db.get_raw(&[b"tree"], b"outer").map(|element| match element {
            Element::SumTree(_, _, flags) => flags,
            _ => None,
        }),
        Ok(Some(vec![9]))
    );
}

#[test]
fn plain_tree_has_no_aggregate() {
    let mut db = grove_with_tree();
    db.insert(&[b"tree"], b"plain".to_vec(), Element::empty_tree()).unwrap();
    db.insert(&[b"tree", b"plain"], b"a".to_vec(), Element::SumItem(5, None)).unwrap();
    match db.get_raw(&[b"tree"], b"plain") {
        Ok(Element::Tree(Some(_), None)) => {}
        other => panic!("unexpected element {:?}", other),
    }
}

#[test]
fn sum_tree_at_the_root() {
    let mut db = GroveDb::new();
    db.insert(&[], b"sums".to_vec(), Element::SumTree(None, 0, None)).unwrap();
    db.insert(&[b"sums"], b"inner".to_vec(), Element::SumTree(None, 0, None)).unwrap();
    db.insert(&[b"sums", b"inner"], b"a".to_vec(), Element::SumItem(i64::MAX, None)).unwrap();
    db.insert(&[b"sums", b"inner"], b"b".to_vec(), Element::SumItem(1, None)).unwrap();
    // the sum is taken modulo 2^64
    assert_eq!(sum_of(&db, &[b"sums"], b"inner"), i64::MIN);
    db.insert(&[b"sums"], b"own".to_vec(), Element::SumItem(-1, None)).unwrap();
    assert_eq!(sum_of(&db, &[b"sums"], b"inner"), i64::MIN);
    assert_eq!(db.get(&[b"sums"], b"own"), Ok(Element::SumItem(-1, None)));
}
