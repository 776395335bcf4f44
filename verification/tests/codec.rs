use grovedb::codec::CodecError;
use grovedb::link::Link;
use grovedb::node;
use grovedb::tree::{Tree, TreeFeatureType};

#[test]
fn encode_link() {
    let link = Link::Reference {
        key: vec![1, 2, 3],
        sum: None,
        child_heights: (123, 124),
        hash: [55; 32],
    };
    assert_eq!(link.encoding_length().unwrap(), 39);

    let mut bytes = vec![];
    link.encode_into(&mut bytes).unwrap();
    assert_eq!(
        bytes,
        vec![
            3, 1, 2, 3, 55, 55, 55, 55, 55, 55, 55, 55, 55, 55, 55, 55, 55, 55, 55, 55, 55, 55,
            55, 55, 55, 55, 55, 55, 55, 55, 55, 55, 55, 55, 55, 55, 123, 124, 0
        ]
    );
}

#[test]
fn encode_link_with_sum() {
    let link = Link::Reference {
        key: vec![1, 2, 3],
        sum: Some(50),
        child_heights: (123, 124),
        hash: [55; 32],
    };
    assert_eq!(link.encoding_length().unwrap(), 47);

    let mut bytes = vec![];
    link.encode_into(&mut bytes).unwrap();
    assert_eq!(
        bytes,
        vec![
            3, 1, 2, 3, 55, 55, 55, 55, 55, 55, 55, 55, 55, 55, 55, 55, 55, 55, 55, 55, 55, 55,
            55, 55, 55, 55, 55, 55, 55, 55, 55, 55, 55, 55, 55, 55, 123, 124, 1, 0, 0, 0, 0, 0,
            0, 0, 50
        ]
    );
}

#[test]
fn decode_link() {
    let bytes = vec![
        3, 1, 2, 3, 55, 55, 55, 55, 55, 55, 55, 55, 55, 55, 55, 55, 55, 55, 55, 55, 55, 55, 55,
        55, 55, 55, 55, 55, 55, 55, 55, 55, 55, 55, 55, 55, 123, 124, 0,
    ];
    let link = Link::decode(bytes.as_slice()).expect("expected to decode a link");
    assert_eq!(link.sum(), None);
}

#[test]
fn long_key_fails_to_encode() {
    let link = Link::Reference {
        key: vec![123; 300],
        sum: None,
        child_heights: (123, 124),
        hash: [55; 32],
    };
    let mut bytes = vec![9];
    assert_eq!(link.encode_into(&mut bytes), Err(CodecError::KeyTooLong));
    assert_eq!(bytes, vec![9]);
    assert_eq!(link.encoding_length(), Err(CodecError::KeyTooLong));

    let longest = Link::Reference {
        key: vec![1; 255],
        sum: None,
        child_heights: (0, 0),
        hash: [0; 32],
    };
    assert_eq!(longest.encoding_length(), Ok(36 + 255));
    let shortest_refused = Link::Reference {
        key: vec![1; 256],
        sum: None,
        child_heights: (0, 0),
        hash: [0; 32],
    };
    assert_eq!(shortest_refused.encoding_length(), Err(CodecError::KeyTooLong));
}

#[test]
fn decode_link_with_sum_reads_big_endian() {
    let mut bytes = vec![2, 9, 8];
    bytes.extend_from_slice(&[7; 32]);
    bytes.extend_from_slice(&[4, 5, 1]);
    bytes.extend_from_slice(&[1, 2, 3, 4, 5, 6, 7, 8]);
    bytes.extend_from_slice(&[99, 99]);
    let link = Link::decode(bytes.as_slice()).unwrap();
    assert!(link.is_reference());
    assert_eq!(link.key(), &[9, 8]);
    assert_eq!(link.hash(), &[7; 32]);
    assert_eq!(link.sum(), Some(0x0102030405060708));
    assert_eq!(link.height(), 6);
    assert_eq!(link.balance_factor(), 1);
}

#[test]
fn link_round_trip() {
    for sum in [None, Some(0u64), Some(50), Some(u64::MAX)] {
        for key_len in [0usize, 1, 3, 255] {
            let link = Link::Reference {
                key: vec![0xab; key_len],
                sum,
                child_heights: (3, 254),
                hash: [0x11; 32],
            };
            let mut bytes = vec![];
            link.encode_into(&mut bytes).unwrap();
            assert_eq!(bytes.len(), link.encoding_length().unwrap());
            assert_eq!(Link::decode(bytes.as_slice()).unwrap(), link);
        }
    }
}

#[test]
fn loaded_link_decodes_as_reference() {
    let tree = Tree::new(vec![4, 5], vec![6], TreeFeatureType::BasicMerk).unwrap();
    let link = Link::Loaded {
        hash: [9; 32],
        child_heights: (0, 0),
        tree,
        sum: None,
    };
    let mut bytes = vec![];
    link.encode_into(&mut bytes).unwrap();
    let decoded = Link::decode(bytes.as_slice()).unwrap();
    assert_eq!(decoded, link.into_reference());
}

#[test]
fn decode_link_short_input() {
    assert_eq!(Link::decode(&[]), Err(CodecError::UnexpectedEnd));
    let mut bytes = vec![3, 1, 2, 3];
    bytes.extend_from_slice(&[55; 32]);
    bytes.extend_from_slice(&[1, 2]);
    assert_eq!(Link::decode(&bytes), Err(CodecError::UnexpectedEnd));
    bytes.push(1);
    bytes.extend_from_slice(&[0; 7]);
    assert_eq!(Link::decode(&bytes), Err(CodecError::UnexpectedEnd));
    bytes.push(0);
    assert!(Link::decode(&bytes).is_ok());
}

#[test]
fn decode_into_keeps_a_reference_on_failure() {
    let mut link = Link::Reference {
        key: vec![1],
        sum: Some(2),
        child_heights: (3, 4),
        hash: [5; 32],
    };
    assert_eq!(link.decode_into(&[1]), Err(CodecError::UnexpectedEnd));
    assert_eq!(
        link,
        Link::Reference {
            key: vec![1],
            sum: Some(2),
            child_heights: (3, 4),
            hash: [5; 32],
        }
    );
    let mut modified = Link::from_modified_tree(
        Tree::new(vec![0], vec![1], TreeFeatureType::BasicMerk).unwrap(),
    );
    assert_eq!(modified.decode_into(&[]), Err(CodecError::UnexpectedEnd));
    assert_eq!(
        modified,
        Link::Reference {
            key: vec![],
            sum: None,
            child_heights: (0, 0),
            hash: [0; 32],
        }
    );
    let mut bytes = vec![1, 7];
    bytes.extend_from_slice(&[8; 32]);
    bytes.extend_from_slice(&[1, 0, 0]);
    assert_eq!(modified.decode_into(&bytes), Ok(()));
    assert_eq!(modified.key(), &[7]);
}

#[test]
fn node_round_trip() {
    let tree = Tree::new(b"key".to_vec(), b"value".to_vec(), TreeFeatureType::BasicMerk).unwrap();
    let mut bytes = vec![];
    tree.encode_into(&mut bytes).unwrap();
    // feature 1, two absent links 2, two hashes 64, varint 1, value 5, key 3
    assert_eq!(bytes.len(), 76);
    assert_eq!(tree.encoding_length(), Ok(76));
    assert_eq!(node::node_record_length(3, 5, false, None, None), Some(76));
    let decoded = Tree::decode(&bytes).unwrap();
    assert_eq!(decoded, tree);
}

#[test]
fn node_with_links_round_trip() {
    let left = Link::Reference {
        key: vec![1, 2],
        sum: Some(7),
        child_heights: (1, 0),
        hash: [3; 32],
    };
    let right = Link::Reference {
        key: vec![9],
        sum: None,
        child_heights: (0, 0),
        hash: [4; 32],
    };
    let tree = Tree::from_parts(
        vec![5],
        vec![6; 200],
        TreeFeatureType::SummedMerk(-3),
        [7; 32],
        [8; 32],
        Some(left),
        Some(right),
    );
    let mut bytes = vec![];
    tree.encode_into(&mut bytes).unwrap();
    let expected = 9 + (1 + 36 + 2 + 8) + (1 + 36 + 1) + 64 + 2 + 200 + 1;
    assert_eq!(bytes.len(), expected);
    assert_eq!(
        node::node_record_length(1, 200, true, Some((2, true)), Some((1, false))),
        Some(expected)
    );
    assert_eq!(Tree::decode(&bytes).unwrap(), tree);
}

#[test]
fn value_length_boundary_takes_a_second_byte() {
    let below = node::node_record_length(4, 127, false, None, None).unwrap();
    let above = node::node_record_length(4, 128, false, None, None).unwrap();
    assert_eq!(above - below, 2);
}

#[test]
fn node_decode_errors() {
    assert_eq!(Tree::decode(&[]), Err(CodecError::UnexpectedEnd));
    assert_eq!(Tree::decode(&[7]), Err(CodecError::UnknownTag));
    assert_eq!(Tree::decode(&[0, 2]), Err(CodecError::UnknownTag));
    let mut high = vec![0, 1, 0];
    high.extend_from_slice(&[0; 32]);
    high.extend_from_slice(&[255, 0, 0]);
    assert_eq!(Tree::decode(&high), Err(CodecError::HeightTooLarge));
    let mut short = vec![0, 0, 0];
    short.extend_from_slice(&[0; 64]);
    short.push(5);
    short.extend_from_slice(&[1, 2, 3]);
    assert_eq!(Tree::decode(&short), Err(CodecError::UnexpectedEnd));
}

#[test]
fn decoded_node_holds_references() {
    let child = Tree::new(vec![1], vec![2], TreeFeatureType::BasicMerk).unwrap();
    let hash = child.hash();
    let link = Link::Loaded { hash, child_heights: (0, 0), tree: child, sum: None };
    let parent = Tree::new(vec![5], vec![6], TreeFeatureType::BasicMerk)
        .unwrap()
        .attach(true, Some(link));
    let mut bytes = vec![];
    parent.encode_into(&mut bytes).unwrap();
    let decoded = Tree::decode(&bytes).unwrap();
    let left = decoded.link(true).expect("a link on the left");
    assert!(left.is_reference());
    assert!(left.tree().is_none());
    assert_eq!(left.key(), &[1]);
    assert_eq!(left.hash(), &hash);
    assert!(decoded.link(false).is_none());
}

#[test]
fn decoded_node_takes_a_new_value() {
    let mut bytes = vec![0, 0, 0];
    // hashes that are not those of the key and the value
    bytes.extend_from_slice(&[1; 32]);
    bytes.extend_from_slice(&[2; 32]);
    bytes.push(1);
    bytes.push(9);
    bytes.extend_from_slice(b"key");
    let decoded = Tree::decode(&bytes).unwrap();
    assert_eq!(decoded.kv_hash(), &[1; 32]);
    let updated = decoded.with_value(vec![7, 7], TreeFeatureType::SummedMerk(4)).unwrap();
    let fresh = Tree::new(b"key".to_vec(), vec![7, 7], TreeFeatureType::SummedMerk(4)).unwrap();
    assert_eq!(updated, fresh);
    assert_eq!(updated.sum(), Some(4));
}

#[test]
fn needed_length_follows_the_front_of_a_record() {
    let link = Link::Reference {
        key: vec![1, 2, 3],
        sum: Some(7),
        child_heights: (1, 0),
        hash: [3; 32],
    };
    let mut bytes = vec![];
    link.encode_into(&mut bytes).unwrap();
    assert_eq!(bytes.len(), 47);
    assert_eq!(Link::needed_length(&[]), 1);
    assert_eq!(Link::needed_length(&bytes[..1]), 39);
    assert_eq!(Link::needed_length(&bytes[..38]), 39);
    assert_eq!(Link::needed_length(&bytes[..39]), 47);
    assert_eq!(Link::needed_length(&bytes), 47);
    let plain = Link::Reference { key: vec![], sum: None, child_heights: (0, 0), hash: [0; 32] };
    let mut bytes = vec![];
    plain.encode_into(&mut bytes).unwrap();
    assert_eq!(Link::needed_length(&bytes), 36);
}
