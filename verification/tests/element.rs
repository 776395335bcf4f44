use grovedb::codec::CodecError;
use grovedb::element::Element;

fn round_trip(element: Element) -> usize {
    let bytes = element.serialize();
    assert_eq!(Element::deserialize(&bytes), Ok(element));
    bytes.len()
}

#[test]
fn element_sizes() {
    // flag option 1 + variant 1 + absent root hash 1
    assert_eq!(Element::empty_tree().serialize().len(), 3);
    // flag option 1 + variant 1 + length 1 + 32 bytes
    assert_eq!(Element::new_item(vec![0; 32]).serialize().len(), 35);
    assert_eq!(Element::new_item(vec![0; 127]).serialize().len(), 130);
    assert_eq!(Element::new_item(vec![0; 128]).serialize().len(), 132);
}

#[test]
fn element_bytes() {
    assert_eq!(Element::empty_tree().serialize(), vec![2, 0, 0]);
    assert_eq!(
        Element::new_item_with_flags(b"ab".to_vec(), Some(vec![9])).serialize(),
        vec![0, 2, b'a', b'b', 1, 1, 9]
    );
    assert_eq!(
        Element::SumItem(-2, None).serialize(),
        vec![3, 0xff, 0xff, 0xff, 0xff, 0xff, 0xff, 0xff, 0xfe, 0]
    );
    assert_eq!(
        Element::new_reference(vec![b"a".to_vec(), b"bc".to_vec()]).serialize(),
        vec![1, 2, 1, b'a', 2, b'b', b'c', 0]
    );
}

#[test]
fn element_round_trips() {
    round_trip(Element::empty_tree());
    round_trip(Element::new_tree(Some([7; 32])));
    round_trip(Element::Tree(Some([1; 32]), Some(vec![1, 2, 3])));
    round_trip(Element::new_item(vec![]));
    round_trip(Element::new_item(vec![5; 300]));
    round_trip(Element::new_item_with_flags(b"value1".to_vec(), Some(vec![0])));
    round_trip(Element::new_reference(vec![]));
    round_trip(Element::Reference(
        vec![b"tree".to_vec(), vec![], vec![1; 200]],
        Some(vec![]),
    ));
    round_trip(Element::SumItem(i64::MIN, None));
    round_trip(Element::SumItem(i64::MAX, Some(vec![4])));
    round_trip(Element::SumTree(None, -1, None));
    round_trip(Element::SumTree(Some([3; 32]), 77, Some(vec![8, 9])));
}

#[test]
fn element_errors() {
    assert_eq!(Element::deserialize(&[]), Err(CodecError::UnexpectedEnd));
    assert_eq!(Element::deserialize(&[5]), Err(CodecError::UnknownTag));
    assert_eq!(Element::deserialize(&[2, 0]), Err(CodecError::UnexpectedEnd));
    assert_eq!(Element::deserialize(&[2, 0, 0, 0]), Err(CodecError::TrailingBytes));
    assert_eq!(Element::deserialize(&[2, 3, 0]), Err(CodecError::UnknownTag));
    assert_eq!(Element::deserialize(&[2, 1, 0]), Err(CodecError::UnexpectedEnd));
    assert_eq!(Element::deserialize(&[0, 3, 1, 2, 0]), Err(CodecError::UnexpectedEnd));
    assert_eq!(Element::deserialize(&[0, 0, 2]), Err(CodecError::UnknownTag));
    assert_eq!(Element::deserialize(&[1, 1, 0]), Err(CodecError::UnexpectedEnd));
    assert_eq!(Element::deserialize(&[3, 0, 0, 0]), Err(CodecError::UnexpectedEnd));
}
