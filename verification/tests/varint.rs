use grovedb::codec::CodecError;
use grovedb::varint::{append_varint, read_varint, required_space};
use integer_encoding::VarInt;

const SAMPLES: [u64; 14] = [
    0,
    1,
    127,
    128,
    129,
    16383,
    16384,
    2097151,
    2097152,
    1 << 32,
    (1 << 56) - 1,
    1 << 56,
    u64::MAX - 1,
    u64::MAX,
];

#[test]
fn required_space_matches_reference() {
    for n in SAMPLES {
        assert_eq!(required_space(n), n.required_space());
    }
    assert_eq!(required_space(127), 1);
    assert_eq!(required_space(128), 2);
    assert_eq!(required_space(u64::MAX), 10);
}

#[test]
fn encoding_matches_reference() {
    for n in SAMPLES {
        let mut out = vec![0xee];
        append_varint(&mut out, n);
        let mut expected = vec![0xee];
        expected.extend_from_slice(&n.encode_var_vec());
        assert_eq!(out, expected);
    }
}

#[test]
fn varint_round_trip() {
    for n in SAMPLES {
        let mut out = vec![1, 2];
        append_varint(&mut out, n);
        let end = out.len();
        out.push(0xff);
        assert_eq!(read_varint(&out, 2), Ok((n, end)));
    }
}

#[test]
fn varint_errors() {
    assert_eq!(read_varint(&[], 0), Err(CodecError::UnexpectedEnd));
    assert_eq!(read_varint(&[0x80, 0x80], 0), Err(CodecError::UnexpectedEnd));
    // eleven bytes spell a number of more than 64 bits
    let too_large = [0xff, 0xff, 0xff, 0xff, 0xff, 0xff, 0xff, 0xff, 0xff, 0xff, 0x01];
    assert_eq!(read_varint(&too_large, 0), Err(CodecError::NumberTooLarge));
    let two_to_64 = [0x80, 0x80, 0x80, 0x80, 0x80, 0x80, 0x80, 0x80, 0x80, 0x02];
    assert_eq!(read_varint(&two_to_64, 0), Err(CodecError::NumberTooLarge));
    let max = [0xff, 0xff, 0xff, 0xff, 0xff, 0xff, 0xff, 0xff, 0xff, 0x01];
    assert_eq!(read_varint(&max, 0), Ok((u64::MAX, 10)));
}
