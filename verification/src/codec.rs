//! The binary record of a link: one length byte and the key, the hash, the two
//! child heights, and a flag byte that says whether eight bytes of aggregate
//! follow.

use vstd::prelude::*;
use vstd::bytes::{
    lemma_auto_spec_u64_to_from_le_bytes, spec_u64_from_le_bytes, spec_u64_to_le_bytes,
    u64_to_le_bytes,
};
use byteorder::{BigEndian, ByteOrder};
use crate::hash::{append_hash, CryptoHash, NULL_HASH};
use crate::link::Link;

verus! {

/// Why a record could not be written or read.
#[derive(Clone, Copy, Debug, PartialEq, Eq, Structural)]
pub enum CodecError {
    /// The key is too long for its one length byte.
    KeyTooLong,
    /// The input ended before the record did.
    UnexpectedEnd,
    /// A number in the input does not fit in 64 bits.
    NumberTooLarge,
    /// A tag byte in the input has no meaning.
    UnknownTag,
    /// A link in the input tells a height that no node can have.
    HeightTooLarge,
    /// The input goes on after the record has ended.
    TrailingBytes,
}

/// The eight bytes of a number, most significant first.
pub open spec fn u64_to_be_bytes(value: u64) -> Seq<u8> {
    spec_u64_to_le_bytes(value).reverse()
}

/// The number that eight bytes spell, most significant first.
pub open spec fn u64_from_be_bytes(bytes: Seq<u8>) -> u64 {
    spec_u64_from_le_bytes(bytes.reverse())
}

/// Calls `byteorder::BigEndian::read_u64`, which reads the first eight bytes
/// of `buf` as a number, most significant byte first, and panics where `buf`
/// is shorter.
#[verifier::external_body]
fn read_u64_be(buf: &[u8]) -> (value: u64)
    requires
        buf@.len() >= 8,
    ensures
        value == u64_from_be_bytes(buf@.subrange(0, 8)),
{
    BigEndian::read_u64(buf)
}

/// The number that the first eight bytes of `bytes` spell, most significant
/// first.
pub fn read_u64(bytes: &[u8]) -> (value: u64)
    requires
        bytes@.len() >= 8,
    ensures
        value == u64_from_be_bytes(bytes@.subrange(0, 8)),
{
    read_u64_be(bytes)
}

/// What the record of a link holds, as plain values.
pub struct LinkRecord {
    pub key: Seq<u8>,
    pub hash: Seq<u8>,
    pub child_heights: (u8, u8),
    pub sum: Option<u64>,
}

/// The record of a link.
pub open spec fn encoded_link(record: LinkRecord) -> Seq<u8> {
    seq![record.key.len() as u8] + record.key + record.hash + seq![
        record.child_heights.0,
        record.child_heights.1,
    ] + match record.sum {
        Some(sum) => seq![1u8] + u64_to_be_bytes(sum),
        None => seq![0u8],
    }
}

/// The number of bytes of the record of a link: 36 and the key, and eight more
/// with an aggregate.
pub open spec fn encoded_link_length(record: LinkRecord) -> nat {
    1 + record.key.len() + 32 + 2 + 1 + if record.sum.is_some() {
        8nat
    } else {
        0nat
    }
}

/// What the front of `input` holds, read as the record of a link, with the
/// number of bytes read; `None` where the input ends before the record does.
/// Any flag byte but zero announces an aggregate.
pub open spec fn decoded_link(input: Seq<u8>) -> Option<(LinkRecord, nat)> {
    if input.len() < 1 {
        None
    } else {
        let n = input[0] as int;
        if input.len() < n + 36 {
            None
        } else {
            let key = input.subrange(1, 1 + n);
            let hash = input.subrange(1 + n, 33 + n);
            let child_heights = (input[33 + n], input[34 + n]);
            if input[35 + n] == 0 {
                Some((LinkRecord { key, hash, child_heights, sum: None }, (n + 36) as nat))
            } else if input.len() < n + 44 {
                None
            } else {
                Some(
                    (
                        LinkRecord {
                            key,
                            hash,
                            child_heights,
                            sum: Some(u64_from_be_bytes(input.subrange(36 + n, 44 + n))),
                        },
                        (n + 44) as nat,
                    ),
                )
            }
        }
    }
}

/// How many bytes the record of a link has at least, going by its front:
/// one where nothing has been read; the bytes up to the flag where the flag
/// has not been read; and the whole record once it has.
pub open spec fn needed_link_length(front: Seq<u8>) -> nat {
    if front.len() < 1 {
        1
    } else {
        let n = front[0] as int;
        if front.len() < n + 36 || front[35 + n] == 0 {
            (n + 36) as nat
        } else {
            (n + 44) as nat
        }
    }
}

/// A number read back from its eight bytes is the number.
pub proof fn lemma_u64_be_roundtrip(value: u64)
    ensures
        u64_to_be_bytes(value).len() == 8,
        u64_from_be_bytes(u64_to_be_bytes(value)) == value,
{
    lemma_auto_spec_u64_to_from_le_bytes();
    let le = spec_u64_to_le_bytes(value);
    assert(le.reverse().reverse() =~= le);
}

/// The record of a link is as long as its length says.
pub proof fn lemma_encoded_link_length(record: LinkRecord)
    requires
        record.hash.len() == 32,
    ensures
        encoded_link(record).len() == encoded_link_length(record),
{
    if let Some(sum) = record.sum {
        lemma_u64_be_roundtrip(sum);
    }
}

/// Reading the record of a link gives back what was written, whatever
/// follows the record: every link whose key is shorter than 256 bytes survives
/// the round trip.
pub proof fn lemma_link_roundtrip(record: LinkRecord, rest: Seq<u8>)
    requires
        record.key.len() < 256,
        record.hash.len() == 32,
    ensures
        decoded_link(encoded_link(record) + rest) == Some(
            (record, encoded_link_length(record)),
        ),
{
    let input = encoded_link(record) + rest;
    let n = record.key.len() as int;
    lemma_encoded_link_length(record);
    assert(input[0] == n as u8);
    assert(input.subrange(1, 1 + n) =~= record.key);
    assert(input.subrange(1 + n, 33 + n) =~= record.hash);
    match record.sum {
        Some(sum) => {
            lemma_u64_be_roundtrip(sum);
            assert(input[35 + n] == 1u8);
            assert(input.subrange(36 + n, 44 + n) =~= u64_to_be_bytes(sum));
        },
        None => {
            assert(input[35 + n] == 0u8);
        },
    }
}

/// The bytes of `input` from `start` up to `end`.
pub fn copy_range(input: &[u8], start: usize, end: usize) -> (bytes: Vec<u8>)
    requires
        start <= end <= input@.len(),
    ensures
        bytes@ == input@.subrange(start as int, end as int),
{
    let mut bytes: Vec<u8> = Vec::new();
    let mut i: usize = start;
    while i < end
        invariant
            start <= i <= end <= input@.len(),
            bytes@ == input@.subrange(start as int, i as int),
        decreases end - i,
    {
        bytes.push(input[i]);
        i += 1;
        assert(bytes@ =~= input@.subrange(start as int, i as int));
    }
    bytes
}

/// The 32 bytes of `input` from `start` on, as a hash.
pub fn read_hash(input: &[u8], start: usize) -> (hash: CryptoHash)
    requires
        start + 32 <= input@.len(),
    ensures
        hash@ == input@.subrange(start as int, start + 32),
{
    let mut hash: CryptoHash = NULL_HASH;
    let mut i: usize = 0;
    while i < 32
        invariant
            i <= 32,
            start + 32 <= input.len(),
            forall|k: int| 0 <= k < i ==> hash@[k] == input@[start + k],
        decreases 32 - i,
    {
        hash[i] = input[start + i];
        i += 1;
    }
    assert(hash@ =~= input@.subrange(start as int, start + 32));
    hash
}

/// Appends the eight bytes of `value`, most significant first.
pub fn append_u64_be(out: &mut Vec<u8>, value: u64)
    ensures
        final(out)@ == old(out)@ + u64_to_be_bytes(value),
{
    let le = u64_to_le_bytes(value);
    let mut i: usize = 8;
    while i > 0
        invariant
            i <= 8,
            le@.len() == 8,
            le@ == spec_u64_to_le_bytes(value),
            out@ == old(out)@ + u64_to_be_bytes(value).take(8 - i),
        decreases i,
    {
        i -= 1;
        out.push(le[i]);
        assert(out@ =~= old(out)@ + u64_to_be_bytes(value).take(8 - i));
    }
    assert(u64_to_be_bytes(value).take(8) =~= u64_to_be_bytes(value));
}

impl Link {
    /// What the record of the link holds. A modified link has no record.
    pub open spec fn record(self) -> LinkRecord
        recommends
            !(self is Modified),
    {
        LinkRecord {
            key: self.key_bytes(),
            hash: self.known_hash()@,
            child_heights: self.heights(),
            sum: self.known_sum(),
        }
    }

    /// What a reference holds before anything is read into it.
    pub open spec fn blank_record() -> LinkRecord {
        LinkRecord { key: Seq::empty(), hash: NULL_HASH@, child_heights: (0, 0), sum: None }
    }

    /// A reference with an empty key, the null hash, no heights and no
    /// aggregate, to be read into.
    pub fn default_reference() -> (link: Self)
        ensures
            link is Reference,
            link.record() == Self::blank_record(),
    {
        Link::Reference {
            key: Vec::with_capacity(64),
            hash: NULL_HASH,
            sum: None,
            child_heights: (0, 0),
        }
    }

    /// The number of bytes of the link's record. A key of 256 bytes or more
    /// has no record.
    pub fn encoding_length(&self) -> (length: Result<usize, CodecError>)
        requires
            !(*self is Modified),
        ensures
            self.key_bytes().len() < 256 ==> length == Ok::<usize, CodecError>(
                encoded_link_length(self.record()) as usize,
            ) && encoded_link_length(self.record()) == encoded_link(self.record()).len(),
            self.key_bytes().len() >= 256 ==> length == Err::<usize, CodecError>(
                CodecError::KeyTooLong,
            ),
    {
        let key_length: usize = self.key().len();
        if key_length >= 256 {
            return Err(CodecError::KeyTooLong);
        }
        proof {
            lemma_encoded_link_length(self.record());
        }
        let sum_length: usize = if self.sum().is_some() {
            8
        } else {
            0
        };
        Ok(1 + key_length + 32 + 2 + 1 + sum_length)
    }

    /// Appends the link's record to `out`. A key of 256 bytes or more is
    /// refused, and nothing is written.
    pub fn encode_into(&self, out: &mut Vec<u8>) -> (result: Result<(), CodecError>)
        requires
            !(*self is Modified),
        ensures
            self.key_bytes().len() < 256 ==> result.is_ok() && final(out)@ == old(out)@
                + encoded_link(self.record()),
            self.key_bytes().len() >= 256 ==> result == Err::<(), CodecError>(
                CodecError::KeyTooLong,
            ) && final(out)@ == old(out)@,
    {
        let key = self.key();
        if key.len() >= 256 {
            return Err(CodecError::KeyTooLong);
        }
        let child_heights = match self {
            Link::Reference { child_heights, .. } => *child_heights,
            Link::Modified { child_heights, .. } => *child_heights,
            Link::Uncommitted { child_heights, .. } => *child_heights,
            Link::Loaded { child_heights, .. } => *child_heights,
        };
        out.push(key.len() as u8);
        out.extend_from_slice(key);
        append_hash(out, self.hash());
        out.push(child_heights.0);
        out.push(child_heights.1);
        match self.sum() {
            Some(sum) => {
                out.push(1);
                append_u64_be(out, sum);
            },
            None => {
                out.push(0);
            },
        }
        assert(out@ =~= old(out)@ + encoded_link(self.record()));
        Ok(())
    }

    /// Reads the record of a link that starts at `start`, and says where it
    /// ends. What is read is a `Reference`.
    pub fn decode_from(input: &[u8], start: usize) -> (result: Result<(Link, usize), CodecError>)
        requires
            start <= input@.len(),
        ensures
            result.is_ok() == decoded_link(input@.skip(start as int)).is_some(),
            result matches Ok((link, end)) ==> link is Reference && decoded_link(
                input@.skip(start as int),
            ) == Some((link.record(), (end - start) as nat)) && start < end <= input@.len(),
            result matches Err(error) ==> error == CodecError::UnexpectedEnd,
    {
        let ghost tail = input@.skip(start as int);
        let available: usize = input.len() - start;
        if available < 1 {
            return Err(CodecError::UnexpectedEnd);
        }
        let n: usize = input[start] as usize;
        assert(tail[0] == input@[start as int]);
        if available < n + 36 {
            return Err(CodecError::UnexpectedEnd);
        }
        let key = copy_range(input, start + 1, start + 1 + n);
        let hash = read_hash(input, start + 1 + n);
        let child_heights = (input[start + 33 + n], input[start + 34 + n]);
        let flag = input[start + 35 + n];
        proof {
            assert(key@ =~= tail.subrange(1, 1 + n));
            assert(hash@ =~= tail.subrange(1 + n, 33 + n));
            assert(tail[33 + n] == input@[start + 33 + n]);
            assert(tail[34 + n] == input@[start + 34 + n]);
            assert(tail[35 + n] == input@[start + 35 + n]);
        }
        if flag == 0 {
            Ok((Link::Reference { hash, child_heights, key, sum: None }, start + n + 36))
        } else if available < n + 44 {
            Err(CodecError::UnexpectedEnd)
        } else {
            let field = vstd::slice::slice_subrange(input, start + 36 + n, start + 44 + n);
            let sum = read_u64_be(field);
            proof {
                assert(field@.subrange(0, 8) =~= tail.subrange(36 + n, 44 + n));
            }
            Ok((Link::Reference { hash, child_heights, key, sum: Some(sum) }, start + n + 44))
        }
    }

    /// How many bytes the record of a link has at least, going by its
    /// front: whoever reads a record from a stream reads until what has been
    /// read is as long as this says, and then holds the record and no more.
    pub fn needed_length(front: &[u8]) -> (needed: usize)
        ensures
            needed == needed_link_length(front@),
            decoded_link(front@) matches Some((_, taken)) ==> needed == taken,
            decoded_link(front@).is_none() ==> needed > front@.len(),
    {
        if front.len() < 1 {
            return 1;
        }
        let n: usize = front[0] as usize;
        if front.len() < n + 36 || front[35 + n] == 0 {
            n + 36
        } else {
            n + 44
        }
    }

    /// Reads the record of a link from the front of `input`; what follows
    /// the record is ignored. What is read is a `Reference`.
    pub fn decode(input: &[u8]) -> (result: Result<Link, CodecError>)
        ensures
            result.is_ok() == decoded_link(input@).is_some(),
            result matches Ok(link) ==> link is Reference && decoded_link(input@).unwrap().0
                == link.record(),
            result matches Err(error) ==> error == CodecError::UnexpectedEnd,
    {
        assert(input@.skip(0) =~= input@);
        match Link::decode_from(input, 0) {
            Ok((link, _)) => Ok(link),
            Err(error) => Err(error),
        }
    }

    /// Reads the record of a link from the front of `input` into this link,
    /// which becomes a `Reference`. Where the input ends too early, a
    /// reference is left as it was and any other link becomes a blank
    /// reference.
    pub fn decode_into(&mut self, input: &[u8]) -> (result: Result<(), CodecError>)
        ensures
            result.is_ok() == decoded_link(input@).is_some(),
            *final(self) is Reference,
            result.is_ok() ==> decoded_link(input@).unwrap().0 == final(self).record(),
            result matches Err(error) ==> error == CodecError::UnexpectedEnd && (if *old(self) is Reference {
                *final(self) == *old(self)
            } else {
                final(self).record() == Self::blank_record()
            }),
    {
        match Link::decode(input) {
            Ok(link) => {
                *self = link;
                Ok(())
            },
            Err(error) => {
                if !self.is_reference() {
                    *self = Link::default_reference();
                }
                Err(error)
            },
        }
    }
}

} // verus!
