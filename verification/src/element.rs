//! The values that a subtree stores under its keys, and their bytes.

use vstd::prelude::*;
use crate::codec::{
    append_u64_be, copy_range, lemma_u64_be_roundtrip, read_hash, read_u64, u64_from_be_bytes,
    u64_to_be_bytes, CodecError,
};
use crate::hash::{append_hash, CryptoHash};
use crate::varint::{
    append_varint, lemma_varint_length, lemma_varint_roundtrip, read_varint, varint,
    varint_decoded, varint_length,
};

verus! {

/// Bytes that the caller attaches to a value.
pub type ElementFlags = Vec<u8>;

/// What is stored under a key of a subtree.
#[derive(Debug, PartialEq, Eq)]
pub enum Element {
    /// An opaque payload.
    Item(Vec<u8>, Option<ElementFlags>),
    /// A pointer to the element at another path; the last segment is its key.
    Reference(Vec<Vec<u8>>, Option<ElementFlags>),
    /// A nested subtree, with its root hash once it has one.
    Tree(Option<CryptoHash>, Option<ElementFlags>),
    /// A number that counts toward the sum of its tree.
    SumItem(i64, Option<ElementFlags>),
    /// A nested subtree that sums up its numbers, with its root hash and sum.
    SumTree(Option<CryptoHash>, i64, Option<ElementFlags>),
}

/// An element as a plain value.
pub enum ElementModel {
    Item(Seq<u8>, Option<Seq<u8>>),
    Reference(Seq<Seq<u8>>, Option<Seq<u8>>),
    Tree(Option<Seq<u8>>, Option<Seq<u8>>),
    SumItem(i64, Option<Seq<u8>>),
    SumTree(Option<Seq<u8>>, i64, Option<Seq<u8>>),
}

/// Flags as a plain value.
pub open spec fn flags_view(flags: Option<ElementFlags>) -> Option<Seq<u8>> {
    match flags {
        Some(f) => Some(f@),
        None => None,
    }
}

/// A root hash as a plain value.
pub open spec fn hash_view(hash: Option<CryptoHash>) -> Option<Seq<u8>> {
    match hash {
        Some(h) => Some(h@),
        None => None,
    }
}

/// A path as a plain value.
pub open spec fn segments_view(path: Seq<Vec<u8>>) -> Seq<Seq<u8>> {
    Seq::new(path.len(), |i: int| path[i]@)
}

impl View for Element {
    type V = ElementModel;

    open spec fn view(&self) -> ElementModel {
        match *self {
            Element::Item(value, flags) => ElementModel::Item(value@, flags_view(flags)),
            Element::Reference(path, flags) => ElementModel::Reference(
                segments_view(path@),
                flags_view(flags),
            ),
            Element::Tree(hash, flags) => ElementModel::Tree(hash_view(hash), flags_view(flags)),
            Element::SumItem(value, flags) => ElementModel::SumItem(value, flags_view(flags)),
            Element::SumTree(hash, sum, flags) => ElementModel::SumTree(
                hash_view(hash),
                sum,
                flags_view(flags),
            ),
        }
    }
}

/// A byte string with its length in front.
pub open spec fn encoded_bytes(bytes: Seq<u8>) -> Seq<u8> {
    varint(bytes.len()) + bytes
}

/// Flags that may be absent: a zero, or a one and the flags with their length.
pub open spec fn encoded_flags(flags: Option<Seq<u8>>) -> Seq<u8> {
    match flags {
        None => seq![0u8],
        Some(f) => seq![1u8] + encoded_bytes(f),
    }
}

/// A root hash that may be absent: a zero, or a one and the hash.
pub open spec fn encoded_root(hash: Option<Seq<u8>>) -> Seq<u8> {
    match hash {
        None => seq![0u8],
        Some(h) => seq![1u8] + h,
    }
}

/// The segments of a path, each with its length in front.
pub open spec fn encoded_segments(path: Seq<Seq<u8>>) -> Seq<u8>
    decreases path.len(),
{
    if path.len() == 0 {
        Seq::empty()
    } else {
        encoded_bytes(path[0]) + encoded_segments(path.drop_first())
    }
}

/// A signed number as eight bytes, most significant first.
pub open spec fn encoded_number(value: i64) -> Seq<u8> {
    u64_to_be_bytes(value as u64)
}

/// The bytes of an element: a tag for its kind, what it holds, and its flags.
pub open spec fn encoded_element(element: ElementModel) -> Seq<u8> {
    match element {
        ElementModel::Item(value, flags) => seq![0u8] + (encoded_bytes(value) + encoded_flags(
            flags,
        )),
        ElementModel::Reference(path, flags) => seq![1u8] + (varint(path.len()) + (
        encoded_segments(path) + encoded_flags(flags))),
        ElementModel::Tree(hash, flags) => seq![2u8] + (encoded_root(hash) + encoded_flags(flags)),
        ElementModel::SumItem(value, flags) => seq![3u8] + (encoded_number(value) + encoded_flags(
            flags,
        )),
        ElementModel::SumTree(hash, sum, flags) => seq![4u8] + (encoded_root(hash) + (
        encoded_number(sum) + encoded_flags(flags))),
    }
}

/// The byte string with its length in front that `bytes` start with, and the
/// number of bytes it takes.
pub open spec fn decoded_bytes(bytes: Seq<u8>) -> Result<(Seq<u8>, nat), CodecError> {
    match varint_decoded(bytes) {
        None => Err(CodecError::UnexpectedEnd),
        Some((length, taken)) => if length > u64::MAX {
            Err(CodecError::NumberTooLarge)
        } else if bytes.len() < taken + length {
            Err(CodecError::UnexpectedEnd)
        } else {
            Ok((bytes.subrange(taken as int, (taken + length) as int), taken + length))
        },
    }
}

/// The flags that `bytes` start with, and the number of bytes they take.
pub open spec fn decoded_flags(bytes: Seq<u8>) -> Result<(Option<Seq<u8>>, nat), CodecError> {
    if bytes.len() < 1 {
        Err(CodecError::UnexpectedEnd)
    } else if bytes[0] == 0 {
        Ok((None, 1))
    } else if bytes[0] == 1 {
        match decoded_bytes(bytes.skip(1)) {
            Ok((flags, taken)) => Ok((Some(flags), taken + 1)),
            Err(error) => Err(error),
        }
    } else {
        Err(CodecError::UnknownTag)
    }
}

/// The root hash that `bytes` start with, and the number of bytes it takes.
pub open spec fn decoded_root(bytes: Seq<u8>) -> Result<(Option<Seq<u8>>, nat), CodecError> {
    if bytes.len() < 1 {
        Err(CodecError::UnexpectedEnd)
    } else if bytes[0] == 0 {
        Ok((None, 1))
    } else if bytes[0] == 1 {
        if bytes.len() < 33 {
            Err(CodecError::UnexpectedEnd)
        } else {
            Ok((Some(bytes.subrange(1, 33)), 33))
        }
    } else {
        Err(CodecError::UnknownTag)
    }
}

/// The signed number that `bytes` start with, and the eight bytes it takes.
pub open spec fn decoded_number(bytes: Seq<u8>) -> Result<(i64, nat), CodecError> {
    if bytes.len() < 8 {
        Err(CodecError::UnexpectedEnd)
    } else {
        Ok((u64_from_be_bytes(bytes.subrange(0, 8)) as i64, 8))
    }
}

/// The `count` segments that `bytes` start with, and the number of bytes they
/// take.
pub open spec fn decoded_segments(bytes: Seq<u8>, count: nat) -> Result<
    (Seq<Seq<u8>>, nat),
    CodecError,
>
    decreases count,
{
    if count == 0 {
        Ok((Seq::empty(), 0))
    } else {
        match decoded_bytes(bytes) {
            Err(error) => Err(error),
            Ok((first, taken)) => match decoded_segments(
                bytes.skip(taken as int),
                (count - 1) as nat,
            ) {
                Err(error) => Err(error),
                Ok((rest, more)) => Ok((seq![first] + rest, taken + more)),
            },
        }
    }
}

/// The item that `body` starts with, and the number of bytes it takes.
pub open spec fn decoded_item(body: Seq<u8>) -> Result<(ElementModel, nat), CodecError> {
    match decoded_bytes(body) {
        Err(error) => Err(error),
        Ok((value, a)) => match decoded_flags(body.skip(a as int)) {
            Err(error) => Err(error),
            Ok((flags, b)) => Ok((ElementModel::Item(value, flags), a + b)),
        },
    }
}

/// The reference that `body` starts with, and the number of bytes it takes.
pub open spec fn decoded_reference(body: Seq<u8>) -> Result<(ElementModel, nat), CodecError> {
    match varint_decoded(body) {
        None => Err(CodecError::UnexpectedEnd),
        Some((count, a)) => if count > u64::MAX {
            Err(CodecError::NumberTooLarge)
        } else {
            match decoded_segments(body.skip(a as int), count) {
                Err(error) => Err(error),
                Ok((path, b)) => match decoded_flags(body.skip((a + b) as int)) {
                    Err(error) => Err(error),
                    Ok((flags, c)) => Ok((ElementModel::Reference(path, flags), a + b + c)),
                },
            }
        },
    }
}

/// The subtree element that `body` starts with, and the number of bytes it
/// takes.
pub open spec fn decoded_tree(body: Seq<u8>) -> Result<(ElementModel, nat), CodecError> {
    match decoded_root(body) {
        Err(error) => Err(error),
        Ok((hash, a)) => match decoded_flags(body.skip(a as int)) {
            Err(error) => Err(error),
            Ok((flags, b)) => Ok((ElementModel::Tree(hash, flags), a + b)),
        },
    }
}

/// The sum item that `body` starts with, and the number of bytes it takes.
pub open spec fn decoded_sum_item(body: Seq<u8>) -> Result<(ElementModel, nat), CodecError> {
    match decoded_number(body) {
        Err(error) => Err(error),
        Ok((value, a)) => match decoded_flags(body.skip(a as int)) {
            Err(error) => Err(error),
            Ok((flags, b)) => Ok((ElementModel::SumItem(value, flags), a + b)),
        },
    }
}

/// The sum tree element that `body` starts with, and the number of bytes it
/// takes.
pub open spec fn decoded_sum_tree(body: Seq<u8>) -> Result<(ElementModel, nat), CodecError> {
    match decoded_root(body) {
        Err(error) => Err(error),
        Ok((hash, a)) => match decoded_number(body.skip(a as int)) {
            Err(error) => Err(error),
            Ok((sum, b)) => match decoded_flags(body.skip((a + b) as int)) {
                Err(error) => Err(error),
                Ok((flags, c)) => Ok((ElementModel::SumTree(hash, sum, flags), a + b + c)),
            },
        },
    }
}

/// What follows the tag of an element of the kind that `tag` names.
pub open spec fn decoded_body(tag: u8, body: Seq<u8>) -> Result<(ElementModel, nat), CodecError> {
    if tag == 0 {
        decoded_item(body)
    } else if tag == 1 {
        decoded_reference(body)
    } else if tag == 2 {
        decoded_tree(body)
    } else if tag == 3 {
        decoded_sum_item(body)
    } else if tag == 4 {
        decoded_sum_tree(body)
    } else {
        Err(CodecError::UnknownTag)
    }
}

/// What `bytes` hold, read as an element: the bytes must be those of one
/// element and no more.
pub open spec fn decoded_element(bytes: Seq<u8>) -> Result<ElementModel, CodecError> {
    if bytes.len() < 1 {
        Err(CodecError::UnexpectedEnd)
    } else {
        match decoded_body(bytes[0], bytes.skip(1)) {
            Err(error) => Err(error),
            Ok((element, taken)) => if taken + 1 == bytes.len() {
                Ok(element)
            } else {
                Err(CodecError::TrailingBytes)
            },
        }
    }
}

/// Whether an element can be written and read back: every hash in it has 32
/// bytes and every length fits in 64 bits.
pub open spec fn element_writable(element: ElementModel) -> bool {
    &&& match element {
        ElementModel::Item(value, flags) => value.len() <= u64::MAX && flags_writable(flags),
        ElementModel::Reference(path, flags) => path.len() <= u64::MAX && (forall|i: int|
            0 <= i < path.len() ==> (#[trigger] path[i]).len() <= u64::MAX) && flags_writable(
            flags,
        ),
        ElementModel::Tree(hash, flags) => root_writable(hash) && flags_writable(flags),
        ElementModel::SumItem(_, flags) => flags_writable(flags),
        ElementModel::SumTree(hash, _, flags) => root_writable(hash) && flags_writable(flags),
    }
}

/// Whether the length of the flags, if there are any, fits in 64 bits.
pub open spec fn flags_writable(flags: Option<Seq<u8>>) -> bool {
    flags matches Some(f) ==> f.len() <= u64::MAX
}

/// Whether the root hash, if there is one, has 32 bytes.
pub open spec fn root_writable(hash: Option<Seq<u8>>) -> bool {
    hash matches Some(h) ==> h.len() == 32
}

/// A byte string read back from its bytes is that byte string.
pub proof fn lemma_bytes_roundtrip(bytes: Seq<u8>, rest: Seq<u8>)
    requires
        bytes.len() <= u64::MAX,
    ensures
        decoded_bytes(encoded_bytes(bytes) + rest) == Ok::<(Seq<u8>, nat), CodecError>(
            (bytes, encoded_bytes(bytes).len()),
        ),
{
    let all = encoded_bytes(bytes) + rest;
    assert(all =~= varint(bytes.len()) + (bytes + rest));
    lemma_varint_roundtrip(bytes.len(), bytes + rest);
    lemma_varint_length(bytes.len());
    let taken = varint_length(bytes.len()) as int;
    assert(all.subrange(taken, taken + bytes.len()) =~= bytes);
}

/// Flags read back from their bytes are those flags.
pub proof fn lemma_flags_roundtrip(flags: Option<Seq<u8>>, rest: Seq<u8>)
    requires
        flags_writable(flags),
    ensures
        decoded_flags(encoded_flags(flags) + rest) == Ok::<(Option<Seq<u8>>, nat), CodecError>(
            (flags, encoded_flags(flags).len()),
        ),
{
    let all = encoded_flags(flags) + rest;
    match flags {
        None => {
            assert(all[0] == 0u8);
        },
        Some(f) => {
            assert(all[0] == 1u8);
            assert(all.skip(1) =~= encoded_bytes(f) + rest);
            lemma_bytes_roundtrip(f, rest);
        },
    }
}

/// A root hash read back from its bytes is that root hash.
pub proof fn lemma_root_roundtrip(hash: Option<Seq<u8>>, rest: Seq<u8>)
    requires
        root_writable(hash),
    ensures
        decoded_root(encoded_root(hash) + rest) == Ok::<(Option<Seq<u8>>, nat), CodecError>(
            (hash, encoded_root(hash).len()),
        ),
{
    let all = encoded_root(hash) + rest;
    match hash {
        None => {
            assert(all[0] == 0u8);
        },
        Some(h) => {
            assert(all[0] == 1u8);
            assert(all.subrange(1, 33) =~= h);
        },
    }
}

/// A signed number read back from its bytes is that number.
pub proof fn lemma_number_roundtrip(value: i64, rest: Seq<u8>)
    ensures
        decoded_number(encoded_number(value) + rest) == Ok::<(i64, nat), CodecError>((value, 8)),
        encoded_number(value).len() == 8,
{
    let all = encoded_number(value) + rest;
    lemma_u64_be_roundtrip(value as u64);
    assert(all.subrange(0, 8) =~= u64_to_be_bytes(value as u64));
    assert((value as u64) as i64 == value) by (bit_vector);
}

/// The segments of a path read back from their bytes are those segments.
pub proof fn lemma_segments_roundtrip(path: Seq<Seq<u8>>, rest: Seq<u8>)
    requires
        forall|i: int| 0 <= i < path.len() ==> (#[trigger] path[i]).len() <= u64::MAX,
    ensures
        decoded_segments(encoded_segments(path) + rest, path.len()) == Ok::<
            (Seq<Seq<u8>>, nat),
            CodecError,
        >((path, encoded_segments(path).len())),
    decreases path.len(),
{
    if path.len() == 0 {
        assert(path =~= Seq::<Seq<u8>>::empty());
    } else {
        let all = encoded_segments(path) + rest;
        let tail = encoded_segments(path.drop_first()) + rest;
        assert(all =~= encoded_bytes(path[0]) + tail);
        lemma_bytes_roundtrip(path[0], tail);
        assert(all.skip(encoded_bytes(path[0]).len() as int) =~= tail);
        assert forall|i: int| 0 <= i < path.drop_first().len() implies (
        #[trigger] path.drop_first()[i]).len() <= u64::MAX by {
            assert(path.drop_first()[i] == path[i + 1]);
        }
        lemma_segments_roundtrip(path.drop_first(), rest);
        assert(seq![path[0]] + path.drop_first() =~= path);
    }
}

/// Reading the bytes of an element gives the element back: every element
/// that can be written survives the round trip.
pub proof fn lemma_element_roundtrip(element: ElementModel)
    requires
        element_writable(element),
    ensures
        decoded_element(encoded_element(element)) == Ok::<ElementModel, CodecError>(element),
{
    let bytes = encoded_element(element);
    let body = bytes.skip(1);
    let none = Seq::<u8>::empty();
    match element {
        ElementModel::Item(value, flags) => {
            assert(bytes[0] == 0u8);
            assert(body =~= encoded_bytes(value) + encoded_flags(flags));
            lemma_bytes_roundtrip(value, encoded_flags(flags));
            assert(body.skip(encoded_bytes(value).len() as int) =~= encoded_flags(flags) + none);
            lemma_flags_roundtrip(flags, none);
        },
        ElementModel::Reference(path, flags) => {
            assert(bytes[0] == 1u8);
            let after_count = encoded_segments(path) + encoded_flags(flags);
            assert(body =~= varint(path.len()) + after_count);
            lemma_varint_roundtrip(path.len(), after_count);
            lemma_varint_length(path.len());
            let a = varint_length(path.len());
            assert(body.skip(a as int) =~= after_count);
            lemma_segments_roundtrip(path, encoded_flags(flags));
            let b = encoded_segments(path).len();
            assert(body.skip((a + b) as int) =~= encoded_flags(flags) + none);
            lemma_flags_roundtrip(flags, none);
        },
        ElementModel::Tree(hash, flags) => {
            assert(bytes[0] == 2u8);
            assert(body =~= encoded_root(hash) + encoded_flags(flags));
            lemma_root_roundtrip(hash, encoded_flags(flags));
            assert(body.skip(encoded_root(hash).len() as int) =~= encoded_flags(flags) + none);
            lemma_flags_roundtrip(flags, none);
        },
        ElementModel::SumItem(value, flags) => {
            assert(bytes[0] == 3u8);
            assert(body =~= encoded_number(value) + encoded_flags(flags));
            lemma_number_roundtrip(value, encoded_flags(flags));
            assert(body.skip(8) =~= encoded_flags(flags) + none);
            lemma_flags_roundtrip(flags, none);
        },
        ElementModel::SumTree(hash, sum, flags) => {
            assert(bytes[0] == 4u8);
            let after_root = encoded_number(sum) + encoded_flags(flags);
            assert(body =~= encoded_root(hash) + after_root);
            lemma_root_roundtrip(hash, after_root);
            let a = encoded_root(hash).len();
            assert(body.skip(a as int) =~= after_root);
            lemma_number_roundtrip(sum, encoded_flags(flags));
            assert(body.skip((a + 8) as int) =~= encoded_flags(flags) + none);
            lemma_flags_roundtrip(flags, none);
        },
    }
}

/// Appends a byte string with its length in front.
fn append_bytes(out: &mut Vec<u8>, bytes: &Vec<u8>)
    ensures
        final(out)@ == old(out)@ + encoded_bytes(bytes@),
{
    append_varint(out, bytes.len() as u64);
    out.extend_from_slice(bytes.as_slice());
    assert(out@ =~= old(out)@ + encoded_bytes(bytes@));
}

/// Appends flags that may be absent.
fn append_flags(out: &mut Vec<u8>, flags: &Option<ElementFlags>)
    ensures
        final(out)@ == old(out)@ + encoded_flags(flags_view(*flags)),
{
    match flags {
        None => {
            out.push(0);
        },
        Some(f) => {
            out.push(1);
            append_bytes(out, f);
            assert(out@ =~= old(out)@ + (seq![1u8] + encoded_bytes(f@)));
        },
    }
}

/// Appends a root hash that may be absent.
fn append_root(out: &mut Vec<u8>, hash: &Option<CryptoHash>)
    ensures
        final(out)@ == old(out)@ + encoded_root(hash_view(*hash)),
{
    match hash {
        None => {
            out.push(0);
        },
        Some(h) => {
            out.push(1);
            append_hash(out, h);
            assert(out@ =~= old(out)@ + (seq![1u8] + h@));
        },
    }
}

/// Appends the segments of a path, each with its length in front.
fn append_segments(out: &mut Vec<u8>, path: &Vec<Vec<u8>>)
    ensures
        final(out)@ == old(out)@ + encoded_segments(segments_view(path@)),
{
    let ghost segments = segments_view(path@);
    let mut i: usize = path.len();
    let mut tail: Vec<u8> = Vec::new();
    assert(segments.skip(i as int) =~= Seq::<Seq<u8>>::empty());
    while i > 0
        invariant
            i <= path.len(),
            segments == segments_view(path@),
            tail@ == encoded_segments(segments.skip(i as int)),
        decreases i,
    {
        i -= 1;
        let mut front: Vec<u8> = Vec::new();
        append_bytes(&mut front, &path[i]);
        proof {
            assert(segments.skip(i as int)[0] == path@[i as int]@);
            assert(segments.skip(i as int).drop_first() =~= segments.skip(i + 1));
            assert(front@ =~= encoded_bytes(path@[i as int]@));
        }
        front.append(&mut tail);
        tail = front;
    }
    assert(segments.skip(0) =~= segments);
    out.append(&mut tail);
}

/// Reads the byte string with its length in front that starts at `start`,
/// and says where it ends.
fn read_bytes(input: &[u8], start: usize) -> (result: Result<(Vec<u8>, usize), CodecError>)
    requires
        start <= input@.len(),
    ensures
        match decoded_bytes(input@.skip(start as int)) {
            Ok((bytes, taken)) => result.is_ok() && result.unwrap().0@ == bytes
                && result.unwrap().1 == start + taken && start + taken <= input@.len(),
            Err(error) => result == Err::<(Vec<u8>, usize), CodecError>(error),
        },
{
    let ghost tail = input@.skip(start as int);
    let (length, after_length) = match read_varint(input, start) {
        Ok(read) => read,
        Err(error) => {
            return Err(error);
        },
    };
    if length > (input.len() - after_length) as u64 {
        return Err(CodecError::UnexpectedEnd);
    }
    let end: usize = after_length + length as usize;
    let bytes = copy_range(input, after_length, end);
    assert(bytes@ =~= tail.subrange(after_length - start, end - start));
    Ok((bytes, end))
}

/// Reads the flags that start at `start`, and says where they end.
fn read_flags(input: &[u8], start: usize) -> (result: Result<
    (Option<ElementFlags>, usize),
    CodecError,
>)
    requires
        start <= input@.len(),
    ensures
        match decoded_flags(input@.skip(start as int)) {
            Ok((flags, taken)) => result.is_ok() && flags_view(result.unwrap().0) == flags
                && result.unwrap().1 == start + taken && start + taken <= input@.len(),
            Err(error) => result == Err::<(Option<ElementFlags>, usize), CodecError>(error),
        },
{
    let ghost tail = input@.skip(start as int);
    if start >= input.len() {
        return Err(CodecError::UnexpectedEnd);
    }
    let tag: u8 = input[start];
    assert(tail[0] == tag);
    if tag == 0 {
        Ok((None, start + 1))
    } else if tag == 1 {
        assert(tail.skip(1) =~= input@.skip(start + 1));
        match read_bytes(input, start + 1) {
            Ok((flags, end)) => Ok((Some(flags), end)),
            Err(error) => Err(error),
        }
    } else {
        Err(CodecError::UnknownTag)
    }
}

/// Reads the root hash that starts at `start`, and says where it ends.
fn read_root(input: &[u8], start: usize) -> (result: Result<
    (Option<CryptoHash>, usize),
    CodecError,
>)
    requires
        start <= input@.len(),
    ensures
        match decoded_root(input@.skip(start as int)) {
            Ok((hash, taken)) => result.is_ok() && hash_view(result.unwrap().0) == hash
                && result.unwrap().1 == start + taken && start + taken <= input@.len(),
            Err(error) => result == Err::<(Option<CryptoHash>, usize), CodecError>(error),
        },
{
    let ghost tail = input@.skip(start as int);
    let available: usize = input.len() - start;
    if available < 1 {
        return Err(CodecError::UnexpectedEnd);
    }
    let tag: u8 = input[start];
    assert(tail[0] == tag);
    if tag == 0 {
        Ok((None, start + 1))
    } else if tag == 1 {
        if available < 33 {
            return Err(CodecError::UnexpectedEnd);
        }
        let hash = read_hash(input, start + 1);
        assert(hash@ =~= tail.subrange(1, 33));
        Ok((Some(hash), start + 33))
    } else {
        Err(CodecError::UnknownTag)
    }
}

/// Reads the signed number that starts at `start`, and says where it ends.
fn read_number(input: &[u8], start: usize) -> (result: Result<(i64, usize), CodecError>)
    requires
        start <= input@.len(),
    ensures
        match decoded_number(input@.skip(start as int)) {
            Ok((value, taken)) => result == Ok::<(i64, usize), CodecError>(
                (value, (start + taken) as usize),
            ) && start + taken <= input@.len(),
            Err(error) => result == Err::<(i64, usize), CodecError>(error),
        },
{
    let ghost tail = input@.skip(start as int);
    if input.len() - start < 8 {
        return Err(CodecError::UnexpectedEnd);
    }
    let field = vstd::slice::slice_subrange(input, start, start + 8);
    assert(field@.subrange(0, 8) =~= tail.subrange(0, 8));
    let value = read_u64(field);
    Ok((#[verifier::truncate] (value as i64), start + 8))
}

/// Reads `count` segments that start at `start`, and says where they end.
fn read_segments(input: &[u8], start: usize, count: u64) -> (result: Result<
    (Vec<Vec<u8>>, usize),
    CodecError,
>)
    requires
        start <= input@.len(),
    ensures
        match decoded_segments(input@.skip(start as int), count as nat) {
            Ok((path, taken)) => result.is_ok() && segments_view(result.unwrap().0@) == path
                && result.unwrap().1 == start + taken && start + taken <= input@.len(),
            Err(error) => result == Err::<(Vec<Vec<u8>>, usize), CodecError>(error),
        },
{
    let mut path: Vec<Vec<u8>> = Vec::new();
    let mut at: usize = start;
    let mut left: u64 = count;
    let ghost whole = decoded_segments(input@.skip(start as int), count as nat);
    assert(segments_view(path@) =~= Seq::<Seq<u8>>::empty());
    while left > 0
        invariant
            start <= at <= input@.len(),
            whole == decoded_segments(input@.skip(start as int), count as nat),
            match decoded_segments(input@.skip(at as int), left as nat) {
                Ok((rest, more)) => whole == Ok::<(Seq<Seq<u8>>, nat), CodecError>(
                    (segments_view(path@) + rest, (at - start + more) as nat),
                ),
                Err(error) => whole == Err::<(Seq<Seq<u8>>, nat), CodecError>(error),
            },
        decreases left,
    {
        let ghost before = segments_view(path@);
        let ghost here = input@.skip(at as int);
        match read_bytes(input, at) {
            Err(error) => {
                return Err(error);
            },
            Ok((segment, end)) => {
                proof {
                    assert(here.skip(end - at) =~= input@.skip(end as int));
                }
                path.push(segment);
                proof {
                    assert(segments_view(path@) =~= before + seq![segment@]);
                    match decoded_segments(input@.skip(end as int), (left - 1) as nat) {
                        Ok((rest, more)) => {
                            assert(before + (seq![segment@] + rest) =~= segments_view(path@)
                                + rest);
                        },
                        Err(_) => {},
                    }
                }
                at = end;
                left -= 1;
            },
        }
    }
    proof {
        assert(segments_view(path@) + Seq::<Seq<u8>>::empty() =~= segments_view(path@));
    }
    Ok((path, at))
}

/// Reads the item that follows the tag.
fn read_item(input: &[u8]) -> (result: Result<(Element, usize), CodecError>)
    requires
        input@.len() >= 1,
    ensures
        match decoded_item(input@.skip(1)) {
            Ok((element, taken)) => result.is_ok() && result.unwrap().0@ == element
                && result.unwrap().1 == taken + 1 && taken + 1 <= input@.len(),
            Err(error) => result == Err::<(Element, usize), CodecError>(error),
        },
{
    let ghost body = input@.skip(1);
    let (value, a) = match read_bytes(input, 1) {
        Ok(read) => read,
        Err(error) => {
            return Err(error);
        },
    };
    assert(body.skip(a - 1) =~= input@.skip(a as int));
    let (flags, b) = match read_flags(input, a) {
        Ok(read) => read,
        Err(error) => {
            return Err(error);
        },
    };
    Ok((Element::Item(value, flags), b))
}

/// Reads the reference that follows the tag.
fn read_reference(input: &[u8]) -> (result: Result<(Element, usize), CodecError>)
    requires
        input@.len() >= 1,
    ensures
        match decoded_reference(input@.skip(1)) {
            Ok((element, taken)) => result.is_ok() && result.unwrap().0@ == element
                && result.unwrap().1 == taken + 1 && taken + 1 <= input@.len(),
            Err(error) => result == Err::<(Element, usize), CodecError>(error),
        },
{
    let ghost body = input@.skip(1);
    let (count, a) = match read_varint(input, 1) {
        Ok(read) => read,
        Err(error) => {
            return Err(error);
        },
    };
    assert(input@.len() == input.len());
    assert(body.skip(a - 1) =~= input@.skip(a as int));
    let (path, b) = match read_segments(input, a, count) {
        Ok(read) => read,
        Err(error) => {
            return Err(error);
        },
    };
    assert(body.skip(b - 1) =~= input@.skip(b as int));
    let (flags, c) = match read_flags(input, b) {
        Ok(read) => read,
        Err(error) => {
            return Err(error);
        },
    };
    Ok((Element::Reference(path, flags), c))
}

/// Reads the subtree element that follows the tag.
fn read_tree(input: &[u8]) -> (result: Result<(Element, usize), CodecError>)
    requires
        input@.len() >= 1,
    ensures
        match decoded_tree(input@.skip(1)) {
            Ok((element, taken)) => result.is_ok() && result.unwrap().0@ == element
                && result.unwrap().1 == taken + 1 && taken + 1 <= input@.len(),
            Err(error) => result == Err::<(Element, usize), CodecError>(error),
        },
{
    let ghost body = input@.skip(1);
    let (hash, a) = match read_root(input, 1) {
        Ok(read) => read,
        Err(error) => {
            return Err(error);
        },
    };
    assert(body.skip(a - 1) =~= input@.skip(a as int));
    let (flags, b) = match read_flags(input, a) {
        Ok(read) => read,
        Err(error) => {
            return Err(error);
        },
    };
    Ok((Element::Tree(hash, flags), b))
}

/// Reads the sum item that follows the tag.
fn read_sum_item(input: &[u8]) -> (result: Result<(Element, usize), CodecError>)
    requires
        input@.len() >= 1,
    ensures
        match decoded_sum_item(input@.skip(1)) {
            Ok((element, taken)) => result.is_ok() && result.unwrap().0@ == element
                && result.unwrap().1 == taken + 1 && taken + 1 <= input@.len(),
            Err(error) => result == Err::<(Element, usize), CodecError>(error),
        },
{
    let ghost body = input@.skip(1);
    let (value, a) = match read_number(input, 1) {
        Ok(read) => read,
        Err(error) => {
            return Err(error);
        },
    };
    assert(body.skip(a - 1) =~= input@.skip(a as int));
    let (flags, b) = match read_flags(input, a) {
        Ok(read) => read,
        Err(error) => {
            return Err(error);
        },
    };
    Ok((Element::SumItem(value, flags), b))
}

/// Reads the sum tree element that follows the tag.
fn read_sum_tree(input: &[u8]) -> (result: Result<(Element, usize), CodecError>)
    requires
        input@.len() >= 1,
    ensures
        match decoded_sum_tree(input@.skip(1)) {
            Ok((element, taken)) => result.is_ok() && result.unwrap().0@ == element
                && result.unwrap().1 == taken + 1 && taken + 1 <= input@.len(),
            Err(error) => result == Err::<(Element, usize), CodecError>(error),
        },
{
    let ghost body = input@.skip(1);
    let (hash, a) = match read_root(input, 1) {
        Ok(read) => read,
        Err(error) => {
            return Err(error);
        },
    };
    assert(body.skip(a - 1) =~= input@.skip(a as int));
    let (sum, b) = match read_number(input, a) {
        Ok(read) => read,
        Err(error) => {
            return Err(error);
        },
    };
    assert(body.skip(b - 1) =~= input@.skip(b as int));
    let (flags, c) = match read_flags(input, b) {
        Ok(read) => read,
        Err(error) => {
            return Err(error);
        },
    };
    Ok((Element::SumTree(hash, sum, flags), c))
}

/// Every element that a program holds can be written and read back.
pub proof fn lemma_element_writable(element: Element)
    ensures
        element_writable(element@),
{
    match element {
        Element::Item(value, flags) => {
            assert(value@.len() == value.len());
            lemma_flags_writable(flags);
        },
        Element::Reference(path, flags) => {
            let segments = segments_view(path@);
            assert(path@.len() == path.len());
            assert forall|i: int| 0 <= i < segments.len() implies (#[trigger] segments[i]).len()
                <= u64::MAX by {
                assert(path@[i]@.len() == path@[i].len());
            }
            lemma_flags_writable(flags);
        },
        Element::Tree(hash, flags) => {
            lemma_flags_writable(flags);
        },
        Element::SumItem(value, flags) => {
            lemma_flags_writable(flags);
        },
        Element::SumTree(hash, sum, flags) => {
            lemma_flags_writable(flags);
        },
    }
}

/// The flags that a program holds have a length that fits in 64 bits.
proof fn lemma_flags_writable(flags: Option<ElementFlags>)
    ensures
        flags_writable(flags_view(flags)),
{
    if let Some(f) = flags {
        assert(f@.len() == f.len());
    }
}

impl Element {
    /// A subtree that holds nothing yet.
    pub fn empty_tree() -> (element: Self)
        ensures
            element@ == ElementModel::Tree(None, None),
    {
        Element::Tree(None, None)
    }

    /// A subtree with the given root hash.
    pub fn new_tree(root_hash: Option<CryptoHash>) -> (element: Self)
        ensures
            element@ == ElementModel::Tree(hash_view(root_hash), None),
    {
        Element::Tree(root_hash, None)
    }

    /// An item without flags.
    pub fn new_item(value: Vec<u8>) -> (element: Self)
        ensures
            element@ == ElementModel::Item(value@, None),
    {
        Element::Item(value, None)
    }

    /// An item with flags.
    pub fn new_item_with_flags(value: Vec<u8>, flags: Option<ElementFlags>) -> (element: Self)
        ensures
            element@ == ElementModel::Item(value@, flags_view(flags)),
    {
        Element::Item(value, flags)
    }

    /// A reference to the element at `path` without flags.
    pub fn new_reference(path: Vec<Vec<u8>>) -> (element: Self)
        ensures
            element@ == ElementModel::Reference(segments_view(path@), None),
    {
        Element::Reference(path, None)
    }

    /// Whether the element opens a nested subtree.
    pub fn is_tree(&self) -> (tree: bool)
        ensures
            tree == (self@ is Tree || self@ is SumTree),
    {
        match self {
            Element::Tree(..) | Element::SumTree(..) => true,
            _ => false,
        }
    }

    /// The bytes of the element.
    pub fn serialize(&self) -> (bytes: Vec<u8>)
        ensures
            bytes@ == encoded_element(self@),
            element_writable(self@),
    {
        let mut bytes: Vec<u8> = Vec::new();
        let mut body: Vec<u8> = Vec::new();
        match self {
            Element::Item(value, flags) => {
                bytes.push(0);
                append_bytes(&mut body, value);
                append_flags(&mut body, flags);
                assert(body@ =~= encoded_bytes(value@) + encoded_flags(flags_view(*flags)));
            },
            Element::Reference(path, flags) => {
                bytes.push(1);
                append_varint(&mut body, path.len() as u64);
                let mut rest: Vec<u8> = Vec::new();
                append_segments(&mut rest, path);
                append_flags(&mut rest, flags);
                assert(rest@ =~= encoded_segments(segments_view(path@)) + encoded_flags(
                    flags_view(*flags),
                ));
                body.append(&mut rest);
            },
            Element::Tree(hash, flags) => {
                bytes.push(2);
                append_root(&mut body, hash);
                append_flags(&mut body, flags);
                assert(body@ =~= encoded_root(hash_view(*hash)) + encoded_flags(
                    flags_view(*flags),
                ));
            },
            Element::SumItem(value, flags) => {
                bytes.push(3);
                append_u64_be(&mut body, #[verifier::truncate] (*value as u64));
                append_flags(&mut body, flags);
                assert(body@ =~= encoded_number(*value) + encoded_flags(flags_view(*flags)));
            },
            Element::SumTree(hash, sum, flags) => {
                bytes.push(4);
                append_root(&mut body, hash);
                let mut rest: Vec<u8> = Vec::new();
                append_u64_be(&mut rest, #[verifier::truncate] (*sum as u64));
                append_flags(&mut rest, flags);
                assert(rest@ =~= encoded_number(*sum) + encoded_flags(flags_view(*flags)));
                body.append(&mut rest);
            },
        }
        bytes.append(&mut body);
        proof {
            lemma_element_writable(*self);
        }
        bytes
    }

    /// Reads an element from its bytes, which must hold one element and no
    /// more.
    pub fn deserialize(input: &[u8]) -> (result: Result<Element, CodecError>)
        ensures
            match decoded_element(input@) {
                Ok(element) => result.is_ok() && result.unwrap()@ == element,
                Err(error) => result == Err::<Element, CodecError>(error),
            },
    {
        if input.len() < 1 {
            return Err(CodecError::UnexpectedEnd);
        }
        let tag: u8 = input[0];
        let read = if tag == 0 {
            read_item(input)
        } else if tag == 1 {
            read_reference(input)
        } else if tag == 2 {
            read_tree(input)
        } else if tag == 3 {
            read_sum_item(input)
        } else if tag == 4 {
            read_sum_tree(input)
        } else {
            Err(CodecError::UnknownTag)
        };
        match read {
            Err(error) => Err(error),
            Ok((element, end)) => if end == input.len() {
                Ok(element)
            } else {
                Err(CodecError::TrailingBytes)
            },
        }
    }
}

} // verus!
