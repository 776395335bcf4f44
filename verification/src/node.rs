//! The binary record of a node: its feature, its two links, the hashes of its
//! key and value, the value with its length, and the key to the end.

use vstd::prelude::*;
use crate::codec::{
    append_u64_be, copy_range, decoded_link, encoded_link, lemma_encoded_link_length, lemma_link_roundtrip, lemma_u64_be_roundtrip, read_hash,
    u64_from_be_bytes, u64_to_be_bytes, CodecError, LinkRecord,
};
use crate::hash::append_hash;
use crate::link::Link;
use crate::tree::{Tree, TreeFeatureType};
use crate::varint::{
    append_varint, lemma_varint_length, lemma_varint_roundtrip, read_varint, required_space,
    varint, varint_decoded, varint_length,
};

verus! {

/// What the record of a node holds, as plain values.
pub struct NodeRecord {
    pub feature: TreeFeatureType,
    pub left: Option<LinkRecord>,
    pub right: Option<LinkRecord>,
    pub kv_hash: Seq<u8>,
    pub value_hash: Seq<u8>,
    pub value: Seq<u8>,
    pub key: Seq<u8>,
}

/// The bytes of a feature: a zero for a plain node, a one and the eight bytes
/// of the weight for a node of a sum tree.
pub open spec fn encoded_feature(feature: TreeFeatureType) -> Seq<u8> {
    match feature {
        TreeFeatureType::BasicMerk => seq![0u8],
        TreeFeatureType::SummedMerk(weight) => seq![1u8] + u64_to_be_bytes(weight as u64),
    }
}

/// The bytes of a link that may be absent: a zero, or a one and the record of
/// the link.
pub open spec fn encoded_side(side: Option<LinkRecord>) -> Seq<u8> {
    match side {
        None => seq![0u8],
        Some(link) => seq![1u8] + encoded_link(link),
    }
}

/// The bytes of the entry of a node: the hash of key and value, the hash of
/// the value, the length of the value, the value, and the key.
pub open spec fn encoded_entry(node: NodeRecord) -> Seq<u8> {
    node.kv_hash + node.value_hash + (varint(node.value.len()) + (node.value + node.key))
}

/// The record of a node: its feature, its left and right links, and its
/// entry.
pub open spec fn encoded_node(node: NodeRecord) -> Seq<u8> {
    encoded_feature(node.feature) + (encoded_side(node.left) + (encoded_side(node.right)
        + encoded_entry(node)))
}

/// The number of bytes of the record of a node with a key and a value of the
/// given lengths; each link is given by the length of its key and by whether
/// it carries an aggregate.
pub open spec fn encoded_node_length(
    key_length: nat,
    value_length: nat,
    summed: bool,
    left: Option<(nat, bool)>,
    right: Option<(nat, bool)>,
) -> nat {
    (if summed {
        9nat
    } else {
        1nat
    }) + side_length(left) + side_length(right) + 64 + varint_length(value_length) + value_length
        + key_length
}

/// The number of bytes of a link that may be absent.
pub open spec fn side_length(side: Option<(nat, bool)>) -> nat {
    match side {
        None => 1,
        Some((key_length, has_sum)) => 1 + 36 + key_length + if has_sum {
            8nat
        } else {
            0nat
        },
    }
}

/// The feature at the front of `bytes` and the number of bytes it takes.
pub open spec fn decoded_feature(bytes: Seq<u8>) -> Result<(TreeFeatureType, nat), CodecError> {
    if bytes.len() < 1 {
        Err(CodecError::UnexpectedEnd)
    } else if bytes[0] == 0 {
        Ok((TreeFeatureType::BasicMerk, 1))
    } else if bytes[0] == 1 {
        if bytes.len() < 9 {
            Err(CodecError::UnexpectedEnd)
        } else {
            Ok((TreeFeatureType::SummedMerk(u64_from_be_bytes(bytes.subrange(1, 9)) as i64), 9))
        }
    } else {
        Err(CodecError::UnknownTag)
    }
}

/// The link that may be absent at the front of `bytes`, and the number of
/// bytes it takes. A link that tells a height of more than 255 is refused.
pub open spec fn decoded_side(bytes: Seq<u8>) -> Result<(Option<LinkRecord>, nat), CodecError> {
    if bytes.len() < 1 {
        Err(CodecError::UnexpectedEnd)
    } else if bytes[0] == 0 {
        Ok((None, 1))
    } else if bytes[0] == 1 {
        match decoded_link(bytes.skip(1)) {
            None => Err(CodecError::UnexpectedEnd),
            Some((link, taken)) => if link.child_heights.0 == 255 || link.child_heights.1 == 255 {
                Err(CodecError::HeightTooLarge)
            } else {
                Ok((Some(link), taken + 1))
            },
        }
    } else {
        Err(CodecError::UnknownTag)
    }
}

/// The two hashes, the value and the key that make up the rest of a record.
pub open spec fn decoded_entry(bytes: Seq<u8>) -> Result<
    (Seq<u8>, Seq<u8>, Seq<u8>, Seq<u8>),
    CodecError,
> {
    if bytes.len() < 64 {
        Err(CodecError::UnexpectedEnd)
    } else {
        match varint_decoded(bytes.skip(64)) {
            None => Err(CodecError::UnexpectedEnd),
            Some((length, taken)) => if length > u64::MAX {
                Err(CodecError::NumberTooLarge)
            } else if bytes.len() < 64 + taken + length {
                Err(CodecError::UnexpectedEnd)
            } else {
                Ok(
                    (
                        bytes.subrange(0, 32),
                        bytes.subrange(32, 64),
                        bytes.subrange((64 + taken) as int, (64 + taken + length) as int),
                        bytes.skip((64 + taken + length) as int),
                    ),
                )
            },
        }
    }
}

/// What `bytes` hold, read as the record of a node.
pub open spec fn decoded_node(bytes: Seq<u8>) -> Result<NodeRecord, CodecError> {
    match decoded_feature(bytes) {
        Err(error) => Err(error),
        Ok((feature, a)) => match decoded_side(bytes.skip(a as int)) {
            Err(error) => Err(error),
            Ok((left, b)) => match decoded_side(bytes.skip((a + b) as int)) {
                Err(error) => Err(error),
                Ok((right, c)) => match decoded_entry(bytes.skip((a + b + c) as int)) {
                    Err(error) => Err(error),
                    Ok((kv_hash, value_hash, value, key)) => Ok(
                        NodeRecord { feature, left, right, kv_hash, value_hash, value, key },
                    ),
                },
            },
        },
    }
}

/// Whether a link that may be absent can be written and read back: its key
/// is shorter than 256 bytes, its hash has 32, and the heights it tells leave
/// room for the height of its node.
pub open spec fn side_writable(side: Option<LinkRecord>) -> bool {
    side matches Some(link) ==> link.key.len() < 256 && link.hash.len() == 32
        && link.child_heights.0 < 255 && link.child_heights.1 < 255
}

/// Whether a node can be written and read back.
pub open spec fn node_writable(node: NodeRecord) -> bool {
    &&& side_writable(node.left)
    &&& side_writable(node.right)
    &&& node.kv_hash.len() == 32
    &&& node.value_hash.len() == 32
    &&& node.value.len() <= u64::MAX
}

/// A feature read back from its bytes is the feature.
proof fn lemma_feature_roundtrip(feature: TreeFeatureType, rest: Seq<u8>)
    ensures
        decoded_feature(encoded_feature(feature) + rest) == Ok::<
            (TreeFeatureType, nat),
            CodecError,
        >((feature, encoded_feature(feature).len())),
{
    let bytes = encoded_feature(feature) + rest;
    match feature {
        TreeFeatureType::BasicMerk => {
            assert(bytes[0] == 0u8);
        },
        TreeFeatureType::SummedMerk(weight) => {
            lemma_u64_be_roundtrip(weight as u64);
            assert(bytes[0] == 1u8);
            assert(bytes.subrange(1, 9) =~= u64_to_be_bytes(weight as u64));
            assert((weight as u64) as i64 == weight) by (bit_vector);
        },
    }
}

/// A link that may be absent, read back from its bytes, is that link.
proof fn lemma_side_roundtrip(side: Option<LinkRecord>, rest: Seq<u8>)
    requires
        side_writable(side),
    ensures
        decoded_side(encoded_side(side) + rest) == Ok::<(Option<LinkRecord>, nat), CodecError>(
            (side, encoded_side(side).len()),
        ),
{
    let bytes = encoded_side(side) + rest;
    match side {
        None => {
            assert(bytes[0] == 0u8);
        },
        Some(link) => {
            lemma_link_roundtrip(link, rest);
            lemma_encoded_link_length(link);
            assert(bytes[0] == 1u8);
            assert(bytes.skip(1) =~= encoded_link(link) + rest);
        },
    }
}

/// The entry of a node, read back from its bytes, is that entry.
proof fn lemma_entry_roundtrip(node: NodeRecord)
    requires
        node.kv_hash.len() == 32,
        node.value_hash.len() == 32,
        node.value.len() <= u64::MAX,
    ensures
        decoded_entry(encoded_entry(node)) == Ok::<
            (Seq<u8>, Seq<u8>, Seq<u8>, Seq<u8>),
            CodecError,
        >((node.kv_hash, node.value_hash, node.value, node.key)),
{
    let bytes = encoded_entry(node);
    let after_hashes = varint(node.value.len()) + (node.value + node.key);
    assert(bytes.skip(64) =~= after_hashes);
    lemma_varint_roundtrip(node.value.len(), node.value + node.key);
    lemma_varint_length(node.value.len());
    let taken = varint_length(node.value.len()) as int;
    let length = node.value.len() as int;
    assert(bytes.subrange(0, 32) =~= node.kv_hash);
    assert(bytes.subrange(32, 64) =~= node.value_hash);
    assert(bytes.subrange(64 + taken, 64 + taken + length) =~= node.value);
    assert(bytes.skip(64 + taken + length) =~= node.key);
}

/// Reading the record of a node gives back what was written: every node that
/// can be written survives the round trip.
pub proof fn lemma_node_roundtrip(node: NodeRecord)
    requires
        node_writable(node),
    ensures
        decoded_node(encoded_node(node)) == Ok::<NodeRecord, CodecError>(node),
{
    let bytes = encoded_node(node);
    let feature = encoded_feature(node.feature);
    let left = encoded_side(node.left);
    let right = encoded_side(node.right);
    let entry = encoded_entry(node);
    lemma_feature_roundtrip(node.feature, left + (right + entry));
    assert(bytes.skip(feature.len() as int) =~= left + (right + entry));
    lemma_side_roundtrip(node.left, right + entry);
    assert(bytes.skip((feature.len() + left.len()) as int) =~= right + entry);
    lemma_side_roundtrip(node.right, entry);
    assert(bytes.skip((feature.len() + left.len() + right.len()) as int) =~= entry);
    lemma_entry_roundtrip(node);
}

/// What the record of a link that may be absent holds.
pub open spec fn side_record(link: Option<Link>) -> Option<LinkRecord> {
    match link {
        Some(l) => Some(l.record()),
        None => None,
    }
}

/// The length of the key of a link that may be absent, and whether the link
/// carries an aggregate.
pub open spec fn side_shape(link: Option<LinkRecord>) -> Option<(nat, bool)> {
    match link {
        Some(l) => Some((l.key.len(), l.sum.is_some())),
        None => None,
    }
}

/// The record of a node is as long as the lengths of its parts say.
pub proof fn lemma_encoded_node_length(node: NodeRecord)
    requires
        node.kv_hash.len() == 32,
        node.value_hash.len() == 32,
        node.left matches Some(l) ==> l.hash.len() == 32,
        node.right matches Some(l) ==> l.hash.len() == 32,
    ensures
        encoded_node(node).len() == encoded_node_length(
            node.key.len(),
            node.value.len(),
            node.feature is SummedMerk,
            side_shape(node.left),
            side_shape(node.right),
        ),
{
    lemma_varint_length(node.value.len());
    if let TreeFeatureType::SummedMerk(weight) = node.feature {
        lemma_u64_be_roundtrip(#[verifier::truncate] (weight as u64));
    }
    if let Some(l) = node.left {
        lemma_encoded_link_length(l);
    }
    if let Some(l) = node.right {
        lemma_encoded_link_length(l);
    }
}

/// The number of bytes of a link that may be absent, given by the length of
/// its key and by whether it carries an aggregate.
fn side_size(side: Option<(usize, bool)>) -> (size: Option<usize>)
    ensures
        ({
            let length = side_length(
                match side {
                    Some((k, s)) => Some((k as nat, s)),
                    None => None,
                },
            );
            if length <= usize::MAX {
                size == Some(length as usize)
            } else {
                size.is_none()
            }
        }),
{
    match side {
        None => Some(1),
        Some((key_length, has_sum)) => {
            let fixed: usize = if has_sum {
                45
            } else {
                37
            };
            key_length.checked_add(fixed)
        },
    }
}

/// The number of bytes that the record of a node will take, told from the
/// lengths of its key and value, from whether it is a node of a sum tree, and
/// from the key length and aggregate of each link: exactly what encoding it
/// would produce, without encoding it. `None` where the number does not fit.
pub fn node_record_length(
    key_length: usize,
    value_length: usize,
    summed: bool,
    left: Option<(usize, bool)>,
    right: Option<(usize, bool)>,
) -> (length: Option<usize>)
    ensures
        ({
            let exact = encoded_node_length(
                key_length as nat,
                value_length as nat,
                summed,
                match left {
                    Some((k, s)) => Some((k as nat, s)),
                    None => None,
                },
                match right {
                    Some((k, s)) => Some((k as nat, s)),
                    None => None,
                },
            );
            if exact <= usize::MAX {
                length == Some(exact as usize)
            } else {
                length.is_none()
            }
        }),
{
    let feature: usize = if summed {
        9
    } else {
        1
    };
    let fixed: usize = feature + 64 + required_space(value_length as u64);
    let left_size = match side_size(left) {
        Some(size) => size,
        None => {
            return None;
        },
    };
    let right_size = match side_size(right) {
        Some(size) => size,
        None => {
            return None;
        },
    };
    let with_left = match fixed.checked_add(left_size) {
        Some(sum) => sum,
        None => {
            return None;
        },
    };
    let with_right = match with_left.checked_add(right_size) {
        Some(sum) => sum,
        None => {
            return None;
        },
    };
    let with_value = match with_right.checked_add(value_length) {
        Some(sum) => sum,
        None => {
            return None;
        },
    };
    with_value.checked_add(key_length)
}

/// Appends the bytes of a link that may be absent. The link is not modified
/// and its key is shorter than 256 bytes.
fn append_side(out: &mut Vec<u8>, link: Option<&Link>)
    requires
        link matches Some(l) ==> !(l is Modified) && l.key_bytes().len() < 256,
    ensures
        final(out)@ == old(out)@ + encoded_side(
            match link {
                Some(l) => Some(l.record()),
                None => None,
            },
        ),
{
    match link {
        None => {
            out.push(0);
        },
        Some(l) => {
            out.push(1);
            let written = l.encode_into(out);
            assert(out@ =~= old(out)@ + (seq![1u8] + encoded_link(l.record())));
        },
    }
}

/// Whether the link, if there is one, has a key of 256 bytes or more.
fn side_too_long(link: Option<&Link>) -> (too_long: bool)
    ensures
        too_long == (link matches Some(l) && l.key_bytes().len() >= 256),
{
    match link {
        None => false,
        Some(l) => l.key().len() >= 256,
    }
}

impl Tree {
    /// What the record of the node holds. A node with a modified link has
    /// no record.
    pub open spec fn record(self) -> NodeRecord {
        NodeRecord {
            feature: self.feature(),
            left: side_record(self.child(true)),
            right: side_record(self.child(false)),
            kv_hash: self.kv_hash_bytes(),
            value_hash: self.value_hash_bytes(),
            value: self.value_bytes(),
            key: self.key_bytes(),
        }
    }

    /// Whether the node has a record: none of its links is modified or has a
    /// key of 256 bytes or more.
    pub open spec fn recordable(self) -> bool {
        &&& self.child(true) matches Some(l) ==> l.key_bytes().len() < 256
        &&& self.child(false) matches Some(l) ==> l.key_bytes().len() < 256
    }

    /// The bytes of the entry of the node.
    fn encode_entry(&self) -> (entry: Vec<u8>)
        ensures
            entry@ == encoded_entry(self.record()),
    {
        let mut entry: Vec<u8> = Vec::new();
        append_hash(&mut entry, self.kv_hash());
        append_hash(&mut entry, self.value_hash());
        let mut rest: Vec<u8> = Vec::new();
        append_varint(&mut rest, self.value().len() as u64);
        rest.extend_from_slice(self.value());
        rest.extend_from_slice(self.key());
        assert(rest@ =~= varint(self.value_bytes().len()) + (self.value_bytes()
            + self.key_bytes()));
        entry.append(&mut rest);
        entry
    }

    /// Appends the record of the node to `out`. A link with a key of 256
    /// bytes or more is refused, and nothing is written.
    pub fn encode_into(&self, out: &mut Vec<u8>) -> (result: Result<(), CodecError>)
        requires
            !(self.child(true) matches Some(l) && l is Modified),
            !(self.child(false) matches Some(l) && l is Modified),
        ensures
            self.recordable() ==> result.is_ok() && final(out)@ == old(out)@ + encoded_node(
                self.record(),
            ),
            !self.recordable() ==> result == Err::<(), CodecError>(CodecError::KeyTooLong)
                && final(out)@ == old(out)@,
    {
        let left = self.link(true);
        let right = self.link(false);
        if side_too_long(left) || side_too_long(right) {
            return Err(CodecError::KeyTooLong);
        }
        let mut record: Vec<u8> = Vec::new();
        match self.feature_type() {
            TreeFeatureType::BasicMerk => {
                record.push(0);
            },
            TreeFeatureType::SummedMerk(weight) => {
                record.push(1);
                append_u64_be(&mut record, weight as u64);
            },
        }
        assert(record@ =~= encoded_feature(self.feature()));
        append_side(&mut record, left);
        append_side(&mut record, right);
        let mut entry = self.encode_entry();
        record.append(&mut entry);
        assert(record@ =~= encoded_node(self.record()));
        out.append(&mut record);
        Ok(())
    }

    /// The number of bytes of the record of the node, where it has one and
    /// the number fits.
    pub fn encoding_length(&self) -> (length: Result<usize, CodecError>)
        requires
            !(self.child(true) matches Some(l) && l is Modified),
            !(self.child(false) matches Some(l) && l is Modified),
        ensures
            !self.recordable() ==> length == Err::<usize, CodecError>(CodecError::KeyTooLong),
            self.recordable() && encoded_node(self.record()).len() > usize::MAX ==> length
                == Err::<usize, CodecError>(CodecError::NumberTooLarge),
            self.recordable() && encoded_node(self.record()).len() <= usize::MAX ==> length
                == Ok::<usize, CodecError>(encoded_node(self.record()).len() as usize),
    {
        let left = self.link(true);
        let right = self.link(false);
        if side_too_long(left) || side_too_long(right) {
            return Err(CodecError::KeyTooLong);
        }
        proof {
            self.lemma_hash_lengths();
            lemma_encoded_node_length(self.record());
        }
        let left_shape = match left {
            Some(l) => Some((l.key().len(), l.sum().is_some())),
            None => None,
        };
        let right_shape = match right {
            Some(l) => Some((l.key().len(), l.sum().is_some())),
            None => None,
        };
        let summed = match self.feature_type() {
            TreeFeatureType::BasicMerk => false,
            TreeFeatureType::SummedMerk(_) => true,
        };
        match node_record_length(
            self.key().len(),
            self.value().len(),
            summed,
            left_shape,
            right_shape,
        ) {
            Some(length) => Ok(length),
            None => Err(CodecError::NumberTooLarge),
        }
    }
}

/// Reads the feature that starts at `start` and says where it ends.
fn read_feature(input: &[u8], start: usize) -> (result: Result<
    (TreeFeatureType, usize),
    CodecError,
>)
    requires
        start <= input@.len(),
    ensures
        match decoded_feature(input@.skip(start as int)) {
            Ok((feature, taken)) => result == Ok::<(TreeFeatureType, usize), CodecError>(
                (feature, (start + taken) as usize),
            ) && start + taken <= input@.len(),
            Err(error) => result == Err::<(TreeFeatureType, usize), CodecError>(error),
        },
{
    let ghost tail = input@.skip(start as int);
    let available: usize = input.len() - start;
    if available < 1 {
        return Err(CodecError::UnexpectedEnd);
    }
    let tag: u8 = input[start];
    assert(tail[0] == tag);
    if tag == 0 {
        Ok((TreeFeatureType::BasicMerk, start + 1))
    } else if tag == 1 {
        if available < 9 {
            return Err(CodecError::UnexpectedEnd);
        }
        let field = vstd::slice::slice_subrange(input, start + 1, start + 9);
        assert(field@.subrange(0, 8) =~= tail.subrange(1, 9));
        let weight = crate::codec::read_u64(field);
        Ok((TreeFeatureType::SummedMerk(#[verifier::truncate] (weight as i64)), start + 9))
    } else {
        Err(CodecError::UnknownTag)
    }
}

/// Whether the side of a node is as a record gives it: without a link, or
/// with a reference, which holds no node, of a height that a node can carry.
pub open spec fn unloaded(side: Option<Link>) -> bool {
    side matches Some(link) ==> link is Reference && link.height_fits()
}

/// Reads the link that may be absent and that starts at `start`, and says
/// where it ends.
fn read_side(input: &[u8], start: usize) -> (result: Result<(Option<Link>, usize), CodecError>)
    requires
        start <= input@.len(),
    ensures
        match decoded_side(input@.skip(start as int)) {
            Ok((side, taken)) => result.is_ok() && side_record(result.unwrap().0) == side
                && result.unwrap().1 == start + taken && start + taken <= input@.len()
                && unloaded(result.unwrap().0),
            Err(error) => result == Err::<(Option<Link>, usize), CodecError>(error),
        },
{
    let ghost tail = input@.skip(start as int);
    if start >= input.len() {
        return Err(CodecError::UnexpectedEnd);
    }
    let tag: u8 = input[start];
    assert(tail[0] == tag);
    if tag == 0 {
        Ok((None, start + 1))
    } else if tag == 1 {
        assert(tail.skip(1) =~= input@.skip(start + 1));
        match Link::decode_from(input, start + 1) {
            Err(error) => Err(error),
            Ok((link, end)) => {
                let heights = match &link {
                    Link::Reference { child_heights, .. } => *child_heights,
                    Link::Modified { child_heights, .. } => *child_heights,
                    Link::Uncommitted { child_heights, .. } => *child_heights,
                    Link::Loaded { child_heights, .. } => *child_heights,
                };
                if heights.0 == 255 || heights.1 == 255 {
                    Err(CodecError::HeightTooLarge)
                } else {
                    Ok((Some(link), end))
                }
            },
        }
    } else {
        Err(CodecError::UnknownTag)
    }
}

impl Tree {
    /// Reads a node from its record. Its links are references: the children
    /// are not read with it. The hashes are taken as the record gives them.
    pub fn decode(input: &[u8]) -> (result: Result<Tree, CodecError>)
        ensures
            match decoded_node(input@) {
                Ok(node) => result.is_ok() && result.unwrap().record() == node,
                Err(error) => result == Err::<Tree, CodecError>(error),
            },
            result matches Ok(tree) ==> unloaded(tree.child(true)) && unloaded(tree.child(false)),
    {
        assert(input@.skip(0) =~= input@);
        let (feature, after_feature) = match read_feature(input, 0) {
            Ok(read) => read,
            Err(error) => {
                return Err(error);
            },
        };
        let (left, after_left) = match read_side(input, after_feature) {
            Ok(read) => read,
            Err(error) => {
                return Err(error);
            },
        };
        let (right, after_right) = match read_side(input, after_left) {
            Ok(read) => read,
            Err(error) => {
                return Err(error);
            },
        };
        let ghost tail = input@.skip(after_right as int);
        if input.len() - after_right < 64 {
            return Err(CodecError::UnexpectedEnd);
        }
        let kv_hash = read_hash(input, after_right);
        let value_hash = read_hash(input, after_right + 32);
        assert(tail.skip(64) =~= input@.skip(after_right + 64));
        let (length, after_length) = match read_varint(input, after_right + 64) {
            Ok(read) => read,
            Err(error) => {
                return Err(error);
            },
        };
        if length > (input.len() - after_length) as u64 {
            return Err(CodecError::UnexpectedEnd);
        }
        let after_value: usize = after_length + length as usize;
        let value = copy_range(input, after_length, after_value);
        let key = copy_range(input, after_value, input.len());
        proof {
            let taken = after_length - after_right - 64;
            assert(kv_hash@ =~= tail.subrange(0, 32));
            assert(value_hash@ =~= tail.subrange(32, 64));
            assert(value@ =~= tail.subrange(64 + taken, 64 + taken + length));
            assert(key@ =~= tail.skip(64 + taken + length));
        }
        Ok(Tree::from_parts(key, value, feature, value_hash, kv_hash, left, right))
    }
}

} // verus!
