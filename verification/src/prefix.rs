//! The prefix under which a subtree's records are stored: the hash of its path,
//! framed so that different paths give different hash inputs.

use vstd::prelude::*;
use vstd::bytes::{
    lemma_auto_spec_u64_to_from_le_bytes, spec_u64_from_le_bytes, spec_u64_to_le_bytes,
    u64_to_le_bytes,
};
use crate::hash::{blake3_digest, blake3_hash};

verus! {

/// The segments of a path, one after the other.
pub open spec fn concat(path: Seq<Seq<u8>>) -> Seq<u8>
    decreases path.len(),
{
    if path.len() == 0 {
        Seq::empty()
    } else {
        concat(path.drop_last()) + path.last()
    }
}

/// A count or a length as eight bytes, least significant first.
pub open spec fn length_bytes(length: nat) -> Seq<u8> {
    spec_u64_to_le_bytes(length as u64)
}

/// The lengths of the segments of a path, each as eight bytes, in the order
/// of the segments.
pub open spec fn segment_lengths(path: Seq<Seq<u8>>) -> Seq<u8>
    decreases path.len(),
{
    if path.len() == 0 {
        Seq::empty()
    } else {
        segment_lengths(path.drop_last()) + length_bytes(path.last().len())
    }
}

/// What is hashed for a path: its segments, then their number, then their
/// lengths.
pub open spec fn prefix_input(path: Seq<Seq<u8>>) -> Seq<u8> {
    concat(path) + length_bytes(path.len()) + segment_lengths(path)
}

/// The prefix of the subtree at `path`: the digest of the framed path.
pub open spec fn subtree_prefix(path: Seq<Seq<u8>>) -> Seq<u8> {
    blake3_digest(prefix_input(path))
}

/// Whether the number of segments and the length of each can be written in
/// eight bytes. Every path that a program can hold is such a path.
pub open spec fn framable(path: Seq<Seq<u8>>) -> bool {
    &&& path.len() <= u64::MAX
    &&& forall|i: int| 0 <= i < path.len() ==> (#[trigger] path[i]).len() <= u64::MAX
}

/// A path of byte slices as a sequence of byte strings.
pub open spec fn path_view(path: Seq<&[u8]>) -> Seq<Seq<u8>> {
    Seq::new(path.len(), |i: int| path[i]@)
}

/// Builds the input of the prefix hash for `path`.
pub fn frame_path(path: &[&[u8]]) -> (input: Vec<u8>)
    ensures
        input@ == prefix_input(path_view(path@)),
        framable(path_view(path@)),
{
    let ghost segments = path_view(path@);
    let mut input: Vec<u8> = Vec::new();
    let mut lengths: Vec<u8> = Vec::new();
    let mut i: usize = 0;
    assert(segments.take(0) =~= Seq::<Seq<u8>>::empty());
    while i < path.len()
        invariant
            i <= path.len(),
            segments == path_view(path@),
            input@ == concat(segments.take(i as int)),
            lengths@ == segment_lengths(segments.take(i as int)),
        decreases path.len() - i,
    {
        let segment: &[u8] = path[i];
        let ghost before = input@;
        input.extend_from_slice(segment);
        assert(input@ =~= before + segment@);
        let mut encoded = u64_to_le_bytes(segment.len() as u64);
        lengths.append(&mut encoded);
        proof {
            assert(segments.take(i + 1).drop_last() =~= segments.take(i as int));
            assert(segments.take(i + 1).last() == segment@);
        }
        i += 1;
    }
    assert(segments.take(path.len() as int) =~= segments);
    assert forall|k: int| 0 <= k < segments.len() implies (#[trigger] segments[k]).len()
        <= u64::MAX by {
        let segment: &[u8] = path@[k];
        assert(segment@.len() == segment.len());
    }
    let mut count = u64_to_le_bytes(path.len() as u64);
    input.append(&mut count);
    input.append(&mut lengths);
    input
}

/// A copy of a hash as a byte string.
pub fn hash_to_vec(hash: &[u8; 32]) -> (bytes: Vec<u8>)
    ensures
        bytes@ == hash@,
{
    let mut bytes: Vec<u8> = Vec::new();
    crate::hash::append_hash(&mut bytes, hash);
    assert(bytes@ =~= hash@);
    bytes
}

/// The prefix of the subtree at `path`.
pub fn prefix_digest(path: &[&[u8]]) -> (prefix: Vec<u8>)
    ensures
        prefix@ == subtree_prefix(path_view(path@)),
        prefix@.len() == 32,
{
    let input = frame_path(path);
    let digest = blake3_hash(input.as_slice());
    hash_to_vec(&digest)
}

/// The framed segments of a path are as long as its segments together.
pub proof fn lemma_segment_lengths_len(path: Seq<Seq<u8>>)
    ensures
        segment_lengths(path).len() == 8 * path.len(),
    decreases path.len(),
{
    lemma_auto_spec_u64_to_from_le_bytes();
    if path.len() > 0 {
        lemma_segment_lengths_len(path.drop_last());
    }
}

/// The eight bytes at place `i` of the framed lengths hold the length of
/// segment `i`.
proof fn lemma_segment_lengths_chunk(path: Seq<Seq<u8>>, i: int)
    requires
        0 <= i < path.len(),
    ensures
        segment_lengths(path).subrange(8 * i, 8 * i + 8) == length_bytes(path[i].len()),
        segment_lengths(path).len() == 8 * path.len(),
    decreases path.len(),
{
    lemma_auto_spec_u64_to_from_le_bytes();
    lemma_segment_lengths_len(path);
    lemma_segment_lengths_len(path.drop_last());
    if i == path.len() - 1 {
        assert(segment_lengths(path).subrange(8 * i, 8 * i + 8) =~= length_bytes(
            path.last().len(),
        ));
    } else {
        lemma_segment_lengths_chunk(path.drop_last(), i);
        assert(segment_lengths(path).subrange(8 * i, 8 * i + 8) =~= segment_lengths(
            path.drop_last(),
        ).subrange(8 * i, 8 * i + 8));
    }
}

/// Two lengths that are written with the same eight bytes are equal.
proof fn lemma_length_bytes_injective(a: nat, b: nat)
    requires
        a <= u64::MAX,
        b <= u64::MAX,
        length_bytes(a) == length_bytes(b),
    ensures
        a == b,
{
    lemma_auto_spec_u64_to_from_le_bytes();
    assert(spec_u64_from_le_bytes(spec_u64_to_le_bytes(a as u64)) == a as u64);
    assert(spec_u64_from_le_bytes(spec_u64_to_le_bytes(b as u64)) == b as u64);
}

/// The segments of two paths laid end to end are the segments of the first
/// followed by those of the second.
proof fn lemma_concat_append(first: Seq<Seq<u8>>, second: Seq<Seq<u8>>)
    ensures
        concat(first + second) == concat(first) + concat(second),
    decreases second.len(),
{
    if second.len() == 0 {
        assert(first + second =~= first);
        assert(concat(first) + concat(second) =~= concat(first));
    } else {
        lemma_concat_append(first, second.drop_last());
        assert((first + second).drop_last() =~= first + second.drop_last());
        assert((first + second).last() == second.last());
        assert(concat(first + second) =~= concat(first) + concat(second));
    }
}

/// Paths whose segments have the same lengths, one by one, are equally long
/// laid end to end.
proof fn lemma_concat_len_by_lengths(first: Seq<Seq<u8>>, second: Seq<Seq<u8>>)
    requires
        first.len() == second.len(),
        forall|i: int| 0 <= i < first.len() ==> (#[trigger] first[i]).len() == second[i].len(),
    ensures
        concat(first).len() == concat(second).len(),
    decreases first.len(),
{
    if first.len() > 0 {
        assert(first.last().len() == second[first.len() - 1].len());
        lemma_concat_len_by_lengths(first.drop_last(), second.drop_last());
    }
}

/// Paths with the same number of segments, the same lengths one by one and
/// the same bytes laid end to end are the same path.
proof fn lemma_concat_injective(first: Seq<Seq<u8>>, second: Seq<Seq<u8>>)
    requires
        first.len() == second.len(),
        forall|i: int| 0 <= i < first.len() ==> (#[trigger] first[i]).len() == second[i].len(),
        concat(first) == concat(second),
    ensures
        first == second,
    decreases first.len(),
{
    if first.len() == 0 {
        assert(first =~= second);
    } else {
        let a = first.last();
        let b = second.last();
        assert(a.len() == second[first.len() - 1].len());
        lemma_concat_len_by_lengths(first.drop_last(), second.drop_last());
        let cut = concat(first.drop_last()).len() as int;
        let whole = concat(first);
        assert(whole.subrange(0, cut) =~= concat(first.drop_last()));
        assert(whole.subrange(0, cut) =~= concat(second.drop_last()));
        assert(whole.subrange(cut, whole.len() as int) =~= a);
        assert(whole.subrange(cut, whole.len() as int) =~= b);
        lemma_concat_injective(first.drop_last(), second.drop_last());
        assert(first =~= first.drop_last().push(a));
        assert(second =~= second.drop_last().push(b));
    }
}

/// Of two paths with the same hash input, the first has at least as many
/// segments as the second.
proof fn lemma_prefix_input_count(shorter: Seq<Seq<u8>>, longer: Seq<Seq<u8>>)
    requires
        framable(shorter),
        framable(longer),
        prefix_input(shorter) == prefix_input(longer),
    ensures
        shorter.len() >= longer.len(),
{
    let input = prefix_input(shorter);
    let n1 = shorter.len() as int;
    let n2 = longer.len() as int;
    let s1 = concat(shorter).len() as int;
    let s2 = concat(longer).len() as int;
    lemma_auto_spec_u64_to_from_le_bytes();
    lemma_segment_lengths_len(shorter);
    lemma_segment_lengths_len(longer);
    assert(input.len() == s1 + 8 + 8 * n1);
    assert(input.len() == s2 + 8 + 8 * n2);
    if n1 < n2 {
        let j = n2 - n1 - 1;
        // The count of the shorter path lies where the longer path has the
        // length of its segment `j`.
        lemma_segment_lengths_chunk(longer, j);
        assert(input.subrange(s1, s1 + 8) =~= length_bytes(n1 as nat));
        assert(input.subrange(s1, s1 + 8) =~= segment_lengths(longer).subrange(8 * j, 8 * j + 8));
        lemma_length_bytes_injective(n1 as nat, longer[j].len());
        // The lengths of the shorter path lie where the longer path has the
        // lengths of its last segments.
        let tail = longer.skip(j + 1);
        assert forall|i: int| 0 <= i < n1 implies (#[trigger] shorter[i]).len()
            == tail[i].len() by {
            lemma_segment_lengths_chunk(shorter, i);
            lemma_segment_lengths_chunk(longer, j + 1 + i);
            assert(input.subrange(s1 + 8 + 8 * i, s1 + 8 + 8 * i + 8) =~= segment_lengths(
                shorter,
            ).subrange(8 * i, 8 * i + 8));
            assert(input.subrange(s1 + 8 + 8 * i, s1 + 8 + 8 * i + 8) =~= segment_lengths(
                longer,
            ).subrange(8 * (j + 1 + i), 8 * (j + 1 + i) + 8));
            lemma_length_bytes_injective(shorter[i].len(), longer[j + 1 + i].len());
        }
        lemma_concat_len_by_lengths(shorter, tail);
        // So the longer path holds at least the bytes of the shorter one and
        // `n1` more, though its hash input leaves it fewer.
        let front = longer.take(j + 1);
        assert(longer =~= front + tail);
        lemma_concat_append(front, tail);
        assert(front.drop_last() =~= longer.take(j));
        assert(front.last() == longer[j]);
        assert(concat(front).len() >= longer[j].len());
        assert(s2 >= n1 + s1);
        assert(false);
    }
}

/// The hash input of a path determines the path: two paths that a program
/// can hold and that give the same input are the same path.
pub proof fn lemma_prefix_input_injective(first: Seq<Seq<u8>>, second: Seq<Seq<u8>>)
    requires
        framable(first),
        framable(second),
        prefix_input(first) == prefix_input(second),
    ensures
        first == second,
{
    lemma_prefix_input_count(first, second);
    lemma_prefix_input_count(second, first);
    let input = prefix_input(first);
    let n = first.len() as int;
    let s1 = concat(first).len() as int;
    let s2 = concat(second).len() as int;
    lemma_auto_spec_u64_to_from_le_bytes();
    lemma_segment_lengths_len(first);
    lemma_segment_lengths_len(second);
    assert(input.len() == s1 + 8 + 8 * n);
    assert(input.len() == s2 + 8 + 8 * n);
    assert forall|i: int| 0 <= i < n implies (#[trigger] first[i]).len() == second[i].len() by {
        lemma_segment_lengths_chunk(first, i);
        lemma_segment_lengths_chunk(second, i);
        assert(input.subrange(s1 + 8 + 8 * i, s1 + 8 + 8 * i + 8) =~= segment_lengths(
            first,
        ).subrange(8 * i, 8 * i + 8));
        assert(input.subrange(s1 + 8 + 8 * i, s1 + 8 + 8 * i + 8) =~= segment_lengths(
            second,
        ).subrange(8 * i, 8 * i + 8));
        lemma_length_bytes_injective(first[i].len(), second[i].len());
    }
    assert(input.subrange(0, s1) =~= concat(first));
    assert(input.subrange(0, s1) =~= concat(second));
    lemma_concat_injective(first, second);
}

/// Two paths that a program can hold and that have the same prefix are the
/// same path, unless the hash fails.
pub proof fn lemma_prefix_injective(first: Seq<Seq<u8>>, second: Seq<Seq<u8>>)
    requires
        framable(first),
        framable(second),
        subtree_prefix(first) == subtree_prefix(second),
    ensures
        first == second || crate::hash::hash_fails(),
{
    crate::hash::lemma_one_digest(prefix_input(first), prefix_input(second));
    if prefix_input(first) == prefix_input(second) {
        lemma_prefix_input_injective(first, second);
    }
}

} // verus!
