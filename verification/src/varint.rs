//! Lengths written with as few bytes as they need: seven bits to a byte,
//! least significant first, the high bit of a byte saying that another follows.

use vstd::prelude::*;
use crate::codec::CodecError;

verus! {

/// The bytes of a number.
pub open spec fn varint(value: nat) -> Seq<u8>
    decreases value,
{
    if value < 128 {
        seq![value as u8]
    } else {
        seq![(value % 128 + 128) as u8] + varint(value / 128)
    }
}

/// The number of bytes that a number takes: one for every seven bits.
pub open spec fn varint_length(value: nat) -> nat
    decreases value,
{
    if value < 128 {
        1
    } else {
        1 + varint_length(value / 128)
    }
}

/// The number at the front of `bytes` and the number of bytes it takes; `None`
/// where the bytes end before the number does.
pub open spec fn varint_decoded(bytes: Seq<u8>) -> Option<(nat, nat)>
    decreases bytes.len(),
{
    if bytes.len() == 0 {
        None
    } else if bytes[0] < 128 {
        Some((bytes[0] as nat, 1))
    } else {
        match varint_decoded(bytes.drop_first()) {
            Some((rest, taken)) => Some(((bytes[0] - 128 + 128 * rest) as nat, taken + 1)),
            None => None,
        }
    }
}

/// The bytes of a number are as many as its length says, and ten at most for
/// a number of 64 bits.
pub proof fn lemma_varint_length(value: nat)
    ensures
        varint(value).len() == varint_length(value),
        varint_length(value) >= 1,
        value < 128 <==> varint_length(value) == 1,
    decreases value,
{
    if value >= 128 {
        lemma_varint_length(value / 128);
    }
}

/// A number of 64 bits takes ten bytes at most.
pub proof fn lemma_varint_length_bound(value: nat)
    requires
        value <= u64::MAX,
    ensures
        varint_length(value) <= 10,
{
    reveal_with_fuel(varint_length, 11);
    assert(value / 128 / 128 / 128 / 128 / 128 / 128 / 128 / 128 / 128 < 128) by (nonlinear_arith)
        requires
            value <= 0xffff_ffff_ffff_ffff,
    ;
}

/// Reading the bytes of a number gives the number back, whatever follows
/// them.
pub proof fn lemma_varint_roundtrip(value: nat, rest: Seq<u8>)
    ensures
        varint_decoded(varint(value) + rest) == Some((value, varint_length(value))),
    decreases value,
{
    let bytes = varint(value) + rest;
    if value < 128 {
        assert(bytes[0] == value as u8);
    } else {
        lemma_varint_roundtrip(value / 128, rest);
        assert(bytes[0] == (value % 128 + 128) as u8);
        assert(bytes.drop_first() =~= varint(value / 128) + rest);
    }
}

/// The number of bytes that `value` takes.
pub fn required_space(value: u64) -> (length: usize)
    ensures
        length == varint_length(value as nat),
        1 <= length <= 10,
{
    proof {
        lemma_varint_length_bound(value as nat);
        lemma_varint_length(value as nat);
    }
    let mut length: usize = 1;
    let mut rest: u64 = value;
    while rest >= 128
        invariant
            1 <= length,
            length + varint_length(rest as nat) == varint_length(value as nat) + 1,
            varint_length(value as nat) <= 10,
        decreases rest,
    {
        proof {
            lemma_varint_length((rest / 128) as nat);
        }
        rest = rest / 128;
        length += 1;
    }
    length
}

/// Appends the bytes of `value` to `out`.
pub fn append_varint(out: &mut Vec<u8>, value: u64)
    ensures
        final(out)@ == old(out)@ + varint(value as nat),
{
    let mut rest: u64 = value;
    let ghost mut written: Seq<u8> = Seq::empty();
    assert(old(out)@ + written =~= old(out)@);
    while rest >= 128
        invariant
            out@ == old(out)@ + written,
            written + varint(rest as nat) == varint(value as nat),
        decreases rest,
    {
        let byte: u8 = (rest % 128 + 128) as u8;
        out.push(byte);
        proof {
            let before = written;
            written = written.push(byte);
            assert(varint(rest as nat) =~= seq![byte] + varint((rest / 128) as nat));
            assert(written + varint((rest / 128) as nat) =~= before + varint(rest as nat));
            assert(out@ =~= old(out)@ + written);
        }
        rest = rest / 128;
    }
    out.push(rest as u8);
    proof {
        assert(out@ =~= old(out)@ + (written + varint(rest as nat)));
    }
}

/// Reads the number that starts at `start` and says where it ends. A number
/// that does not fit in 64 bits is refused.
pub fn read_varint(input: &[u8], start: usize) -> (result: Result<(u64, usize), CodecError>)
    requires
        start <= input@.len(),
    ensures
        match varint_decoded(input@.skip(start as int)) {
            None => result == Err::<(u64, usize), CodecError>(CodecError::UnexpectedEnd),
            Some((value, taken)) => if value <= u64::MAX {
                result == Ok::<(u64, usize), CodecError>((value as u64, (start + taken) as usize))
                    && start + taken <= input@.len()
            } else {
                result == Err::<(u64, usize), CodecError>(CodecError::NumberTooLarge)
            },
        },
    decreases input@.len() - start,
{
    let ghost tail = input@.skip(start as int);
    if start >= input.len() {
        return Err(CodecError::UnexpectedEnd);
    }
    let byte: u8 = input[start];
    assert(tail[0] == byte);
    if byte < 128 {
        return Ok((byte as u64, start + 1));
    }
    proof {
        assert(tail.drop_first() =~= input@.skip(start + 1));
    }
    match read_varint(input, start + 1) {
        Ok((rest, end)) => {
            let low: u64 = (byte - 128) as u64;
            if rest > (u64::MAX - low) / 128 {
                Err(CodecError::NumberTooLarge)
            } else {
                Ok((low + 128 * rest, end))
            }
        },
        Err(error) => Err(error),
    }
}

} // verus!
