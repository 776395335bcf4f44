//! The hash of the engine, BLAKE3 with 32 bytes of output, and the hashes of
//! tree nodes built from it.

use vstd::prelude::*;

verus! {

/// The number of bytes of a hash.
pub const HASH_LENGTH: usize = 32;

/// A hash.
pub type CryptoHash = [u8; 32];

/// The hash that stands for a child that is not there.
pub const NULL_HASH: [u8; 32] = [
    0, 0, 0, 0, 0, 0, 0, 0, 0, 0, 0, 0, 0, 0, 0, 0, 0, 0, 0, 0, 0, 0, 0, 0, 0, 0, 0, 0, 0, 0, 0, 0,
];

/// The BLAKE3 digest of a byte string, in the default mode with 32 bytes of
/// output.
pub uninterp spec fn blake3_digest(input: Seq<u8>) -> Seq<u8>;

/// Calls `blake3::hash` and copies out the 32 bytes of the result. The
/// digest is a function of the input alone; nothing else is claimed of it.
#[verifier::external_body]
pub(crate) fn blake3_hash(input: &[u8]) -> (digest: CryptoHash)
    ensures
        digest@ == blake3_digest(input@),
{
    *blake3::hash(input).as_bytes()
}

/// The hash of a value: the digest of its bytes.
pub open spec fn value_digest(value: Seq<u8>) -> Seq<u8> {
    blake3_digest(value)
}

/// The hash of a key and a value: the digest of the key's digest followed by
/// the value's hash.
pub open spec fn kv_digest(key: Seq<u8>, value_hash: Seq<u8>) -> Seq<u8> {
    blake3_digest(blake3_digest(key) + value_hash)
}

/// The hash of a node: the digest of its key-value hash followed by the hashes
/// of its left and right children.
pub open spec fn node_digest(kv: Seq<u8>, left: Seq<u8>, right: Seq<u8>) -> Seq<u8> {
    blake3_digest(kv + left + right)
}

/// Whether BLAKE3 fails as a hash on some input: it gives two inputs one
/// digest, or gives an input the hash that stands for a child that is not
/// there. Nobody knows such an input.
pub open spec fn hash_fails() -> bool {
    ||| exists|a: Seq<u8>, b: Seq<u8>|
        a != b && #[trigger] blake3_digest(a) == #[trigger] blake3_digest(b)
    ||| exists|a: Seq<u8>| #[trigger] blake3_digest(a) == NULL_HASH@
}

/// Two inputs with one digest are the same input, unless the hash fails.
pub proof fn lemma_one_digest(a: Seq<u8>, b: Seq<u8>)
    requires
        blake3_digest(a) == blake3_digest(b),
    ensures
        a == b || hash_fails(),
{
}

/// No digest is the null hash, unless the hash fails.
pub proof fn lemma_digest_not_null(a: Seq<u8>)
    ensures
        blake3_digest(a) != NULL_HASH@ || hash_fails(),
{
}

/// Appends the bytes of a hash to `out`.
pub fn append_hash(out: &mut Vec<u8>, hash: &CryptoHash)
    ensures
        final(out)@ == old(out)@ + hash@,
{
    let mut i: usize = 0;
    while i < 32
        invariant
            i <= 32,
            out@ == old(out)@ + hash@.take(i as int),
        decreases 32 - i,
    {
        out.push(hash[i]);
        i += 1;
        assert(out@ =~= old(out)@ + hash@.take(i as int));
    }
    assert(hash@.take(32) =~= hash@);
}

/// Hashes a value.
pub fn value_hash(value: &[u8]) -> (hash: CryptoHash)
    ensures
        hash@ == value_digest(value@),
{
    blake3_hash(value)
}

/// Hashes a key and the hash of its value.
pub fn kv_hash(key: &[u8], value_hash: &CryptoHash) -> (hash: CryptoHash)
    ensures
        hash@ == kv_digest(key@, value_hash@),
{
    let key_hash = blake3_hash(key);
    let mut input: Vec<u8> = Vec::new();
    append_hash(&mut input, &key_hash);
    append_hash(&mut input, value_hash);
    assert(input@ =~= blake3_digest(key@) + value_hash@);
    blake3_hash(input.as_slice())
}

/// Hashes a node from its key-value hash and the hashes of its children.
pub fn node_hash(kv: &CryptoHash, left: &CryptoHash, right: &CryptoHash) -> (hash: CryptoHash)
    ensures
        hash@ == node_digest(kv@, left@, right@),
{
    let mut input: Vec<u8> = Vec::new();
    append_hash(&mut input, kv);
    append_hash(&mut input, left);
    append_hash(&mut input, right);
    assert(input@ =~= kv@ + left@ + right@);
    blake3_hash(input.as_slice())
}

} // verus!
