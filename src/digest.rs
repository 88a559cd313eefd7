use vstd::prelude::*;

verus! {

/// A SHA-256 digest: 32 raw bytes.
pub type Digest = [u8; 32];

/// The SHA-256 digest of a byte string.
pub uninterp spec fn sha256_of(data: Seq<u8>) -> Seq<u8>;

/// The digest of an internal node: the hash of its children's digests,
/// left then right, concatenated as raw bytes.
pub open spec fn digest_pair(left: Seq<u8>, right: Seq<u8>) -> Seq<u8> {
    sha256_of(left + right)
}

/// Relies on sha2's `Sha256::digest`: the 32-byte SHA-256 digest of `data`,
/// which depends on the bytes alone.
#[verifier::external_body]
pub(crate) fn sha256_hash(data: &[u8]) -> (r: Digest)
    ensures
        r@ == sha256_of(data@),
{
    <sha2::Sha256 as sha2::Digest>::digest(data).into()
}

/// Hashes the concatenation of two digests.
pub(crate) fn hash_pair(left: &Digest, right: &Digest) -> (r: Digest)
    ensures
        r@ == digest_pair(left@, right@),
{
    let mut buf: Vec<u8> = Vec::with_capacity(64);
    let mut i: usize = 0;
    while i < 32
        invariant
            i <= 32,
            buf@ == left@.subrange(0, i as int),
        decreases 32 - i,
    {
        buf.push(left[i]);
        i += 1;
    }
    let mut j: usize = 0;
    while j < 32
        invariant
            j <= 32,
            buf@ == left@ + right@.subrange(0, j as int),
        decreases 32 - j,
    {
        buf.push(right[j]);
        j += 1;
    }
    assert(right@.subrange(0, 32) == right@);
    sha256_hash(buf.as_slice())
}

} // verus!
