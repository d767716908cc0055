use sha2::Digest;
use vstd::prelude::*;

verus! {

/// The SHA-512 digest of a byte string.
pub uninterp spec fn sha512(data: Seq<u8>) -> Seq<u8>;

/// The SHA3-256 digest of a byte string.
pub uninterp spec fn sha3_256(data: Seq<u8>) -> Seq<u8>;

/// SHA-512, as computed by `sha2::Sha512` (`new`, `update`, `finalize`): the
/// 64 digest bytes are a function of the input bytes alone, named [`sha512`].
#[verifier::external_body]
pub fn hash_sha512(data: &[u8]) -> (out: [u8; 64])
    ensures
        out@ == sha512(data@),
{
    let mut hasher = sha2::Sha512::new();
    hasher.update(data);
    hasher.finalize().into()
}

/// SHA3-256, as computed by `sha3::Sha3_256` (`new`, `update`, `finalize`):
/// the 32 digest bytes are a function of the input bytes alone, named
/// [`sha3_256`].
#[verifier::external_body]
pub fn hash_sha3_256(data: &[u8]) -> (out: [u8; 32])
    ensures
        out@ == sha3_256(data@),
{
    let mut hasher = sha3::Sha3_256::new();
    hasher.update(data);
    hasher.finalize().into()
}

/// SHA3-256 of `a` followed by `b`.
pub fn hash_sha3_256_concat(a: &[u8], b: &[u8]) -> (out: [u8; 32])
    ensures
        out@ == sha3_256(a@ + b@),
{
    let mut joined: Vec<u8> = Vec::new();
    crate::bytes::put_bytes(&mut joined, a);
    crate::bytes::put_bytes(&mut joined, b);
    assert(joined@ =~= a@ + b@);
    hash_sha3_256(joined.as_slice())
}

} // verus!
