//! SHA-3 digests, computed by the `sha3` crate.
use vstd::prelude::*;
use sha3::Digest;

verus! {

/// The SHA3-512 digest of a byte string.
pub uninterp spec fn sha3_512_of(data: Seq<u8>) -> [u8; 64];

/// The SHA3-256 digest of a byte string.
pub uninterp spec fn sha3_256_of(data: Seq<u8>) -> [u8; 32];

/// Size in bytes of a SHA3-512 digest.
pub const SHA_512_DIGEST_SIZE: usize = 64;

/// Size in bytes of a SHA3-256 digest.
pub const SHA_256_DIGEST_SIZE: usize = 32;

/// Relies on sha3's `Sha3_512::digest` (digest 0.9's `Digest::digest`): it returns
/// the 64-byte SHA3-512 digest of `data`, which depends on `data` alone.
#[verifier::external_body]
pub fn sha3_512(data: &[u8]) -> (r: Vec<u8>)
    ensures
        r@ == sha3_512_of(data@)@,
        r@.len() == SHA_512_DIGEST_SIZE,
{
    sha3::Sha3_512::digest(data).to_vec()
}

/// Relies on sha3's `Sha3_256::digest` (digest 0.9's `Digest::digest`): it returns
/// the 32-byte SHA3-256 digest of `data`, which depends on `data` alone.
#[verifier::external_body]
pub fn sha3_256(data: &[u8]) -> (r: Vec<u8>)
    ensures
        r@ == sha3_256_of(data@)@,
        r@.len() == SHA_256_DIGEST_SIZE,
{
    sha3::Sha3_256::digest(data).to_vec()
}

} // verus!
