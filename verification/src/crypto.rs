//! Digests and checksums of the outside crates.
use vstd::prelude::*;
use hmac::Mac;
use sha2::Digest;

verus! {

/// HMAC-SHA1 of `data` under `key`, as the `hmac` and `sha1` crates compute it.
pub uninterp spec fn hmac_sha1_of(key: Seq<u8>, data: Seq<u8>) -> [u8; 20];

/// The CRC-32 of `data`, as `crc32fast::hash` computes it.
pub uninterp spec fn crc32_of(data: Seq<u8>) -> u32;

/// Calls `hmac::Hmac::<sha1::Sha1>`: a MAC made from `key`, fed `data` once
/// and finalized. The claim is that the digest depends on those two alone.
/// `new_from_slice` accepts a key of any length.
#[verifier::external_body]
pub(crate) fn hmac_sha1(key: &[u8], data: &[u8]) -> (digest: [u8; 20])
    ensures
        digest == hmac_sha1_of(key@, data@),
{
    let mut mac = <hmac::Hmac<sha1::Sha1> as hmac::Mac>::new_from_slice(key).expect("hmac key");
    mac.update(data);
    mac.finalize().into_bytes().into()
}

/// Calls `crc32fast::hash`. The claim is that the checksum depends on `data`
/// alone.
#[verifier::external_body]
pub(crate) fn crc32(data: &[u8]) -> (crc: u32)
    ensures
        crc == crc32_of(data@),
{
    crc32fast::hash(data)
}

/// The SHA-256 digest of `data`, as the `sha2` crate computes it.
pub uninterp spec fn sha256_of(data: Seq<u8>) -> [u8; 32];

/// Calls `sha2::Sha256::digest`. The claim is that the digest depends on
/// `data` alone.
#[verifier::external_body]
pub(crate) fn sha256(data: &[u8]) -> (digest: [u8; 32])
    ensures
        digest == sha256_of(data@),
{
    sha2::Sha256::digest(data).into()
}

} // verus!
