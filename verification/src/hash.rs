//! Content hashes.

use vstd::prelude::*;

verus! {

/// The 64-bit XXH3 hash of some bytes.
pub uninterp spec fn xxh3_64(bytes: Seq<u8>) -> u64;

/// The 128-bit XXH3 hash of some bytes.
pub uninterp spec fn xxh3_128(bytes: Seq<u8>) -> u128;

/// `xxhash_rust::xxh3::xxh3_64`: the hash depends on the bytes alone.
#[verifier::external_body]
pub(crate) fn hash_64(bytes: &[u8]) -> (r: u64)
    ensures
        r == xxh3_64(bytes@),
{
    xxhash_rust::xxh3::xxh3_64(bytes)
}

/// `xxhash_rust::xxh3::xxh3_128`: the hash depends on the bytes alone.
#[verifier::external_body]
pub(crate) fn hash_128(bytes: &[u8]) -> (r: u128)
    ensures
        r == xxh3_128(bytes@),
{
    xxhash_rust::xxh3::xxh3_128(bytes)
}

/// The hash that tells whether the content of a file has changed.
pub fn content_hash(content: &str) -> (r: u64)
    ensures
        r == xxh3_64(vstd::utf8::encode_utf8(content@)),
{
    hash_64(content.as_bytes())
}

} // verus!
