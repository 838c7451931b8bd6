//! SHA-256, as computed by the `bitcoin` crate's hashing module.

use vstd::prelude::*;
use crate::ids::{hash_of_bytes, Hash256};

verus! {

/// The SHA-256 digest of `data`: 32 bytes.
pub uninterp spec fn sha256_digest(data: Seq<u8>) -> Seq<u8>;

/// The identifier that the SHA-256 digest of `data` holds.
pub open spec fn sha256_id(data: Seq<u8>) -> Hash256 {
    hash_of_bytes(sha256_digest(data))
}

/// Calls `bitcoin::hashes::sha256::Hash::hash` and unwraps the digest.
///
/// Trusted: the 32 bytes returned are the SHA-256 digest of `data`, a
/// function of `data` alone.
#[verifier::external_body]
fn sha256(data: &Vec<u8>) -> (digest: [u8; 32])
    ensures
        digest@ == sha256_digest(data@),
{
    let hash = <bitcoin::hashes::sha256::Hash as bitcoin::hashes::Hash>::hash(data.as_slice());
    bitcoin::hashes::Hash::into_inner(hash)
}

/// Hashes `data` with SHA-256 and reads the digest as an identifier.
pub fn digest_id(data: &Vec<u8>) -> (id: Hash256)
    ensures
        id == sha256_id(data@),
{
    let d = sha256(data);
    Hash256::from_bytes(&d)
}

} // verus!
