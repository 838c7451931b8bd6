//! Blinded seals: commitments to a transaction output that hide it until its
//! owner discloses the blinding factor.

use vstd::prelude::*;
use crate::digest::{digest_id, sha256_id};
use crate::ids::{be_bytes, outpoint_bytes, push_be, Hash256, OutPoint};

verus! {

/// A commitment to a transaction output and a blinding factor.
#[derive(Clone, Copy, Debug, PartialEq, Eq, Hash, Structural)]
pub struct Seal {
    pub commitment: Hash256,
}

/// What blinding an output gives: the seal to hand out, and the factor to keep.
#[derive(Clone, Copy, Debug, PartialEq, Eq, Structural)]
pub struct BlindResponse {
    pub conceal: Seal,
    pub blinding: u64,
}

/// The bytes that a seal commits to: the output, then the blinding factor.
pub open spec fn seal_preimage(outpoint: OutPoint, blinding: u64) -> Seq<u8> {
    outpoint_bytes(outpoint) + be_bytes(blinding as nat, 8)
}

/// The seal of an output under a blinding factor: the SHA-256 digest of the preimage.
pub open spec fn seal_of(outpoint: OutPoint, blinding: u64) -> Seal {
    Seal { commitment: sha256_id(seal_preimage(outpoint, blinding)) }
}

/// Blinds `outpoint` with the factor `blinding`, which the caller draws afresh for each seal.
///
/// Returns the seal together with the factor, and the output it stands for.
pub fn blind(outpoint: OutPoint, blinding: u64) -> (r: (BlindResponse, OutPoint))
    ensures
        r.0.conceal == seal_of(outpoint, blinding),
        r.0.blinding == blinding,
        r.1 == outpoint,
{
    let mut preimage: Vec<u8> = Vec::new();
    outpoint.write_to(&mut preimage);
    push_be(&mut preimage, blinding, 8);
    assert(preimage@ =~= seal_preimage(outpoint, blinding));
    let commitment = digest_id(&preimage);
    (BlindResponse { conceal: Seal { commitment }, blinding }, outpoint)
}

/// Whether `seal` is the seal of `outpoint` under `blinding`.
pub fn opens(seal: Seal, outpoint: OutPoint, blinding: u64) -> (r: bool)
    ensures
        r == (seal == seal_of(outpoint, blinding)),
{
    let (made, _) = blind(outpoint, blinding);
    made.conceal == seal
}

} // verus!
