//! Identifiers: 256-bit hashes, transaction outputs, and their byte encodings.

use vstd::prelude::*;

verus! {

/// A 256-bit identifier, held as four 64-bit words, the most significant first.
///
/// Transaction ids, contract ids, consignment ids and identities are of this type.
#[derive(Clone, Copy, Debug, PartialEq, Eq, Hash, Structural)]
pub struct Hash256 {
    pub w0: u64,
    pub w1: u64,
    pub w2: u64,
    pub w3: u64,
}

/// An output of a transaction: the transaction's id and the output's index.
#[derive(Clone, Copy, Debug, PartialEq, Eq, Hash, Structural)]
pub struct OutPoint {
    pub txid: Hash256,
    pub vout: u32,
}

/// The `width` low-order bytes of `x`, the most significant first.
pub open spec fn be_bytes(x: nat, width: nat) -> Seq<u8>
    decreases width,
{
    if width == 0 {
        Seq::<u8>::empty()
    } else {
        be_bytes(x / 256, (width - 1) as nat).push((x % 256) as u8)
    }
}

/// The 64-bit word that the eight bytes of `d` from index `i` on hold, the most significant first.
pub open spec fn word_at(d: Seq<u8>, i: int) -> u64 {
    (((((((d[i] as int * 256 + d[i + 1] as int) * 256 + d[i + 2] as int) * 256 + d[i + 3] as int)
        * 256 + d[i + 4] as int) * 256 + d[i + 5] as int) * 256 + d[i + 6] as int) * 256 + d[i
        + 7] as int) as u64
}

/// The identifier that 32 bytes hold.
pub open spec fn hash_of_bytes(d: Seq<u8>) -> Hash256 {
    Hash256 { w0: word_at(d, 0), w1: word_at(d, 8), w2: word_at(d, 16), w3: word_at(d, 24) }
}

/// The 32 bytes of an identifier.
pub open spec fn hash_bytes(h: Hash256) -> Seq<u8> {
    be_bytes(h.w0 as nat, 8) + be_bytes(h.w1 as nat, 8) + be_bytes(h.w2 as nat, 8) + be_bytes(
        h.w3 as nat,
        8,
    )
}

/// The 36 bytes of a transaction output: the id, then the index.
pub open spec fn outpoint_bytes(o: OutPoint) -> Seq<u8> {
    hash_bytes(o.txid) + be_bytes(o.vout as nat, 4)
}

/// Appends the `width` low-order bytes of `x` to `buf`, the most significant first.
pub fn push_be(buf: &mut Vec<u8>, x: u64, width: u8)
    ensures
        final(buf)@ == old(buf)@ + be_bytes(x as nat, width as nat),
    decreases width,
{
    if width == 0 {
        assert(buf@ =~= old(buf)@ + be_bytes(x as nat, 0));
    } else {
        push_be(buf, x / 256, width - 1);
        buf.push((x % 256) as u8);
        assert(buf@ =~= old(buf)@ + be_bytes(x as nat, width as nat));
    }
}

fn read_word(d: &[u8; 32], i: usize) -> (w: u64)
    requires
        i + 8 <= 32,
    ensures
        w == word_at(d@, i as int),
{
    let b0 = d[i] as u64;
    let b1 = d[i + 1] as u64;
    let b2 = d[i + 2] as u64;
    let b3 = d[i + 3] as u64;
    let b4 = d[i + 4] as u64;
    let b5 = d[i + 5] as u64;
    let b6 = d[i + 6] as u64;
    let b7 = d[i + 7] as u64;
    ((((((b0 * 256 + b1) * 256 + b2) * 256 + b3) * 256 + b4) * 256 + b5) * 256 + b6) * 256 + b7
}

impl Hash256 {
    /// The identifier whose words are all zero but the last, which is `x`.
    pub fn from_u64(x: u64) -> (h: Hash256)
        ensures
            h == (Hash256 { w0: 0, w1: 0, w2: 0, w3: x }),
    {
        Hash256 { w0: 0, w1: 0, w2: 0, w3: x }
    }

    /// Reads an identifier from its 32 bytes.
    pub fn from_bytes(d: &[u8; 32]) -> (h: Hash256)
        ensures
            h == hash_of_bytes(d@),
    {
        Hash256 {
            w0: read_word(d, 0),
            w1: read_word(d, 8),
            w2: read_word(d, 16),
            w3: read_word(d, 24),
        }
    }

    /// Appends the 32 bytes of the identifier to `buf`.
    pub fn write_to(&self, buf: &mut Vec<u8>)
        ensures
            final(buf)@ == old(buf)@ + hash_bytes(*self),
    {
        push_be(buf, self.w0, 8);
        push_be(buf, self.w1, 8);
        push_be(buf, self.w2, 8);
        push_be(buf, self.w3, 8);
        assert(buf@ =~= old(buf)@ + hash_bytes(*self));
    }

    /// The 32 bytes of the identifier.
    pub fn to_bytes(&self) -> (b: Vec<u8>)
        ensures
            b@ == hash_bytes(*self),
    {
        let mut b: Vec<u8> = Vec::new();
        self.write_to(&mut b);
        assert(b@ =~= hash_bytes(*self));
        b
    }
}

impl OutPoint {
    /// The output `vout` of the transaction `txid`.
    pub fn new(txid: Hash256, vout: u32) -> (o: OutPoint)
        ensures
            o == (OutPoint { txid, vout }),
    {
        OutPoint { txid, vout }
    }

    /// Appends the 36 bytes of the output to `buf`.
    pub fn write_to(&self, buf: &mut Vec<u8>)
        ensures
            final(buf)@ == old(buf)@ + outpoint_bytes(*self),
    {
        self.txid.write_to(buf);
        push_be(buf, self.vout as u64, 4);
        assert(buf@ =~= old(buf)@ + outpoint_bytes(*self));
    }
}

} // verus!
