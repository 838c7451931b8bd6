use bitmask_core::digest::digest_id;
use bitmask_core::ids::{push_be, Hash256, OutPoint};
use bitmask_core::seal::{blind, opens, Seal};

fn sha256(data: &[u8]) -> [u8; 32] {
    let digest = <bitcoin::hashes::sha256::Hash as bitcoin::hashes::Hash>::hash(data);
    bitcoin::hashes::Hash::into_inner(digest)
}

fn sample_txid() -> Hash256 {
    Hash256 {
        w0: 0x0102030405060708,
        w1: 0x1112131415161718,
        w2: 0x2122232425262728,
        w3: 0x3132333435363738,
    }
}

#[test]
fn big_endian_bytes_of_a_number() {
    let mut buf = vec![0xaa];
    push_be(&mut buf, 0x0102030405060708, 8);
    assert_eq!(buf, vec![0xaa, 1, 2, 3, 4, 5, 6, 7, 8]);
    let mut buf = Vec::new();
    push_be(&mut buf, 0x0102030405060708, 4);
    assert_eq!(buf, vec![5, 6, 7, 8]);
    let mut buf = Vec::new();
    push_be(&mut buf, 7, 0);
    assert!(buf.is_empty());
    let mut buf = Vec::new();
    push_be(&mut buf, 0xff, 3);
    assert_eq!(buf, vec![0, 0, 0xff]);
}

#[test]
fn hash_bytes_round_trip() {
    let h = sample_txid();
    let bytes = h.to_bytes();
    assert_eq!(bytes.len(), 32);
    assert_eq!(&bytes[..9], &[1, 2, 3, 4, 5, 6, 7, 8, 0x11]);
    assert_eq!(bytes[31], 0x38);
    let mut array = [0u8; 32];
    array.copy_from_slice(&bytes);
    assert_eq!(Hash256::from_bytes(&array), h);
    assert_eq!(
        Hash256::from_bytes(&[0xff; 32]),
        Hash256 { w0: u64::MAX, w1: u64::MAX, w2: u64::MAX, w3: u64::MAX }
    );
    assert_eq!(Hash256::from_u64(9), Hash256 { w0: 0, w1: 0, w2: 0, w3: 9 });
}

#[test]
fn outpoint_bytes_are_id_then_index() {
    let o = OutPoint::new(sample_txid(), 0x01020304);
    let mut buf = Vec::new();
    o.write_to(&mut buf);
    assert_eq!(buf.len(), 36);
    assert_eq!(&buf[..32], sample_txid().to_bytes().as_slice());
    assert_eq!(&buf[32..], &[1, 2, 3, 4]);
}

#[test]
fn digest_of_known_inputs() {
    assert_eq!(
        digest_id(&Vec::new()),
        Hash256 {
            w0: 0xe3b0c44298fc1c14,
            w1: 0x9afbf4c8996fb924,
            w2: 0x27ae41e4649b934c,
            w3: 0xa495991b7852b855,
        }
    );
    assert_eq!(
        digest_id(&b"abc".to_vec()),
        Hash256 {
            w0: 0xba7816bf8f01cfea,
            w1: 0x414140de5dae2223,
            w2: 0xb00361a396177a9c,
            w3: 0xb410ff61f20015ad,
        }
    );
}

#[test]
fn seal_commits_to_output_and_factor() {
    let outpoint = OutPoint::new(sample_txid(), 7);
    let (response, back) = blind(outpoint, 0xdeadbeef);
    assert_eq!(back, outpoint);
    assert_eq!(response.blinding, 0xdeadbeef);

    let mut preimage = sample_txid().to_bytes();
    preimage.extend_from_slice(&7u32.to_be_bytes());
    preimage.extend_from_slice(&0xdeadbeefu64.to_be_bytes());
    assert_eq!(preimage.len(), 44);
    let expected = sha256(&preimage);
    assert_eq!(response.conceal, Seal { commitment: Hash256::from_bytes(&expected) });
    assert_eq!(
        response.conceal.commitment,
        Hash256 {
            w0: 0xd6ad2dc6d436f787,
            w1: 0xe24394ab5ddba4b4,
            w2: 0xf27a3efa9ccc23d5,
            w3: 0x461a3e52f26c8f5d,
        }
    );
}

#[test]
fn seal_opens_only_with_its_output_and_factor() {
    let outpoint = OutPoint::new(sample_txid(), 7);
    let (response, _) = blind(outpoint, 42);
    assert!(opens(response.conceal, outpoint, 42));
    assert!(!opens(response.conceal, outpoint, 43));
    assert!(!opens(response.conceal, OutPoint::new(sample_txid(), 8), 42));
    assert!(!opens(response.conceal, OutPoint::new(Hash256::from_u64(1), 7), 42));
    let (other, _) = blind(outpoint, 43);
    assert_ne!(other.conceal, response.conceal);
    let (again, _) = blind(outpoint, 42);
    assert_eq!(again, response);
}
