use std::collections::HashMap;

use ed25519_dalek::{Keypair, PublicKey, SecretKey, Signature, Signer, Verifier};
use sparse_bullshark::multisig::{
    aggregate, batch_to_verify, decode, round_messages, sign_round, signature_is_well_formed, signer_keys, validate, PrivateKey,
    SampleProof,
};

fn keypair_bytes(i: u8) -> Vec<u8> {
    let secret = SecretKey::from_bytes(&[i + 1; 32]).unwrap();
    let public: PublicKey = (&secret).into();
    let mut bytes = secret.to_bytes().to_vec();
    bytes.extend_from_slice(public.as_bytes());
    bytes
}

fn private_key(i: u8) -> PrivateKey {
    PrivateKey::from_bytes(keypair_bytes(i)).unwrap()
}

fn public_keys(n: u8) -> HashMap<u32, Vec<u8>> {
    let mut keys = HashMap::new();
    for i in 0..n {
        keys.insert(i as u32, keypair_bytes(i)[32..].to_vec());
    }
    keys
}

fn proof_for(round: u64, signers: &[u8]) -> Vec<u8> {
    let signatures: Vec<Vec<u8>> = signers.iter().map(|&i| sign_round(round, &private_key(i))).collect();
    aggregate(signatures, signers.iter().map(|&i| i as u32).collect())
}

#[test]
fn private_key_holds_only_bytes_that_parse() {
    assert!(PrivateKey::from_bytes(keypair_bytes(0)).is_some());
    assert!(PrivateKey::from_bytes(vec![]).is_none());
    assert!(PrivateKey::from_bytes(vec![1; 63]).is_none());
    assert!(PrivateKey::from_bytes(vec![1; 65]).is_none());
    // A key pair whose public half is no point of the curve.
    let mut bad = keypair_bytes(0);
    let mut found = false;
    for b in 0..=255u8 {
        bad[32] = b;
        if PublicKey::from_bytes(&bad[32..]).is_err() {
            found = true;
            break;
        }
    }
    assert!(found);
    assert!(Keypair::from_bytes(&bad).is_err());
    assert!(PrivateKey::from_bytes(bad).is_none());
}

#[test]
fn sign_round_signs_the_big_endian_round_number() {
    let key = private_key(2);
    let signature = sign_round(7, &key);
    assert_eq!(signature.len(), 64);
    let dalek = Keypair::from_bytes(&keypair_bytes(2)).unwrap();
    assert_eq!(signature, dalek.sign(&7u64.to_be_bytes()).to_bytes().to_vec());
    let parsed = Signature::from_bytes(&signature).unwrap();
    assert!(dalek.public.verify(&[0, 0, 0, 0, 0, 0, 0, 7], &parsed).is_ok());
    assert!(dalek.public.verify(&7u64.to_le_bytes(), &parsed).is_err());
    assert_ne!(signature, sign_round(8, &key));
    assert_ne!(signature, sign_round(7, &private_key(3)));
    assert_eq!(signature, sign_round(7, &private_key(2)));
}

#[test]
fn private_key_signs_any_message() {
    let key = private_key(1);
    let message = vec![1, 2, 3, 4, 5];
    let signature = key.sign(&message);
    let dalek = Keypair::from_bytes(&keypair_bytes(1)).unwrap();
    assert_eq!(signature, dalek.sign(&message).to_bytes().to_vec());
    assert_ne!(signature, message);
}

#[test]
fn well_formed_signatures_are_64_bytes_with_three_high_bits_clear() {
    assert!(signature_is_well_formed(&vec![0; 64]));
    assert!(!signature_is_well_formed(&vec![0; 63]));
    assert!(!signature_is_well_formed(&vec![0; 65]));
    assert!(!signature_is_well_formed(&vec![]));
    let mut s = vec![0xff; 64];
    assert!(!signature_is_well_formed(&s));
    s[63] = 0x1f;
    assert!(signature_is_well_formed(&s));
    s[63] = 0x20;
    assert!(!signature_is_well_formed(&s));
    for last in 0..=255u8 {
        let mut s = vec![7u8; 64];
        s[63] = last;
        assert_eq!(signature_is_well_formed(&s), Signature::from_bytes(&s).is_ok());
    }
    assert!(signature_is_well_formed(&sign_round(3, &private_key(0))));
}

#[test]
fn aggregate_writes_signatures_then_signers() {
    let s0 = sign_round(4, &private_key(0));
    let s1 = sign_round(4, &private_key(1));
    let encoded = aggregate(vec![s0.clone(), s1.clone()], vec![0, 1]);
    let mut expected: Vec<u8> = Vec::new();
    expected.extend_from_slice(&2u64.to_le_bytes());
    expected.extend_from_slice(&s0);
    expected.extend_from_slice(&s1);
    expected.extend_from_slice(&2u64.to_le_bytes());
    expected.extend_from_slice(&0u32.to_le_bytes());
    expected.extend_from_slice(&1u32.to_le_bytes());
    assert_eq!(encoded, expected);
    let parsed: Vec<Signature> =
        vec![Signature::from_bytes(&s0).unwrap(), Signature::from_bytes(&s1).unwrap()];
    assert_eq!(encoded, bincode::serialize(&(parsed, vec![0u32, 1u32])).unwrap());
    assert_eq!(aggregate(vec![], vec![]), vec![0u8; 16]);
}

#[test]
fn decode_reads_back_what_aggregate_wrote() {
    let s0 = sign_round(4, &private_key(0));
    let s1 = sign_round(4, &private_key(1));
    let encoded = aggregate(vec![s0.clone(), s1.clone()], vec![9, 1, 5]);
    let proof = decode(&encoded).unwrap();
    assert_eq!(proof.signatures, vec![s0, s1]);
    assert_eq!(proof.signers, vec![9, 1, 5]);
    let empty = decode(&vec![0u8; 16]).unwrap();
    assert!(empty.signatures.is_empty());
    assert!(empty.signers.is_empty());
}

#[test]
fn decode_refuses_what_is_no_proof() {
    assert!(decode(&[]).is_none());
    assert!(decode(&[1, 2, 3]).is_none());
    let encoded = proof_for(4, &[0, 1]);
    assert!(decode(&encoded[..encoded.len() - 1]).is_none());
    // A signature whose last byte has a high bit set does not parse.
    let mut bad = encoded.clone();
    bad[8 + 63] |= 0x80;
    assert!(decode(&bad).is_none());
}

#[test]
fn signer_keys_pairs_each_signer_with_its_key() {
    let keys = public_keys(4);
    let proof = SampleProof { signatures: vec![vec![0; 64], vec![0; 64]], signers: vec![2, 0] };
    let found = signer_keys(&proof, &keys).unwrap();
    assert_eq!(found, vec![keys[&2].clone(), keys[&0].clone()]);
    let unknown = SampleProof { signatures: vec![vec![0; 64]], signers: vec![4] };
    assert!(signer_keys(&unknown, &keys).is_none());
    let uneven = SampleProof { signatures: vec![vec![0; 64]], signers: vec![0, 1] };
    assert!(signer_keys(&uneven, &keys).is_none());
    let empty = SampleProof { signatures: vec![], signers: vec![] };
    assert_eq!(signer_keys(&empty, &keys).unwrap().len(), 0);
}

#[test]
fn validate_accepts_a_proof_of_known_signers() {
    let keys = public_keys(4);
    assert!(validate(4, &proof_for(4, &[0, 1, 2]), &keys));
    assert!(validate(4, &proof_for(4, &[3]), &keys));
    assert!(validate(0, &proof_for(0, &[2, 1]), &keys));
}

#[test]
fn validate_asks_for_no_number_of_signers() {
    let keys = public_keys(4);
    assert!(validate(4, &proof_for(4, &[]), &keys));
}

#[test]
fn validate_rejects_an_unknown_signer() {
    let keys = public_keys(3);
    // Node 3 signs properly but has no key in the table.
    assert!(!validate(4, &proof_for(4, &[0, 3]), &keys));
    assert!(!validate(4, &proof_for(4, &[3]), &keys));
    assert!(validate(4, &proof_for(4, &[0, 2]), &keys));
}

#[test]
fn validate_rejects_mismatched_lists() {
    let keys = public_keys(4);
    let s0 = sign_round(4, &private_key(0));
    let s1 = sign_round(4, &private_key(1));
    assert!(!validate(4, &aggregate(vec![s0.clone(), s1.clone()], vec![0]), &keys));
    assert!(!validate(4, &aggregate(vec![s0], vec![0, 1]), &keys));
}

#[test]
fn validate_rejects_signatures_that_do_not_verify() {
    let keys = public_keys(4);
    // Signed for another round.
    assert!(!validate(5, &proof_for(4, &[0, 1]), &keys));
    // Signed by another node than named.
    let s1 = sign_round(4, &private_key(1));
    assert!(!validate(4, &aggregate(vec![s1], vec![0]), &keys));
    // One byte of a signature flipped.
    let mut tampered = proof_for(4, &[0, 1]);
    tampered[8 + 5] ^= 1;
    assert!(!validate(4, &tampered, &keys));
}

#[test]
fn validate_rejects_bytes_that_do_not_decode() {
    let keys = public_keys(4);
    assert!(!validate(4, &[], &keys));
    assert!(!validate(4, &[0xff; 40], &keys));
}

#[test]
fn the_batch_of_a_proof_is_round_signatures_and_signer_keys() {
    let keys = public_keys(4);
    let batch = batch_to_verify(0x0102, &proof_for(0x0102, &[2, 0]), &keys).unwrap();
    assert_eq!(batch.messages, vec![vec![0, 0, 0, 0, 0, 0, 1, 2], vec![0, 0, 0, 0, 0, 0, 1, 2]]);
    assert_eq!(
        batch.signatures,
        vec![sign_round(0x0102, &private_key(2)), sign_round(0x0102, &private_key(0))]
    );
    assert_eq!(batch.keys, vec![keys[&2].clone(), keys[&0].clone()]);
    let empty = batch_to_verify(7, &proof_for(7, &[]), &keys).unwrap();
    assert!(empty.messages.is_empty());
    assert!(empty.signatures.is_empty());
    assert!(empty.keys.is_empty());
    // No batch for a proof that is not admissible.
    assert!(batch_to_verify(7, &[], &keys).is_none());
    assert!(batch_to_verify(7, &proof_for(7, &[0, 4]), &keys).is_none());
    let s0 = sign_round(7, &private_key(0));
    assert!(batch_to_verify(7, &aggregate(vec![s0], vec![0, 1]), &keys).is_none());
    // A batch is made whether or not its signatures verify.
    assert!(batch_to_verify(8, &proof_for(7, &[0]), &keys).is_some());
}

#[test]
fn round_messages_repeat_the_round_number() {
    assert_eq!(round_messages(258, 0), Vec::<Vec<u8>>::new());
    assert_eq!(round_messages(258, 3), vec![vec![0, 0, 0, 0, 0, 0, 1, 2]; 3]);
    assert_eq!(round_messages(u64::MAX, 1), vec![vec![0xff; 8]]);
}

#[test]
fn decode_passes_over_what_follows_the_proof() {
    let s0 = sign_round(4, &private_key(0));
    let mut encoded = aggregate(vec![s0.clone()], vec![7, 8]);
    assert_eq!(encoded.len(), 8 + 64 + 8 + 8);
    encoded.extend_from_slice(&[1, 2, 3, 4, 5]);
    let proof = decode(&encoded).unwrap();
    assert_eq!(proof.signatures, vec![s0]);
    assert_eq!(proof.signers, vec![7, 8]);
}

#[test]
fn decode_reads_little_endian_counts_and_ids() {
    let s0 = sign_round(4, &private_key(0));
    let mut bytes: Vec<u8> = vec![1, 0, 0, 0, 0, 0, 0, 0];
    bytes.extend_from_slice(&s0);
    bytes.extend_from_slice(&[2, 0, 0, 0, 0, 0, 0, 0]);
    bytes.extend_from_slice(&[0x04, 0x03, 0x02, 0x01, 0xff, 0xff, 0xff, 0xff]);
    let proof = decode(&bytes).unwrap();
    assert_eq!(proof.signatures, vec![s0.clone()]);
    assert_eq!(proof.signers, vec![0x0102_0304, u32::MAX]);
    assert_eq!(aggregate(vec![s0], vec![0x0102_0304, u32::MAX]), bytes);
    // A count that the bytes do not bear out.
    let mut short = bytes.clone();
    short[72] = 3;
    assert!(decode(&short).is_none());
    let mut many = bytes.clone();
    many[0] = 2;
    assert!(decode(&many).is_none());
    let mut huge = bytes.clone();
    huge[7] = 0xff;
    assert!(decode(&huge).is_none());
    // Fewer than the eight bytes of a count.
    assert!(decode(&bytes[..7]).is_none());
    assert!(decode(&bytes[..72 + 7]).is_none());
    assert!(decode(&bytes[..72 + 8]).is_none());
    // No signatures and no signers: two counts of zero.
    assert!(decode(&[0u8; 16]).is_some());
    assert!(decode(&[0u8; 15]).is_none());
}
