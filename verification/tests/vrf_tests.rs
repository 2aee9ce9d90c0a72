use std::collections::HashSet;

use ed25519_dalek::{Keypair, PublicKey, SecretKey, Signer};
use rand::rngs::StdRng;
use rand::seq::SliceRandom;
use rand::SeedableRng;
use sha2::{Digest, Sha256};
use sparse_bullshark::multisig::PrivateKey;
use sparse_bullshark::vrf::{members, members_in_order, other_ids, vrf_prove, vrf_verify};

fn keypair_bytes(i: u8) -> Vec<u8> {
    let secret = SecretKey::from_bytes(&[i + 1; 32]).unwrap();
    let public: PublicKey = (&secret).into();
    let mut bytes = secret.to_bytes().to_vec();
    bytes.extend_from_slice(public.as_bytes());
    bytes
}

fn private_key(i: u8) -> PrivateKey {
    PrivateKey::from_bytes(keypair_bytes(i)).unwrap()
}

fn public_key(i: u8) -> Vec<u8> {
    keypair_bytes(i)[32..].to_vec()
}

/// The sample as the standard generator gives it, computed apart.
fn expected(i: u8, seed: &str, sample_size: usize, s: u32, leader_id: u32) -> (HashSet<u32>, Vec<u8>) {
    let mut possible_ids: Vec<u32> = (0..s).collect();
    possible_ids.retain(|&id| id != leader_id);
    let proof = Keypair::from_bytes(&keypair_bytes(i)).unwrap().sign(seed.as_bytes());
    let digest = Sha256::digest(proof.to_bytes());
    let mut rng = StdRng::from_seed(digest[0..32].try_into().unwrap());
    possible_ids.shuffle(&mut rng);
    let mut sample: HashSet<u32> = possible_ids.into_iter().take(sample_size - 1).collect();
    sample.insert(leader_id);
    (sample, proof.to_bytes().to_vec())
}

#[test]
fn other_ids_leaves_the_leader_out() {
    assert_eq!(other_ids(5, 2), vec![0, 1, 3, 4]);
    assert_eq!(other_ids(5, 0), vec![1, 2, 3, 4]);
    assert_eq!(other_ids(5, 4), vec![0, 1, 2, 3]);
    assert_eq!(other_ids(3, 7), vec![0, 1, 2]);
    assert_eq!(other_ids(1, 0), Vec::<u32>::new());
    assert_eq!(other_ids(0, 0), Vec::<u32>::new());
}

#[test]
fn vrf_prove_samples_with_the_signature_as_seed() {
    for (seed, size, s, leader) in [("round-1", 4usize, 10u32, 3u32), ("x", 1, 10, 0), ("", 7, 7, 6), ("seed", 20, 5, 2)] {
        let (sample, proof) = vrf_prove(&private_key(1), seed, size, s, leader);
        let (want_sample, want_proof) = expected(1, seed, size, s, leader);
        assert_eq!(proof, want_proof);
        assert_eq!(sample, want_sample);
        assert!(sample.contains(&leader));
        assert!(sample.len() <= size);
    }
    let (sample, _) = vrf_prove(&private_key(1), "round-1", 4, 10, 3);
    assert_eq!(sample.len(), 4);
    assert!(sample.iter().all(|&id| id < 10));
    // A leader beyond the ids is in the sample all the same.
    let (sample, _) = vrf_prove(&private_key(1), "round-1", 3, 4, 9);
    assert!(sample.contains(&9));
    assert_eq!(sample.len(), 3);
}

#[test]
fn vrf_prove_depends_on_key_and_seed() {
    let (a, pa) = vrf_prove(&private_key(1), "round-1", 5, 50, 3);
    let (b, pb) = vrf_prove(&private_key(1), "round-1", 5, 50, 3);
    assert_eq!((a.clone(), pa.clone()), (b, pb));
    let (_, other_seed) = vrf_prove(&private_key(1), "round-2", 5, 50, 3);
    let (_, other_key) = vrf_prove(&private_key(2), "round-1", 5, 50, 3);
    assert_ne!(pa, other_seed);
    assert_ne!(pa, other_key);
}

#[test]
fn vrf_verify_accepts_the_sample_of_its_proof() {
    let (sample, proof) = vrf_prove(&private_key(1), "round-1", 4, 10, 3);
    let mut list: Vec<u32> = sample.iter().copied().collect();
    assert!(vrf_verify(&public_key(1), "round-1", 4, 10, 3, &list, &proof));
    // The order and a repeated entry do not matter: the sample is a set.
    list.reverse();
    list.push(3);
    assert!(vrf_verify(&public_key(1), "round-1", 4, 10, 3, &list, &proof));
}

#[test]
fn vrf_verify_rejects_another_sample_or_proof() {
    let (sample, proof) = vrf_prove(&private_key(1), "round-1", 4, 10, 3);
    let list: Vec<u32> = sample.iter().copied().collect();
    // Another key, seed, size, range or leader.
    assert!(!vrf_verify(&public_key(2), "round-1", 4, 10, 3, &list, &proof));
    assert!(!vrf_verify(&public_key(1), "round-2", 4, 10, 3, &list, &proof));
    assert!(!vrf_verify(&public_key(1), "round-1", 3, 10, 3, &list, &proof));
    assert!(!vrf_verify(&public_key(1), "round-1", 4, 10, 4, &list, &proof));
    // An id too many, an id too few, an id exchanged.
    let mut more = list.clone();
    more.push((0..10).find(|id| !sample.contains(id)).unwrap());
    assert!(!vrf_verify(&public_key(1), "round-1", 4, 10, 3, &more, &proof));
    let fewer: Vec<u32> = list.iter().copied().filter(|&id| id == 3).collect();
    assert!(!vrf_verify(&public_key(1), "round-1", 4, 10, 3, &fewer, &proof));
    assert!(!vrf_verify(&public_key(1), "round-1", 4, 10, 3, &vec![], &proof));
    // A proof with a byte changed is no signature on the seed.
    let mut forged = proof.clone();
    forged[3] ^= 1;
    assert!(!vrf_verify(&public_key(1), "round-1", 4, 10, 3, &list, &forged));
    // A key that is no key.
    assert!(!vrf_verify(&vec![1, 2, 3], "round-1", 4, 10, 3, &list, &proof));
}

#[test]
fn members_are_the_first_of_the_order_and_the_leader() {
    assert_eq!(members_in_order(vec![5, 1, 7, 2], 3, 9), vec![5, 1, 9]);
    assert_eq!(members_in_order(vec![5, 1, 7, 2], 1, 9), vec![9]);
    assert_eq!(members_in_order(vec![5, 1, 7, 2], 5, 9), vec![5, 1, 7, 2, 9]);
    assert_eq!(members_in_order(vec![5, 1, 7, 2], 50, 9), vec![5, 1, 7, 2, 9]);
    assert_eq!(members_in_order(vec![], 4, 0), vec![0]);
    let (sample, proof) = vrf_prove(&private_key(1), "round-1", 4, 10, 3);
    let list = members(10, 3, 4, &proof);
    assert_eq!(list.len(), 4);
    assert_eq!(list[3], 3);
    assert_eq!(list.iter().copied().collect::<HashSet<u32>>(), sample);
}

#[test]
fn a_sample_holds_the_leader_and_other_ids_below_the_bound() {
    for (key, seed, size, s, leader) in [(1u8, "a", 4usize, 10u32, 3u32), (2, "b", 30, 7, 0), (3, "c", 1, 5, 9)] {
        let (sample, proof) = vrf_prove(&private_key(key), seed, size, s, leader);
        let list = members(s, leader, size, &proof);
        assert!(!list.is_empty() && list.len() <= size);
        assert_eq!(*list.last().unwrap(), leader);
        let others = &list[..list.len() - 1];
        assert!(others.iter().all(|id| *id < s && *id != leader));
        // A shuffle only reorders: no id comes out twice.
        assert_eq!(others.iter().copied().collect::<HashSet<u32>>().len(), others.len());
        assert!(sample.contains(&leader));
        assert!(sample.iter().all(|id| *id == leader || *id < s));
    }
    // A sample as large as the group holds every id.
    let (sample, _) = vrf_prove(&private_key(2), "b", 30, 7, 0);
    assert_eq!(sample, (0..7).collect::<HashSet<u32>>());
}
