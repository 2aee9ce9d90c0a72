//! The calls into the cryptographic crates. Each function here is believed,
//! not proved: its doc comment says what it takes on trust. The functions
//! without a body give names to what the crates compute.

use ed25519_dalek::{Keypair, PublicKey, Signature, Signer, Verifier};
use rand::seq::SliceRandom;
use rand::{RngCore, SeedableRng};
use sha2::Digest;
use vstd::prelude::*;

verus! {

/// The length of a handshake nonce in bytes.
pub const NONCE_BYTES_LENGTH: usize = 32;

/// The length of an Ed25519 signature in bytes.
pub const SIGNATURE_BYTES_LENGTH: usize = 64;

/// The SHA-256 digest of a byte string, as `sha2` computes it.
pub uninterp spec fn sha256_digest(data: Seq<u8>) -> Seq<u8>;

/// Whether `ed25519_dalek` parses `key` as a public key and `signature` as a
/// signature, and the key then verifies the signature on `message`.
pub uninterp spec fn ed25519_verifies(key: Seq<u8>, message: Seq<u8>, signature: Seq<u8>) -> bool;

/// Whether `ed25519_dalek` parses these bytes as a key pair.
pub uninterp spec fn keypair_valid(key: Seq<u8>) -> bool;

/// The signature that the key pair of these bytes gives on `message`.
pub uninterp spec fn ed25519_signature(key: Seq<u8>, message: Seq<u8>) -> Seq<u8>;

/// The order in which a ChaCha20 generator seeded with `seed` leaves the
/// numbers from 0 up to `n` when `rand` shuffles them with it.
pub uninterp spec fn chacha20_order(n: nat, seed: Seq<u8>) -> Seq<usize>;

/// The order in which `rand`'s standard generator seeded with `seed` leaves
/// the ids of a slice that `rand` shuffles with it.
pub uninterp spec fn std_rng_shuffle(ids: Seq<u32>, seed: Seq<u8>) -> Seq<u32>;

/// Calls `sha2::Sha256::digest` on `data`. Trusted: the result is the
/// SHA-256 digest of exactly these bytes, and a digest is 32 bytes long.
#[verifier::external_body]
pub(crate) fn sha256(data: &Vec<u8>) -> (out: Vec<u8>)
    ensures
        out@ == sha256_digest(data@),
        out@.len() == 32,
{
    sha2::Sha256::digest(data.as_slice()).to_vec()
}

/// Calls `ed25519_dalek::PublicKey::verify` with the key and the signature
/// parsed from bytes; a key or signature that does not parse verifies
/// nothing. Trusted: the outcome depends on the three byte strings alone.
#[verifier::external_body]
pub(crate) fn verify_signature(key: &Vec<u8>, message: &Vec<u8>, signature: &Vec<u8>) -> (ok: bool)
    ensures
        ok == ed25519_verifies(key@, message@, signature@),
{
    match (PublicKey::from_bytes(key), Signature::from_bytes(signature)) {
        (Ok(k), Ok(s)) => k.verify(message, &s).is_ok(),
        _ => false,
    }
}

/// Calls `ed25519_dalek::Keypair::from_bytes`. Trusted: whether the bytes
/// parse depends on the bytes alone.
#[verifier::external_body]
pub(crate) fn keypair_parses(key: &Vec<u8>) -> (ok: bool)
    ensures
        ok == keypair_valid(key@),
{
    Keypair::from_bytes(key).is_ok()
}

/// Calls `ed25519_dalek::Keypair::sign` with the key pair parsed from bytes.
/// Trusted: signing is deterministic, so the signature depends on key and
/// message alone, and a signature is 64 bytes long.
#[verifier::external_body]
pub(crate) fn sign_with(key: &Vec<u8>, message: &Vec<u8>) -> (signature: Vec<u8>)
    requires
        keypair_valid(key@),
    ensures
        signature@ == ed25519_signature(key@, message@),
        signature@.len() == 64,
{
    Keypair::from_bytes(key).unwrap().sign(message).to_bytes().to_vec()
}

/// Calls `ed25519_dalek::verify_batch` on the messages, with signatures and
/// keys parsed from bytes; it fails if one does not parse. The batch check
/// draws random scalars, so nothing is claimed of its outcome.
#[verifier::external_body]
pub(crate) fn batch_verifies(messages: &Vec<Vec<u8>>, signatures: &Vec<Vec<u8>>, keys: &Vec<Vec<u8>>) -> (ok:
    bool) {
    let sigs: Result<Vec<Signature>, _> = signatures.iter().map(|s| Signature::from_bytes(s)).collect();
    let pks: Result<Vec<PublicKey>, _> = keys.iter().map(|k| PublicKey::from_bytes(k)).collect();
    let msgs: Vec<&[u8]> = messages.iter().map(|m| m.as_slice()).collect();
    match (sigs, pks) {
        (Ok(s), Ok(p)) => ed25519_dalek::verify_batch(&msgs, &s, &p).is_ok(),
        _ => false,
    }
}

/// Seeds `rand_chacha::ChaCha20Rng` with the first 32 bytes of `seed` and
/// calls `rand`'s `shuffle` on the numbers from 0 up to `n`. Trusted: the
/// order that results depends on `n` and those 32 bytes alone, and a shuffle
/// only reorders: `n` numbers come out, each below `n`, none twice.
#[verifier::external_body]
pub(crate) fn shuffled_order(n: usize, seed: &[u8]) -> (out: Vec<usize>)
    requires
        seed@.len() >= 32,
    ensures
        out@ == chacha20_order(n as nat, seed@.subrange(0, 32)),
        out@.len() == n,
        forall|i: int| 0 <= i < out@.len() ==> #[trigger] out@[i] < n,
        out@.no_duplicates(),
{
    let mut rng = rand_chacha::ChaCha20Rng::from_seed(seed[..32].try_into().unwrap());
    let mut order: Vec<usize> = (0..n).collect();
    order.shuffle(&mut rng);
    order
}

/// Seeds `rand::rngs::StdRng` with the first 32 bytes of `seed` and calls
/// `rand`'s `shuffle` on the ids. Trusted: the order that results depends on
/// the ids and those 32 bytes alone, and a shuffle only swaps: the ids come
/// out reordered, each as often as it went in.
#[verifier::external_body]
pub(crate) fn shuffle_ids(ids: Vec<u32>, seed: &[u8]) -> (out: Vec<u32>)
    requires
        seed@.len() >= 32,
    ensures
        out@ == std_rng_shuffle(ids@, seed@.subrange(0, 32)),
        out@.to_multiset() == ids@.to_multiset(),
{
    let mut rng = rand::rngs::StdRng::from_seed(seed[..32].try_into().unwrap());
    let mut ids = ids;
    ids.shuffle(&mut rng);
    ids
}

/// Fills a nonce from `rand::rngs::OsRng`. Nothing is claimed of the bytes.
#[verifier::external_body]
pub fn generate_nonce() -> (nonce: [u8; NONCE_BYTES_LENGTH]) {
    let mut nonce = [0u8; NONCE_BYTES_LENGTH];
    rand::rngs::OsRng.fill_bytes(&mut nonce);
    nonce
}

} // verus!
