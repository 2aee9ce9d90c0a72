//! Round signatures and the sample proof built from them.

use std::collections::HashMap;
use vstd::prelude::*;
use vstd::std_specs::hash::group_hash_axioms;
use crate::bytes::{be64, copy_bytes, push_be64, views};
use crate::codec::{decode_sample_proof, encode_sample_proof, sample_proof_decoding, sample_proof_encoding};
use crate::crypto::{batch_verifies, ed25519_signature, keypair_parses, keypair_valid, sign_with};
use crate::vertex::NodeId;

verus! {

broadcast use group_hash_axioms;

/// Whether bytes have the form of a signature: 64 bytes, the three highest
/// bits of the last one clear. This is what `ed25519::Signature::from_bytes`
/// accepts, and nothing else.
pub open spec fn well_formed_signature(s: Seq<u8>) -> bool {
    s.len() == 64 && s[63] & 0xe0 == 0
}

/// Whether bytes have the form of a signature.
pub fn signature_is_well_formed(signature: &Vec<u8>) -> (ok: bool)
    ensures
        ok == well_formed_signature(signature@),
{
    signature.len() == 64 && signature[63] & 0xe0 == 0
}

/// Signatures over a round number with, in the same order, the ids of the
/// nodes that gave them.
#[derive(Clone, Debug)]
pub struct SampleProof {
    pub signatures: Vec<Vec<u8>>,
    pub signers: Vec<NodeId>,
}

/// What a sample proof holds.
pub ghost struct SampleProofView {
    pub signatures: Seq<Seq<u8>>,
    pub signers: Seq<u32>,
}

impl View for SampleProof {
    type V = SampleProofView;

    open spec fn view(&self) -> SampleProofView {
        SampleProofView { signatures: views(self.signatures@), signers: self.signers@ }
    }
}

/// The public keys of the nodes, as bytes, by node id.
pub open spec fn keys_view(keys: HashMap<NodeId, Vec<u8>>) -> Map<u32, Seq<u8>> {
    Map::new(|id: u32| keys@.contains_key(id), |id: u32| keys@[id]@)
}

/// The proof that bytes decode to, if they decode.
pub open spec fn decoded_proof(bytes: Seq<u8>) -> Option<SampleProofView> {
    match sample_proof_decoding(bytes) {
        Some((signatures, signers)) => Some(SampleProofView { signatures, signers }),
        None => None,
    }
}

/// Whether a proof has as many signatures as signers, and every signer has
/// a key.
pub open spec fn signers_have_keys(proof: SampleProofView, keys: Map<u32, Seq<u8>>) -> bool {
    &&& proof.signatures.len() == proof.signers.len()
    &&& forall|i: int| 0 <= i < proof.signers.len() ==> keys.contains_key(#[trigger] proof.signers[i])
}

/// The key of each signer, in the proof's order.
pub open spec fn keys_of_signers(proof: SampleProofView, keys: Map<u32, Seq<u8>>) -> Seq<Seq<u8>> {
    Seq::new(proof.signers.len(), |i: int| keys[proof.signers[i]])
}

/// What validation asks of a proof before any signature is checked: it
/// decodes, has as many signatures as signers, and every signer has a key.
pub open spec fn proof_admissible(bytes: Seq<u8>, keys: Map<u32, Seq<u8>>) -> bool {
    &&& decoded_proof(bytes) matches Some(proof)
    &&& signers_have_keys(proof, keys)
}

/// A node's signing key pair. Only bytes that parse as a key pair are held.
pub struct PrivateKey {
    bytes: Vec<u8>,
}

impl PrivateKey {
    #[verifier::type_invariant]
    spec fn parses(self) -> bool {
        keypair_valid(self.bytes@)
    }

    /// The bytes of the key pair.
    pub closed spec fn view(&self) -> Seq<u8> {
        self.bytes@
    }

    /// The key pair of these bytes, if they parse as one.
    pub fn from_bytes(bytes: Vec<u8>) -> (key: Option<PrivateKey>)
        ensures
            match key {
                Some(k) => k@ == bytes@ && keypair_valid(bytes@),
                None => !keypair_valid(bytes@),
            },
    {
        if keypair_parses(&bytes) {
            Some(PrivateKey { bytes })
        } else {
            None
        }
    }

    /// The signature of this key pair on `message`.
    pub fn sign(&self, message: &Vec<u8>) -> (signature: Vec<u8>)
        ensures
            signature@ == ed25519_signature(self@, message@),
            signature@.len() == 64,
    {
        proof {
            use_type_invariant(self);
        }
        sign_with(&self.bytes, message)
    }
}

/// The node's signature over the big-endian bytes of the round number.
pub fn sign_round(round: u64, private_key: &PrivateKey) -> (signature: Vec<u8>)
    ensures
        signature@ == ed25519_signature(private_key@, be64(round)),
        signature@.len() == 64,
{
    let mut message: Vec<u8> = Vec::new();
    push_be64(&mut message, round);
    assert(message@ =~= be64(round));
    private_key.sign(&message)
}

/// The encoded proof of these signatures by these signers.
pub fn aggregate(signatures: Vec<Vec<u8>>, signers: Vec<NodeId>) -> (encoded: Vec<u8>)
    requires
        forall|i: int| 0 <= i < signatures@.len() ==> well_formed_signature(#[trigger] signatures@[i]@),
    ensures
        encoded@ == sample_proof_encoding(views(signatures@), signers@),
{
    let bundle = SampleProof { signatures, signers };
    encode_sample_proof(&bundle.signatures, &bundle.signers)
}

/// The proof that bytes hold, if they decode as one.
pub fn decode(sample_proof: &[u8]) -> (decoded: Option<SampleProof>)
    ensures
        match decoded {
            Some(p) => decoded_proof(sample_proof@) == Some(p@),
            None => decoded_proof(sample_proof@) is None,
        },
{
    match decode_sample_proof(sample_proof) {
        Some((signatures, signers)) => Some(SampleProof { signatures, signers }),
        None => None,
    }
}

/// The key of each signer, in the proof's order; none if the proof has not
/// as many signatures as signers, or a signer has no key.
pub fn signer_keys(proof: &SampleProof, public_keys: &HashMap<NodeId, Vec<u8>>) -> (keys: Option<
    Vec<Vec<u8>>,
>)
    ensures
        match keys {
            Some(ks) => {
                &&& signers_have_keys(proof@, keys_view(*public_keys))
                &&& views(ks@) == keys_of_signers(proof@, keys_view(*public_keys))
            },
            None => !signers_have_keys(proof@, keys_view(*public_keys)),
        },
{
    if proof.signatures.len() != proof.signers.len() {
        return None;
    }
    let mut keys: Vec<Vec<u8>> = Vec::new();
    let mut i: usize = 0;
    while i < proof.signers.len()
        invariant
            i <= proof.signers.len(),
            keys@.len() == i,
            proof@.signatures.len() == proof@.signers.len(),
            forall|j: int|
                0 <= j < i ==> keys_view(*public_keys).contains_key(#[trigger] proof@.signers[j]),
            forall|j: int|
                0 <= j < i ==> (#[trigger] keys@[j])@ == keys_view(*public_keys)[proof@.signers[j]],
        decreases proof.signers.len() - i,
    {
        match public_keys.get(&proof.signers[i]) {
            Some(key) => {
                keys.push(copy_bytes(key));
            },
            None => {
                assert(!keys_view(*public_keys).contains_key(proof@.signers[i as int]));
                return None;
            },
        }
        i += 1;
    }
    assert(views(keys@) =~= keys_of_signers(proof@, keys_view(*public_keys)));
    Some(keys)
}

/// What the batch verification of a sample proof is run on: for each
/// signature a message and a key.
#[derive(Debug)]
pub struct Batch {
    pub messages: Vec<Vec<u8>>,
    pub signatures: Vec<Vec<u8>>,
    pub keys: Vec<Vec<u8>>,
}

/// What the batch of an admissible proof for `round` holds: the signatures
/// of the proof, for each of them the round number as the message, and the
/// key of its signer.
pub open spec fn is_batch_of(batch: Batch, round: u64, proof: SampleProofView, keys: Map<u32, Seq<u8>>) -> bool {
    &&& views(batch.signatures@) == proof.signatures
    &&& views(batch.messages@) == Seq::new(proof.signatures.len(), |i: int| be64(round))
    &&& views(batch.keys@) == keys_of_signers(proof, keys)
}

/// `count` copies of the big-endian bytes of `round`.
pub fn round_messages(round: u64, count: usize) -> (messages: Vec<Vec<u8>>)
    ensures
        views(messages@) == Seq::new(count as nat, |i: int| be64(round)),
{
    let mut messages: Vec<Vec<u8>> = Vec::new();
    let mut i: usize = 0;
    while i < count
        invariant
            i <= count,
            messages@.len() == i,
            forall|j: int| 0 <= j < i ==> (#[trigger] messages@[j])@ == be64(round),
        decreases count - i,
    {
        let mut message: Vec<u8> = Vec::new();
        push_be64(&mut message, round);
        assert(message@ =~= be64(round));
        messages.push(message);
        i += 1;
    }
    assert(views(messages@) =~= Seq::new(count as nat, |i: int| be64(round)));
    messages
}

/// The batch that the signatures of a sample proof for `round` are verified
/// in, if the proof is admissible; none if it is not.
pub fn batch_to_verify(round: u64, sample_proof: &[u8], public_keys: &HashMap<NodeId, Vec<u8>>) -> (batch:
    Option<Batch>)
    ensures
        match batch {
            Some(b) => {
                &&& proof_admissible(sample_proof@, keys_view(*public_keys))
                &&& is_batch_of(
                    b,
                    round,
                    decoded_proof(sample_proof@).unwrap(),
                    keys_view(*public_keys),
                )
            },
            None => !proof_admissible(sample_proof@, keys_view(*public_keys)),
        },
{
    let decoded = match decode(sample_proof) {
        Some(p) => p,
        None => {
            return None;
        },
    };
    let keys = match signer_keys(&decoded, public_keys) {
        Some(keys) => keys,
        None => {
            return None;
        },
    };
    let messages = round_messages(round, decoded.signatures.len());
    Some(Batch { messages, signatures: decoded.signatures, keys })
}

/// Validates an encoded sample proof for `round`: it must decode, pair
/// each signature with a signer, name only signers whose key is known, and
/// pass the batch verification of all signatures over the round number.
/// No number of signers is asked for.
///
/// An admissible proof is handed to the batch verification as
/// `batch_to_verify` gives it, and the verdict is the answer. The batch
/// verification draws random scalars, so its verdict is not a function of
/// the proof; the contract says what every accepted proof satisfies.
pub fn validate(round: u64, sample_proof: &[u8], public_keys: &HashMap<NodeId, Vec<u8>>) -> (ok: bool)
    ensures
        ok ==> proof_admissible(sample_proof@, keys_view(*public_keys)),
{
    match batch_to_verify(round, sample_proof, public_keys) {
        Some(batch) => batch_verifies(&batch.messages, &batch.signatures, &batch.keys),
        None => false,
    }
}

} // verus!
