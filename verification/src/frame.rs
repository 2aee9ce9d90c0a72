//! The wire: frames, their signatures, and the handshake.
//!
//! A frame is the payload's length in four big-endian bytes, the payload,
//! and a signature of 64 bytes over the payload. A handshake is the sender's
//! id in four big-endian bytes, a nonce of 32 bytes, and a signature of 64
//! bytes over the nonce.

use std::collections::HashMap;
use vstd::prelude::*;
use vstd::std_specs::hash::group_hash_axioms;
use crate::bytes::{
    be32, be32_value, copy_range, lemma_be32_round_trip, push_be32, push_bytes, push_slice, read_be32,
    zero_bytes, zeros,
};
use crate::crypto::{ed25519_signature, ed25519_verifies, verify_signature};
use crate::multisig::{keys_view, PrivateKey};
use crate::vertex::NodeId;

verus! {

broadcast use group_hash_axioms;

/// The number of bytes that hold a frame's length.
pub const MESSAGE_BYTES_LENGTH: usize = 4;

/// The longest payload accepted, in bytes: 10 MiB.
pub const MAX_PAYLOAD_LENGTH: u32 = 10 * 1024 * 1024;

/// The length of a handshake in bytes.
pub const HANDSHAKE_LENGTH: usize = 100;

/// The frame of a payload and its signature.
pub open spec fn frame_of(payload: Seq<u8>, signature: Seq<u8>) -> Seq<u8> {
    be32(payload.len() as u32) + payload + signature
}

/// The signature that goes out with a payload: the node's own, or 64 zero
/// bytes where signatures are off.
pub open spec fn signature_for(key: Seq<u8>, payload: Seq<u8>, test_flag: bool) -> Seq<u8> {
    if test_flag {
        zeros(64)
    } else {
        ed25519_signature(key, payload)
    }
}

/// Whether a frame's signature is taken for the peer's: always where
/// signatures are off; else iff the peer has a key and it verifies the
/// signature over the payload.
pub open spec fn frame_holds(
    payload: Seq<u8>,
    signature: Seq<u8>,
    peer_id: u32,
    keys: Map<u32, Seq<u8>>,
    test_flag: bool,
) -> bool {
    test_flag || (keys.contains_key(peer_id) && ed25519_verifies(keys[peer_id], payload, signature))
}

/// Whether a frame of this payload length is read on: the length is not
/// zero and at most 10 MiB.
pub fn frame_length_accepted(length: u32) -> (ok: bool)
    ensures
        ok == (0 < length <= 10 * 1024 * 1024),
{
    !(length == 0 || length > MAX_PAYLOAD_LENGTH)
}

/// The signature to send with `payload`.
pub fn frame_signature(payload: &Vec<u8>, private_key: &PrivateKey, test_flag: bool) -> (signature: Vec<
    u8,
>)
    ensures
        signature@ == signature_for(private_key@, payload@, test_flag),
        signature@.len() == 64,
{
    if !test_flag {
        private_key.sign(payload)
    } else {
        zero_bytes(64)
    }
}

/// The frame to send for `payload`: length, payload, signature.
pub fn outbound_frame(payload: &Vec<u8>, private_key: &PrivateKey, test_flag: bool) -> (frame: Vec<u8>)
    requires
        payload@.len() <= u32::MAX,
    ensures
        frame@ == frame_of(payload@, signature_for(private_key@, payload@, test_flag)),
{
    let signature = frame_signature(payload, private_key, test_flag);
    let mut frame: Vec<u8> = Vec::new();
    push_be32(&mut frame, payload.len() as u32);
    push_bytes(&mut frame, payload);
    push_bytes(&mut frame, &signature);
    frame
}

/// The frame that carries `payload` to every peer, signed by this node.
pub fn reliable_broadcast(payload: &Vec<u8>, private_key: &PrivateKey) -> (frame: Vec<u8>)
    requires
        payload@.len() <= u32::MAX,
    ensures
        frame@ == frame_of(payload@, ed25519_signature(private_key@, payload@)),
{
    outbound_frame(payload, private_key, false)
}

/// Whether the frame of `payload` and `signature` from `peer_id` is handed
/// on; else it is dropped.
pub fn frame_verified(
    payload: &Vec<u8>,
    signature: &Vec<u8>,
    peer_id: NodeId,
    public_keys: &HashMap<NodeId, Vec<u8>>,
    test_flag: bool,
) -> (ok: bool)
    ensures
        ok == frame_holds(payload@, signature@, peer_id, keys_view(*public_keys), test_flag),
{
    let mut verified = test_flag;
    if !test_flag {
        match public_keys.get(&peer_id) {
            Some(key) => {
                if verify_signature(key, payload, signature) {
                    verified = true;
                }
            },
            None => {},
        }
    }
    verified
}

/// What a handshake says: who the sender claims to be, the nonce, and the
/// signature over it.
#[derive(Debug)]
pub struct Handshake {
    pub claimed_id: NodeId,
    pub nonce: Vec<u8>,
    pub signature: Vec<u8>,
}

/// The bytes of a handshake.
pub open spec fn handshake_of(id: u32, nonce: Seq<u8>, signature: Seq<u8>) -> Seq<u8> {
    be32(id) + nonce + signature
}

/// The handshake that this node opens a connection with.
pub fn handshake_frame(my_id: NodeId, nonce: &[u8], private_key: &PrivateKey) -> (frame: Vec<u8>)
    ensures
        frame@ == handshake_of(my_id, nonce@, ed25519_signature(private_key@, nonce@)),
{
    let mut message: Vec<u8> = Vec::new();
    push_slice(&mut message, nonce);
    assert(message@ =~= nonce@);
    let signature = private_key.sign(&message);
    let mut frame: Vec<u8> = Vec::new();
    push_be32(&mut frame, my_id);
    push_slice(&mut frame, nonce);
    push_bytes(&mut frame, &signature);
    frame
}

/// Takes a handshake of 100 bytes apart; bytes of any other length are
/// none.
pub fn parse_handshake(frame: &Vec<u8>) -> (parsed: Option<Handshake>)
    ensures
        match parsed {
            Some(h) => {
                &&& frame@.len() == 100
                &&& h.claimed_id == be32_value(frame@.subrange(0, 4))
                &&& h.nonce@ == frame@.subrange(4, 36)
                &&& h.signature@ == frame@.subrange(36, 100)
            },
            None => frame@.len() != 100,
        },
{
    if frame.len() != HANDSHAKE_LENGTH {
        return None;
    }
    let claimed_id = read_be32(frame.as_slice());
    let nonce = copy_range(frame, 4, 36);
    let signature = copy_range(frame, 36, 100);
    Some(Handshake { claimed_id, nonce, signature })
}

/// Whether a handshake is accepted: the claimed sender has a key, and the
/// key verifies the signature over the nonce.
pub fn handshake_accepted(handshake: &Handshake, public_keys: &HashMap<NodeId, Vec<u8>>) -> (ok: bool)
    ensures
        ok == frame_holds(
            handshake.nonce@,
            handshake.signature@,
            handshake.claimed_id,
            keys_view(*public_keys),
            false,
        ),
{
    match public_keys.get(&handshake.claimed_id) {
        Some(key) => verify_signature(key, &handshake.nonce, &handshake.signature),
        None => false,
    }
}

/// Whether a node among `n` that has accepted the handshakes of `accepted`
/// peers waits for more: it waits until every other node is accepted.
pub fn peers_awaited(accepted: usize, n: usize) -> (waits: bool)
    ensures
        waits == (accepted + 1 < n),
{
    if accepted >= n {
        false
    } else {
        accepted + 1 < n
    }
}

/// A handshake taken apart gives back what it was made of.
pub proof fn law_handshake_round_trip(id: u32, nonce: Seq<u8>, signature: Seq<u8>)
    requires
        nonce.len() == 32,
        signature.len() == 64,
    ensures
        handshake_of(id, nonce, signature).len() == 100,
        be32_value(handshake_of(id, nonce, signature).subrange(0, 4)) == id,
        handshake_of(id, nonce, signature).subrange(4, 36) == nonce,
        handshake_of(id, nonce, signature).subrange(36, 100) == signature,
{
    let frame = handshake_of(id, nonce, signature);
    lemma_be32_round_trip(id);
    assert(frame.subrange(0, 4) =~= be32(id));
    assert(frame.subrange(4, 36) =~= nonce);
    assert(frame.subrange(36, 100) =~= signature);
}

} // verus!
