//! The calls into `bincode`, and the encoding that `bincode` gives to what
//! is handed to it here. Each function with a body that Verus does not read
//! is believed, not proved: its doc comment says what it takes on trust.
//!
//! As these calls configure it, `bincode` writes an integer in its fixed
//! width, least significant byte first; a list as its length in eight bytes
//! and then its items; a string as a list of its UTF-8 bytes; a tuple as its
//! fields one after the other. An Ed25519 signature is a tuple of its 64
//! bytes. Reading takes the same form and passes over bytes that follow it.

use ed25519_dalek::Signature;
use vstd::prelude::*;
use crate::bytes::views;
use crate::multisig::well_formed_signature;
use crate::vertex::{concat, NodeId};

verus! {

/// The eight bytes of `x`, least significant first.
pub open spec fn le64(x: u64) -> Seq<u8> {
    let x1 = x / 256;
    let x2 = x1 / 256;
    let x3 = x2 / 256;
    let x4 = x3 / 256;
    let x5 = x4 / 256;
    let x6 = x5 / 256;
    let x7 = x6 / 256;
    seq![
        (x % 256) as u8,
        (x1 % 256) as u8,
        (x2 % 256) as u8,
        (x3 % 256) as u8,
        (x4 % 256) as u8,
        (x5 % 256) as u8,
        (x6 % 256) as u8,
        (x7 % 256) as u8,
    ]
}

/// The four bytes of `x`, least significant first.
pub open spec fn le32(x: u32) -> Seq<u8> {
    let x1 = x / 256;
    let x2 = x1 / 256;
    let x3 = x2 / 256;
    seq![(x % 256) as u8, (x1 % 256) as u8, (x2 % 256) as u8, (x3 % 256) as u8]
}

/// The number that eight little-endian bytes stand for.
pub open spec fn le64_value(b: Seq<u8>) -> nat
    recommends
        b.len() == 8,
{
    (b[0] + 256 * (b[1] + 256 * (b[2] + 256 * (b[3] + 256 * (b[4] + 256 * (b[5] + 256 * (b[6] + 256
        * b[7]))))))) as nat
}

/// The number that four little-endian bytes stand for.
pub open spec fn le32_value(b: Seq<u8>) -> u32
    recommends
        b.len() == 4,
{
    (b[0] + 256 * (b[1] + 256 * (b[2] + 256 * b[3]))) as u32
}

/// The signer ids, each in four bytes.
pub open spec fn signer_bytes(signers: Seq<u32>) -> Seq<Seq<u8>> {
    Seq::new(signers.len(), |j: int| le32(signers[j]))
}

/// The encoding of a list of signatures followed by a list of signer ids:
/// the number of signatures, the signatures, the number of signers, the
/// signers.
#[verifier::opaque]
pub open spec fn sample_proof_encoding(signatures: Seq<Seq<u8>>, signers: Seq<u32>) -> Seq<u8> {
    le64(signatures.len() as u64) + concat(signatures) + le64(signers.len() as u64) + concat(
        signer_bytes(signers),
    )
}

/// The signatures and signer ids that bytes encode, if they encode any: the
/// bytes must hold as many signatures of 64 bytes as their first eight bytes
/// say, each with the form of a signature, and after them as many signer ids
/// as the next eight bytes say. What follows is passed over.
#[verifier::opaque]
pub open spec fn sample_proof_decoding(bytes: Seq<u8>) -> Option<(Seq<Seq<u8>>, Seq<u32>)> {
    if bytes.len() < 8 {
        None
    } else {
        let n = le64_value(bytes.subrange(0, 8)) as int;
        let mid = 8 + 64 * n;
        let signatures = Seq::new(n as nat, |i: int| bytes.subrange(8 + 64 * i, 72 + 64 * i));
        if bytes.len() < mid + 8 {
            None
        } else if exists|i: int| 0 <= i < n && !well_formed_signature(#[trigger] signatures[i]) {
            None
        } else {
            let m = le64_value(bytes.subrange(mid, mid + 8)) as int;
            if bytes.len() < mid + 8 + 4 * m {
                None
            } else {
                Some(
                    (
                        signatures,
                        Seq::new(
                            m as nat,
                            |j: int| le32_value(bytes.subrange(mid + 8 + 4 * j, mid + 12 + 4 * j)),
                        ),
                    ),
                )
            }
        }
    }
}

/// Each string as the number of its UTF-8 bytes and then the bytes.
pub open spec fn string_bytes(strings: Seq<Seq<char>>) -> Seq<Seq<u8>> {
    Seq::new(
        strings.len(),
        |i: int|
            le64(vstd::utf8::encode_utf8(strings[i]).len() as u64) + vstd::utf8::encode_utf8(
                strings[i],
            ),
    )
}

/// The encoding of a list of strings: their number, then each string.
#[verifier::opaque]
pub open spec fn strings_encoding(strings: Seq<Seq<char>>) -> Seq<u8> {
    le64(strings.len() as u64) + concat(string_bytes(strings))
}

/// Piece `i` of bytes cut into pieces of `w` bytes.
pub open spec fn piece(bytes: Seq<u8>, w: int, i: int) -> Seq<u8> {
    bytes.subrange(w * i, w * i + w)
}

/// Byte strings of one length, joined, can be cut into the pieces they were
/// joined from.
pub proof fn lemma_concat_pieces(parts: Seq<Seq<u8>>, w: int)
    requires
        w >= 0,
        forall|i: int| 0 <= i < parts.len() ==> (#[trigger] parts[i]).len() == w,
    ensures
        concat(parts).len() == w * parts.len(),
        forall|i: int| 0 <= i < parts.len() ==> #[trigger] piece(concat(parts), w, i) == parts[i],
    decreases parts.len(),
{
    if parts.len() > 0 {
        let n = parts.len() as int;
        let init = parts.drop_last();
        lemma_concat_pieces(init, w);
        assert(w * (n - 1) + w == w * n) by (nonlinear_arith);
        assert forall|i: int| 0 <= i < parts.len() implies #[trigger] piece(concat(parts), w, i)
            == parts[i] by {
            if i < n - 1 {
                assert(w * i + w <= w * (n - 1)) by (nonlinear_arith)
                    requires
                        0 <= i < n - 1,
                        w >= 0,
                ;
                assert(w * i >= 0) by (nonlinear_arith)
                    requires
                        0 <= i,
                        w >= 0,
                ;
                assert(piece(concat(parts), w, i) =~= piece(concat(init), w, i));
                assert(init[i] == parts[i]);
            } else {
                assert(piece(concat(parts), w, i) =~= parts.last());
            }
        }
    } else {
        assert(w * 0 == 0) by (nonlinear_arith);
    }
}

/// Eight little-endian bytes stand for the number they were made of.
pub proof fn lemma_le64_round_trip(x: u64)
    ensures
        le64(x).len() == 8,
        le64_value(le64(x)) == x,
{
    let x1 = x / 256;
    let x2 = x1 / 256;
    let x3 = x2 / 256;
    let x4 = x3 / 256;
    let x5 = x4 / 256;
    let x6 = x5 / 256;
    let x7 = x6 / 256;
    assert(x == 256 * x1 + x % 256);
    assert(x1 == 256 * x2 + x1 % 256);
    assert(x2 == 256 * x3 + x2 % 256);
    assert(x3 == 256 * x4 + x3 % 256);
    assert(x4 == 256 * x5 + x4 % 256);
    assert(x5 == 256 * x6 + x5 % 256);
    assert(x6 == 256 * x7 + x6 % 256);
    assert(x7 < 256);
    let b = le64(x);
    assert(b[7] == x7);
    assert(b[6] + 256 * b[7] == x6);
    assert(b[5] + 256 * (b[6] + 256 * b[7]) == x5);
    assert(b[4] + 256 * (b[5] + 256 * (b[6] + 256 * b[7])) == x4);
    assert(b[3] + 256 * (b[4] + 256 * (b[5] + 256 * (b[6] + 256 * b[7]))) == x3);
    assert(b[2] + 256 * (b[3] + 256 * (b[4] + 256 * (b[5] + 256 * (b[6] + 256 * b[7])))) == x2);
    assert(b[1] + 256 * (b[2] + 256 * (b[3] + 256 * (b[4] + 256 * (b[5] + 256 * (b[6] + 256
        * b[7]))))) == x1);
}

/// Four little-endian bytes stand for the number they were made of.
pub proof fn lemma_le32_round_trip(x: u32)
    ensures
        le32(x).len() == 4,
        le32_value(le32(x)) == x,
{
    let x1 = x / 256;
    let x2 = x1 / 256;
    let x3 = x2 / 256;
    assert(x == 256 * x1 + x % 256);
    assert(x1 == 256 * x2 + x1 % 256);
    assert(x2 == 256 * x3 + x2 % 256);
    assert(x3 < 256);
    let b = le32(x);
    assert(b[3] == x3);
    assert(b[2] + 256 * b[3] == x2);
    assert(b[1] + 256 * (b[2] + 256 * b[3]) == x1);
}

/// Reading undoes writing: the encoding of signatures and signers decodes
/// to them, if each signature has the form of one.
pub proof fn law_sample_proof_round_trip(signatures: Seq<Seq<u8>>, signers: Seq<u32>)
    requires
        forall|i: int| 0 <= i < signatures.len() ==> well_formed_signature(#[trigger] signatures[i]),
        signatures.len() <= u64::MAX,
        signers.len() <= u64::MAX,
    ensures
        sample_proof_decoding(sample_proof_encoding(signatures, signers)) == Some(
            (signatures, signers),
        ),
{
    reveal(sample_proof_encoding);
    reveal(sample_proof_decoding);
    let n = signatures.len() as int;
    let m = signers.len() as int;
    let joined = concat(signatures);
    let ids = concat(signer_bytes(signers));
    let bytes = sample_proof_encoding(signatures, signers);
    lemma_concat_pieces(signatures, 64);
    lemma_concat_pieces(signer_bytes(signers), 4);
    lemma_le64_round_trip(n as u64);
    lemma_le64_round_trip(m as u64);
    let mid = 8 + 64 * n;
    assert(bytes.len() == mid + 8 + 4 * m);
    assert(bytes.subrange(0, 8) =~= le64(n as u64));
    assert(bytes.subrange(mid, mid + 8) =~= le64(m as u64));
    let read = Seq::new(n as nat, |i: int| bytes.subrange(8 + 64 * i, 72 + 64 * i));
    assert(read =~= signatures) by {
        assert forall|i: int| 0 <= i < n implies read[i] == signatures[i] by {
            assert(bytes.subrange(8 + 64 * i, 72 + 64 * i) =~= piece(joined, 64, i));
        }
    }
    let ids_read = Seq::new(
        m as nat,
        |j: int| le32_value(bytes.subrange(mid + 8 + 4 * j, mid + 12 + 4 * j)),
    );
    assert(ids_read =~= signers) by {
        assert forall|j: int| 0 <= j < m implies ids_read[j] == signers[j] by {
            assert(bytes.subrange(mid + 8 + 4 * j, mid + 12 + 4 * j) =~= piece(ids, 4, j));
            assert(piece(ids, 4, j) == signer_bytes(signers)[j]);
            lemma_le32_round_trip(signers[j]);
        }
    }
}

/// Calls `bincode::serialize` on the pair of a list of
/// `ed25519_dalek::Signature` and the list of signers. Trusted: the bytes
/// are the encoding of the two lists.
#[verifier::external_body]
pub(crate) fn encode_sample_proof(signatures: &Vec<Vec<u8>>, signers: &Vec<NodeId>) -> (out: Vec<u8>)
    requires
        forall|i: int| 0 <= i < signatures@.len() ==> well_formed_signature(#[trigger] signatures@[i]@),
    ensures
        out@ == sample_proof_encoding(views(signatures@), signers@),
{
    let sigs: Vec<Signature> = signatures.iter().map(|s| Signature::from_bytes(s).unwrap()).collect();
    bincode::serialize(&(sigs, signers)).unwrap_or_default()
}

/// Calls `bincode::deserialize` for the pair of a list of
/// `ed25519_dalek::Signature` and a list of signers. Trusted: the two lists
/// are read iff the bytes encode them, and are then what the bytes encode.
#[verifier::external_body]
pub(crate) fn decode_sample_proof(bytes: &[u8]) -> (out: Option<(Vec<Vec<u8>>, Vec<NodeId>)>)
    ensures
        match out {
            Some((signatures, signers)) => sample_proof_decoding(bytes@) == Some(
                (views(signatures@), signers@),
            ),
            None => sample_proof_decoding(bytes@) is None,
        },
{
    match bincode::deserialize::<(Vec<Signature>, Vec<NodeId>)>(bytes) {
        Ok((sigs, signers)) => Some((sigs.iter().map(|s| s.to_bytes().to_vec()).collect(), signers)),
        Err(_) => None,
    }
}

/// Calls `bincode::serialize` on a list of strings. Trusted: the bytes are
/// the encoding of the strings.
#[verifier::external_body]
pub(crate) fn encode_strings(strings: &Vec<String>) -> (out: Vec<u8>)
    ensures
        out@ == strings_encoding(Seq::new(strings@.len(), |i: int| strings@[i]@)),
{
    bincode::serialize(strings).unwrap_or_default()
}

/// Calls `bincode::serialize` on a string and takes the length of what it
/// gives. Trusted: a string is written as its length in eight bytes and then
/// its bytes, one for each character of an ASCII string.
#[verifier::external_body]
pub(crate) fn encoded_string_len(s: &String) -> (len: usize)
    requires
        s.is_ascii(),
        8 + s@.len() <= usize::MAX,
    ensures
        len == 8 + s@.len(),
{
    bincode::serialize(s).map(|bytes| bytes.len()).unwrap_or(0)
}

} // verus!
