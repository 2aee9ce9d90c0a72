//! A verifiable sample of node ids: the sample is seeded by a signature,
//! which proves that the sampler did not choose it.

use std::collections::HashSet;
use vstd::prelude::*;
use vstd::seq_lib::to_multiset_contains;
use vstd::std_specs::hash::group_hash_axioms;
use vstd::string::StringSliceAdditionalSpecFns;
use crate::bytes::push_slice;
use crate::crypto::{
    ed25519_signature, ed25519_verifies, sha256, sha256_digest, shuffle_ids, std_rng_shuffle,
    verify_signature,
};
use crate::dag::contains_source;
use crate::multisig::{well_formed_signature, PrivateKey};

verus! {

broadcast use group_hash_axioms;

/// The ids below `s` but the leader's, ascending.
pub open spec fn ids_without(s: nat, leader_id: u32) -> Seq<u32>
    decreases s,
{
    if s == 0 {
        Seq::empty()
    } else {
        let rest = ids_without((s - 1) as nat, leader_id);
        if (s - 1) as u32 != leader_id {
            rest.push((s - 1) as u32)
        } else {
            rest
        }
    }
}

/// The first `n` entries of a list, all of them if there are fewer.
pub open spec fn first_n(list: Seq<u32>, n: nat) -> Seq<u32> {
    if n < list.len() {
        list.subrange(0, n as int)
    } else {
        list
    }
}

/// The sample that a proof gives: the leader, and the first
/// `sample_size - 1` of the other ids below `s` in the order that a shuffle
/// seeded with the digest of the proof leaves them in.
pub open spec fn sample_members(s: u32, leader_id: u32, sample_size: nat, proof_bytes: Seq<u8>) -> Seq<u32> {
    first_n(
        std_rng_shuffle(ids_without(s as nat, leader_id), sha256_digest(proof_bytes)),
        (sample_size - 1) as nat,
    ).push(leader_id)
}

/// The ids below `s` but the leader's.
pub fn other_ids(s: u32, leader_id: u32) -> (ids: Vec<u32>)
    ensures
        ids@ == ids_without(s as nat, leader_id),
        ids@.no_duplicates(),
        forall|i: int| 0 <= i < ids@.len() ==> #[trigger] ids@[i] < s && ids@[i] != leader_id,
{
    let mut ids: Vec<u32> = Vec::new();
    let mut i: u32 = 0;
    while i < s
        invariant
            i <= s,
            ids@ == ids_without(i as nat, leader_id),
            ids@.no_duplicates(),
            forall|j: int| 0 <= j < ids@.len() ==> #[trigger] ids@[j] < i && ids@[j] != leader_id,
        decreases s - i,
    {
        if i != leader_id {
            ids.push(i);
        }
        i += 1;
    }
    ids
}

/// The sample that an order of the other ids gives: the leader, and before
/// it the first `sample_size - 1` ids of the order.
pub fn members_in_order(shuffled: Vec<u32>, sample_size: usize, leader_id: u32) -> (out: Vec<u32>)
    requires
        sample_size >= 1,
    ensures
        out@ == first_n(shuffled@, (sample_size - 1) as nat).push(leader_id),
{
    let mut sample = shuffled;
    if sample_size - 1 < sample.len() {
        sample.truncate(sample_size - 1);
    }
    sample.push(leader_id);
    sample
}

/// Whether `id` may stand in a sample of the ids below `s` that
/// `leader_id` draws: it is the leader's, or another id below `s`.
pub open spec fn may_be_member(id: u32, s: u32, leader_id: u32) -> bool {
    id == leader_id || id < s
}

/// The members of the sample that `proof_bytes` gives: at most
/// `sample_size` ids, the leader's last, every other one an id below `s`
/// that is not the leader's.
pub fn members(s: u32, leader_id: u32, sample_size: usize, proof_bytes: &Vec<u8>) -> (out: Vec<u32>)
    requires
        sample_size >= 1,
    ensures
        out@ == sample_members(s, leader_id, sample_size as nat, proof_bytes@),
        1 <= out@.len() <= sample_size,
        out@.last() == leader_id,
        forall|i: int| 0 <= i < out@.len() - 1 ==> (#[trigger] out@[i]) < s && out@[i] != leader_id,
        forall|i: int| 0 <= i < out@.len() ==> may_be_member(#[trigger] out@[i], s, leader_id),
{
    let possible_ids = other_ids(s, leader_id);
    let ghost ids = possible_ids@;
    let hash_output = sha256(proof_bytes);
    assert(hash_output@.subrange(0, 32) =~= hash_output@);
    let shuffled = shuffle_ids(possible_ids, hash_output.as_slice());
    let ghost order = shuffled@;
    proof {
        assert forall|i: int| 0 <= i < order.len() implies (#[trigger] order[i]) < s && order[i]
            != leader_id by {
            let x = order[i];
            assert(order.contains(x));
            to_multiset_contains(order, x);
            to_multiset_contains(ids, x);
            let j = choose|j: int| 0 <= j < ids.len() && ids[j] == x;
            assert(ids[j] < s && ids[j] != leader_id);
        }
    }
    let out = members_in_order(shuffled, sample_size, leader_id);
    proof {
        assert forall|i: int| 0 <= i < out@.len() - 1 implies (#[trigger] out@[i]) < s && out@[i]
            != leader_id by {
            assert(out@[i] == order[i]);
        }
    }
    out
}

/// Draws the sample of this node as leader: signs the seed, and samples
/// `sample_size - 1` of the other ids below `s` with the signature as the
/// source of randomness. Gives the sample, the leader in it, and the
/// signature as its proof.
pub fn vrf_prove(private_key: &PrivateKey, seed: &str, sample_size: usize, s: u32, leader_id: u32) -> (out:
    (HashSet<u32>, Vec<u8>))
    requires
        sample_size >= 1,
    ensures
        out.1@ == ed25519_signature(private_key@, seed.spec_bytes()),
        out.0@ == sample_members(s, leader_id, sample_size as nat, out.1@).to_set(),
        out.0@.contains(leader_id),
        forall|id: u32| out.0@.contains(id) ==> may_be_member(id, s, leader_id),
{
    let mut message: Vec<u8> = Vec::new();
    push_slice(&mut message, seed.as_bytes());
    assert(message@ =~= seed.spec_bytes());
    let signature = private_key.sign(&message);
    let list = members(s, leader_id, sample_size, &signature);
    let mut sample_set: HashSet<u32> = HashSet::new();
    let mut i: usize = 0;
    assert(sample_set@ =~= list@.subrange(0, 0).to_set());
    while i < list.len()
        invariant
            i <= list.len(),
            sample_set@ == list@.subrange(0, i as int).to_set(),
        decreases list.len() - i,
    {
        let ghost before = list@.subrange(0, i as int);
        sample_set.insert(list[i]);
        proof {
            let after = list@.subrange(0, i + 1);
            assert(after =~= before.push(list@[i as int]));
            before.lemma_push_to_set_commute(list@[i as int]);
        }
        i += 1;
    }
    proof {
        assert(list@.subrange(0, i as int) =~= list@);
        assert(list@.contains(list@[list@.len() - 1]));
        assert forall|id: u32| sample_set@.contains(id) implies may_be_member(id, s, leader_id) by {
            let k = choose|k: int| 0 <= k < list@.len() && list@[k] == id;
            assert(may_be_member(list@[k], s, leader_id));
        }
    }
    (sample_set, signature)
}

/// Whether every entry of `a` is one of `b`.
fn all_within(a: &Vec<u32>, b: &Vec<u32>) -> (ok: bool)
    ensures
        ok == a@.to_set().subset_of(b@.to_set()),
{
    let mut i: usize = 0;
    while i < a.len()
        invariant
            i <= a.len(),
            forall|j: int| 0 <= j < i ==> b@.contains(#[trigger] a@[j]),
        decreases a.len() - i,
    {
        if !contains_source(b.as_slice(), a[i]) {
            assert(a@.to_set().contains(a@[i as int])) by {
                assert(a@.contains(a@[i as int]));
            }
            return false;
        }
        i += 1;
    }
    assert forall|x: u32| a@.to_set().contains(x) implies b@.to_set().contains(x) by {
        let j = choose|j: int| 0 <= j < a@.len() && a@[j] == x;
        assert(b@.contains(a@[j]));
    }
    true
}

/// Checks a sample against its proof: the proof must be the signature of
/// `public_key` on the seed, and the sample must hold exactly the ids that
/// the proof gives.
pub fn vrf_verify(
    public_key: &Vec<u8>,
    seed: &str,
    sample_size: usize,
    s: u32,
    leader_id: u32,
    sample_set: &Vec<u32>,
    proof_bytes: &Vec<u8>,
) -> (ok: bool)
    requires
        sample_size >= 1,
        well_formed_signature(proof_bytes@),
    ensures
        ok == (ed25519_verifies(public_key@, seed.spec_bytes(), proof_bytes@) && sample_set@.to_set()
            == sample_members(s, leader_id, sample_size as nat, proof_bytes@).to_set()),
        ok ==> forall|i: int|
            0 <= i < sample_set@.len() ==> may_be_member(#[trigger] sample_set@[i], s, leader_id),
{
    let mut message: Vec<u8> = Vec::new();
    push_slice(&mut message, seed.as_bytes());
    assert(message@ =~= seed.spec_bytes());
    if !verify_signature(public_key, &message, proof_bytes) {
        return false;
    }
    let expected = members(s, leader_id, sample_size, proof_bytes);
    let ok = all_within(sample_set, &expected) && all_within(&expected, sample_set);
    proof {
        if ok {
            assert(sample_set@.to_set() =~= expected@.to_set());
            assert forall|i: int| 0 <= i < sample_set@.len() implies may_be_member(
                #[trigger] sample_set@[i],
                s,
                leader_id,
            ) by {
                assert(sample_set@.to_set().contains(sample_set@[i])) by {
                    assert(sample_set@.contains(sample_set@[i]));
                }
                assert(expected@.contains(sample_set@[i]));
                let k = choose|k: int| 0 <= k < expected@.len() && expected@[k] == sample_set@[i];
                assert(may_be_member(expected@[k], s, leader_id));
            }
        }
    }
    ok
}

} // verus!
