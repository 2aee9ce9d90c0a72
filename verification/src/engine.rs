//! The round engine's state, and the rules it applies to one vertex:
//! anchors, the may-advance rule, validation and vertex creation.

use std::collections::HashMap;
use vstd::prelude::*;
use vstd::std_specs::hash::group_hash_axioms;
use crate::bytes::{be64, bytes_eq, contains_bytes, copy_bytes, push_be64, views, zero_bytes};
use crate::codec::sample_proof_encoding;
use crate::crypto::{
    batch_verifies, ed25519_signature, ed25519_verifies, sha256, sha256_digest, verify_signature,
};
use crate::dag::{vertex_views, DAG};
use crate::environment::Environment;
use crate::message::VertexMessage;
use crate::multisig::{
    aggregate, batch_to_verify, decoded_proof, is_batch_of, keys_view, proof_admissible, sign_round,
    signature_is_well_formed, well_formed_signature, Batch, PrivateKey,
};
use crate::random::{copy_vertices, random_sample, sample_of};
use crate::rbc::Rbc;
use crate::reach::hashes_of;
use crate::rules::{
    anchor_of, find_by_source, has_genesis, has_parents, lemma_anchor_stored, parents_resolve,
    parents_stored,
};
use crate::transaction::{block_of, padding_for, TransactionGenerator};
use crate::vertex::{content_hash, genesis_hash, genesis_view, NodeId, Vertex, VertexHash, VertexView};

verus! {

broadcast use group_hash_axioms;

/// How vertices link to the round before and how they are disseminated.
#[derive(Clone, Copy, Debug)]
pub enum Mode {
    /// Every vertex links to every vertex of the round before, and vertices
    /// go through reliable broadcast.
    Dense,
    /// Every vertex links to `d` sampled vertices of the round before, and
    /// to the anchor.
    Sparse { d: usize },
}

/// A node's consensus state.
pub struct Engine {
    pub environment: Environment,
    pub dag: DAG,
    /// The number of faulty nodes tolerated: a third of the other nodes.
    pub f: usize,
    pub mode: Mode,
    /// The public key bytes of each node.
    pub public_keys: HashMap<NodeId, Vec<u8>>,
    pub private_key: PrivateKey,
    pub transaction_generator: TransactionGenerator,
    /// The round that this node creates its next vertex for.
    pub round: u64,
    pub last_ordered_round: u64,
    /// Anchors committed and not ordered yet, the latest on top.
    pub ordered_anchors_stack: Vec<Vertex>,
    pub finalized_block_count: usize,
    /// Vertices that wait for their parents, with their senders: for each
    /// round those buffered under it, in the order they came.
    pub pending_vertices: HashMap<u64, Vec<(NodeId, VertexMessage)>>,
    /// The hashes of the finalized vertices, in the order of finalization.
    pub already_ordered: Vec<VertexHash>,
    pub rbc: Rbc,
}

/// The round signatures of the candidates that have the form of a
/// signature, in the candidates' order.
pub open spec fn round_signatures(candidates: Seq<VertexView>) -> Seq<Seq<u8>>
    decreases candidates.len(),
{
    if candidates.len() == 0 {
        Seq::empty()
    } else {
        let rest = round_signatures(candidates.drop_last());
        if well_formed_signature(candidates.last().signed_round) {
            rest.push(candidates.last().signed_round)
        } else {
            rest
        }
    }
}

/// The sources of the candidates whose round signature has the form of a
/// signature, in the candidates' order: the signer of each of
/// `round_signatures`.
pub open spec fn round_signers(candidates: Seq<VertexView>) -> Seq<u32>
    decreases candidates.len(),
{
    if candidates.len() == 0 {
        Seq::empty()
    } else {
        let rest = round_signers(candidates.drop_last());
        if well_formed_signature(candidates.last().signed_round) {
            rest.push(candidates.last().source)
        } else {
            rest
        }
    }
}

/// The sample proof that a vertex with these candidates as parents carries.
pub open spec fn proof_of(candidates: Seq<VertexView>) -> Seq<u8> {
    sample_proof_encoding(round_signatures(candidates), round_signers(candidates))
}

/// The chosen parents' hashes, followed by the anchor's unless it is among
/// them.
pub open spec fn with_anchor(chosen: Seq<Seq<u8>>, anchor: Option<VertexView>) -> Seq<Seq<u8>> {
    match anchor {
        Some(a) => if chosen.contains(a.hash) {
            chosen
        } else {
            chosen.push(a.hash)
        },
        None => chosen,
    }
}

impl Engine {
    /// The number of configured nodes.
    pub open spec fn n(&self) -> nat {
        self.environment.nodes@.len()
    }

    /// The hashes of the finalized vertices, in the order of finalization.
    pub open spec fn ordered(&self) -> Seq<Seq<u8>> {
        views(self.already_ordered@)
    }

    /// Whether every round that the node has left, but round 1, was left
    /// with `2f + 1` vertices stored in the round before.
    pub open spec fn rounds_justified(&self) -> bool {
        forall|p: u64|
            1 <= p && p + 1 < self.round ==> (#[trigger] self.dag.round_or_empty(p)).len() >= 2
                * self.f + 1
    }

    /// What every operation keeps true: the store is well formed, begins
    /// with genesis and holds the parents of every vertex; every round left
    /// was left on a quorum; no hash is finalized twice; in sparse mode no
    /// stored vertex has more than `d + 2` parents.
    pub open spec fn wf(&self) -> bool {
        &&& self.dag.wf()
        &&& has_genesis(self.dag)
        &&& parents_resolve(self.dag)
        &&& self.n() > 0
        &&& self.f == (self.n() - 1) / 3
        &&& self.round >= 1
        &&& self.rounds_justified()
        &&& self.ordered().no_duplicates()
        &&& self.finalized_block_count == self.already_ordered@.len()
        &&& self.rbc.wf()
        &&& (self.mode matches Mode::Sparse { d } ==> forall|i: int|
            0 <= i < self.dag.log().len() ==> (#[trigger] self.dag.log()[i]).edges.len() <= d + 2)
    }

    /// Every stored vertex but genesis carries its content hash.
    pub open spec fn hashes_hold(&self) -> bool {
        forall|i: int|
            0 <= i < self.dag.log().len() ==> (#[trigger] self.dag.log()[i]) == genesis_view()
                || self.dag.log()[i].hash == content_hash(self.dag.log()[i])
    }

    /// The anchor of round `r`.
    pub open spec fn anchor(&self, r: u64) -> Option<VertexView> {
        anchor_of(self.dag, r, self.n())
    }

    /// The may-advance rule: always in round 1; later, once the round before
    /// holds `2f + 1` vertices. (The last round a `u64` can name is never
    /// left.)
    pub open spec fn may_advance(&self) -> bool {
        &&& self.round < u64::MAX
        &&& (self.round == 1 || self.dag.round_or_empty((self.round - 1) as u64).len() >= 2 * self.f
            + 1)
    }

    /// Whether the public key of `source` verifies the vertex's round
    /// signature over its round number.
    pub open spec fn round_signature_holds(&self, v: VertexView, source: u32) -> bool {
        &&& keys_view(self.public_keys).contains_key(source)
        &&& ed25519_verifies(keys_view(self.public_keys)[source], be64(v.round), v.signed_round)
    }

    /// The validation rule for a vertex `v` that `source` sent for `round`,
    /// given the verdict `proof_ok` on its sample proof.
    ///
    /// A vertex of round 1 is valid iff its one parent is genesis, it carries
    /// its content hash and, in sparse mode, the sender's key verifies its
    /// round signature. Any other vertex is valid iff it names this sender
    /// and round, in sparse mode has at most `d + 2` parents and a proof that
    /// holds, has its parents stored, and carries its content hash.
    pub open spec fn valid_given(&self, v: VertexView, round: u64, source: u32, proof_ok: bool) -> bool {
        if v.round == 1 {
            &&& v.edges == seq![genesis_hash()]
            &&& v.hash == content_hash(v)
            &&& (self.mode is Sparse ==> self.round_signature_holds(v, source))
        } else {
            &&& v.source == source
            &&& v.round == round
            &&& (self.mode matches Mode::Sparse { d } ==> v.edges.len() <= d + 2 && proof_ok)
            &&& has_parents(self.dag, v)
            &&& v.hash == content_hash(v)
        }
    }

    /// The parents of a new vertex of `round`: in dense mode every vertex of
    /// the round before, in sparse mode a sample of them seeded by the digest
    /// of the sample proof; then the anchor of the round before.
    pub open spec fn new_edges(&self, round: u64) -> Seq<Seq<u8>> {
        let candidates = self.dag.round_or_empty((round - 1) as u64);
        let chosen = match self.mode {
            Mode::Dense => candidates,
            Mode::Sparse { d } => sample_of(candidates, d as nat, sha256_digest(proof_of(candidates))),
        };
        with_anchor(hashes_of(chosen), self.anchor((round - 1) as u64))
    }

    /// The vertex that this node creates for `round`.
    pub open spec fn new_vertex(&self, round: u64) -> VertexView {
        let candidates = self.dag.round_or_empty((round - 1) as u64);
        let body = VertexView {
            hash: Seq::empty(),
            round,
            source: self.environment.my_node.id,
            block: block_of(
                self.transaction_generator.padding as nat,
                self.transaction_generator.transactions_per_block as nat,
            ),
            edges: self.new_edges(round),
            signed_round: match self.mode {
                Mode::Dense => Seq::empty(),
                Mode::Sparse { .. } => ed25519_signature(self.private_key@, be64(round)),
            },
            sample_proof: match self.mode {
                Mode::Dense => Seq::empty(),
                Mode::Sparse { .. } => proof_of(candidates),
            },
        };
        VertexView { hash: content_hash(body), ..body }
    }

    /// A node at the start: round 1, nothing finalized, and a store that
    /// holds the genesis vertex alone.
    pub fn new(
        environment: Environment,
        public_keys: HashMap<NodeId, Vec<u8>>,
        private_key: PrivateKey,
        mode: Mode,
    ) -> (node: Engine)
        requires
            environment.nodes@.len() > 0,
        ensures
            node.wf(),
            node.hashes_hold(),
            node.environment == environment,
            node.public_keys == public_keys,
            node.private_key == private_key,
            node.mode == mode,
            node.round == 1,
            node.last_ordered_round == 0,
            node.ordered_anchors_stack@.len() == 0,
            node.pending_vertices@.len() == 0,
            node.already_ordered@.len() == 0,
            node.dag.log() == seq![genesis_view()],
            node.transaction_generator.padding == padding_for(
                environment.transaction_size as nat,
            ),
            node.transaction_generator.transactions_per_block == environment.n_transactions,
            forall|h: Seq<u8>| !node.rbc.delivered(h),
            forall|h: Seq<u8>| node.rbc.body(h) is None,
            forall|h: Seq<u8>| node.rbc.echo_counts.votes(h) == Seq::<u32>::empty(),
            forall|h: Seq<u8>| node.rbc.ready_counts.votes(h) == Seq::<u32>::empty(),
    {
        let n = environment.nodes.len();
        let f = (n - 1) / 3;
        let transaction_generator = TransactionGenerator::new(
            environment.transaction_size,
            environment.n_transactions,
        );
        let mut node = Engine {
            environment,
            dag: DAG::new(),
            f,
            mode,
            public_keys,
            private_key,
            transaction_generator,
            round: 1,
            last_ordered_round: 0,
            ordered_anchors_stack: Vec::new(),
            finalized_block_count: 0,
            pending_vertices: HashMap::new(),
            already_ordered: Vec::new(),
            rbc: Rbc::new(),
        };
        node.add_genesis_block();
        node
    }

    /// Stores the genesis vertex in an empty store.
    fn add_genesis_block(&mut self)
        requires
            old(self).dag.wf(),
            old(self).dag.log() == Seq::<VertexView>::empty(),
            forall|r: u64| old(self).dag.round_view(r) is None,
            old(self).n() > 0,
            old(self).f == (old(self).n() - 1) / 3,
            old(self).round == 1,
            old(self).already_ordered@.len() == 0,
            old(self).finalized_block_count == 0,
            old(self).rbc.wf(),
        ensures
            final(self).wf(),
            final(self).hashes_hold(),
            final(self).dag.log() == seq![genesis_view()],
            *final(self) == old(self).with_dag(final(self).dag),
    {
        let genesis_vertex = Vertex::genesis();
        self.dag.insert(genesis_vertex);
        proof {
            assert(self.dag.log() =~= seq![genesis_view()]);
            assert(old(self).dag.round_or_empty(0).push(genesis_view())[0] == genesis_view());
            assert(parents_resolve(self.dag));
        }
    }

    /// The anchor of round `r`: in an even round the first stored vertex of
    /// the round's leader, node `(r / 2) mod n`.
    pub fn get_anchor(&self, r: u64) -> (found: Option<&Vertex>)
        requires
            self.wf(),
        ensures
            match found {
                Some(a) => self.anchor(r) == Some(a@),
                None => self.anchor(r) is None,
            },
    {
        if r % 2 == 1 {
            return None;
        }
        let leader_id = (r / 2) % (self.environment.nodes.len() as u64);
        match self.dag.get_round(r) {
            Some(round_vertices) => find_by_source(round_vertices, leader_id),
            None => None,
        }
    }

    /// Whether the node may advance to the next round.
    pub fn may_advance_round(&self) -> (ok: bool)
        requires
            self.wf(),
        ensures
            ok == self.may_advance(),
    {
        if self.round == u64::MAX {
            return false;
        }
        if self.round == 1 {
            return true;
        }
        let n = self.environment.nodes.len();
        assert(self.f <= n / 3);
        let quorum_threshold = 2 * self.f + 1;
        let count = match self.dag.get_round(self.round - 1) {
            Some(list) => list.len(),
            None => 0,
        };
        count >= quorum_threshold
    }

    /// Applies the validation rule, given the verdict on the sample proof.
    pub fn validate_vertex_given(&self, v: &Vertex, round: u64, source: u32, proof_ok: bool) -> (ok:
        bool)
        requires
            self.wf(),
        ensures
            ok == self.valid_given(v@, round, source, proof_ok),
    {
        if v.round == 1 {
            let genesis = zero_bytes(32);
            if !(v.edges.len() == 1 && bytes_eq(&v.edges[0], &genesis) && v.hash_is_valid()) {
                assert(v@.edges == seq![genesis_hash()] ==> v@.edges[0] == genesis_hash());
                return false;
            }
            assert(v@.edges =~= seq![genesis_hash()]);
            match self.mode {
                Mode::Dense => true,
                Mode::Sparse { .. } => {
                    match self.public_keys.get(&source) {
                        Some(key) => {
                            let mut message: Vec<u8> = Vec::new();
                            push_be64(&mut message, v.round);
                            assert(message@ =~= be64(v.round));
                            verify_signature(key, &message, &v.signed_round)
                        },
                        None => false,
                    }
                },
            }
        } else {
            if v.source != source || v.round != round {
                return false;
            }
            match self.mode {
                Mode::Dense => {},
                Mode::Sparse { d } => {
                    if v.edges.len() >= 2 && v.edges.len() - 2 > d {
                        return false;
                    }
                    if !proof_ok {
                        return false;
                    }
                },
            }
            if !parents_stored(&self.dag, v) {
                return false;
            }
            v.hash_is_valid()
        }
    }

    /// The batch that the sample proof of `v` is verified in, if the proof
    /// is admissible: the signatures of the proof, each over the number of
    /// the round before the vertex's, each under the key that this node
    /// holds for its signer.
    pub fn proof_batch(&self, v: &Vertex) -> (batch: Option<Batch>)
        requires
            v@.round >= 1,
        ensures
            match batch {
                Some(b) => {
                    &&& proof_admissible(v@.sample_proof, keys_view(self.public_keys))
                    &&& is_batch_of(
                        b,
                        (v@.round - 1) as u64,
                        decoded_proof(v@.sample_proof).unwrap(),
                        keys_view(self.public_keys),
                    )
                },
                None => !proof_admissible(v@.sample_proof, keys_view(self.public_keys)),
            },
    {
        batch_to_verify(v.round - 1, v.sample_proof.as_slice(), &self.public_keys)
    }

    /// Validates a vertex `v` that `source` sent for `round`: applies the
    /// validation rule with the verdict on the sample proof.
    ///
    /// In sparse mode the sample proof of a vertex above round 1 goes, as
    /// `proof_batch` gives it, through a batch verification whose verdict is
    /// not a function of the proof; a proof that is not admissible does not
    /// hold. So the rule is pinned for dense mode and for round 1; for the
    /// rest, every accepted vertex meets the rule and carries an admissible
    /// proof, and `validate_vertex_given` says what follows from either
    /// verdict.
    pub fn validate_vertex(&self, v: &Vertex, round: u64, source: u32) -> (ok: bool)
        requires
            self.wf(),
        ensures
            ok ==> self.valid_given(v@, round, source, true),
            self.mode is Dense || v@.round == 1 ==> ok == self.valid_given(v@, round, source, true),
            !self.valid_given(v@, round, source, true) ==> !ok,
            ok && self.mode is Sparse && v@.round != 1 ==> proof_admissible(
                v@.sample_proof,
                keys_view(self.public_keys),
            ),
    {
        let proof_ok = match self.mode {
            Mode::Dense => true,
            Mode::Sparse { .. } => {
                if v.round <= 1 {
                    true
                } else {
                    match self.proof_batch(v) {
                        Some(batch) => batch_verifies(&batch.messages, &batch.signatures, &batch.keys),
                        None => false,
                    }
                }
            },
        };
        self.validate_vertex_given(v, round, source, proof_ok)
    }

    /// Creates this node's vertex for `round`: its parents chosen from the
    /// round before by the rule of the mode, a fresh block, in sparse mode
    /// the round signature and the sample proof, and the content hash over
    /// all of it.
    pub fn create_new_vertex(&mut self, round: u64) -> (v: Vertex)
        requires
            old(self).wf(),
            round >= 1,
        ensures
            *final(self) == *old(self),
            v@ == old(self).new_vertex(round),
            v@.hash == content_hash(v@),
            old(self).dag.round_view((round - 1) as u64) is Some ==> has_parents(old(self).dag, v@),
            old(self).mode matches Mode::Sparse { d } ==> v@.edges.len() <= d + 1,
            old(self).mode matches Mode::Sparse { d } ==> v@.edges.len() <= old(
                self,
            ).dag.round_or_empty((round - 1) as u64).len() + 1,
            old(self).anchor((round - 1) as u64) matches Some(a) ==> v@.edges.contains(a.hash),
            hashes_of(old(self).dag.round_or_empty((round - 1) as u64)).no_duplicates()
                ==> v@.edges.no_duplicates(),
    {
        let candidates: Vec<Vertex> = match self.dag.get_round(round - 1) {
            Some(list) => copy_vertices(list.as_slice()),
            None => Vec::new(),
        };
        let ghost all = vertex_views(candidates@);
        assert(all =~= self.dag.round_or_empty((round - 1) as u64));
        let chosen: Vec<Vertex>;
        let signed_round: Vec<u8>;
        let sample_proof: Vec<u8>;
        match self.mode {
            Mode::Dense => {
                chosen = candidates;
                signed_round = Vec::new();
                sample_proof = Vec::new();
            },
            Mode::Sparse { d } => {
                let signatures = well_formed_round_signatures(&candidates);
                let signers = signers_of(&candidates);
                sample_proof = aggregate(signatures, signers);
                let seed = sha256(&sample_proof);
                chosen = random_sample(candidates.as_slice(), d, seed.as_slice());
                assert(seed@.subrange(0, 32) =~= seed@);
                signed_round = sign_round(round, &self.private_key);
            },
        }
        let mut edges_hashes = hashes_list(&chosen);
        let ghost picked = views(edges_hashes@);
        let ghost distinct = hashes_of(all).no_duplicates();
        assert(distinct ==> picked.no_duplicates());
        match self.get_anchor(round - 1) {
            Some(anchor) => {
                if !contains_bytes(&edges_hashes, &anchor.hash) {
                    edges_hashes.push(copy_bytes(&anchor.hash));
                    assert(views(edges_hashes@) =~= picked.push(anchor@.hash));
                    assert(distinct ==> picked.push(anchor@.hash).no_duplicates());
                    assert(views(edges_hashes@)[picked.len() as int] == anchor@.hash);
                }
                assert(views(edges_hashes@).contains(anchor@.hash));
            },
            None => {},
        }
        let block = self.transaction_generator.generate_block();
        let mut new_vertex = Vertex {
            hash: Vec::new(),
            round,
            source: self.environment.my_node.id,
            block,
            edges: edges_hashes,
            signed_round,
            sample_proof,
        };
        new_vertex.hash = new_vertex.calculate_hash();
        proof {
            let v = new_vertex@;
            let parent_round = (round - 1) as u64;
            lemma_anchor_stored(self.dag, parent_round, self.n());
            if old(self).dag.round_view(parent_round) is Some {
                assert forall|k: int| 0 <= k < v.edges.len() implies hashes_of(all).contains(
                    #[trigger] v.edges[k],
                ) by {
                    if k < picked.len() {
                        let c = vertex_views(chosen@)[k];
                        assert(all.contains(c));
                        let j = choose|j: int| 0 <= j < all.len() && all[j] == c;
                        assert(hashes_of(all)[j] == c.hash);
                    } else {
                        let a = self.anchor(parent_round).unwrap();
                        let j = choose|j: int| 0 <= j < all.len() && all[j] == a;
                        assert(hashes_of(all)[j] == a.hash);
                    }
                }
            }
        }
        new_vertex
    }
}

/// The hashes of a list of vertices.
pub fn hashes_list(list: &Vec<Vertex>) -> (out: Vec<VertexHash>)
    ensures
        views(out@) == hashes_of(vertex_views(list@)),
{
    let mut out: Vec<VertexHash> = Vec::new();
    let mut i: usize = 0;
    while i < list.len()
        invariant
            i <= list.len(),
            out@.len() == i,
            forall|j: int| 0 <= j < i ==> out@[j]@ == list@[j]@.hash,
        decreases list.len() - i,
    {
        out.push(copy_bytes(&list[i].hash));
        i += 1;
    }
    assert(views(out@) =~= hashes_of(vertex_views(list@)));
    out
}

/// The round signatures of the candidates that have the form of a
/// signature.
pub fn well_formed_round_signatures(candidates: &Vec<Vertex>) -> (out: Vec<Vec<u8>>)
    ensures
        views(out@) == round_signatures(vertex_views(candidates@)),
        forall|i: int| 0 <= i < out@.len() ==> well_formed_signature(#[trigger] out@[i]@),
{
    let ghost all = vertex_views(candidates@);
    let mut out: Vec<Vec<u8>> = Vec::new();
    let mut i: usize = 0;
    assert(views(out@) =~= round_signatures(all.subrange(0, 0)));
    while i < candidates.len()
        invariant
            i <= candidates.len(),
            all == vertex_views(candidates@),
            views(out@) == round_signatures(all.subrange(0, i as int)),
            forall|j: int| 0 <= j < out@.len() ==> well_formed_signature(#[trigger] out@[j]@),
        decreases candidates.len() - i,
    {
        let ghost before = views(out@);
        proof {
            let next = all.subrange(0, i + 1);
            assert(next.drop_last() =~= all.subrange(0, i as int));
            assert(next.last() == candidates@[i as int]@);
        }
        if signature_is_well_formed(&candidates[i].signed_round) {
            out.push(copy_bytes(&candidates[i].signed_round));
            assert(views(out@) =~= before.push(candidates@[i as int]@.signed_round));
        }
        i += 1;
    }
    assert(all.subrange(0, i as int) =~= all);
    out
}

/// The sources of the candidates whose round signature has the form of a
/// signature.
pub fn signers_of(candidates: &Vec<Vertex>) -> (out: Vec<NodeId>)
    ensures
        out@ == round_signers(vertex_views(candidates@)),
{
    let ghost all = vertex_views(candidates@);
    let mut out: Vec<NodeId> = Vec::new();
    let mut i: usize = 0;
    assert(out@ =~= round_signers(all.subrange(0, 0)));
    while i < candidates.len()
        invariant
            i <= candidates.len(),
            all == vertex_views(candidates@),
            out@ == round_signers(all.subrange(0, i as int)),
        decreases candidates.len() - i,
    {
        proof {
            let next = all.subrange(0, i + 1);
            assert(next.drop_last() =~= all.subrange(0, i as int));
            assert(next.last() == candidates@[i as int]@);
        }
        if signature_is_well_formed(&candidates[i].signed_round) {
            out.push(candidates[i].source);
        }
        i += 1;
    }
    assert(all.subrange(0, i as int) =~= all);
    out
}

} // verus!
