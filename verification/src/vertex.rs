//! The vertex: one proposal in one round by one source.

use vstd::prelude::*;
use crate::bytes::{
    be32, be64, bytes_eq, copy_bytes, copy_list, push_be32, push_be64, push_bytes, views,
    zero_bytes, zeros,
};
use crate::crypto::{sha256, sha256_digest};

verus! {

pub type NodeId = u32;

pub type VertexHash = Vec<u8>;

/// One proposal in one round by one source.
#[derive(Debug, PartialEq, Eq, Hash)]
pub struct Vertex {
    /// The content hash; see [`Vertex::calculate_hash`].
    pub hash: VertexHash,
    pub round: u64,
    /// The node that authored the vertex.
    pub source: NodeId,
    /// Opaque application payload.
    pub block: Vec<u8>,
    /// Hashes of the parents, all of the previous round.
    pub edges: Vec<VertexHash>,
    /// The source's signature over the round number; empty in dense mode.
    pub signed_round: Vec<u8>,
    /// An encoded sample proof; empty in dense mode.
    pub sample_proof: Vec<u8>,
}

/// What a vertex holds, as mathematical values.
pub ghost struct VertexView {
    pub hash: Seq<u8>,
    pub round: u64,
    pub source: u32,
    pub block: Seq<u8>,
    pub edges: Seq<Seq<u8>>,
    pub signed_round: Seq<u8>,
    pub sample_proof: Seq<u8>,
}

impl View for Vertex {
    type V = VertexView;

    open spec fn view(&self) -> VertexView {
        VertexView {
            hash: self.hash@,
            round: self.round,
            source: self.source,
            block: self.block@,
            edges: views(self.edges@),
            signed_round: self.signed_round@,
            sample_proof: self.sample_proof@,
        }
    }
}

/// The hash of the genesis vertex: 32 zero bytes.
pub open spec fn genesis_hash() -> Seq<u8> {
    zeros(32)
}

/// The genesis vertex, the only vertex of round 0.
pub open spec fn genesis_view() -> VertexView {
    VertexView {
        hash: genesis_hash(),
        round: 0,
        source: 0,
        block: Seq::empty(),
        edges: Seq::empty(),
        signed_round: Seq::empty(),
        sample_proof: Seq::empty(),
    }
}

/// All byte strings of `parts`, one after the other.
pub open spec fn concat(parts: Seq<Seq<u8>>) -> Seq<u8>
    decreases parts.len(),
{
    if parts.len() == 0 {
        Seq::empty()
    } else {
        concat(parts.drop_last()) + parts.last()
    }
}

/// The bytes that a vertex's hash is taken over: round, source, block, the
/// parent hashes in order, round signature and sample proof.
pub open spec fn hash_preimage(v: VertexView) -> Seq<u8> {
    be64(v.round) + be32(v.source) + v.block + concat(v.edges) + v.signed_round + v.sample_proof
}

/// The content hash that a vertex with these fields must carry.
pub open spec fn content_hash(v: VertexView) -> Seq<u8> {
    sha256_digest(hash_preimage(v))
}

impl Vertex {
    /// The genesis vertex.
    pub fn genesis() -> (g: Vertex)
        ensures
            g@ == genesis_view(),
    {
        let g = Vertex {
            hash: zero_bytes(32),
            round: 0,
            source: 0,
            block: Vec::new(),
            edges: Vec::new(),
            signed_round: Vec::new(),
            sample_proof: Vec::new(),
        };
        assert(views(g.edges@) =~= Seq::<Seq<u8>>::empty());
        g
    }

    /// SHA-256 over round, source, block, parent hashes, round signature and
    /// sample proof, in that order. It reads every field but `hash`.
    pub fn calculate_hash(&self) -> (h: VertexHash)
        ensures
            h@ == content_hash(self@),
            h@.len() == 32,
    {
        let mut buf: Vec<u8> = Vec::new();
        push_be64(&mut buf, self.round);
        push_be32(&mut buf, self.source);
        push_bytes(&mut buf, &self.block);
        let ghost head = buf@;
        let mut i: usize = 0;
        while i < self.edges.len()
            invariant
                i <= self.edges.len(),
                buf@ == head + concat(views(self.edges@).subrange(0, i as int)),
            decreases self.edges.len() - i,
        {
            push_bytes(&mut buf, &self.edges[i]);
            proof {
                let next = views(self.edges@).subrange(0, i + 1);
                assert(next.drop_last() =~= views(self.edges@).subrange(0, i as int));
                assert(next.last() == self.edges[i as int]@);
            }
            i += 1;
        }
        assert(views(self.edges@).subrange(0, i as int) =~= views(self.edges@));
        push_bytes(&mut buf, &self.signed_round);
        push_bytes(&mut buf, &self.sample_proof);
        assert(buf@ =~= hash_preimage(self@));
        sha256(&buf)
    }

    /// Whether the vertex carries its own content hash.
    pub fn hash_is_valid(&self) -> (ok: bool)
        ensures
            ok == (self@.hash == content_hash(self@)),
    {
        let h = self.calculate_hash();
        bytes_eq(&self.hash, &h)
    }

    /// A fresh copy of the vertex.
    pub fn duplicate(&self) -> (v: Vertex)
        ensures
            v@ == self@,
    {
        Vertex {
            hash: copy_bytes(&self.hash),
            round: self.round,
            source: self.source,
            block: copy_bytes(&self.block),
            edges: copy_list(&self.edges),
            signed_round: copy_bytes(&self.signed_round),
            sample_proof: copy_bytes(&self.sample_proof),
        }
    }
}

impl Clone for Vertex {
    fn clone(&self) -> (v: Vertex)
        ensures
            v@ == self@,
    {
        self.duplicate()
    }
}

} // verus!
