//! The state of reliable broadcast: votes, bodies and deliveries per vertex
//! hash.

use vstd::prelude::*;
use crate::bytes::{bytes_eq, contains_bytes, copy_bytes, views};
use crate::dag::{contains_source, vertex_views};
use crate::reach::hashes_of;
use crate::vertex::{NodeId, Vertex, VertexHash, VertexView};

verus! {

/// The index of `h` in `hashes`, if it occurs.
pub fn position_of(hashes: &Vec<VertexHash>, h: &VertexHash) -> (at: Option<usize>)
    ensures
        match at {
            Some(i) => i < hashes@.len() && views(hashes@)[i as int] == h@,
            None => !views(hashes@).contains(h@),
        },
{
    let mut i: usize = 0;
    while i < hashes.len()
        invariant
            i <= hashes.len(),
            forall|j: int| 0 <= j < i ==> views(hashes@)[j] != h@,
        decreases hashes.len() - i,
    {
        if bytes_eq(&hashes[i], h) {
            return Some(i);
        }
        i += 1;
    }
    None
}

/// For each vertex hash, the nodes that voted for it.
pub struct VoteTable {
    /// The hashes that have votes, none twice.
    pub hashes: Vec<VertexHash>,
    /// For the hash at the same index, its voters, none twice.
    pub senders: Vec<Vec<NodeId>>,
}

impl VoteTable {
    /// No hash and no voter stands twice.
    pub open spec fn wf(&self) -> bool {
        &&& self.hashes@.len() == self.senders@.len()
        &&& views(self.hashes@).no_duplicates()
        &&& forall|i: int| 0 <= i < self.senders@.len() ==> (#[trigger] self.senders@[i])@.no_duplicates()
    }

    /// The voters for `h`, in the order their votes came.
    pub open spec fn votes(&self, h: Seq<u8>) -> Seq<u32> {
        if views(self.hashes@).contains(h) {
            self.senders@[views(self.hashes@).index_of(h)]@
        } else {
            Seq::empty()
        }
    }

    /// A table without votes.
    pub fn new() -> (table: VoteTable)
        ensures
            table.wf(),
            forall|h: Seq<u8>| table.votes(h) == Seq::<u32>::empty(),
    {
        VoteTable { hashes: Vec::new(), senders: Vec::new() }
    }

    proof fn lemma_votes_at(&self, i: int)
        requires
            self.wf(),
            0 <= i < self.hashes@.len(),
        ensures
            self.votes(self.hashes@[i]@) == self.senders@[i]@,
    {
        let h = views(self.hashes@)[i];
        assert(views(self.hashes@).contains(h));
        let j = views(self.hashes@).index_of(h);
        assert(i == j);
    }

    /// Whether `sender` has voted for `h`.
    pub fn has_vote(&self, h: &VertexHash, sender: NodeId) -> (voted: bool)
        requires
            self.wf(),
        ensures
            voted == self.votes(h@).contains(sender),
    {
        match position_of(&self.hashes, h) {
            Some(i) => {
                proof {
                    self.lemma_votes_at(i as int);
                }
                contains_source(self.senders[i].as_slice(), sender)
            },
            None => false,
        }
    }

    /// The number of voters for `h`.
    pub fn count(&self, h: &VertexHash) -> (n: usize)
        requires
            self.wf(),
        ensures
            n == self.votes(h@).len(),
    {
        match position_of(&self.hashes, h) {
            Some(i) => {
                proof {
                    self.lemma_votes_at(i as int);
                }
                self.senders[i].len()
            },
            None => 0,
        }
    }

    /// Records the vote of `sender` for `h`, once, and gives the number of
    /// voters for `h` after that.
    pub fn add_vote(&mut self, h: &VertexHash, sender: NodeId) -> (n: usize)
        requires
            old(self).wf(),
        ensures
            final(self).wf(),
            final(self).votes(h@) == if old(self).votes(h@).contains(sender) {
                old(self).votes(h@)
            } else {
                old(self).votes(h@).push(sender)
            },
            forall|g: Seq<u8>| g != h@ ==> final(self).votes(g) == old(self).votes(g),
            n == final(self).votes(h@).len(),
    {
        match position_of(&self.hashes, h) {
            Some(i) => {
                proof {
                    self.lemma_votes_at(i as int);
                }
                let seen = contains_source(self.senders[i].as_slice(), sender);
                if !seen {
                    let mut list: Vec<NodeId> = Vec::new();
                    std::mem::swap(&mut list, &mut self.senders[i]);
                    list.push(sender);
                    self.senders[i] = list;
                }
                proof {
                    assert(views(self.hashes@) == views(old(self).hashes@));
                    self.lemma_votes_at(i as int);
                    assert forall|g: Seq<u8>| g != h@ implies self.votes(g) == old(self).votes(
                        g,
                    ) by {
                        if views(self.hashes@).contains(g) {
                            let j = views(self.hashes@).index_of(g);
                            assert(j != i);
                        }
                    }
                }
                self.senders[i].len()
            },
            None => {
                let mut list: Vec<NodeId> = Vec::new();
                list.push(sender);
                self.hashes.push(copy_bytes(h));
                self.senders.push(list);
                proof {
                    let n = old(self).hashes@.len() as int;
                    assert(views(self.hashes@) =~= views(old(self).hashes@).push(h@));
                    self.lemma_votes_at(n);
                    assert(old(self).votes(h@).push(sender) =~= seq![sender]);
                    assert forall|g: Seq<u8>| g != h@ implies self.votes(g) == old(self).votes(
                        g,
                    ) by {
                        if views(old(self).hashes@).contains(g) {
                            let j = views(old(self).hashes@).index_of(g);
                            assert(views(self.hashes@)[j] == g);
                            self.lemma_votes_at(j);
                        } else if views(self.hashes@).contains(g) {
                            let j = views(self.hashes@).index_of(g);
                            assert(views(old(self).hashes@)[j] == g);
                        }
                    }
                }
                1
            },
        }
    }

    /// Forgets the votes for `h`.
    pub fn remove(&mut self, h: &VertexHash)
        requires
            old(self).wf(),
        ensures
            final(self).wf(),
            final(self).votes(h@) == Seq::<u32>::empty(),
            forall|g: Seq<u8>| g != h@ ==> final(self).votes(g) == old(self).votes(g),
    {
        match position_of(&self.hashes, h) {
            Some(i) => {
                self.hashes.remove(i);
                self.senders.remove(i);
                proof {
                    let before = views(old(self).hashes@);
                    let after = views(self.hashes@);
                    assert(after =~= before.remove(i as int));
                    assert forall|a: int, b: int|
                        0 <= a < after.len() && 0 <= b < after.len() && a != b implies after[a]
                        != after[b] by {
                        let oa = if a < i { a } else { a + 1 };
                        let ob = if b < i { b } else { b + 1 };
                        assert(before[oa] != before[ob]);
                    }
                    assert(!after.contains(h@)) by {
                        if after.contains(h@) {
                            let a = choose|a: int| 0 <= a < after.len() && after[a] == h@;
                            let oa = if a < i { a } else { a + 1 };
                            assert(before[oa] == h@);
                        }
                    }
                    assert forall|g: Seq<u8>| g != h@ implies self.votes(g) == old(self).votes(
                        g,
                    ) by {
                        if before.contains(g) {
                            let j = before.index_of(g);
                            let nj = if j < i { j } else { j - 1 };
                            assert(after[nj] == g);
                            self.lemma_votes_at(nj);
                        } else if after.contains(g) {
                            let a = after.index_of(g);
                            let oa = if a < i { a } else { a + 1 };
                            assert(before[oa] == g);
                        }
                    }
                }
            },
            None => {},
        }
    }
}

/// What a node keeps per vertex hash while it broadcasts reliably.
pub struct Rbc {
    /// Who sent ECHO for a hash.
    pub echo_counts: VoteTable,
    /// Who sent READY for a hash; this node's own id stands for the READY
    /// that it has sent.
    pub ready_counts: VoteTable,
    /// The hashes delivered so far.
    pub delivered_vertices: Vec<VertexHash>,
    /// The bodies received and not delivered yet, each under its own hash,
    /// none twice.
    pub pending_rbc_vertices: Vec<Vertex>,
}

impl Rbc {
    pub open spec fn wf(&self) -> bool {
        &&& self.echo_counts.wf()
        &&& self.ready_counts.wf()
        &&& hashes_of(vertex_views(self.pending_rbc_vertices@)).no_duplicates()
    }

    /// Whether `h` was delivered.
    pub open spec fn delivered(&self, h: Seq<u8>) -> bool {
        views(self.delivered_vertices@).contains(h)
    }

    /// The body held for `h`, if one is.
    pub open spec fn body(&self, h: Seq<u8>) -> Option<VertexView> {
        let held = vertex_views(self.pending_rbc_vertices@);
        if hashes_of(held).contains(h) {
            Some(held[hashes_of(held).index_of(h)])
        } else {
            None
        }
    }

    /// The state before any message.
    pub fn new() -> (rbc: Rbc)
        ensures
            rbc.wf(),
            forall|h: Seq<u8>| !rbc.delivered(h),
            forall|h: Seq<u8>| rbc.body(h) is None,
            forall|h: Seq<u8>| rbc.echo_counts.votes(h) == Seq::<u32>::empty(),
            forall|h: Seq<u8>| rbc.ready_counts.votes(h) == Seq::<u32>::empty(),
    {
        let rbc = Rbc {
            echo_counts: VoteTable::new(),
            ready_counts: VoteTable::new(),
            delivered_vertices: Vec::new(),
            pending_rbc_vertices: Vec::new(),
        };
        assert(views(rbc.delivered_vertices@) =~= Seq::<Seq<u8>>::empty());
        assert(hashes_of(vertex_views(rbc.pending_rbc_vertices@)) =~= Seq::<Seq<u8>>::empty());
        rbc
    }

    /// Whether `h` was delivered.
    pub fn is_delivered(&self, h: &VertexHash) -> (r: bool)
        ensures
            r == self.delivered(h@),
    {
        contains_bytes(&self.delivered_vertices, h)
    }

    /// The index of the body held for `h`, if one is.
    fn body_position(&self, h: &VertexHash) -> (at: Option<usize>)
        requires
            self.wf(),
        ensures
            match at {
                Some(i) => i < self.pending_rbc_vertices@.len() && self.body(h@) == Some(
                    self.pending_rbc_vertices@[i as int]@,
                ) && self.pending_rbc_vertices@[i as int]@.hash == h@,
                None => self.body(h@) is None,
            },
    {
        let ghost held = vertex_views(self.pending_rbc_vertices@);
        let mut i: usize = 0;
        while i < self.pending_rbc_vertices.len()
            invariant
                i <= self.pending_rbc_vertices.len(),
                held == vertex_views(self.pending_rbc_vertices@),
                hashes_of(held).no_duplicates(),
                forall|j: int| 0 <= j < i ==> hashes_of(held)[j] != h@,
            decreases self.pending_rbc_vertices.len() - i,
        {
            if bytes_eq(&self.pending_rbc_vertices[i].hash, h) {
                proof {
                    assert(hashes_of(held)[i as int] == h@);
                    let j = hashes_of(held).index_of(h@);
                    assert(j == i);
                }
                return Some(i);
            }
            i += 1;
        }
        None
    }

    /// Whether a body is held for `h`.
    pub fn has_body(&self, h: &VertexHash) -> (r: bool)
        requires
            self.wf(),
        ensures
            r == self.body(h@) is Some,
    {
        self.body_position(h).is_some()
    }

    /// Holds `vertex` as the body for its hash.
    pub fn store_body(&mut self, vertex: Vertex)
        requires
            old(self).wf(),
            old(self).body(vertex@.hash) is None,
        ensures
            final(self).wf(),
            final(self).body(vertex@.hash) == Some(vertex@),
            forall|g: Seq<u8>| g != vertex@.hash ==> final(self).body(g) == old(self).body(g),
            final(self).echo_counts == old(self).echo_counts,
            final(self).ready_counts == old(self).ready_counts,
            final(self).delivered_vertices == old(self).delivered_vertices,
    {
        let ghost before = vertex_views(self.pending_rbc_vertices@);
        let ghost v = vertex@;
        self.pending_rbc_vertices.push(vertex);
        proof {
            let after = vertex_views(self.pending_rbc_vertices@);
            assert(after =~= before.push(v));
            assert(hashes_of(after) =~= hashes_of(before).push(v.hash));
            let n = before.len() as int;
            assert(hashes_of(after)[n] == v.hash);
            assert(hashes_of(after).index_of(v.hash) == n);
            assert forall|g: Seq<u8>| g != v.hash implies self.body(g) == old(self).body(g) by {
                if hashes_of(before).contains(g) {
                    let j = hashes_of(before).index_of(g);
                    assert(hashes_of(after)[j] == g);
                    let k = hashes_of(after).index_of(g);
                    assert(j == k);
                } else if hashes_of(after).contains(g) {
                    let k = hashes_of(after).index_of(g);
                    assert(hashes_of(before)[k] == g);
                }
            }
        }
    }

    /// Takes the body held for `h` out, if one is.
    pub fn take_body(&mut self, h: &VertexHash) -> (taken: Option<Vertex>)
        requires
            old(self).wf(),
        ensures
            final(self).wf(),
            match taken {
                Some(v) => old(self).body(h@) == Some(v@) && v@.hash == h@,
                None => old(self).body(h@) is None && *final(self) == *old(self),
            },
            final(self).body(h@) is None,
            forall|g: Seq<u8>| g != h@ ==> final(self).body(g) == old(self).body(g),
            final(self).echo_counts == old(self).echo_counts,
            final(self).ready_counts == old(self).ready_counts,
            final(self).delivered_vertices == old(self).delivered_vertices,
    {
        match self.body_position(h) {
            Some(i) => {
                let ghost before = vertex_views(self.pending_rbc_vertices@);
                let v = self.pending_rbc_vertices.remove(i);
                proof {
                    let after = vertex_views(self.pending_rbc_vertices@);
                    assert(after =~= before.remove(i as int));
                    assert(hashes_of(after) =~= hashes_of(before).remove(i as int));
                    assert forall|a: int, b: int|
                        0 <= a < after.len() && 0 <= b < after.len() && a != b implies hashes_of(
                        after,
                    )[a] != hashes_of(after)[b] by {
                        let oa = if a < i { a } else { a + 1 };
                        let ob = if b < i { b } else { b + 1 };
                        assert(hashes_of(before)[oa] != hashes_of(before)[ob]);
                    }
                    assert(!hashes_of(after).contains(h@)) by {
                        if hashes_of(after).contains(h@) {
                            let a = choose|a: int|
                                0 <= a < after.len() && hashes_of(after)[a] == h@;
                            let oa = if a < i { a } else { a + 1 };
                            assert(hashes_of(before)[oa] == h@);
                            assert(hashes_of(before)[i as int] == h@);
                        }
                    }
                    assert forall|g: Seq<u8>| g != h@ implies self.body(g) == old(self).body(
                        g,
                    ) by {
                        if hashes_of(before).contains(g) {
                            let j = hashes_of(before).index_of(g);
                            let nj = if j < i { j } else { j - 1 };
                            assert(hashes_of(after)[nj] == g);
                            let k = hashes_of(after).index_of(g);
                            assert(k == nj);
                        } else if hashes_of(after).contains(g) {
                            let a = hashes_of(after).index_of(g);
                            let oa = if a < i { a } else { a + 1 };
                            assert(hashes_of(before)[oa] == g);
                        }
                    }
                }
                Some(v)
            },
            None => None,
        }
    }

    /// Marks `h` as delivered.
    pub fn mark_delivered(&mut self, h: VertexHash)
        ensures
            forall|g: Seq<u8>| final(self).delivered(g) == (g == h@ || old(self).delivered(g)),
            final(self).echo_counts == old(self).echo_counts,
            final(self).ready_counts == old(self).ready_counts,
            final(self).pending_rbc_vertices == old(self).pending_rbc_vertices,
    {
        let ghost before = views(self.delivered_vertices@);
        let ghost hv = h@;
        self.delivered_vertices.push(h);
        proof {
            let after = views(self.delivered_vertices@);
            assert(after =~= before.push(hv));
            assert forall|g: Seq<u8>| after.contains(g) == (g == hv || before.contains(g)) by {
                if before.contains(g) {
                    let j = choose|j: int| 0 <= j < before.len() && before[j] == g;
                    assert(after[j] == g);
                }
                if g == hv {
                    assert(after[before.len() as int] == g);
                }
            }
        }
    }
}

} // verus!
