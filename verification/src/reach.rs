//! Walks along parent edges, and what a breadth-first search of them finds.

use vstd::prelude::*;
use vstd::seq_lib::seq_to_set_is_finite;
use vstd::set_lib::lemma_len_subset;
use crate::dag::{lookup, lemma_lookup_found};
use crate::vertex::VertexView;

verus! {

/// A search of a store from a start vertex: where it may descend.
pub ghost struct Search {
    /// The store's vertices in insertion order.
    pub log: Seq<VertexView>,
    /// The vertex that the search starts from.
    pub start: VertexView,
    /// With a floor, no vertex of a round at or below it is descended from.
    pub floor: Option<u64>,
    /// No vertex with one of these hashes is descended from.
    pub done: Seq<Seq<u8>>,
}

impl Search {
    /// Whether the search follows the edges of `v`.
    pub open spec fn expands(self, v: VertexView) -> bool {
        &&& (self.floor matches Some(f) ==> v.round > f)
        &&& !self.done.contains(v.hash)
    }

    /// The vertex that a hash denotes: the start vertex under its own hash,
    /// else what the store resolves the hash to.
    pub open spec fn node_of(self, h: Seq<u8>) -> Option<VertexView> {
        if h == self.start.hash {
            Some(self.start)
        } else {
            lookup(self.log, h)
        }
    }

    /// One step: `to` is a parent hash of the vertex that `from` denotes, the
    /// search descends from that vertex, and the store resolves `to`.
    pub open spec fn step(self, from: Seq<u8>, to: Seq<u8>) -> bool {
        &&& self.node_of(from) matches Some(v)
        &&& self.expands(v)
        &&& v.edges.contains(to)
        &&& lookup(self.log, to) is Some
    }

    /// Whether `p[i - 1]` to `p[i]` is a step.
    pub open spec fn step_at(self, p: Seq<Seq<u8>>, i: int) -> bool {
        self.step(p[i - 1], p[i])
    }

    /// A walk: hashes from the start vertex's on, each a step from the one
    /// before.
    pub open spec fn is_walk(self, p: Seq<Seq<u8>>) -> bool {
        &&& p.len() > 0
        &&& p[0] == self.start.hash
        &&& forall|i: int| 0 < i < p.len() ==> #[trigger] self.step_at(p, i)
    }

    /// Whether some walk ends in `h`.
    pub open spec fn reaches(self, h: Seq<u8>) -> bool {
        exists|p: Seq<Seq<u8>>| #[trigger] self.is_walk(p) && p.last() == h
    }

    /// The start vertex's hash is reached.
    pub proof fn lemma_reaches_start(self)
        ensures
            self.reaches(self.start.hash),
    {
        let p = seq![self.start.hash];
        assert(self.is_walk(p) && p.last() == self.start.hash);
    }

    /// A step from a reached hash reaches.
    pub proof fn lemma_reaches_step(self, from: Seq<u8>, to: Seq<u8>)
        requires
            self.reaches(from),
            self.step(from, to),
        ensures
            self.reaches(to),
    {
        let p = choose|p: Seq<Seq<u8>>| #[trigger] self.is_walk(p) && p.last() == from;
        let q = p.push(to);
        assert forall|i: int| 0 < i < q.len() implies #[trigger] self.step_at(q, i) by {
            if i < p.len() {
                assert(self.step_at(p, i));
            }
        }
        assert(self.is_walk(q) && q.last() == to);
    }
}

/// The hashes of a queue of vertices.
pub open spec fn hashes_of(queue: Seq<VertexView>) -> Seq<Seq<u8>> {
    Seq::new(queue.len(), |i: int| queue[i].hash)
}

/// Edge `k` of queue entry `i` is accounted for: if the search descends from
/// the entry and the store resolves the edge, the edge's hash is queued.
pub open spec fn edge_seen(s: Search, queue: Seq<VertexView>, i: int, k: int) -> bool {
    s.expands(queue[i]) && lookup(s.log, queue[i].edges[k]) is Some ==> hashes_of(queue).contains(
        queue[i].edges[k],
    )
}

/// The queue once the edges of a vertex from index `k` on are looked at: the
/// vertex of each edge that the store resolves and whose hash is not queued
/// yet joins the queue, in the order of the edges.
pub open spec fn after_edges(s: Search, queue: Seq<VertexView>, edges: Seq<Seq<u8>>, k: int) -> Seq<
    VertexView,
>
    decreases edges.len() - k,
{
    if k < 0 || k >= edges.len() {
        queue
    } else {
        let found = lookup(s.log, edges[k]);
        if !hashes_of(queue).contains(edges[k]) && found is Some {
            after_edges(s, queue.push(found.unwrap()), edges, k + 1)
        } else {
            after_edges(s, queue, edges, k + 1)
        }
    }
}

/// The queue once the entry at `head` is visited: if the search descends
/// from it, its edges are looked at.
pub open spec fn after_visit(s: Search, queue: Seq<VertexView>, head: int) -> Seq<VertexView> {
    if s.expands(queue[head]) {
        after_edges(s, queue, queue[head].edges, 0)
    } else {
        queue
    }
}

/// The queue once the entries from `head` on are visited, at most `visits`
/// of them.
pub open spec fn searched(s: Search, queue: Seq<VertexView>, head: int, visits: nat) -> Seq<VertexView>
    decreases visits,
{
    if visits == 0 || head >= queue.len() {
        queue
    } else {
        searched(s, after_visit(s, queue, head), head + 1, (visits - 1) as nat)
    }
}

/// The vertices that a breadth-first search finds, in the order it finds
/// them: the start vertex, then the parents of each vertex found, vertex
/// after vertex, as far as the search descends.
pub open spec fn breadth_first(s: Search) -> Seq<VertexView> {
    searched(s, seq![s.start], 0, s.log.len() + 1)
}

/// What a search keeps true of its queue: it begins with the start vertex,
/// no hash is queued twice, each entry is the vertex its hash denotes, and
/// each is reached.
pub open spec fn queue_ok(s: Search, queue: Seq<VertexView>) -> bool {
    &&& queue.len() > 0
    &&& queue[0] == s.start
    &&& hashes_of(queue).no_duplicates()
    &&& forall|i: int| 0 <= i < queue.len() ==> s.node_of(#[trigger] queue[i].hash) == Some(queue[i])
    &&& forall|i: int| 0 <= i < queue.len() ==> s.reaches(#[trigger] queue[i].hash)
}

/// Every edge of the first `head` entries is accounted for.
pub open spec fn closed_below(s: Search, queue: Seq<VertexView>, head: int) -> bool {
    forall|i: int, k: int|
        0 <= i < head && 0 <= k < queue[i].edges.len() ==> #[trigger] edge_seen(s, queue, i, k)
}

/// Queueing the vertex that an unqueued parent hash resolves to keeps the
/// queue in order, and keeps every edge accounted for that was.
pub proof fn lemma_queue_push(s: Search, queue: Seq<VertexView>, head: int, k: int, parent: VertexView)
    requires
        queue_ok(s, queue),
        0 <= head < queue.len(),
        0 <= k < queue[head].edges.len(),
        s.expands(queue[head]),
        !hashes_of(queue).contains(queue[head].edges[k]),
        lookup(s.log, queue[head].edges[k]) == Some(parent),
    ensures
        queue_ok(s, queue.push(parent)),
        parent.hash == queue[head].edges[k],
        forall|i: int, j: int|
            0 <= i < queue.len() && 0 <= j < queue[i].edges.len() && edge_seen(s, queue, i, j)
                ==> #[trigger] edge_seen(s, queue.push(parent), i, j),
        edge_seen(s, queue.push(parent), head, k),
{
    let edge = queue[head].edges[k];
    let next = queue.push(parent);
    lemma_lookup_found(s.log, edge);
    assert(hashes_of(next) =~= hashes_of(queue).push(edge));
    assert(hashes_of(queue)[0] == s.start.hash);
    assert(edge != s.start.hash);
    assert(s.node_of(queue[head].hash) == Some(queue[head]));
    assert(s.step(queue[head].hash, edge));
    s.lemma_reaches_step(queue[head].hash, edge);
    assert forall|i: int| 0 <= i < next.len() implies s.node_of(#[trigger] next[i].hash) == Some(
        next[i],
    ) by {
        if i < queue.len() {
            assert(s.node_of(queue[i].hash) == Some(queue[i]));
        }
    }
    assert forall|i: int| 0 <= i < next.len() implies s.reaches(#[trigger] next[i].hash) by {
        if i < queue.len() {
            assert(s.reaches(queue[i].hash));
        }
    }
    assert forall|i: int, j: int|
        0 <= i < queue.len() && 0 <= j < queue[i].edges.len() && edge_seen(
            s,
            queue,
            i,
            j,
        ) implies #[trigger] edge_seen(s, next, i, j) by {
        let e = queue[i].edges[j];
        if hashes_of(queue).contains(e) {
            let w = choose|w: int| 0 <= w < queue.len() && hashes_of(queue)[w] == e;
            assert(hashes_of(next)[w] == e);
        }
    }
    assert(hashes_of(next)[queue.len() as int] == edge);
}

/// A queue without repeated hashes, whose entries after the first resolve in
/// the store, is at most one longer than the store's log.
pub proof fn lemma_queue_bound(s: Search, queue: Seq<VertexView>)
    requires
        queue_ok(s, queue),
    ensures
        queue.len() <= s.log.len() + 1,
{
    let tail = hashes_of(queue).subrange(1, queue.len() as int);
    let stored = hashes_of(s.log);
    assert(tail.no_duplicates()) by {
        assert forall|i: int, j: int|
            0 <= i < tail.len() && 0 <= j < tail.len() && i != j implies tail[i] != tail[j] by {
            assert(tail[i] == hashes_of(queue)[i + 1]);
            assert(tail[j] == hashes_of(queue)[j + 1]);
        }
    }
    tail.unique_seq_to_set();
    stored.lemma_cardinality_of_set();
    seq_to_set_is_finite(stored);
    assert(tail.to_set().subset_of(stored.to_set())) by {
        assert forall|h: Seq<u8>| tail.to_set().contains(h) implies stored.to_set().contains(h) by {
            let i = choose|i: int| 0 <= i < tail.len() && tail[i] == h;
            assert(queue[i + 1].hash == h);
            assert(hashes_of(queue)[0] != hashes_of(queue)[i + 1]);
            assert(s.node_of(queue[i + 1].hash) == Some(queue[i + 1]));
            lemma_lookup_found(s.log, h);
            let v = lookup(s.log, h).unwrap();
            let j = choose|j: int| 0 <= j < s.log.len() && s.log[j] == v;
            assert(stored[j] == h);
        }
    }
    lemma_len_subset(tail.to_set(), stored.to_set());
}

/// Once every entry's edges are accounted for, every hash on a walk is
/// queued.
pub proof fn lemma_walk_is_queued(s: Search, queue: Seq<VertexView>, p: Seq<Seq<u8>>, k: int)
    requires
        queue_ok(s, queue),
        closed_below(s, queue, queue.len() as int),
        s.is_walk(p),
        0 <= k < p.len(),
    ensures
        hashes_of(queue).contains(p[k]),
    decreases k,
{
    if k == 0 {
        assert(hashes_of(queue)[0] == p[0]);
    } else {
        lemma_walk_is_queued(s, queue, p, k - 1);
        let i = choose|i: int| 0 <= i < queue.len() && hashes_of(queue)[i] == p[k - 1];
        assert(s.step_at(p, k));
        assert(s.node_of(queue[i].hash) == Some(queue[i]));
        let e = choose|e: int| 0 <= e < queue[i].edges.len() && queue[i].edges[e] == p[k];
        assert(edge_seen(s, queue, i, e));
    }
}

/// A finished search has queued exactly the hashes that walks reach.
pub proof fn lemma_search_complete(s: Search, queue: Seq<VertexView>)
    requires
        queue_ok(s, queue),
        closed_below(s, queue, queue.len() as int),
    ensures
        forall|h: Seq<u8>| s.reaches(h) <==> hashes_of(queue).contains(h),
{
    assert forall|h: Seq<u8>| s.reaches(h) <==> hashes_of(queue).contains(h) by {
        if s.reaches(h) {
            let p = choose|p: Seq<Seq<u8>>| #[trigger] s.is_walk(p) && p.last() == h;
            lemma_walk_is_queued(s, queue, p, p.len() - 1);
        }
        if hashes_of(queue).contains(h) {
            let i = choose|i: int| 0 <= i < queue.len() && hashes_of(queue)[i] == h;
            assert(s.reaches(queue[i].hash));
        }
    }
}

} // verus!
