//! The DAG store: an append-only index of vertices by round and by hash.

use std::collections::HashMap;
use vstd::prelude::*;
use vstd::std_specs::hash::group_hash_axioms;
use crate::bytes::{bytes_eq, contains_bytes, copy_bytes, views};
use crate::reach::{
    after_edges, after_visit, breadth_first, closed_below, edge_seen, hashes_of, lemma_queue_bound,
    lemma_queue_push, lemma_search_complete, queue_ok, searched, Search,
};
use crate::vertex::{NodeId, Vertex, VertexHash, VertexView};

verus! {

broadcast use group_hash_axioms;

/// What a list of vertices holds.
pub open spec fn vertex_views(list: Seq<Vertex>) -> Seq<VertexView> {
    Seq::new(list.len(), |i: int| list[i]@)
}

/// The vertex that an insertion log files under `h`: the last one inserted
/// with that hash.
pub open spec fn lookup(log: Seq<VertexView>, h: Seq<u8>) -> Option<VertexView>
    decreases log.len(),
{
    if log.len() == 0 {
        None
    } else if log.last().hash == h {
        Some(log.last())
    } else {
        lookup(log.drop_last(), h)
    }
}

/// A vertex found by `lookup` carries the hash it was looked up by and
/// stands in the log.
pub proof fn lemma_lookup_found(log: Seq<VertexView>, h: Seq<u8>)
    ensures
        lookup(log, h) matches Some(v) ==> v.hash == h && log.contains(v),
        lookup(log, h) is None ==> forall|i: int| 0 <= i < log.len() ==> log[i].hash != h,
    decreases log.len(),
{
    if log.len() > 0 {
        if log.last().hash == h {
            assert(log[log.len() - 1] == log.last());
        } else {
            lemma_lookup_found(log.drop_last(), h);
            if lookup(log, h) is Some {
                let v = lookup(log, h).unwrap();
                let i = choose|i: int| 0 <= i < log.drop_last().len() && log.drop_last()[i] == v;
                assert(log[i] == v);
            } else {
                assert forall|i: int| 0 <= i < log.len() implies log[i].hash != h by {
                    if i < log.len() - 1 {
                        assert(log.drop_last()[i] == log[i]);
                    }
                }
            }
        }
    }
}

/// Every vertex of the log is found under its hash.
pub proof fn lemma_lookup_total(log: Seq<VertexView>, i: int)
    requires
        0 <= i < log.len(),
    ensures
        lookup(log, log[i].hash) is Some,
    decreases log.len(),
{
    if log.last().hash != log[i].hash {
        assert(log.drop_last()[i] == log[i]);
        lemma_lookup_total(log.drop_last(), i);
    }
}

/// A hash that resolves in a log resolves in every log that begins with it.
pub proof fn lemma_lookup_kept(log: Seq<VertexView>, longer: Seq<VertexView>, h: Seq<u8>)
    requires
        log.is_prefix_of(longer),
        lookup(log, h) is Some,
    ensures
        lookup(longer, h) is Some,
{
    lemma_lookup_found(log, h);
    let v = lookup(log, h).unwrap();
    let i = choose|i: int| 0 <= i < log.len() && log[i] == v;
    assert(longer[i] == v);
    lemma_lookup_total(longer, i);
}

/// The append-only store of vertices, indexed by round and by hash.
pub struct DAG {
    /// The vertices of each round, in insertion order.
    pub rounds: HashMap<u64, Vec<Vertex>>,
    /// Every vertex, in insertion order; a hash resolves to the last vertex
    /// inserted with it.
    pub vertices: Vec<Vertex>,
}

impl DAG {
    /// The vertices of round `r` in insertion order, if the round is present.
    pub open spec fn round_view(&self, r: u64) -> Option<Seq<VertexView>> {
        if self.rounds@.contains_key(r) {
            Some(vertex_views(self.rounds@[r]@))
        } else {
            None
        }
    }

    /// The vertices of round `r`, none if the round is absent.
    pub open spec fn round_or_empty(&self, r: u64) -> Seq<VertexView> {
        match self.round_view(r) {
            Some(vs) => vs,
            None => Seq::empty(),
        }
    }

    /// Every vertex of the store, in insertion order.
    pub open spec fn log(&self) -> Seq<VertexView> {
        vertex_views(self.vertices@)
    }

    /// The vertex that hash `h` resolves to, if any.
    pub open spec fn by_hash(&self, h: Seq<u8>) -> Option<VertexView> {
        lookup(self.log(), h)
    }

    /// The two indexes agree: a round holds vertices of that round only,
    /// every vertex of a round is in the log, and every vertex of the log is
    /// in its round.
    pub open spec fn wf(&self) -> bool {
        &&& forall|r: u64, i: int|
            #![trigger self.round_or_empty(r)[i]]
            0 <= i < self.round_or_empty(r).len() ==> {
                &&& self.round_or_empty(r)[i].round == r
                &&& self.log().contains(self.round_or_empty(r)[i])
            }
        &&& forall|i: int|
            #![trigger self.log()[i]]
            0 <= i < self.log().len() ==> self.round_or_empty(self.log()[i].round).contains(
                self.log()[i],
            )
    }

    /// Every stored vertex resolves by its hash.
    pub proof fn lemma_stored_resolves(&self, r: u64, i: int)
        requires
            self.wf(),
            0 <= i < self.round_or_empty(r).len(),
        ensures
            self.by_hash(self.round_or_empty(r)[i].hash) is Some,
    {
        let v = self.round_or_empty(r)[i];
        assert(self.log().contains(v));
        let j = choose|j: int| 0 <= j < self.log().len() && self.log()[j] == v;
        lemma_lookup_total(self.log(), j);
    }

    /// An empty store.
    pub fn new() -> (dag: DAG)
        ensures
            dag.wf(),
            dag.log() == Seq::<VertexView>::empty(),
            forall|r: u64| dag.round_view(r) is None,
    {
        let dag = DAG { rounds: HashMap::new(), vertices: Vec::new() };
        assert(dag.log() =~= Seq::<VertexView>::empty());
        dag
    }

    /// Appends `vertex` to its round and files it under its hash. Nothing is
    /// deduplicated: a vertex inserted twice stands twice in its round, so a
    /// caller that receives vertices looks the hash up first.
    pub fn insert(&mut self, vertex: Vertex)
        ensures
            old(self).wf() ==> final(self).wf(),
            final(self).log() == old(self).log().push(vertex@),
            final(self).round_view(vertex.round) == Some(
                old(self).round_or_empty(vertex.round).push(vertex@),
            ),
            forall|r: u64| r != vertex.round ==> final(self).round_view(r) == old(self).round_view(r),
            forall|h: Seq<u8>|
                final(self).by_hash(h) == if h == vertex@.hash {
                    Some(vertex@)
                } else {
                    old(self).by_hash(h)
                },
    {
        let round = vertex.round;
        let ghost v = vertex@;
        let copy = vertex.duplicate();
        let mut list = match self.rounds.remove(&round) {
            Some(list) => list,
            None => Vec::new(),
        };
        let ghost before = vertex_views(list@);
        assert(before =~= old(self).round_or_empty(round));
        list.push(copy);
        assert(vertex_views(list@) =~= before.push(v));
        self.rounds.insert(round, list);
        self.vertices.push(vertex);
        proof {
            assert(self.log() =~= old(self).log().push(v));
            assert(self.log().drop_last() =~= old(self).log());
            assert forall|r: u64| r != round implies self.round_view(r) == old(self).round_view(
                r,
            ) by {}
            assert forall|r: u64, i: int|
                old(self).wf() && 0 <= i < self.round_or_empty(r).len() implies {
                &&& (#[trigger] self.round_or_empty(r)[i]).round == r
                &&& self.log().contains(self.round_or_empty(r)[i])
            } by {
                let x = self.round_or_empty(r)[i];
                if r == round && i == before.len() {
                    assert(self.log()[self.log().len() - 1] == v);
                } else {
                    assert(x == old(self).round_or_empty(r)[i]);
                    let j = choose|j: int|
                        0 <= j < old(self).log().len() && old(self).log()[j] == x;
                    assert(self.log()[j] == x);
                }
            }
            assert forall|i: int|
                old(self).wf() && 0 <= i < self.log().len() implies self.round_or_empty(
                (#[trigger] self.log()[i]).round,
            ).contains(self.log()[i]) by {
                let x = self.log()[i];
                if i == self.log().len() - 1 {
                    assert(self.round_or_empty(round)[before.len() as int] == v);
                } else {
                    assert(x == old(self).log()[i]);
                    let k = choose|k: int|
                        0 <= k < old(self).round_or_empty(x.round).len() && old(
                            self,
                        ).round_or_empty(x.round)[k] == x;
                    assert(self.round_or_empty(x.round)[k] == x);
                }
            }
        }
    }

    /// The vertices of `round` in insertion order, if any was inserted.
    pub fn get_round(&self, round: u64) -> (found: Option<&Vec<Vertex>>)
        ensures
            match found {
                Some(list) => self.round_view(round) == Some(vertex_views(list@)),
                None => self.round_view(round) is None,
            },
    {
        self.rounds.get(&round)
    }

    /// The vertex that `hash` resolves to, if any.
    pub fn get_by_hash(&self, hash: &VertexHash) -> (found: Option<&Vertex>)
        ensures
            match found {
                Some(v) => self.by_hash(hash@) == Some(v@),
                None => self.by_hash(hash@) is None,
            },
    {
        let mut i: usize = self.vertices.len();
        assert(self.log().subrange(0, i as int) =~= self.log());
        while i > 0
            invariant
                i <= self.vertices.len(),
                self.by_hash(hash@) == lookup(self.log().subrange(0, i as int), hash@),
            decreases i,
        {
            let ghost prefix = self.log().subrange(0, i as int);
            i -= 1;
            assert(prefix.last() == self.vertices@[i as int]@);
            assert(prefix.drop_last() =~= self.log().subrange(0, i as int));
            if bytes_eq(&self.vertices[i].hash, hash) {
                return Some(&self.vertices[i]);
            }
        }
        None
    }

    /// The vertices of `round` whose source is one of `sources`, in
    /// insertion order.
    pub fn get_vertices_by_sources(&self, round: u64, sources: &[NodeId]) -> (out: Vec<Vertex>)
        ensures
            vertex_views(out@) == self.round_or_empty(round).filter(
                |v: VertexView| sources@.contains(v.source),
            ),
            out@.len() <= self.round_or_empty(round).len(),
            forall|i: int|
                0 <= i < out@.len() ==> sources@.contains((#[trigger] out@[i])@.source)
                    && self.round_or_empty(round).contains(out@[i]@),
    {
        let mut out: Vec<Vertex> = Vec::new();
        let ghost pred = |v: VertexView| sources@.contains(v.source);
        proof {
            reveal(Seq::filter);
        }
        match self.rounds.get(&round) {
            Some(list) => {
                let ghost all = vertex_views(list@);
                let mut i: usize = 0;
                assert(vertex_views(out@) =~= all.subrange(0, 0).filter(pred));
                while i < list.len()
                    invariant
                        i <= list.len(),
                        all == vertex_views(list@),
                        pred == |v: VertexView| sources@.contains(v.source),
                        vertex_views(out@) == all.subrange(0, i as int).filter(pred),
                    decreases list.len() - i,
                {
                    let ghost prev = vertex_views(out@);
                    let wanted = contains_source(sources, list[i].source);
                    proof {
                        reveal(Seq::filter);
                        let next = all.subrange(0, i + 1);
                        assert(next.drop_last() =~= all.subrange(0, i as int));
                        assert(next.last() == list@[i as int]@);
                    }
                    if wanted {
                        out.push(list[i].duplicate());
                        assert(vertex_views(out@) =~= prev.push(list@[i as int]@));
                    }
                    i += 1;
                }
                assert(all.subrange(0, i as int) =~= all);
            },
            None => {
                assert(vertex_views(out@) =~= Seq::<VertexView>::empty().filter(pred));
            },
        }
        proof {
            let all = self.round_or_empty(round);
            all.lemma_filter_len(pred);
            assert(vertex_views(out@).len() == out@.len());
            assert forall|i: int| 0 <= i < out@.len() implies sources@.contains(
                (#[trigger] out@[i])@.source,
            ) && all.contains(out@[i]@) by {
                assert(vertex_views(out@)[i] == out@[i]@);
                all.lemma_filter_pred(pred, i);
                assert(all.filter(pred).contains(all.filter(pred)[i]));
                all.lemma_filter_contains_rev(pred, out@[i]@);
            }
        }
        out
    }
}

impl DAG {
    /// The search of this store from `start` that descends from a vertex
    /// only above the floor round, if there is one, and only if its hash is
    /// not in `done`.
    pub open spec fn search(&self, start: VertexView, floor: Option<u64>, done: Seq<Seq<u8>>) -> Search {
        Search { log: self.log(), start, floor, done }
    }

    /// Whether parent edges lead from `start` to a vertex with the hash of
    /// `target`, through vertices of rounds above the target's.
    pub open spec fn path_exists(&self, start: VertexView, target: VertexView) -> bool {
        self.search(start, Some(target.round), Seq::empty()).reaches(target.hash)
    }

    /// Breadth-first search along parent edges from `start`. The result
    /// holds the vertices in the order they were found. It begins with
    /// `start` and holds, once each, the vertices of exactly the hashes that
    /// walks from `start` reach.
    pub fn causal_closure(&self, start: &Vertex, floor: Option<u64>, done: &Vec<VertexHash>) -> (queue:
        Vec<Vertex>)
        ensures
            vertex_views(queue@) == breadth_first(self.search(start@, floor, views(done@))),
            queue_ok(self.search(start@, floor, views(done@)), vertex_views(queue@)),
            forall|h: Seq<u8>|
                self.search(start@, floor, views(done@)).reaches(h) <==> hashes_of(
                    vertex_views(queue@),
                ).contains(h),
    {
        let ghost s = self.search(start@, floor, views(done@));
        let mut queue: Vec<Vertex> = Vec::new();
        queue.push(start.duplicate());
        proof {
            s.lemma_reaches_start();
            assert(hashes_of(vertex_views(queue@))[0] == start@.hash);
        }
        let mut head: usize = 0;
        assert(vertex_views(queue@) =~= seq![s.start]);
        while head < queue.len()
            invariant
                head <= queue.len(),
                head <= s.log.len() + 1,
                s == self.search(start@, floor, views(done@)),
                queue_ok(s, vertex_views(queue@)),
                closed_below(s, vertex_views(queue@), head as int),
                breadth_first(s) == searched(
                    s,
                    vertex_views(queue@),
                    head as int,
                    (s.log.len() + 1 - head) as nat,
                ),
            decreases s.log.len() + 1 - head,
        {
            proof {
                lemma_queue_bound(s, vertex_views(queue@));
            }
            let ghost visited = vertex_views(queue@);
            let above = match floor {
                Some(f) => queue[head].round > f,
                None => true,
            };
            let descend = above && !contains_bytes(done, &queue[head].hash);
            if descend {
                let n = queue[head].edges.len();
                let mut k: usize = 0;
                while k < n
                    invariant
                        head < queue.len(),
                        k <= n,
                        n == vertex_views(queue@)[head as int].edges.len(),
                        s == self.search(start@, floor, views(done@)),
                        queue_ok(s, vertex_views(queue@)),
                        closed_below(s, vertex_views(queue@), head as int),
                        s.expands(vertex_views(queue@)[head as int]),
                        vertex_views(queue@)[head as int] == visited[head as int],
                        after_visit(s, visited, head as int) == after_edges(
                            s,
                            vertex_views(queue@),
                            visited[head as int].edges,
                            k as int,
                        ),
                        forall|j: int|
                            0 <= j < k ==> #[trigger] edge_seen(
                                s,
                                vertex_views(queue@),
                                head as int,
                                j,
                            ),
                    decreases n - k,
                {
                    let ghost before = vertex_views(queue@);
                    let edge = copy_bytes(&queue[head].edges[k]);
                    assert(edge@ == before[head as int].edges[k as int]);
                    if !queue_has_hash(&queue, &edge) {
                        match self.get_by_hash(&edge) {
                            Some(parent) => {
                                let copy = parent.duplicate();
                                proof {
                                    lemma_queue_push(s, before, head as int, k as int, copy@);
                                    assert(before.push(copy@) =~= vertex_views(
                                        queue@.push(copy),
                                    ));
                                }
                                queue.push(copy);
                            },
                            None => {},
                        }
                    }
                    k += 1;
                }
            }
            head += 1;
        }
        proof {
            lemma_search_complete(s, vertex_views(queue@));
        }
        queue
    }

    /// Whether parent edges lead from `start_vertex` to `target_vertex`,
    /// searched breadth-first and never descending from a vertex of the
    /// target's round or below.
    pub fn has_path(&self, start_vertex: &Vertex, target_vertex: &Vertex) -> (found: bool)
        ensures
            found == self.path_exists(start_vertex@, target_vertex@),
            start_vertex@.hash == target_vertex@.hash ==> found,
    {
        if bytes_eq(&start_vertex.hash, &target_vertex.hash) {
            proof {
                self.search(
                    start_vertex@,
                    Some(target_vertex.round),
                    Seq::empty(),
                ).lemma_reaches_start();
            }
            return true;
        }
        let none: Vec<VertexHash> = Vec::new();
        assert(views(none@) =~= Seq::<Seq<u8>>::empty());
        let queue = self.causal_closure(start_vertex, Some(target_vertex.round), &none);
        queue_has_hash(&queue, &target_vertex.hash)
    }
}

/// Whether a vertex with hash `h` stands in `queue`.
pub fn queue_has_hash(queue: &Vec<Vertex>, h: &VertexHash) -> (r: bool)
    ensures
        r == hashes_of(vertex_views(queue@)).contains(h@),
{
    let mut i: usize = 0;
    while i < queue.len()
        invariant
            i <= queue.len(),
            forall|j: int| 0 <= j < i ==> hashes_of(vertex_views(queue@))[j] != h@,
        decreases queue.len() - i,
    {
        if bytes_eq(&queue[i].hash, h) {
            assert(hashes_of(vertex_views(queue@))[i as int] == h@);
            return true;
        }
        i += 1;
    }
    false
}

/// Whether `id` is one of `sources`.
pub fn contains_source(sources: &[NodeId], id: NodeId) -> (r: bool)
    ensures
        r == sources@.contains(id),
{
    let mut i: usize = 0;
    while i < sources.len()
        invariant
            i <= sources.len(),
            forall|j: int| 0 <= j < i ==> sources@[j] != id,
        decreases sources.len() - i,
    {
        if sources[i] == id {
            return true;
        }
        i += 1;
    }
    false
}

} // verus!
