//! The rules of the protocol over a store of vertices: anchors, votes,
//! parents, and how one store grows into another.

use vstd::prelude::*;
use crate::bytes::{bytes_eq, contains_bytes};
use crate::dag::{vertex_views, DAG};
use crate::reach::hashes_of;
use crate::vertex::{genesis_view, Vertex, VertexHash, VertexView};

verus! {

/// The node that leads even round `r` among `n` nodes.
pub open spec fn leader_of(r: u64, n: nat) -> int {
    (r / 2) as int % (n as int)
}

/// The first vertex of a list that `leader` authored.
pub open spec fn first_from(list: Seq<VertexView>, leader: int) -> Option<VertexView>
    decreases list.len(),
{
    if list.len() == 0 {
        None
    } else if list[0].source == leader {
        Some(list[0])
    } else {
        first_from(list.drop_first(), leader)
    }
}

/// The anchor of round `r`: in an even round the first stored vertex of the
/// round's leader, if there is one; an odd round has none.
pub open spec fn anchor_of(dag: DAG, r: u64, n: nat) -> Option<VertexView> {
    if r % 2 == 1 {
        None
    } else {
        match dag.round_view(r) {
            Some(list) => first_from(list, leader_of(r, n)),
            None => None,
        }
    }
}

/// What `first_from` finds is the leader's and stands in the list.
pub proof fn lemma_first_from(list: Seq<VertexView>, leader: int)
    ensures
        first_from(list, leader) matches Some(v) ==> v.source == leader && list.contains(v),
    decreases list.len(),
{
    if list.len() > 0 {
        if list[0].source == leader {
        } else {
            lemma_first_from(list.drop_first(), leader);
            if first_from(list, leader) is Some {
                let v = first_from(list, leader).unwrap();
                let i = choose|i: int| 0 <= i < list.drop_first().len() && list.drop_first()[i] == v;
                assert(list[i + 1] == v);
            }
        }
    }
}

/// An anchor is a vertex of its round, stored under its hash.
pub proof fn lemma_anchor_stored(dag: DAG, r: u64, n: nat)
    requires
        dag.wf(),
    ensures
        anchor_of(dag, r, n) matches Some(a) ==> a.round == r && r % 2 == 0 && dag.round_or_empty(
            r,
        ).contains(a) && dag.by_hash(a.hash) is Some,
{
    if anchor_of(dag, r, n) is Some {
        let a = anchor_of(dag, r, n).unwrap();
        lemma_first_from(dag.round_or_empty(r), leader_of(r, n));
        let i = choose|i: int| 0 <= i < dag.round_or_empty(r).len() && dag.round_or_empty(r)[i] == a;
        assert(dag.round_or_empty(r)[i].round == r);
        dag.lemma_stored_resolves(r, i);
    }
}

/// The number of vertices of a list that have `h` among their parents.
pub open spec fn votes_for(list: Seq<VertexView>, h: Seq<u8>) -> nat
    decreases list.len(),
{
    if list.len() == 0 {
        0
    } else {
        votes_for(list.drop_last(), h) + if list.last().edges.contains(h) {
            1nat
        } else {
            0nat
        }
    }
}

/// Whether the round before the vertex's is stored and holds a vertex for
/// each of its parent hashes.
pub open spec fn has_parents(dag: DAG, v: VertexView) -> bool {
    &&& v.round >= 1
    &&& dag.round_view((v.round - 1) as u64) is Some
    &&& forall|k: int|
        0 <= k < v.edges.len() ==> hashes_of(dag.round_or_empty((v.round - 1) as u64)).contains(
            #[trigger] v.edges[k],
        )
}

/// Every stored vertex above round 0 has its parents stored.
pub open spec fn parents_resolve(dag: DAG) -> bool {
    forall|i: int|
        0 <= i < dag.log().len() && dag.log()[i].round >= 1 ==> has_parents(dag, #[trigger] dag.log()[i])
}

/// Round 0 begins with the genesis vertex.
pub open spec fn has_genesis(dag: DAG) -> bool {
    dag.round_or_empty(0).len() > 0 && dag.round_or_empty(0)[0] == genesis_view()
}

/// The store `after` holds what `before` holds and more: its log and each
/// of its rounds begin with those of `before`.
pub open spec fn extends(before: DAG, after: DAG) -> bool {
    &&& before.log().is_prefix_of(after.log())
    &&& forall|r: u64| #[trigger]
        before.round_or_empty(r).is_prefix_of(after.round_or_empty(r))
    &&& forall|r: u64| before.round_view(r) is Some ==> #[trigger] after.round_view(r) is Some
}

/// Every store extends itself.
pub proof fn lemma_extends_self(dag: DAG)
    ensures
        extends(dag, dag),
{
    assert(dag.log().is_prefix_of(dag.log()));
    assert forall|r: u64| #[trigger] dag.round_or_empty(r).is_prefix_of(dag.round_or_empty(r)) by {}
}

/// Extension is transitive.
pub proof fn lemma_extends_transitive(a: DAG, b: DAG, c: DAG)
    requires
        extends(a, b),
        extends(b, c),
    ensures
        extends(a, c),
{
    assert(a.log().is_prefix_of(c.log()));
    assert forall|r: u64| #[trigger] a.round_or_empty(r).is_prefix_of(c.round_or_empty(r)) by {
        assert(a.round_or_empty(r).is_prefix_of(b.round_or_empty(r)));
        assert(b.round_or_empty(r).is_prefix_of(c.round_or_empty(r)));
    }
    assert forall|r: u64| a.round_view(r) is Some implies #[trigger] c.round_view(r) is Some by {
        assert(b.round_view(r) is Some);
    }
}

/// A vertex whose parents one store holds has them in every store that
/// extends it.
pub proof fn lemma_parents_kept(before: DAG, after: DAG, v: VertexView)
    requires
        extends(before, after),
        has_parents(before, v),
    ensures
        has_parents(after, v),
{
    let r = (v.round - 1) as u64;
    let old_round = before.round_or_empty(r);
    let new_round = after.round_or_empty(r);
    assert(old_round.is_prefix_of(new_round));
    assert(after.round_view(r) is Some);
    assert forall|k: int| 0 <= k < v.edges.len() implies hashes_of(new_round).contains(
        #[trigger] v.edges[k],
    ) by {
        let j = choose|j: int| 0 <= j < old_round.len() && hashes_of(old_round)[j] == v.edges[k];
        assert(new_round[j] == old_round[j]);
        assert(hashes_of(new_round)[j] == v.edges[k]);
    }
}

/// Inserting a vertex whose parents are stored, or one of round 0, keeps
/// what the store promised.
pub proof fn lemma_insert_keeps(before: DAG, after: DAG, v: VertexView)
    requires
        before.wf(),
        after.log() == before.log().push(v),
        after.round_view(v.round) == Some(before.round_or_empty(v.round).push(v)),
        forall|r: u64| r != v.round ==> after.round_view(r) == before.round_view(r),
    ensures
        extends(before, after),
        parents_resolve(before) && (v.round >= 1 ==> has_parents(before, v)) ==> parents_resolve(
            after,
        ),
        has_genesis(before) ==> has_genesis(after),
{
    assert(before.log().is_prefix_of(after.log()));
    assert forall|r: u64| #[trigger]
        before.round_or_empty(r).is_prefix_of(after.round_or_empty(r)) by {}
    if parents_resolve(before) && (v.round >= 1 ==> has_parents(before, v)) {
        assert forall|i: int| 0 <= i < after.log().len() && after.log()[i].round >= 1 implies has_parents(
            after,
            #[trigger] after.log()[i],
        ) by {
            if i < before.log().len() {
                assert(after.log()[i] == before.log()[i]);
            }
            lemma_parents_kept(before, after, after.log()[i]);
        }
    }
    if has_genesis(before) {
        assert(before.round_or_empty(0).is_prefix_of(after.round_or_empty(0)));
    }
}

/// The first vertex of `list` that node `leader` authored.
pub fn find_by_source(list: &Vec<Vertex>, leader: u64) -> (found: Option<&Vertex>)
    ensures
        match found {
            Some(v) => first_from(vertex_views(list@), leader as int) == Some(v@),
            None => first_from(vertex_views(list@), leader as int) is None,
        },
{
    let ghost all = vertex_views(list@);
    let mut i: usize = 0;
    assert(all.subrange(0, all.len() as int) =~= all);
    while i < list.len()
        invariant
            i <= list.len(),
            all == vertex_views(list@),
            first_from(all, leader as int) == first_from(
                all.subrange(i as int, all.len() as int),
                leader as int,
            ),
        decreases list.len() - i,
    {
        let ghost rest = all.subrange(i as int, all.len() as int);
        assert(rest[0] == list@[i as int]@);
        if list[i].source as u64 == leader {
            return Some(&list[i]);
        }
        assert(rest.drop_first() =~= all.subrange(i + 1, all.len() as int));
        i += 1;
    }
    None
}

/// The number of vertices of `list` that have `h` among their parents.
pub fn count_votes(list: &Vec<Vertex>, h: &VertexHash) -> (n: usize)
    ensures
        n == votes_for(vertex_views(list@), h@),
{
    let ghost all = vertex_views(list@);
    let mut n: usize = 0;
    let mut i: usize = 0;
    while i < list.len()
        invariant
            i <= list.len(),
            n <= i,
            all == vertex_views(list@),
            n == votes_for(all.subrange(0, i as int), h@),
        decreases list.len() - i,
    {
        let voted = contains_bytes(&list[i].edges, h);
        proof {
            let next = all.subrange(0, i + 1);
            assert(next.drop_last() =~= all.subrange(0, i as int));
            assert(next.last() == list@[i as int]@);
        }
        if voted {
            n += 1;
        }
        i += 1;
    }
    assert(all.subrange(0, i as int) =~= all);
    n
}

/// Whether a vertex with hash `h` stands in `list`.
pub fn list_has_hash(list: &Vec<Vertex>, h: &VertexHash) -> (r: bool)
    ensures
        r == hashes_of(vertex_views(list@)).contains(h@),
{
    let mut i: usize = 0;
    while i < list.len()
        invariant
            i <= list.len(),
            forall|j: int| 0 <= j < i ==> hashes_of(vertex_views(list@))[j] != h@,
        decreases list.len() - i,
    {
        if bytes_eq(&list[i].hash, h) {
            assert(hashes_of(vertex_views(list@))[i as int] == h@);
            return true;
        }
        i += 1;
    }
    false
}

/// Whether the round before the vertex's is stored and holds a vertex for
/// each of its parent hashes.
pub fn parents_stored(dag: &DAG, v: &Vertex) -> (ok: bool)
    ensures
        ok == has_parents(*dag, v@),
{
    if v.round < 1 {
        return false;
    }
    match dag.get_round(v.round - 1) {
        Some(parents) => {
            let mut k: usize = 0;
            while k < v.edges.len()
                invariant
                    k <= v.edges.len(),
                    v@.round >= 1,
                    dag.round_view((v@.round - 1) as u64) == Some(vertex_views(parents@)),
                    forall|j: int|
                        0 <= j < k ==> hashes_of(vertex_views(parents@)).contains(
                            #[trigger] v@.edges[j],
                        ),
                decreases v.edges.len() - k,
            {
                if !list_has_hash(parents, &v.edges[k]) {
                    assert(!hashes_of(dag.round_or_empty((v@.round - 1) as u64)).contains(
                        v@.edges[k as int],
                    ));
                    return false;
                }
                k += 1;
            }
            true
        },
        None => false,
    }
}

} // verus!
