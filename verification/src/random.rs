//! Seeded sampling of parents.

use vstd::prelude::*;
use crate::crypto::{chacha20_order, shuffled_order};
use crate::dag::vertex_views;
use crate::reach::hashes_of;
use crate::vertex::{Vertex, VertexView};

verus! {

/// The number of vertices in a sample of `d` out of `n`.
pub open spec fn sample_len(n: nat, d: nat) -> nat {
    if d < n {
        d
    } else {
        n
    }
}

/// The first `d` of the candidates in the order `order`: the candidate at
/// the place that each of the first `d` entries of the order names; all of
/// them if there are fewer.
pub open spec fn picked(candidates: Seq<VertexView>, d: nat, order: Seq<usize>) -> Seq<VertexView> {
    Seq::new(sample_len(candidates.len(), d), |i: int| candidates[order[i] as int])
}

/// The first `d` of the candidates in the order that a shuffle seeded with
/// the first 32 bytes of `seed` leaves them in; all of them if there are
/// fewer.
pub open spec fn sample_of(candidates: Seq<VertexView>, d: nat, seed: Seq<u8>) -> Seq<VertexView> {
    picked(candidates, d, chacha20_order(candidates.len(), seed.subrange(0, 32)))
}

/// Whether `order` puts the places of `n` items in an order: it names each
/// place below `n` at most once, and no other.
pub open spec fn is_order(order: Seq<usize>, n: nat) -> bool {
    &&& order.len() == n
    &&& forall|i: int| 0 <= i < order.len() ==> #[trigger] order[i] < n
    &&& order.no_duplicates()
}

/// A copy of a list of vertices.
pub fn copy_vertices(list: &[Vertex]) -> (out: Vec<Vertex>)
    ensures
        vertex_views(out@) == vertex_views(list@),
        out@.len() == list@.len(),
{
    let mut out: Vec<Vertex> = Vec::new();
    let mut i: usize = 0;
    while i < list.len()
        invariant
            i <= list.len(),
            out@.len() == i,
            forall|j: int| 0 <= j < i ==> out@[j]@ == list@[j]@,
        decreases list.len() - i,
    {
        out.push(list[i].duplicate());
        i += 1;
    }
    assert(vertex_views(out@) =~= vertex_views(list@));
    out
}

/// Takes the first `d` of the candidates in the order `order`. Of
/// candidates with hashes that differ, the sample has hashes that differ.
pub fn sample_in_order(candidates: &[Vertex], d: usize, order: &Vec<usize>) -> (sample: Vec<Vertex>)
    requires
        is_order(order@, candidates@.len()),
    ensures
        vertex_views(sample@) == picked(vertex_views(candidates@), d as nat, order@),
        sample@.len() == sample_len(candidates@.len(), d as nat),
        forall|i: int|
            0 <= i < sample@.len() ==> vertex_views(candidates@).contains(
                #[trigger] vertex_views(sample@)[i],
            ),
        hashes_of(vertex_views(candidates@)).no_duplicates() ==> hashes_of(
            vertex_views(sample@),
        ).no_duplicates(),
{
    let take = if d < candidates.len() {
        d
    } else {
        candidates.len()
    };
    let mut sample: Vec<Vertex> = Vec::new();
    let mut i: usize = 0;
    while i < take
        invariant
            i <= take,
            take == sample_len(candidates@.len(), d as nat),
            is_order(order@, candidates@.len()),
            sample@.len() == i,
            forall|j: int| 0 <= j < i ==> sample@[j]@ == candidates@[order@[j] as int]@,
        decreases take - i,
    {
        sample.push(candidates[order[i]].duplicate());
        i += 1;
    }
    proof {
        let all = vertex_views(candidates@);
        let got = vertex_views(sample@);
        assert(got =~= picked(all, d as nat, order@));
        assert forall|i: int| 0 <= i < sample@.len() implies all.contains(#[trigger] got[i]) by {
            assert(all[order@[i] as int] == got[i]);
        }
        if hashes_of(all).no_duplicates() {
            assert forall|i: int, j: int|
                0 <= i < got.len() && 0 <= j < got.len() && i != j implies hashes_of(got)[i]
                != hashes_of(got)[j] by {
                assert(order@[i] != order@[j]);
                assert(hashes_of(all)[order@[i] as int] != hashes_of(all)[order@[j] as int]);
            }
        }
    }
    sample
}

/// Shuffles the candidates with a ChaCha20 generator seeded with the first
/// 32 bytes of `seed` and takes the first `d`.
pub fn random_sample(candidates: &[Vertex], d: usize, seed: &[u8]) -> (sample: Vec<Vertex>)
    requires
        seed@.len() >= 32,
    ensures
        vertex_views(sample@) == sample_of(vertex_views(candidates@), d as nat, seed@),
        sample@.len() == sample_len(candidates@.len(), d as nat),
        forall|i: int|
            0 <= i < sample@.len() ==> vertex_views(candidates@).contains(
                #[trigger] vertex_views(sample@)[i],
            ),
        hashes_of(vertex_views(candidates@)).no_duplicates() ==> hashes_of(
            vertex_views(sample@),
        ).no_duplicates(),
{
    let order = shuffled_order(candidates.len(), seed);
    sample_in_order(candidates, d, &order)
}

} // verus!
