//! The lexicographic order of hashes, and sorting by it.

use vstd::prelude::*;
use crate::dag::vertex_views;
use crate::reach::hashes_of;
use crate::vertex::{Vertex, VertexHash, VertexView};

verus! {

/// Whether `a` comes before `b` in the lexicographic order of byte strings:
/// at the first place where they differ `a` has the smaller byte, or `a` is
/// a proper prefix of `b`.
pub open spec fn lex_less(a: Seq<u8>, b: Seq<u8>) -> bool
    decreases a.len(),
{
    if b.len() == 0 {
        false
    } else if a.len() == 0 {
        true
    } else if a[0] != b[0] {
        a[0] < b[0]
    } else {
        lex_less(a.drop_first(), b.drop_first())
    }
}

/// No byte string comes before itself, and of two, at most one comes before
/// the other.
pub proof fn lemma_lex_asymmetric(a: Seq<u8>, b: Seq<u8>)
    ensures
        !(lex_less(a, b) && lex_less(b, a)),
        !lex_less(a, a),
    decreases a.len(),
{
    if a.len() > 0 {
        lemma_lex_asymmetric(a.drop_first(), a.drop_first());
        if b.len() > 0 && a[0] == b[0] {
            lemma_lex_asymmetric(a.drop_first(), b.drop_first());
        }
    }
}

/// Of two different byte strings, one comes before the other.
pub proof fn lemma_lex_total(a: Seq<u8>, b: Seq<u8>)
    requires
        a != b,
    ensures
        lex_less(a, b) || lex_less(b, a),
    decreases a.len(),
{
    if a.len() > 0 && b.len() > 0 && a[0] == b[0] {
        if a.drop_first() == b.drop_first() {
            assert(a =~= seq![a[0]] + a.drop_first());
            assert(b =~= seq![b[0]] + b.drop_first());
        }
        lemma_lex_total(a.drop_first(), b.drop_first());
    } else if a.len() == 0 && b.len() == 0 {
        assert(a =~= b);
    }
}

/// The order is transitive.
pub proof fn lemma_lex_transitive(a: Seq<u8>, b: Seq<u8>, c: Seq<u8>)
    requires
        lex_less(a, b),
        lex_less(b, c),
    ensures
        lex_less(a, c),
    decreases a.len(),
{
    if a.len() > 0 && a[0] == b[0] && b[0] == c[0] {
        lemma_lex_transitive(a.drop_first(), b.drop_first(), c.drop_first());
    }
}

/// Whether a list of byte strings ascends strictly.
pub open spec fn ascending(list: Seq<Seq<u8>>) -> bool {
    forall|i: int, j: int| 0 <= i < j < list.len() ==> lex_less(#[trigger] list[i], #[trigger] list[j])
}

/// Two strictly ascending lists that hold the same byte strings are the
/// same list.
pub proof fn lemma_ascending_unique(a: Seq<Seq<u8>>, b: Seq<Seq<u8>>)
    requires
        ascending(a),
        ascending(b),
        forall|h: Seq<u8>| a.contains(h) <==> b.contains(h),
    ensures
        a == b,
    decreases a.len(),
{
    if a.len() == 0 {
        if b.len() > 0 {
            assert(b.contains(b[0]));
        }
        assert(a =~= b);
    } else if b.len() == 0 {
        assert(a.contains(a[0]));
    } else {
        // The two first entries are each the least of the same set.
        assert(a.contains(a[0]));
        assert(b.contains(b[0]));
        let i = choose|i: int| 0 <= i < b.len() && b[i] == a[0];
        let j = choose|j: int| 0 <= j < a.len() && a[j] == b[0];
        lemma_lex_asymmetric(a[0], b[0]);
        assert(a[0] == b[0]);
        let ta = a.drop_first();
        let tb = b.drop_first();
        assert forall|h: Seq<u8>| ta.contains(h) <==> tb.contains(h) by {
            if ta.contains(h) {
                let k = choose|k: int| 0 <= k < ta.len() && ta[k] == h;
                assert(a[k + 1] == h);
                lemma_lex_asymmetric(a[0], h);
                assert(a.contains(h));
                let m = choose|m: int| 0 <= m < b.len() && b[m] == h;
                assert(tb[m - 1] == h);
            }
            if tb.contains(h) {
                let k = choose|k: int| 0 <= k < tb.len() && tb[k] == h;
                assert(b[k + 1] == h);
                lemma_lex_asymmetric(b[0], h);
                assert(b.contains(h));
                let m = choose|m: int| 0 <= m < a.len() && a[m] == h;
                assert(ta[m - 1] == h);
            }
        }
        assert(ascending(ta)) by {
            assert forall|x: int, y: int| 0 <= x < y < ta.len() implies lex_less(
                #[trigger] ta[x],
                #[trigger] ta[y],
            ) by {
                assert(lex_less(a[x + 1], a[y + 1]));
            }
        }
        assert(ascending(tb)) by {
            assert forall|x: int, y: int| 0 <= x < y < tb.len() implies lex_less(
                #[trigger] tb[x],
                #[trigger] tb[y],
            ) by {
                assert(lex_less(b[x + 1], b[y + 1]));
            }
        }
        lemma_ascending_unique(ta, tb);
        assert(a =~= seq![a[0]] + ta);
        assert(b =~= seq![b[0]] + tb);
    }
}

/// A strictly ascending list with one more byte string put in its place.
pub open spec fn insert_ascending(list: Seq<Seq<u8>>, x: Seq<u8>) -> Seq<Seq<u8>>
    decreases list.len(),
{
    if list.len() == 0 {
        seq![x]
    } else if lex_less(x, list[0]) {
        seq![x] + list
    } else {
        seq![list[0]] + insert_ascending(list.drop_first(), x)
    }
}

/// A byte string put in its place in a strictly ascending list that lacks
/// it leaves the list strictly ascending, with the byte string in it and
/// nothing else added.
pub proof fn lemma_insert_ascending(list: Seq<Seq<u8>>, x: Seq<u8>)
    requires
        ascending(list),
        !list.contains(x),
    ensures
        ascending(insert_ascending(list, x)),
        forall|h: Seq<u8>|
            #[trigger] insert_ascending(list, x).contains(h) <==> (h == x || list.contains(h)),
    decreases list.len(),
{
    let out = insert_ascending(list, x);
    if list.len() == 0 {
        assert(out[0] == x);
        assert forall|h: Seq<u8>| out.contains(h) <==> (h == x || list.contains(h)) by {
            if out.contains(h) {
                let i = choose|i: int| 0 <= i < out.len() && out[i] == h;
            }
        }
    } else if lex_less(x, list[0]) {
        assert forall|i: int, j: int| 0 <= i < j < out.len() implies lex_less(
            #[trigger] out[i],
            #[trigger] out[j],
        ) by {
            if i == 0 {
                if j > 1 {
                    assert(lex_less(list[0], list[j - 1]));
                    lemma_lex_transitive(x, list[0], list[j - 1]);
                }
            } else {
                assert(lex_less(list[i - 1], list[j - 1]));
            }
        }
        assert forall|h: Seq<u8>| out.contains(h) <==> (h == x || list.contains(h)) by {
            if out.contains(h) {
                let i = choose|i: int| 0 <= i < out.len() && out[i] == h;
                if i > 0 {
                    assert(list[i - 1] == h);
                }
            }
            if h == x {
                assert(out[0] == h);
            }
            if list.contains(h) {
                let i = choose|i: int| 0 <= i < list.len() && list[i] == h;
                assert(out[i + 1] == h);
            }
        }
    } else {
        let tail = list.drop_first();
        let rest = insert_ascending(tail, x);
        assert(ascending(tail)) by {
            assert forall|i: int, j: int| 0 <= i < j < tail.len() implies lex_less(
                #[trigger] tail[i],
                #[trigger] tail[j],
            ) by {
                assert(lex_less(list[i + 1], list[j + 1]));
            }
        }
        assert(!tail.contains(x)) by {
            if tail.contains(x) {
                let i = choose|i: int| 0 <= i < tail.len() && tail[i] == x;
                assert(list[i + 1] == x);
            }
        }
        lemma_insert_ascending(tail, x);
        assert(list.contains(list[0]));
        lemma_lex_total(x, list[0]);
        assert forall|i: int, j: int| 0 <= i < j < out.len() implies lex_less(
            #[trigger] out[i],
            #[trigger] out[j],
        ) by {
            assert(out[j] == rest[j - 1]);
            if i == 0 {
                let h = rest[j - 1];
                assert(out[0] == list[0]);
                assert(rest.contains(h));
                assert(h == x || tail.contains(h));
                if h != x {
                    let k = choose|k: int| 0 <= k < tail.len() && tail[k] == h;
                    assert(lex_less(list[0], list[k + 1]));
                }
            } else {
                assert(out[i] == rest[i - 1]);
                assert(lex_less(rest[i - 1], rest[j - 1]));
            }
        }
        assert forall|h: Seq<u8>| out.contains(h) <==> (h == x || list.contains(h)) by {
            if out.contains(h) {
                let i = choose|i: int| 0 <= i < out.len() && out[i] == h;
                if i > 0 {
                    assert(rest[i - 1] == h);
                    assert(rest.contains(h));
                    if h != x {
                        let k = choose|k: int| 0 <= k < tail.len() && tail[k] == h;
                        assert(list[k + 1] == h);
                    }
                }
            }
            if h == x || list.contains(h) {
                if h == list[0] {
                    assert(out[0] == h);
                } else {
                    if h != x {
                        let k = choose|k: int| 0 <= k < list.len() && list[k] == h;
                        assert(tail[k - 1] == h);
                    }
                    assert(rest.contains(h));
                    let m = choose|m: int| 0 <= m < rest.len() && rest[m] == h;
                    assert(out[m + 1] == h);
                }
            }
        }
    }
}

/// Every finite set of byte strings can be listed in strictly ascending
/// order.
pub proof fn lemma_ascending_list_exists(s: Set<Seq<u8>>)
    requires
        s.finite(),
    ensures
        exists|list: Seq<Seq<u8>>|
            ascending(list) && forall|h: Seq<u8>| #[trigger] list.contains(h) <==> s.contains(h),
    decreases s.len(),
{
    if s.len() == 0 {
        s.lemma_len0_is_empty();
        let list = Seq::<Seq<u8>>::empty();
        assert(ascending(list) && forall|h: Seq<u8>| #[trigger] list.contains(h) <==> s.contains(h));
    } else {
        let x = s.choose();
        let rest = s.remove(x);
        lemma_ascending_list_exists(rest);
        let shorter = choose|list: Seq<Seq<u8>>|
            ascending(list) && forall|h: Seq<u8>| #[trigger] list.contains(h) <==> rest.contains(h);
        assert(!shorter.contains(x));
        lemma_insert_ascending(shorter, x);
        let list = insert_ascending(shorter, x);
        assert forall|h: Seq<u8>| #[trigger] list.contains(h) <==> s.contains(h) by {
            assert(shorter.contains(h) <==> rest.contains(h));
        }
        assert(ascending(list) && forall|h: Seq<u8>| #[trigger] list.contains(h) <==> s.contains(h));
    }
}

/// Whether hash `a` comes before hash `b`.
pub fn hash_less(a: &VertexHash, b: &VertexHash) -> (r: bool)
    ensures
        r == lex_less(a@, b@),
{
    let mut i: usize = 0;
    assert(a@.subrange(0, a@.len() as int) =~= a@);
    assert(b@.subrange(0, b@.len() as int) =~= b@);
    while i < a.len() && i < b.len()
        invariant
            i <= a.len(),
            i <= b.len(),
            lex_less(a@, b@) == lex_less(
                a@.subrange(i as int, a@.len() as int),
                b@.subrange(i as int, b@.len() as int),
            ),
        decreases a.len() - i,
    {
        let ghost ra = a@.subrange(i as int, a@.len() as int);
        let ghost rb = b@.subrange(i as int, b@.len() as int);
        assert(ra[0] == a@[i as int] && rb[0] == b@[i as int]);
        if a[i] != b[i] {
            return a[i] < b[i];
        }
        assert(ra.drop_first() =~= a@.subrange(i + 1, a@.len() as int));
        assert(rb.drop_first() =~= b@.subrange(i + 1, b@.len() as int));
        i += 1;
    }
    i < b.len()
}

/// Sorts vertices of distinct hashes by hash. The result ascends strictly
/// and holds the same vertices.
pub fn sort_by_hash(queue: Vec<Vertex>) -> (sorted: Vec<Vertex>)
    requires
        hashes_of(vertex_views(queue@)).no_duplicates(),
    ensures
        ascending(hashes_of(vertex_views(sorted@))),
        sorted@.len() == queue@.len(),
        forall|v: VertexView| vertex_views(sorted@).contains(v) <==> vertex_views(queue@).contains(v),
{
    let ghost input = vertex_views(queue@);
    let mut sorted: Vec<Vertex> = Vec::new();
    let mut i: usize = 0;
    while i < queue.len()
        invariant
            i <= queue.len(),
            input == vertex_views(queue@),
            hashes_of(input).no_duplicates(),
            sorted@.len() == i,
            ascending(hashes_of(vertex_views(sorted@))),
            forall|v: VertexView|
                vertex_views(sorted@).contains(v) <==> input.subrange(0, i as int).contains(v),
        decreases queue.len() - i,
    {
        let ghost before = vertex_views(sorted@);
        let item = queue[i].duplicate();
        let mut at: usize = 0;
        while at < sorted.len() && hash_less(&sorted[at].hash, &item.hash)
            invariant
                at <= sorted.len(),
                before == vertex_views(sorted@),
                forall|j: int| 0 <= j < at ==> lex_less(#[trigger] before[j].hash, item@.hash),
            decreases sorted.len() - at,
        {
            at += 1;
        }
        proof {
            let x = item@;
            assert(x == input[i as int]);
            let after = before.insert(at as int, x);
            let seen = input.subrange(0, i as int);
            let next = input.subrange(0, i + 1);
            // Every entry from `at` on comes after the new one.
            assert forall|j: int| at <= j < before.len() implies lex_less(
                x.hash,
                #[trigger] before[j].hash,
            ) by {
                assert(before.contains(before[j]));
                let k = choose|k: int| 0 <= k < seen.len() && seen[k] == before[j];
                assert(hashes_of(input)[k] != hashes_of(input)[i as int]);
                assert(before.contains(before[at as int]));
                let m = choose|m: int| 0 <= m < seen.len() && seen[m] == before[at as int];
                assert(hashes_of(input)[m] != hashes_of(input)[i as int]);
                lemma_lex_total(before[at as int].hash, x.hash);
                if j > at {
                    assert(lex_less(
                        hashes_of(before)[at as int],
                        hashes_of(before)[j],
                    ));
                    lemma_lex_transitive(x.hash, before[at as int].hash, before[j].hash);
                }
            }
            assert(ascending(hashes_of(after))) by {
                assert forall|p: int, q: int| 0 <= p < q < after.len() implies lex_less(
                    #[trigger] hashes_of(after)[p],
                    #[trigger] hashes_of(after)[q],
                ) by {
                    let bp = if p < at { p } else { p - 1 };
                    let bq = if q < at { q } else { q - 1 };
                    if p != at && q != at {
                        assert(lex_less(hashes_of(before)[bp], hashes_of(before)[bq]));
                    }
                }
            }
            assert forall|v: VertexView| after.contains(v) <==> next.contains(v) by {
                if after.contains(v) {
                    let p = choose|p: int| 0 <= p < after.len() && after[p] == v;
                    if p == at {
                        assert(next[i as int] == v);
                    } else {
                        let bp = if p < at { p } else { p - 1 };
                        assert(before[bp] == v);
                        assert(before.contains(v));
                        let k = choose|k: int| 0 <= k < seen.len() && seen[k] == v;
                        assert(next[k] == v);
                    }
                }
                if next.contains(v) {
                    let k = choose|k: int| 0 <= k < next.len() && next[k] == v;
                    if k == i {
                        assert(after[at as int] == v);
                    } else {
                        assert(seen[k] == v);
                        assert(before.contains(v));
                        let p = choose|p: int| 0 <= p < before.len() && before[p] == v;
                        let ap = if p < at { p } else { p + 1 };
                        assert(after[ap] == v);
                    }
                }
            }
        }
        sorted.insert(at, item);
        assert(vertex_views(sorted@) =~= before.insert(at as int, item@));
        i += 1;
    }
    assert(input.subrange(0, i as int) =~= input);
    sorted
}

} // verus!
