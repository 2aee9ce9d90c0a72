//! The commit rule: direct commit of an anchor, the chain of earlier anchors
//! that it commits indirectly, and the order in which their causal pasts
//! are finalized.

use vstd::prelude::*;
use vstd::seq_lib::seq_to_set_is_finite;
use vstd::set_lib::lemma_len_subset;
use crate::bytes::{contains_bytes, copy_bytes};
use crate::dag::{lemma_lookup_found, lookup, vertex_views, DAG};
use crate::engine::Engine;
use crate::order::{
    ascending, lemma_ascending_list_exists, lemma_ascending_unique, lemma_lex_asymmetric, lex_less,
    sort_by_hash,
};
use crate::reach::{hashes_of, Search};
use crate::rules::{anchor_of, count_votes, votes_for};
use crate::vertex::{Vertex, VertexView};

verus! {

/// Whether the vertex of hash `h` belongs to the batch of `anchor`: a walk
/// from the anchor reaches it that descends from no finalized vertex, and it
/// is not finalized itself.
pub open spec fn in_batch(log: Seq<VertexView>, ordered: Seq<Seq<u8>>, anchor: VertexView, h: Seq<u8>) -> bool {
    Search { log, start: anchor, floor: None, done: ordered }.reaches(h) && !ordered.contains(h)
}

/// Whether `batch` is the batch of `anchor`: the hashes that belong to it,
/// in strictly ascending order.
pub open spec fn is_batch(
    log: Seq<VertexView>,
    ordered: Seq<Seq<u8>>,
    anchor: VertexView,
    batch: Seq<Seq<u8>>,
) -> bool {
    &&& ascending(batch)
    &&& forall|h: Seq<u8>| #[trigger] batch.contains(h) <==> in_batch(log, ordered, anchor, h)
}

/// The batch of `anchor`.
pub open spec fn batch_of(log: Seq<VertexView>, ordered: Seq<Seq<u8>>, anchor: VertexView) -> Seq<Seq<u8>> {
    choose|batch: Seq<Seq<u8>>| is_batch(log, ordered, anchor, batch)
}

/// A hash that belongs to the batch of `anchor` is the anchor's own or one
/// that the store resolves.
pub proof fn lemma_batch_is_stored(log: Seq<VertexView>, ordered: Seq<Seq<u8>>, anchor: VertexView, h: Seq<u8>)
    requires
        in_batch(log, ordered, anchor, h),
    ensures
        h == anchor.hash || lookup(log, h) is Some,
{
    let s = Search { log, start: anchor, floor: None, done: ordered };
    let p = choose|p: Seq<Seq<u8>>| #[trigger] s.is_walk(p) && p.last() == h;
    if p.len() > 1 {
        assert(s.step_at(p, p.len() - 1));
    }
}

/// Every anchor has a batch: `batch_of` is one.
pub proof fn lemma_batch_exists(log: Seq<VertexView>, ordered: Seq<Seq<u8>>, anchor: VertexView)
    ensures
        is_batch(log, ordered, anchor, batch_of(log, ordered, anchor)),
{
    let members = Set::new(|h: Seq<u8>| in_batch(log, ordered, anchor, h));
    let stored = hashes_of(log).to_set().insert(anchor.hash);
    seq_to_set_is_finite(hashes_of(log));
    assert(members.subset_of(stored)) by {
        assert forall|h: Seq<u8>| members.contains(h) implies stored.contains(h) by {
            lemma_batch_is_stored(log, ordered, anchor, h);
            if h != anchor.hash {
                lemma_lookup_found(log, h);
                let v = lookup(log, h).unwrap();
                let i = choose|i: int| 0 <= i < log.len() && log[i] == v;
                assert(hashes_of(log)[i] == h);
            }
        }
    }
    lemma_len_subset(members, stored);
    lemma_ascending_list_exists(members);
    let list = choose|list: Seq<Seq<u8>>|
        ascending(list) && forall|h: Seq<u8>| #[trigger] list.contains(h) <==> members.contains(h);
    assert(is_batch(log, ordered, anchor, list)) by {
        assert forall|h: Seq<u8>| #[trigger] list.contains(h) <==> in_batch(log, ordered, anchor, h) by {
            assert(list.contains(h) <==> members.contains(h));
        }
    }
}

/// There is one batch of an anchor and no other.
pub proof fn lemma_batch_unique(
    log: Seq<VertexView>,
    ordered: Seq<Seq<u8>>,
    anchor: VertexView,
    batch: Seq<Seq<u8>>,
)
    requires
        is_batch(log, ordered, anchor, batch),
    ensures
        batch == batch_of(log, ordered, anchor),
{
    let other = batch_of(log, ordered, anchor);
    assert(is_batch(log, ordered, anchor, other));
    assert forall|h: Seq<u8>| batch.contains(h) <==> other.contains(h) by {
        assert(batch.contains(h) <==> in_batch(log, ordered, anchor, h));
        assert(other.contains(h) <==> in_batch(log, ordered, anchor, h));
    }
    lemma_ascending_unique(batch, other);
}

/// What ordering a stack of anchors finalizes: the batch of the anchor on
/// top, then, with that batch finalized, what the rest of the stack
/// finalizes.
pub open spec fn history_of(log: Seq<VertexView>, ordered: Seq<Seq<u8>>, stack: Seq<VertexView>) -> Seq<
    Seq<u8>,
>
    decreases stack.len(),
{
    if stack.len() == 0 {
        Seq::empty()
    } else {
        let batch = batch_of(log, ordered, stack.last());
        batch + history_of(log, ordered + batch, stack.drop_last())
    }
}

/// Two rounds below `r`, or round 0 where there is none.
pub open spec fn two_below(r: u64) -> u64 {
    if r >= 2 {
        (r - 2) as u64
    } else {
        0
    }
}

/// The anchors that `current` commits indirectly, from round `r` down in
/// steps of two to above round `last`: each anchor that parent edges lead to
/// from the anchor committed before it. An anchor that is not reached is
/// skipped.
pub open spec fn anchor_chain(dag: DAG, n: nat, last: u64, current: VertexView, r: u64) -> Seq<
    VertexView,
>
    decreases r,
{
    if r <= last {
        Seq::empty()
    } else {
        match anchor_of(dag, r, n) {
            Some(prev) => if dag.path_exists(current, prev) {
                seq![prev] + anchor_chain(dag, n, last, prev, two_below(r))
            } else {
                anchor_chain(dag, n, last, current, two_below(r))
            },
            None => anchor_chain(dag, n, last, current, two_below(r)),
        }
    }
}

impl Engine {
    /// The setup that no operation changes is the same in both.
    pub open spec fn same_setup(&self, other: &Engine) -> bool {
        &&& self.environment == other.environment
        &&& self.f == other.f
        &&& self.mode == other.mode
        &&& self.public_keys == other.public_keys
        &&& self.private_key == other.private_key
        &&& self.transaction_generator == other.transaction_generator
    }

    /// The anchor that a vertex of `round` commits directly: the anchor two
    /// rounds before, if it is above the last ordered round and at least
    /// `f + 1` vertices of the round between have it among their parents.
    pub open spec fn direct_commit(&self, round: u64) -> Option<VertexView> {
        if round < 2 {
            None
        } else {
            match self.anchor((round - 2) as u64) {
                Some(a) => if a.round > self.last_ordered_round && votes_for(
                    self.dag.round_or_empty((round - 1) as u64),
                    a.hash,
                ) >= self.f + 1 {
                    Some(a)
                } else {
                    None
                },
                None => None,
            }
        }
    }

    /// The stack once `anchor` and the anchors it commits indirectly are
    /// pushed.
    pub open spec fn stack_with(&self, anchor: VertexView) -> Seq<VertexView> {
        vertex_views(self.ordered_anchors_stack@).push(anchor) + anchor_chain(
            self.dag,
            self.n(),
            self.last_ordered_round,
            anchor,
            two_below(anchor.round),
        )
    }

    /// Whether `after` is this state with `anchor` committed: the last
    /// ordered round is that of the lowest anchor pushed, the stack is
    /// ordered and empty, and nothing else has changed.
    pub open spec fn committed(&self, after: &Engine, anchor: VertexView) -> bool {
        &&& after.same_setup(self)
        &&& after.dag == self.dag
        &&& after.round == self.round
        &&& after.pending_vertices == self.pending_vertices
        &&& after.rbc == self.rbc
        &&& after.last_ordered_round == self.stack_with(anchor).last().round
        &&& after.ordered_anchors_stack@.len() == 0
        &&& after.ordered() == self.ordered() + history_of(
            self.dag.log(),
            self.ordered(),
            self.stack_with(anchor),
        )
    }

    /// Applies the commit rule on the arrival of `committed_vertex`: if the
    /// anchor two rounds before it is above the last ordered round and at
    /// least `f + 1` vertices of the round between have it among their
    /// parents, the anchor is committed and ordered. Otherwise nothing
    /// changes.
    pub fn try_committing(&mut self, committed_vertex: Vertex)
        requires
            old(self).wf(),
        ensures
            final(self).wf(),
            match old(self).direct_commit(committed_vertex@.round) {
                Some(anchor) => old(self).committed(final(self), anchor),
                None => *final(self) == *old(self),
            },
    {
        if committed_vertex.round < 2 {
            return;
        }
        let anchor_round = committed_vertex.round - 2;
        let anchor = match self.get_anchor(anchor_round) {
            Some(a) => a.duplicate(),
            None => {
                return;
            },
        };
        if anchor.round <= self.last_ordered_round {
            return;
        }
        let mut vote_count: usize = 0;
        match self.dag.get_round(anchor_round + 1) {
            Some(voters) => {
                vote_count = count_votes(voters, &anchor.hash);
            },
            None => {},
        }
        let n = self.environment.nodes.len();
        assert(self.f <= n / 3);
        let direct_commit_threshold = self.f + 1;
        if vote_count >= direct_commit_threshold {
            self.order_anchors(anchor);
        }
    }

    /// Commits `anchor`: pushes it on the stack, then walks down from two
    /// rounds below it in steps of two to above the last ordered round and
    /// pushes each anchor that parent edges lead to from the one pushed
    /// before; sets the last ordered round to the round of the lowest anchor
    /// pushed; and orders the stack.
    pub fn order_anchors(&mut self, anchor: Vertex)
        requires
            old(self).wf(),
        ensures
            final(self).wf(),
            old(self).committed(final(self), anchor@),
    {
        let ghost start = vertex_views(self.ordered_anchors_stack@);
        let ghost chain = anchor_chain(
            self.dag,
            self.n(),
            self.last_ordered_round,
            anchor@,
            two_below(anchor.round),
        );
        self.ordered_anchors_stack.push(anchor.duplicate());
        let mut current_anchor = anchor;
        let mut r: u64 = if current_anchor.round >= 2 {
            current_anchor.round - 2
        } else {
            0
        };
        let ghost mut pushed: Seq<VertexView> = Seq::empty();
        proof {
            assert(vertex_views(self.ordered_anchors_stack@) =~= start.push(anchor@) + pushed);
            assert(pushed + chain =~= chain);
        }
        while r > self.last_ordered_round
            invariant
                self.wf(),
                self.same_setup(old(self)),
                self.dag == old(self).dag,
                self.round == old(self).round,
                self.last_ordered_round == old(self).last_ordered_round,
                self.pending_vertices == old(self).pending_vertices,
                self.rbc == old(self).rbc,
                self.already_ordered == old(self).already_ordered,
                vertex_views(self.ordered_anchors_stack@) == start.push(anchor@) + pushed,
                chain == pushed + anchor_chain(
                    self.dag,
                    self.n(),
                    self.last_ordered_round,
                    current_anchor@,
                    r,
                ),
            decreases r,
        {
            let ghost rest = anchor_chain(
                self.dag,
                self.n(),
                self.last_ordered_round,
                current_anchor@,
                two_below(r),
            );
            let found = match self.get_anchor(r) {
                Some(prev) => Some(prev.duplicate()),
                None => None,
            };
            match found {
                Some(prev_anchor) => {
                    if self.dag.has_path(&current_anchor, &prev_anchor) {
                        let ghost stack = vertex_views(self.ordered_anchors_stack@);
                        self.ordered_anchors_stack.push(prev_anchor.duplicate());
                        proof {
                            let tail = anchor_chain(
                                self.dag,
                                self.n(),
                                self.last_ordered_round,
                                prev_anchor@,
                                two_below(r),
                            );
                            assert(chain =~= pushed.push(prev_anchor@) + tail);
                            assert(vertex_views(self.ordered_anchors_stack@) =~= stack.push(
                                prev_anchor@,
                            ));
                            assert(vertex_views(self.ordered_anchors_stack@) =~= start.push(
                                anchor@,
                            ) + pushed.push(prev_anchor@));
                            pushed = pushed.push(prev_anchor@);
                        }
                        current_anchor = prev_anchor;
                    }
                },
                None => {},
            }
            r = if r >= 2 {
                r - 2
            } else {
                0
            };
        }
        proof {
            assert(chain =~= pushed);
            assert(vertex_views(self.ordered_anchors_stack@) =~= old(self).stack_with(anchor@));
        }
        let top = self.ordered_anchors_stack.len() - 1;
        let new_ordered_round = self.ordered_anchors_stack[top].round;
        self.last_ordered_round = new_ordered_round;
        self.order_history();
    }

    /// Finalizes the causal past of each anchor on the stack, the top one
    /// first: the vertices that a breadth-first search from the anchor
    /// reaches without descending from a finalized vertex, those of them not
    /// finalized yet, in ascending order of their hashes.
    pub fn order_history(&mut self)
        requires
            old(self).wf(),
        ensures
            final(self).wf(),
            final(self).same_setup(old(self)),
            final(self).dag == old(self).dag,
            final(self).round == old(self).round,
            final(self).last_ordered_round == old(self).last_ordered_round,
            final(self).pending_vertices == old(self).pending_vertices,
            final(self).rbc == old(self).rbc,
            final(self).ordered_anchors_stack@.len() == 0,
            final(self).ordered() == old(self).ordered() + history_of(
                old(self).dag.log(),
                old(self).ordered(),
                vertex_views(old(self).ordered_anchors_stack@),
            ),
    {
        let ghost log = self.dag.log();
        let ghost total = old(self).ordered() + history_of(
            log,
            old(self).ordered(),
            vertex_views(old(self).ordered_anchors_stack@),
        );
        assert(self.ordered() + Seq::<Seq<u8>>::empty() =~= self.ordered());
        while self.ordered_anchors_stack.len() > 0
            invariant
                self.wf(),
                self.same_setup(old(self)),
                self.dag == old(self).dag,
                self.round == old(self).round,
                self.last_ordered_round == old(self).last_ordered_round,
                self.pending_vertices == old(self).pending_vertices,
                self.rbc == old(self).rbc,
                log == self.dag.log(),
                total == self.ordered() + history_of(
                    log,
                    self.ordered(),
                    vertex_views(self.ordered_anchors_stack@),
                ),
            decreases self.ordered_anchors_stack@.len(),
        {
            let ghost stack = vertex_views(self.ordered_anchors_stack@);
            let ghost before = self.ordered();
            let anchor = self.ordered_anchors_stack.pop().unwrap();
            assert(stack.last() == anchor@);
            assert(stack.drop_last() =~= vertex_views(self.ordered_anchors_stack@));
            let to_order_queue = self.dag.causal_closure(&anchor, None, &self.already_ordered);
            let ghost reached = hashes_of(vertex_views(to_order_queue@));
            let sorted = sort_by_hash(to_order_queue);
            let ghost sorted_hashes = hashes_of(vertex_views(sorted@));
            proof {
                assert forall|h: Seq<u8>| sorted_hashes.contains(h) <==> reached.contains(h) by {
                    if sorted_hashes.contains(h) {
                        let i = choose|i: int| 0 <= i < sorted_hashes.len() && sorted_hashes[i] == h;
                        let v = vertex_views(sorted@)[i];
                        assert(vertex_views(sorted@).contains(v));
                        let j = choose|j: int|
                            0 <= j < to_order_queue@.len() && vertex_views(to_order_queue@)[j] == v;
                        assert(reached[j] == h);
                    }
                    if reached.contains(h) {
                        let j = choose|j: int| 0 <= j < reached.len() && reached[j] == h;
                        let v = vertex_views(to_order_queue@)[j];
                        assert(vertex_views(to_order_queue@).contains(v));
                        let i = choose|i: int|
                            0 <= i < sorted@.len() && vertex_views(sorted@)[i] == v;
                        assert(sorted_hashes[i] == h);
                    }
                }
            }
            let ghost mut batch: Seq<Seq<u8>> = Seq::empty();
            let mut k: usize = 0;
            assert(before + batch =~= before);
            while k < sorted.len()
                invariant
                    k <= sorted.len(),
                    sorted_hashes == hashes_of(vertex_views(sorted@)),
                    ascending(sorted_hashes),
                    before.no_duplicates(),
                    self.ordered() == before + batch,
                    self.ordered().no_duplicates(),
                    self.finalized_block_count == self.already_ordered@.len(),
                    ascending(batch),
                    forall|h: Seq<u8>|
                        #[trigger] batch.contains(h) <==> (exists|j: int|
                            0 <= j < k && sorted_hashes[j] == h) && !before.contains(h),
                    self.dag.wf(),
                    self.same_setup(old(self)),
                    self.dag == old(self).dag,
                    self.round == old(self).round,
                    self.last_ordered_round == old(self).last_ordered_round,
                    self.pending_vertices == old(self).pending_vertices,
                    self.rbc == old(self).rbc,
                    stack.len() > 0,
                    stack.drop_last() == vertex_views(self.ordered_anchors_stack@),
                decreases sorted.len() - k,
            {
                let ghost h = sorted_hashes[k as int];
                let ghost prior = batch;
                proof {
                    // The hash at `k` follows every hash emitted so far.
                    assert forall|i: int| 0 <= i < batch.len() implies lex_less(
                        #[trigger] batch[i],
                        h,
                    ) by {
                        assert(batch.contains(batch[i]));
                        let j = choose|j: int| 0 <= j < k && sorted_hashes[j] == batch[i];
                        assert(lex_less(sorted_hashes[j], sorted_hashes[k as int]));
                    }
                    assert(!batch.contains(h)) by {
                        if batch.contains(h) {
                            let i = choose|i: int| 0 <= i < batch.len() && batch[i] == h;
                            assert(lex_less(batch[i], h));
                            lemma_lex_asymmetric(h, h);
                        }
                    }
                    assert(self.ordered().contains(h) <==> before.contains(h)) by {
                        if self.ordered().contains(h) {
                            let i = choose|i: int|
                                0 <= i < self.ordered().len() && self.ordered()[i] == h;
                            if i >= before.len() {
                                assert(batch[i - before.len()] == h);
                            }
                        }
                        if before.contains(h) {
                            let i = choose|i: int| 0 <= i < before.len() && before[i] == h;
                            assert(self.ordered()[i] == h);
                        }
                    }
                }
                if !contains_bytes(&self.already_ordered, &sorted[k].hash) {
                    let ghost ordered_before = self.ordered();
                    self.already_ordered.push(copy_bytes(&sorted[k].hash));
                    let finalized = self.already_ordered.len();
                    self.finalized_block_count += 1;
                    proof {
                        batch = prior.push(h);
                        assert(self.ordered() =~= ordered_before.push(h));
                        assert(self.ordered() =~= before + batch);
                        assert(ascending(batch)) by {
                            assert forall|p: int, q: int| 0 <= p < q < batch.len() implies lex_less(
                                #[trigger] batch[p],
                                #[trigger] batch[q],
                            ) by {
                                if q < prior.len() {
                                    assert(lex_less(prior[p], prior[q]));
                                } else {
                                    assert(lex_less(prior[p], h));
                                }
                            }
                        }
                    }
                }
                proof {
                    assert forall|g: Seq<u8>| #[trigger]
                        batch.contains(g) <==> (exists|j: int|
                            0 <= j < k + 1 && sorted_hashes[j] == g) && !before.contains(g) by {
                        if batch.contains(g) {
                            let i = choose|i: int| 0 <= i < batch.len() && batch[i] == g;
                            if i < prior.len() {
                                assert(prior[i] == g);
                                assert(prior.contains(g));
                                let j = choose|j: int| 0 <= j < k && sorted_hashes[j] == g;
                                assert(0 <= j < k + 1 && sorted_hashes[j] == g);
                            } else {
                                assert(g == h);
                                assert(sorted_hashes[k as int] == g);
                            }
                        }
                        if (exists|j: int| 0 <= j < k + 1 && sorted_hashes[j] == g) && !before.contains(
                            g,
                        ) {
                            let j = choose|j: int| 0 <= j < k + 1 && sorted_hashes[j] == g;
                            if j < k {
                                assert(prior.contains(g));
                                let i = choose|i: int| 0 <= i < prior.len() && prior[i] == g;
                                assert(batch[i] == g);
                            } else {
                                assert(batch[batch.len() - 1] == g);
                            }
                        }
                    }
                    assert(self.ordered().no_duplicates()) by {
                        assert forall|p: int, q: int|
                            0 <= p < self.ordered().len() && 0 <= q < self.ordered().len() && p
                                != q implies self.ordered()[p] != self.ordered()[q] by {
                            let a = self.ordered()[p];
                            let b = self.ordered()[q];
                            if p < before.len() && q < before.len() {
                                assert(before[p] != before[q]);
                            } else if p >= before.len() && q >= before.len() {
                                let bp = p - before.len();
                                let bq = q - before.len();
                                if bp < bq {
                                    assert(lex_less(batch[bp], batch[bq]));
                                } else {
                                    assert(lex_less(batch[bq], batch[bp]));
                                }
                                lemma_lex_asymmetric(a, b);
                                lemma_lex_asymmetric(a, a);
                            } else if p < before.len() {
                                assert(batch.contains(batch[q - before.len()]));
                                assert(before[p] == a);
                            } else {
                                assert(batch.contains(batch[p - before.len()]));
                                assert(before[q] == b);
                            }
                        }
                    }
                }
                k += 1;
            }
            proof {
                let s = self.dag.search(anchor@, None, before);
                assert forall|h: Seq<u8>| #[trigger]
                    batch.contains(h) <==> in_batch(log, before, anchor@, h) by {
                    if batch.contains(h) {
                        let j = choose|j: int| 0 <= j < k && sorted_hashes[j] == h;
                        assert(sorted_hashes.contains(h));
                    }
                    if in_batch(log, before, anchor@, h) {
                        assert(reached.contains(h));
                        assert(sorted_hashes.contains(h));
                        let j = choose|j: int|
                            0 <= j < sorted_hashes.len() && sorted_hashes[j] == h;
                        assert(0 <= j < k && sorted_hashes[j] == h);
                    }
                }
                lemma_batch_unique(log, before, anchor@, batch);
            }
        }
    }
}

} // verus!
