//! What holds of the protocol's rules, beyond the contract of any one
//! function.

use vstd::prelude::*;
use crate::commit::{
    anchor_chain, batch_of, history_of, in_batch, is_batch, lemma_batch_exists, lemma_batch_is_stored,
    two_below,
};
use crate::dag::{lemma_lookup_found, lemma_lookup_kept, lemma_lookup_total, lookup, vertex_views, DAG};
use crate::order::lemma_ascending_unique;
use crate::reach::{hashes_of, Search};
use crate::run::{inserted, joined, PendingView};
use crate::engine::{Engine, Mode};
use crate::multisig::{decoded_proof, proof_admissible};
use crate::rules::{
    anchor_of, extends, has_parents, lemma_anchor_stored, lemma_extends_self,
    lemma_extends_transitive, lemma_parents_kept,
};
use crate::message::MessageView;
use crate::vertex::{content_hash, genesis_hash, genesis_view, hash_preimage, VertexView};

verus! {

/// The content hash of a vertex is a function of its round, source, block,
/// parents, round signature and sample proof, and of nothing else: the hash
/// that the vertex carries does not enter it.
pub proof fn law_hash_depends_on_content_alone(v: VertexView, w: VertexView)
    requires
        v.round == w.round,
        v.source == w.source,
        v.block == w.block,
        v.edges == w.edges,
        v.signed_round == w.signed_round,
        v.sample_proof == w.sample_proof,
    ensures
        content_hash(v) == content_hash(w),
{
    assert(hash_preimage(v) == hash_preimage(w));
}

/// Every stored vertex but genesis carries its content hash, from the start
/// on: if the vertices of a state do, those of every later state do.
pub proof fn law_stored_vertices_carry_their_hash(before: &Engine, after: &Engine, i: int)
    requires
        before.hashes_hold(),
        before.evolves(after),
        0 <= i < after.dag.log().len(),
    ensures
        after.dag.log()[i] == genesis_view() || after.dag.log()[i].hash == content_hash(
            after.dag.log()[i],
        ),
{
}

/// Every stored vertex above round 0 has, for each of its parent hashes, a
/// vertex stored in the round before its own.
pub proof fn law_parents_are_stored(node: &Engine, i: int)
    requires
        node.wf(),
        0 <= i < node.dag.log().len(),
        node.dag.log()[i].round >= 1,
    ensures
        has_parents(node.dag, node.dag.log()[i]),
{
}

/// The two indexes of a store agree: the vertex that a hash resolves to
/// carries that hash and stands in the round it names, and every vertex of a
/// round resolves by its hash.
pub proof fn law_indexes_agree(dag: DAG, h: Seq<u8>, r: u64, i: int)
    requires
        dag.wf(),
    ensures
        dag.by_hash(h) matches Some(v) ==> v.hash == h && dag.round_or_empty(v.round).contains(v),
        0 <= i < dag.round_or_empty(r).len() ==> dag.round_or_empty(r)[i].round == r && dag.by_hash(
            dag.round_or_empty(r)[i].hash,
        ) is Some,
{
    lemma_lookup_found(dag.log(), h);
    if dag.by_hash(h) is Some {
        let v = dag.by_hash(h).unwrap();
        let j = choose|j: int| 0 <= j < dag.log().len() && dag.log()[j] == v;
        assert(dag.round_or_empty(dag.log()[j].round).contains(dag.log()[j]));
    }
    if 0 <= i < dag.round_or_empty(r).len() {
        dag.lemma_stored_resolves(r, i);
    }
}

/// A round never holds fewer vertices than it held: in a store that extends
/// another, each round is at least as long.
pub proof fn law_rounds_grow(before: DAG, after: DAG, r: u64)
    requires
        extends(before, after),
    ensures
        before.round_or_empty(r).len() <= after.round_or_empty(r).len(),
        before.log().len() <= after.log().len(),
{
    assert(before.round_or_empty(r).is_prefix_of(after.round_or_empty(r)));
}

/// What is finalized stays finalized, in its place, and nothing is finalized
/// twice: the finalized sequence of a later state begins with that of the
/// earlier one and has no hash twice.
pub proof fn law_finalized_grows(before: &Engine, after: &Engine)
    requires
        before.evolves(after),
        after.wf(),
    ensures
        before.ordered().len() <= after.ordered().len(),
        forall|i: int| 0 <= i < before.ordered().len() ==> after.ordered()[i] == before.ordered()[i],
        after.ordered().no_duplicates(),
{
    assert(before.ordered().is_prefix_of(after.ordered()));
}

/// The round never goes back, and every round left but round 1 was left on
/// a quorum: the round before it holds `2f + 1` vertices.
pub proof fn law_rounds_advance_on_quorum(before: &Engine, after: &Engine, left: u64)
    requires
        before.evolves(after),
        after.wf(),
        2 <= left < after.round,
    ensures
        before.round <= after.round,
        after.dag.round_or_empty((left - 1) as u64).len() >= 2 * after.f + 1,
{
    let p = (left - 1) as u64;
    assert(1 <= p && p + 1 < after.round);
}

/// A pass over the buffer leaves the round where it is.
proof fn lemma_promotion_keeps_round(node: &Engine, after: &Engine, r: u64, trace: Seq<Engine>, k: int)
    requires
        node.is_promotion(after, r, trace),
        0 <= k < trace.len(),
    ensures
        trace[k].round == node.round,
    decreases k,
{
    if k > 0 {
        lemma_promotion_keeps_round(node, after, r, trace, k - 1);
        assert(node.promotion_step(trace, r, k - 1));
    }
}

/// The round moves on only on a quorum, and then by one: a pass of the work
/// loop ends one round later if the node may advance, and in the same round
/// if it may not.
pub proof fn law_round_moves_on_quorum_only(node: &Engine, after: &Engine, outbox: Seq<MessageView>)
    requires
        node.passed(after, outbox),
    ensures
        after.round == if node.may_advance() {
            node.round + 1
        } else {
            node.round as int
        },
        after.round != node.round ==> node.round == 1 || node.dag.round_or_empty(
            (node.round - 1) as u64,
        ).len() >= 2 * node.f + 1,
{
    let (moved, between) = choose|moved: Engine, between: Engine|
        node.is_pass(after, outbox, moved, between);
    let before = (moved.round - 1) as u64;
    let current = moved.round;
    let first = choose|trace: Seq<Engine>| moved.is_promotion(&between, before, trace);
    let second = choose|trace: Seq<Engine>| between.is_promotion(after, current, trace);
    lemma_promotion_keeps_round(&moved, &between, before, first, first.len() - 1);
    lemma_promotion_keeps_round(&between, after, current, second, second.len() - 1);
}

/// Below the last round that can be named, a node may advance iff it
/// stands in round 1 or the round before holds `2f + 1` vertices. Among four
/// nodes that is three vertices: three let the node advance, two do not.
pub proof fn law_may_advance(node: &Engine)
    requires
        node.wf(),
        node.round < u64::MAX,
    ensures
        node.may_advance() == (node.round == 1 || node.dag.round_or_empty(
            (node.round - 1) as u64,
        ).len() >= 2 * node.f + 1),
        node.n() == 4 ==> node.f == 1,
        node.n() == 4 && node.round > 1 ==> node.may_advance() == (node.dag.round_or_empty(
            (node.round - 1) as u64,
        ).len() >= 3),
{
}

/// The number of vertex messages among messages.
pub open spec fn vertex_messages(outbox: Seq<MessageView>) -> nat
    decreases outbox.len(),
{
    if outbox.len() == 0 {
        0
    } else {
        vertex_messages(outbox.drop_last()) + if outbox.last() is Vertex {
            1nat
        } else {
            0nat
        }
    }
}

/// The vertex messages of two lists joined are those of the one and those
/// of the other.
pub proof fn lemma_vertex_messages_add(a: Seq<MessageView>, b: Seq<MessageView>)
    ensures
        vertex_messages(a + b) == vertex_messages(a) + vertex_messages(b),
    decreases b.len(),
{
    if b.len() == 0 {
        assert(a + b =~= a);
    } else {
        assert((a + b).drop_last() =~= a + b.drop_last());
        assert((a + b).last() == b.last());
        lemma_vertex_messages_add(a, b.drop_last());
    }
}

/// A vertex message, alone or with an ECHO after it, is one vertex message.
proof fn lemma_one_vertex_message(outbox: Seq<MessageView>)
    requires
        1 <= outbox.len() <= 2,
        outbox[0] is Vertex,
        outbox.len() == 2 ==> outbox[1] is Echo,
    ensures
        vertex_messages(outbox) == 1,
{
    let first = seq![outbox[0]];
    assert(vertex_messages(Seq::<MessageView>::empty()) == 0);
    assert(first.drop_last() =~= Seq::<MessageView>::empty());
    assert(first.last() == outbox[0]);
    assert(vertex_messages(first) == 1);
    if outbox.len() == 2 {
        assert(outbox.drop_last() =~= first);
    } else {
        assert(outbox =~= first);
    }
}

/// What advancing a round sends: this node's new vertex of the round it
/// leaves, and in dense mode at most an ECHO after it.
proof fn lemma_advance_sends(node: &Engine, moved: &Engine, outbox: Seq<MessageView>)
    requires
        node.advanced(moved, outbox),
    ensures
        1 <= outbox.len() <= 2,
        outbox[0] == (MessageView::Vertex {
            sender: node.my_id(),
            vertex: node.new_vertex(node.round),
        }),
        outbox.len() == 2 ==> outbox[1] is Echo,
{
    let rest = outbox.subrange(1, outbox.len() as int);
    if rest.len() > 0 {
        assert(rest[0] == outbox[1]);
    }
}

/// A pass of the work loop sends one vertex message for the round it
/// leaves, and none if it leaves none: the vertex is this node's new vertex
/// of that round, sent first.
pub proof fn law_pass_sends_its_vertex(node: &Engine, after: &Engine, outbox: Seq<MessageView>)
    requires
        node.passed(after, outbox),
    ensures
        vertex_messages(outbox) == after.round - node.round,
        node.may_advance() ==> outbox.len() >= 1 && outbox[0] == (MessageView::Vertex {
            sender: node.my_id(),
            vertex: node.new_vertex(node.round),
        }),
        !node.may_advance() ==> outbox.len() == 0,
{
    law_round_moves_on_quorum_only(node, after, outbox);
    let (moved, between) = choose|moved: Engine, between: Engine|
        node.is_pass(after, outbox, moved, between);
    if node.may_advance() {
        lemma_advance_sends(node, &moved, outbox);
        lemma_one_vertex_message(outbox);
    }
}

/// The new vertex of a round is of that round and of this node.
pub proof fn law_new_vertex_is_own(node: &Engine, round: u64)
    ensures
        node.new_vertex(round).round == round,
        node.new_vertex(round).source == node.my_id(),
{
}

/// Up to pass `k` of a run the node has sent as many vertex messages as it
/// has left rounds.
proof fn lemma_run_sends_its_vertices(
    node: &Engine,
    after: &Engine,
    trace: Seq<Engine>,
    sent: Seq<Seq<MessageView>>,
    k: int,
)
    requires
        node.is_run(after, trace, sent),
        0 <= k <= sent.len(),
    ensures
        vertex_messages(joined(sent.subrange(0, k))) == trace[k].round - node.round,
        trace[k].round >= node.round,
    decreases k,
{
    if k > 0 {
        lemma_run_sends_its_vertices(node, after, trace, sent, k - 1);
        assert(Engine::run_step(trace, sent, k - 1));
        law_pass_sends_its_vertex(&trace[k - 1], &trace[k], sent[k - 1]);
        let upto = sent.subrange(0, k);
        assert(upto.drop_last() =~= sent.subrange(0, k - 1));
        assert(upto.last() == sent[k - 1]);
        lemma_vertex_messages_add(joined(sent.subrange(0, k - 1)), sent[k - 1]);
    } else {
        assert(sent.subrange(0, 0) =~= Seq::<Seq<MessageView>>::empty());
    }
}

/// A run of the work loop leaves as many rounds as it sends vertex
/// messages, and never goes back: each round left, one vertex of this node
/// made, stored and sent.
pub proof fn law_run_sends_its_vertices(node: &Engine, after: &Engine, outbox: Seq<MessageView>)
    requires
        node.ran(after, outbox),
    ensures
        after.round >= node.round,
        vertex_messages(outbox) == after.round - node.round,
{
    let (trace, sent) = choose|trace: Seq<Engine>, sent: Seq<Seq<MessageView>>|
        node.is_run(after, trace, sent) && outbox == joined(sent);
    lemma_run_sends_its_vertices(node, after, trace, sent, sent.len() as int);
    assert(sent.subrange(0, sent.len() as int) =~= sent);
}

/// An anchor committed with no earlier round left to walk to, on an empty
/// stack, finalizes its batch and nothing else: the hashes that a walk from
/// it reaches without descending from a finalized vertex, as far as they
/// are not finalized, in ascending order; and the last ordered round is the
/// anchor's.
pub proof fn law_commit_finalizes_the_batch(node: &Engine, after: &Engine, anchor: VertexView)
    requires
        node.committed(after, anchor),
        node.ordered_anchors_stack@.len() == 0,
        two_below(anchor.round) <= node.last_ordered_round,
    ensures
        after.ordered() == node.ordered() + batch_of(node.dag.log(), node.ordered(), anchor),
        is_batch(
            node.dag.log(),
            node.ordered(),
            anchor,
            batch_of(node.dag.log(), node.ordered(), anchor),
        ),
        after.last_ordered_round == anchor.round,
{
    let log = node.dag.log();
    let stack = node.stack_with(anchor);
    assert(stack =~= seq![anchor]);
    lemma_batch_exists(log, node.ordered(), anchor);
    let batch = batch_of(log, node.ordered(), anchor);
    assert(stack.drop_last() =~= Seq::<VertexView>::empty());
    assert(history_of(log, node.ordered() + batch, stack.drop_last()) =~= Seq::<Seq<u8>>::empty());
    assert(history_of(log, node.ordered(), stack) =~= batch);
}

/// A store with a vertex inserted extends the store.
proof fn lemma_inserted_extends(before: DAG, after: DAG, v: VertexView)
    requires
        inserted(before, after, v),
    ensures
        extends(before, after),
{
    assert(before.log().is_prefix_of(after.log()));
    assert forall|r: u64| #[trigger]
        before.round_or_empty(r).is_prefix_of(after.round_or_empty(r)) by {
        if r != v.round {
            assert(after.round_view(r) == before.round_view(r));
        }
    }
    assert forall|r: u64| before.round_view(r) is Some implies #[trigger] after.round_view(
        r,
    ) is Some by {
        if r != v.round {
            assert(after.round_view(r) == before.round_view(r));
        }
    }
}

/// From one state of a pass over the buffer of round `r` to a later one the
/// store is extended; mode, keys and round stay, and so does what is
/// buffered under other rounds.
proof fn lemma_pass_extends(node: &Engine, after: &Engine, r: u64, trace: Seq<Engine>, j: int, k: int)
    requires
        node.is_promotion(after, r, trace),
        0 <= j <= k < trace.len(),
    ensures
        extends(trace[j].dag, trace[k].dag),
        trace[k].mode == trace[j].mode,
        trace[k].public_keys == trace[j].public_keys,
        trace[k].round == trace[j].round,
        forall|q: u64| q != r ==> #[trigger] trace[k].pending_of(q) == trace[j].pending_of(q),
    decreases k - j,
{
    if j == k {
        lemma_extends_self(trace[j].dag);
    } else {
        lemma_pass_extends(node, after, r, trace, j, k - 1);
        assert(node.promotion_step(trace, r, k - 1));
        let from = trace[k - 1];
        let to = trace[k];
        if from.dag == to.dag {
            lemma_extends_self(from.dag);
        } else {
            lemma_inserted_extends(from.dag, to.dag, node.pending_of(r)[k - 1].vertex);
        }
        lemma_extends_transitive(trace[j].dag, from.dag, to.dag);
        assert forall|q: u64| q != r implies #[trigger] trace[k].pending_of(q) == trace[j].pending_of(
            q,
        ) by {
            assert(from.pending_of(q) == trace[j].pending_of(q));
            assert(to.pending_of(q) == from.pending_of(q));
        }
    }
}

/// A vertex that meets the validation rule meets it in every state with a
/// store that extends, and the same mode and keys.
pub proof fn law_valid_stays_valid(node: &Engine, after: &Engine, v: VertexView, round: u64, source: u32)
    requires
        extends(node.dag, after.dag),
        after.mode == node.mode,
        after.public_keys == node.public_keys,
        node.valid_given(v, round, source, true),
    ensures
        after.valid_given(v, round, source, true),
{
    if v.round != 1 {
        lemma_parents_kept(node.dag, after.dag, v);
    }
}

/// A pass over the buffer of round `r` takes in every vertex buffered under
/// `r` whose verdict is pinned (any in dense mode, one of round 1 in sparse
/// mode) and that meets the validation rule when the pass begins: after the
/// pass the store holds its hash.
pub proof fn law_pass_accepts_what_is_valid(node: &Engine, after: &Engine, r: u64, i: int)
    requires
        node.promoted(after, r),
        0 <= i < node.pending_of(r).len(),
        node.verdict_pinned(node.pending_of(r)[i].vertex),
        node.valid_given(
            node.pending_of(r)[i].vertex,
            node.pending_of(r)[i].vertex.round,
            node.pending_of(r)[i].from,
            true,
        ),
    ensures
        after.holds(node.pending_of(r)[i].vertex),
{
    let trace = choose|trace: Seq<Engine>| node.is_promotion(after, r, trace);
    let item = node.pending_of(r)[i];
    let v = item.vertex;
    lemma_pass_extends(node, after, r, trace, 0, i);
    law_valid_stays_valid(node, &trace[i], v, v.round, item.from);
    assert(node.promotion_step(trace, r, i));
    let met = trace[i];
    let taken = trace[i + 1];
    assert(met.taken_in(&taken, v));
    if !met.holds(v) {
        assert(inserted(met.dag, taken.dag, v));
        assert(taken.dag.log()[met.dag.log().len() as int] == v);
        lemma_lookup_total(taken.dag.log(), met.dag.log().len() as int);
    }
    assert(taken.holds(v));
    lemma_pass_extends(node, after, r, trace, i + 1, trace.len() - 1);
    lemma_lookup_kept(taken.dag.log(), after.dag.log(), v.hash);
}

/// A pass over the buffer of round `r` extends the store and keeps mode,
/// keys, round and what is buffered under other rounds.
proof fn lemma_promoted_keeps(node: &Engine, after: &Engine, r: u64)
    requires
        node.promoted(after, r),
    ensures
        extends(node.dag, after.dag),
        after.mode == node.mode,
        after.public_keys == node.public_keys,
        after.round == node.round,
        forall|q: u64| q != r ==> #[trigger] after.pending_of(q) == node.pending_of(q),
{
    let trace = choose|trace: Seq<Engine>| node.is_promotion(after, r, trace);
    lemma_pass_extends(node, after, r, trace, 0, trace.len() - 1);
    assert forall|q: u64| q != r implies #[trigger] after.pending_of(q) == node.pending_of(q) by {
        assert(trace[0].pending_of(q) == node.pending_of(q));
    }
}

/// Advancing a round extends the store, moves to the next round, and keeps
/// mode, keys and the buffer.
proof fn lemma_advanced_keeps(node: &Engine, moved: &Engine, outbox: Seq<MessageView>)
    requires
        node.advanced(moved, outbox),
        node.round < u64::MAX,
    ensures
        extends(node.dag, moved.dag),
        moved.mode == node.mode,
        moved.public_keys == node.public_keys,
        moved.round == node.round + 1,
        moved.pending_vertices == node.pending_vertices,
{
    lemma_inserted_extends(node.dag, moved.dag, node.new_vertex(node.round));
}

/// One pass of the work loop extends the store and keeps mode and keys.
proof fn lemma_passed_keeps(node: &Engine, after: &Engine, outbox: Seq<MessageView>)
    requires
        node.passed(after, outbox),
    ensures
        extends(node.dag, after.dag),
        after.mode == node.mode,
        after.public_keys == node.public_keys,
{
    let (moved, between) = choose|moved: Engine, between: Engine|
        node.is_pass(after, outbox, moved, between);
    if node.may_advance() {
        lemma_advanced_keeps(node, &moved, outbox);
    } else {
        lemma_extends_self(node.dag);
    }
    lemma_promoted_keeps(&moved, &between, (moved.round - 1) as u64);
    lemma_promoted_keeps(&between, after, moved.round);
    lemma_extends_transitive(node.dag, moved.dag, between.dag);
    lemma_extends_transitive(node.dag, between.dag, after.dag);
}

/// From one state of a run of the work loop to a later one the store is
/// extended, and mode and keys stay.
proof fn lemma_run_extends(trace: Seq<Engine>, sent: Seq<Seq<MessageView>>, j: int, k: int)
    requires
        trace.len() == sent.len() + 1,
        forall|i: int| 0 <= i < sent.len() ==> #[trigger] Engine::run_step(trace, sent, i),
        0 <= j <= k < trace.len(),
    ensures
        extends(trace[j].dag, trace[k].dag),
        trace[k].mode == trace[j].mode,
        trace[k].public_keys == trace[j].public_keys,
    decreases k - j,
{
    if j == k {
        lemma_extends_self(trace[j].dag);
    } else {
        lemma_run_extends(trace, sent, j, k - 1);
        assert(Engine::run_step(trace, sent, k - 1));
        lemma_passed_keeps(&trace[k - 1], &trace[k], sent[k - 1]);
        lemma_extends_transitive(trace[j].dag, trace[k - 1].dag, trace[k].dag);
    }
}

/// A run of the work loop takes in every vertex that is buffered under a
/// round that its first pass looks at, whose verdict is pinned (any in
/// dense mode, one of round 1 in sparse mode) and that meets the validation
/// rule when the run begins: when the loop has come to rest the store holds
/// its hash. The first pass looks at the current round and, if the node
/// does not advance first, at the round before.
pub proof fn law_run_accepts_what_is_valid(
    node: &Engine,
    after: &Engine,
    outbox: Seq<MessageView>,
    r: u64,
    i: int,
)
    requires
        node.round >= 1,
        node.ran(after, outbox),
        r == node.round || (r == node.round - 1 && !node.may_advance()),
        0 <= i < node.pending_of(r).len(),
        node.verdict_pinned(node.pending_of(r)[i].vertex),
        node.valid_given(
            node.pending_of(r)[i].vertex,
            node.pending_of(r)[i].vertex.round,
            node.pending_of(r)[i].from,
            true,
        ),
    ensures
        after.holds(node.pending_of(r)[i].vertex),
{
    let (trace, sent) = choose|trace: Seq<Engine>, sent: Seq<Seq<MessageView>>|
        node.is_run(after, trace, sent) && outbox == joined(sent);
    let item = node.pending_of(r)[i];
    let v = item.vertex;
    let passed = trace[1];
    assert(Engine::run_step(trace, sent, 0));
    let (moved, between) = choose|moved: Engine, between: Engine|
        node.is_pass(&passed, sent[0], moved, between);
    if node.may_advance() {
        lemma_advanced_keeps(node, &moved, sent[0]);
    } else {
        lemma_extends_self(node.dag);
    }
    let before = (moved.round - 1) as u64;
    lemma_promoted_keeps(&moved, &between, before);
    lemma_promoted_keeps(&between, &passed, moved.round);
    law_valid_stays_valid(node, &moved, v, v.round, item.from);
    if r == before {
        law_pass_accepts_what_is_valid(&moved, &between, r, i);
        lemma_lookup_kept(between.dag.log(), passed.dag.log(), v.hash);
    } else {
        assert(between.pending_of(r) == moved.pending_of(r));
        law_valid_stays_valid(&moved, &between, v, v.round, item.from);
        law_pass_accepts_what_is_valid(&between, &passed, r, i);
    }
    lemma_run_extends(trace, sent, 1, trace.len() - 1);
    lemma_lookup_kept(passed.dag.log(), after.dag.log(), v.hash);
}

/// A hash that is delivered is not delivered again: no READY brings its
/// delivery.
pub proof fn law_delivered_once(node: &Engine, sender: u32, h: Seq<u8>)
    requires
        node.rbc.delivered(h),
    ensures
        !node.delivers(sender, h),
{
}

/// A READY that arrives after the delivery of its hash is ignored: nothing
/// changes and nothing is sent.
pub proof fn law_ready_after_delivery(
    node: &Engine,
    after: &Engine,
    sender: u32,
    h: Seq<u8>,
    outbox: Seq<MessageView>,
)
    requires
        node.rbc.delivered(h),
        node.ready_received(after, sender, h, outbox),
    ensures
        *after == *node,
        outbox.len() == 0,
{
}

/// The body of a vertex that arrives after the delivery of its hash is
/// ignored: nothing changes and nothing is sent.
pub proof fn law_body_after_delivery(node: &Engine, after: &Engine, v: VertexView, outbox: Seq<MessageView>)
    requires
        node.rbc.delivered(v.hash),
        node.body_received(after, v, outbox),
    ensures
        *after == *node,
        outbox.len() == 0,
{
}

/// A READY that makes this node send READY counts this node's vote at
/// once: with `2f` voters, the sender among them, the body held and the
/// hash not delivered, the READY brings the delivery.
pub proof fn law_own_ready_counts(node: &Engine, sender: u32, h: Seq<u8>)
    requires
        node.amplifies(sender, h),
        node.ready_after(sender, h).len() >= 2 * node.f,
        !node.rbc.delivered(h),
        node.rbc.body(h) is Some,
    ensures
        node.delivers(sender, h),
{
}

/// A vertex that fails the validation rule while its parents are stored is
/// discarded on arrival, whatever its round: nothing changes and nothing is
/// sent.
pub proof fn law_invalid_with_parents_is_discarded(
    node: &Engine,
    after: &Engine,
    item: PendingView,
    outbox: Seq<MessageView>,
)
    requires
        node.received(after, item, outbox),
        has_parents(node.dag, item.vertex),
        !node.valid_given(item.vertex, item.vertex.round, item.from, true),
    ensures
        *after == *node,
        outbox.len() == 0,
{
}

/// A vertex that arrives when the store holds its hash already leaves the
/// store as it is, and nothing is sent.
pub proof fn law_held_is_not_stored_again(
    node: &Engine,
    after: &Engine,
    item: PendingView,
    outbox: Seq<MessageView>,
)
    requires
        node.received(after, item, outbox),
        node.holds(item.vertex),
    ensures
        after.dag == node.dag,
        outbox.len() == 0,
{
}

/// Taking in a vertex keeps the stored hashes distinct: if no two stored
/// vertices share a hash, none do afterwards.
pub proof fn law_taking_in_keeps_hashes_distinct(node: &Engine, after: &Engine, v: VertexView)
    requires
        node.taken_in(after, v),
        hashes_of(node.dag.log()).no_duplicates(),
    ensures
        hashes_of(after.dag.log()).no_duplicates(),
{
    if !node.holds(v) {
        let before = node.dag.log();
        let log = after.dag.log();
        lemma_lookup_found(before, v.hash);
        assert forall|i: int, j: int| 0 <= i < log.len() && 0 <= j < log.len() && i != j implies hashes_of(
            log,
        )[i] != hashes_of(log)[j] by {
            if i < before.len() && j < before.len() {
                assert(hashes_of(before)[i] != hashes_of(before)[j]);
            }
        }
    }
}

/// In sparse mode no stored vertex has more than `d + 2` parents.
pub proof fn law_sparse_edge_bound(node: &Engine, d: usize, i: int)
    requires
        node.wf(),
        node.mode == (Mode::Sparse { d }),
        0 <= i < node.dag.log().len(),
    ensures
        node.dag.log()[i].edges.len() <= d + 2,
{
}

/// A vertex of round 1 with any parents but the genesis vertex alone does
/// not meet the validation rule.
pub proof fn law_round_one_links_to_genesis(
    node: &Engine,
    v: VertexView,
    round: u64,
    source: u32,
    proof_ok: bool,
)
    requires
        v.round == 1,
        v.edges != seq![genesis_hash()],
    ensures
        !node.valid_given(v, round, source, proof_ok),
{
}

/// In sparse mode a vertex with `d + 3` parents does not meet the
/// validation rule, whatever its round.
pub proof fn law_too_many_parents(
    node: &Engine,
    d: usize,
    v: VertexView,
    round: u64,
    source: u32,
    proof_ok: bool,
)
    requires
        node.mode == (Mode::Sparse { d }),
        v.edges.len() == d + 3,
    ensures
        !node.valid_given(v, round, source, proof_ok),
{
    if v.round == 1 {
        assert(seq![genesis_hash()].len() == 1);
    }
}

/// A sample proof that names a signer without a key is not admissible.
pub proof fn law_unknown_signer(bytes: Seq<u8>, keys: Map<u32, Seq<u8>>, i: int)
    requires
        decoded_proof(bytes) matches Some(p) && 0 <= i < p.signers.len() && !keys.contains_key(
            p.signers[i],
        ),
    ensures
        !proof_admissible(bytes, keys),
{
}

/// Whether two stores resolve alike every hash that a search of the first
/// reaches.
pub open spec fn resolves_alike(s: Search, other: Seq<VertexView>) -> bool {
    forall|h: Seq<u8>| #[trigger] s.reaches(h) ==> lookup(s.log, h) == lookup(other, h)
}

/// A walk in one store is a walk in another that resolves alike what the
/// search reaches.
proof fn lemma_walk_carries_over(s: Search, t: Search, p: Seq<Seq<u8>>, k: int)
    requires
        s.start == t.start,
        s.floor == t.floor,
        s.done == t.done,
        resolves_alike(s, t.log),
        s.is_walk(p),
        0 <= k < p.len(),
    ensures
        t.is_walk(p.subrange(0, k + 1)),
    decreases k,
{
    let q = p.subrange(0, k + 1);
    if k > 0 {
        lemma_walk_carries_over(s, t, p, k - 1);
        let shorter = p.subrange(0, k);
        assert(s.is_walk(shorter)) by {
            assert forall|i: int| 0 < i < shorter.len() implies #[trigger] s.step_at(shorter, i) by {
                assert(s.step_at(p, i));
            }
        }
        assert(s.is_walk(q)) by {
            assert forall|i: int| 0 < i < q.len() implies #[trigger] s.step_at(q, i) by {
                assert(s.step_at(p, i));
            }
        }
        assert(shorter.last() == p[k - 1]);
        assert(q.last() == p[k]);
        assert(s.reaches(p[k - 1]));
        assert(s.reaches(p[k]));
        assert forall|i: int| 0 < i < q.len() implies #[trigger] t.step_at(q, i) by {
            if i < k {
                assert(t.step_at(shorter, i));
            } else {
                assert(s.step_at(p, k));
            }
        }
    }
}

/// The batch of an anchor is a matter of the vertices in its reach alone:
/// two stores that resolve alike every hash that the search from the anchor
/// reaches in either give the same batch, given the same finalized sequence.
pub proof fn law_same_past_same_batch(
    log_a: Seq<VertexView>,
    log_b: Seq<VertexView>,
    ordered: Seq<Seq<u8>>,
    anchor: VertexView,
    batch_a: Seq<Seq<u8>>,
    batch_b: Seq<Seq<u8>>,
)
    requires
        resolves_alike(Search { log: log_a, start: anchor, floor: None, done: ordered }, log_b),
        resolves_alike(Search { log: log_b, start: anchor, floor: None, done: ordered }, log_a),
        is_batch(log_a, ordered, anchor, batch_a),
        is_batch(log_b, ordered, anchor, batch_b),
    ensures
        batch_a == batch_b,
{
    let sa = Search { log: log_a, start: anchor, floor: None, done: ordered };
    let sb = Search { log: log_b, start: anchor, floor: None, done: ordered };
    assert forall|h: Seq<u8>| sa.reaches(h) <==> sb.reaches(h) by {
        if sa.reaches(h) {
            let p = choose|p: Seq<Seq<u8>>| #[trigger] sa.is_walk(p) && p.last() == h;
            lemma_walk_carries_over(sa, sb, p, p.len() - 1);
            assert(p.subrange(0, p.len() as int) =~= p);
        }
        if sb.reaches(h) {
            let p = choose|p: Seq<Seq<u8>>| #[trigger] sb.is_walk(p) && p.last() == h;
            lemma_walk_carries_over(sb, sa, p, p.len() - 1);
            assert(p.subrange(0, p.len() as int) =~= p);
        }
    }
    assert forall|h: Seq<u8>| batch_a.contains(h) <==> batch_b.contains(h) by {
        assert(batch_a.contains(h) <==> in_batch(log_a, ordered, anchor, h));
        assert(batch_b.contains(h) <==> in_batch(log_b, ordered, anchor, h));
    }
    lemma_ascending_unique(batch_a, batch_b);
}

/// Whether two stores resolve every hash alike.
pub open spec fn same_resolution(log_a: Seq<VertexView>, log_b: Seq<VertexView>) -> bool {
    forall|h: Seq<u8>| lookup(log_a, h) == #[trigger] lookup(log_b, h)
}

/// What ordering a stack of anchors finalizes is a matter of what the hashes
/// resolve to, of the finalized sequence and of the stack alone: two stores
/// that resolve every hash alike finalize the same sequence, in whatever
/// order their vertices were inserted.
pub proof fn law_history_depends_on_resolution(
    log_a: Seq<VertexView>,
    log_b: Seq<VertexView>,
    ordered: Seq<Seq<u8>>,
    stack: Seq<VertexView>,
)
    requires
        same_resolution(log_a, log_b),
    ensures
        history_of(log_a, ordered, stack) == history_of(log_b, ordered, stack),
    decreases stack.len(),
{
    if stack.len() > 0 {
        let anchor = stack.last();
        let batch_a = batch_of(log_a, ordered, anchor);
        let batch_b = batch_of(log_b, ordered, anchor);
        lemma_batch_exists(log_a, ordered, anchor);
        lemma_batch_exists(log_b, ordered, anchor);
        assert(resolves_alike(Search { log: log_a, start: anchor, floor: None, done: ordered }, log_b))
            by {
            assert forall|h: Seq<u8>| lookup(log_a, h) == lookup(log_b, h) by {
                assert(lookup(log_a, h) == lookup(log_b, h));
            }
        }
        assert(resolves_alike(Search { log: log_b, start: anchor, floor: None, done: ordered }, log_a))
            by {
            assert forall|h: Seq<u8>| lookup(log_b, h) == lookup(log_a, h) by {
                assert(lookup(log_a, h) == lookup(log_b, h));
            }
        }
        law_same_past_same_batch(log_a, log_b, ordered, anchor, batch_a, batch_b);
        law_history_depends_on_resolution(log_a, log_b, ordered + batch_a, stack.drop_last());
    }
}

/// Two nodes that resolve every hash alike, have finalized the same and hold
/// the same stack of anchors finalize the same on ordering the stack, and
/// count the same number of finalized vertices.
pub proof fn law_ordering_is_deterministic(a: &Engine, a_after: &Engine, b: &Engine, b_after: &Engine)
    requires
        same_resolution(a.dag.log(), b.dag.log()),
        a.ordered() == b.ordered(),
        vertex_views(a.ordered_anchors_stack@) == vertex_views(b.ordered_anchors_stack@),
        a_after.wf(),
        b_after.wf(),
        a_after.ordered() == a.ordered() + history_of(
            a.dag.log(),
            a.ordered(),
            vertex_views(a.ordered_anchors_stack@),
        ),
        b_after.ordered() == b.ordered() + history_of(
            b.dag.log(),
            b.ordered(),
            vertex_views(b.ordered_anchors_stack@),
        ),
    ensures
        a_after.ordered() == b_after.ordered(),
        a_after.finalized_block_count == b_after.finalized_block_count,
{
    law_history_depends_on_resolution(
        a.dag.log(),
        b.dag.log(),
        a.ordered(),
        vertex_views(a.ordered_anchors_stack@),
    );
    assert(a_after.ordered().len() == a_after.already_ordered@.len());
    assert(b_after.ordered().len() == b_after.already_ordered@.len());
}

/// Every hash that ordering a stack of anchors finalizes is the hash of an
/// anchor of the stack or one that the store resolves, and was not finalized
/// before.
pub proof fn law_finalized_are_stored(
    log: Seq<VertexView>,
    ordered: Seq<Seq<u8>>,
    stack: Seq<VertexView>,
    h: Seq<u8>,
)
    requires
        history_of(log, ordered, stack).contains(h),
    ensures
        lookup(log, h) is Some || exists|i: int| 0 <= i < stack.len() && #[trigger] stack[i].hash == h,
        !ordered.contains(h),
    decreases stack.len(),
{
    if stack.len() == 0 {
        let out = history_of(log, ordered, stack);
        let i = choose|i: int| 0 <= i < out.len() && out[i] == h;
    } else {
        let anchor = stack.last();
        let batch = batch_of(log, ordered, anchor);
        let rest = history_of(log, ordered + batch, stack.drop_last());
        lemma_batch_exists(log, ordered, anchor);
        let out = batch + rest;
        let i = choose|i: int| 0 <= i < out.len() && out[i] == h;
        if i < batch.len() {
            assert(batch[i] == h);
            assert(batch.contains(h));
            lemma_batch_is_stored(log, ordered, anchor, h);
            if h == anchor.hash {
                assert(stack[stack.len() - 1].hash == h);
            }
        } else {
            assert(rest[i - batch.len()] == h);
            law_finalized_are_stored(log, ordered + batch, stack.drop_last(), h);
            if !(lookup(log, h) is Some) {
                let j = choose|j: int|
                    0 <= j < stack.drop_last().len() && #[trigger] stack.drop_last()[j].hash == h;
                assert(stack[j].hash == h);
            }
            if ordered.contains(h) {
                let k = choose|k: int| 0 <= k < ordered.len() && ordered[k] == h;
                assert((ordered + batch)[k] == h);
            }
        }
    }
}

/// Every anchor that a commit reaches indirectly is stored.
proof fn lemma_chain_is_stored(dag: DAG, n: nat, last: u64, current: VertexView, r: u64, i: int)
    requires
        dag.wf(),
        0 <= i < anchor_chain(dag, n, last, current, r).len(),
    ensures
        dag.by_hash(anchor_chain(dag, n, last, current, r)[i].hash) is Some,
    decreases r,
{
    if r > last {
        lemma_anchor_stored(dag, r, n);
        match anchor_of(dag, r, n) {
            Some(prev) => {
                if dag.path_exists(current, prev) {
                    if i > 0 {
                        lemma_chain_is_stored(dag, n, last, prev, two_below(r), i - 1);
                    }
                } else {
                    lemma_chain_is_stored(dag, n, last, current, two_below(r), i);
                }
            },
            None => {
                lemma_chain_is_stored(dag, n, last, current, two_below(r), i);
            },
        }
    }
}

/// Every hash that a commit finalizes is the hash of a stored vertex, and
/// was not finalized before: a node of which nothing is stored has nothing
/// finalized.
pub proof fn law_commit_finalizes_what_is_stored(
    node: &Engine,
    after: &Engine,
    round: u64,
    anchor: VertexView,
    k: int,
)
    requires
        node.wf(),
        node.ordered_anchors_stack@.len() == 0,
        node.direct_commit(round) == Some(anchor),
        node.committed(after, anchor),
        node.ordered().len() <= k < after.ordered().len(),
    ensures
        node.dag.by_hash(after.ordered()[k]) is Some,
        !node.ordered().contains(after.ordered()[k]),
{
    let log = node.dag.log();
    let stack = node.stack_with(anchor);
    let history = history_of(log, node.ordered(), stack);
    let h = after.ordered()[k];
    assert(history[k - node.ordered().len()] == h);
    assert(history.contains(h));
    law_finalized_are_stored(log, node.ordered(), stack, h);
    if !(lookup(log, h) is Some) {
        let i = choose|i: int| 0 <= i < stack.len() && #[trigger] stack[i].hash == h;
        lemma_anchor_stored(node.dag, (round - 2) as u64, node.n());
        if i > 0 {
            lemma_chain_is_stored(
                node.dag,
                node.n(),
                node.last_ordered_round,
                anchor,
                two_below(anchor.round),
                i - 1,
            );
        }
    }
}

/// Whether the finalized hashes are closed under parents: each parent that
/// the store resolves of a finalized vertex is finalized.
pub open spec fn parent_closed(log: Seq<VertexView>, ordered: Seq<Seq<u8>>) -> bool {
    forall|h: Seq<u8>, k: int|
        ordered.contains(h) && lookup(log, h) is Some && 0 <= k < lookup(log, h).unwrap().edges.len()
            && lookup(log, #[trigger] lookup(log, h).unwrap().edges[k]) is Some ==> ordered.contains(
            lookup(log, h).unwrap().edges[k],
        )
}

/// On a walk from a stored anchor, past a finalized hash every hash is
/// finalized, if the finalized hashes are closed under parents.
proof fn lemma_walk_stays_finalized(s: Search, ordered: Seq<Seq<u8>>, p: Seq<Seq<u8>>, i: int, j: int)
    requires
        parent_closed(s.log, ordered),
        lookup(s.log, s.start.hash) == Some(s.start),
        s.is_walk(p),
        0 <= i <= j < p.len(),
        ordered.contains(p[i]),
    ensures
        ordered.contains(p[j]),
    decreases j - i,
{
    if i < j {
        lemma_walk_stays_finalized(s, ordered, p, i, j - 1);
        assert(s.step_at(p, j));
        let from = p[j - 1];
        let v = lookup(s.log, from).unwrap();
        assert(s.node_of(from) == lookup(s.log, from));
        let k = choose|k: int| 0 <= k < v.edges.len() && v.edges[k] == p[j];
        assert(lookup(s.log, lookup(s.log, from).unwrap().edges[k]) is Some);
    }
}

/// With the finalized hashes closed under parents, the batch of a stored
/// anchor is its whole causal past as far as it is not finalized, and with
/// the batch the finalized hashes are closed under parents again.
pub proof fn law_batch_is_the_unfinalized_past(
    log: Seq<VertexView>,
    ordered: Seq<Seq<u8>>,
    anchor: VertexView,
    batch: Seq<Seq<u8>>,
)
    requires
        parent_closed(log, ordered),
        lookup(log, anchor.hash) == Some(anchor),
        is_batch(log, ordered, anchor, batch),
    ensures
        forall|h: Seq<u8>|
            #[trigger] batch.contains(h) <==> (Search {
                log,
                start: anchor,
                floor: None,
                done: Seq::empty(),
            }).reaches(h) && !ordered.contains(h),
        parent_closed(log, ordered + batch),
{
    let s = Search { log, start: anchor, floor: None, done: ordered };
    let full = Search { log, start: anchor, floor: None, done: Seq::<Seq<u8>>::empty() };
    assert forall|h: Seq<u8>| #[trigger] batch.contains(h) <==> full.reaches(h) && !ordered.contains(
        h,
    ) by {
        assert(batch.contains(h) <==> in_batch(log, ordered, anchor, h));
        if s.reaches(h) {
            let p = choose|p: Seq<Seq<u8>>| #[trigger] s.is_walk(p) && p.last() == h;
            assert(full.is_walk(p)) by {
                assert forall|i: int| 0 < i < p.len() implies #[trigger] full.step_at(p, i) by {
                    assert(s.step_at(p, i));
                }
            }
        }
        if full.reaches(h) && !ordered.contains(h) {
            let p = choose|p: Seq<Seq<u8>>| #[trigger] full.is_walk(p) && p.last() == h;
            assert(s.is_walk(p)) by {
                assert forall|i: int| 0 < i < p.len() implies #[trigger] s.step_at(p, i) by {
                    assert(full.step_at(p, i));
                    let from = p[i - 1];
                    let v = full.node_of(from).unwrap();
                    if from != anchor.hash {
                        lemma_lookup_found(log, from);
                    }
                    assert(v.hash == from);
                    if ordered.contains(from) {
                        lemma_walk_stays_finalized(full, ordered, p, i - 1, p.len() - 1);
                    }
                }
            }
        }
    }
    let after = ordered + batch;
    assert forall|h: Seq<u8>, k: int|
        after.contains(h) && lookup(log, h) is Some && 0 <= k < lookup(log, h).unwrap().edges.len()
            && lookup(log, #[trigger] lookup(log, h).unwrap().edges[k]) is Some implies after.contains(
        lookup(log, h).unwrap().edges[k],
    ) by {
        let v = lookup(log, h).unwrap();
        let e = v.edges[k];
        let i = choose|i: int| 0 <= i < after.len() && after[i] == h;
        if i < ordered.len() {
            assert(ordered[i] == h);
            assert(ordered.contains(h));
            assert(ordered.contains(e));
            let j = choose|j: int| 0 <= j < ordered.len() && ordered[j] == e;
            assert(after[j] == e);
        } else {
            assert(batch[i - ordered.len()] == h);
            assert(batch.contains(h));
            assert(in_batch(log, ordered, anchor, h));
            lemma_lookup_found(log, h);
            assert(s.node_of(h) == Some(v));
            assert(s.step(h, e));
            s.lemma_reaches_step(h, e);
            if ordered.contains(e) {
                let j = choose|j: int| 0 <= j < ordered.len() && ordered[j] == e;
                assert(after[j] == e);
            } else {
                assert(in_batch(log, ordered, anchor, e));
                assert(batch.contains(e));
                let j = choose|j: int| 0 <= j < batch.len() && batch[j] == e;
                assert(after[ordered.len() + j] == e);
            }
        }
    }
}

/// Whether a set of hashes holds, with each of its hashes, every hash that
/// the search steps to from it.
pub open spec fn closed_under_steps(s: Search, within: Set<Seq<u8>>) -> bool {
    forall|from: Seq<u8>, to: Seq<u8>| within.contains(from) && #[trigger] s.step(from, to) ==> within.contains(to)
}

/// Every hash of a walk lies in a set that holds the start vertex's hash and
/// is closed under the steps of the search.
proof fn lemma_walk_stays_within(s: Search, within: Set<Seq<u8>>, p: Seq<Seq<u8>>, j: int)
    requires
        within.contains(s.start.hash),
        closed_under_steps(s, within),
        s.is_walk(p),
        0 <= j < p.len(),
    ensures
        within.contains(p[j]),
    decreases j,
{
    if j > 0 {
        lemma_walk_stays_within(s, within, p, j - 1);
        assert(s.step_at(p, j));
    }
}

/// What a search reaches lies in every set of hashes that holds the start
/// vertex's hash and is closed under the steps of the search: the causal
/// past of a vertex is the least such set.
pub proof fn law_reach_stays_within(s: Search, within: Set<Seq<u8>>, h: Seq<u8>)
    requires
        within.contains(s.start.hash),
        closed_under_steps(s, within),
        s.reaches(h),
    ensures
        within.contains(h),
{
    let p = choose|p: Seq<Seq<u8>>| #[trigger] s.is_walk(p) && p.last() == h;
    lemma_walk_stays_within(s, within, p, p.len() - 1);
}

/// The search of the whole causal past of `anchor`.
pub open spec fn past_of(log: Seq<VertexView>, anchor: VertexView) -> Search {
    Search { log, start: anchor, floor: None, done: Seq::empty() }
}

/// Whether `h` is in the causal past of an anchor of the stack.
pub open spec fn in_some_past(log: Seq<VertexView>, stack: Seq<VertexView>, h: Seq<u8>) -> bool {
    exists|i: int| 0 <= i < stack.len() && #[trigger] past_of(log, stack[i]).reaches(h)
}

/// With the finalized hashes closed under parents, ordering a stack of
/// stored anchors finalizes the causal pasts of the anchors as far as they
/// were not finalized, and nothing else; and with them the finalized hashes
/// are closed under parents again. So what is finalized depends on the
/// anchors and their causal pasts alone.
pub proof fn law_history_is_the_unfinalized_past(
    log: Seq<VertexView>,
    ordered: Seq<Seq<u8>>,
    stack: Seq<VertexView>,
)
    requires
        parent_closed(log, ordered),
        forall|i: int| 0 <= i < stack.len() ==> lookup(log, (#[trigger] stack[i]).hash) == Some(stack[i]),
    ensures
        forall|h: Seq<u8>|
            #[trigger] history_of(log, ordered, stack).contains(h) <==> in_some_past(log, stack, h)
                && !ordered.contains(h),
        parent_closed(log, ordered + history_of(log, ordered, stack)),
    decreases stack.len(),
{
    let history = history_of(log, ordered, stack);
    if stack.len() == 0 {
        assert(ordered + history =~= ordered);
        assert forall|h: Seq<u8>| #[trigger] history.contains(h) <==> in_some_past(log, stack, h)
            && !ordered.contains(h) by {
            if history.contains(h) {
                let i = choose|i: int| 0 <= i < history.len() && history[i] == h;
            }
        }
    } else {
        let top = stack.len() - 1;
        let anchor = stack.last();
        let lower = stack.drop_last();
        let batch = batch_of(log, ordered, anchor);
        let with_batch = ordered + batch;
        let rest = history_of(log, with_batch, lower);
        assert(stack[top] == anchor);
        lemma_batch_exists(log, ordered, anchor);
        law_batch_is_the_unfinalized_past(log, ordered, anchor, batch);
        assert forall|i: int| 0 <= i < lower.len() implies lookup(log, (#[trigger] lower[i]).hash)
            == Some(lower[i]) by {
            assert(lower[i] == stack[i]);
        }
        law_history_is_the_unfinalized_past(log, with_batch, lower);
        assert(with_batch + rest =~= ordered + history);
        assert forall|h: Seq<u8>| #[trigger] history.contains(h) <==> in_some_past(log, stack, h)
            && !ordered.contains(h) by {
            if history.contains(h) {
                let i = choose|i: int| 0 <= i < history.len() && history[i] == h;
                if i < batch.len() {
                    assert(batch[i] == h);
                    assert(batch.contains(h));
                    assert(past_of(log, stack[top]).reaches(h));
                } else {
                    assert(rest[i - batch.len()] == h);
                    assert(rest.contains(h));
                    let j = choose|j: int|
                        0 <= j < lower.len() && #[trigger] past_of(log, lower[j]).reaches(h);
                    assert(lower[j] == stack[j]);
                    assert(past_of(log, stack[j]).reaches(h));
                    if ordered.contains(h) {
                        let k = choose|k: int| 0 <= k < ordered.len() && ordered[k] == h;
                        assert(with_batch[k] == h);
                    }
                }
            }
            if in_some_past(log, stack, h) && !ordered.contains(h) {
                let i = choose|i: int| 0 <= i < stack.len() && #[trigger] past_of(log, stack[i]).reaches(h);
                if i == top || batch.contains(h) {
                    assert(batch.contains(h));
                    let k = choose|k: int| 0 <= k < batch.len() && batch[k] == h;
                    assert(history[k] == h);
                } else {
                    assert(lower[i] == stack[i]);
                    assert(past_of(log, lower[i]).reaches(h));
                    assert(in_some_past(log, lower, h));
                    if with_batch.contains(h) {
                        let k = choose|k: int| 0 <= k < with_batch.len() && with_batch[k] == h;
                        if k < ordered.len() {
                            assert(ordered[k] == h);
                        } else {
                            assert(batch[k - ordered.len()] == h);
                        }
                    }
                    assert(rest.contains(h));
                    let k = choose|k: int| 0 <= k < rest.len() && rest[k] == h;
                    assert(history[batch.len() + k] == h);
                }
            }
        }
    }
}

/// Two stores that hold the same vertices in the same rounds.
pub open spec fn same_contents(a: DAG, b: DAG) -> bool {
    &&& a.log() == b.log()
    &&& forall|r: u64| a.round_view(r) == b.round_view(r)
}

/// The chain of anchors that a commit walks is the same in two stores of
/// the same contents.
pub proof fn lemma_same_chain(a: DAG, b: DAG, n: nat, last: u64, current: VertexView, r: u64)
    requires
        same_contents(a, b),
    ensures
        anchor_chain(a, n, last, current, r) == anchor_chain(b, n, last, current, r),
    decreases r,
{
    if r > last {
        assert(a.round_view(r) == b.round_view(r));
        assert(anchor_of(a, r, n) == anchor_of(b, r, n));
        match anchor_of(a, r, n) {
            Some(prev) => {
                assert(a.path_exists(current, prev) == b.path_exists(current, prev));
                lemma_same_chain(a, b, n, last, prev, two_below(r));
                lemma_same_chain(a, b, n, last, current, two_below(r));
            },
            None => {
                lemma_same_chain(a, b, n, last, current, two_below(r));
            },
        }
    }
}

/// Whether two nodes stand alike for the commit rule: their stores hold the
/// same contents, they count the same nodes and faults, and they have
/// ordered the same so far.
pub open spec fn alike(a: &Engine, b: &Engine) -> bool {
    &&& same_contents(a.dag, b.dag)
    &&& a.n() == b.n()
    &&& a.f == b.f
    &&& a.last_ordered_round == b.last_ordered_round
    &&& a.ordered() == b.ordered()
    &&& vertex_views(a.ordered_anchors_stack@) == vertex_views(
        b.ordered_anchors_stack@,
    )
}

/// Given the same store contents, a commit gives the same order on any
/// node: two nodes that stand alike commit the same anchor on a vertex of
/// the same round, and finalize the same sequence.
pub proof fn law_commit_is_deterministic(a: &Engine, a_after: &Engine, b: &Engine, b_after: &Engine, round: u64)
    requires
        alike(a, b),
        match a.direct_commit(round) {
            Some(anchor) => a.committed(a_after, anchor),
            None => *a_after == *a,
        },
        match b.direct_commit(round) {
            Some(anchor) => b.committed(b_after, anchor),
            None => *b_after == *b,
        },
    ensures
        a.direct_commit(round) == b.direct_commit(round),
        a_after.ordered() == b_after.ordered(),
        a_after.last_ordered_round == b_after.last_ordered_round,
{
    if round >= 2 {
        let r = (round - 2) as u64;
        let m = (round - 1) as u64;
        assert(a.dag.round_view(r) == b.dag.round_view(r));
        assert(a.dag.round_view(m) == b.dag.round_view(m));
        assert(a.anchor(r) == b.anchor(r));
        match a.direct_commit(round) {
            Some(anchor) => {
                lemma_same_chain(
                    a.dag,
                    b.dag,
                    a.n(),
                    a.last_ordered_round,
                    anchor,
                    two_below(anchor.round),
                );
                assert(a.stack_with(anchor) == b.stack_with(anchor));
            },
            None => {},
        }
    }
}

} // verus!
