//! What a node does, as relations between its state before and after: each
//! says exactly which state and which messages follow from a state and an
//! event, as far as the event decides them.
//!
//! The relations compare the states' contents. Where a verdict is not a
//! function of the state (the batch verification of a sample proof, see
//! `multisig::validate`), a relation allows both outcomes, each with what it
//! implies.

use std::collections::HashMap;
use vstd::prelude::*;
use crate::dag::DAG;
use crate::engine::{Engine, Mode};
use crate::message::{MessageView, VertexMessage};
use crate::multisig::{keys_view, proof_admissible};
use crate::rbc::Rbc;
use crate::rules::has_parents;
use crate::vertex::{NodeId, VertexView};

verus! {

/// A buffered vertex: who handed it in, and the message.
pub ghost struct PendingView {
    pub from: u32,
    pub sender: u32,
    pub vertex: VertexView,
}

/// What a pending buffer holds.
pub open spec fn pending_views(list: Seq<(NodeId, VertexMessage)>) -> Seq<PendingView> {
    Seq::new(
        list.len(),
        |i: int| PendingView { from: list[i].0, sender: list[i].1.sender, vertex: list[i].1.vertex@ },
    )
}

/// Whether the store `after` is the store `before` with `v` inserted.
pub open spec fn inserted(before: DAG, after: DAG, v: VertexView) -> bool {
    &&& after.log() == before.log().push(v)
    &&& after.round_view(v.round) == Some(before.round_or_empty(v.round).push(v))
    &&& forall|r: u64| r != v.round ==> #[trigger] after.round_view(r) == before.round_view(r)
}

/// All messages of a list of outboxes, in order.
pub open spec fn joined(sent: Seq<Seq<MessageView>>) -> Seq<MessageView>
    decreases sent.len(),
{
    if sent.len() == 0 {
        Seq::empty()
    } else {
        joined(sent.drop_last()) + sent.last()
    }
}

impl Engine {
    /// This node's id.
    pub open spec fn my_id(&self) -> u32 {
        self.environment.my_node.id
    }

    /// This state with another store in place of its own.
    pub open spec fn with_dag(&self, dag: DAG) -> Engine {
        Engine { dag, ..*self }
    }

    /// This state in another round.
    pub open spec fn with_round(&self, round: u64) -> Engine {
        Engine { round, ..*self }
    }

    /// This state with another broadcast state in place of its own.
    pub open spec fn with_rbc(&self, rbc: Rbc) -> Engine {
        Engine { rbc, ..*self }
    }

    /// This state with another pending buffer in place of its own.
    pub open spec fn with_pending(&self, pending_vertices: HashMap<u64, Vec<(NodeId, VertexMessage)>>) -> Engine {
        Engine { pending_vertices, ..*self }
    }

    /// The vertices buffered under round `r` with their senders, in the
    /// order they came.
    pub open spec fn pending_of(&self, r: u64) -> Seq<PendingView> {
        if self.pending_vertices@.contains_key(r) {
            pending_views(self.pending_vertices@[r]@)
        } else {
            Seq::empty()
        }
    }

    /// Whether `after` is this state with the commit rule applied on the
    /// arrival of a vertex of `round`.
    pub open spec fn commit_applied(&self, after: &Engine, round: u64) -> bool {
        match self.direct_commit(round) {
            Some(anchor) => self.committed(after, anchor),
            None => *after == *self,
        }
    }

    /// Whether `after` is this state with `v` accepted: stored, and the
    /// commit rule applied on its arrival.
    pub open spec fn accepted(&self, after: &Engine, v: VertexView) -> bool {
        &&& inserted(self.dag, after.dag, v)
        &&& self.with_dag(after.dag).commit_applied(after, v.round)
    }

    /// Whether `after` and `outbox` follow from the body `v` received for
    /// reliable broadcast: unless `v` is delivered or its body held already,
    /// the body is held and ECHO goes out for its hash.
    pub open spec fn body_received(&self, after: &Engine, v: VertexView, outbox: Seq<MessageView>) -> bool {
        if self.rbc.delivered(v.hash) || self.rbc.body(v.hash) is Some {
            &&& *after == *self
            &&& outbox == Seq::<MessageView>::empty()
        } else {
            &&& *after == self.with_rbc(after.rbc)
            &&& after.rbc.echo_counts == self.rbc.echo_counts
            &&& after.rbc.ready_counts == self.rbc.ready_counts
            &&& after.rbc.delivered_vertices == self.rbc.delivered_vertices
            &&& after.rbc.body(v.hash) == Some(v)
            &&& forall|g: Seq<u8>| g != v.hash ==> after.rbc.body(g) == self.rbc.body(g)
            &&& outbox == seq![MessageView::Echo { vertex_hash: v.hash }]
        }
    }

    /// Whether `after` and `outbox` follow from advancing a round: the new
    /// vertex of the current round is stored and sent and the round moves
    /// on; then, in dense mode, the vertex is taken as a body received, and
    /// in sparse mode the commit rule is applied on it.
    pub open spec fn advanced(&self, after: &Engine, outbox: Seq<MessageView>) -> bool {
        let v = self.new_vertex(self.round);
        let moved = self.with_dag(after.dag).with_round((self.round + 1) as u64);
        &&& inserted(self.dag, after.dag, v)
        &&& outbox.len() >= 1
        &&& outbox[0] == (MessageView::Vertex { sender: self.my_id(), vertex: v })
        &&& match self.mode {
            Mode::Dense => moved.body_received(after, v, outbox.subrange(1, outbox.len() as int)),
            Mode::Sparse { .. } => moved.commit_applied(after, v.round) && outbox.len() == 1,
        }
    }

    /// Whether the store holds a vertex under the hash of `v`.
    pub open spec fn holds(&self, v: VertexView) -> bool {
        self.dag.by_hash(v.hash) is Some
    }

    /// Whether `after` follows from taking in `v`, a vertex found valid: one
    /// whose hash the store holds already is passed over, so that no vertex
    /// is stored twice; any other is accepted.
    pub open spec fn taken_in(&self, after: &Engine, v: VertexView) -> bool {
        if self.holds(v) {
            *after == *self
        } else {
            self.accepted(after, v)
        }
    }

    /// Whether the validation of `v` is a function of the state: in dense
    /// mode, and for a vertex of round 1.
    pub open spec fn verdict_pinned(&self, v: VertexView) -> bool {
        self.mode is Dense || v.round == 1
    }

    /// Whether `after` is this state with one more vertex buffered under
    /// round `r`, behind those that are.
    pub open spec fn buffered(&self, after: &Engine, item: PendingView, r: u64) -> bool {
        &&& *after == self.with_pending(after.pending_vertices)
        &&& after.pending_of(r) == self.pending_of(r).push(item)
        &&& forall|q: u64| q != r ==> #[trigger] after.pending_of(q) == self.pending_of(q)
    }

    /// Whether `after` follows from validating again a vertex that was
    /// buffered under round `r`: a vertex that is found valid is taken in;
    /// any other is buffered anew. Where the verdict is pinned, a vertex is
    /// found valid iff it meets the rule; where it is not, a vertex found
    /// valid meets the rule and its proof is admissible.
    pub open spec fn revalidated(&self, after: &Engine, item: PendingView, r: u64) -> bool {
        let v = item.vertex;
        let meets = self.valid_given(v, v.round, item.from, true);
        ||| {
            &&& meets
            &&& self.verdict_pinned(v) || proof_admissible(v.sample_proof, keys_view(self.public_keys))
            &&& self.taken_in(after, v)
        }
        ||| {
            &&& self.verdict_pinned(v) ==> !meets
            &&& self.buffered(after, item, r)
        }
    }

    /// Whether step `i` of a pass over the buffer of round `r` leads from
    /// `trace[i]` to `trace[i + 1]`.
    pub open spec fn promotion_step(&self, trace: Seq<Engine>, r: u64, i: int) -> bool {
        trace[i].revalidated(&trace[i + 1], self.pending_of(r)[i], r)
    }

    /// Whether `trace` is a pass over the buffer of round `r` that ends in
    /// `after`: it begins with this state, the buffer of round `r` emptied,
    /// and validates again the vertices that were buffered under `r`, one
    /// after the other.
    pub open spec fn is_promotion(&self, after: &Engine, r: u64, trace: Seq<Engine>) -> bool {
        &&& trace.len() == self.pending_of(r).len() + 1
        &&& trace[0] == self.with_pending(trace[0].pending_vertices)
        &&& trace[0].pending_of(r).len() == 0
        &&& forall|q: u64| q != r ==> #[trigger] trace[0].pending_of(q) == self.pending_of(q)
        &&& trace.last() == *after
        &&& forall|i: int| 0 <= i < self.pending_of(r).len() ==> #[trigger] self.promotion_step(trace, r, i)
    }

    /// Whether `after` follows from a pass over the buffer of round `r`.
    pub open spec fn promoted(&self, after: &Engine, r: u64) -> bool {
        exists|trace: Seq<Engine>| self.is_promotion(after, r, trace)
    }

    /// Whether `after` and `outbox` follow from one pass of the work loop by
    /// way of `moved` and `between`: the node advances a round if it may,
    /// then passes over the buffer for the round before the current one, then
    /// for the current one.
    pub open spec fn is_pass(&self, after: &Engine, outbox: Seq<MessageView>, moved: Engine, between: Engine) -> bool {
        &&& if self.may_advance() {
            self.advanced(&moved, outbox)
        } else {
            moved == *self && outbox == Seq::<MessageView>::empty()
        }
        &&& moved.promoted(&between, (moved.round - 1) as u64)
        &&& between.promoted(after, moved.round)
    }

    /// Whether `after` and `outbox` follow from one pass of the work loop.
    pub open spec fn passed(&self, after: &Engine, outbox: Seq<MessageView>) -> bool {
        exists|moved: Engine, between: Engine| self.is_pass(after, outbox, moved, between)
    }

    /// Whether a pass made progress: it advanced a round or accepted a
    /// vertex.
    pub open spec fn progressed(&self, after: &Engine) -> bool {
        after.round > self.round || after.dag.log().len() > self.dag.log().len()
    }

    /// Whether pass `i` of a run leads from `trace[i]` to `trace[i + 1]` and
    /// sends `sent[i]`; every pass but the last makes progress.
    pub open spec fn run_step(trace: Seq<Engine>, sent: Seq<Seq<MessageView>>, i: int) -> bool {
        &&& trace[i].passed(&trace[i + 1], sent[i])
        &&& trace[i].progressed(&trace[i + 1]) == (i + 1 < sent.len())
    }

    /// Whether `trace` and `sent` are a run of the work loop from this state
    /// to `after`: passes one after the other, up to and with the first that
    /// makes no progress.
    pub open spec fn is_run(&self, after: &Engine, trace: Seq<Engine>, sent: Seq<Seq<MessageView>>) -> bool {
        &&& sent.len() >= 1
        &&& trace.len() == sent.len() + 1
        &&& trace[0] == *self
        &&& trace.last() == *after
        &&& forall|i: int| 0 <= i < sent.len() ==> #[trigger] Self::run_step(trace, sent, i)
    }

    /// Whether `after` and `outbox` follow from running the work loop to
    /// rest.
    pub open spec fn ran(&self, after: &Engine, outbox: Seq<MessageView>) -> bool {
        exists|trace: Seq<Engine>, sent: Seq<Seq<MessageView>>|
            self.is_run(after, trace, sent) && outbox == joined(sent)
    }

    /// Whether a vertex that was turned away is to wait: some parent of it
    /// is not stored yet, and it is of the round before the current one or
    /// later.
    pub open spec fn awaits_parents(&self, v: VertexView) -> bool {
        !has_parents(self.dag, v) && v.round >= self.round - 1
    }

    /// Whether `after` is this state with a vertex turned away: buffered
    /// under its round if it is to wait for its parents, discarded if not. A
    /// vertex that fails with its parents stored is discarded, whatever its
    /// round.
    pub open spec fn turned_away(&self, after: &Engine, item: PendingView) -> bool {
        if self.awaits_parents(item.vertex) {
            self.buffered(after, item, item.vertex.round)
        } else {
            *after == *self
        }
    }

    /// Whether `after` and `outbox` follow from `v`, found valid on arrival:
    /// if the store holds its hash already, nothing; else `v` is accepted and
    /// the work loop runs to rest.
    pub open spec fn welcomed(&self, after: &Engine, v: VertexView, outbox: Seq<MessageView>) -> bool {
        if self.holds(v) {
            *after == *self && outbox == Seq::<MessageView>::empty()
        } else {
            exists|stored: Engine| self.accepted(&stored, v) && stored.ran(after, outbox)
        }
    }

    /// Whether `after` and `outbox` follow from a vertex handed to the round
    /// engine by `item.from`: a vertex found valid is welcomed; any other is
    /// turned away. Where the verdict is pinned, a vertex is found valid iff
    /// it meets the rule.
    pub open spec fn received(&self, after: &Engine, item: PendingView, outbox: Seq<MessageView>) -> bool {
        let v = item.vertex;
        let meets = self.valid_given(v, v.round, item.from, true);
        ||| {
            &&& meets
            &&& self.verdict_pinned(v) || proof_admissible(v.sample_proof, keys_view(self.public_keys))
            &&& self.welcomed(after, v, outbox)
        }
        ||| {
            &&& self.verdict_pinned(v) ==> !meets
            &&& self.turned_away(after, item)
            &&& outbox == Seq::<MessageView>::empty()
        }
    }

    /// The READY voters for `h` once `sender` has voted.
    pub open spec fn ready_after(&self, sender: u32, h: Seq<u8>) -> Seq<u32> {
        let votes = self.rbc.ready_counts.votes(h);
        if votes.contains(sender) {
            votes
        } else {
            votes.push(sender)
        }
    }

    /// The ECHO voters for `h` once `sender` has voted.
    pub open spec fn echo_after(&self, sender: u32, h: Seq<u8>) -> Seq<u32> {
        let votes = self.rbc.echo_counts.votes(h);
        if votes.contains(sender) {
            votes
        } else {
            votes.push(sender)
        }
    }

    /// Whether a READY of `sender` for `h` makes this node send READY too:
    /// with the sender's vote `f + 1` nodes have voted, and this node is
    /// not among them.
    pub open spec fn amplifies(&self, sender: u32, h: Seq<u8>) -> bool {
        let voted = self.ready_after(sender, h);
        voted.len() >= self.f + 1 && !voted.contains(self.my_id())
    }

    /// The READY voters for `h` once a READY of `sender` is handled: the
    /// voters with the sender's vote, and with this node's own if the READY
    /// makes it send one.
    pub open spec fn ready_voters(&self, sender: u32, h: Seq<u8>) -> Seq<u32> {
        if self.amplifies(sender, h) {
            self.ready_after(sender, h).push(self.my_id())
        } else {
            self.ready_after(sender, h)
        }
    }

    /// Whether a READY of `sender` for `h` brings the delivery of `h`: with
    /// the sender's vote, and this node's own if it sends one now, `2f + 1`
    /// nodes have voted, `h` is not delivered yet, and its body is held.
    pub open spec fn delivers(&self, sender: u32, h: Seq<u8>) -> bool {
        &&& self.ready_voters(sender, h).len() >= 2 * self.f + 1
        &&& !self.rbc.delivered(h)
        &&& self.rbc.body(h) is Some
    }

    /// Whether `after` differs from this state in the broadcast state alone,
    /// and there in the votes for `h` alone.
    pub open spec fn votes_changed(&self, after: &Engine, h: Seq<u8>) -> bool {
        &&& *after == self.with_rbc(after.rbc)
        &&& after.rbc.delivered_vertices == self.rbc.delivered_vertices
        &&& after.rbc.pending_rbc_vertices == self.rbc.pending_rbc_vertices
        &&& forall|g: Seq<u8>|
            g != h ==> after.rbc.echo_counts.votes(g) == self.rbc.echo_counts.votes(g)
                && after.rbc.ready_counts.votes(g) == self.rbc.ready_counts.votes(g)
    }

    /// Whether `after` and `outbox` follow from an ECHO of `sender` for `h`:
    /// unless `h` is delivered, the vote is recorded, and with `2f + 1`
    /// voters this node sends READY, once.
    pub open spec fn echo_received(&self, after: &Engine, sender: u32, h: Seq<u8>, outbox: Seq<MessageView>) -> bool {
        if self.rbc.delivered(h) {
            &&& *after == *self
            &&& outbox == Seq::<MessageView>::empty()
        } else {
            let sends = self.echo_after(sender, h).len() >= 2 * self.f + 1
                && !self.rbc.ready_counts.votes(h).contains(self.my_id());
            &&& self.votes_changed(after, h)
            &&& after.rbc.echo_counts.votes(h) == self.echo_after(sender, h)
            &&& after.rbc.ready_counts.votes(h) == if sends {
                self.rbc.ready_counts.votes(h).push(self.my_id())
            } else {
                self.rbc.ready_counts.votes(h)
            }
            &&& outbox == if sends {
                seq![MessageView::Ready { vertex_hash: h }]
            } else {
                Seq::<MessageView>::empty()
            }
        }
    }

    /// Whether `after` and `outbox` follow from the vote of a READY of
    /// `sender` for `h`: the vote is recorded, and with `f + 1` voters this
    /// node sends READY too, once.
    pub open spec fn ready_voted(&self, after: &Engine, sender: u32, h: Seq<u8>, outbox: Seq<MessageView>) -> bool {
        &&& self.votes_changed(after, h)
        &&& after.rbc.echo_counts == self.rbc.echo_counts
        &&& after.rbc.ready_counts.votes(h) == self.ready_voters(sender, h)
        &&& outbox == if self.amplifies(sender, h) {
            seq![MessageView::Ready { vertex_hash: h }]
        } else {
            Seq::<MessageView>::empty()
        }
    }

    /// Whether `after` is this state with `h` marked delivered: its body
    /// taken out and its votes forgotten.
    pub open spec fn marked_delivered(&self, after: &Engine, h: Seq<u8>) -> bool {
        &&& *after == self.with_rbc(after.rbc)
        &&& forall|g: Seq<u8>| after.rbc.delivered(g) == (self.rbc.delivered(g) || g == h)
        &&& after.rbc.body(h) is None
        &&& after.rbc.echo_counts.votes(h) == Seq::<u32>::empty()
        &&& after.rbc.ready_counts.votes(h) == Seq::<u32>::empty()
        &&& forall|g: Seq<u8>|
            g != h ==> after.rbc.body(g) == self.rbc.body(g) && after.rbc.echo_counts.votes(g)
                == self.rbc.echo_counts.votes(g) && after.rbc.ready_counts.votes(g)
                == self.rbc.ready_counts.votes(g)
    }

    /// Whether `after` and `outbox` follow from a READY of `sender` for `h`.
    /// If `h` is delivered the READY is ignored. Else the vote is recorded
    /// and READY amplified; then, if the votes so counted bring the delivery
    /// of `h`, the hash is marked delivered and its body handed to the round
    /// engine as a vertex received from its source.
    pub open spec fn ready_received(&self, after: &Engine, sender: u32, h: Seq<u8>, outbox: Seq<MessageView>) -> bool {
        if self.rbc.delivered(h) {
            *after == *self && outbox == Seq::<MessageView>::empty()
        } else {
            self.ready_counted(after, sender, h, outbox)
        }
    }

    /// Whether `after` and `outbox` follow from a READY of `sender` for `h`
    /// that is not ignored.
    pub open spec fn ready_counted(&self, after: &Engine, sender: u32, h: Seq<u8>, outbox: Seq<MessageView>) -> bool {
        exists|voted: Engine, first: Seq<MessageView>|
            {
                &&& self.ready_voted(&voted, sender, h, first)
                &&& if self.delivers(sender, h) {
                    let v = self.rbc.body(h).unwrap();
                    exists|marked: Engine, second: Seq<MessageView>|
                        {
                            &&& voted.marked_delivered(&marked, h)
                            &&& marked.received(
                                after,
                                PendingView { from: v.source, sender: v.source, vertex: v },
                                second,
                            )
                            &&& outbox == first + second
                        }
                } else {
                    voted == *after && outbox == first
                }
            }
    }

    /// Whether `after` and `outbox` follow from `message` received from the
    /// peer `sender_id`. In dense mode a vertex is the body of a reliable
    /// broadcast and ECHO and READY are its votes; in sparse mode a vertex
    /// goes to the round engine and votes are dropped; a commit notice is
    /// dropped in both.
    pub open spec fn handled(&self, after: &Engine, sender_id: u32, message: MessageView, outbox: Seq<MessageView>) -> bool {
        match message {
            MessageView::Vertex { sender, vertex } => match self.mode {
                Mode::Dense => self.body_received(after, vertex, outbox),
                Mode::Sparse { .. } => self.received(
                    after,
                    PendingView { from: sender_id, sender, vertex },
                    outbox,
                ),
            },
            MessageView::Echo { vertex_hash } => match self.mode {
                Mode::Dense => self.echo_received(after, sender_id, vertex_hash, outbox),
                Mode::Sparse { .. } => *after == *self && outbox == Seq::<MessageView>::empty(),
            },
            MessageView::Ready { vertex_hash } => match self.mode {
                Mode::Dense => self.ready_received(after, sender_id, vertex_hash, outbox),
                Mode::Sparse { .. } => *after == *self && outbox == Seq::<MessageView>::empty(),
            },
            MessageView::Commit { round, committed_vertices } => {
                *after == *self && outbox == Seq::<MessageView>::empty()
            },
        }
    }
}

} // verus!
