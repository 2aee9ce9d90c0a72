//! The work of the round engine: accepting vertices, advancing rounds, the
//! pending buffer, and the loop that drives them to a fixpoint.

use vstd::prelude::*;
use vstd::std_specs::hash::group_hash_axioms;
use crate::bytes::copy_bytes;
use crate::dag::DAG;
use crate::engine::{Engine, Mode};
use crate::message::{message_views, EchoMessage, MessageView, ReadyMessage, SparseMessage, VertexMessage};
use crate::rules::{
    extends, has_genesis, has_parents, lemma_extends_self, lemma_extends_transitive,
    lemma_insert_keeps, parents_stored,
};
use crate::run::{joined, pending_views, PendingView};
use crate::reach::hashes_of;
use crate::vertex::{
    content_hash, genesis_hash, genesis_view, NodeId, Vertex, VertexHash, VertexView,
};

verus! {

broadcast use group_hash_axioms;

/// The hashes of the genesis vertex's round hold the genesis hash.
proof fn lemma_genesis_is_parent(dag: DAG, v: VertexView)
    requires
        has_genesis(dag),
        v.round == 1,
        v.edges == seq![genesis_hash()],
    ensures
        has_parents(dag, v),
{
    let round = dag.round_or_empty(0);
    assert(hashes_of(round)[0] == genesis_hash());
}

impl Engine {
    /// What holds between a state and any later one: the setup is the same;
    /// the store, the finalized sequence and the delivered hashes have only
    /// grown; the round has not gone back; and if every stored vertex
    /// carried its content hash, every one still does.
    pub open spec fn evolves(&self, after: &Engine) -> bool {
        &&& after.same_setup(self)
        &&& extends(self.dag, after.dag)
        &&& after.round >= self.round
        &&& self.ordered().is_prefix_of(after.ordered())
        &&& forall|h: Seq<u8>| self.rbc.delivered(h) ==> #[trigger] after.rbc.delivered(h)
        &&& (self.hashes_hold() ==> after.hashes_hold())
    }

    /// Every state evolves into itself.
    pub proof fn lemma_evolves_self(&self)
        ensures
            self.evolves(self),
    {
        lemma_extends_self(self.dag);
        assert(self.ordered().is_prefix_of(self.ordered()));
    }

    /// Evolution is transitive.
    pub proof fn lemma_evolves_transitive(&self, mid: &Engine, after: &Engine)
        requires
            self.evolves(mid),
            mid.evolves(after),
        ensures
            self.evolves(after),
    {
        lemma_extends_transitive(self.dag, mid.dag, after.dag);
        assert(self.ordered().is_prefix_of(after.ordered()));
        assert forall|h: Seq<u8>| self.rbc.delivered(h) implies #[trigger] after.rbc.delivered(h) by {
            assert(mid.rbc.delivered(h));
        }
    }

    /// A commit, or none, is an evolution.
    pub proof fn lemma_commit_evolves(&self, after: &Engine, round: u64)
        requires
            match self.direct_commit(round) {
                Some(anchor) => self.committed(after, anchor),
                None => *after == *self,
            },
        ensures
            self.evolves(after),
            after.dag == self.dag,
            after.round == self.round,
            after.pending_vertices == self.pending_vertices,
            after.rbc == self.rbc,
    {
        lemma_extends_self(self.dag);
        assert(self.ordered().is_prefix_of(after.ordered()));
    }

    /// Whether a vertex may be stored: it is above round 0, its parents are
    /// stored, and in sparse mode it has at most `d + 2` of them.
    pub open spec fn storable(&self, v: VertexView) -> bool {
        &&& has_parents(self.dag, v)
        &&& (self.mode matches Mode::Sparse { d } ==> v.edges.len() <= d + 2)
    }

    /// A vertex that meets the validation rule may be stored.
    pub proof fn lemma_valid_is_storable(&self, v: VertexView, round: u64, source: u32)
        requires
            self.wf(),
            self.valid_given(v, round, source, true),
        ensures
            self.storable(v),
            v.hash == content_hash(v),
    {
        if v.round == 1 {
            lemma_genesis_is_parent(self.dag, v);
        }
    }

    /// Stores a vertex: inserts it and leaves everything else as it is.
    pub fn store_vertex(&mut self, vertex: Vertex)
        requires
            old(self).wf(),
            old(self).storable(vertex@),
        ensures
            final(self).wf(),
            *final(self) == old(self).with_dag(final(self).dag),
            final(self).dag.log() == old(self).dag.log().push(vertex@),
            final(self).dag.round_view(vertex.round) == Some(
                old(self).dag.round_or_empty(vertex.round).push(vertex@),
            ),
            forall|r: u64|
                r != vertex.round ==> final(self).dag.round_view(r) == old(self).dag.round_view(r),
            forall|h: Seq<u8>|
                final(self).dag.by_hash(h) == if h == vertex@.hash {
                    Some(vertex@)
                } else {
                    old(self).dag.by_hash(h)
                },
            extends(old(self).dag, final(self).dag),
            vertex@.hash == content_hash(vertex@) ==> old(self).evolves(final(self)),
    {
        let ghost v = vertex@;
        self.dag.insert(vertex);
        proof {
            lemma_insert_keeps(old(self).dag, self.dag, v);
            assert(old(self).ordered().is_prefix_of(self.ordered()));
            assert(self.rounds_justified()) by {
                assert forall|p: u64| 1 <= p && p + 1 < self.round implies (
                #[trigger] self.dag.round_or_empty(p)).len() >= 2 * self.f + 1 by {
                    assert(old(self).dag.round_or_empty(p).is_prefix_of(
                        self.dag.round_or_empty(p),
                    ));
                }
            }
            match self.mode {
                Mode::Dense => {},
                Mode::Sparse { d } => {
                    assert forall|i: int| 0 <= i < self.dag.log().len() implies (
                    #[trigger] self.dag.log()[i]).edges.len() <= d + 2 by {
                        if i < old(self).dag.log().len() {
                            assert(self.dag.log()[i] == old(self).dag.log()[i]);
                        }
                    }
                },
            }
            if v.hash == content_hash(v) && old(self).hashes_hold() {
                assert forall|i: int| 0 <= i < self.dag.log().len() implies (
                #[trigger] self.dag.log()[i]) == genesis_view()
                    || self.dag.log()[i].hash == content_hash(self.dag.log()[i]) by {
                    if i < old(self).dag.log().len() {
                        assert(self.dag.log()[i] == old(self).dag.log()[i]);
                    }
                }
            }
        }
    }

    /// Whether the store holds a vertex under the hash of `v`.
    pub fn is_held(&self, v: &Vertex) -> (held: bool)
        ensures
            held == self.holds(v@),
    {
        match self.dag.get_by_hash(&v.hash) {
            Some(_) => true,
            None => false,
        }
    }

    /// Accepts a valid vertex: stores it and applies the commit rule on its
    /// arrival.
    pub fn accept_vertex(&mut self, vertex: Vertex)
        requires
            old(self).wf(),
            old(self).storable(vertex@),
        ensures
            final(self).wf(),
            old(self).accepted(final(self), vertex@),
            final(self).round == old(self).round,
            final(self).pending_vertices == old(self).pending_vertices,
            final(self).rbc == old(self).rbc,
            vertex@.hash == content_hash(vertex@) ==> old(self).evolves(final(self)),
    {
        let copy = vertex.duplicate();
        self.store_vertex(vertex);
        let ghost mid = *self;
        self.try_committing(copy);
        proof {
            mid.lemma_commit_evolves(self, copy@.round);
            assert(old(self).with_dag(self.dag) == mid);
            if copy@.hash == content_hash(copy@) {
                old(self).lemma_evolves_transitive(&mid, self);
            }
        }
    }

    /// A change of the broadcast state alone, in which no delivery is
    /// forgotten, is an evolution.
    pub proof fn lemma_rbc_change_evolves(&self, after: &Engine)
        requires
            *after == self.with_rbc(after.rbc),
            forall|h: Seq<u8>| self.rbc.delivered(h) ==> #[trigger] after.rbc.delivered(h),
        ensures
            self.evolves(after),
    {
        lemma_extends_self(self.dag);
        assert(self.ordered().is_prefix_of(after.ordered()));
    }

    /// A change of the buffer alone is an evolution.
    pub proof fn lemma_buffer_change_evolves(&self, after: &Engine)
        requires
            *after == self.with_pending(after.pending_vertices),
        ensures
            self.evolves(after),
    {
        lemma_extends_self(self.dag);
        assert(self.ordered().is_prefix_of(after.ordered()));
    }

    /// Receives the body of a vertex. Unless the vertex is delivered or its
    /// body held already, the body is held and ECHO is sent for its hash.
    /// Who sent the body does not matter.
    pub fn handle_rbc_val(&mut self, _sender: NodeId, vertex: Vertex) -> (outbox: Vec<SparseMessage>)
        requires
            old(self).wf(),
        ensures
            final(self).wf(),
            old(self).evolves(final(self)),
            old(self).body_received(final(self), vertex@, message_views(outbox@)),
    {
        let mut outbox: Vec<SparseMessage> = Vec::new();
        let hash = copy_bytes(&vertex.hash);
        proof {
            self.lemma_evolves_self();
            assert(message_views(outbox@) =~= Seq::<MessageView>::empty());
        }
        if self.rbc.is_delivered(&hash) {
            return outbox;
        }
        if !self.rbc.has_body(&hash) {
            self.rbc.store_body(vertex);
            let echo_msg = SparseMessage::RBC_Echo(EchoMessage { vertex_hash: hash });
            outbox.push(echo_msg);
            proof {
                old(self).lemma_rbc_change_evolves(self);
                assert(message_views(outbox@) =~= seq![
                    MessageView::Echo { vertex_hash: vertex@.hash },
                ]);
            }
        }
        outbox
    }

    /// Sends READY for `hash` unless this node has: its own id among the
    /// READY voters stands for having sent.
    pub fn try_send_ready(&mut self, hash: VertexHash) -> (outbox: Vec<SparseMessage>)
        requires
            old(self).wf(),
        ensures
            final(self).wf(),
            old(self).evolves(final(self)),
            old(self).votes_changed(final(self), hash@),
            final(self).rbc.echo_counts == old(self).rbc.echo_counts,
            if old(self).rbc.ready_counts.votes(hash@).contains(old(self).my_id()) {
                &&& final(self).rbc.ready_counts.votes(hash@) == old(self).rbc.ready_counts.votes(
                    hash@,
                )
                &&& message_views(outbox@) == Seq::<MessageView>::empty()
            } else {
                &&& final(self).rbc.ready_counts.votes(hash@) == old(self).rbc.ready_counts.votes(
                    hash@,
                ).push(old(self).my_id())
                &&& message_views(outbox@) == seq![MessageView::Ready { vertex_hash: hash@ }]
            },
    {
        let mut outbox: Vec<SparseMessage> = Vec::new();
        let my_id = self.environment.my_node.id;
        proof {
            self.lemma_evolves_self();
            assert(message_views(outbox@) =~= Seq::<MessageView>::empty());
        }
        if !self.rbc.ready_counts.has_vote(&hash, my_id) {
            self.rbc.ready_counts.add_vote(&hash, my_id);
            let ready_msg = SparseMessage::RBC_Ready(ReadyMessage { vertex_hash: hash });
            outbox.push(ready_msg);
            proof {
                old(self).lemma_rbc_change_evolves(self);
                assert(message_views(outbox@) =~= seq![MessageView::Ready { vertex_hash: hash@ }]);
            }
        }
        outbox
    }

    /// Receives an ECHO of `sender` for `hash`. Unless the hash is delivered,
    /// the vote is recorded, and with `2f + 1` voters READY is sent, once.
    ///
    /// The voters are the senders of the ECHOs that were received. This
    /// node's own ECHO counts only if the transport hands it back.
    pub fn handle_rbc_echo(&mut self, sender: NodeId, hash: VertexHash) -> (outbox: Vec<SparseMessage>)
        requires
            old(self).wf(),
        ensures
            final(self).wf(),
            old(self).evolves(final(self)),
            old(self).echo_received(final(self), sender, hash@, message_views(outbox@)),
    {
        proof {
            self.lemma_evolves_self();
        }
        if self.rbc.is_delivered(&hash) {
            let outbox: Vec<SparseMessage> = Vec::new();
            assert(message_views(outbox@) =~= Seq::<MessageView>::empty());
            return outbox;
        }
        let count = self.rbc.echo_counts.add_vote(&hash, sender);
        let n = self.environment.nodes.len();
        assert(self.f <= n / 3);
        let threshold = 2 * self.f + 1;
        let ghost mid = *self;
        proof {
            old(self).lemma_rbc_change_evolves(self);
        }
        if count >= threshold {
            let outbox = self.try_send_ready(hash);
            proof {
                old(self).lemma_evolves_transitive(&mid, self);
            }
            outbox
        } else {
            let outbox: Vec<SparseMessage> = Vec::new();
            assert(message_views(outbox@) =~= Seq::<MessageView>::empty());
            outbox
        }
    }

    /// Whether this node may have sent these messages: a vertex message
    /// carries a stored vertex of this node's own, under this node's id; ECHO
    /// and READY go out in dense mode only; nothing else goes out.
    pub open spec fn sends_ok(&self, outbox: Seq<MessageView>) -> bool {
        forall|i: int|
            0 <= i < outbox.len() ==> match #[trigger] outbox[i] {
                MessageView::Vertex { sender, vertex } => {
                    &&& sender == self.my_id()
                    &&& vertex.source == self.my_id()
                    &&& vertex.hash == content_hash(vertex)
                    &&& self.dag.log().contains(vertex)
                },
                MessageView::Echo { vertex_hash } => self.mode is Dense,
                MessageView::Ready { vertex_hash } => self.mode is Dense,
                MessageView::Commit { round, committed_vertices } => false,
            }
    }

    /// What was sent stays in order as the state evolves.
    pub proof fn lemma_sends_kept(&self, after: &Engine, outbox: Seq<MessageView>)
        requires
            self.sends_ok(outbox),
            self.evolves(after),
        ensures
            after.sends_ok(outbox),
    {
        assert forall|i: int| 0 <= i < outbox.len() implies match #[trigger] outbox[i] {
            MessageView::Vertex { sender, vertex } => {
                &&& sender == after.my_id()
                &&& vertex.source == after.my_id()
                &&& vertex.hash == content_hash(vertex)
                &&& after.dag.log().contains(vertex)
            },
            MessageView::Echo { vertex_hash } => after.mode is Dense,
            MessageView::Ready { vertex_hash } => after.mode is Dense,
            MessageView::Commit { round, committed_vertices } => false,
        } by {
            match outbox[i] {
                MessageView::Vertex { sender, vertex } => {
                    let j = choose|j: int| 0 <= j < self.dag.log().len() && self.dag.log()[j] == vertex;
                    assert(self.dag.log().is_prefix_of(after.dag.log()));
                    assert(after.dag.log()[j] == vertex);
                },
                _ => {},
            }
        }
    }

    /// Advances to the next round: creates this node's vertex for the
    /// round, stores it, moves on, and sends the vertex; then, in dense
    /// mode, takes the vertex as a received body, and in sparse mode applies
    /// the commit rule on it.
    ///
    /// In dense mode the vertex comes back when its broadcast delivers; the
    /// store holds its hash by then, and it is not stored again.
    pub fn advance_round(&mut self) -> (outbox: Vec<SparseMessage>)
        requires
            old(self).wf(),
            old(self).may_advance(),
        ensures
            final(self).wf(),
            old(self).evolves(final(self)),
            old(self).advanced(final(self), message_views(outbox@)),
            final(self).round == old(self).round + 1,
            final(self).pending_vertices == old(self).pending_vertices,
            final(self).rbc.echo_counts == old(self).rbc.echo_counts,
            final(self).rbc.ready_counts == old(self).rbc.ready_counts,
            final(self).rbc.delivered_vertices == old(self).rbc.delivered_vertices,
            final(self).sends_ok(message_views(outbox@)),
    {
        let round = self.round;
        let new_vertex = self.create_new_vertex(round);
        let my_id = self.environment.my_node.id;
        let ghost v = new_vertex@;
        proof {
            if round != 1 {
                assert(self.dag.round_or_empty((round - 1) as u64).len() >= 1);
            }
            assert(self.dag.round_view((round - 1) as u64) is Some);
        }
        self.store_vertex(new_vertex.duplicate());
        let ghost stored = *self;
        self.round = round + 1;
        let ghost moved = *self;
        proof {
            assert(moved == old(self).with_dag(moved.dag).with_round((round + 1) as u64));
            assert(self.rounds_justified()) by {
                assert forall|p: u64| 1 <= p && p + 1 < self.round implies (
                #[trigger] self.dag.round_or_empty(p)).len() >= 2 * self.f + 1 by {
                    if p + 1 < round {
                        assert(stored.dag.round_or_empty(p).len() >= 2 * self.f + 1);
                    } else {
                        assert(old(self).dag.round_or_empty(p).is_prefix_of(
                            self.dag.round_or_empty(p),
                        ));
                    }
                }
            }
            assert(stored.evolves(self)) by {
                lemma_extends_self(self.dag);
                assert(stored.ordered().is_prefix_of(self.ordered()));
            }
            old(self).lemma_evolves_transitive(&stored, self);
        }
        let mut outbox: Vec<SparseMessage> = Vec::new();
        let vertex_message = SparseMessage::Vertex(
            VertexMessage { sender: my_id, vertex: new_vertex.duplicate() },
        );
        outbox.push(vertex_message);
        let ghost first = message_views(outbox@);
        proof {
            assert(self.dag.log()[self.dag.log().len() - 1] == v);
            assert(first =~= seq![MessageView::Vertex { sender: my_id, vertex: v }]);
            assert(self.sends_ok(first));
        }
        match self.mode {
            Mode::Dense => {
                let mut echo = self.handle_rbc_val(my_id, new_vertex);
                let ghost echoed = message_views(echo@);
                outbox.append(&mut echo);
                proof {
                    old(self).lemma_evolves_transitive(&moved, self);
                    moved.lemma_sends_kept(self, first);
                    assert(message_views(outbox@) =~= first + echoed);
                    assert(message_views(outbox@).subrange(1, message_views(outbox@).len() as int)
                        =~= echoed);
                    assert(self.sends_ok(message_views(outbox@)));
                    assert(self.dag == moved.dag);
                }
            },
            Mode::Sparse { .. } => {
                self.try_committing(new_vertex);
                proof {
                    moved.lemma_commit_evolves(self, v.round);
                    old(self).lemma_evolves_transitive(&moved, self);
                    moved.lemma_sends_kept(self, first);
                }
            },
        }
        outbox
    }

    /// Whether no vertex buffered under round `r` meets the validation rule.
    pub open spec fn none_valid(&self, r: u64) -> bool {
        forall|i: int|
            0 <= i < self.pending_of(r).len() ==> !self.valid_given(
                (#[trigger] self.pending_of(r)[i]).vertex,
                self.pending_of(r)[i].vertex.round,
                self.pending_of(r)[i].from,
                true,
            )
    }

    /// Buffers a vertex under round `r`, behind those that are.
    pub fn buffer_vertex(&mut self, r: u64, sender_id: NodeId, vm: VertexMessage)
        requires
            old(self).wf(),
        ensures
            final(self).wf(),
            old(self).evolves(final(self)),
            old(self).buffered(
                final(self),
                PendingView { from: sender_id, sender: vm.sender, vertex: vm.vertex@ },
                r,
            ),
    {
        let ghost item = PendingView { from: sender_id, sender: vm.sender, vertex: vm.vertex@ };
        let mut list = match self.pending_vertices.remove(&r) {
            Some(list) => list,
            None => Vec::new(),
        };
        let ghost kept = pending_views(list@);
        assert(kept =~= old(self).pending_of(r));
        list.push((sender_id, vm));
        assert(pending_views(list@) =~= kept.push(item));
        self.pending_vertices.insert(r, list);
        proof {
            old(self).lemma_buffer_change_evolves(self);
            assert forall|q: u64| q != r implies #[trigger] self.pending_of(q) == old(self).pending_of(
                q,
            ) by {}
        }
    }

    /// Does what follows from the verdict on a vertex that was buffered
    /// under round `r`: a vertex found valid is taken in (accepted, unless
    /// the store holds its hash already: then it is passed over), any other
    /// is buffered anew. Tells whether the vertex was accepted.
    pub fn revalidate_given(&mut self, sender_id: NodeId, vm: VertexMessage, r: u64, valid: bool) -> (accepted:
        bool)
        requires
            old(self).wf(),
            valid ==> old(self).valid_given(vm.vertex@, vm.vertex@.round, sender_id, true),
        ensures
            final(self).wf(),
            old(self).evolves(final(self)),
            final(self).round == old(self).round,
            final(self).rbc == old(self).rbc,
            accepted == (valid && !old(self).holds(vm.vertex@)),
            if valid {
                &&& old(self).taken_in(final(self), vm.vertex@)
                &&& final(self).pending_vertices == old(self).pending_vertices
                &&& accepted ==> final(self).dag.log().len() == old(self).dag.log().len() + 1
            } else {
                old(self).buffered(
                    final(self),
                    PendingView { from: sender_id, sender: vm.sender, vertex: vm.vertex@ },
                    r,
                )
            },
    {
        if valid {
            if self.is_held(&vm.vertex) {
                proof {
                    self.lemma_evolves_self();
                }
                return false;
            }
            proof {
                self.lemma_valid_is_storable(vm.vertex@, vm.vertex@.round, sender_id);
            }
            self.accept_vertex(vm.vertex);
            true
        } else {
            self.buffer_vertex(r, sender_id, vm);
            false
        }
    }

    /// Validates again one vertex that was buffered under round `r`, and
    /// `revalidate_given` does what follows from the verdict. Tells whether
    /// the vertex was accepted; one that is neither accepted nor buffered
    /// anew was passed over.
    pub fn revalidate(&mut self, sender_id: NodeId, vm: VertexMessage, r: u64) -> (accepted: bool)
        requires
            old(self).wf(),
        ensures
            final(self).wf(),
            old(self).evolves(final(self)),
            old(self).revalidated(
                final(self),
                PendingView { from: sender_id, sender: vm.sender, vertex: vm.vertex@ },
                r,
            ),
            final(self).round == old(self).round,
            final(self).rbc == old(self).rbc,
            if accepted {
                &&& final(self).dag.log().len() == old(self).dag.log().len() + 1
                &&& final(self).pending_vertices == old(self).pending_vertices
            } else {
                ||| *final(self) == *old(self)
                ||| {
                    &&& old(self).buffered(
                        final(self),
                        PendingView { from: sender_id, sender: vm.sender, vertex: vm.vertex@ },
                        r,
                    )
                    &&& (old(self).mode is Dense ==> !old(self).valid_given(
                        vm.vertex@,
                        vm.vertex@.round,
                        sender_id,
                        true,
                    ))
                }
            },
    {
        let valid = self.validate_vertex(&vm.vertex, vm.vertex.round, sender_id);
        self.revalidate_given(sender_id, vm, r, valid)
    }

    /// Validates again each vertex buffered under round `r`, in the order
    /// they came: a valid one is accepted, or passed over if the store holds
    /// its hash already; the others stay buffered in their order. Tells
    /// whether one was accepted.
    pub fn promote_pending(&mut self, r: u64) -> (promoted: bool)
        requires
            old(self).wf(),
        ensures
            final(self).wf(),
            old(self).evolves(final(self)),
            old(self).promoted(final(self), r),
            final(self).round == old(self).round,
            final(self).rbc == old(self).rbc,
            final(self).pending_within(old(self)),
            forall|q: u64| q != r ==> #[trigger] final(self).pending_of(q) == old(self).pending_of(q),
            promoted == (final(self).dag.log().len() > old(self).dag.log().len()),
            final(self).pending_of(r).len() <= old(self).pending_of(r).len(),
            promoted ==> final(self).pending_of(r).len() < old(self).pending_of(r).len(),
            !promoted ==> {
                &&& *final(self) == old(self).with_pending(final(self).pending_vertices)
                &&& (final(self).mode is Dense ==> final(self).none_valid(r))
            },
    {
        let items: Vec<(NodeId, VertexMessage)> = match self.pending_vertices.remove(&r) {
            Some(list) => list,
            None => Vec::new(),
        };
        let ghost all = pending_views(items@);
        let ghost emptied = *self;
        let ghost mut trace: Seq<Engine> = seq![emptied];
        let mut promoted = false;
        let mut i: usize = 0;
        proof {
            old(self).lemma_buffer_change_evolves(self);
            assert(all =~= old(self).pending_of(r));
            assert forall|q: u64| q != r implies #[trigger] self.pending_of(q) == old(self).pending_of(
                q,
            ) by {}
        }
        while i < items.len()
            invariant
                i <= items.len(),
                all == pending_views(items@),
                all == old(self).pending_of(r),
                self.wf(),
                old(self).evolves(self),
                self.round == old(self).round,
                self.rbc == old(self).rbc,
                self.pending_of(r).len() <= i,
                forall|q: u64| q != r ==> #[trigger] self.pending_of(q) == old(self).pending_of(q),
                forall|j: int|
                    0 <= j < self.pending_of(r).len() ==> all.contains(#[trigger] self.pending_of(r)[j]),
                promoted == (self.dag.log().len() > old(self).dag.log().len()),
                promoted ==> self.pending_of(r).len() < i,
                !promoted ==> *self == emptied.with_pending(self.pending_vertices),
                !promoted && self.mode is Dense ==> self.none_valid(r),
                emptied == old(self).with_pending(emptied.pending_vertices),
                emptied.pending_of(r).len() == 0,
                forall|q: u64| q != r ==> #[trigger] emptied.pending_of(q) == old(self).pending_of(q),
                old(self).dag.log().len() == emptied.dag.log().len(),
                trace.len() == i + 1,
                trace[0] == emptied,
                trace[i as int] == *self,
                forall|j: int| 0 <= j < i ==> #[trigger] old(self).promotion_step(trace, r, j),
            decreases items.len() - i,
        {
            let sender_id = items[i].0;
            let vm = items[i].1.duplicate();
            let ghost kept = self.pending_of(r);
            let ghost before = *self;
            let ghost item = PendingView { from: sender_id, sender: vm.sender, vertex: vm.vertex@ };
            assert(all[i as int] == item);
            let accepted = self.revalidate(sender_id, vm, r);
            if accepted {
                promoted = true;
            }
            proof {
                old(self).lemma_evolves_transitive(&before, self);
                assert(extends(old(self).dag, before.dag));
                assert(old(self).dag.log().is_prefix_of(before.dag.log()));
                assert forall|q: u64| q != r implies #[trigger] self.pending_of(q) == old(
                    self,
                ).pending_of(q) by {
                    assert(before.pending_of(q) == old(self).pending_of(q));
                }
                if !accepted {
                    assert forall|j: int| 0 <= j < self.pending_of(r).len() implies all.contains(
                        #[trigger] self.pending_of(r)[j],
                    ) by {
                        if j < kept.len() {
                            assert(self.pending_of(r)[j] == kept[j]);
                        }
                    }
                    if !promoted && self.mode is Dense {
                        assert forall|j: int| 0 <= j < self.pending_of(r).len() implies !self.valid_given(
                            (#[trigger] self.pending_of(r)[j]).vertex,
                            self.pending_of(r)[j].vertex.round,
                            self.pending_of(r)[j].from,
                            true,
                        ) by {
                            if j < kept.len() {
                                assert(self.pending_of(r)[j] == kept[j]);
                                assert(!before.valid_given(
                                    kept[j].vertex,
                                    kept[j].vertex.round,
                                    kept[j].from,
                                    true,
                                ));
                            }
                        }
                    }
                }
                let longer = trace.push(*self);
                assert forall|j: int| 0 <= j < i + 1 implies #[trigger] old(self).promotion_step(
                    longer,
                    r,
                    j,
                ) by {
                    if j < i {
                        assert(old(self).promotion_step(trace, r, j));
                        assert(longer[j] == trace[j] && longer[j + 1] == trace[j + 1]);
                    } else {
                        assert(longer[j] == before && longer[j + 1] == *self);
                    }
                }
                trace = longer;
            }
            i += 1;
        }
        proof {
            assert(old(self).is_promotion(self, r, trace));
            assert forall|q: u64, j: int| 0 <= j < self.pending_of(q).len() implies old(
                self,
            ).pending_of(q).contains(#[trigger] self.pending_of(q)[j]) by {
                if q != r {
                    assert(self.pending_of(q) == old(self).pending_of(q));
                }
            }
        }
        promoted
    }

    /// Whether every vertex buffered in this state was buffered in `before`,
    /// under the same round.
    pub open spec fn pending_within(&self, before: &Engine) -> bool {
        forall|q: u64, i: int|
            0 <= i < self.pending_of(q).len() ==> before.pending_of(q).contains(
                #[trigger] self.pending_of(q)[i],
            )
    }

    /// Vertices stay within what was buffered, step after step.
    pub proof fn lemma_pending_within(&self, mid: &Engine, before: &Engine)
        requires
            self.pending_within(mid),
            mid.pending_within(before),
        ensures
            self.pending_within(before),
    {
        assert forall|q: u64, i: int| 0 <= i < self.pending_of(q).len() implies before.pending_of(
            q,
        ).contains(#[trigger] self.pending_of(q)[i]) by {
            let x = self.pending_of(q)[i];
            assert(mid.pending_of(q).contains(x));
            let j = choose|j: int| 0 <= j < mid.pending_of(q).len() && mid.pending_of(q)[j] == x;
            assert(before.pending_of(q).contains(mid.pending_of(q)[j]));
        }
    }

    /// Every state buffers what it buffers.
    pub proof fn lemma_pending_within_self(&self)
        ensures
            self.pending_within(self),
    {
        assert forall|q: u64, i: int| 0 <= i < self.pending_of(q).len() implies self.pending_of(
            q,
        ).contains(#[trigger] self.pending_of(q)[i]) by {}
    }

    /// The number of buffered vertices that a pass looks at: those under the
    /// round before the current one and under the current one.
    pub open spec fn watched(&self) -> nat {
        self.pending_of((self.round - 1) as u64).len() + self.pending_of(self.round).len()
    }

    /// A state that has come to rest: the node may not advance and, in dense
    /// mode, no vertex buffered under the current round or the one before
    /// meets the validation rule.
    pub open spec fn at_rest(&self) -> bool {
        &&& !self.may_advance()
        &&& (self.mode is Dense ==> self.none_valid(self.round))
        &&& (self.mode is Dense ==> self.none_valid((self.round - 1) as u64))
    }

    /// A state that differs from another in the buffer alone, and buffers
    /// nothing that the other does not, judges the buffered vertices alike.
    pub proof fn lemma_none_valid_kept(&self, after: &Engine, r: u64)
        requires
            *after == self.with_pending(after.pending_vertices),
            after.pending_within(self),
            self.mode is Dense ==> self.none_valid(r),
        ensures
            after.mode is Dense ==> after.none_valid(r),
            after.may_advance() == self.may_advance(),
    {
        if self.mode is Dense {
            assert forall|i: int| 0 <= i < after.pending_of(r).len() implies !after.valid_given(
                (#[trigger] after.pending_of(r)[i]).vertex,
                after.pending_of(r)[i].vertex.round,
                after.pending_of(r)[i].from,
                true,
            ) by {
                let p = after.pending_of(r)[i];
                assert(self.pending_of(r).contains(p));
                let j = choose|j: int| 0 <= j < self.pending_of(r).len() && self.pending_of(r)[j] == p;
                assert(!self.valid_given(
                    self.pending_of(r)[j].vertex,
                    self.pending_of(r)[j].vertex.round,
                    self.pending_of(r)[j].from,
                    true,
                ));
            }
        }
    }

    /// One pass of the work loop: advances a round if the node may, then
    /// validates again the buffered vertices of the round before the current
    /// one and of the current one. Gives the messages to send, and tells
    /// whether it advanced or accepted.
    pub fn work_pass(&mut self) -> (out: (bool, Vec<SparseMessage>))
        requires
            old(self).wf(),
        ensures
            final(self).wf(),
            old(self).evolves(final(self)),
            old(self).passed(final(self), message_views(out.1@)),
            out.0 == old(self).progressed(final(self)),
            final(self).rbc.echo_counts == old(self).rbc.echo_counts,
            final(self).rbc.ready_counts == old(self).rbc.ready_counts,
            final(self).rbc.delivered_vertices == old(self).rbc.delivered_vertices,
            final(self).sends_ok(message_views(out.1@)),
            final(self).pending_within(old(self)),
            out.0 ==> final(self).round > old(self).round || (final(self).round == old(self).round
                && final(self).watched() < old(self).watched()),
            !out.0 ==> final(self).at_rest(),
    {
        let may = self.may_advance_round();
        let outbox = if may {
            self.advance_round()
        } else {
            let none: Vec<SparseMessage> = Vec::new();
            proof {
                self.lemma_evolves_self();
                assert(message_views(none@) =~= Seq::<MessageView>::empty());
            }
            none
        };
        let ghost moved = *self;
        proof {
            assert(moved.pending_vertices == old(self).pending_vertices);
            old(self).lemma_pending_within_self();
            assert(moved.pending_within(old(self))) by {
                assert forall|q: u64, i: int| 0 <= i < moved.pending_of(q).len() implies old(
                    self,
                ).pending_of(q).contains(#[trigger] moved.pending_of(q)[i]) by {
                    assert(moved.pending_of(q) == old(self).pending_of(q));
                }
            }
        }
        let previous = self.round - 1;
        let current = self.round;
        let first = self.promote_pending(previous);
        let ghost between = *self;
        let second = self.promote_pending(current);
        proof {
            self.lemma_pending_within(&between, &moved);
            self.lemma_pending_within(&moved, old(self));
            moved.lemma_evolves_transitive(&between, self);
            old(self).lemma_evolves_transitive(&moved, self);
            moved.lemma_sends_kept(self, message_views(outbox@));
            assert(between.pending_of(current) == moved.pending_of(current));
            assert(self.pending_of(previous) == between.pending_of(previous));
            assert(moved.pending_of(previous) == old(self).pending_of(previous));
            assert(moved.pending_of(current) == old(self).pending_of(current));
            if !first && !second {
                between.lemma_none_valid_kept(self, previous);
            }
            assert(old(self).is_pass(self, message_views(outbox@), moved, between));
            assert(extends(old(self).dag, moved.dag));
            assert(old(self).dag.log().is_prefix_of(moved.dag.log()));
        }
        (may || first || second, outbox)
    }

    /// Drives the node until nothing more can be done: again and again it
    /// advances a round if it may, then validates again the buffered vertices
    /// of the round before the current one and of the current one, until a
    /// pass neither advances nor accepts. Gives the messages to send, in
    /// order.
    pub fn process_work_loop(&mut self) -> (outbox: Vec<SparseMessage>)
        requires
            old(self).wf(),
        ensures
            final(self).wf(),
            old(self).evolves(final(self)),
            old(self).ran(final(self), message_views(outbox@)),
            final(self).rbc.echo_counts == old(self).rbc.echo_counts,
            final(self).rbc.ready_counts == old(self).rbc.ready_counts,
            final(self).rbc.delivered_vertices == old(self).rbc.delivered_vertices,
            final(self).sends_ok(message_views(outbox@)),
            final(self).pending_within(old(self)),
            final(self).at_rest(),
    {
        let mut outbox: Vec<SparseMessage> = Vec::new();
        let ghost mut trace: Seq<Engine> = seq![*self];
        let ghost mut sent: Seq<Seq<MessageView>> = Seq::empty();
        proof {
            self.lemma_evolves_self();
            self.lemma_pending_within_self();
            assert(message_views(outbox@) =~= joined(sent));
        }
        loop
            invariant_except_break
                forall|i: int| 0 <= i < sent.len() ==> #[trigger] trace[i].progressed(&trace[i + 1]),
            invariant
                self.wf(),
                old(self).evolves(self),
                self.rbc.echo_counts == old(self).rbc.echo_counts,
                self.rbc.ready_counts == old(self).rbc.ready_counts,
                self.rbc.delivered_vertices == old(self).rbc.delivered_vertices,
                self.sends_ok(message_views(outbox@)),
                self.pending_within(old(self)),
                trace.len() == sent.len() + 1,
                trace[0] == *old(self),
                trace.last() == *self,
                forall|i: int| 0 <= i < sent.len() ==> #[trigger] trace[i].passed(&trace[i + 1], sent[i]),
                message_views(outbox@) == joined(sent),
            ensures
                self.at_rest(),
                old(self).is_run(self, trace, sent),
            decreases u64::MAX - self.round, self.watched(),
        {
            let ghost entry = *self;
            let ghost before = message_views(outbox@);
            let (progress, mut more) = self.work_pass();
            let ghost added = message_views(more@);
            outbox.append(&mut more);
            proof {
                old(self).lemma_evolves_transitive(&entry, self);
                self.lemma_pending_within(&entry, old(self));
                entry.lemma_sends_kept(self, before);
                assert(message_views(outbox@) =~= before + added);
                let longer = trace.push(*self);
                let told = sent.push(added);
                assert(told.drop_last() =~= sent);
                assert forall|i: int| 0 <= i < told.len() implies #[trigger] longer[i].passed(
                    &longer[i + 1],
                    told[i],
                ) by {
                    if i < sent.len() {
                        assert(trace[i].passed(&trace[i + 1], sent[i]));
                    }
                }
                if progress {
                    assert forall|i: int| 0 <= i < told.len() implies #[trigger] longer[i].progressed(
                        &longer[i + 1],
                    ) by {
                        if i < sent.len() {
                            assert(trace[i].progressed(&trace[i + 1]));
                        }
                    }
                } else {
                    assert forall|i: int| 0 <= i < told.len() implies #[trigger] Self::run_step(
                        longer,
                        told,
                        i,
                    ) by {
                        if i < sent.len() {
                            assert(trace[i].progressed(&trace[i + 1]));
                            assert(trace[i].passed(&trace[i + 1], sent[i]));
                        }
                    }
                }
                trace = longer;
                sent = told;
            }
            if !progress {
                break;
            }
        }
        outbox
    }

    /// Does what follows from the verdict on a vertex received from
    /// `sender_id`. A vertex found valid is accepted, and the work loop runs
    /// to rest; but if the store holds its hash already, nothing is done, so
    /// that no vertex is stored twice. Any other vertex is buffered under
    /// its round if a parent of it is not stored yet and it is of the round
    /// before the current one or later; else it is discarded.
    pub fn receive_given(&mut self, sender_id: NodeId, vm: VertexMessage, valid: bool) -> (outbox: Vec<
        SparseMessage,
    >)
        requires
            old(self).wf(),
            valid ==> old(self).valid_given(vm.vertex@, vm.vertex@.round, sender_id, true),
        ensures
            final(self).wf(),
            old(self).evolves(final(self)),
            if valid {
                &&& old(self).welcomed(final(self), vm.vertex@, message_views(outbox@))
                &&& !old(self).holds(vm.vertex@) ==> final(self).dag.log().len() > old(
                    self,
                ).dag.log().len() && final(self).at_rest()
            } else {
                &&& old(self).turned_away(
                    final(self),
                    PendingView { from: sender_id, sender: vm.sender, vertex: vm.vertex@ },
                )
                &&& outbox@.len() == 0
            },
            final(self).rbc.echo_counts == old(self).rbc.echo_counts,
            final(self).rbc.ready_counts == old(self).rbc.ready_counts,
            final(self).rbc.delivered_vertices == old(self).rbc.delivered_vertices,
            final(self).sends_ok(message_views(outbox@)),
    {
        if valid {
            let ghost v = vm.vertex@;
            if self.is_held(&vm.vertex) {
                let outbox: Vec<SparseMessage> = Vec::new();
                proof {
                    self.lemma_evolves_self();
                    assert(message_views(outbox@) =~= Seq::<MessageView>::empty());
                }
                return outbox;
            }
            proof {
                self.lemma_valid_is_storable(v, v.round, sender_id);
            }
            self.accept_vertex(vm.vertex);
            let ghost stored = *self;
            let outbox = self.process_work_loop();
            proof {
                old(self).lemma_evolves_transitive(&stored, self);
                assert(old(self).accepted(&stored, v) && stored.ran(self, message_views(outbox@)));
                assert(extends(stored.dag, self.dag));
                assert(stored.dag.log().is_prefix_of(self.dag.log()));
            }
            outbox
        } else {
            let outbox: Vec<SparseMessage> = Vec::new();
            proof {
                self.lemma_evolves_self();
                assert(message_views(outbox@) =~= Seq::<MessageView>::empty());
            }
            if vm.vertex.round >= self.round - 1 && !parents_stored(&self.dag, &vm.vertex) {
                let round = vm.vertex.round;
                self.buffer_vertex(round, sender_id, vm);
            }
            outbox
        }
    }

    /// Receives a vertex from `sender_id`: validates it, and `receive_given`
    /// does what follows from the verdict.
    pub fn handle_new_vertex_message(&mut self, sender_id: NodeId, vm: VertexMessage) -> (outbox: Vec<
        SparseMessage,
    >)
        requires
            old(self).wf(),
        ensures
            final(self).wf(),
            old(self).evolves(final(self)),
            old(self).received(
                final(self),
                PendingView { from: sender_id, sender: vm.sender, vertex: vm.vertex@ },
                message_views(outbox@),
            ),
            final(self).rbc.echo_counts == old(self).rbc.echo_counts,
            final(self).rbc.ready_counts == old(self).rbc.ready_counts,
            final(self).rbc.delivered_vertices == old(self).rbc.delivered_vertices,
            final(self).sends_ok(message_views(outbox@)),
            final(self).dag.log().len() > old(self).dag.log().len() ==> final(self).at_rest(),
    {
        let valid = self.validate_vertex(&vm.vertex, vm.vertex.round, sender_id);
        let outbox = self.receive_given(sender_id, vm, valid);
        proof {
            if !valid {
                assert(message_views(outbox@) =~= Seq::<MessageView>::empty());
            }
        }
        outbox
    }

    /// Delivers the vertex whose body is held for `hash`: takes the body
    /// out, forgets the votes for the hash, marks it delivered, and hands the
    /// vertex to the round engine as one received from its source.
    pub fn deliver(&mut self, hash: &VertexHash) -> (outbox: Vec<SparseMessage>)
        requires
            old(self).wf(),
            old(self).rbc.body(hash@) is Some,
        ensures
            final(self).wf(),
            old(self).evolves(final(self)),
            final(self).sends_ok(message_views(outbox@)),
            exists|marked: Engine|
                old(self).marked_delivered(&marked, hash@) && marked.received(
                    final(self),
                    PendingView {
                        from: old(self).rbc.body(hash@).unwrap().source,
                        sender: old(self).rbc.body(hash@).unwrap().source,
                        vertex: old(self).rbc.body(hash@).unwrap(),
                    },
                    message_views(outbox@),
                ),
            forall|g: Seq<u8>| final(self).rbc.delivered(g) == (old(self).rbc.delivered(g) || g == hash@),
    {
        match self.rbc.take_body(hash) {
            Some(vertex) => {
                self.rbc.echo_counts.remove(hash);
                self.rbc.ready_counts.remove(hash);
                self.rbc.mark_delivered(copy_bytes(hash));
                let ghost marked = *self;
                proof {
                    old(self).lemma_rbc_change_evolves(self);
                    assert(old(self).marked_delivered(&marked, hash@));
                }
                let source = vertex.source;
                let outbox = self.handle_new_vertex_message(
                    source,
                    VertexMessage { sender: source, vertex },
                );
                proof {
                    old(self).lemma_evolves_transitive(&marked, self);
                }
                outbox
            },
            None => {
                // The body is held: this arm is never taken.
                assert(false);
                Vec::new()
            },
        }
    }

    /// Receives a READY of `sender` for `hash`. A READY for a delivered hash
    /// is ignored. Else the vote is recorded; with `f + 1` voters this node
    /// sends READY too, once, and is then a voter itself; with `2f + 1`
    /// voters, this node's own vote counted, the vertex is delivered if its
    /// body is held. A hash is delivered at most once.
    pub fn handle_rbc_ready(&mut self, sender: NodeId, hash: VertexHash) -> (outbox: Vec<SparseMessage>)
        requires
            old(self).wf(),
        ensures
            final(self).wf(),
            old(self).evolves(final(self)),
            old(self).ready_received(final(self), sender, hash@, message_views(outbox@)),
            old(self).mode is Dense ==> final(self).sends_ok(message_views(outbox@)),
            forall|g: Seq<u8>|
                final(self).rbc.delivered(g) == (old(self).rbc.delivered(g) || (g == hash@ && old(
                    self,
                ).delivers(sender, hash@))),
    {
        if self.rbc.is_delivered(&hash) {
            let outbox: Vec<SparseMessage> = Vec::new();
            proof {
                self.lemma_evolves_self();
                assert(message_views(outbox@) =~= Seq::<MessageView>::empty());
            }
            return outbox;
        }
        let ready_count = self.rbc.ready_counts.add_vote(&hash, sender);
        let n = self.environment.nodes.len();
        assert(self.f <= n / 3);
        let ghost counted = *self;
        proof {
            old(self).lemma_rbc_change_evolves(self);
        }
        let mut outbox: Vec<SparseMessage> = Vec::new();
        assert(message_views(outbox@) =~= Seq::<MessageView>::empty());
        if ready_count >= self.f + 1 {
            outbox = self.try_send_ready(copy_bytes(&hash));
            proof {
                old(self).lemma_evolves_transitive(&counted, self);
            }
        }
        let ghost voted = *self;
        let ghost first = message_views(outbox@);
        proof {
            assert(old(self).ready_voted(&voted, sender, hash@, first));
            assert(old(self).mode is Dense ==> voted.sends_ok(first));
        }
        let voters = self.rbc.ready_counts.count(&hash);
        let delivery_threshold = 2 * self.f + 1;
        if voters >= delivery_threshold && self.rbc.has_body(&hash) {
            let mut more = self.deliver(&hash);
            let ghost second = message_views(more@);
            outbox.append(&mut more);
            proof {
                old(self).lemma_evolves_transitive(&voted, self);
                assert(message_views(outbox@) =~= first + second);
                if old(self).mode is Dense {
                    voted.lemma_sends_kept(self, first);
                }
                let v = voted.rbc.body(hash@).unwrap();
                let marked = choose|marked: Engine|
                    voted.marked_delivered(&marked, hash@) && marked.received(
                        self,
                        PendingView { from: v.source, sender: v.source, vertex: v },
                        second,
                    );
                assert(voted.marked_delivered(&marked, hash@) && marked.received(
                    self,
                    PendingView { from: v.source, sender: v.source, vertex: v },
                    second,
                ) && message_views(outbox@) == first + second);
            }
        }
        outbox
    }

    /// Receives `message` from the peer `sender_id` and gives the messages
    /// to send in answer, in order.
    ///
    /// In dense mode a vertex is the body of a reliable broadcast, and ECHO
    /// and READY are its votes. In sparse mode a vertex goes to the round
    /// engine at once, and votes are dropped. A commit notice is dropped in
    /// both.
    pub fn handle_message(&mut self, sender_id: NodeId, message: SparseMessage) -> (outbox: Vec<
        SparseMessage,
    >)
        requires
            old(self).wf(),
        ensures
            final(self).wf(),
            old(self).evolves(final(self)),
            old(self).handled(final(self), sender_id, message@, message_views(outbox@)),
            final(self).sends_ok(message_views(outbox@)),
    {
        proof {
            self.lemma_evolves_self();
        }
        match self.mode {
            Mode::Dense => match message {
                SparseMessage::Vertex(vm) => {
                    let outbox = self.handle_rbc_val(sender_id, vm.vertex);
                    assert(self.sends_ok(message_views(outbox@)));
                    outbox
                },
                SparseMessage::RBC_Echo(echo) => {
                    let outbox = self.handle_rbc_echo(sender_id, echo.vertex_hash);
                    assert(self.sends_ok(message_views(outbox@)));
                    outbox
                },
                SparseMessage::RBC_Ready(ready) => self.handle_rbc_ready(sender_id, ready.vertex_hash),
                SparseMessage::Commit(_) => {
                    let outbox: Vec<SparseMessage> = Vec::new();
                    assert(message_views(outbox@) =~= Seq::<MessageView>::empty());
                    outbox
                },
            },
            Mode::Sparse { .. } => match message {
                SparseMessage::Vertex(vm) => self.handle_new_vertex_message(sender_id, vm),
                _ => {
                    let outbox: Vec<SparseMessage> = Vec::new();
                    assert(message_views(outbox@) =~= Seq::<MessageView>::empty());
                    outbox
                },
            },
        }
    }
}

} // verus!
