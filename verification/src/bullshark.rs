//! The dense node: every vertex links to all of the round before and goes
//! through reliable broadcast.

use std::collections::HashMap;
use vstd::prelude::*;
use crate::commit::history_of;
use crate::dag::vertex_views;
use crate::engine::{Engine, Mode};
use crate::environment::Environment;
use crate::message::{message_views, SparseMessage};
use crate::multisig::PrivateKey;
use crate::rules::lemma_extends_self;
use crate::vertex::{genesis_view, NodeId, Vertex};

verus! {

/// A node in dense mode.
pub struct Bullshark {
    pub engine: Engine,
}

impl Bullshark {
    /// A node in dense mode at its start.
    pub fn new(environment: Environment, public_keys: HashMap<NodeId, Vec<u8>>, private_key: PrivateKey) -> (node:
        Bullshark)
        requires
            environment.nodes@.len() > 0,
        ensures
            node.engine.wf(),
            node.engine.hashes_hold(),
            node.engine.mode is Dense,
            node.engine.environment == environment,
            node.engine.public_keys == public_keys,
            node.engine.round == 1,
            node.engine.last_ordered_round == 0,
            node.engine.pending_vertices@.len() == 0,
            node.engine.already_ordered@.len() == 0,
            node.engine.dag.log() == seq![genesis_view()],
            forall|h: Seq<u8>| !node.engine.rbc.delivered(h),
    {
        Bullshark { engine: Engine::new(environment, public_keys, private_key, Mode::Dense) }
    }

    /// Starts the protocol: drives the node to rest before any message has
    /// come, and gives the messages to send.
    pub fn start(&mut self) -> (outbox: Vec<SparseMessage>)
        requires
            old(self).engine.wf(),
        ensures
            final(self).engine.wf(),
            old(self).engine.evolves(&final(self).engine),
            old(self).engine.ran(&final(self).engine, message_views(outbox@)),
            final(self).engine.sends_ok(message_views(outbox@)),
            final(self).engine.at_rest(),
    {
        self.engine.process_work_loop()
    }

    /// Receives a message from a peer; see [`Engine::handle_message`].
    pub fn handle_message(&mut self, sender_id: NodeId, message: SparseMessage) -> (outbox: Vec<
        SparseMessage,
    >)
        requires
            old(self).engine.wf(),
        ensures
            final(self).engine.wf(),
            old(self).engine.evolves(&final(self).engine),
            old(self).engine.handled(
                &final(self).engine,
                sender_id,
                message@,
                message_views(outbox@),
            ),
            final(self).engine.sends_ok(message_views(outbox@)),
    {
        self.engine.handle_message(sender_id, message)
    }

    /// The anchor of round `r`; see [`Engine::get_anchor`].
    pub fn get_anchor(&self, r: u64) -> (found: Option<&Vertex>)
        requires
            self.engine.wf(),
        ensures
            match found {
                Some(a) => self.engine.anchor(r) == Some(a@),
                None => self.engine.anchor(r) is None,
            },
    {
        self.engine.get_anchor(r)
    }

    /// Applies the commit rule; see [`Engine::try_committing`].
    pub fn try_committing(&mut self, committed_vertex: Vertex)
        requires
            old(self).engine.wf(),
        ensures
            final(self).engine.wf(),
            match old(self).engine.direct_commit(committed_vertex@.round) {
                Some(anchor) => old(self).engine.committed(&final(self).engine, anchor),
                None => final(self).engine == old(self).engine,
            },
    {
        self.engine.try_committing(committed_vertex)
    }

    /// Commits an anchor; see [`Engine::order_anchors`].
    pub fn order_anchors(&mut self, anchor: Vertex)
        requires
            old(self).engine.wf(),
        ensures
            final(self).engine.wf(),
            old(self).engine.committed(&final(self).engine, anchor@),
    {
        self.engine.order_anchors(anchor)
    }

    /// Orders the stack of committed anchors; see
    /// [`Engine::order_history`].
    pub fn order_history(&mut self)
        requires
            old(self).engine.wf(),
        ensures
            final(self).engine.wf(),
            old(self).engine.evolves(&final(self).engine),
            final(self).engine.dag == old(self).engine.dag,
            final(self).engine.ordered_anchors_stack@.len() == 0,
            final(self).engine.ordered() == old(self).engine.ordered() + history_of(
                old(self).engine.dag.log(),
                old(self).engine.ordered(),
                vertex_views(old(self).engine.ordered_anchors_stack@),
            ),
    {
        self.engine.order_history();
        proof {
            lemma_extends_self(self.engine.dag);
            assert(old(self).engine.ordered().is_prefix_of(self.engine.ordered()));
        }
    }
}

} // verus!
