//! The sparse node: every vertex links to a verifiable sample of the round
//! before.

use std::collections::HashMap;
use vstd::prelude::*;
use crate::engine::{Engine, Mode};
use crate::environment::Environment;
use crate::message::{message_views, SparseMessage};
use crate::multisig::PrivateKey;
use crate::vertex::{genesis_view, NodeId, Vertex};

verus! {

/// The number of parents that a sparse vertex samples.
pub const SAMPLE_SIZE: usize = 4;

/// A node in sparse mode.
pub struct SparseBullshark {
    pub engine: Engine,
}

impl SparseBullshark {
    /// A node in sparse mode at its start, sampling four parents.
    pub fn new(environment: Environment, public_keys: HashMap<NodeId, Vec<u8>>, private_key: PrivateKey) -> (node:
        SparseBullshark)
        requires
            environment.nodes@.len() > 0,
        ensures
            node.engine.wf(),
            node.engine.hashes_hold(),
            node.engine.mode == (Mode::Sparse { d: 4 }),
            node.engine.environment == environment,
            node.engine.public_keys == public_keys,
            node.engine.round == 1,
            node.engine.last_ordered_round == 0,
            node.engine.pending_vertices@.len() == 0,
            node.engine.already_ordered@.len() == 0,
            node.engine.dag.log() == seq![genesis_view()],
    {
        SparseBullshark {
            engine: Engine::new(environment, public_keys, private_key, Mode::Sparse { d: SAMPLE_SIZE }),
        }
    }

    /// Starts the protocol: drives the node to rest before any message has
    /// come, and gives the messages to send.
    pub fn start(&mut self) -> (outbox: Vec<SparseMessage>)
        requires
            old(self).engine.wf(),
        ensures
            final(self).engine.wf(),
            old(self).engine.evolves(&final(self).engine),
            old(self).engine.ran(&final(self).engine, message_views(outbox@)),
            final(self).engine.sends_ok(message_views(outbox@)),
            final(self).engine.at_rest(),
    {
        self.engine.process_work_loop()
    }

    /// Receives a message from a peer; see [`Engine::handle_message`].
    pub fn handle_message(&mut self, sender_id: NodeId, message: SparseMessage) -> (outbox: Vec<
        SparseMessage,
    >)
        requires
            old(self).engine.wf(),
        ensures
            final(self).engine.wf(),
            old(self).engine.evolves(&final(self).engine),
            old(self).engine.handled(
                &final(self).engine,
                sender_id,
                message@,
                message_views(outbox@),
            ),
            final(self).engine.sends_ok(message_views(outbox@)),
    {
        self.engine.handle_message(sender_id, message)
    }

    /// The anchor of round `r`; see [`Engine::get_anchor`].
    pub fn get_anchor(&self, r: u64) -> (found: Option<&Vertex>)
        requires
            self.engine.wf(),
        ensures
            match found {
                Some(a) => self.engine.anchor(r) == Some(a@),
                None => self.engine.anchor(r) is None,
            },
    {
        self.engine.get_anchor(r)
    }
}

} // verus!
