//! The messages that nodes exchange.

use vstd::prelude::*;
use crate::bytes::copy_bytes;
use crate::dag::vertex_views;
use crate::random::copy_vertices;
use crate::vertex::{NodeId, Vertex, VertexHash, VertexView};

verus! {

/// Carries a vertex from one node to the others.
#[derive(Debug)]
pub struct VertexMessage {
    pub sender: NodeId,
    pub vertex: Vertex,
}

/// Tells that vertices were finalized.
#[derive(Clone, Debug)]
pub struct CommitMessage {
    pub round: u64,
    pub committed_vertices: Vec<Vertex>,
}

/// A reliable-broadcast ECHO vote for a vertex hash.
#[derive(Clone, Debug)]
pub struct EchoMessage {
    pub vertex_hash: VertexHash,
}

/// A reliable-broadcast READY vote for a vertex hash.
#[derive(Clone, Debug)]
pub struct ReadyMessage {
    pub vertex_hash: VertexHash,
}

/// Any message of the protocol.
#[allow(non_camel_case_types)]
#[derive(Debug)]
pub enum SparseMessage {
    Vertex(VertexMessage),
    RBC_Echo(EchoMessage),
    RBC_Ready(ReadyMessage),
    Commit(CommitMessage),
}

/// What a message holds.
pub ghost enum MessageView {
    Vertex { sender: u32, vertex: VertexView },
    Echo { vertex_hash: Seq<u8> },
    Ready { vertex_hash: Seq<u8> },
    Commit { round: u64, committed_vertices: Seq<VertexView> },
}

impl View for SparseMessage {
    type V = MessageView;

    open spec fn view(&self) -> MessageView {
        match self {
            SparseMessage::Vertex(m) => MessageView::Vertex { sender: m.sender, vertex: m.vertex@ },
            SparseMessage::RBC_Echo(m) => MessageView::Echo { vertex_hash: m.vertex_hash@ },
            SparseMessage::RBC_Ready(m) => MessageView::Ready { vertex_hash: m.vertex_hash@ },
            SparseMessage::Commit(m) => MessageView::Commit {
                round: m.round,
                committed_vertices: vertex_views(m.committed_vertices@),
            },
        }
    }
}

/// What a list of messages holds.
pub open spec fn message_views(list: Seq<SparseMessage>) -> Seq<MessageView> {
    Seq::new(list.len(), |i: int| list[i]@)
}

impl VertexMessage {
    /// A fresh copy of the message.
    pub fn duplicate(&self) -> (m: VertexMessage)
        ensures
            m.sender == self.sender,
            m.vertex@ == self.vertex@,
    {
        VertexMessage { sender: self.sender, vertex: self.vertex.duplicate() }
    }
}

impl SparseMessage {
    /// A fresh copy of the message.
    pub fn duplicate(&self) -> (m: SparseMessage)
        ensures
            m@ == self@,
    {
        match self {
            SparseMessage::Vertex(m) => SparseMessage::Vertex(m.duplicate()),
            SparseMessage::RBC_Echo(m) => SparseMessage::RBC_Echo(
                EchoMessage { vertex_hash: copy_bytes(&m.vertex_hash) },
            ),
            SparseMessage::RBC_Ready(m) => SparseMessage::RBC_Ready(
                ReadyMessage { vertex_hash: copy_bytes(&m.vertex_hash) },
            ),
            SparseMessage::Commit(m) => SparseMessage::Commit(
                CommitMessage {
                    round: m.round,
                    committed_vertices: copy_vertices(m.committed_vertices.as_slice()),
                },
            ),
        }
    }
}

impl Clone for VertexMessage {
    fn clone(&self) -> (m: VertexMessage)
        ensures
            m.sender == self.sender,
            m.vertex@ == self.vertex@,
    {
        self.duplicate()
    }
}

impl Clone for SparseMessage {
    fn clone(&self) -> (m: SparseMessage)
        ensures
            m@ == self@,
    {
        self.duplicate()
    }
}

} // verus!
