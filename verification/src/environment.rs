//! What a node is configured with.

use vstd::prelude::*;

verus! {

/// A node of the configured set.
#[derive(Debug)]
pub struct Node {
    pub id: u32,
    pub host: String,
    pub port: u16,
}

impl Node {
    /// A fresh copy of the node.
    pub fn duplicate(&self) -> (n: Node)
        ensures
            n == *self,
    {
        Node { id: self.id, host: self.host.clone(), port: self.port }
    }
}

impl Clone for Node {
    fn clone(&self) -> (n: Node)
        ensures
            n == *self,
    {
        self.duplicate()
    }
}

/// A node's configuration, fixed at start.
#[derive(Debug)]
pub struct Environment {
    /// This node.
    pub my_node: Node,
    /// All nodes, in a stable order.
    pub nodes: Vec<Node>,
    /// Set to skip the verification of frame signatures.
    pub test_flag: bool,
    /// The encoded size to bring a transaction to.
    pub transaction_size: usize,
    /// The number of transactions in a block.
    pub n_transactions: usize,
}

} // verus!
