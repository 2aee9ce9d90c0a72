use std::collections::{HashMap, HashSet, VecDeque};

use ed25519_dalek::{PublicKey, SecretKey};
use sparse_bullshark::engine::{Engine, Mode};
use sparse_bullshark::environment::{Environment, Node};
use sparse_bullshark::message::{SparseMessage, VertexMessage};
use sparse_bullshark::multisig::PrivateKey;
use sparse_bullshark::vertex::Vertex;

fn keypair_bytes(i: u32) -> Vec<u8> {
    let secret = SecretKey::from_bytes(&[i as u8 + 1; 32]).unwrap();
    let public: PublicKey = (&secret).into();
    let mut bytes = secret.to_bytes().to_vec();
    bytes.extend_from_slice(public.as_bytes());
    bytes
}

fn engine(my_id: u32, n: u32, mode: Mode) -> Engine {
    let node = |id: u32| Node { id, host: "127.0.0.1".to_string(), port: 9000 + id as u16 };
    let environment = Environment {
        my_node: node(my_id),
        nodes: (0..n).map(node).collect(),
        test_flag: false,
        transaction_size: 12,
        n_transactions: 1,
    };
    let keys: HashMap<u32, Vec<u8>> = (0..n).map(|i| (i, keypair_bytes(i)[32..].to_vec())).collect();
    Engine::new(environment, keys, PrivateKey::from_bytes(keypair_bytes(my_id)).unwrap(), mode)
}

/// Four nodes and the messages in flight between them. The messages of an
/// earlier round go first, among those of a round the ones about the
/// leader's vertex, and the rest in the order they were sent.
struct Net {
    nodes: Vec<Engine>,
    /// A node that is not up neither sends nor receives.
    up: Vec<bool>,
    /// Whether a broadcast reaches its sender too.
    loopback: bool,
    /// Vertices above this round are not sent: the run ends there.
    last_round: u64,
    /// Messages from the second node to the first are held back while others
    /// are in flight.
    hold: Option<(usize, u32)>,
    queue: Vec<(u64, bool, u64, usize, u32, SparseMessage)>,
    /// Round and source of each vertex that was sent, by hash.
    sent: HashMap<Vec<u8>, (u64, u32)>,
    count: u64,
    /// The most vertices that any node had buffered at a time.
    most_buffered: usize,
}

impl Net {
    fn new(mode: Mode, up: [bool; 4], loopback: bool, last_round: u64) -> Net {
        Net {
            nodes: (0..4).map(|i| engine(i, 4, mode)).collect(),
            up: up.to_vec(),
            loopback,
            last_round,
            hold: None,
            queue: Vec::new(),
            sent: HashMap::new(),
            count: 0,
            most_buffered: 0,
        }
    }

    fn send(&mut self, from: usize, outbox: Vec<SparseMessage>) {
        for message in outbox {
            let hash = match &message {
                SparseMessage::Vertex(m) => {
                    if m.vertex.round > self.last_round {
                        continue;
                    }
                    self.sent.insert(m.vertex.hash.clone(), (m.vertex.round, m.vertex.source));
                    m.vertex.hash.clone()
                }
                SparseMessage::RBC_Echo(m) => m.vertex_hash.clone(),
                SparseMessage::RBC_Ready(m) => m.vertex_hash.clone(),
                SparseMessage::Commit(_) => continue,
            };
            // Votes on a vertex that was not sent are not sent either.
            let (round, source) = match self.sent.get(&hash) {
                Some(entry) => *entry,
                None => continue,
            };
            let leads = round % 2 == 0 && source as u64 == (round / 2) % 4;
            for to in 0..self.nodes.len() {
                if self.up[to] && (to != from || self.loopback) {
                    self.count += 1;
                    self.queue.push((round, !leads, self.count, to, from as u32, message.duplicate()));
                }
            }
        }
    }

    fn start(&mut self) {
        for i in 0..self.nodes.len() {
            if self.up[i] {
                let outbox = self.nodes[i].process_work_loop();
                self.send(i, outbox);
            }
        }
    }

    /// The place in the queue of the message to deliver next.
    fn next(&self) -> Option<usize> {
        let held = |e: &(u64, bool, u64, usize, u32, SparseMessage)| self.hold == Some((e.3, e.4));
        let pick = |with_held: bool| {
            (0..self.queue.len())
                .filter(|&i| with_held || !held(&self.queue[i]))
                .min_by_key(|&i| (self.queue[i].0, self.queue[i].1, self.queue[i].2))
        };
        pick(false).or_else(|| pick(true))
    }

    fn run(&mut self) {
        let mut steps = 0;
        while let Some(at) = self.next() {
            let (_, _, _, to, from, message) = self.queue.remove(at);
            let outbox = self.nodes[to].handle_message(from, message);
            let buffered = self.nodes[to].pending_vertices.values().map(|list| list.len()).sum();
            self.most_buffered = self.most_buffered.max(buffered);
            self.send(to, outbox);
            steps += 1;
            assert!(steps < 200_000, "the run does not come to rest");
        }
    }
}

/// The hashes of the causal past of `start` in the store of `node`, the
/// vertex itself among them, sorted.
fn causal_past(node: &Engine, start: &Vertex) -> Vec<Vec<u8>> {
    let mut seen: HashSet<Vec<u8>> = HashSet::new();
    let mut stack = vec![start.duplicate()];
    seen.insert(start.hash.clone());
    while let Some(v) = stack.pop() {
        for e in &v.edges {
            if !seen.contains(e) {
                if let Some(parent) = node.dag.get_by_hash(e) {
                    seen.insert(e.clone());
                    stack.push(parent.duplicate());
                }
            }
        }
    }
    let mut sorted: Vec<Vec<u8>> = seen.into_iter().collect();
    sorted.sort();
    sorted
}

fn assert_no_duplicates(list: &[Vec<u8>]) {
    let distinct: HashSet<&Vec<u8>> = list.iter().collect();
    assert_eq!(distinct.len(), list.len());
}

fn assert_store_is_sound(node: &Engine) {
    for v in &node.dag.vertices {
        if v.round == 0 {
            continue;
        }
        // Every stored vertex carries its content hash and has its parents
        // in the round before.
        assert!(v.hash_is_valid());
        let parents = node.dag.get_round(v.round - 1).unwrap();
        for e in &v.edges {
            assert!(parents.iter().any(|p| &p.hash == e));
        }
        if let Mode::Sparse { d } = node.mode {
            assert!(v.edges.len() <= d + 2);
        }
    }
    // No vertex is stored twice: a round counts each of its vertices once.
    let mut seen = HashSet::new();
    for v in &node.dag.vertices {
        assert!(seen.insert(v.hash.clone()));
    }
    let in_rounds: usize = node.dag.rounds.values().map(|list| list.len()).sum();
    assert_eq!(in_rounds, node.dag.vertices.len());
    // Every finalized hash is stored, and so are its parents, finalized too.
    for h in &node.already_ordered {
        let v = node.dag.get_by_hash(h).unwrap();
        for e in &v.edges {
            assert!(node.already_ordered.contains(e));
        }
    }
    // What waits in the buffer waits under its round.
    for (round, list) in &node.pending_vertices {
        assert!(!list.is_empty());
        assert!(list.iter().all(|p| p.1.vertex.round == *round));
    }
}

fn check_happy_path(mode: Mode) {
    let mut net = Net::new(mode, [true; 4], false, 4);
    net.start();
    net.run();
    let anchor = net.nodes[0].get_anchor(2).unwrap().duplicate();
    assert_eq!(anchor.source, 1);
    let past = causal_past(&net.nodes[0], &anchor);
    assert!(past.len() >= 4);
    assert!(past.contains(&vec![0u8; 32]));
    assert!(past.contains(&anchor.hash));
    for node in &net.nodes {
        assert!(node.round >= 5);
        assert_store_is_sound(node);
        assert_eq!(node.get_anchor(2).unwrap().hash, anchor.hash);
        assert_eq!(causal_past(node, &anchor), past);
        assert!(node.finalized_block_count >= past.len());
        assert_eq!(node.finalized_block_count, node.already_ordered.len());
        assert_no_duplicates(&node.already_ordered);
        assert_eq!(node.last_ordered_round, 2);
        // The first batch is the causal past of the anchor of round 2,
        // sorted by hash, and it is the same on every node.
        assert_eq!(node.already_ordered, past);
        assert!(node.ordered_anchors_stack.is_empty());
    }
}

#[test]
fn happy_path_in_sparse_mode() {
    check_happy_path(Mode::Sparse { d: 4 });
}

#[test]
fn happy_path_in_dense_mode() {
    check_happy_path(Mode::Dense);
}

#[test]
fn nodes_agree_on_the_order_over_many_rounds() {
    for mode in [Mode::Sparse { d: 4 }, Mode::Sparse { d: 2 }, Mode::Dense] {
        let mut net = Net::new(mode, [true; 4], false, 9);
        net.start();
        net.run();
        let shortest = net.nodes.iter().map(|n| n.already_ordered.len()).min().unwrap();
        assert!(shortest > 10);
        for node in &net.nodes {
            assert_store_is_sound(node);
            assert_no_duplicates(&node.already_ordered);
            assert!(node.last_ordered_round >= 6);
            assert_eq!(node.already_ordered[..shortest], net.nodes[0].already_ordered[..shortest]);
            // Only stored vertices are finalized.
            for h in &node.already_ordered {
                assert!(node.dag.get_by_hash(h).is_some());
            }
        }
    }
}

#[test]
fn one_silent_node() {
    let mut net = Net::new(Mode::Sparse { d: 4 }, [true, true, true, false], false, 10);
    net.start();
    net.run();
    for i in 0..3 {
        let node = &net.nodes[i];
        assert_store_is_sound(node);
        // Three nodes are a quorum: the protocol advances.
        assert!(node.round >= 11);
        for round in 1..=10u64 {
            let stored = node.dag.get_round(round).unwrap();
            assert_eq!(stored.len(), 3);
            assert!(stored.iter().all(|v| v.source != 3));
        }
        // The anchors of the rounds led by node 3 do not exist and are
        // skipped; those around them are committed.
        assert!(node.get_anchor(6).is_none());
        assert_eq!(node.get_anchor(4).unwrap().source, 2);
        assert_eq!(node.get_anchor(8).unwrap().source, 0);
        assert_eq!(node.last_ordered_round, 8);
        assert!(node.already_ordered.contains(&node.get_anchor(2).unwrap().hash));
        assert!(node.already_ordered.contains(&node.get_anchor(4).unwrap().hash));
        assert!(node.already_ordered.contains(&node.get_anchor(8).unwrap().hash));
        assert_no_duplicates(&node.already_ordered);
        // No vertex of node 3 is finalized.
        for h in &node.already_ordered {
            let v = node.dag.get_by_hash(h).unwrap();
            assert!(v.round == 0 || v.source != 3);
        }
        assert_eq!(node.already_ordered, net.nodes[0].already_ordered);
    }
    assert_eq!(net.nodes[3].round, 1);
}

#[test]
fn reordered_arrival() {
    // Node B gets the round-3 vertex of C before the round-2 vertices that it
    // links to. Vertices go to the round engine directly.
    let take = |out: Vec<SparseMessage>| -> Vertex {
        match &out[0] {
            SparseMessage::Vertex(m) => m.vertex.duplicate(),
            _ => panic!("a vertex goes out first"),
        }
    };
    let message = |v: &Vertex| VertexMessage { sender: v.source, vertex: v.duplicate() };
    let mut a = engine(0, 4, Mode::Dense);
    let mut b = engine(1, 4, Mode::Dense);
    let mut c = engine(2, 4, Mode::Dense);
    let mut d = engine(3, 4, Mode::Dense);
    let a1 = take(a.process_work_loop());
    let b1 = take(b.process_work_loop());
    let c1 = take(c.process_work_loop());
    let d1 = take(d.process_work_loop());
    // A, C and D hear of each other and make their round-2 vertices.
    assert!(c.handle_new_vertex_message(3, message(&d1)).is_empty());
    let c2 = take(c.handle_new_vertex_message(0, message(&a1)));
    assert!(d.handle_new_vertex_message(2, message(&c1)).is_empty());
    let d2 = take(d.handle_new_vertex_message(0, message(&a1)));
    assert!(a.handle_new_vertex_message(2, message(&c1)).is_empty());
    let a2 = take(a.handle_new_vertex_message(3, message(&d1)));
    assert_eq!((a2.round, c2.round, d2.round), (2, 2, 2));
    // C makes its round-3 vertex on d2 and a2.
    assert!(c.handle_new_vertex_message(3, message(&d2)).is_empty());
    let c3 = take(c.handle_new_vertex_message(0, message(&a2)));
    assert_eq!(c3.round, 3);
    assert_eq!(c3.edges, vec![c2.hash.clone(), d2.hash.clone(), a2.hash.clone()]);

    // B has round 1 in full and stands in round 3.
    assert!(b.handle_new_vertex_message(0, message(&a1)).is_empty());
    let b2 = take(b.handle_new_vertex_message(2, message(&c1)));
    assert!(b.handle_new_vertex_message(3, message(&d1)).is_empty());
    assert_eq!(b2.round, 2);
    assert_eq!(b.round, 3);
    // The round-3 vertex of C comes first: its parents are missing.
    assert!(b.handle_new_vertex_message(2, message(&c3)).is_empty());
    assert_eq!(b.pending_vertices.len(), 1);
    assert_eq!(b.pending_vertices[&3].len(), 1);
    assert_eq!(b.pending_vertices[&3][0].0, 2);
    assert_eq!(b.pending_vertices[&3][0].1.vertex.hash, c3.hash);
    assert!(b.dag.get_round(3).is_none());
    // One parent arrives: still buffered.
    assert!(b.handle_new_vertex_message(2, message(&c2)).is_empty());
    assert_eq!(b.pending_vertices[&3].len(), 1);
    // With the second, round 2 holds a quorum: B advances, but the vertex
    // lacks a parent still.
    let b3 = take(b.handle_new_vertex_message(3, message(&d2)));
    assert_eq!(b3.round, 3);
    assert_eq!(b.round, 4);
    assert_eq!(b.pending_vertices[&3].len(), 1);
    assert!(b.dag.get_by_hash(&c3.hash).is_none());
    // The last parent arrives: in the same run of the work loop the
    // buffered vertex is found valid and stored.
    assert!(b.handle_new_vertex_message(0, message(&a2)).is_empty());
    assert!(b.pending_vertices.is_empty());
    assert!(b.dag.get_by_hash(&c3.hash).is_some());
    assert_eq!(b.dag.get_round(3).unwrap().len(), 2);
    assert_eq!(b.round, 4);

    // A receives the same vertices in order and buffers nothing.
    a.handle_new_vertex_message(1, message(&b1));
    a.handle_new_vertex_message(2, message(&c2));
    a.handle_new_vertex_message(3, message(&d2));
    assert!(a.dag.get_round(3).is_some());
    a.handle_new_vertex_message(2, message(&c3));
    assert!(a.pending_vertices.is_empty());
    assert!(a.dag.get_by_hash(&c3.hash).is_some());
    assert_eq!(a.already_ordered, b.already_ordered);
}

#[test]
fn a_vertex_too_old_to_wait_for_is_dropped() {
    let mut node = engine(0, 4, Mode::Dense);
    node.process_work_loop();
    let make = |round: u64, source: u32, edges: Vec<Vec<u8>>| {
        let mut v = Vertex {
            hash: vec![],
            round,
            source,
            block: vec![],
            edges,
            signed_round: vec![],
            sample_proof: vec![],
        };
        v.hash = v.calculate_hash();
        v
    };
    for s in [1u32, 2] {
        let v = make(1, s, vec![vec![0u8; 32]]);
        node.handle_new_vertex_message(s, VertexMessage { sender: s, vertex: v });
    }
    let r1: Vec<Vec<u8>> = node.dag.get_round(1).unwrap().iter().map(|v| v.hash.clone()).collect();
    for s in [1u32, 2] {
        node.handle_new_vertex_message(s, VertexMessage { sender: s, vertex: make(2, s, r1.clone()) });
    }
    assert_eq!(node.round, 4);
    let unknown = vec![vec![9u8; 32]];
    // Round 3 is the round before the current one: its vertex is buffered.
    node.handle_new_vertex_message(1, VertexMessage { sender: 1, vertex: make(3, 1, unknown.clone()) });
    assert_eq!(node.pending_vertices.len(), 1);
    assert_eq!(node.pending_vertices[&3].len(), 1);
    // Round 2 is older: its vertex is dropped.
    node.handle_new_vertex_message(1, VertexMessage { sender: 1, vertex: make(2, 1, unknown.clone()) });
    assert_eq!(node.pending_vertices.len(), 1);
    assert_eq!(node.pending_vertices[&3].len(), 1);
    // A vertex of a round far ahead is buffered too, under its round.
    node.handle_new_vertex_message(1, VertexMessage { sender: 1, vertex: make(40, 1, unknown) });
    assert_eq!(node.pending_vertices.len(), 2);
    assert_eq!(node.pending_vertices[&40].len(), 1);
    assert_eq!(node.pending_vertices[&40][0].1.vertex.round, 40);
}

#[test]
fn reordered_arrival_gives_the_same_order() {
    // What node 2 sends to node 1 is held back while anything else is in
    // flight: node 1 sees the later rounds of the others first.
    let mut net = Net::new(Mode::Sparse { d: 4 }, [true; 4], false, 8);
    net.hold = Some((1, 2));
    net.start();
    net.run();
    assert!(net.most_buffered > 0);
    let a = &net.nodes[0];
    let b = &net.nodes[1];
    assert!(b.pending_vertices.iter().all(|(round, list)| *round > 8 && list.iter().all(|p| p.1.vertex.round == *round)));
    assert_store_is_sound(b);
    assert_no_duplicates(&b.already_ordered);
    assert!(!b.already_ordered.is_empty());
    let common = a.already_ordered.len().min(b.already_ordered.len());
    assert!(common > 0);
    assert_eq!(a.already_ordered[..common], b.already_ordered[..common]);
}

#[test]
fn reliable_broadcast_delivers_with_one_node_crashed() {
    // Node 3 is down. A broadcast reaches its sender too, so that a node
    // counts its own ECHO.
    let mut net = Net::new(Mode::Dense, [true, true, true, false], true, 1);
    net.start();
    net.run();
    for i in 0..3 {
        let node = &net.nodes[i];
        // Every vertex of round 1 of a node that is up is delivered, once.
        assert_eq!(node.rbc.delivered_vertices.len(), 3);
        assert_no_duplicates(&node.rbc.delivered_vertices);
        for j in 0..3 {
            let theirs = &net.nodes[j].dag.get_round(1).unwrap()[0];
            assert_eq!(theirs.source, j as u32);
            assert!(node.rbc.is_delivered(&theirs.hash));
            assert!(node.dag.get_by_hash(&theirs.hash).is_some());
            // Delivery purges the votes and the body.
            assert_eq!(node.rbc.echo_counts.count(&theirs.hash), 0);
            assert!(!node.rbc.has_body(&theirs.hash));
        }
        assert!(node.round >= 3);
    }
}

#[test]
fn reliable_broadcast_amplifies_ready() {
    // Node 0 has missed every ECHO; two READYs of others make it send READY,
    // and with its own vote as the third the vertex is delivered.
    let mut author = engine(1, 4, Mode::Dense);
    let v = match &author.process_work_loop()[0] {
        SparseMessage::Vertex(m) => m.vertex.duplicate(),
        _ => panic!("a vertex goes out first"),
    };
    let mut node = engine(0, 4, Mode::Dense);
    node.process_work_loop();
    node.handle_rbc_val(1, v.duplicate());
    assert!(node.handle_rbc_ready(1, v.hash.clone()).is_empty());
    let out = node.handle_rbc_ready(2, v.hash.clone());
    assert_eq!(out.len(), 1);
    assert!(matches!(&out[0], SparseMessage::RBC_Ready(r) if r.vertex_hash == v.hash));
    assert!(node.rbc.is_delivered(&v.hash));
    assert_eq!(node.dag.get_by_hash(&v.hash).unwrap().source, 1);
    assert_eq!(node.dag.get_round(1).unwrap().len(), 2);
    assert!(node.handle_rbc_ready(3, v.hash.clone()).is_empty());
    assert_eq!(node.dag.get_round(1).unwrap().len(), 2);
}

#[test]
fn without_its_own_echo_a_node_with_one_peer_down_does_not_deliver() {
    // As the transport hands a node the messages of its peers alone, two
    // ECHOs are all that arrive with one node down: below 2f + 1 = 3.
    let mut net = Net::new(Mode::Dense, [true, true, true, false], false, 1);
    net.start();
    net.run();
    for i in 0..3 {
        assert!(net.nodes[i].rbc.delivered_vertices.is_empty());
        assert_eq!(net.nodes[i].round, 2);
    }
}
