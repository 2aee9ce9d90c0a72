use std::collections::HashMap;

use ed25519_dalek::{PublicKey, SecretKey};
use sparse_bullshark::bullshark::Bullshark;
use sparse_bullshark::engine::{Engine, Mode};
use sparse_bullshark::environment::{Environment, Node};
use sparse_bullshark::multisig::PrivateKey;
use sparse_bullshark::sparse_bullshark::SparseBullshark;
use sparse_bullshark::vertex::Vertex;

fn keypair_bytes(i: u32) -> Vec<u8> {
    let secret = SecretKey::from_bytes(&[i as u8 + 1; 32]).unwrap();
    let public: PublicKey = (&secret).into();
    let mut bytes = secret.to_bytes().to_vec();
    bytes.extend_from_slice(public.as_bytes());
    bytes
}

fn environment(my_id: u32, n: u32) -> Environment {
    let node = |id: u32| Node { id, host: "127.0.0.1".to_string(), port: 9000 + id as u16 };
    Environment {
        my_node: node(my_id),
        nodes: (0..n).map(node).collect(),
        test_flag: false,
        transaction_size: 12,
        n_transactions: 1,
    }
}

fn public_keys(n: u32) -> HashMap<u32, Vec<u8>> {
    (0..n).map(|i| (i, keypair_bytes(i)[32..].to_vec())).collect()
}

fn dense() -> Engine {
    Engine::new(environment(0, 4), public_keys(4), PrivateKey::from_bytes(keypair_bytes(0)).unwrap(), Mode::Dense)
}

fn vertex(round: u64, source: u32, edges: Vec<Vec<u8>>) -> Vertex {
    let mut v = Vertex {
        hash: vec![],
        round,
        source,
        block: vec![],
        edges,
        signed_round: vec![],
        sample_proof: vec![],
    };
    v.hash = v.calculate_hash();
    v
}

fn hashes(list: &[Vertex]) -> Vec<Vec<u8>> {
    list.iter().map(|v| v.hash.clone()).collect()
}

fn sorted(mut list: Vec<Vec<u8>>) -> Vec<Vec<u8>> {
    list.sort();
    list
}

/// Stores one vertex of each source in `round`, each with `edges`, without
/// applying the commit rule.
fn store_round(node: &mut Engine, round: u64, sources: &[u32], edges: &[Vec<u8>]) -> Vec<Vertex> {
    let mut made = Vec::new();
    for &s in sources {
        let v = vertex(round, s, edges.to_vec());
        node.store_vertex(v.duplicate());
        made.push(v);
    }
    made
}

/// Rounds 1 and 2 in full, each vertex linking to all of the round before.
/// The anchor of round 2 is the vertex of node 1.
fn two_rounds(node: &mut Engine) -> (Vec<Vertex>, Vec<Vertex>) {
    let r1 = store_round(node, 1, &[0, 1, 2, 3], &[vec![0u8; 32]]);
    let r2 = store_round(node, 2, &[0, 1, 2, 3], &hashes(&r1));
    (r1, r2)
}

#[test]
fn an_anchor_is_committed_with_f_plus_one_votes() {
    let mut node = dense();
    let (r1, r2) = two_rounds(&mut node);
    let anchor = r2[1].duplicate();
    let others = vec![r2[0].hash.clone(), r2[2].hash.clone(), r2[3].hash.clone()];
    // One vote for the anchor in round 3: below f + 1 = 2.
    store_round(&mut node, 3, &[0, 2, 3], &others);
    let voter = vertex(3, 1, hashes(&r2));
    node.store_vertex(voter.duplicate());
    let r3 = hashes(node.dag.get_round(3).unwrap());
    let v4 = vertex(4, 0, r3.clone());
    node.store_vertex(v4.duplicate());
    node.try_committing(v4.duplicate());
    assert_eq!(node.last_ordered_round, 0);
    assert!(node.already_ordered.is_empty());
    assert_eq!(node.finalized_block_count, 0);
    // A second vote: the anchor is committed.
    let second = vertex(3, 2, vec![anchor.hash.clone()]);
    node.store_vertex(second);
    node.try_committing(v4);
    assert_eq!(node.last_ordered_round, 2);
    let mut past = hashes(&r1);
    past.push(anchor.hash.clone());
    past.push(vec![0u8; 32]);
    assert_eq!(node.already_ordered, sorted(past));
    assert_eq!(node.finalized_block_count, 6);
    assert!(node.ordered_anchors_stack.is_empty());
}

#[test]
fn nothing_is_committed_without_an_anchor_above_the_last_ordered_round() {
    let mut node = dense();
    let (_, r2) = two_rounds(&mut node);
    let r3 = store_round(&mut node, 3, &[0, 1, 2, 3], &hashes(&r2));
    // A vertex below round 2 looks at no anchor.
    node.try_committing(vertex(1, 0, vec![vec![0u8; 32]]));
    node.try_committing(vertex(0, 0, vec![]));
    assert!(node.already_ordered.is_empty());
    // A vertex of round 2 looks at the anchor of round 0, genesis, which is
    // not above the last ordered round.
    node.try_committing(r2[0].duplicate());
    assert!(node.already_ordered.is_empty());
    // A vertex of round 3 looks at round 1, which has no anchor.
    node.try_committing(r3[0].duplicate());
    assert!(node.already_ordered.is_empty());
    // A vertex of round 6 looks at round 4, which is not stored.
    node.try_committing(vertex(6, 0, vec![]));
    assert!(node.already_ordered.is_empty());
    assert_eq!(node.last_ordered_round, 0);
    // The anchor of round 2 is committed once, and not again.
    let v4 = vertex(4, 0, hashes(&r3));
    node.try_committing(v4.duplicate());
    assert_eq!(node.last_ordered_round, 2);
    let ordered = node.already_ordered.clone();
    assert_eq!(ordered.len(), 6);
    node.try_committing(v4);
    node.try_committing(vertex(4, 3, hashes(&r3)));
    assert_eq!(node.already_ordered, ordered);
    assert_eq!(node.finalized_block_count, 6);
}

#[test]
fn the_leaders_absence_commits_nothing() {
    let mut node = dense();
    let r1 = store_round(&mut node, 1, &[0, 1, 2, 3], &[vec![0u8; 32]]);
    // Node 1, the leader of round 2, has no vertex there.
    let r2 = store_round(&mut node, 2, &[0, 2, 3], &hashes(&r1));
    let r3 = store_round(&mut node, 3, &[0, 1, 2, 3], &hashes(&r2));
    node.try_committing(vertex(4, 0, hashes(&r3)));
    assert!(node.already_ordered.is_empty());
    assert_eq!(node.last_ordered_round, 0);
}

#[test]
fn a_later_commit_orders_what_is_new_in_its_past() {
    let mut node = dense();
    let (_, r2) = two_rounds(&mut node);
    let r3 = store_round(&mut node, 3, &[0, 1, 2, 3], &hashes(&r2));
    let r4 = store_round(&mut node, 4, &[0, 1, 2, 3], &hashes(&r3));
    node.try_committing(r4[0].duplicate());
    let first = node.already_ordered.clone();
    assert_eq!(first.len(), 6);
    let r5 = store_round(&mut node, 5, &[0, 1, 2, 3], &hashes(&r4));
    let v6 = vertex(6, 0, hashes(&r5));
    node.store_vertex(v6.duplicate());
    node.try_committing(v6);
    // The anchor of round 4 is the vertex of node 2. Its batch: itself, round
    // 3 and the three vertices of round 2 that were not ordered.
    assert_eq!(node.last_ordered_round, 4);
    assert_eq!(node.already_ordered[..6], first[..]);
    let mut batch = hashes(&r3);
    batch.push(r4[2].hash.clone());
    batch.extend([r2[0].hash.clone(), r2[2].hash.clone(), r2[3].hash.clone()]);
    assert_eq!(node.already_ordered[6..], sorted(batch)[..]);
    assert_eq!(node.finalized_block_count, 14);
    let mut distinct = node.already_ordered.clone();
    distinct.sort();
    distinct.dedup();
    assert_eq!(distinct.len(), 14);
}

#[test]
fn an_anchor_is_committed_indirectly_on_a_path() {
    let mut node = dense();
    let (r1, r2) = two_rounds(&mut node);
    let anchor2 = r2[1].duplicate();
    let others = vec![r2[0].hash.clone(), r2[2].hash.clone(), r2[3].hash.clone()];
    // One vote only for the anchor of round 2: it is not committed directly.
    let voter = vertex(3, 0, hashes(&r2));
    node.store_vertex(voter.duplicate());
    let quiet = store_round(&mut node, 3, &[1, 2, 3], &others);
    let r3: Vec<Vec<u8>> = hashes(node.dag.get_round(3).unwrap());
    let r4 = store_round(&mut node, 4, &[0, 1, 2, 3], &r3);
    node.try_committing(r4[0].duplicate());
    assert!(node.already_ordered.is_empty());
    let r5 = store_round(&mut node, 5, &[0, 1, 2, 3], &hashes(&r4));
    // The anchor of round 4 is committed; parent edges lead from it to the
    // anchor of round 2, which is committed with it and ordered first.
    let anchor4 = r4[2].duplicate();
    assert!(node.dag.has_path(&anchor4, &anchor2));
    node.try_committing(vertex(6, 1, hashes(&r5)));
    // The last ordered round is that of the lowest anchor pushed.
    assert_eq!(node.last_ordered_round, 2);
    let mut first = hashes(&r1);
    first.push(vec![0u8; 32]);
    first.push(anchor2.hash.clone());
    assert_eq!(node.already_ordered[..6], sorted(first)[..]);
    let mut second = vec![anchor4.hash.clone(), voter.hash.clone()];
    second.extend(hashes(&quiet));
    second.extend(others);
    assert_eq!(node.already_ordered[6..], sorted(second)[..]);
    assert_eq!(node.finalized_block_count, 14);
}

#[test]
fn an_anchor_without_a_path_is_skipped() {
    let mut node = dense();
    let (r1, r2) = two_rounds(&mut node);
    let anchor2 = r2[1].duplicate();
    let others = vec![r2[0].hash.clone(), r2[2].hash.clone(), r2[3].hash.clone()];
    // No vertex of round 3 links to the anchor of round 2.
    let r3 = store_round(&mut node, 3, &[0, 1, 2, 3], &others);
    let r4 = store_round(&mut node, 4, &[0, 1, 2, 3], &hashes(&r3));
    let r5 = store_round(&mut node, 5, &[0, 1, 2, 3], &hashes(&r4));
    let anchor4 = r4[2].duplicate();
    assert!(!node.dag.has_path(&anchor4, &anchor2));
    node.try_committing(vertex(6, 1, hashes(&r5)));
    assert_eq!(node.last_ordered_round, 4);
    assert!(!node.already_ordered.contains(&anchor2.hash));
    let mut batch = hashes(&r1);
    batch.push(vec![0u8; 32]);
    batch.extend(others);
    batch.extend(hashes(&r3));
    batch.push(anchor4.hash.clone());
    assert_eq!(node.already_ordered, sorted(batch));
    // The skipped anchor is below the last ordered round: it is never
    // committed later either.
    let r6 = store_round(&mut node, 6, &[0, 1, 2, 3], &hashes(&r5));
    let r7 = store_round(&mut node, 7, &[0, 1, 2, 3], &hashes(&r6));
    node.try_committing(vertex(8, 1, hashes(&r7)));
    assert_eq!(node.last_ordered_round, 6);
    assert!(!node.already_ordered.contains(&anchor2.hash));
}

#[test]
fn order_anchors_commits_the_anchor_it_is_given() {
    let mut node = dense();
    let (r1, r2) = two_rounds(&mut node);
    node.order_anchors(r2[3].duplicate());
    assert_eq!(node.last_ordered_round, 2);
    let mut past = hashes(&r1);
    past.push(vec![0u8; 32]);
    past.push(r2[3].hash.clone());
    assert_eq!(node.already_ordered, sorted(past));
    // A vertex below round 2 has nothing below it to walk to.
    let mut fresh = dense();
    let f1 = store_round(&mut fresh, 1, &[0, 1], &[vec![0u8; 32]]);
    fresh.order_anchors(f1[1].duplicate());
    assert_eq!(fresh.last_ordered_round, 1);
    assert_eq!(fresh.already_ordered, sorted(vec![vec![0u8; 32], f1[1].hash.clone()]));
    // A vertex of an odd round walks over odd rounds, which have no anchor.
    let mut odd = dense();
    let (_, o2) = two_rounds(&mut odd);
    let o3 = store_round(&mut odd, 3, &[0], &hashes(&o2));
    odd.order_anchors(o3[0].duplicate());
    assert_eq!(odd.last_ordered_round, 3);
    assert_eq!(odd.already_ordered.len(), 10);
}

#[test]
fn order_history_orders_the_stack_from_the_top() {
    let mut node = dense();
    let (r1, r2) = two_rounds(&mut node);
    node.order_history();
    assert!(node.already_ordered.is_empty());
    // Two anchors on the stack: the one on top goes first.
    node.ordered_anchors_stack.push(r2[0].duplicate());
    node.ordered_anchors_stack.push(r1[2].duplicate());
    node.order_history();
    assert!(node.ordered_anchors_stack.is_empty());
    assert_eq!(node.already_ordered[..2], sorted(vec![vec![0u8; 32], r1[2].hash.clone()])[..]);
    let rest = vec![r1[0].hash.clone(), r1[1].hash.clone(), r1[3].hash.clone(), r2[0].hash.clone()];
    assert_eq!(node.already_ordered[2..], sorted(rest)[..]);
    assert_eq!(node.finalized_block_count, 6);
    assert_eq!(node.last_ordered_round, 0);
    // An anchor that is finalized already adds nothing.
    node.ordered_anchors_stack.push(r1[2].duplicate());
    node.order_history();
    assert_eq!(node.finalized_block_count, 6);
}

#[test]
fn the_same_store_gives_the_same_order() {
    let build = |order: &[u32]| {
        let mut node = dense();
        let r1 = store_round(&mut node, 1, &[0, 1, 2, 3], &[vec![0u8; 32]]);
        let r2 = store_round(&mut node, 2, &[0, 1, 2, 3], &hashes(&r1));
        let r3 = store_round(&mut node, 3, order, &hashes(&r2));
        let mut links = hashes(&r3);
        links.sort();
        node.try_committing(vertex(4, 0, links));
        node
    };
    let a = build(&[0, 1, 2, 3]);
    let b = build(&[0, 1, 2, 3]);
    assert_eq!(a.already_ordered, b.already_ordered);
    assert_eq!(a.last_ordered_round, b.last_ordered_round);
    // The order in which a round was filled does not enter the order of
    // finalization.
    let c = build(&[3, 1, 0, 2]);
    assert_eq!(a.already_ordered, c.already_ordered);
    assert_eq!(a.already_ordered.len(), 6);
}

#[test]
fn the_dense_node_is_an_engine_in_dense_mode() {
    let mut node = Bullshark::new(
        environment(2, 4),
        public_keys(4),
        PrivateKey::from_bytes(keypair_bytes(2)).unwrap(),
    );
    assert!(matches!(node.engine.mode, Mode::Dense));
    assert_eq!(node.engine.round, 1);
    let out = node.start();
    assert_eq!(out.len(), 2);
    assert_eq!(node.engine.round, 2);
    assert_eq!(node.get_anchor(0).unwrap().hash, vec![0u8; 32]);
    assert!(node.get_anchor(2).is_none());
    let (r1, r2) = two_rounds(&mut node.engine);
    let r3 = store_round(&mut node.engine, 3, &[0, 1, 2, 3], &hashes(&r2));
    node.try_committing(vertex(4, 0, hashes(&r3)));
    assert_eq!(node.engine.last_ordered_round, 2);
    assert!(node.engine.already_ordered.contains(&r1[0].hash));
    node.order_anchors(r3[0].duplicate());
    assert_eq!(node.engine.last_ordered_round, 3);
    node.engine.ordered_anchors_stack.push(r3[1].duplicate());
    node.order_history();
    assert!(node.engine.already_ordered.contains(&r3[1].hash));
    let out = node.handle_message(
        1,
        sparse_bullshark::message::SparseMessage::RBC_Echo(sparse_bullshark::message::EchoMessage {
            vertex_hash: vec![1; 32],
        }),
    );
    assert!(out.is_empty());
}

#[test]
fn the_sparse_node_is_an_engine_that_samples_four_parents() {
    let mut node = SparseBullshark::new(
        environment(1, 4),
        public_keys(4),
        PrivateKey::from_bytes(keypair_bytes(1)).unwrap(),
    );
    assert!(matches!(node.engine.mode, Mode::Sparse { d: 4 }));
    let out = node.start();
    assert_eq!(out.len(), 1);
    assert_eq!(node.engine.round, 2);
    assert_eq!(node.get_anchor(0).unwrap().hash, vec![0u8; 32]);
    let sent = match &out[0] {
        sparse_bullshark::message::SparseMessage::Vertex(m) => m.duplicate(),
        _ => panic!("a vertex goes out"),
    };
    assert_eq!(sent.sender, 1);
    // A peer takes the vertex.
    let mut peer = SparseBullshark::new(
        environment(0, 4),
        public_keys(4),
        PrivateKey::from_bytes(keypair_bytes(0)).unwrap(),
    );
    peer.start();
    peer.handle_message(1, sparse_bullshark::message::SparseMessage::Vertex(sent));
    assert_eq!(peer.engine.dag.get_round(1).unwrap().len(), 2);
}
