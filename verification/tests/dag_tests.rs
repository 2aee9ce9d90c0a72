use sparse_bullshark::dag::DAG;
use sparse_bullshark::order::{hash_less, sort_by_hash};
use sparse_bullshark::vertex::Vertex;

fn vertex(tag: u8, round: u64, source: u32, edges: Vec<Vec<u8>>) -> Vertex {
    Vertex {
        hash: vec![tag; 32],
        round,
        source,
        block: vec![tag],
        edges,
        signed_round: vec![],
        sample_proof: vec![],
    }
}

fn hashes(list: &[Vertex]) -> Vec<Vec<u8>> {
    list.iter().map(|v| v.hash.clone()).collect()
}

/// Rounds 0 to 3: genesis; a1, b1; a2 (links a1), b2 (links a1, b1); a3 (links a2).
fn small_dag() -> DAG {
    let mut dag = DAG::new();
    dag.insert(Vertex::genesis());
    dag.insert(vertex(0x11, 1, 0, vec![vec![0; 32]]));
    dag.insert(vertex(0x12, 1, 1, vec![vec![0; 32]]));
    dag.insert(vertex(0x21, 2, 0, vec![vec![0x11; 32]]));
    dag.insert(vertex(0x22, 2, 1, vec![vec![0x11; 32], vec![0x12; 32]]));
    dag.insert(vertex(0x31, 3, 0, vec![vec![0x21; 32]]));
    dag
}

#[test]
fn new_dag_is_empty() {
    let dag = DAG::new();
    assert!(dag.get_round(0).is_none());
    assert!(dag.get_round(7).is_none());
    assert!(dag.get_by_hash(&vec![0; 32]).is_none());
    assert!(dag.get_vertices_by_sources(0, &[0, 1]).is_empty());
}

#[test]
fn insert_appends_to_round_and_files_by_hash() {
    let dag = small_dag();
    assert_eq!(hashes(dag.get_round(0).unwrap()), vec![vec![0u8; 32]]);
    assert_eq!(hashes(dag.get_round(1).unwrap()), vec![vec![0x11u8; 32], vec![0x12; 32]]);
    assert_eq!(hashes(dag.get_round(2).unwrap()), vec![vec![0x21u8; 32], vec![0x22; 32]]);
    assert_eq!(dag.get_round(3).unwrap().len(), 1);
    assert!(dag.get_round(4).is_none());
    let found = dag.get_by_hash(&vec![0x22; 32]).unwrap();
    assert_eq!(found.round, 2);
    assert_eq!(found.source, 1);
    assert_eq!(found.edges.len(), 2);
    assert!(dag.get_by_hash(&vec![0x99; 32]).is_none());
    assert!(dag.get_by_hash(&vec![0x22; 31]).is_none());
}

#[test]
fn rounds_only_grow() {
    let mut dag = DAG::new();
    let mut sizes = Vec::new();
    for i in 0..5u8 {
        dag.insert(vertex(i + 1, 1, i as u32, vec![]));
        sizes.push(dag.get_round(1).unwrap().len());
        dag.insert(vertex(i + 100, 2, i as u32, vec![]));
        sizes.push(dag.get_round(1).unwrap().len());
    }
    assert_eq!(sizes, vec![1, 1, 2, 2, 3, 3, 4, 4, 5, 5]);
    assert_eq!(dag.get_round(2).unwrap().len(), 5);
}

#[test]
fn insert_does_not_deduplicate() {
    let mut dag = DAG::new();
    dag.insert(vertex(0x11, 1, 0, vec![]));
    dag.insert(vertex(0x11, 1, 0, vec![]));
    assert_eq!(dag.get_round(1).unwrap().len(), 2);
    assert_eq!(dag.get_by_hash(&vec![0x11; 32]).unwrap().source, 0);
}

#[test]
fn a_hash_resolves_to_the_last_vertex_inserted_with_it() {
    let mut dag = DAG::new();
    dag.insert(vertex(0x11, 1, 0, vec![]));
    dag.insert(vertex(0x11, 2, 5, vec![]));
    let found = dag.get_by_hash(&vec![0x11; 32]).unwrap();
    assert_eq!(found.round, 2);
    assert_eq!(found.source, 5);
    assert_eq!(dag.get_round(1).unwrap().len(), 1);
    assert_eq!(dag.get_round(2).unwrap().len(), 1);
}

#[test]
fn vertices_by_sources_filters_in_order() {
    let dag = small_dag();
    assert_eq!(hashes(&dag.get_vertices_by_sources(1, &[1])), vec![vec![0x12u8; 32]]);
    assert_eq!(hashes(&dag.get_vertices_by_sources(1, &[1, 0])), vec![vec![0x11u8; 32], vec![0x12; 32]]);
    assert!(dag.get_vertices_by_sources(1, &[7]).is_empty());
    assert!(dag.get_vertices_by_sources(1, &[]).is_empty());
    assert!(dag.get_vertices_by_sources(9, &[0, 1]).is_empty());
}

#[test]
fn has_path_follows_parent_edges() {
    let dag = small_dag();
    let a3 = dag.get_by_hash(&vec![0x31; 32]).unwrap();
    let a2 = dag.get_by_hash(&vec![0x21; 32]).unwrap();
    let b2 = dag.get_by_hash(&vec![0x22; 32]).unwrap();
    let a1 = dag.get_by_hash(&vec![0x11; 32]).unwrap();
    let b1 = dag.get_by_hash(&vec![0x12; 32]).unwrap();
    let g = dag.get_by_hash(&vec![0; 32]).unwrap();
    assert!(dag.has_path(a3, a3));
    assert!(dag.has_path(a3, a2));
    assert!(dag.has_path(a3, a1));
    assert!(dag.has_path(a3, g));
    assert!(!dag.has_path(a3, b1));
    assert!(!dag.has_path(a3, b2));
    assert!(dag.has_path(b2, b1));
    assert!(dag.has_path(b2, a1));
    assert!(!dag.has_path(a1, a2));
    assert!(!dag.has_path(a2, a3));
    assert!(!dag.has_path(a1, b1));
}

#[test]
fn has_path_stops_at_the_round_of_the_target() {
    // c1 is reached from a3 only through b0, a vertex of round 0: below the
    // round of the target, so the search does not descend from it.
    let mut dag = DAG::new();
    dag.insert(vertex(0x51, 1, 2, vec![]));
    dag.insert(vertex(0x50, 0, 2, vec![vec![0x51; 32]]));
    dag.insert(vertex(0x61, 3, 0, vec![vec![0x50; 32]]));
    let start = dag.get_by_hash(&vec![0x61; 32]).unwrap();
    let low = dag.get_by_hash(&vec![0x50; 32]).unwrap();
    let target = dag.get_by_hash(&vec![0x51; 32]).unwrap();
    assert!(dag.has_path(start, low));
    assert!(!dag.has_path(start, target));
}

#[test]
fn has_path_ignores_edges_that_do_not_resolve() {
    let mut dag = DAG::new();
    dag.insert(vertex(0x11, 1, 0, vec![]));
    dag.insert(vertex(0x21, 2, 0, vec![vec![0x77; 32], vec![0x11; 32]]));
    let start = dag.get_by_hash(&vec![0x21; 32]).unwrap();
    let target = dag.get_by_hash(&vec![0x11; 32]).unwrap();
    let missing = vertex(0x77, 1, 3, vec![]);
    assert!(dag.has_path(start, target));
    assert!(!dag.has_path(start, &missing));
}

#[test]
fn causal_closure_holds_each_reached_vertex_once() {
    let dag = small_dag();
    let b2 = dag.get_by_hash(&vec![0x22; 32]).unwrap();
    let queue = dag.causal_closure(b2, None, &vec![]);
    let mut found = hashes(&queue);
    assert_eq!(found[0], vec![0x22u8; 32]);
    found.sort();
    assert_eq!(found, vec![vec![0u8; 32], vec![0x11; 32], vec![0x12; 32], vec![0x22; 32]]);
    // A finalized vertex is reached but not descended from.
    let queue = dag.causal_closure(b2, None, &vec![vec![0x11u8; 32], vec![0x12u8; 32]]);
    let mut found = hashes(&queue);
    found.sort();
    assert_eq!(found, vec![vec![0x11u8; 32], vec![0x12; 32], vec![0x22; 32]]);
    // With a floor at round 1 the search does not descend from round 1.
    let queue = dag.causal_closure(b2, Some(1), &vec![]);
    let mut found = hashes(&queue);
    found.sort();
    assert_eq!(found, vec![vec![0x11u8; 32], vec![0x12; 32], vec![0x22; 32]]);
}

#[test]
fn causal_closure_is_in_breadth_first_order() {
    let dag = small_dag();
    let b2 = dag.get_by_hash(&vec![0x22; 32]).unwrap();
    let queue = dag.causal_closure(b2, None, &vec![]);
    assert_eq!(hashes(&queue), vec![vec![0x22u8; 32], vec![0x11; 32], vec![0x12; 32], vec![0u8; 32]]);
    let a3 = dag.get_by_hash(&vec![0x31; 32]).unwrap();
    let queue = dag.causal_closure(a3, None, &vec![]);
    assert_eq!(hashes(&queue), vec![vec![0x31u8; 32], vec![0x21; 32], vec![0x11; 32], vec![0u8; 32]]);
    // The edges of a vertex are looked at in their order.
    let mut dag = small_dag();
    dag.insert(vertex(0x41, 3, 1, vec![vec![0x22; 32], vec![0x21; 32]]));
    let v = dag.get_by_hash(&vec![0x41; 32]).unwrap();
    let queue = dag.causal_closure(v, None, &vec![]);
    assert_eq!(
        hashes(&queue),
        vec![vec![0x41u8; 32], vec![0x22; 32], vec![0x21; 32], vec![0x11; 32], vec![0x12; 32], vec![0u8; 32]]
    );
}

#[test]
fn hash_less_is_the_lexicographic_order() {
    assert!(hash_less(&vec![1, 2, 3], &vec![1, 2, 4]));
    assert!(!hash_less(&vec![1, 2, 4], &vec![1, 2, 3]));
    assert!(hash_less(&vec![1, 2], &vec![1, 2, 0]));
    assert!(!hash_less(&vec![1, 2, 0], &vec![1, 2]));
    assert!(!hash_less(&vec![1, 2, 3], &vec![1, 2, 3]));
    assert!(hash_less(&vec![], &vec![0]));
    assert!(!hash_less(&vec![], &vec![]));
    assert!(hash_less(&vec![0, 255], &vec![1]));
    for (a, b) in [(vec![3u8, 1], vec![3u8, 1, 1]), (vec![9u8], vec![8u8, 200]), (vec![5u8; 32], vec![5u8; 32])] {
        assert_eq!(hash_less(&a, &b), a < b);
        assert_eq!(hash_less(&b, &a), b < a);
    }
}

#[test]
fn sort_by_hash_ascends_and_keeps_the_vertices() {
    let queue = vec![
        vertex(0x30, 3, 0, vec![]),
        vertex(0x10, 1, 1, vec![]),
        vertex(0x40, 4, 2, vec![]),
        vertex(0x20, 2, 3, vec![]),
    ];
    let sorted = sort_by_hash(queue);
    assert_eq!(hashes(&sorted), vec![vec![0x10u8; 32], vec![0x20; 32], vec![0x30; 32], vec![0x40; 32]]);
    assert_eq!(sorted.iter().map(|v| v.round).collect::<Vec<_>>(), vec![1, 2, 3, 4]);
    assert_eq!(sorted.iter().map(|v| v.source).collect::<Vec<_>>(), vec![1, 3, 0, 2]);
    assert!(sort_by_hash(vec![]).is_empty());
}
