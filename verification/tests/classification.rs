use kosaraju::Graph;
use kosaraju::GraphError;
use kosaraju::build_graph;
use kosaraju::classify_condensation;
use kosaraju::compute_sccs;

fn graph_with_edges(n: usize, edges: &[(usize, usize)]) -> Graph {
    let mut g = Graph::new(n);
    for &(u, v) in edges {
        g.add_edge(u, v).unwrap();
    }
    g
}

fn analyze(n: usize, edges: &[(usize, usize)]) -> (usize, usize, usize, usize) {
    let g = graph_with_edges(n, edges);
    let (comp, count) = compute_sccs(&g);
    classify_condensation(&g, &comp, count)
}

#[test]
fn source_and_sink_components() {
    let (edge_count, a, b, c) = analyze(4, &[(0, 1), (1, 0), (1, 2), (2, 3), (3, 2)]);
    assert_eq!(edge_count, 5);
    assert_eq!(a, 2);
    assert_eq!(b, 2);
    assert_eq!(c, 0);
}

#[test]
fn one_cycle_is_isolated_class_c() {
    let (edge_count, a, b, c) = analyze(5, &[(0, 1), (1, 2), (2, 3), (3, 4), (4, 0)]);
    assert_eq!(edge_count, 5);
    assert_eq!(a, 0);
    assert_eq!(b, 0);
    assert_eq!(c, 5);
}

#[test]
fn lone_node_is_class_c() {
    let (edge_count, a, b, c) = analyze(1, &[]);
    assert_eq!(edge_count, 0);
    assert_eq!(a, 0);
    assert_eq!(b, 0);
    assert_eq!(c, 1);
}

#[test]
fn isolated_node_beside_a_cross_edge() {
    let (edge_count, a, b, c) = analyze(3, &[(0, 1)]);
    assert_eq!(edge_count, 1);
    assert_eq!(a, 1);
    assert_eq!(b, 1);
    assert_eq!(c, 1);
}

#[test]
fn class_totals_cover_all_nodes() {
    let (_, a, b, c) = analyze(6, &[(0, 1), (1, 2), (2, 0), (2, 3), (3, 4), (4, 3), (4, 5)]);
    assert_eq!(a + b + c, 6);
}

#[test]
fn self_loop_is_not_a_cross_edge() {
    let (edge_count, a, b, c) = analyze(2, &[(0, 0), (0, 1)]);
    assert_eq!(edge_count, 2);
    assert_eq!(a, 1);
    assert_eq!(b, 1);
    assert_eq!(c, 0);
}

#[test]
fn middle_component_is_class_c() {
    let (edge_count, a, b, c) = analyze(3, &[(0, 1), (1, 2)]);
    assert_eq!(edge_count, 2);
    assert_eq!(a, 1);
    assert_eq!(b, 1);
    assert_eq!(c, 1);
}

#[test]
fn empty_graph_classifies_to_nothing() {
    let g = Graph::new(0);
    let (comp, count) = compute_sccs(&g);
    let (edge_count, a, b, c) = classify_condensation(&g, &comp, count);
    assert_eq!((edge_count, a, b, c), (0, 0, 0, 0));
}

#[test]
fn build_graph_converts_one_based_descriptions() {
    let pairs = vec![(1usize, 2usize), (2, 1), (2, 3)];
    let g = build_graph(3, &pairs, true).unwrap();
    assert_eq!(g.node_count(), 3);
    assert_eq!(g.edge_count(), 3);
    let (comp, count) = compute_sccs(&g);
    assert_eq!(count, 2);
    assert_eq!(comp[0], comp[1]);
    assert_ne!(comp[0], comp[2]);
}

#[test]
fn build_graph_rejects_bad_descriptions() {
    assert_eq!(
        build_graph(0, &Vec::new(), false).unwrap_err(),
        GraphError::InvalidInput
    );
    assert_eq!(
        build_graph(2, &vec![(0usize, 1usize)], true).unwrap_err(),
        GraphError::InvalidInput
    );
    assert_eq!(
        build_graph(2, &vec![(1usize, 3usize)], true).unwrap_err(),
        GraphError::InvalidInput
    );
    assert_eq!(
        build_graph(2, &vec![(0usize, 2usize)], false).unwrap_err(),
        GraphError::InvalidInput
    );
    assert!(build_graph(2, &vec![(0usize, 1usize)], false).is_ok());
}
