use kosaraju::Graph;
use kosaraju::GraphError;
use kosaraju::compute_sccs;

fn graph_with_edges(n: usize, edges: &[(usize, usize)]) -> Graph {
    let mut g = Graph::new(n);
    for &(u, v) in edges {
        g.add_edge(u, v).unwrap();
    }
    g
}

#[test]
fn two_components_of_two_nodes() {
    let g = graph_with_edges(4, &[(0, 1), (1, 0), (1, 2), (2, 3), (3, 2)]);
    let (comp, count) = compute_sccs(&g);
    assert_eq!(count, 2);
    assert_eq!(comp.len(), 4);
    assert_eq!(comp[0], comp[1]);
    assert_eq!(comp[2], comp[3]);
    assert_ne!(comp[0], comp[2]);
}

#[test]
fn single_cycle_is_one_component() {
    let g = graph_with_edges(5, &[(0, 1), (1, 2), (2, 3), (3, 4), (4, 0)]);
    let (comp, count) = compute_sccs(&g);
    assert_eq!(count, 1);
    for u in 0..5 {
        assert_eq!(comp[u], 0);
    }
}

#[test]
fn single_node_is_its_own_component() {
    let g = Graph::new(1);
    let (comp, count) = compute_sccs(&g);
    assert_eq!(count, 1);
    assert_eq!(comp, vec![0]);
}

#[test]
fn empty_graph_has_no_components() {
    let g = Graph::new(0);
    let (comp, count) = compute_sccs(&g);
    assert_eq!(count, 0);
    assert!(comp.is_empty());
}

#[test]
fn chain_has_one_component_per_node() {
    let g = graph_with_edges(4, &[(0, 1), (1, 2), (2, 3)]);
    let (comp, count) = compute_sccs(&g);
    assert_eq!(count, 4);
    for u in 0..4 {
        for v in 0..4 {
            if u != v {
                assert_ne!(comp[u], comp[v]);
            }
        }
    }
}

#[test]
fn self_loop_stays_inside_its_component() {
    let g = graph_with_edges(2, &[(0, 0), (0, 1)]);
    let (comp, count) = compute_sccs(&g);
    assert_eq!(count, 2);
    assert_ne!(comp[0], comp[1]);
}

#[test]
fn recomputing_yields_the_same_partition() {
    let g = graph_with_edges(6, &[(0, 1), (1, 2), (2, 0), (2, 3), (3, 4), (4, 3), (4, 5)]);
    let (comp1, count1) = compute_sccs(&g);
    let (comp2, count2) = compute_sccs(&g);
    assert_eq!(count1, count2);
    assert_eq!(comp1, comp2);
    for u in 0..6 {
        for v in 0..6 {
            assert_eq!(comp1[u] == comp1[v], comp2[u] == comp2[v]);
        }
    }
}

#[test]
fn component_count_never_exceeds_node_count() {
    let g = graph_with_edges(3, &[(0, 1), (1, 0), (1, 2), (2, 0)]);
    let (_, count) = compute_sccs(&g);
    assert!(count <= 3);
    assert_eq!(count, 1);
}

#[test]
fn add_edge_rejects_out_of_range_endpoints() {
    let mut g = Graph::new(2);
    assert_eq!(g.add_edge(0, 5), Err(GraphError::IndexOutOfRange));
    assert_eq!(g.add_edge(2, 0), Err(GraphError::IndexOutOfRange));
    assert_eq!(g.edge_count(), 0);
    assert_eq!(g.add_edge(1, 0), Ok(()));
    assert_eq!(g.edge_count(), 1);
}

#[test]
fn transpose_reverses_every_edge_in_order() {
    let g = graph_with_edges(3, &[(0, 1), (2, 1), (0, 2)]);
    let (rev_edges, rev_adj) = g.transpose();
    let flipped: Vec<(usize, usize)> = rev_edges.iter().map(|e| (e.u, e.v)).collect();
    assert_eq!(flipped, vec![(1, 0), (1, 2), (2, 0)]);
    assert_eq!(rev_adj[0], Vec::<usize>::new());
    assert_eq!(rev_adj[1], vec![0, 2]);
    assert_eq!(rev_adj[2], vec![0]);
}

#[test]
fn component_ids_grow_along_edges() {
    let edges = [(0, 1), (1, 0), (1, 2), (2, 3), (3, 2), (0, 3)];
    let g = graph_with_edges(4, &edges);
    let (comp, _) = compute_sccs(&g);
    for &(u, v) in &edges {
        assert!(comp[u] <= comp[v]);
    }
}

#[test]
fn ordering_pass_emits_every_node_once() {
    let g = graph_with_edges(5, &[(0, 1), (1, 2), (3, 1), (4, 4)]);
    let mut order = kosaraju::order::ordering_pass(&g);
    order.sort();
    assert_eq!(order, vec![0, 1, 2, 3, 4]);
}
