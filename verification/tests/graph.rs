use algos::graph::{AdjacencyGraph, Graph};

fn check_adjacencies<G: Graph>(graph: &G) {
    assert_eq!(graph.adjacent(0), &[1, 2, 3]);
    assert_eq!(graph.adjacent(1), &[]);
    assert_eq!(graph.adjacent(2), &[]);
    assert_eq!(graph.adjacent(3), &[1]);
}

#[test]
fn test_edge_count() {
    let mut target = AdjacencyGraph::with_vertex_count(2);
    target.add_edge(0, 1);
    target.add_edge(1, 1);
    assert_eq!(target.edge_count(), 2);
}

#[test]
fn test_degree() {
    let mut target = AdjacencyGraph::with_vertex_count(4);
    target.add_edge(0, 1);
    target.add_edge(0, 2);
    target.add_edge(0, 3);
    assert_eq!(target.degree(1), 0);
    assert_eq!(target.degree(0), 3);
}

#[test]
fn test_adjacent() {
    let mut target = AdjacencyGraph::with_vertex_count(4);
    target.add_edge(0, 1);
    target.add_edge(0, 2);
    target.add_edge(0, 3);
    target.add_edge(3, 1);
    // test accessing target as a Graph
    check_adjacencies(&target);
}

#[test]
fn test_vertex_count() {
    let target = AdjacencyGraph::with_vertex_count(4);
    assert_eq!(target.vertex_count(), 4);
}
