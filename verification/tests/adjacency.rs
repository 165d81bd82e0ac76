use cinnabar::construct::Construct;
use cinnabar::graphs::AdjacencyGraph;
use cinnabar::marker::Directed;
use cinnabar::providers::{EdgeProvider, VertexProvider};
use cinnabar::topology::Topology;
use cinnabar::traversal::{bfs, dfs};

type DGraph = AdjacencyGraph<usize, Directed>;

fn create_uni_graph() -> AdjacencyGraph<usize, Directed> {
    let mut graph = AdjacencyGraph::new();
    graph.add(1);
    graph.add(2);
    graph.add(3);
    graph.add(4);
    graph.link(1, 2);
    graph.link(1, 3);
    graph.link(3, 4);
    graph
}

#[test]
fn can_add_vertices() {
    let mut graph = DGraph::new();
    graph.add(1);
    graph.add(2);
    assert!(graph.vertices().contains(1));
    assert!(graph.vertices().contains(2));
}

#[test]
fn can_remove_vertices() {
    let mut graph = DGraph::new();
    graph.add(1);
    graph.add(2);
    graph.remove(2);
    assert!(graph.vertices().contains(1));
    assert!(!graph.vertices().contains(2));
}

#[test]
fn can_create_unidirectional_edges() {
    let mut graph = DGraph::new();
    graph.add(1);
    graph.add(2);
    graph.link(1, 2);
    assert!(graph.has_edge(1, 2));
    assert!(!graph.has_edge(2, 1));
}

#[test]
fn can_remove_unidirectional_edges() {
    let mut graph = DGraph::new();
    graph.add(1);
    graph.add(2);
    graph.link(1, 2);
    graph.link(2, 1);
    graph.unlink(1, 2);
    assert!(!graph.has_edge(1, 2));
    assert!(graph.has_edge(2, 1));
}

#[test]
fn adjacency_adjacency_should_have_correct_order() {
    let graph = create_uni_graph();
    assert_eq!(graph.order(), 4, "graph order is invalid");
}

#[test]
fn adjacency_adjacency_should_have_correct_size() {
    let graph = create_uni_graph();
    assert_eq!(graph.size(), 3, "graph size is invalid");
}

#[test]
fn adjacency_adjacency_vertices_can_be_dfs_traversed() {
    let graph = create_uni_graph();
    let ids = dfs(&graph.vertices(), 1);
    assert!(ids == vec![1, 2, 3, 4] || ids == vec![1, 3, 4, 2]);
}

#[test]
fn adjacency_adjacency_vertices_can_be_bfs_traversed() {
    let graph = create_uni_graph();
    let ids = dfs(&graph.vertices(), 1);
    assert_eq!(ids, vec![1, 2, 3, 4]);
}

#[test]
fn adjacency_edges_can_be_dfs_traversed() {
    let graph = create_uni_graph();
    let dfs_edges = dfs(&graph.edges(), (1, 3));
    assert_eq!(dfs_edges, vec![(1, 3), (3, 4)]);
}

#[test]
fn adjacency_edges_can_be_bfs_traversed() {
    let graph = create_uni_graph();
    let dfs_edges = bfs(&graph.edges(), (1, 3));
    assert_eq!(dfs_edges, vec![(1, 3), (3, 4)]);
}
