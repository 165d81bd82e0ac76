use cinnabar::construct::Construct;
use cinnabar::graphs::AdjacencyGraph;
use cinnabar::marker::{Directed, Undirected};
use cinnabar::providers::{EdgeProvider, VertexProvider};
use cinnabar::topology::Topology;
use cinnabar::traversal::{bfs, dfs};
use cinnabar::utils::UnorderedPair;

fn create_directed_graph() -> AdjacencyGraph<usize, Directed> {
    let mut graph = AdjacencyGraph::new();
    graph.add(1);
    graph.add(2);
    graph.add(3);
    graph.add(4);
    graph.link(1, 2);
    graph.link(1, 3);
    graph.link(3, 4);
    graph
}

fn create_undirected_graph() -> AdjacencyGraph<usize, Undirected> {
    let mut graph = AdjacencyGraph::new();
    graph.add(1);
    graph.add(2);
    graph.add(3);
    graph.add(4);
    graph.add(5);
    graph.link(1, 2);
    graph.link(1, 3);
    graph.link(3, 4);
    graph.link(4, 5);
    graph
}

fn uedges(edges: &[(usize, usize)]) -> Vec<UnorderedPair<usize>> {
    edges.iter().copied().map(Into::into).collect()
}

fn distinct_pairs(edges: &[UnorderedPair<usize>]) -> Vec<UnorderedPair<usize>> {
    let mut kept: Vec<UnorderedPair<usize>> = Vec::new();
    for edge in edges {
        if !kept.contains(edge) {
            kept.push(*edge);
        }
    }
    kept
}

#[test]
fn adjacency_list_adjacency_should_have_correct_order() {
    let graph = create_directed_graph();
    assert_eq!(graph.order(), 4, "graph order is invalid");
}

#[test]
fn adjacency_list_adjacency_should_have_correct_size() {
    let graph = create_directed_graph();
    assert_eq!(graph.size(), 3, "graph size is invalid");
}

#[test]
fn adjacency_list_adjacency_vertices_can_be_dfs_traversed() {
    let graph = create_directed_graph();
    let ids = dfs(&graph.vertices(), 1);
    assert!(ids == vec![1, 2, 3, 4] || ids == vec![1, 3, 4, 2]);
}

#[test]
fn adjacency_list_adjacency_vertices_can_be_bfs_traversed() {
    let graph = create_directed_graph();
    let ids = bfs(&graph.vertices(), 1);
    assert!(ids == vec![1, 2, 3, 4] || ids == vec![1, 3, 2, 4]);
}

#[test]
fn adjacency_directed_edges_can_be_dfs_traversed() {
    let graph = create_directed_graph();
    let dfs_edges = dfs(&graph.edges(), (1, 3));
    assert_eq!(dfs_edges, vec![(1, 3), (3, 4)]);
}

#[test]
fn adjacency_directed_edges_can_be_bfs_traversed() {
    let graph = create_directed_graph();
    let bfs_edges = bfs(&graph.edges(), (1, 3));
    assert_eq!(bfs_edges, vec![(1, 3), (3, 4)]);
}

#[test]
fn adjacency_undirected_edges_can_be_dfs_traversed() {
    let graph = create_undirected_graph();
    let dfs_edges = dfs(&graph.edges(), (1, 3).into());
    let traversal_1 = uedges(&[(1, 3), (1, 2), (3, 4), (4, 5)]);
    let traversal_2 = uedges(&[(1, 3), (3, 4), (4, 5), (1, 2)]);
    assert!(dfs_edges == traversal_1 || dfs_edges == traversal_2);
}

#[test]
fn adjacency_undirected_edges_can_be_bfs_traversed() {
    let graph = create_undirected_graph();
    let bfs_edges = bfs(&graph.edges(), (1, 3).into());
    let traversal_1 = uedges(&[(1, 3), (1, 2), (3, 4), (4, 5)]);
    let traversal_2 = uedges(&[(1, 3), (3, 4), (1, 2), (4, 5)]);
    assert!(bfs_edges == traversal_1 || bfs_edges == traversal_2);
}

#[test]
fn directed_walks_visit_in_the_stated_order() {
    let graph = create_directed_graph();
    assert_eq!(dfs(&graph.vertices(), 1), vec![1, 2, 3, 4]);
    assert_eq!(bfs(&graph.vertices(), 1), vec![1, 3, 2, 4]);
    assert_eq!(dfs(&graph.vertices(), 3), vec![3, 4]);
    assert_eq!(bfs(&graph.vertices(), 4), vec![4]);
}

#[test]
fn newest_link_is_the_first_neighbour() {
    let graph = create_directed_graph();
    assert_eq!(graph.vertices().iter(), vec![1, 2, 3, 4]);
    assert_eq!(graph.vertices().adjacent_to(1), Some(vec![3, 2]));
    assert_eq!(graph.vertices().adjacent_to(2), Some(vec![]));
    assert_eq!(graph.edges().iter(), vec![(1, 3), (1, 2), (3, 4)]);
}

#[test]
fn undirected_graph_counts_each_edge_once() {
    let mut graph: AdjacencyGraph<usize, Undirected> = AdjacencyGraph::new();
    for id in 1..=4 {
        assert!(graph.add(id));
    }
    assert!(graph.link(1, 2));
    assert!(graph.link(1, 3));
    assert!(graph.link(3, 4));
    assert_eq!(graph.order(), 4);
    assert_eq!(graph.size(), 3);
    let all = graph.edges().iter();
    assert_eq!(all.len(), 6);
    let kept = distinct_pairs(&all);
    assert_eq!(kept.len(), 3);
    for edge in uedges(&[(2, 1), (3, 1), (4, 3)]) {
        assert!(kept.contains(&edge));
        assert!(graph.edges().contains(edge));
    }
}

#[test]
fn undirected_edge_set_does_not_depend_on_insertion_order() {
    let mut graph: AdjacencyGraph<usize, Undirected> = AdjacencyGraph::new();
    for id in [4, 2, 3, 1] {
        graph.add(id);
    }
    assert!(graph.link(4, 3));
    assert!(graph.link(3, 1));
    assert!(graph.link(2, 1));
    assert_eq!(graph.size(), 3);
    let kept = distinct_pairs(&graph.edges().iter());
    assert_eq!(kept.len(), 3);
    for edge in uedges(&[(1, 2), (1, 3), (3, 4)]) {
        assert!(kept.contains(&edge));
    }
}

#[test]
fn undirected_link_goes_both_ways() {
    let mut graph: AdjacencyGraph<usize, Undirected> = AdjacencyGraph::new();
    graph.add(1);
    graph.add(2);
    assert!(graph.link(1, 2));
    assert!(graph.has_edge(1, 2));
    assert!(graph.has_edge(2, 1));
    assert!(!graph.link(1, 2));
    assert!(!graph.link(2, 1));
    assert!(graph.unlink(2, 1));
    assert!(!graph.has_edge(1, 2));
    assert!(!graph.has_edge(2, 1));
    assert!(!graph.unlink(1, 2));
}

#[test]
fn undirected_self_link_is_stored_once_and_answers_false() {
    let mut graph: AdjacencyGraph<usize, Undirected> = AdjacencyGraph::new();
    graph.add(7);
    assert!(!graph.link(7, 7));
    assert!(graph.has_edge(7, 7));
    assert_eq!(graph.size(), 0);
    assert_eq!(graph.edges().iter().len(), 1);
}

#[test]
fn double_add_is_a_signal_not_a_fault() {
    let mut graph: AdjacencyGraph<usize, Directed> = AdjacencyGraph::new();
    assert!(graph.add(1));
    assert!(!graph.add(1));
    assert_eq!(graph.order(), 1);
    assert!(graph.remove(1));
    assert!(!graph.remove(1));
    assert_eq!(graph.order(), 0);
}

#[test]
fn unknown_vertices_answer_false_or_absent() {
    let mut graph: AdjacencyGraph<usize, Directed> = AdjacencyGraph::new();
    graph.add(1);
    assert!(!graph.link(1, 2));
    assert!(!graph.link(2, 1));
    assert!(!graph.unlink(1, 2));
    assert!(!graph.has_edge(1, 2));
    assert_eq!(graph.vertices().adjacent_to(2), None);
    assert!(!graph.vertices().contains(2));
    assert_eq!(graph.edges().adjacent_to((1, 2)), None);
    assert!(!graph.edges().contains((1, 2)));
    assert_eq!(dfs(&graph.vertices(), 2), Vec::<usize>::new());
    assert_eq!(bfs(&graph.vertices(), 2), Vec::<usize>::new());
}

#[test]
fn duplicate_link_answers_false() {
    let mut graph: AdjacencyGraph<usize, Directed> = AdjacencyGraph::new();
    graph.add(1);
    graph.add(2);
    assert!(graph.link(1, 2));
    assert!(!graph.link(1, 2));
    assert_eq!(graph.size(), 1);
    assert!(graph.unlink(1, 2));
    assert!(!graph.unlink(1, 2));
    assert_eq!(graph.size(), 0);
}

#[test]
fn removal_leaves_inbound_edges_dangling() {
    let mut graph = create_directed_graph();
    assert!(graph.remove(3));
    assert_eq!(graph.order(), 3);
    assert!(graph.has_edge(1, 3));
    assert!(!graph.has_edge(3, 4));
    assert!(!graph.vertices().contains(3));
    assert_eq!(graph.vertices().adjacent_to(3), None);
    // The walk ends at the dangling vertex and visits nothing further.
    assert_eq!(dfs(&graph.vertices(), 1), vec![1, 2]);
    assert_eq!(bfs(&graph.vertices(), 1), vec![1]);
    // The stored edge is still an edge, with nothing next to it.
    assert!(graph.edges().contains((1, 3)));
    assert_eq!(graph.edges().adjacent_to((1, 3)), Some(vec![]));
}

#[test]
fn absent_exactly_where_not_contained() {
    let directed = create_directed_graph();
    for a in 0..6 {
        assert_eq!(directed.vertices().adjacent_to(a).is_none(), !directed.vertices().contains(a));
        for b in 0..6 {
            let edges = directed.edges();
            assert_eq!(edges.adjacent_to((a, b)).is_none(), !edges.contains((a, b)));
        }
    }
    let undirected = create_undirected_graph();
    for a in 0..7 {
        for b in 0..7 {
            let edges = undirected.edges();
            let pair = UnorderedPair(a, b);
            assert_eq!(edges.adjacent_to(pair).is_none(), !edges.contains(pair));
        }
    }
}

#[test]
fn walks_cover_what_can_be_reached() {
    let mut graph: AdjacencyGraph<usize, Undirected> = AdjacencyGraph::new();
    for id in 0..8 {
        graph.add(id);
    }
    for (a, b) in [(0, 1), (1, 2), (2, 0), (2, 3), (4, 5), (5, 6)] {
        assert!(graph.link(a, b));
    }
    let mut reached = dfs(&graph.vertices(), 0);
    assert_eq!(reached.len(), 4);
    reached.sort();
    assert_eq!(reached, vec![0, 1, 2, 3]);
    let order = bfs(&graph.vertices(), 3);
    assert_eq!(order, vec![3, 2, 0, 1]);
    let mut other = bfs(&graph.vertices(), 5);
    other.sort();
    assert_eq!(other, vec![4, 5, 6]);
    assert_eq!(dfs(&graph.vertices(), 7), vec![7]);
}

#[test]
fn outbound_edges_skip_the_excluded_target() {
    let graph = create_directed_graph();
    assert_eq!(cinnabar::graphs::adjacency::outbound_edges(&graph, 1, 2), Some(vec![(1, 3)]));
    assert_eq!(cinnabar::graphs::adjacency::outbound_edges(&graph, 1, 9), Some(vec![(1, 3), (1, 2)]));
    assert_eq!(cinnabar::graphs::adjacency::outbound_edges(&graph, 9, 1), None);
}
