use std::collections::HashSet;

use social_graph::adjacency::adjacency_list;
use social_graph::edges::{unique_nodes, vertex_index};
use social_graph::error::GraphError;
use social_graph::graph::Graph;

#[test]
fn unique_nodes_collects_both_endpoints() {
    let edges = vec![(7, 3), (3, 9), (7, 9)];
    let nodes = unique_nodes(&edges);
    let expected: HashSet<usize> = [3, 7, 9].into_iter().collect();
    assert_eq!(nodes, expected);
}

#[test]
fn unique_nodes_of_no_edges_is_empty() {
    let nodes = unique_nodes(&Vec::new());
    assert!(nodes.is_empty());
}

#[test]
fn unique_nodes_counts_a_self_loop_once() {
    let nodes = unique_nodes(&vec![(4, 4)]);
    assert_eq!(nodes.len(), 1);
    assert!(nodes.contains(&4));
}

#[test]
fn unique_nodes_ignores_duplicate_edges() {
    let nodes = unique_nodes(&vec![(1, 2), (2, 1), (1, 2)]);
    assert_eq!(nodes.len(), 2);
}

#[test]
fn vertex_index_follows_ascending_identifiers() {
    let nodes: HashSet<usize> = [40, 10, 30, 20].into_iter().collect();
    assert_eq!(vertex_index(&nodes, 10), Ok(0));
    assert_eq!(vertex_index(&nodes, 20), Ok(1));
    assert_eq!(vertex_index(&nodes, 30), Ok(2));
    assert_eq!(vertex_index(&nodes, 40), Ok(3));
}

#[test]
fn vertex_index_rejects_unknown_identifier() {
    let nodes: HashSet<usize> = [40, 10].into_iter().collect();
    assert_eq!(vertex_index(&nodes, 25), Err(GraphError::UnknownVertex));
    assert_eq!(vertex_index(&HashSet::new(), 0), Err(GraphError::UnknownVertex));
}

#[test]
fn adjacency_list_indexes_identifiers_in_ascending_order() {
    // identifiers 50, 7, 300 get the indices 1, 0, 2
    let edges = vec![(50, 7), (300, 50)];
    let nodes = unique_nodes(&edges);
    let table = adjacency_list(edges, nodes);
    assert_eq!(table, vec![vec![1], vec![0, 2], vec![1]]);
}

#[test]
fn adjacency_list_keeps_edge_order_and_multiplicity() {
    let edges = vec![(0, 1), (0, 2), (1, 0), (0, 1)];
    let nodes = unique_nodes(&edges);
    let table = adjacency_list(edges, nodes);
    assert_eq!(table, vec![vec![1, 2, 1, 1], vec![0, 0, 0], vec![0]]);
}

#[test]
fn adjacency_list_enters_a_self_loop_twice() {
    let edges = vec![(5, 5), (5, 6)];
    let nodes = unique_nodes(&edges);
    let table = adjacency_list(edges, nodes);
    assert_eq!(table, vec![vec![0, 0, 1], vec![0]]);
}

#[test]
fn adjacency_list_gives_isolated_rows_to_unused_identifiers() {
    let edges = vec![(2, 0)];
    let nodes: HashSet<usize> = [0, 1, 2, 3].into_iter().collect();
    let table = adjacency_list(edges, nodes);
    assert_eq!(table, vec![vec![2], vec![], vec![0], vec![]]);
}

#[test]
fn adjacency_list_of_nothing_is_empty() {
    let table = adjacency_list(Vec::new(), HashSet::new());
    assert!(table.is_empty());
}

#[test]
fn adjacency_list_is_the_same_on_every_run() {
    let edges: Vec<(usize, usize)> = (0..200).map(|i| (1000 - 3 * i, 17 * i % 101)).collect();
    let first = adjacency_list(edges.clone(), unique_nodes(&edges));
    for _ in 0..5 {
        assert_eq!(adjacency_list(edges.clone(), unique_nodes(&edges)), first);
    }
}

#[test]
fn every_edge_can_be_read_back_in_both_directions() {
    let edges = vec![(12, 5), (5, 8), (8, 12), (30, 5), (9, 9)];
    let nodes = unique_nodes(&edges);
    let graph = Graph::from_edges(edges.clone());
    for &(a, b) in &edges {
        let ia = vertex_index(&nodes, a).unwrap();
        let ib = vertex_index(&nodes, b).unwrap();
        assert!(graph.neighbors(ia).unwrap().contains(&ib));
        assert!(graph.neighbors(ib).unwrap().contains(&ia));
    }
}

#[test]
fn graph_from_edges_matches_adjacency_list() {
    let edges = vec![(3, 1), (1, 2), (2, 3), (10, 11)];
    let table = adjacency_list(edges.clone(), unique_nodes(&edges));
    let graph = Graph::from_edges(edges);
    assert_eq!(graph.n(), table.len());
    for v in 0..graph.n() {
        assert_eq!(graph.neighbors(v).unwrap(), &table[v]);
    }
}

#[test]
fn neighbors_of_a_missing_vertex_is_an_error() {
    let graph = Graph::from_edges(vec![(0, 1)]);
    assert_eq!(graph.neighbors(2), Err(GraphError::IndexOutOfRange));
    let empty = Graph::from_edges(Vec::new());
    assert_eq!(empty.neighbors(0), Err(GraphError::IndexOutOfRange));
}

#[test]
fn from_adjacency_accepts_a_mutual_table() {
    let graph = Graph::from_adjacency(vec![vec![1, 2], vec![0], vec![0]]).unwrap();
    assert_eq!(graph.n(), 3);
    assert_eq!(graph.neighbors(0).unwrap(), &vec![1, 2]);
    assert!(Graph::from_adjacency(Vec::new()).is_some());
    assert!(Graph::from_adjacency(vec![vec![0, 0], vec![]]).is_some());
}

#[test]
fn from_adjacency_rejects_entries_out_of_range() {
    assert!(Graph::from_adjacency(vec![vec![1], vec![0, 2]]).is_none());
    assert!(Graph::from_adjacency(vec![vec![1]]).is_none());
}

#[test]
fn from_adjacency_rejects_one_sided_adjacency() {
    assert!(Graph::from_adjacency(vec![vec![1], vec![]]).is_none());
    assert!(Graph::from_adjacency(vec![vec![1], vec![0, 2], vec![]]).is_none());
}

#[test]
fn error_messages_tell_the_variants_apart() {
    assert_eq!(GraphError::IndexOutOfRange.message(), "vertex index out of range");
    assert_eq!(GraphError::UnknownVertex.message(), "unknown vertex identifier");
    assert_eq!(GraphError::EmptyInputError.message(), "no distances to summarize");
}

#[test]
fn sorted_nodes_lists_the_identifiers_in_ascending_order() {
    let nodes: HashSet<usize> = [40, 10, 30, 20, 1000, 0].into_iter().collect();
    assert_eq!(social_graph::edges::sorted_nodes(&nodes), vec![0, 10, 20, 30, 40, 1000]);
    assert_eq!(social_graph::edges::sorted_nodes(&HashSet::new()), Vec::<usize>::new());
}

#[test]
fn graph_translates_identifiers_both_ways() {
    let graph = Graph::from_edges(vec![(50, 7), (300, 50)]);
    assert_eq!(graph.vertex_index(7), Ok(0));
    assert_eq!(graph.vertex_index(50), Ok(1));
    assert_eq!(graph.vertex_index(300), Ok(2));
    assert_eq!(graph.vertex_id(0), Ok(7));
    assert_eq!(graph.vertex_id(1), Ok(50));
    assert_eq!(graph.vertex_id(2), Ok(300));
    for v in 0..graph.n() {
        assert_eq!(graph.vertex_index(graph.vertex_id(v).unwrap()), Ok(v));
    }
}

#[test]
fn graph_rejects_unknown_identifiers_and_indices() {
    let graph = Graph::from_edges(vec![(50, 7), (300, 50)]);
    assert_eq!(graph.vertex_index(0), Err(GraphError::UnknownVertex));
    assert_eq!(graph.vertex_index(8), Err(GraphError::UnknownVertex));
    assert_eq!(graph.vertex_index(301), Err(GraphError::UnknownVertex));
    assert_eq!(graph.vertex_id(3), Err(GraphError::IndexOutOfRange));
    let empty = Graph::from_edges(Vec::new());
    assert_eq!(empty.vertex_index(0), Err(GraphError::UnknownVertex));
    assert_eq!(empty.vertex_id(0), Err(GraphError::IndexOutOfRange));
}

#[test]
fn graph_index_agrees_with_the_vertex_set() {
    let edges = vec![(12, 5), (5, 8), (8, 12), (30, 5), (9, 9), (1000, 2)];
    let nodes = unique_nodes(&edges);
    let graph = Graph::from_edges(edges);
    for id in 0..1100 {
        assert_eq!(graph.vertex_index(id), vertex_index(&nodes, id));
    }
}

#[test]
fn a_table_numbers_its_own_vertices() {
    let graph = Graph::from_adjacency(vec![vec![1], vec![0], vec![]]).unwrap();
    for v in 0..3 {
        assert_eq!(graph.vertex_id(v), Ok(v));
        assert_eq!(graph.vertex_index(v), Ok(v));
    }
    assert_eq!(graph.vertex_index(3), Err(GraphError::UnknownVertex));
}
