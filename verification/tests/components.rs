use social_graph::bfs::distances_bfs;
use social_graph::components::label_components;
use social_graph::graph::Graph;

#[test]
fn same_label_is_an_equivalence() {
    let graph = Graph::from_edges(vec![(0, 1), (1, 2), (3, 4), (5, 5), (6, 3)]);
    let labels = label_components(&graph);
    let n = graph.n();
    assert_eq!(labels.len(), n);
    for a in 0..n {
        assert!(labels[a] == labels[a]);
        for b in 0..n {
            assert_eq!(labels[a] == labels[b], labels[b] == labels[a]);
            for c in 0..n {
                if labels[a] == labels[b] && labels[b] == labels[c] {
                    assert_eq!(labels[a], labels[c]);
                }
            }
        }
    }
}

#[test]
fn same_label_means_reachable() {
    let graph = Graph::from_edges(vec![(0, 4), (4, 2), (1, 3), (5, 6), (6, 7), (7, 5)]);
    let labels = label_components(&graph);
    for s in 0..graph.n() {
        let mut distances = Vec::new();
        distances_bfs(s, &graph, &mut distances).unwrap();
        for v in 0..graph.n() {
            assert_eq!(labels[s] == labels[v], distances[v].is_some());
        }
    }
}

#[test]
fn components_are_numbered_in_order_of_first_vertex() {
    // components {0, 4, 2}, {1, 3}, {5, 6, 7}
    let graph = Graph::from_edges(vec![(0, 4), (4, 2), (1, 3), (5, 6), (6, 7), (7, 5)]);
    assert_eq!(label_components(&graph), vec![0, 1, 0, 1, 0, 2, 2, 2]);
}

#[test]
fn a_connected_graph_has_one_component() {
    let graph = Graph::from_edges(vec![(0, 1), (1, 2), (2, 3), (3, 0)]);
    assert_eq!(label_components(&graph), vec![0, 0, 0, 0]);
}

#[test]
fn isolated_vertices_are_components_of_their_own() {
    let graph = Graph::from_adjacency(vec![vec![], vec![], vec![]]).unwrap();
    assert_eq!(label_components(&graph), vec![0, 1, 2]);
}

#[test]
fn labeling_is_the_same_on_every_run() {
    let graph = Graph::from_edges(vec![(9, 1), (1, 5), (2, 8), (3, 3), (7, 2)]);
    let first = label_components(&graph);
    assert_eq!(label_components(&graph), first);
}

#[test]
fn component_of_looks_a_vertex_up() {
    let graph = Graph::from_edges(vec![(0, 4), (4, 2), (1, 3)]);
    assert_eq!(social_graph::components::component_of(&graph, 2), Ok(0));
    assert_eq!(social_graph::components::component_of(&graph, 3), Ok(1));
    assert_eq!(
        social_graph::components::component_of(&graph, 5),
        Err(social_graph::error::GraphError::IndexOutOfRange)
    );
}
