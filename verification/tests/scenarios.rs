use social_graph::bfs::distances_bfs;
use social_graph::components::label_components;
use social_graph::error::GraphError;
use social_graph::graph::Graph;
use social_graph::stats::{calculate_graph_statistics, mean, median, reached, Ratio};

fn value(r: Ratio) -> f64 {
    r.numerator as f64 / r.denominator as f64
}

#[test]
fn path_graph_distances_and_statistics() {
    let graph = Graph::from_edges(vec![(0, 1), (1, 2), (2, 3)]);
    assert_eq!(graph.n(), 4);
    let mut distances = Vec::new();
    assert_eq!(distances_bfs(0, &graph, &mut distances), Ok(()));
    assert_eq!(distances, vec![Some(0), Some(1), Some(2), Some(3)]);
    let stats = calculate_graph_statistics(&graph, 0).unwrap();
    assert_eq!(value(stats.mean), 1.5);
    assert_eq!(stats.max, 3);
    assert_eq!(value(stats.median), 1.5);
}

#[test]
fn two_components_are_told_apart() {
    let graph = Graph::from_edges(vec![(0, 1), (2, 3)]);
    let labels = label_components(&graph);
    assert_eq!(labels, vec![0, 0, 1, 1]);
    let mut distances = Vec::new();
    assert_eq!(distances_bfs(0, &graph, &mut distances), Ok(()));
    assert_eq!(distances[2], None);
    assert_eq!(distances[3], None);
    assert_eq!(distances[0], Some(0));
    assert_eq!(distances[1], Some(1));
}

#[test]
fn empty_edge_list_gives_empty_graph() {
    let graph = Graph::from_edges(Vec::new());
    assert_eq!(graph.n(), 0);
    assert_eq!(label_components(&graph), Vec::<usize>::new());
    assert_eq!(calculate_graph_statistics(&graph, 0), Err(GraphError::EmptyInputError));
    let none: Vec<usize> = reached(&Vec::new());
    assert_eq!(mean(&none), Err(GraphError::EmptyInputError));
    assert_eq!(social_graph::stats::max(&none), Err(GraphError::EmptyInputError));
    assert_eq!(median(&none), Err(GraphError::EmptyInputError));
}
