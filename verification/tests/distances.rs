use social_graph::bfs::distances_bfs;
use social_graph::error::GraphError;
use social_graph::graph::Graph;

fn bfs(graph: &Graph, start: usize) -> Vec<Option<usize>> {
    let mut distances = Vec::new();
    assert_eq!(distances_bfs(start, graph, &mut distances), Ok(()));
    distances
}

#[test]
fn source_has_distance_zero() {
    let graph = Graph::from_edges(vec![(0, 1), (1, 2), (2, 0), (3, 4)]);
    for s in 0..graph.n() {
        assert_eq!(bfs(&graph, s)[s], Some(0));
    }
}

#[test]
fn every_reached_vertex_has_a_neighbor_one_step_closer() {
    let graph = Graph::from_edges(vec![(0, 1), (1, 2), (2, 3), (3, 0), (3, 4), (4, 5), (6, 7)]);
    for s in 0..graph.n() {
        let distances = bfs(&graph, s);
        for v in 0..graph.n() {
            if let Some(d) = distances[v] {
                if d > 0 {
                    let closer = graph
                        .neighbors(v)
                        .unwrap()
                        .iter()
                        .any(|&u| distances[u] == Some(d - 1));
                    assert!(closer);
                }
            }
        }
    }
}

#[test]
fn bfs_takes_the_shorter_of_two_routes() {
    // 0-1-2-3-4 and the shortcut 0-4
    let graph = Graph::from_edges(vec![(0, 1), (1, 2), (2, 3), (3, 4), (0, 4)]);
    assert_eq!(bfs(&graph, 0), vec![Some(0), Some(1), Some(2), Some(2), Some(1)]);
    assert_eq!(bfs(&graph, 2), vec![Some(2), Some(1), Some(0), Some(1), Some(2)]);
}

#[test]
fn bfs_twice_gives_the_same_map() {
    let graph = Graph::from_edges(vec![(0, 1), (1, 2), (0, 2), (2, 3), (5, 6)]);
    for s in 0..graph.n() {
        assert_eq!(bfs(&graph, s), bfs(&graph, s));
    }
}

#[test]
fn bfs_discards_what_the_map_held_before() {
    let graph = Graph::from_edges(vec![(0, 1), (1, 2)]);
    let mut distances = vec![Some(9), Some(9), Some(9), None, Some(1)];
    assert_eq!(distances_bfs(2, &graph, &mut distances), Ok(()));
    assert_eq!(distances, vec![Some(2), Some(1), Some(0)]);
}

#[test]
fn bfs_from_a_missing_source_fails_and_leaves_the_map() {
    let graph = Graph::from_edges(vec![(0, 1)]);
    let mut distances = vec![Some(5), None];
    assert_eq!(distances_bfs(2, &graph, &mut distances), Err(GraphError::IndexOutOfRange));
    assert_eq!(distances, vec![Some(5), None]);
    let empty = Graph::from_edges(Vec::new());
    assert_eq!(distances_bfs(0, &empty, &mut distances), Err(GraphError::IndexOutOfRange));
    assert_eq!(distances, vec![Some(5), None]);
}

#[test]
fn bfs_copes_with_self_loops_and_duplicate_edges() {
    let graph = Graph::from_edges(vec![(0, 0), (0, 1), (0, 1), (1, 1), (1, 2)]);
    assert_eq!(bfs(&graph, 0), vec![Some(0), Some(1), Some(2)]);
}

#[test]
fn bfs_on_a_single_looped_vertex() {
    let graph = Graph::from_edges(vec![(8, 8)]);
    assert_eq!(bfs(&graph, 0), vec![Some(0)]);
}

#[test]
fn bfs_on_a_long_path() {
    let n = 2000;
    let edges: Vec<(usize, usize)> = (0..n - 1).map(|i| (i, i + 1)).collect();
    let graph = Graph::from_edges(edges);
    let distances = bfs(&graph, 0);
    for v in 0..n {
        assert_eq!(distances[v], Some(v));
    }
}

#[test]
fn bfs_on_a_star() {
    let edges: Vec<(usize, usize)> = (1..50).map(|i| (0, i)).collect();
    let graph = Graph::from_edges(edges);
    let from_leaf = bfs(&graph, 7);
    assert_eq!(from_leaf[0], Some(1));
    assert_eq!(from_leaf[7], Some(0));
    for v in 1..50 {
        if v != 7 {
            assert_eq!(from_leaf[v], Some(2));
        }
    }
}
