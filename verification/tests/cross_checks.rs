use social_graph::bfs::distances_bfs;
use social_graph::components::label_components;
use social_graph::graph::Graph;

/// A small deterministic generator, so that the runs can be repeated.
struct Lcg(u64);

impl Lcg {
    fn next(&mut self, bound: usize) -> usize {
        self.0 = self.0.wrapping_mul(6364136223846793005).wrapping_add(1442695040888963407);
        ((self.0 >> 33) as usize) % bound
    }
}

fn random_table(rng: &mut Lcg, n: usize, edges: usize) -> Vec<Vec<usize>> {
    let mut table = vec![Vec::new(); n];
    for _ in 0..edges {
        let a = rng.next(n);
        let b = rng.next(n);
        table[a].push(b);
        table[b].push(a);
    }
    table
}

/// Distances by repeated relaxation, with no queue.
fn slow_distances(table: &Vec<Vec<usize>>, start: usize) -> Vec<Option<usize>> {
    let n = table.len();
    let mut dist = vec![None; n];
    dist[start] = Some(0);
    for round in 0..n {
        for u in 0..n {
            if dist[u] == Some(round) {
                for &w in &table[u] {
                    if dist[w].is_none() {
                        dist[w] = Some(round + 1);
                    }
                }
            }
        }
    }
    dist
}

#[test]
fn bfs_agrees_with_relaxation_on_random_graphs() {
    let mut rng = Lcg(7);
    for round in 0..60 {
        let n = 1 + rng.next(25);
        let m = rng.next(2 * n + 1);
        let table = random_table(&mut rng, n, m);
        let graph = Graph::from_adjacency(table.clone()).unwrap();
        for start in 0..n {
            let mut distances = vec![Some(round); 3];
            assert_eq!(distances_bfs(start, &graph, &mut distances), Ok(()));
            assert_eq!(distances, slow_distances(&table, start));
        }
    }
}

#[test]
fn labels_agree_with_reachability_on_random_graphs() {
    let mut rng = Lcg(11);
    for _ in 0..60 {
        let n = 1 + rng.next(25);
        let m = rng.next(n + 1);
        let table = random_table(&mut rng, n, m);
        let graph = Graph::from_adjacency(table.clone()).unwrap();
        let labels = label_components(&graph);
        assert_eq!(labels.len(), n);
        let mut next_label = 0;
        for v in 0..n {
            let reach = slow_distances(&table, v);
            for w in 0..n {
                assert_eq!(labels[v] == labels[w], reach[w].is_some());
            }
            // a vertex that no earlier vertex reaches opens the next component
            if (0..v).all(|u| reach[u].is_none()) {
                assert_eq!(labels[v], next_label);
                next_label += 1;
            }
        }
    }
}

#[test]
fn graphs_from_edges_are_accepted_as_tables() {
    let mut rng = Lcg(13);
    for _ in 0..40 {
        let m = rng.next(40);
        let edges: Vec<(usize, usize)> = (0..m).map(|_| (rng.next(1000), rng.next(1000))).collect();
        let graph = Graph::from_edges(edges);
        let table: Vec<Vec<usize>> =
            (0..graph.n()).map(|v| graph.neighbors(v).unwrap().clone()).collect();
        assert!(Graph::from_adjacency(table).is_some());
    }
}
