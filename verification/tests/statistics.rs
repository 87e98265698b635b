use social_graph::error::GraphError;
use social_graph::graph::Graph;
use social_graph::stats::{
    calculate_graph_statistics, max, mean, median, reached, summarize, DistanceStats, Ratio,
};

fn value(r: Ratio) -> f64 {
    r.numerator as f64 / r.denominator as f64
}

#[test]
fn mean_is_sum_over_count() {
    assert_eq!(mean(&vec![1, 2, 3, 4]), Ok(Ratio { numerator: 10, denominator: 4 }));
    assert_eq!(value(mean(&vec![1, 2, 3, 4]).unwrap()), 2.5);
    assert_eq!(mean(&vec![7]), Ok(Ratio { numerator: 7, denominator: 1 }));
}

#[test]
fn mean_times_count_is_the_sum() {
    let distances = vec![3, 1, 4, 1, 5, 9, 2, 6];
    let m = mean(&distances).unwrap();
    let sum: usize = distances.iter().sum();
    assert_eq!(m.numerator, sum as u128);
    assert_eq!(m.denominator, distances.len() as u128);
    let product = value(m) * distances.len() as f64;
    assert!((product - sum as f64).abs() < 1e-9);
}

#[test]
fn mean_of_large_values_does_not_overflow() {
    let m = mean(&vec![usize::MAX, usize::MAX, usize::MAX]).unwrap();
    assert_eq!(m.numerator, 3 * (usize::MAX as u128));
    assert_eq!(m.denominator, 3);
}

#[test]
fn max_is_the_largest_item() {
    assert_eq!(max(&vec![3, 9, 2, 9, 1]), Ok(9));
    assert_eq!(max(&vec![0]), Ok(0));
    assert_eq!(max(&vec![5, 4, 3]), Ok(5));
}

#[test]
fn median_of_an_odd_count_is_the_middle_item() {
    assert_eq!(median(&vec![9, 1, 5]), Ok(Ratio { numerator: 5, denominator: 1 }));
    assert_eq!(median(&vec![4]), Ok(Ratio { numerator: 4, denominator: 1 }));
    assert_eq!(median(&vec![2, 2, 7, 1, 9]), Ok(Ratio { numerator: 2, denominator: 1 }));
}

#[test]
fn median_of_an_even_count_is_the_mean_of_the_central_two() {
    assert_eq!(median(&vec![4, 1, 3, 2]), Ok(Ratio { numerator: 5, denominator: 2 }));
    assert_eq!(value(median(&vec![4, 1, 3, 2]).unwrap()), 2.5);
    assert_eq!(median(&vec![10, 0]), Ok(Ratio { numerator: 10, denominator: 2 }));
}

#[test]
fn median_sorts_a_copy() {
    let distances = vec![5, 3, 8, 1];
    assert_eq!(median(&distances), Ok(Ratio { numerator: 8, denominator: 2 }));
    assert_eq!(distances, vec![5, 3, 8, 1]);
}

#[test]
fn median_lies_between_minimum_and_maximum() {
    let samples: Vec<Vec<usize>> = vec![
        vec![1],
        vec![2, 9],
        vec![7, 7, 7],
        vec![0, 100, 3, 50],
        vec![5, 1, 4, 2, 3],
        vec![usize::MAX, 0],
    ];
    for s in samples {
        let lo = *s.iter().min().unwrap() as u128;
        let hi = max(&s).unwrap() as u128;
        let m = median(&s).unwrap();
        assert!(lo * m.denominator <= m.numerator);
        assert!(m.numerator <= hi * m.denominator);
    }
}

#[test]
fn statistics_of_nothing_fail() {
    let none: Vec<usize> = Vec::new();
    assert_eq!(mean(&none), Err(GraphError::EmptyInputError));
    assert_eq!(max(&none), Err(GraphError::EmptyInputError));
    assert_eq!(median(&none), Err(GraphError::EmptyInputError));
    assert_eq!(summarize(&none), Err(GraphError::EmptyInputError));
}

#[test]
fn summarize_gives_all_three() {
    assert_eq!(
        summarize(&vec![2, 0, 1, 3]),
        Ok(DistanceStats {
            mean: Ratio { numerator: 6, denominator: 4 },
            max: 3,
            median: Ratio { numerator: 3, denominator: 2 },
        })
    );
}

#[test]
fn summarize_agrees_with_the_single_statistics() {
    let distances = vec![6, 2, 9, 2, 4, 4, 1];
    let stats = summarize(&distances).unwrap();
    assert_eq!(Ok(stats.mean), mean(&distances));
    assert_eq!(Ok(stats.max), max(&distances));
    assert_eq!(Ok(stats.median), median(&distances));
}

#[test]
fn reached_drops_the_missing_distances() {
    assert_eq!(reached(&vec![Some(0), None, Some(2), None, Some(1)]), vec![0, 2, 1]);
    assert_eq!(reached(&vec![None, None]), Vec::<usize>::new());
}

#[test]
fn graph_statistics_leave_out_unreached_vertices() {
    // from vertex 0: distances 0, 1, 1 and two vertices out of reach
    let graph = Graph::from_edges(vec![(0, 1), (0, 2), (3, 4)]);
    let stats = calculate_graph_statistics(&graph, 0).unwrap();
    assert_eq!(stats.mean, Ratio { numerator: 2, denominator: 3 });
    assert_eq!(stats.max, 1);
    assert_eq!(stats.median, Ratio { numerator: 1, denominator: 1 });
}

#[test]
fn graph_statistics_of_a_lone_source() {
    let graph = Graph::from_adjacency(vec![vec![], vec![]]).unwrap();
    let stats = calculate_graph_statistics(&graph, 1).unwrap();
    assert_eq!(stats.mean, Ratio { numerator: 0, denominator: 1 });
    assert_eq!(stats.max, 0);
    assert_eq!(stats.median, Ratio { numerator: 0, denominator: 1 });
}

#[test]
fn graph_statistics_reject_a_missing_source() {
    let graph = Graph::from_edges(vec![(0, 1)]);
    assert_eq!(calculate_graph_statistics(&graph, 2), Err(GraphError::IndexOutOfRange));
}

#[test]
fn graph_statistics_of_the_empty_graph_fail_as_empty() {
    let graph = Graph::from_edges(Vec::new());
    assert_eq!(calculate_graph_statistics(&graph, 0), Err(GraphError::EmptyInputError));
    assert_eq!(calculate_graph_statistics(&graph, 5), Err(GraphError::EmptyInputError));
}

#[test]
fn statistics_module_offers_the_same_search() {
    let graph = Graph::from_edges(vec![(0, 1), (1, 2)]);
    let mut a = Vec::new();
    let mut b = Vec::new();
    assert_eq!(social_graph::stats::distances_bfs(1, &graph, &mut a), Ok(()));
    assert_eq!(social_graph::bfs::distances_bfs(1, &graph, &mut b), Ok(()));
    assert_eq!(a, b);
    assert_eq!(a, vec![Some(1), Some(0), Some(1)]);
}
