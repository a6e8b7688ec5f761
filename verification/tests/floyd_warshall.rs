use floyd_warshall::FloydWarshall;
use floyd_warshall::Graph;
use floyd_warshall::SolveError;
use floyd_warshall::create_negative_cycle_graph;
use floyd_warshall::create_sample_graph;

#[test]
fn test_floyd_warshall_basic() {
    let graph = create_sample_graph();
    let mut fw = FloydWarshall::new(graph);

    assert!(fw.solve().is_ok());

    assert_eq!(fw.get_distance(0, 1), Some(3));
    assert_eq!(fw.get_distance(0, 2), Some(1)); // 0->1->2 = 3+(-2) = 1
    assert_eq!(fw.get_distance(0, 3), Some(3)); // 0->1->2->3 = 3+(-2)+2 = 3
}

#[test]
fn test_floyd_warshall_negative_cycle() {
    let graph = create_negative_cycle_graph();
    let mut fw = FloydWarshall::new(graph);

    assert!(fw.solve().is_err());
    assert!(fw.has_negative_cycle());
}

#[test]
fn test_path_reconstruction() {
    let graph = create_sample_graph();
    let mut fw = FloydWarshall::new(graph);

    assert!(fw.solve().is_ok());

    let path = fw.get_path(0, 3);
    assert!(path.is_some());
    let path = path.unwrap();
    assert_eq!(path[0], 0);
    assert_eq!(path[path.len() - 1], 3);
}

#[test]
fn sample_graph_distances_and_path() {
    let mut fw = FloydWarshall::new(create_sample_graph());
    assert!(fw.solve().is_ok());
    assert_eq!(fw.get_distance(0, 1), Some(3));
    assert_eq!(fw.get_distance(0, 2), Some(1));
    assert_eq!(fw.get_distance(0, 3), Some(3));
    assert_eq!(fw.get_path(0, 3), Some(vec![0, 1, 2, 3]));
    assert!(!fw.has_negative_cycle());
}

#[test]
fn negative_cycle_reported_with_vertex() {
    let mut fw = FloydWarshall::new(create_negative_cycle_graph());
    assert_eq!(fw.solve(), Err(SolveError::NegativeCycle { vertex: 0 }));
    assert!(fw.has_negative_cycle());
}

#[test]
fn diagonal_distances_are_zero_after_success() {
    let mut fw = FloydWarshall::new(create_sample_graph());
    assert!(fw.solve().is_ok());
    for i in 0..4 {
        assert_eq!(fw.get_distance(i, i), Some(0));
    }
}

#[test]
fn path_to_self_is_single_vertex() {
    let mut fw = FloydWarshall::new(create_sample_graph());
    assert!(fw.solve().is_ok());
    for i in 0..4 {
        assert_eq!(fw.get_path(i, i), Some(vec![i]));
    }
}

#[test]
fn path_endpoints_and_weight_sum_match_distance() {
    let graph = create_sample_graph();
    let adjacency = graph.get_adjacency_matrix().clone();
    let mut fw = FloydWarshall::new(graph);
    assert!(fw.solve().is_ok());
    for u in 0..4 {
        for v in 0..4 {
            let distance = match fw.get_distance(u, v) {
                Some(d) => d,
                None => continue,
            };
            let path = fw.get_path(u, v).expect("a known distance must have a path");
            assert_eq!(path[0], u);
            assert_eq!(path[path.len() - 1], v);
            let mut sum = 0i64;
            for w in path.windows(2) {
                let weight = adjacency[w[0]][w[1]].expect("path steps must be edges");
                sum += i64::from(weight);
            }
            assert_eq!(sum, i64::from(distance));
        }
    }
}

#[test]
fn out_of_range_edge_insertion_has_no_effect() {
    let mut graph = Graph::new(4);
    graph.add_edge(0, 1, 3);
    let before = graph.get_adjacency_matrix().clone();
    graph.add_edge(4, 0, 7);
    graph.add_edge(0, 4, 7);
    graph.add_edge(9, 9, -5);
    assert_eq!(graph.get_adjacency_matrix(), &before);

    let mut fw = FloydWarshall::new(graph);
    assert!(fw.solve().is_ok());
    assert_eq!(fw.get_distance(0, 1), Some(3));
    assert_eq!(fw.get_distance(1, 0), None);
}

#[test]
fn new_graph_has_zero_diagonal_and_no_edges() {
    let graph = Graph::new(3);
    assert_eq!(graph.vertices(), 3);
    let adjacency = graph.get_adjacency_matrix();
    for i in 0..3 {
        for j in 0..3 {
            if i == j {
                assert_eq!(adjacency[i][j], Some(0));
            } else {
                assert_eq!(adjacency[i][j], None);
            }
        }
    }
}

#[test]
fn edge_insertion_overwrites_even_the_diagonal() {
    let mut graph = Graph::new(2);
    graph.add_edge(0, 0, 5);
    graph.add_edge(0, 1, 2);
    graph.add_edge(0, 1, 9);
    let adjacency = graph.get_adjacency_matrix();
    assert_eq!(adjacency[0][0], Some(5));
    assert_eq!(adjacency[0][1], Some(9));
}

#[test]
fn undirected_edge_goes_both_ways() {
    let mut graph = Graph::new(3);
    graph.add_undirected_edge(0, 2, 4);
    let mut fw = FloydWarshall::new(graph);
    assert!(fw.solve().is_ok());
    assert_eq!(fw.get_distance(0, 2), Some(4));
    assert_eq!(fw.get_distance(2, 0), Some(4));
    assert_eq!(fw.get_distance(0, 1), None);
}

#[test]
fn queries_out_of_range_return_none() {
    let mut fw = FloydWarshall::new(create_sample_graph());
    assert!(fw.solve().is_ok());
    assert_eq!(fw.get_distance(4, 0), None);
    assert_eq!(fw.get_distance(0, 4), None);
    assert_eq!(fw.get_path(4, 0), None);
    assert_eq!(fw.get_path(0, 4), None);
}

#[test]
fn unreachable_pair_has_no_path() {
    let mut graph = Graph::new(2);
    graph.add_edge(0, 1, 7);
    let mut fw = FloydWarshall::new(graph);
    assert!(fw.solve().is_ok());
    assert_eq!(fw.get_distance(1, 0), None);
    assert_eq!(fw.get_path(1, 0), None);
    assert_eq!(fw.get_path(0, 1), Some(vec![0, 1]));
}

#[test]
fn overflowing_distance_sum_is_an_error() {
    let mut graph = Graph::new(2);
    graph.add_edge(0, 1, 2_000_000_000);
    graph.add_edge(1, 0, 2_000_000_000);
    let mut fw = FloydWarshall::new(graph);
    assert_eq!(fw.solve(), Err(SolveError::Overflow));
}

#[test]
fn empty_graph_solves() {
    let mut fw = FloydWarshall::new(Graph::new(0));
    assert!(fw.solve().is_ok());
    assert!(!fw.has_negative_cycle());
    assert_eq!(fw.get_distance(0, 0), None);
    assert_eq!(fw.get_path(0, 0), None);
}

#[test]
fn relaxation_is_idempotent_on_solved_distances() {
    let mut fw = FloydWarshall::new(create_sample_graph());
    assert!(fw.solve().is_ok());
    let first: Vec<Vec<Option<i32>>> =
        (0..4).map(|u| (0..4).map(|v| fw.get_distance(u, v)).collect()).collect();
    assert!(fw.solve().is_ok());
    let second: Vec<Vec<Option<i32>>> =
        (0..4).map(|u| (0..4).map(|v| fw.get_distance(u, v)).collect()).collect();
    assert_eq!(first, second);
}
