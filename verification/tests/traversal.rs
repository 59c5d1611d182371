use graph_bfs::graph::Graph;
use std::collections::HashMap;

fn sample() -> Graph {
    let mut graph = Graph::new();
    let edges = vec![(0, 1), (0, 2), (1, 3), (2, 3), (2, 4), (3, 5), (4, 5)];
    for (from, to) in edges {
        graph.add_edge(from, to);
    }
    graph
}

fn has_edge(edges: &[(usize, usize)], from: usize, to: usize) -> bool {
    edges.iter().any(|&(a, b)| a == from && b == to)
}

#[test]
fn test_bfs_traversal() {
    // sample graph for testing
    let mut graph = Graph::new();
    let edges = vec![(0, 1), (0, 2), (1, 3), (2, 3), (2, 4), (3, 5), (4, 5)];

    // adding edges to the graph
    for (from, to) in edges {
        graph.add_edge(from, to);
    }

    // BFS traversal starting from vertex 0
    let bfs_result = graph.bfs(0);

    // expected BFS traversal result
    let expected_result = vec![0, 1, 2, 3, 4, 5];

    // does the BFS traversal result match the expected result?
    assert_eq!(bfs_result, expected_result);
}

#[test]
fn test_shortest_path() {
    // Sample graph for testing
    let mut graph = Graph::new();
    let edges = vec![(0, 1), (0, 2), (1, 3), (2, 3), (2, 4), (3, 5), (4, 5)];
    for (from, to) in edges {
        graph.add_edge(from, to);
    }

    // Test cases for shortest paths
    let test_cases = vec![
        // vertex 0 to vertex 5
        (0, 5, vec![0, 2, 4, 5]),
        // vertex 1 to vertex 5
        (1, 5, vec![1, 3, 5]),
        // vertex 2 to vertex 5
        (2, 5, vec![2, 4, 5]),
        // vertex 3 to vertex 5
        (3, 5, vec![3, 5]),
    ];

    for (start, end, expected_path) in test_cases {
        if let Some(shortest_path) = graph.shortest_path(start, end) {
            assert_eq!(shortest_path, expected_path);
        } else {
            panic!("No path found from {} to {}", start, end);
        }
    }
}

#[test]
fn distances_of_the_sample_graph() {
    let distances = sample().bfs_distances(0);
    let mut expected = HashMap::new();
    expected.insert(0, 0);
    expected.insert(1, 1);
    expected.insert(2, 1);
    expected.insert(3, 2);
    expected.insert(4, 2);
    expected.insert(5, 3);
    assert_eq!(distances, expected);
}

#[test]
fn distances_leave_out_what_cannot_be_reached() {
    let distances = sample().bfs_distances(3);
    let mut expected = HashMap::new();
    expected.insert(3, 0);
    expected.insert(5, 1);
    assert_eq!(distances, expected);
    assert!(!distances.contains_key(&0));
}

#[test]
fn bfs_order_never_steps_back_in_distance() {
    let graph = sample();
    let order = graph.bfs(0);
    let distances = graph.bfs_distances(0);
    assert_eq!(order.len(), distances.len());
    for pair in order.windows(2) {
        assert!(distances[&pair[0]] <= distances[&pair[1]]);
    }
    let mut sorted = order.clone();
    sorted.sort();
    sorted.dedup();
    assert_eq!(sorted, vec![0, 1, 2, 3, 4, 5]);
}

#[test]
fn bfs_from_a_node_without_edges_is_that_node() {
    assert_eq!(sample().bfs(5), vec![5]);
    assert_eq!(sample().bfs(42), vec![42]);
    assert_eq!(Graph::new().bfs(7), vec![7]);
}

#[test]
fn distances_from_a_node_without_edges_hold_only_that_node() {
    let distances = Graph::new().bfs_distances(7);
    let mut expected = HashMap::new();
    expected.insert(7, 0);
    assert_eq!(distances, expected);
}

#[test]
fn shortest_path_has_the_true_length_and_follows_edges() {
    let edges = vec![(0, 1), (0, 2), (1, 3), (2, 3), (2, 4), (3, 5), (4, 5)];
    let graph = sample();
    let distances = graph.bfs_distances(0);
    for end in 0..6 {
        let path = graph.shortest_path(0, end).unwrap();
        assert_eq!(path.len(), distances[&end] + 1);
        assert_eq!(path[0], 0);
        assert_eq!(path[path.len() - 1], end);
        for pair in path.windows(2) {
            assert!(has_edge(&edges, pair[0], pair[1]));
        }
    }
    assert_eq!(graph.shortest_path(0, 5).unwrap().len(), 4);
}

#[test]
fn shortest_path_between_neighbours() {
    assert_eq!(sample().shortest_path(3, 5), Some(vec![3, 5]));
}

#[test]
fn shortest_path_from_a_node_to_itself() {
    let graph = sample();
    assert_eq!(graph.shortest_path(0, 0), Some(vec![0]));
    assert_eq!(graph.shortest_path(5, 5), Some(vec![5]));
    assert_eq!(graph.shortest_path(99, 99), Some(vec![99]));
    assert_eq!(Graph::new().shortest_path(3, 3), Some(vec![3]));
}

#[test]
fn shortest_path_is_absent_without_a_route() {
    let graph = sample();
    assert_eq!(graph.shortest_path(5, 0), None);
    assert_eq!(graph.shortest_path(3, 4), None);
    assert_eq!(graph.shortest_path(0, 400), None);
    assert_eq!(graph.shortest_path(400, 0), None);
}

#[test]
fn shortest_path_is_absent_exactly_where_no_distance_is_recorded() {
    let graph = sample();
    for start in 0..7 {
        let distances = graph.bfs_distances(start);
        for end in 0..7 {
            assert_eq!(graph.shortest_path(start, end).is_none(), !distances.contains_key(&end));
        }
    }
}

#[test]
fn queries_give_the_same_answer_when_asked_again() {
    let graph = sample();
    assert_eq!(graph.bfs(0), graph.bfs(0));
    assert_eq!(graph.bfs_distances(0), graph.bfs_distances(0));
    assert_eq!(graph.shortest_path(0, 5), graph.shortest_path(0, 5));
    assert_eq!(graph.shortest_path(5, 0), graph.shortest_path(5, 0));
}

#[test]
fn edges_are_directed() {
    let mut graph = Graph::new();
    graph.add_edge(1, 2);
    assert_eq!(graph.shortest_path(1, 2), Some(vec![1, 2]));
    assert_eq!(graph.shortest_path(2, 1), None);
    assert_eq!(graph.bfs(2), vec![2]);
}

#[test]
fn repeated_edges_and_loops_change_nothing() {
    let mut graph = Graph::new();
    graph.add_edge(1, 2);
    graph.add_edge(1, 2);
    graph.add_edge(1, 1);
    graph.add_edge(2, 1);
    assert_eq!(graph.bfs(1), vec![1, 2]);
    let distances = graph.bfs_distances(2);
    let mut expected = HashMap::new();
    expected.insert(2, 0);
    expected.insert(1, 1);
    assert_eq!(distances, expected);
    assert_eq!(graph.shortest_path(2, 1), Some(vec![2, 1]));
}

#[test]
fn a_cycle_is_walked_once() {
    let mut graph = Graph::new();
    graph.add_edge(0, 1);
    graph.add_edge(1, 2);
    graph.add_edge(2, 0);
    graph.add_edge(2, 3);
    assert_eq!(graph.bfs(0), vec![0, 1, 2, 3]);
    assert_eq!(graph.shortest_path(0, 3), Some(vec![0, 1, 2, 3]));
    assert_eq!(graph.shortest_path(1, 0), Some(vec![1, 2, 0]));
}

#[test]
fn average_distance_of_the_sample_graph() {
    let (total, count) = sample().distance_totals(0);
    assert_eq!(total, 9);
    assert_eq!(count, 6);
    assert_eq!(total as f64 / count as f64, 1.5);
}

#[test]
fn totals_from_a_node_without_edges() {
    assert_eq!(Graph::new().distance_totals(3), (0, 1));
    assert_eq!(sample().distance_totals(5), (0, 1));
    assert_eq!(sample().distance_totals(3), (1, 2));
}

#[test]
fn source_count_counts_nodes_with_outgoing_edges() {
    assert_eq!(Graph::new().source_count(), 0);
    assert_eq!(sample().source_count(), 5);
    let mut graph = Graph::new();
    graph.add_edge(8, 9);
    graph.add_edge(8, 9);
    graph.add_edge(8, 8);
    assert_eq!(graph.source_count(), 1);
}

#[test]
fn later_edges_are_tried_first_among_equal_paths() {
    let mut graph = Graph::new();
    graph.add_edge(0, 1);
    graph.add_edge(0, 2);
    graph.add_edge(1, 3);
    graph.add_edge(2, 3);
    assert_eq!(graph.shortest_path(0, 3), Some(vec![0, 2, 3]));
    assert_eq!(graph.bfs(0), vec![0, 1, 2, 3]);
}

#[test]
fn a_longer_chain_has_exact_distances() {
    let mut graph = Graph::new();
    for node in 0..50 {
        graph.add_edge(node, node + 1);
    }
    graph.add_edge(0, 25);
    let distances = graph.bfs_distances(0);
    assert_eq!(distances[&50], 26);
    assert_eq!(distances[&24], 24);
    assert_eq!(distances.len(), 51);
    let path = graph.shortest_path(0, 50).unwrap();
    assert_eq!(path.len(), 27);
    assert_eq!(path[1], 25);
    assert_eq!(graph.bfs(0).len(), 51);
}
