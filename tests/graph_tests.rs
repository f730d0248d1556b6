use road_graph::{Centrality, Graph};

struct TestData {
    origin: usize,
    dest: usize,
}

fn graph_of(edges: &[(usize, usize)]) -> Graph {
    let mut graph = Graph::new();
    for &(from, to) in edges {
        graph.add_edge(from, to);
    }
    graph
}

#[test]
fn test_path() {
    let mut graph = Graph::new();

    let edges = vec![
        TestData { origin: 1, dest: 2 },
        TestData { origin: 2, dest: 3 },
        TestData { origin: 3, dest: 4 },
        TestData { origin: 4, dest: 5 },
        TestData { origin: 5, dest: 6 },
        TestData { origin: 6, dest: 7 },
        TestData { origin: 7, dest: 8 },
        TestData { origin: 8, dest: 9 },
        TestData { origin: 9, dest: 10 },
    ];

    for edge in &edges {
        graph.add_edge(edge.origin, edge.dest);
    }

    let path = graph.bfs_shortest_path(1, 10);
    assert_eq!(path, Some(vec![1, 2, 3, 4, 5, 6, 7, 8, 9, 10]));
}

#[test]
fn test_disconnected_nodes() {
    let mut graph = Graph::new();

    let edges = vec![
        TestData { origin: 1, dest: 2 },
        TestData { origin: 2, dest: 3 },
        TestData { origin: 3, dest: 4 },
        TestData { origin: 4, dest: 5 },
        TestData { origin: 5, dest: 6 },
        TestData { origin: 7, dest: 8 },
    ];

    for edge in &edges {
        graph.add_edge(edge.origin, edge.dest);
    }

    // Node 8 is only connected to node 7
    let start_node = 1;
    let end_node = 8;

    let path = graph.bfs_shortest_path(start_node, end_node);

    assert_eq!(path, None);
}

#[test]
fn empty_graph_has_no_nodes_or_edges() {
    let graph = Graph::new();
    assert_eq!(graph.num_nodes(), 0);
    assert_eq!(graph.num_edges(), 0);
    assert_eq!(graph.out_degree(1), 0);
    assert_eq!(graph.in_degree(1), 0);
    assert!(graph.graph_centralities().is_empty());
}

#[test]
fn degrees_sum_to_edge_count() {
    let edges = [(1, 2), (1, 2), (2, 3), (3, 1), (3, 3), (4, 2)];
    let graph = graph_of(&edges);
    let nodes = [1, 2, 3, 4];
    let out_total: usize = nodes.iter().map(|&n| graph.out_degree(n)).sum();
    let in_total: usize = nodes.iter().map(|&n| graph.in_degree(n)).sum();
    assert_eq!(out_total, 6);
    assert_eq!(in_total, 6);
    assert_eq!(graph.num_edges(), 6);
    for &(from, to) in &edges {
        assert!(graph.out_degree(from) >= 1);
        assert!(graph.in_degree(to) >= 1);
    }
}

#[test]
fn in_degree_counts_parallel_edges() {
    let graph = graph_of(&[(1, 2), (1, 2), (1, 2), (3, 2)]);
    assert_eq!(graph.in_degree(2), 4);
    assert_eq!(graph.out_degree(1), 3);
    assert_eq!(graph.out_degree(2), 0);
}

#[test]
fn self_loop_counts_both_ways() {
    let graph = graph_of(&[(5, 5)]);
    assert_eq!(graph.in_degree(5), 1);
    assert_eq!(graph.out_degree(5), 1);
    assert_eq!(graph.num_nodes(), 1);
}

#[test]
fn repeated_edge_increments_each_time() {
    let mut graph = Graph::new();
    for k in 1..=4 {
        graph.add_edge(7, 9);
        assert_eq!(graph.out_degree(7), k);
        assert_eq!(graph.in_degree(9), k);
        assert_eq!(graph.num_edges(), k);
    }
    assert_eq!(graph.num_nodes(), 1);
}

#[test]
fn destination_only_node_is_not_a_node_of_the_count() {
    let graph = graph_of(&[(1, 2), (1, 3), (2, 3)]);
    assert_eq!(graph.num_nodes(), 2);
    assert_eq!(graph.num_edges(), 3);
}

#[test]
fn path_to_itself_is_single_node() {
    let graph = graph_of(&[(1, 2), (2, 1)]);
    assert_eq!(graph.bfs_shortest_path(1, 1), Some(vec![1]));
    assert_eq!(graph.bfs_shortest_path(2, 2), Some(vec![2]));
    assert_eq!(graph.bfs_shortest_path(42, 42), Some(vec![42]));
    assert_eq!(Graph::new().bfs_shortest_path(0, 0), Some(vec![0]));
}

#[test]
fn path_takes_fewest_edges() {
    let graph = graph_of(&[(1, 2), (2, 3), (3, 4), (4, 5), (1, 4)]);
    let path = graph.bfs_shortest_path(1, 5).unwrap();
    assert_eq!(path, vec![1, 4, 5]);
    for pair in path.windows(2) {
        assert!(graph.bfs_shortest_path(pair[0], pair[1]) == Some(vec![pair[0], pair[1]]));
    }
}

#[test]
fn path_tie_goes_to_first_inserted_neighbour() {
    let graph = graph_of(&[(1, 3), (1, 2), (2, 4), (3, 4)]);
    assert_eq!(graph.bfs_shortest_path(1, 4), Some(vec![1, 3, 4]));
}

#[test]
fn path_follows_edge_direction() {
    let graph = graph_of(&[(1, 2), (2, 3)]);
    assert_eq!(graph.bfs_shortest_path(1, 3), Some(vec![1, 2, 3]));
    assert_eq!(graph.bfs_shortest_path(3, 1), None);
    assert_eq!(graph.bfs_shortest_path(1, 99), None);
}

#[test]
fn chain_path_to_eight() {
    let graph = graph_of(&[(1, 2), (2, 3), (3, 4), (4, 5), (5, 6), (6, 7), (7, 8)]);
    assert_eq!(graph.bfs_shortest_path(1, 8), Some(vec![1, 2, 3, 4, 5, 6, 7, 8]));
    let broken = graph_of(&[(1, 2), (2, 3), (3, 4), (4, 5), (5, 6), (7, 8)]);
    assert_eq!(broken.bfs_shortest_path(1, 8), None);
}

#[test]
fn path_through_cycle_terminates() {
    let graph = graph_of(&[(1, 2), (2, 1), (2, 3), (3, 3), (3, 1)]);
    assert_eq!(graph.bfs_shortest_path(3, 2), Some(vec![3, 1, 2]));
    assert_eq!(graph.bfs_shortest_path(1, 4), None);
}

#[test]
fn centrality_exact_fraction() {
    let graph = graph_of(&[(1, 2), (2, 3), (3, 1), (1, 3)]);
    assert_eq!(graph.centrality(1), Centrality { numerator: 3, denominator: 3 });
    assert_eq!(graph.centrality(2), Centrality { numerator: 2, denominator: 3 });
    assert_eq!(graph.centrality(3), Centrality { numerator: 3, denominator: 3 });
    assert_eq!(graph.centrality(9), Centrality { numerator: 0, denominator: 3 });
}

#[test]
fn centrality_single_source_is_zero() {
    let graph = graph_of(&[(1, 2), (1, 3), (1, 1), (1, 2)]);
    for node in [1, 2, 3, 4] {
        assert_eq!(graph.centrality(node).numerator, 0);
    }
    assert_eq!(Graph::new().centrality(1).numerator, 0);
}

#[test]
fn centralities_cover_sources_only() {
    let graph = graph_of(&[(1, 2), (3, 2), (1, 4), (2, 1)]);
    let all = graph.graph_centralities();
    let mut keys: Vec<usize> = all.keys().copied().collect();
    keys.sort();
    assert_eq!(keys, vec![1, 2, 3]);
    assert!(!all.contains_key(&4));
    assert_eq!(graph.centrality(4), Centrality { numerator: 1, denominator: 3 });
    assert_eq!(all[&1], Centrality { numerator: 3, denominator: 3 });
    assert_eq!(all[&2], Centrality { numerator: 3, denominator: 3 });
    assert_eq!(all[&3], graph.centrality(3));
}
