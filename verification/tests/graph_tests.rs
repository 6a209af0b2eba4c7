use graph_stats::components::{find_connected_components, largest_component_size};
use graph_stats::degree::calculate_degree_centrality;
use graph_stats::graph::Graph;
use graph_stats::parse::{load_graph, parse_edge_line, ParseError};
use graph_stats::paths::{analyze_connectivity_bfs, bfs_distances, distance_pairs, path_length_stats};

#[test]
fn test_add_edge() {
    let mut graph = Graph::new();
    graph.add_edge(1, 2);
    graph.add_edge(2, 3);

    assert_eq!(graph.node_count(), 3);
    assert_eq!(graph.edge_count(), 2);
}

#[test]
fn test_degree_centrality() {
    let mut graph = Graph::new();
    graph.add_edge(1, 2);
    graph.add_edge(1, 3);
    graph.add_edge(1, 4);

    let degrees = calculate_degree_centrality(&graph);

    assert_eq!(degrees[0], (1, 3));
    assert_eq!(degrees[1].1, 1);
    assert_eq!(degrees.len(), 4);
}

#[test]
fn test_connected_components() {
    let mut graph = Graph::new();
    graph.add_edge(1, 2);
    graph.add_edge(3, 4);

    let components = find_connected_components(&graph);

    assert_eq!(components.len(), 2);
}

#[test]
fn test_bfs_shortest_path() {
    let mut graph = Graph::new();
    graph.add_edge(1, 2);
    graph.add_edge(1, 3);
    graph.add_edge(2, 4);
    graph.add_edge(3, 4);

    let expected_distances = vec![(1u32, 0u32), (2, 1), (3, 1), (4, 2)];

    let dist = bfs_distances(&graph, 1);
    let distances = distance_pairs(&graph, &dist);

    assert_eq!(distances, expected_distances);
}

#[test]
fn test_edge_count_is_half_the_degree_sum() {
    let mut graph = Graph::new();
    graph.add_edge(1, 2);
    graph.add_edge(2, 3);
    graph.add_edge(1, 3);

    let mut degree_sum = 0;
    for node in graph.node_list() {
        degree_sum += graph.neighbors(*node).len();
    }
    assert_eq!(degree_sum % 2, 0);
    assert_eq!(graph.edge_count(), degree_sum / 2);
    assert_eq!(graph.edge_count(), 3);
}

#[test]
fn test_add_edge_idempotent() {
    let mut once = Graph::new();
    once.add_edge(1, 2);
    let mut twice = Graph::new();
    twice.add_edge(1, 2);
    twice.add_edge(1, 2);

    assert_eq!(once.neighbors(1), twice.neighbors(1));
    assert_eq!(once.neighbors(2), twice.neighbors(2));
    assert_eq!(twice.node_count(), 2);
    assert_eq!(twice.edge_count(), 1);
}

#[test]
fn test_self_loop_is_admitted() {
    let mut graph = Graph::new();
    graph.add_edge(5, 5);

    assert_eq!(graph.neighbors(5), vec![5]);
    assert_eq!(graph.node_count(), 1);
    // a self-loop contributes one to the degree sum, so it is not a full edge
    assert_eq!(graph.edge_count(), 0);
}

#[test]
fn test_neighbors_of_unknown_node_is_empty() {
    let mut graph = Graph::new();
    graph.add_edge(1, 2);

    assert_eq!(graph.neighbors(42), Vec::<u32>::new());
}

#[test]
fn test_neighbors_are_sorted_ascending() {
    let mut graph = Graph::new();
    graph.add_edge(2, 5);
    graph.add_edge(2, 1);
    graph.add_edge(2, 9);

    assert_eq!(graph.neighbors(2), vec![1, 5, 9]);
}

#[test]
fn test_components_partition_the_node_set() {
    let mut graph = Graph::new();
    graph.add_edge(1, 2);
    graph.add_edge(2, 3);
    graph.add_edge(10, 11);

    let components = find_connected_components(&graph);
    assert_eq!(components.len(), 2);

    let mut all: Vec<u32> = Vec::new();
    for comp in &components {
        for node in comp {
            // disjoint: no node occurs twice over all components
            assert!(!all.contains(node));
            all.push(*node);
        }
    }
    all.sort();
    assert_eq!(all, vec![1, 2, 3, 10, 11]);
}

#[test]
fn test_two_components_of_size_two() {
    let mut graph = Graph::new();
    graph.add_edge(1, 2);
    graph.add_edge(3, 4);

    let components = find_connected_components(&graph);
    assert_eq!(components.len(), 2);
    assert_eq!(components[0].len(), 2);
    assert_eq!(components[1].len(), 2);
    assert_eq!(largest_component_size(&components), 2);
}

#[test]
fn test_degree_ranking_ties_break_by_ascending_node() {
    let mut graph = Graph::new();
    graph.add_edge(3, 4);
    graph.add_edge(1, 2);

    let degrees = calculate_degree_centrality(&graph);
    assert_eq!(degrees, vec![(1, 1), (2, 1), (3, 1), (4, 1)]);
}

#[test]
fn test_bfs_skips_unreachable_nodes() {
    let mut graph = Graph::new();
    graph.add_edge(1, 2);
    graph.add_edge(3, 4);

    let dist = bfs_distances(&graph, 1);
    let distances = distance_pairs(&graph, &dist);
    assert_eq!(distances, vec![(1, 0), (2, 1)]);
}

#[test]
fn test_bfs_from_unknown_source() {
    let mut graph = Graph::new();
    graph.add_edge(1, 2);

    let dist = bfs_distances(&graph, 99);
    let distances = distance_pairs(&graph, &dist);
    assert_eq!(distances, Vec::<(u32, u32)>::new());
}

#[test]
fn test_path_stats_count_at_least_sources() {
    let mut graph = Graph::new();
    graph.add_edge(1, 2);
    graph.add_edge(3, 4);

    let sources = vec![1, 3];
    let (sum, count) = path_length_stats(&graph, &sources);
    // each source reaches itself (0) and its partner (1)
    assert_eq!(count, 4);
    assert_eq!(sum, 2);
    assert!(count >= sources.len() as u128);
}

#[test]
fn test_analyze_sample_capped_at_node_count() {
    let mut graph = Graph::new();
    graph.add_edge(1, 2);
    graph.add_edge(3, 4);

    // a sample size above the node count is capped: all four nodes sampled
    let result = analyze_connectivity_bfs(&graph, 10);
    assert_eq!(result, Some((4, 8)));
}

#[test]
fn test_analyze_uses_a_real_subsample() {
    let mut graph = Graph::new();
    graph.add_edge(1, 2);
    graph.add_edge(3, 4);

    // one source only: its component contributes distances 0 and 1
    let result = analyze_connectivity_bfs(&graph, 1);
    assert_eq!(result, Some((1, 2)));
}

#[test]
fn test_analyze_degenerate_cases() {
    let empty = Graph::new();
    assert_eq!(analyze_connectivity_bfs(&empty, 20), None);

    let mut graph = Graph::new();
    graph.add_edge(1, 2);
    assert_eq!(analyze_connectivity_bfs(&graph, 0), None);
}

#[test]
fn test_parse_skips_comments_and_empty_lines() {
    assert_eq!(parse_edge_line("# a comment"), Ok(None));
    assert_eq!(parse_edge_line(""), Ok(None));
}

#[test]
fn test_parse_edge_record() {
    assert_eq!(parse_edge_line("1\t2"), Ok(Some((1, 2))));
    assert_eq!(parse_edge_line("4294967295\t0"), Ok(Some((u32::MAX, 0))));
}

#[test]
fn test_parse_wrong_field_count() {
    assert_eq!(parse_edge_line("1"), Err(ParseError::WrongFieldCount));
    assert_eq!(parse_edge_line("1\t2\t3"), Err(ParseError::WrongFieldCount));
}

#[test]
fn test_parse_bad_integer() {
    assert_eq!(parse_edge_line("a\t2"), Err(ParseError::BadInteger));
    assert_eq!(parse_edge_line("1\t"), Err(ParseError::BadInteger));
    // one past u32::MAX
    assert_eq!(parse_edge_line("4294967296\t1"), Err(ParseError::BadInteger));
}

#[test]
fn test_load_graph_from_lines() {
    let lines = vec![
        String::from("# comment"),
        String::new(),
        String::from("1\t2"),
        String::from("2\t3"),
        String::from("1\t2"),
    ];
    let graph = load_graph(&lines).unwrap();
    assert_eq!(graph.node_count(), 3);
    assert_eq!(graph.edge_count(), 2);
}

#[test]
fn test_load_graph_fails_on_malformed_line() {
    let lines = vec![String::from("1\t2"), String::from("oops")];
    assert_eq!(load_graph(&lines).err(), Some(ParseError::WrongFieldCount));

    let lines2 = vec![String::from("x\ty")];
    assert_eq!(load_graph(&lines2).err(), Some(ParseError::BadInteger));
}
