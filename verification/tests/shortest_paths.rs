use graph_search::graph::{Graph, GraphError};

fn scenario() -> Graph {
    let mut graph = Graph::new(6);
    graph.add_edge(0, 1, 4).unwrap();
    graph.add_edge(0, 2, 2).unwrap();
    graph.add_edge(1, 3, 5).unwrap();
    graph.add_edge(2, 3, 1).unwrap();
    graph.add_edge(1, 4, 10).unwrap();
    graph.add_edge(3, 4, 2).unwrap();
    graph.add_edge(3, 5, 3).unwrap();
    graph.add_edge(2, 5, 8).unwrap();
    graph.add_edge(4, 5, 6).unwrap();
    graph
}

/// Follows every path that repeats no node from `node` on, and records for
/// each node met the least weight at which any of these paths met it.
fn follow(
    edges: &[(usize, usize, i64)],
    node: usize,
    weight: u128,
    on_path: &mut Vec<bool>,
    best: &mut Vec<Option<u128>>,
) {
    if best[node].map_or(true, |known| weight < known) {
        best[node] = Some(weight);
    }
    on_path[node] = true;
    for &(from, to, step) in edges {
        if from == node && !on_path[to] {
            follow(edges, to, weight + step as u128, on_path, best);
        }
    }
    on_path[node] = false;
}

/// The least weight of a path from `source` to each node, by enumerating the paths.
fn by_enumeration(
    edges: &[(usize, usize, i64)],
    node_count: usize,
    source: usize,
) -> Vec<Option<u128>> {
    let mut best: Vec<Option<u128>> = vec![None; node_count];
    let mut on_path = vec![false; node_count];
    follow(edges, source, 0, &mut on_path, &mut best);
    best
}

fn generated(seed: u64, node_count: usize, edge_count: usize) -> Vec<(usize, usize, i64)> {
    let mut state = seed;
    let mut next = move || {
        state = state.wrapping_mul(6364136223846793005).wrapping_add(1442695040888963407);
        (state >> 33) as usize
    };
    let mut edges = Vec::new();
    for _ in 0..edge_count {
        let from = next() % node_count;
        let to = next() % node_count;
        let weight = (next() % 20) as i64;
        edges.push((from, to, weight));
    }
    edges
}

fn build(edges: &[(usize, usize, i64)], node_count: usize) -> Graph {
    let mut graph = Graph::new(node_count);
    for &(from, to, weight) in edges {
        assert_eq!(graph.add_edge(from, to, weight), Ok(()));
    }
    graph
}

#[test]
fn six_node_scenario() {
    let graph = scenario();
    assert_eq!(
        graph.dijkstra(0),
        Ok(vec![Some(0), Some(4), Some(2), Some(3), Some(5), Some(6)])
    );
}

#[test]
fn six_node_scenario_from_other_sources() {
    let graph = scenario();
    assert_eq!(
        graph.dijkstra(1),
        Ok(vec![None, Some(0), None, Some(5), Some(7), Some(8)])
    );
    assert_eq!(
        graph.dijkstra(5),
        Ok(vec![None, None, None, None, None, Some(0)])
    );
}

#[test]
fn the_source_is_at_distance_zero() {
    let graph = scenario();
    for source in 0..6 {
        assert_eq!(graph.dijkstra(source).unwrap()[source], Some(0));
    }
    let mut looped = Graph::new(2);
    looped.add_edge(0, 0, 7).unwrap();
    looped.add_edge(0, 1, 1).unwrap();
    looped.add_edge(1, 0, 1).unwrap();
    assert_eq!(looped.dijkstra(0), Ok(vec![Some(0), Some(1)]));
}

#[test]
fn distances_match_path_enumeration() {
    for seed in 0..40u64 {
        let node_count = 1 + (seed as usize % 6);
        let edge_count = (seed as usize * 3) % 14;
        let edges = generated(seed + 1, node_count, edge_count);
        let graph = build(&edges, node_count);
        for source in 0..node_count {
            assert_eq!(
                graph.dijkstra(source),
                Ok(by_enumeration(&edges, node_count, source))
            );
        }
    }
}

#[test]
fn unreachable_nodes_have_no_distance() {
    let mut graph = Graph::new(4);
    graph.add_edge(0, 1, 3).unwrap();
    graph.add_edge(2, 3, 1).unwrap();
    graph.add_edge(3, 0, 1).unwrap();
    assert_eq!(graph.dijkstra(0), Ok(vec![Some(0), Some(3), None, None]));
    assert_eq!(
        Graph::new(3).dijkstra(1),
        Ok(vec![None, Some(0), None])
    );
}

#[test]
fn zero_weight_edges_cost_nothing() {
    let mut graph = Graph::new(4);
    graph.add_edge(0, 1, 0).unwrap();
    graph.add_edge(1, 2, 0).unwrap();
    graph.add_edge(2, 0, 0).unwrap();
    graph.add_edge(2, 3, 5).unwrap();
    assert_eq!(
        graph.dijkstra(0),
        Ok(vec![Some(0), Some(0), Some(0), Some(5)])
    );
}

#[test]
fn parallel_edges_are_all_kept_and_the_lightest_counts() {
    let mut graph = Graph::new(2);
    graph.add_edge(0, 1, 9).unwrap();
    graph.add_edge(0, 1, 4).unwrap();
    graph.add_edge(0, 1, 6).unwrap();
    assert_eq!(
        graph.edges_from(0),
        Some(&vec![(1usize, 9u64), (1, 4), (1, 6)])
    );
    assert_eq!(graph.dijkstra(0), Ok(vec![Some(0), Some(4)]));
}

#[test]
fn edges_are_directed() {
    let mut graph = Graph::new(2);
    graph.add_edge(0, 1, 1).unwrap();
    assert_eq!(graph.dijkstra(1), Ok(vec![None, Some(0)]));
}

#[test]
fn an_added_edge_never_lengthens_a_distance() {
    let edges = generated(77, 6, 9);
    let mut graph = build(&edges, 6);
    let before = graph.dijkstra(0).unwrap();
    graph.add_edge(4, 2, 0).unwrap();
    let with_free_edge = graph.dijkstra(0).unwrap();
    graph.add_edge(0, 5, 3).unwrap();
    let with_both = graph.dijkstra(0).unwrap();
    for node in 0..6 {
        if let Some(old) = before[node] {
            assert!(with_free_edge[node].unwrap() <= old);
        }
        if let Some(old) = with_free_edge[node] {
            assert!(with_both[node].unwrap() <= old);
        }
    }
}

#[test]
fn a_zero_weight_edge_shortens_only_what_it_leads_to() {
    let mut graph = scenario();
    let before = graph.dijkstra(0).unwrap();
    // 5 leads nowhere, so an edge into it changes only its own distance.
    graph.add_edge(0, 5, 0).unwrap();
    assert_eq!(
        graph.dijkstra(0),
        Ok(vec![Some(0), Some(4), Some(2), Some(3), Some(5), Some(0)])
    );
    // An edge that closes no shorter walk changes nothing.
    let mut other = scenario();
    other.add_edge(5, 4, 0).unwrap();
    assert_eq!(other.dijkstra(0).unwrap(), before);
}

#[test]
fn a_query_repeated_gives_the_same_table() {
    let graph = scenario();
    let first = graph.dijkstra(0);
    let second = graph.dijkstra(0);
    assert_eq!(first, second);
    let edges = generated(5, 7, 15);
    let built = build(&edges, 7);
    assert_eq!(built.dijkstra(3), built.dijkstra(3));
}

#[test]
fn a_source_outside_the_graph_is_refused() {
    let graph = scenario();
    assert_eq!(graph.dijkstra(6), Err(GraphError::NodeOutOfRange));
    assert_eq!(graph.dijkstra(usize::MAX), Err(GraphError::NodeOutOfRange));
    assert_eq!(Graph::new(0).dijkstra(0), Err(GraphError::NodeOutOfRange));
}

#[test]
fn add_edge_refuses_an_endpoint_outside_the_graph() {
    let mut graph = scenario();
    let before = graph.dijkstra(0);
    assert_eq!(graph.add_edge(6, 0, 1), Err(GraphError::NodeOutOfRange));
    assert_eq!(graph.add_edge(0, 6, 1), Err(GraphError::NodeOutOfRange));
    assert_eq!(graph.add_edge(9, 9, 1), Err(GraphError::NodeOutOfRange));
    assert_eq!(graph.add_edge(0, usize::MAX, 0), Err(GraphError::NodeOutOfRange));
    assert_eq!(graph.node_count(), 6);
    assert_eq!(graph.edges_from(0), Some(&vec![(1usize, 4u64), (2, 2)]));
    assert_eq!(graph.edges_from(5), Some(&vec![]));
    assert_eq!(graph.dijkstra(0), before);
}

#[test]
fn add_edge_refuses_a_negative_weight() {
    let mut graph = scenario();
    let before = graph.dijkstra(0);
    assert_eq!(graph.add_edge(0, 5, -1), Err(GraphError::InvalidWeight));
    assert_eq!(graph.add_edge(2, 2, i64::MIN), Err(GraphError::InvalidWeight));
    assert_eq!(graph.edges_from(0), Some(&vec![(1usize, 4u64), (2, 2)]));
    assert_eq!(graph.edges_from(2), Some(&vec![(3usize, 1u64), (5, 8)]));
    assert_eq!(graph.dijkstra(0), before);
}

#[test]
fn an_endpoint_outside_the_graph_is_reported_before_a_negative_weight() {
    let mut graph = Graph::new(1);
    assert_eq!(graph.add_edge(0, 1, -5), Err(GraphError::NodeOutOfRange));
    assert_eq!(graph.add_edge(0, 0, -5), Err(GraphError::InvalidWeight));
    assert_eq!(graph.edges_from(0), Some(&vec![]));
}

#[test]
fn add_edge_keeps_insertion_order() {
    let mut graph = Graph::new(3);
    assert_eq!(graph.add_edge(1, 2, 5), Ok(()));
    assert_eq!(graph.add_edge(1, 0, 0), Ok(()));
    assert_eq!(graph.add_edge(1, 2, i64::MAX), Ok(()));
    assert_eq!(
        graph.edges_from(1),
        Some(&vec![(2usize, 5u64), (0, 0), (2, i64::MAX as u64)])
    );
    assert_eq!(graph.edges_from(0), Some(&vec![]));
    assert_eq!(graph.edges_from(3), None);
}

#[test]
fn a_new_graph_has_its_nodes_and_no_edges() {
    let graph = Graph::new(4);
    assert_eq!(graph.node_count(), 4);
    for node in 0..4 {
        assert_eq!(graph.edges_from(node), Some(&vec![]));
    }
    assert_eq!(graph.edges_from(4), None);
    assert_eq!(Graph::new(0).node_count(), 0);
}

#[test]
fn create_refuses_a_negative_count() {
    assert!(matches!(Graph::create(-1), Err(GraphError::InvalidSize)));
    assert!(matches!(Graph::create(i64::MIN), Err(GraphError::InvalidSize)));
    let graph = Graph::create(3).unwrap();
    assert_eq!(graph.node_count(), 3);
    assert_eq!(graph.edges_from(2), Some(&vec![]));
    assert_eq!(Graph::create(0).unwrap().node_count(), 0);
}

#[test]
fn heavy_edges_add_up_without_overflow() {
    let mut graph = Graph::new(4);
    graph.add_edge(0, 1, i64::MAX).unwrap();
    graph.add_edge(1, 2, i64::MAX).unwrap();
    graph.add_edge(2, 3, i64::MAX).unwrap();
    let heavy = i64::MAX as u128;
    assert_eq!(
        graph.dijkstra(0),
        Ok(vec![Some(0), Some(heavy), Some(2 * heavy), Some(3 * heavy)])
    );
}

#[test]
fn a_later_shortcut_replaces_a_tentative_distance() {
    // 3 is first reached at 10 through 0 -> 3 and then at 3 through 0 -> 1 -> 2 -> 3.
    let mut graph = Graph::new(4);
    graph.add_edge(0, 3, 10).unwrap();
    graph.add_edge(0, 1, 1).unwrap();
    graph.add_edge(1, 2, 1).unwrap();
    graph.add_edge(2, 3, 1).unwrap();
    assert_eq!(
        graph.dijkstra(0),
        Ok(vec![Some(0), Some(1), Some(2), Some(3)])
    );
}
