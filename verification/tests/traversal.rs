use graph_search::bfs::{bfs, create_sample_graph, neighbors_valid, BfsError};

#[test]
fn integration_test_test_bfs() -> Result<(), BfsError> {
    let graph = create_sample_graph();

    // Test BFS starting from node 0
    let result = bfs(&graph, 0)?;
    assert_eq!(result.len(), 3);
    assert_eq!(result[0], vec![0]);
    assert_eq!(result[1], vec![1, 2]);
    assert_eq!(result[2], vec![3, 4]);

    // Test error handling - empty graph
    let empty_result = bfs(&vec![], 0);
    assert!(matches!(empty_result, Err(BfsError::EmptyGraph)));

    // Test error handling - invalid node ID
    let invalid_node_result = bfs(&graph, 10);
    assert!(matches!(invalid_node_result, Err(BfsError::InvalidNodeId)));

    Ok(())
}

#[test]
fn tests_test_bfs() -> Result<(), BfsError> {
    // Node 0 with edges to nodes 1 and 2.
    let graph = vec![vec![1, 2], vec![], vec![]];

    let result = bfs(&graph, 0)?;
    assert!(!result.is_empty());
    Ok(())
}

#[test]
fn sample_graph_has_five_nodes() {
    let graph = create_sample_graph();
    assert_eq!(
        graph,
        vec![vec![1, 2], vec![0, 3], vec![0, 4], vec![1], vec![2]]
    );
    assert!(neighbors_valid(&graph));
}

#[test]
fn bfs_from_a_leaf_of_the_sample_graph() {
    let graph = create_sample_graph();
    assert_eq!(
        bfs(&graph, 3),
        Ok(vec![vec![3], vec![1], vec![0], vec![2], vec![4]])
    );
}

#[test]
fn bfs_of_a_single_node() {
    assert_eq!(bfs(&vec![vec![]], 0), Ok(vec![vec![0]]));
}

#[test]
fn bfs_ignores_self_loops_and_repeated_edges() {
    let graph = vec![vec![0, 1, 1, 2], vec![1, 2, 0], vec![2]];
    assert_eq!(bfs(&graph, 0), Ok(vec![vec![0], vec![1, 2]]));
}

#[test]
fn bfs_leaves_out_what_cannot_be_reached() {
    let graph = vec![vec![1], vec![], vec![0], vec![2]];
    assert_eq!(bfs(&graph, 0), Ok(vec![vec![0], vec![1]]));
    assert_eq!(bfs(&graph, 3), Ok(vec![vec![3], vec![2], vec![0], vec![1]]));
}

#[test]
fn bfs_orders_a_level_by_first_sighting() {
    // 0 sees 3 then 1; 3 sees 4 then 2; 1 sees 2 then 5.
    let graph = vec![
        vec![3, 1],
        vec![2, 5],
        vec![],
        vec![4, 2],
        vec![],
        vec![],
    ];
    assert_eq!(
        bfs(&graph, 0),
        Ok(vec![vec![0], vec![3, 1], vec![4, 2, 5]])
    );
}

#[test]
fn bfs_around_a_cycle() {
    let graph = vec![vec![1], vec![2], vec![3], vec![0]];
    assert_eq!(
        bfs(&graph, 2),
        Ok(vec![vec![2], vec![3], vec![0], vec![1]])
    );
}

#[test]
fn bfs_refuses_a_negative_start() {
    let graph = create_sample_graph();
    assert_eq!(bfs(&graph, -1), Err(BfsError::InvalidNodeId));
    assert_eq!(bfs(&graph, 5), Err(BfsError::InvalidNodeId));
    assert_eq!(bfs(&graph, i32::MIN), Err(BfsError::InvalidNodeId));
}

#[test]
fn bfs_refuses_an_empty_graph_whatever_the_start() {
    assert_eq!(bfs(&vec![], 0), Err(BfsError::EmptyGraph));
    assert_eq!(bfs(&vec![], -3), Err(BfsError::EmptyGraph));
}

#[test]
fn bfs_twice_gives_the_same_levels() {
    let graph = create_sample_graph();
    assert_eq!(bfs(&graph, 4), bfs(&graph, 4));
}

#[test]
fn neighbors_valid_finds_strangers() {
    assert!(neighbors_valid(&vec![]));
    assert!(neighbors_valid(&vec![vec![], vec![0, 1]]));
    assert!(!neighbors_valid(&vec![vec![1], vec![2]]));
    assert!(!neighbors_valid(&vec![vec![-1]]));
    assert!(!neighbors_valid(&vec![vec![0], vec![0, 1, 7]]));
}

#[test]
fn bfs_does_not_mind_strangers_out_of_reach() {
    // Node 2 names a neighbor that is no node, but nothing leads to node 2.
    let graph = vec![vec![1], vec![0], vec![99, -4]];
    assert!(!neighbors_valid(&graph));
    assert_eq!(bfs(&graph, 0), Ok(vec![vec![0], vec![1]]));
    assert_eq!(bfs(&graph, 3), Err(BfsError::InvalidNodeId));
}

#[test]
fn bfs_levels_count_the_steps() {
    // A chain 0 -> 1 -> 2 -> 3 with a shortcut 0 -> 2.
    let graph = vec![vec![1, 2], vec![2], vec![3], vec![]];
    assert_eq!(bfs(&graph, 0), Ok(vec![vec![0], vec![1, 2], vec![3]]));
    assert_eq!(bfs(&graph, 1), Ok(vec![vec![1], vec![2], vec![3]]));
}
