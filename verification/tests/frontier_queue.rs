use graph_search::frontier::Frontier;

#[test]
fn a_new_frontier_is_empty() {
    let mut frontier = Frontier::new();
    assert!(frontier.is_empty());
    assert_eq!(frontier.len(), 0);
    assert_eq!(frontier.pop(), None);
    assert!(frontier.is_empty());
}

#[test]
fn entries_leave_by_distance() {
    let mut frontier = Frontier::new();
    for entry in [(5u128, 0usize), (1, 1), (9, 2), (3, 3), (7, 4), (2, 5), (8, 6)] {
        frontier.push(entry);
    }
    assert_eq!(frontier.len(), 7);
    let mut out = Vec::new();
    while let Some(entry) = frontier.pop() {
        out.push(entry);
    }
    assert_eq!(
        out,
        vec![(1, 1), (2, 5), (3, 3), (5, 0), (7, 4), (8, 6), (9, 2)]
    );
    assert!(frontier.is_empty());
}

#[test]
fn equal_distances_leave_by_node() {
    let mut frontier = Frontier::new();
    frontier.push((4, 9));
    frontier.push((4, 2));
    frontier.push((4, 5));
    frontier.push((3, 7));
    assert_eq!(frontier.pop(), Some((3, 7)));
    assert_eq!(frontier.pop(), Some((4, 2)));
    assert_eq!(frontier.pop(), Some((4, 5)));
    assert_eq!(frontier.pop(), Some((4, 9)));
    assert_eq!(frontier.pop(), None);
}

#[test]
fn repeated_entries_are_all_kept() {
    let mut frontier = Frontier::new();
    frontier.push((2, 1));
    frontier.push((2, 1));
    frontier.push((0, 3));
    frontier.push((2, 1));
    assert_eq!(frontier.len(), 4);
    assert_eq!(frontier.pop(), Some((0, 3)));
    assert_eq!(frontier.pop(), Some((2, 1)));
    assert_eq!(frontier.pop(), Some((2, 1)));
    assert_eq!(frontier.pop(), Some((2, 1)));
    assert_eq!(frontier.len(), 0);
}

#[test]
fn pushes_and_pops_may_alternate() {
    let mut frontier = Frontier::new();
    frontier.push((10, 0));
    frontier.push((4, 1));
    assert_eq!(frontier.pop(), Some((4, 1)));
    frontier.push((6, 2));
    frontier.push((u128::MAX, 3));
    frontier.push((0, usize::MAX));
    assert_eq!(frontier.pop(), Some((0, usize::MAX)));
    assert_eq!(frontier.pop(), Some((6, 2)));
    assert_eq!(frontier.pop(), Some((10, 0)));
    assert_eq!(frontier.pop(), Some((u128::MAX, 3)));
    assert!(frontier.is_empty());
}

#[test]
fn many_entries_come_out_sorted() {
    let mut frontier = Frontier::new();
    let mut expected = Vec::new();
    let mut seed: u64 = 12345;
    for node in 0..500usize {
        seed = seed.wrapping_mul(6364136223846793005).wrapping_add(1442695040888963407);
        let distance = (seed >> 40) as u128 % 64;
        frontier.push((distance, node));
        expected.push((distance, node));
    }
    expected.sort();
    let mut out = Vec::new();
    while let Some(entry) = frontier.pop() {
        out.push(entry);
    }
    assert_eq!(out, expected);
}
