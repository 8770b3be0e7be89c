//! Level-order breadth-first traversal of an unweighted graph given as
//! adjacency lists: the start node first, then the nodes one step away, then
//! those two steps away, and so on.

use crate::levels::{
    first_sightings, in_reach, is_hop_distance, is_level_order, is_route, lemma_chain_ends,
    lemma_chain_grows, lemma_extend_route, lemma_levels_are_hop_distances, lemma_nodes_in_grown,
    lemma_pushed_contains, levels_chain, neighbors_in_range, neighbors_of, nodes_in,
    reach_is_closed,
};
use vstd::prelude::*;
use vstd::set_lib::{lemma_int_range, lemma_len_subset, set_int_range};

verus! {

/// Why a traversal was refused.
#[derive(Debug, Clone, Copy, PartialEq, Eq, Structural)]
pub enum BfsError {
    /// The graph has no nodes.
    EmptyGraph,
    /// The start node is not a node of the graph.
    InvalidNodeId,
}

/// The sample graph on five nodes: 0 - 1, 0 - 2, 1 - 3, 2 - 4, each edge in
/// both directions.
pub fn create_sample_graph() -> (graph: Vec<Vec<i32>>)
    ensures
        graph.deep_view() == seq![
            seq![1i32, 2i32],
            seq![0i32, 3i32],
            seq![0i32, 4i32],
            seq![1i32],
            seq![2i32],
        ],
        neighbors_in_range(graph.deep_view()),
{
    let graph: Vec<Vec<i32>> = vec![vec![1, 2], vec![0, 3], vec![0, 4], vec![1], vec![2]];
    proof {
        let expected = seq![
            seq![1i32, 2i32],
            seq![0i32, 3i32],
            seq![0i32, 4i32],
            seq![1i32],
            seq![2i32],
        ];
        assert(graph.deep_view().len() == 5);
        assert forall|u: int| 0 <= u < 5 implies graph.deep_view()[u] == expected[u] by {
            assert(graph@[u].deep_view() =~= expected[u]);
        }
        assert(graph.deep_view() =~= expected);
    }
    graph
}

/// Whether every neighbor named in `graph` is one of its nodes.
pub fn neighbors_valid(graph: &Vec<Vec<i32>>) -> (valid: bool)
    ensures
        valid == neighbors_in_range(graph.deep_view()),
{
    let ghost model = graph.deep_view();
    let node_count: usize = graph.len();
    let mut u: usize = 0;
    while u < node_count
        invariant
            model == graph.deep_view(),
            node_count == graph@.len(),
            u <= node_count,
            forall|v: int, i: int|
                0 <= v < u && 0 <= i < model[v].len() ==> 0 <= #[trigger] model[v][i] < model.len(),
        decreases node_count - u,
    {
        let row = &graph[u];
        assert(row.deep_view() =~= row@);
        let mut i: usize = 0;
        while i < row.len()
            invariant
                model == graph.deep_view(),
                row@ == model[u as int],
                node_count == model.len(),
                u < node_count,
                i <= row@.len(),
                forall|k: int| 0 <= k < i ==> 0 <= #[trigger] model[u as int][k] < model.len(),
            decreases row@.len() - i,
        {
            let neighbor: i32 = row[i];
            if neighbor < 0 || neighbor as usize >= node_count {
                assert(!(0 <= model[u as int][i as int] < model.len()));
                return false;
            }
            i = i + 1;
        }
        u = u + 1;
    }
    true
}

/// The level-order traversal of `graph` from `start_node`: level `k` of the
/// result lists the nodes whose least number of steps from `start_node` is
/// `k`, in the order in which a scan of level `k - 1` first sights them.
///
/// An empty graph is refused with `EmptyGraph`; otherwise a start node outside
/// the graph is refused with `InvalidNodeId`. The neighbors named by the nodes
/// within reach of the start must be nodes of the graph.
pub fn bfs(graph: &Vec<Vec<i32>>, start_node: i32) -> (result: Result<Vec<Vec<i32>>, BfsError>)
    requires
        reach_is_closed(graph.deep_view(), start_node),
    ensures
        graph@.len() == 0 ==> result is Err && result->Err_0 == BfsError::EmptyGraph,
        graph@.len() > 0 && !(0 <= start_node < graph@.len()) ==> result is Err && result->Err_0
            == BfsError::InvalidNodeId,
        0 <= start_node < graph@.len() ==> result is Ok && is_level_order(
            graph.deep_view(),
            start_node,
            result->Ok_0.deep_view(),
        ),
        0 <= start_node < graph@.len() ==> forall|k: int, node: i32|
            (0 <= k < result->Ok_0@.len() && result->Ok_0.deep_view()[k].contains(node))
                <==> #[trigger] is_hop_distance(graph.deep_view(), start_node, node, k),
        0 <= start_node < graph@.len() ==> forall|k: int|
            0 <= k < result->Ok_0@.len() ==> (#[trigger] result->Ok_0.deep_view()[k]).no_duplicates(),
{
    let node_count: usize = graph.len();
    if node_count == 0 {
        return Err(BfsError::EmptyGraph);
    }
    if start_node < 0 || start_node as usize >= node_count {
        return Err(BfsError::InvalidNodeId);
    }
    let ghost model = graph.deep_view();
    let mut visited: Vec<bool> = Vec::new();
    while visited.len() < node_count
        invariant
            visited@.len() <= node_count,
            forall|v: int| 0 <= v < visited@.len() ==> !visited@[v],
        decreases node_count - visited@.len(),
    {
        visited.push(false);
    }
    let mut result: Vec<Vec<i32>> = Vec::new();
    let mut level: Vec<i32> = Vec::new();
    level.push(start_node);
    visited[start_node as usize] = true;
    // The levels found so far, the one being scanned last.
    let ghost mut levels: Seq<Seq<i32>> = seq![level@];
    // The nodes marked as visited.
    let ghost mut marked: Set<int> = Set::<int>::empty().insert(start_node as int);
    proof {
        assert(level@ =~= seq![start_node]);
        assert(is_route(model, level@, start_node, start_node));
        assert(result.deep_view().push(level@) =~= levels);
        assert forall|x: i32| 0 <= x < node_count implies (visited@[x as int] <==> nodes_in(
            levels,
            levels.len() as int,
        ).contains(x)) by {
            lemma_nodes_in_grown(Seq::<Seq<i32>>::empty(), level@, x);
            assert(Seq::<Seq<i32>>::empty().push(level@) =~= levels);
        }
    }
    while level.len() > 0
        invariant
            model == graph.deep_view(),
            reach_is_closed(model, start_node),
            node_count == model.len(),
            visited@.len() == node_count,
            levels == result.deep_view().push(level@),
            levels[0] == seq![start_node],
            levels_chain(model, levels),
            forall|k: int| 0 <= k < levels.len() - 1 ==> (#[trigger] levels[k]).len() > 0,
            forall|x: i32|
                0 <= x < node_count ==> (#[trigger] visited@[x as int] <==> nodes_in(
                    levels,
                    levels.len() as int,
                ).contains(x)),
            forall|i: int|
                0 <= i < level@.len() ==> 0 <= #[trigger] level@[i] < node_count && in_reach(
                    model,
                    start_node,
                    level@[i],
                ),
            marked.finite(),
            forall|v: int| marked.contains(v) <==> 0 <= v < node_count && visited@[v],
        decreases node_count - marked.len(), level@.len(),
    {
        let ghost seen = nodes_in(levels, levels.len() as int);
        let ghost marked_before = marked;
        let mut next: Vec<i32> = Vec::new();
        let mut j: usize = 0;
        proof {
            lemma_int_range(0, node_count as int);
            lemma_len_subset(marked, set_int_range(0, node_count as int));
            assert(level@.take(0) =~= Seq::<i32>::empty());
        }
        while j < level.len()
            invariant
                model == graph.deep_view(),
                reach_is_closed(model, start_node),
                node_count == model.len(),
                visited@.len() == node_count,
                j <= level@.len(),
                forall|i: int|
                    0 <= i < level@.len() ==> 0 <= #[trigger] level@[i] < node_count && in_reach(
                        model,
                        start_node,
                        level@[i],
                    ),
                next@ == first_sightings(neighbors_of(model, level@.take(j as int)), seen),
                forall|x: i32|
                    0 <= x < node_count ==> (#[trigger] visited@[x as int] <==> seen.contains(x)
                        || next@.contains(x)),
                forall|i: int|
                    0 <= i < next@.len() ==> 0 <= #[trigger] next@[i] < node_count && in_reach(
                        model,
                        start_node,
                        next@[i],
                    ),
                marked.finite(),
                forall|v: int| marked.contains(v) <==> 0 <= v < node_count && visited@[v],
                marked.len() == marked_before.len() + next@.len(),
            decreases level@.len() - j,
        {
            let node: i32 = level[j];
            let row = &graph[node as usize];
            let ghost scanned = neighbors_of(model, level@.take(j as int));
            let mut i: usize = 0;
            proof {
                assert(row.deep_view() =~= row@);
                assert(scanned + row@.take(0) =~= scanned);
            }
            while i < row.len()
                invariant
                    reach_is_closed(model, start_node),
                    node_count == model.len(),
                    visited@.len() == node_count,
                    0 <= node < node_count,
                    in_reach(model, start_node, node),
                    row@ == model[node as int],
                    i <= row@.len(),
                    next@ == first_sightings(scanned + row@.take(i as int), seen),
                    forall|x: i32|
                        0 <= x < node_count ==> (#[trigger] visited@[x as int] <==> seen.contains(x)
                            || next@.contains(x)),
                    forall|i: int|
                        0 <= i < next@.len() ==> 0 <= #[trigger] next@[i] < node_count && in_reach(
                            model,
                            start_node,
                            next@[i],
                        ),
                    marked.finite(),
                    forall|v: int| marked.contains(v) <==> 0 <= v < node_count && visited@[v],
                    marked.len() == marked_before.len() + next@.len(),
                decreases row@.len() - i,
            {
                let neighbor: i32 = row[i];
                let ghost next_before = next@;
                proof {
                    assert(0 <= model[node as int][i as int] < node_count);
                    let grown = scanned + row@.take(i + 1);
                    assert(grown.drop_last() =~= scanned + row@.take(i as int));
                    assert(grown.last() == neighbor);
                }
                if !visited[neighbor as usize] {
                    visited[neighbor as usize] = true;
                    next.push(neighbor);
                    proof {
                        marked = marked.insert(neighbor as int);
                        let route = choose|route: Seq<i32>|
                            is_route(model, route, start_node, node);
                        assert(row@[i as int] == neighbor);
                        lemma_extend_route(model, start_node, route, neighbor);
                        assert forall|x: i32| 0 <= x < node_count implies (
                        #[trigger] visited@[x as int] <==> seen.contains(x) || next@.contains(
                            x,
                        )) by {
                            lemma_pushed_contains(next_before, neighbor, x);
                        }
                    }
                }
                i = i + 1;
            }
            proof {
                assert(row@.take(row@.len() as int) =~= row@);
                let upto = level@.take(j + 1);
                assert(upto.drop_last() =~= level@.take(j as int));
                assert(upto.last() == node);
            }
            j = j + 1;
        }
        proof {
            lemma_len_subset(marked, set_int_range(0, node_count as int));
            assert(level@.take(level@.len() as int) =~= level@);
            lemma_chain_grows(model, levels, next@);
            assert forall|x: i32| 0 <= x < node_count implies (#[trigger] visited@[x as int]
                <==> nodes_in(levels.push(next@), levels.len() as int + 1).contains(x)) by {
                lemma_nodes_in_grown(levels, next@, x);
            }
            assert(level.deep_view() =~= level@);
            levels = levels.push(next@);
        }
        result.push(level);
        level = next;
        proof {
            assert(result.deep_view().push(level@) =~= levels);
        }
    }
    proof {
        lemma_chain_ends(model, start_node, levels);
        assert(levels.drop_last() =~= result.deep_view());
        lemma_levels_are_hop_distances(model, start_node, result.deep_view());
    }
    Ok(result)
}

} // verus!
