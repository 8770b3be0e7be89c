//! Level-order traversals as mathematics: what the levels of a traversal are,
//! and why level `k` holds exactly the nodes `k` steps from the start.

use vstd::prelude::*;

verus! {

/// Every neighbor named in `graph` is one of its nodes.
pub open spec fn neighbors_in_range(graph: Seq<Seq<i32>>) -> bool {
    forall|u: int, i: int|
        0 <= u < graph.len() && 0 <= i < graph[u].len() ==> 0 <= #[trigger] graph[u][i]
            < graph.len()
}

/// The neighbors of the nodes of `level`, in the order in which a scan of the
/// level and of each node's adjacency list meets them.
pub open spec fn neighbors_of(graph: Seq<Seq<i32>>, level: Seq<i32>) -> Seq<i32>
    decreases level.len(),
{
    if level.len() == 0 {
        Seq::empty()
    } else {
        neighbors_of(graph, level.drop_last()) + graph[level.last() as int]
    }
}

/// The nodes of `candidates` that are not in `seen`, each once, in the order
/// in which they first occur.
pub open spec fn first_sightings(candidates: Seq<i32>, seen: Set<i32>) -> Seq<i32>
    decreases candidates.len(),
{
    if candidates.len() == 0 {
        Seq::empty()
    } else {
        let earlier = first_sightings(candidates.drop_last(), seen);
        let node = candidates.last();
        if seen.contains(node) || earlier.contains(node) {
            earlier
        } else {
            earlier.push(node)
        }
    }
}

/// The nodes that occur in the first `count` levels.
pub open spec fn nodes_in(levels: Seq<Seq<i32>>, count: int) -> Set<i32> {
    Set::new(
        |node: i32| exists|k: int| 0 <= k < count && k < levels.len() && levels[k].contains(node),
    )
}

/// Each level after the first lists the nodes first sighted from the level before.
pub open spec fn levels_chain(graph: Seq<Seq<i32>>, levels: Seq<Seq<i32>>) -> bool {
    forall|k: int|
        0 < k < levels.len() ==> #[trigger] levels[k] == first_sightings(
            neighbors_of(graph, levels[k - 1]),
            nodes_in(levels, k),
        )
}

/// `levels` is the level-order traversal of `graph` from `start`: the first
/// level is the start node alone; each later level lists, in order of first
/// sighting, the nodes that are neighbors of the level before and occur in no
/// level up to it; no level is empty; and nothing new can be sighted from the
/// last level.
pub open spec fn is_level_order(graph: Seq<Seq<i32>>, start: i32, levels: Seq<Seq<i32>>) -> bool {
    &&& levels.len() > 0
    &&& levels[0] == seq![start]
    &&& levels_chain(graph, levels)
    &&& forall|k: int| 0 <= k < levels.len() ==> (#[trigger] levels[k]).len() > 0
    &&& first_sightings(
        neighbors_of(graph, levels.last()),
        nodes_in(levels, levels.len() as int),
    ).len() == 0
}

/// `route` names the nodes passed on a way from `start` to `end`, each a
/// neighbor of the one before it. A way of no steps names its one node.
pub open spec fn is_route(graph: Seq<Seq<i32>>, route: Seq<i32>, start: i32, end: i32) -> bool {
    &&& route.len() > 0
    &&& route[0] == start
    &&& route.last() == end
    &&& forall|i: int| 0 <= i < route.len() ==> 0 <= #[trigger] route[i] < graph.len()
    &&& forall|i: int|
        0 < i < route.len() ==> graph[route[i - 1] as int].contains(#[trigger] route[i])
}

/// `steps` is the least number of steps in which `node` can be reached from
/// `start`: some route takes that many, and none takes fewer.
pub open spec fn is_hop_distance(graph: Seq<Seq<i32>>, start: i32, node: i32, steps: int) -> bool {
    &&& exists|route: Seq<i32>| is_route(graph, route, start, node) && route.len() == steps + 1
    &&& forall|route: Seq<i32>| is_route(graph, route, start, node) ==> route.len() >= steps + 1
}

/// Some route leads from `start` to `node`.
pub open spec fn in_reach(graph: Seq<Seq<i32>>, start: i32, node: i32) -> bool {
    exists|route: Seq<i32>| is_route(graph, route, start, node)
}

/// Every neighbor named by a node within reach of `start` is a node of `graph`.
pub open spec fn reach_is_closed(graph: Seq<Seq<i32>>, start: i32) -> bool {
    forall|node: i32, i: int|
        in_reach(graph, start, node) && 0 <= i < graph[node as int].len() ==> 0
            <= #[trigger] graph[node as int][i] < graph.len()
}

/// Where every neighbor is a node, so is every neighbor within reach of any start.
pub proof fn lemma_neighbors_in_range_close_reach(graph: Seq<Seq<i32>>, start: i32)
    requires
        neighbors_in_range(graph),
    ensures
        reach_is_closed(graph, start),
{
    assert forall|node: i32, i: int|
        in_reach(graph, start, node) && 0 <= i < graph[node as int].len() implies 0
        <= #[trigger] graph[node as int][i] < graph.len() by {
        let route = choose|route: Seq<i32>| is_route(graph, route, start, node);
        assert(route[route.len() - 1] == node);
    }
}

/// A route extended by a neighbor of its end is a route to that neighbor.
pub(crate) proof fn lemma_extend_route(graph: Seq<Seq<i32>>, start: i32, route: Seq<i32>, node: i32)
    requires
        is_route(graph, route, start, route.last()),
        graph[route.last() as int].contains(node),
        0 <= node < graph.len(),
    ensures
        is_route(graph, route.push(node), start, node),
{
    let longer = route.push(node);
    assert forall|i: int| 0 < i < longer.len() implies graph[longer[i - 1] as int].contains(
        #[trigger] longer[i],
    ) by {
        if i < route.len() {
            assert(graph[route[i - 1] as int].contains(route[i]));
        }
    }
}

/// A first sighting is a candidate that had not been seen.
proof fn lemma_first_sightings_are_new(candidates: Seq<i32>, seen: Set<i32>, node: i32)
    requires
        first_sightings(candidates, seen).contains(node),
    ensures
        candidates.contains(node),
        !seen.contains(node),
    decreases candidates.len(),
{
    if candidates.len() > 0 {
        let earlier = first_sightings(candidates.drop_last(), seen);
        if earlier.contains(node) {
            lemma_first_sightings_are_new(candidates.drop_last(), seen, node);
            let i = choose|i: int|
                0 <= i < candidates.drop_last().len() && candidates.drop_last()[i] == node;
            assert(candidates[i] == node);
        } else {
            let sighted = first_sightings(candidates, seen);
            let i = choose|i: int| 0 <= i < sighted.len() && sighted[i] == node;
            assert(sighted == earlier.push(candidates.last()));
            if i < earlier.len() {
                assert(earlier[i] == node);
            }
            assert(candidates[candidates.len() - 1] == node);
        }
    }
}

/// Every candidate had been seen or is a first sighting.
proof fn lemma_candidates_are_sighted(candidates: Seq<i32>, seen: Set<i32>, node: i32)
    requires
        candidates.contains(node),
    ensures
        seen.contains(node) || first_sightings(candidates, seen).contains(node),
    decreases candidates.len(),
{
    let earlier = first_sightings(candidates.drop_last(), seen);
    let sighted = first_sightings(candidates, seen);
    let i = choose|i: int| 0 <= i < candidates.len() && candidates[i] == node;
    if i < candidates.len() - 1 {
        assert(candidates.drop_last()[i] == node);
        lemma_candidates_are_sighted(candidates.drop_last(), seen, node);
        if earlier.contains(node) {
            let j = choose|j: int| 0 <= j < earlier.len() && earlier[j] == node;
            assert(sighted[j] == node);
        }
    } else if !seen.contains(node) && !earlier.contains(node) {
        assert(sighted[sighted.len() - 1] == node);
    }
}

/// No node is sighted twice.
proof fn lemma_first_sightings_are_distinct(candidates: Seq<i32>, seen: Set<i32>)
    ensures
        first_sightings(candidates, seen).no_duplicates(),
    decreases candidates.len(),
{
    if candidates.len() > 0 {
        lemma_first_sightings_are_distinct(candidates.drop_last(), seen);
    }
}

/// A neighbor of a node of `level` is among the neighbors of `level`.
proof fn lemma_neighbor_is_listed(graph: Seq<Seq<i32>>, level: Seq<i32>, i: int, node: i32)
    requires
        0 <= i < level.len(),
        graph[level[i] as int].contains(node),
    ensures
        neighbors_of(graph, level).contains(node),
    decreases level.len(),
{
    let before = neighbors_of(graph, level.drop_last());
    let row = graph[level.last() as int];
    if i == level.len() - 1 {
        let j = choose|j: int| 0 <= j < row.len() && row[j] == node;
        assert((before + row)[before.len() + j] == node);
    } else {
        assert(level.drop_last()[i] == level[i]);
        lemma_neighbor_is_listed(graph, level.drop_last(), i, node);
        let j = choose|j: int| 0 <= j < before.len() && before[j] == node;
        assert((before + row)[j] == node);
    }
}

/// What is among the neighbors of `level` is a neighbor of one of its nodes.
proof fn lemma_listed_is_neighbor(graph: Seq<Seq<i32>>, level: Seq<i32>, node: i32) -> (i: int)
    requires
        neighbors_of(graph, level).contains(node),
    ensures
        0 <= i < level.len(),
        graph[level[i] as int].contains(node),
    decreases level.len(),
{
    let listed = neighbors_of(graph, level);
    let j = choose|j: int| 0 <= j < listed.len() && listed[j] == node;
    let before = neighbors_of(graph, level.drop_last());
    let row = graph[level.last() as int];
    if j < before.len() {
        assert(before[j] == node);
        lemma_listed_is_neighbor(graph, level.drop_last(), node)
    } else {
        assert(row[j - before.len()] == node);
        level.len() - 1
    }
}

/// A node of level `k` is reached from the start by a route of `k` steps.
proof fn lemma_level_has_route(
    graph: Seq<Seq<i32>>,
    start: i32,
    levels: Seq<Seq<i32>>,
    k: int,
    node: i32,
) -> (route: Seq<i32>)
    requires
        reach_is_closed(graph, start),
        0 <= start < graph.len(),
        is_level_order(graph, start, levels),
        0 <= k < levels.len(),
        levels[k].contains(node),
    ensures
        is_route(graph, route, start, node),
        route.len() == k + 1,
    decreases k,
{
    if k == 0 {
        seq![start]
    } else {
        let candidates = neighbors_of(graph, levels[k - 1]);
        lemma_first_sightings_are_new(candidates, nodes_in(levels, k), node);
        let i = lemma_listed_is_neighbor(graph, levels[k - 1], node);
        let via = levels[k - 1][i];
        let shorter = lemma_level_has_route(graph, start, levels, k - 1, via);
        let row = graph[via as int];
        let j = choose|j: int| 0 <= j < row.len() && row[j] == node;
        assert(0 <= graph[via as int][j] < graph.len());
        lemma_extend_route(graph, start, shorter, node);
        shorter.push(node)
    }
}

/// The end of a route lies in a level no later than the route is long.
proof fn lemma_route_ends_in_level(
    graph: Seq<Seq<i32>>,
    start: i32,
    levels: Seq<Seq<i32>>,
    route: Seq<i32>,
    node: i32,
) -> (k: int)
    requires
        is_level_order(graph, start, levels),
        is_route(graph, route, start, node),
    ensures
        0 <= k < levels.len(),
        k < route.len(),
        levels[k].contains(node),
    decreases route.len(),
{
    if route.len() == 1 {
        assert(levels[0][0] == node);
        0
    } else {
        let shorter = route.drop_last();
        let via = shorter.last();
        assert forall|i: int| 0 < i < shorter.len() implies graph[shorter[i - 1] as int].contains(
            #[trigger] shorter[i],
        ) by {
            assert(graph[route[i - 1] as int].contains(route[i]));
        }
        let j = lemma_route_ends_in_level(graph, start, levels, shorter, via);
        let i = choose|i: int| 0 <= i < levels[j].len() && levels[j][i] == via;
        assert(graph[route[route.len() - 2] as int].contains(route[route.len() - 1]));
        lemma_neighbor_is_listed(graph, levels[j], i, node);
        let candidates = neighbors_of(graph, levels[j]);
        let seen = nodes_in(levels, j + 1);
        lemma_candidates_are_sighted(candidates, seen, node);
        if seen.contains(node) {
            choose|k: int| 0 <= k < j + 1 && k < levels.len() && levels[k].contains(node)
        } else {
            assert(first_sightings(candidates, seen).len() > 0);
            assert(j + 1 < levels.len());
            assert(levels[j + 1] == first_sightings(candidates, seen));
            j + 1
        }
    }
}

/// A level-order traversal sorts the nodes by their distance in steps: level
/// `k` holds exactly the nodes whose least number of steps from the start is
/// `k`, each once, and a node that cannot be reached is in no level.
pub proof fn lemma_levels_are_hop_distances(
    graph: Seq<Seq<i32>>,
    start: i32,
    levels: Seq<Seq<i32>>,
)
    requires
        reach_is_closed(graph, start),
        0 <= start < graph.len(),
        is_level_order(graph, start, levels),
    ensures
        forall|k: int, node: i32|
            (0 <= k < levels.len() && levels[k].contains(node)) <==> #[trigger] is_hop_distance(
                graph,
                start,
                node,
                k,
            ),
        forall|k: int| 0 <= k < levels.len() ==> (#[trigger] levels[k]).no_duplicates(),
{
    assert forall|k: int, node: i32|
        (0 <= k < levels.len() && levels[k].contains(node)) <==> #[trigger] is_hop_distance(
            graph,
            start,
            node,
            k,
        ) by {
        if 0 <= k < levels.len() && levels[k].contains(node) {
            lemma_level_has_route(graph, start, levels, k, node);
            assert forall|other: Seq<i32>| is_route(graph, other, start, node) implies other.len()
                >= k + 1 by {
                let j = lemma_route_ends_in_level(graph, start, levels, other, node);
                if j < k {
                    assert(nodes_in(levels, k).contains(node));
                    lemma_first_sightings_are_new(
                        neighbors_of(graph, levels[k - 1]),
                        nodes_in(levels, k),
                        node,
                    );
                }
            }
        }
        if is_hop_distance(graph, start, node, k) {
            let route = choose|route: Seq<i32>|
                is_route(graph, route, start, node) && route.len() == k + 1;
            let j = lemma_route_ends_in_level(graph, start, levels, route, node);
            lemma_level_has_route(graph, start, levels, j, node);
        }
    }
    assert forall|k: int| 0 <= k < levels.len() implies (#[trigger] levels[k]).no_duplicates() by {
        if k > 0 {
            lemma_first_sightings_are_distinct(
                neighbors_of(graph, levels[k - 1]),
                nodes_in(levels, k),
            );
        }
    }
}

/// Level lists that agree on their first `count` levels hold the same nodes there.
proof fn lemma_nodes_in_agree(first: Seq<Seq<i32>>, second: Seq<Seq<i32>>, count: int)
    requires
        count <= first.len(),
        count <= second.len(),
        forall|j: int| 0 <= j < count ==> first[j] == second[j],
    ensures
        nodes_in(first, count) == nodes_in(second, count),
{
    assert forall|node: i32| nodes_in(first, count).contains(node) == nodes_in(
        second,
        count,
    ).contains(node) by {
        if nodes_in(first, count).contains(node) {
            let k = choose|k: int| 0 <= k < count && k < first.len() && first[k].contains(node);
            assert(first[k] == second[k]);
        }
        if nodes_in(second, count).contains(node) {
            let k = choose|k: int| 0 <= k < count && k < second.len() && second[k].contains(node);
            assert(first[k] == second[k]);
        }
    }
    assert(nodes_in(first, count) =~= nodes_in(second, count));
}

/// Two chains of levels over one graph that begin alike agree on every level
/// that both have.
proof fn lemma_levels_agree(
    graph: Seq<Seq<i32>>,
    first: Seq<Seq<i32>>,
    second: Seq<Seq<i32>>,
    k: int,
)
    requires
        levels_chain(graph, first),
        levels_chain(graph, second),
        0 <= k < first.len(),
        k < second.len(),
        first[0] == second[0],
    ensures
        forall|j: int| 0 <= j <= k ==> first[j] == second[j],
    decreases k,
{
    if k > 0 {
        lemma_levels_agree(graph, first, second, k - 1);
        lemma_nodes_in_agree(first, second, k);
        assert(first[k] == first_sightings(neighbors_of(graph, first[k - 1]), nodes_in(first, k)));
        assert(second[k] == first_sightings(
            neighbors_of(graph, second[k - 1]),
            nodes_in(second, k),
        ));
    }
}

/// A graph has one level-order traversal from each start: a traversal repeated
/// on an unchanged graph gives the same levels in the same order.
pub proof fn lemma_level_order_unique(
    graph: Seq<Seq<i32>>,
    start: i32,
    first: Seq<Seq<i32>>,
    second: Seq<Seq<i32>>,
)
    requires
        is_level_order(graph, start, first),
        is_level_order(graph, start, second),
    ensures
        first == second,
{
    let shared = if first.len() <= second.len() {
        first.len()
    } else {
        second.len()
    };
    lemma_levels_agree(graph, first, second, shared - 1);
    lemma_nodes_in_agree(first, second, shared as int);
    if first.len() < second.len() {
        assert(second[shared as int].len() > 0);
        assert(second[shared as int] == first_sightings(
            neighbors_of(graph, second[shared - 1]),
            nodes_in(second, shared as int),
        ));
    }
    if second.len() < first.len() {
        assert(first[shared as int].len() > 0);
        assert(first[shared as int] == first_sightings(
            neighbors_of(graph, first[shared - 1]),
            nodes_in(first, shared as int),
        ));
    }
    assert(first =~= second);
}

/// The nodes of the first `count` levels do not depend on the levels after them.
pub(crate) proof fn lemma_nodes_in_prefix(levels: Seq<Seq<i32>>, more: Seq<i32>, count: int)
    requires
        count <= levels.len(),
    ensures
        nodes_in(levels.push(more), count) == nodes_in(levels, count),
{
    lemma_nodes_in_agree(levels.push(more), levels, count);
}

/// What a sequence with one more element contains is what it contained, and
/// that element.
pub(crate) proof fn lemma_pushed_contains(nodes: Seq<i32>, more: i32, node: i32)
    ensures
        nodes.push(more).contains(node) <==> nodes.contains(node) || node == more,
{
    let grown = nodes.push(more);
    if nodes.contains(node) {
        let k = choose|k: int| 0 <= k < nodes.len() && nodes[k] == node;
        assert(grown[k] == node);
    }
    if node == more {
        assert(grown[grown.len() - 1] == node);
    }
    if grown.contains(node) && node != more {
        let k = choose|k: int| 0 <= k < grown.len() && grown[k] == node;
        assert(nodes[k] == node);
    }
}

/// The nodes of the levels with one more level are those of the levels and
/// those of the new level.
pub(crate) proof fn lemma_nodes_in_grown(levels: Seq<Seq<i32>>, more: Seq<i32>, node: i32)
    ensures
        nodes_in(levels.push(more), levels.len() as int + 1).contains(node) <==> nodes_in(
            levels,
            levels.len() as int,
        ).contains(node) || more.contains(node),
{
    let grown = levels.push(more);
    if nodes_in(grown, grown.len() as int).contains(node) {
        let k = choose|k: int| 0 <= k < grown.len() && k < grown.len() && grown[k].contains(node);
        if k < levels.len() {
            assert(levels[k] == grown[k]);
        }
    }
    if nodes_in(levels, levels.len() as int).contains(node) {
        let k = choose|k: int|
            0 <= k < levels.len() && k < levels.len() && levels[k].contains(node);
        assert(grown[k] == levels[k]);
    }
    if more.contains(node) {
        assert(grown[grown.len() - 1] == more);
    }
}

/// Levels that chain still do with the first sightings from the last level added.
pub(crate) proof fn lemma_chain_grows(graph: Seq<Seq<i32>>, levels: Seq<Seq<i32>>, more: Seq<i32>)
    requires
        levels.len() > 0,
        levels_chain(graph, levels),
        more == first_sightings(
            neighbors_of(graph, levels.last()),
            nodes_in(levels, levels.len() as int),
        ),
    ensures
        levels_chain(graph, levels.push(more)),
{
    let grown = levels.push(more);
    assert forall|k: int| 0 < k < grown.len() implies #[trigger] grown[k] == first_sightings(
        neighbors_of(graph, grown[k - 1]),
        nodes_in(grown, k),
    ) by {
        lemma_nodes_in_prefix(levels, more, k);
        assert(grown[k - 1] == levels[k - 1]);
        if k < levels.len() {
            assert(grown[k] == levels[k]);
        }
    }
}

/// Levels that chain from the start and end in an empty level are, without
/// that level, the level-order traversal.
pub(crate) proof fn lemma_chain_ends(graph: Seq<Seq<i32>>, start: i32, levels: Seq<Seq<i32>>)
    requires
        levels.len() > 0,
        levels[0] == seq![start],
        levels_chain(graph, levels),
        levels.last().len() == 0,
        forall|k: int| 0 <= k < levels.len() - 1 ==> (#[trigger] levels[k]).len() > 0,
    ensures
        is_level_order(graph, start, levels.drop_last()),
{
    let done = levels.drop_last();
    let last = levels.len() - 1;
    assert(seq![start].len() == 1);
    assert(done.push(levels.last()) =~= levels);
    assert forall|k: int| 0 < k < done.len() implies #[trigger] done[k] == first_sightings(
        neighbors_of(graph, done[k - 1]),
        nodes_in(done, k),
    ) by {
        lemma_nodes_in_prefix(done, levels.last(), k);
        assert(levels[k] == done[k]);
    }
    lemma_nodes_in_prefix(done, levels.last(), last);
    assert(levels[last] == first_sightings(
        neighbors_of(graph, levels[last - 1]),
        nodes_in(levels, last),
    ));
}

} // verus!
