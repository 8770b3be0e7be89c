//! Walks through a graph and their total weights: the vocabulary in which
//! shortest distances are stated.

use crate::graph::{with_edge, Adjacency};
use vstd::prelude::*;

verus! {

/// One traversal of an edge.
pub struct Edge {
    pub from: int,
    pub to: int,
    pub weight: int,
}

/// `edge` is one of the edges of `adj`.
pub open spec fn has_edge(adj: Adjacency, edge: Edge) -> bool {
    &&& 0 <= edge.from < adj.len()
    &&& exists|i: int|
        0 <= i < adj[edge.from].len() && (#[trigger] adj[edge.from][i]).0 == edge.to
            && adj[edge.from][i].1 == edge.weight
}

/// `walk` leads from `source` to `target` along edges of `adj`, each starting
/// where the one before it ended. The empty walk leads from a node to itself.
pub open spec fn is_walk(adj: Adjacency, walk: Seq<Edge>, source: int, target: int) -> bool
    decreases walk.len(),
{
    if walk.len() == 0 {
        source == target && 0 <= source < adj.len()
    } else {
        &&& is_walk(adj, walk.drop_last(), source, walk.last().from)
        &&& has_edge(adj, walk.last())
        &&& walk.last().to == target
    }
}

/// The sum of the weights along `walk`.
pub open spec fn walk_weight(walk: Seq<Edge>) -> int
    decreases walk.len(),
{
    if walk.len() == 0 {
        0
    } else {
        walk_weight(walk.drop_last()) + walk.last().weight
    }
}

/// Some walk leads from `source` to `target`.
pub open spec fn reachable(adj: Adjacency, source: int, target: int) -> bool {
    exists|walk: Seq<Edge>| is_walk(adj, walk, source, target)
}

/// `distance` is the least total weight of any walk from `source` to `target`:
/// some walk has that weight, and none has less.
pub open spec fn is_distance(adj: Adjacency, source: int, target: int, distance: int) -> bool {
    &&& exists|walk: Seq<Edge>|
        is_walk(adj, walk, source, target) && walk_weight(walk) == distance
    &&& forall|walk: Seq<Edge>|
        is_walk(adj, walk, source, target) ==> distance <= walk_weight(walk)
}

/// `table` answers the query from `source`: it has one entry per node, which is
/// the node's shortest distance where the node can be reached and `None` where
/// it cannot.
pub open spec fn is_distance_table(adj: Adjacency, source: int, table: Seq<Option<u128>>) -> bool {
    &&& table.len() == adj.len()
    &&& forall|node: int|
        0 <= node < adj.len() ==> match #[trigger] table[node] {
            Some(distance) => is_distance(adj, source, node, distance as int),
            None => !reachable(adj, source, node),
        }
}

/// A walk never weighs less than nothing.
pub proof fn lemma_walk_weight_nonnegative(adj: Adjacency, walk: Seq<Edge>, source: int, target: int)
    requires
        is_walk(adj, walk, source, target),
    ensures
        0 <= walk_weight(walk),
    decreases walk.len(),
{
    if walk.len() > 0 {
        lemma_walk_weight_nonnegative(adj, walk.drop_last(), source, walk.last().from);
    }
}

/// A walk extended by an edge that leaves its target is a walk to that edge's end,
/// heavier by the edge's weight.
pub proof fn lemma_extend_walk(adj: Adjacency, walk: Seq<Edge>, source: int, edge: Edge)
    requires
        is_walk(adj, walk, source, edge.from),
        has_edge(adj, edge),
    ensures
        is_walk(adj, walk.push(edge), source, edge.to),
        walk_weight(walk.push(edge)) == walk_weight(walk) + edge.weight,
{
    assert(walk.push(edge).drop_last() =~= walk);
}

/// The shortest distance between two nodes is unique.
pub proof fn lemma_distance_unique(adj: Adjacency, source: int, target: int, first: int, second: int)
    requires
        is_distance(adj, source, target, first),
        is_distance(adj, source, target, second),
    ensures
        first == second,
{
}

/// A query has one answer: two distance tables for the same graph and source
/// agree entry by entry, so repeating a query on an unchanged graph repeats
/// its output.
pub proof fn lemma_distance_table_unique(
    adj: Adjacency,
    source: int,
    first: Seq<Option<u128>>,
    second: Seq<Option<u128>>,
)
    requires
        is_distance_table(adj, source, first),
        is_distance_table(adj, source, second),
    ensures
        first == second,
{
    assert forall|node: int| 0 <= node < first.len() implies first[node] == second[node] by {
        match (first[node], second[node]) {
            (Some(a), Some(b)) => {
                lemma_distance_unique(adj, source, node, a as int, b as int);
            },
            _ => {},
        }
    }
    assert(first =~= second);
}

/// The distance from a node to itself is zero.
pub proof fn lemma_source_distance_zero(adj: Adjacency, source: int, table: Seq<Option<u128>>)
    requires
        0 <= source < adj.len(),
        is_distance_table(adj, source, table),
    ensures
        table[source] == Some(0u128),
{
    let empty = Seq::<Edge>::empty();
    assert(is_walk(adj, empty, source, source));
    assert(walk_weight(empty) == 0);
    match table[source] {
        Some(distance) => {
            let shortest = choose|walk: Seq<Edge>|
                is_walk(adj, walk, source, source) && walk_weight(walk) == distance as int;
            lemma_walk_weight_nonnegative(adj, shortest, source, source);
        },
        None => {},
    }
}

/// Every edge of a graph is still an edge once another has been added.
pub proof fn lemma_edge_survives(adj: Adjacency, from: int, to: usize, weight: u64, edge: Edge)
    requires
        0 <= from < adj.len(),
        has_edge(adj, edge),
    ensures
        has_edge(with_edge(adj, from, to, weight), edge),
{
    let grown = with_edge(adj, from, to, weight);
    let i = choose|i: int|
        0 <= i < adj[edge.from].len() && (#[trigger] adj[edge.from][i]).0 == edge.to
            && adj[edge.from][i].1 == edge.weight;
    assert(grown[edge.from][i] == adj[edge.from][i]);
}

/// Every walk through a graph is still a walk once an edge has been added.
pub proof fn lemma_walk_survives(
    adj: Adjacency,
    from: int,
    to: usize,
    weight: u64,
    walk: Seq<Edge>,
    source: int,
    target: int,
)
    requires
        0 <= from < adj.len(),
        is_walk(adj, walk, source, target),
    ensures
        is_walk(with_edge(adj, from, to, weight), walk, source, target),
    decreases walk.len(),
{
    if walk.len() > 0 {
        lemma_walk_survives(adj, from, to, weight, walk.drop_last(), source, walk.last().from);
        lemma_edge_survives(adj, from, to, weight, walk.last());
    }
}

/// A walk through a graph with one edge added either traverses an edge equal to
/// the added one or is a walk through the graph without it.
pub proof fn lemma_walk_avoiding_new_edge(
    adj: Adjacency,
    from: int,
    to: usize,
    weight: u64,
    walk: Seq<Edge>,
    source: int,
    target: int,
)
    requires
        0 <= from < adj.len(),
        is_walk(with_edge(adj, from, to, weight), walk, source, target),
        !walk.contains(Edge { from, to: to as int, weight: weight as int }),
    ensures
        is_walk(adj, walk, source, target),
    decreases walk.len(),
{
    let grown = with_edge(adj, from, to, weight);
    let added = Edge { from, to: to as int, weight: weight as int };
    if walk.len() > 0 {
        let rest = walk.drop_last();
        let edge = walk.last();
        assert forall|k: int| 0 <= k < rest.len() implies rest[k] != added by {
            assert(walk[k] == rest[k]);
        }
        lemma_walk_avoiding_new_edge(adj, from, to, weight, rest, source, edge.from);
        assert(walk[walk.len() - 1] == edge);
        assert(edge != added);
        let i = choose|i: int|
            0 <= i < grown[edge.from].len() && (#[trigger] grown[edge.from][i]).0 == edge.to
                && grown[edge.from][i].1 == edge.weight;
        if edge.from == from && i == adj[from].len() {
            assert(grown[from][i] == (to, weight));
            assert(edge == added);
        } else {
            assert(adj[edge.from][i] == grown[edge.from][i]);
        }
    }
}

/// Adding an edge never lengthens a shortest distance, and never cuts a node off:
/// whatever could be reached before can be reached after, at no greater distance.
pub proof fn lemma_added_edge_never_lengthens(
    adj: Adjacency,
    from: int,
    to: usize,
    weight: u64,
    source: int,
    before: Seq<Option<u128>>,
    after: Seq<Option<u128>>,
)
    requires
        0 <= from < adj.len(),
        is_distance_table(adj, source, before),
        is_distance_table(with_edge(adj, from, to, weight), source, after),
    ensures
        forall|node: int|
            0 <= node < adj.len() && (#[trigger] before[node]) is Some ==> after[node] is Some
                && after[node]->0 <= before[node]->0,
{
    let grown = with_edge(adj, from, to, weight);
    assert forall|node: int| 0 <= node < adj.len() && (#[trigger] before[node]) is Some implies
        after[node] is Some && after[node]->0 <= before[node]->0 by {
        let old_distance = before[node]->0;
        let shortest = choose|walk: Seq<Edge>|
            is_walk(adj, walk, source, node) && walk_weight(walk) == old_distance as int;
        lemma_walk_survives(adj, from, to, weight, shortest, source, node);
        assert(reachable(grown, source, node));
    }
}

/// Adding an edge shortens a distance, or makes a node reachable, only through
/// the added edge: where an entry of the table changed, the new entry is the
/// weight of a walk that traverses an edge equal to the added one.
pub proof fn lemma_shorter_only_through_added_edge(
    adj: Adjacency,
    from: int,
    to: usize,
    weight: u64,
    source: int,
    before: Seq<Option<u128>>,
    after: Seq<Option<u128>>,
)
    requires
        0 <= from < adj.len(),
        is_distance_table(adj, source, before),
        is_distance_table(with_edge(adj, from, to, weight), source, after),
    ensures
        forall|node: int|
            0 <= node < adj.len() && (#[trigger] after[node]) != before[node] ==> after[node] is Some
                && exists|walk: Seq<Edge>|
                is_walk(with_edge(adj, from, to, weight), walk, source, node) && walk_weight(walk)
                    == after[node]->0 && walk.contains(
                    Edge { from, to: to as int, weight: weight as int },
                ),
{
    let grown = with_edge(adj, from, to, weight);
    let added = Edge { from, to: to as int, weight: weight as int };
    lemma_added_edge_never_lengthens(adj, from, to, weight, source, before, after);
    assert forall|node: int| 0 <= node < adj.len() && (#[trigger] after[node]) != before[node] implies
        after[node] is Some && exists|walk: Seq<Edge>|
        is_walk(grown, walk, source, node) && walk_weight(walk) == after[node]->0 && walk.contains(
            added,
        ) by {
        assert(before[node] is Some ==> after[node] is Some);
        let new_distance = after[node]->0;
        let shortest = choose|walk: Seq<Edge>|
            is_walk(grown, walk, source, node) && walk_weight(walk) == new_distance as int;
        if !shortest.contains(added) {
            lemma_walk_avoiding_new_edge(adj, from, to, weight, shortest, source, node);
            assert(reachable(adj, source, node));
        }
    }
}

} // verus!
