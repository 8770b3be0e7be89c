//! The shortest-path engine: label-setting relaxation from one source, driven
//! by the frontier, with stale frontier entries discarded as they surface.

use crate::frontier::{is_least, Entry, Frontier};
use crate::graph::{targets_in_range, Adjacency, Graph, GraphError};
use crate::paths::{
    is_distance, is_distance_table, is_walk, lemma_extend_walk, lemma_walk_weight_nonnegative,
    reachable, walk_weight, Edge,
};
use vstd::multiset::Multiset;
use vstd::prelude::*;
use vstd::set_lib::{lemma_int_range, lemma_len_subset, set_int_range};

verus! {

/// The state of a query between two steps.
struct Search {
    adj: Adjacency,
    source: int,
    /// The tentative distance of each node.
    distances: Seq<Option<u128>>,
    /// The nodes whose distance is final.
    finalized: Seq<bool>,
    frontier: Multiset<Entry>,
    /// For each node with a tentative distance, a walk of that weight.
    witness: Seq<Seq<Edge>>,
    /// The finalized nodes, as a set.
    settled: Set<int>,
}

/// The edge `from -> edge.0` has been relaxed: the tentative distance of its
/// target is no more than that of `from` plus the edge's weight.
spec fn relaxed(distances: Seq<Option<u128>>, from: int, edge: (usize, u64)) -> bool {
    &&& distances[from] is Some
    &&& distances[edge.0 as int] is Some
    &&& distances[edge.0 as int]->0 <= distances[from]->0 + edge.1
}

impl Search {
    /// The number of nodes of the graph.
    spec fn nodes(self) -> int {
        self.adj.len() as int
    }

    /// The tables have one entry per node, the source is a node at distance
    /// zero, and `settled` is the set of finalized nodes.
    spec fn shaped(self) -> bool {
        &&& targets_in_range(self.adj)
        &&& self.nodes() <= usize::MAX
        &&& 0 <= self.source < self.nodes()
        &&& self.distances.len() == self.nodes()
        &&& self.finalized.len() == self.nodes()
        &&& self.witness.len() == self.nodes()
        &&& self.distances[self.source] == Some(0u128)
        &&& self.settled.finite()
        &&& forall|v: int| self.settled.contains(v) <==> 0 <= v < self.nodes() && self.finalized[v]
    }

    /// Each tentative distance is the weight of a known walk from the source.
    spec fn witnessed(self) -> bool {
        forall|v: int|
            0 <= v < self.nodes() && (#[trigger] self.distances[v]) is Some ==> is_walk(
                self.adj,
                self.witness[v],
                self.source,
                v,
            ) && walk_weight(self.witness[v]) == self.distances[v]->0
    }

    /// No tentative distance exceeds what as many edges as there are finalized
    /// nodes can weigh.
    spec fn bounded(self) -> bool {
        forall|v: int|
            0 <= v < self.nodes() && (#[trigger] self.distances[v]) is Some ==> self.distances[v]->0
                <= self.settled.len() * u64::MAX
    }

    /// The distance of a finalized node is known, and no walk from the source to
    /// it weighs less.
    spec fn finalized_are_shortest(self) -> bool {
        &&& forall|v: int|
            0 <= v < self.nodes() && #[trigger] self.finalized[v] ==> self.distances[v] is Some
        &&& forall|v: int, walk: Seq<Edge>|
            0 <= v < self.nodes() && self.finalized[v] && #[trigger] is_walk(
                self.adj,
                walk,
                self.source,
                v,
            ) ==> self.distances[v]->0 <= walk_weight(walk)
    }

    /// Every edge that leaves a finalized node has been relaxed, except those of
    /// `current` from position `done` on.
    spec fn finalized_are_relaxed(self, current: int, done: int) -> bool {
        forall|u: int, i: int|
            0 <= u < self.nodes() && self.finalized[u] && 0 <= i < self.adj[u].len() && (u
                != current || i < done) ==> relaxed(self.distances, u, #[trigger] self.adj[u][i])
    }

    /// Every open node with a tentative distance has an entry with that distance
    /// in the frontier, and no frontier entry undercuts its node's tentative distance.
    spec fn frontier_covers(self) -> bool {
        &&& forall|v: int|
            0 <= v < self.nodes() && !self.finalized[v] && (#[trigger] self.distances[v]) is Some
                ==> self.frontier.contains((self.distances[v]->0, v as usize))
        &&& forall|entry: Entry| #[trigger]
            self.frontier.contains(entry) ==> entry.1 < self.nodes()
                && self.distances[entry.1 as int] is Some && self.distances[entry.1 as int]->0
                <= entry.0
    }

    /// While the edges of `current` are being relaxed, `current` is finalized and
    /// its distance leaves room for one more edge under the bound.
    spec fn relaxing(self, current: int) -> bool {
        0 <= current ==> {
            &&& current < self.nodes()
            &&& self.finalized[current]
            &&& self.distances[current] is Some
            &&& self.distances[current]->0 + u64::MAX <= self.settled.len() * u64::MAX
        }
    }

    /// What holds between two steps, while the first `done` edges of `current`
    /// have been relaxed; `current` is negative between two nodes.
    spec fn consistent(self, current: int, done: int) -> bool {
        &&& self.shaped()
        &&& self.witnessed()
        &&& self.bounded()
        &&& self.finalized_are_shortest()
        &&& self.finalized_are_relaxed(current, done)
        &&& self.frontier_covers()
        &&& self.relaxing(current)
    }

    /// The state in which a query from `source` starts.
    spec fn start(adj: Adjacency, source: int) -> Search {
        Search {
            adj,
            source,
            distances: Seq::new(adj.len(), |v: int| None::<u128>).update(source, Some(0u128)),
            finalized: Seq::new(adj.len(), |v: int| false),
            frontier: Multiset::<Entry>::empty().insert((0u128, source as usize)),
            witness: Seq::new(adj.len(), |v: int| Seq::<Edge>::empty()),
            settled: Set::<int>::empty(),
        }
    }

    /// The state after an entry for an already finalized node has left the frontier.
    spec fn discard(self, entry: Entry) -> Search {
        Search { frontier: self.frontier.remove(entry), ..self }
    }

    /// The state after `entry` has left the frontier and its node has been finalized.
    spec fn settle(self, entry: Entry) -> Search {
        Search {
            finalized: self.finalized.update(entry.1 as int, true),
            frontier: self.frontier.remove(entry),
            settled: self.settled.insert(entry.1 as int),
            ..self
        }
    }

    /// The state after the tentative distance of `edge.0` has been lowered to
    /// that of `from` plus the weight of `edge`.
    spec fn lower(self, from: int, edge: (usize, u64)) -> Search {
        let candidate = (self.distances[from]->0 + edge.1) as u128;
        Search {
            distances: self.distances.update(edge.0 as int, Some(candidate)),
            frontier: self.frontier.insert((candidate, edge.0)),
            witness: self.witness.update(
                edge.0 as int,
                self.witness[from].push(
                    Edge { from, to: edge.0 as int, weight: edge.1 as int },
                ),
            ),
            ..self
        }
    }

    /// No more nodes are finalized than there are.
    proof fn lemma_settled_count(self)
        requires
            self.shaped(),
        ensures
            self.settled.len() <= self.nodes(),
            self.settled.len() * u64::MAX <= usize::MAX * u64::MAX,
    {
        lemma_int_range(0, self.nodes());
        assert(self.settled.subset_of(set_int_range(0, self.nodes())));
        lemma_len_subset(self.settled, set_int_range(0, self.nodes()));
    }

    /// A walk from the source to an open node passes an open node whose
    /// tentative distance is no more than the weight of the walk.
    proof fn lemma_walk_meets_open_node(self, walk: Seq<Edge>, target: int) -> (open: int)
        requires
            self.shaped(),
            self.finalized_are_shortest(),
            self.finalized_are_relaxed(-1, 0),
            is_walk(self.adj, walk, self.source, target),
            !self.finalized[target],
        ensures
            0 <= open < self.nodes(),
            !self.finalized[open],
            self.distances[open] is Some,
            self.distances[open]->0 <= walk_weight(walk),
        decreases walk.len(),
    {
        if walk.len() == 0 {
            self.source
        } else {
            let last = walk.last();
            let rest = walk.drop_last();
            lemma_walk_weight_nonnegative(self.adj, rest, self.source, last.from);
            let i = choose|i: int|
                0 <= i < self.adj[last.from].len() && (#[trigger] self.adj[last.from][i]).0
                    == last.to && self.adj[last.from][i].1 == last.weight;
            if self.finalized[last.from] {
                assert(relaxed(self.distances, last.from, self.adj[last.from][i]));
                target
            } else {
                self.lemma_walk_meets_open_node(rest, last.from)
            }
        }
    }

    /// A query starts in a consistent state.
    proof fn lemma_start(adj: Adjacency, source: int)
        requires
            targets_in_range(adj),
            adj.len() <= usize::MAX,
            0 <= source < adj.len(),
        ensures
            Search::start(adj, source).consistent(-1, 0),
    {
        let state = Search::start(adj, source);
        assert(is_walk(adj, state.witness[source], source, source));
        assert(walk_weight(state.witness[source]) == 0);
        assert(state.settled.len() == 0);
    }

    /// Discarding a stale entry keeps the state consistent and shrinks the frontier.
    proof fn lemma_discard(self, entry: Entry)
        requires
            self.consistent(-1, 0),
            self.frontier.contains(entry),
            self.finalized[entry.1 as int],
        ensures
            self.discard(entry).consistent(-1, 0),
            self.discard(entry).frontier.len() < self.frontier.len(),
    {
        let next = self.discard(entry);
        assert forall|v: int|
            0 <= v < next.nodes() && !next.finalized[v] && (#[trigger] next.distances[v]) is Some implies next.frontier.contains(
            (next.distances[v]->0, v as usize),
        ) by {
            assert(self.frontier.contains((self.distances[v]->0, v as usize)));
        }
        assert forall|other: Entry| #[trigger] next.frontier.contains(other) implies other.1
            < next.nodes() && next.distances[other.1 as int] is Some
            && next.distances[other.1 as int]->0 <= other.0 by {
            assert(self.frontier.contains(other));
        }
    }

    /// The least entry of the frontier, if its node is open, carries that node's
    /// shortest distance: finalizing the node keeps the state consistent, with
    /// all of the node's edges still to be relaxed.
    proof fn lemma_settle(self, entry: Entry)
        requires
            self.consistent(-1, 0),
            is_least(self.frontier, entry),
            !self.finalized[entry.1 as int],
        ensures
            self.settle(entry).consistent(entry.1 as int, 0),
            self.distances[entry.1 as int] == Some(entry.0),
            self.settle(entry).settled.len() == self.settled.len() + 1,
            self.settle(entry).settled.len() <= self.nodes(),
    {
        let next = self.settle(entry);
        let node = entry.1 as int;
        assert(self.frontier.contains(entry));
        assert(self.frontier.contains((self.distances[node]->0, entry.1)));
        assert(!self.settled.contains(node));
        assert(next.settled.len() == self.settled.len() + 1);
        next.lemma_settled_count();
        assert forall|v: int, walk: Seq<Edge>|
            0 <= v < next.nodes() && next.finalized[v] && #[trigger] is_walk(
                next.adj,
                walk,
                next.source,
                v,
            ) implies next.distances[v]->0 <= walk_weight(walk) by {
            if v == node {
                let open = self.lemma_walk_meets_open_node(walk, node);
                assert(self.frontier.contains((self.distances[open]->0, open as usize)));
            }
        }
        assert forall|v: int|
            0 <= v < next.nodes() && !next.finalized[v] && (#[trigger] next.distances[v]) is Some implies next.frontier.contains(
            (next.distances[v]->0, v as usize),
        ) by {
            assert(self.frontier.contains((self.distances[v]->0, v as usize)));
        }
        assert forall|other: Entry| #[trigger] next.frontier.contains(other) implies other.1
            < next.nodes() && next.distances[other.1 as int] is Some
            && next.distances[other.1 as int]->0 <= other.0 by {
            assert(self.frontier.contains(other));
        }
        assert(next.finalized_are_relaxed(node, 0)) by {
            assert forall|u: int, i: int|
                0 <= u < next.nodes() && next.finalized[u] && 0 <= i < next.adj[u].len() && (u
                    != node || i < 0) implies relaxed(
                next.distances,
                u,
                #[trigger] next.adj[u][i],
            ) by {
                assert(self.finalized[u]);
            }
        }
    }

    /// Relaxing the next edge of `current` without lowering anything: the target
    /// is finalized, or its tentative distance is already no more than the candidate.
    proof fn lemma_keep(self, current: int, done: int)
        requires
            self.consistent(current, done),
            0 <= current,
            0 <= done < self.adj[current].len(),
            self.finalized[self.adj[current][done].0 as int] || (
            self.distances[self.adj[current][done].0 as int] is Some
                && self.distances[self.adj[current][done].0 as int]->0
                <= self.distances[current]->0 + self.adj[current][done].1),
        ensures
            self.consistent(current, done + 1),
    {
        let edge = self.adj[current][done];
        let target = edge.0 as int;
        if self.finalized[target] {
            let step = Edge { from: current, to: target, weight: edge.1 as int };
            lemma_extend_walk(self.adj, self.witness[current], self.source, step);
        }
        assert(relaxed(self.distances, current, edge));
    }

    /// Relaxing the next edge of `current` by lowering the tentative distance of
    /// its open target to the candidate.
    proof fn lemma_lower(self, current: int, done: int)
        requires
            self.consistent(current, done),
            0 <= current,
            0 <= done < self.adj[current].len(),
            !self.finalized[self.adj[current][done].0 as int],
            self.distances[self.adj[current][done].0 as int] is Some
                ==> self.distances[current]->0 + self.adj[current][done].1
                < self.distances[self.adj[current][done].0 as int]->0,
        ensures
            self.lower(current, self.adj[current][done]).consistent(current, done + 1),
    {
        let edge = self.adj[current][done];
        let target = edge.0 as int;
        let next = self.lower(current, edge);
        let step = Edge { from: current, to: target, weight: edge.1 as int };
        self.lemma_settled_count();
        let candidate = (self.distances[current]->0 + edge.1) as u128;
        assert(candidate == self.distances[current]->0 + edge.1);
        lemma_extend_walk(self.adj, self.witness[current], self.source, step);
        assert(target != current);
        assert(target != self.source) by {
            if target == self.source {
                lemma_walk_weight_nonnegative(
                    self.adj,
                    self.witness[current],
                    self.source,
                    current,
                );
            }
        }
        assert(next.shaped());
        assert(next.witnessed()) by {
            assert forall|v: int|
                0 <= v < next.nodes() && (#[trigger] next.distances[v]) is Some implies is_walk(
                next.adj,
                next.witness[v],
                next.source,
                v,
            ) && walk_weight(next.witness[v]) == next.distances[v]->0 by {
                if v != target {
                    assert(self.distances[v] is Some);
                }
            }
        }
        assert(next.bounded()) by {
            assert forall|v: int|
                0 <= v < next.nodes() && (#[trigger] next.distances[v]) is Some implies next.distances[v]->0
                <= next.settled.len() * u64::MAX by {
                if v != target {
                    assert(self.distances[v] is Some);
                }
            }
        }
        assert(next.finalized_are_shortest()) by {
            assert forall|v: int, walk: Seq<Edge>|
                0 <= v < next.nodes() && next.finalized[v] && #[trigger] is_walk(
                    next.adj,
                    walk,
                    next.source,
                    v,
                ) implies next.distances[v]->0 <= walk_weight(walk) by {
                assert(is_walk(self.adj, walk, self.source, v));
            }
        }
        assert(next.finalized_are_relaxed(current, done + 1)) by {
            assert forall|u: int, i: int|
                0 <= u < next.nodes() && next.finalized[u] && 0 <= i < next.adj[u].len() && (u
                    != current || i < done + 1) implies relaxed(
                next.distances,
                u,
                #[trigger] next.adj[u][i],
            ) by {
                if u == current && i == done {
                } else {
                    assert(relaxed(self.distances, u, self.adj[u][i]));
                }
            }
        }
        assert(next.frontier_covers()) by {
            assert forall|v: int|
                0 <= v < next.nodes() && !next.finalized[v] && (#[trigger] next.distances[v]) is Some implies next.frontier.contains(
                (next.distances[v]->0, v as usize),
            ) by {
                if v != target {
                    assert(self.distances[v] is Some);
                    assert(self.frontier.contains((self.distances[v]->0, v as usize)));
                }
            }
            assert forall|other: Entry| #[trigger] next.frontier.contains(other) implies other.1
                < next.nodes() && next.distances[other.1 as int] is Some
                && next.distances[other.1 as int]->0 <= other.0 by {
                if other != (candidate, edge.0) {
                    assert(self.frontier.contains(other));
                }
            }
        }
    }

    /// With the frontier exhausted, the tentative distances answer the query.
    proof fn lemma_finish(self)
        requires
            self.consistent(-1, 0),
            self.frontier.len() == 0,
        ensures
            is_distance_table(self.adj, self.source, self.distances),
    {
        assert forall|node: int| 0 <= node < self.adj.len() implies match #[trigger] self.distances[node] {
            Some(distance) => is_distance(self.adj, self.source, node, distance as int),
            None => !reachable(self.adj, self.source, node),
        } by {
            match self.distances[node] {
                Some(distance) => {
                    if !self.finalized[node] {
                        assert(self.frontier.contains((distance, node as usize)));
                        assert(self.frontier.count((distance, node as usize)) > 0);
                    }
                    assert(is_walk(self.adj, self.witness[node], self.source, node));
                },
                None => {
                    if reachable(self.adj, self.source, node) {
                        let walk = choose|walk: Seq<Edge>|
                            is_walk(self.adj, walk, self.source, node);
                        let open = self.lemma_walk_meets_open_node(walk, node);
                        assert(self.frontier.contains((self.distances[open]->0, open as usize)));
                        assert(self.frontier.count((self.distances[open]->0, open as usize)) > 0);
                    }
                },
            }
        }
    }
}

/// A vector of `len` copies of `None`.
fn all_unreachable(len: usize) -> (distances: Vec<Option<u128>>)
    ensures
        distances@ == Seq::new(len as nat, |v: int| None::<u128>),
{
    let mut distances: Vec<Option<u128>> = Vec::new();
    while distances.len() < len
        invariant
            distances@.len() <= len,
            forall|v: int| 0 <= v < distances@.len() ==> distances@[v] == None::<u128>,
        decreases len - distances@.len(),
    {
        distances.push(None);
    }
    assert(distances@ =~= Seq::new(len as nat, |v: int| None::<u128>));
    distances
}

/// A vector of `len` copies of `false`.
fn none_marked(len: usize) -> (marks: Vec<bool>)
    ensures
        marks@ == Seq::new(len as nat, |v: int| false),
{
    let mut marks: Vec<bool> = Vec::new();
    while marks.len() < len
        invariant
            marks@.len() <= len,
            forall|v: int| 0 <= v < marks@.len() ==> !marks@[v],
        decreases len - marks@.len(),
    {
        marks.push(false);
    }
    assert(marks@ =~= Seq::new(len as nat, |v: int| false));
    marks
}

impl Graph {
    /// The shortest distance from `start_node` to every node.
    ///
    /// The table has one entry per node: the least total weight of any walk from
    /// `start_node` to that node, or `None` where no walk leads there. A source
    /// outside the graph is refused with `NodeOutOfRange`.
    ///
    /// Distances are `u128`, which holds the weight of any walk the search
    /// follows. Among frontier entries of equal distance the one for the lower
    /// node is taken first; the table does not depend on that choice.
    pub fn dijkstra(&self, start_node: usize) -> (result: Result<Vec<Option<u128>>, GraphError>)
        ensures
            start_node >= self@.len() ==> result is Err && result->Err_0
                == GraphError::NodeOutOfRange,
            start_node < self@.len() ==> result is Ok && is_distance_table(
                self@,
                start_node as int,
                result->Ok_0@,
            ) && result->Ok_0@[start_node as int] == Some(0u128),
    {
        proof {
            use_type_invariant(self);
        }
        let node_count: usize = self.adjacency_list.len();
        if start_node >= node_count {
            return Err(GraphError::NodeOutOfRange);
        }
        let mut distances = all_unreachable(node_count);
        let mut finalized = none_marked(node_count);
        let mut frontier = Frontier::new();
        distances[start_node] = Some(0);
        frontier.push((0, start_node));
        let ghost mut state = Search::start(self@, start_node as int);
        proof {
            Search::lemma_start(self@, start_node as int);
        }
        loop
            invariant
                node_count == self@.len(),
                state.adj == self@,
                state.source == start_node,
                state.distances == distances@,
                state.finalized == finalized@,
                state.frontier == frontier@,
                state.consistent(-1, 0),
            ensures
                frontier@.len() == 0,
            decreases node_count - state.settled.len(), frontier@.len(),
        {
            proof {
                state.lemma_settled_count();
            }
            let entry = match frontier.pop() {
                Some(entry) => entry,
                None => {
                    break ;
                },
            };
            let current: usize = entry.1;
            assert(state.frontier.contains(entry));
            if finalized[current] {
                proof {
                    state.lemma_discard(entry);
                    state = state.discard(entry);
                }
                continue ;
            }
            finalized[current] = true;
            let ghost settled_before = state.settled.len();
            proof {
                state.lemma_settle(entry);
                state = state.settle(entry);
            }
            let reached: u128 = entry.0;
            let edges = &self.adjacency_list[current];
            let mut done: usize = 0;
            while done < edges.len()
                invariant
                    node_count == self@.len(),
                    current < node_count,
                    edges@ == self@[current as int],
                    done <= edges@.len(),
                    state.adj == self@,
                    state.source == start_node,
                    state.distances == distances@,
                    state.finalized == finalized@,
                    state.frontier == frontier@,
                    state.distances[current as int] == Some(reached),
                    state.settled.len() == settled_before + 1,
                    state.consistent(current as int, done as int),
                decreases edges@.len() - done,
            {
                proof {
                    state.lemma_settled_count();
                }
                let (neighbor, weight) = edges[done];
                let candidate: u128 = reached + (weight as u128);
                let lowers = !finalized[neighbor] && match distances[neighbor] {
                    Some(known) => candidate < known,
                    None => true,
                };
                if lowers {
                    distances[neighbor] = Some(candidate);
                    frontier.push((candidate, neighbor));
                    proof {
                        state.lemma_lower(current as int, done as int);
                        state = state.lower(current as int, (neighbor, weight));
                    }
                } else {
                    proof {
                        state.lemma_keep(current as int, done as int);
                    }
                }
                done = done + 1;
            }
        }
        proof {
            state.lemma_finish();
        }
        Ok(distances)
    }
}

} // verus!
