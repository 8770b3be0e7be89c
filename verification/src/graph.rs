//! The graph store: a fixed set of nodes, each owning its list of outgoing
//! weighted edges in insertion order.

use vstd::prelude::*;

verus! {

/// Why a graph operation was refused.
#[derive(Debug, Clone, Copy, PartialEq, Eq, Structural)]
pub enum GraphError {
    /// A node count that is negative or too large to address.
    InvalidSize,
    /// An edge endpoint or a query source outside `[0, node_count)`.
    NodeOutOfRange,
    /// A negative edge weight.
    InvalidWeight,
}

/// The mathematical content of a graph: entry `u` lists the `(target, weight)`
/// pairs of the edges leaving node `u`, oldest first.
pub type Adjacency = Seq<Seq<(usize, u64)>>;

/// Every edge of `adj` ends at a node of `adj`.
pub open spec fn targets_in_range(adj: Adjacency) -> bool {
    forall|u: int, i: int|
        0 <= u < adj.len() && 0 <= i < adj[u].len() ==> (#[trigger] adj[u][i]).0 < adj.len()
}

/// The adjacency with no edges on `n` nodes.
pub open spec fn edgeless(n: nat) -> Adjacency {
    Seq::new(n, |u: int| Seq::<(usize, u64)>::empty())
}

/// `adj` with the edge `from -> to` of the given weight appended to the list of `from`.
pub open spec fn with_edge(adj: Adjacency, from: int, to: usize, weight: u64) -> Adjacency {
    adj.update(from, adj[from].push((to, weight)))
}

/// A directed multigraph with non-negative integer edge weights.
#[derive(Debug)]
pub struct Graph {
    pub(crate) adjacency_list: Vec<Vec<(usize, u64)>>,
}

impl View for Graph {
    type V = Adjacency;

    open(crate) spec fn view(&self) -> Adjacency {
        Seq::new(self.adjacency_list@.len(), |u: int| self.adjacency_list@[u]@)
    }
}

impl Graph {
    #[verifier::type_invariant]
    pub(crate) open(crate) spec fn well_formed(&self) -> bool {
        targets_in_range(self@)
    }

    /// A graph with `num_nodes` nodes and no edges.
    pub fn new(num_nodes: usize) -> (graph: Graph)
        ensures
            graph@ == edgeless(num_nodes as nat),
    {
        let mut adjacency_list: Vec<Vec<(usize, u64)>> = Vec::new();
        let mut built: usize = 0;
        while built < num_nodes
            invariant
                built <= num_nodes,
                adjacency_list@.len() == built,
                forall|u: int| 0 <= u < built ==> (#[trigger] adjacency_list@[u])@.len() == 0,
            decreases num_nodes - built,
        {
            adjacency_list.push(Vec::new());
            built = built + 1;
        }
        let graph = Graph { adjacency_list };
        assert(graph@ =~~= edgeless(num_nodes as nat));
        graph
    }

    /// A graph with `node_count` nodes and no edges, for a count held in a signed
    /// integer. A negative count, or one beyond what the machine can address,
    /// is refused with `InvalidSize`.
    pub fn create(node_count: i64) -> (result: Result<Graph, GraphError>)
        ensures
            0 <= node_count <= usize::MAX ==> result is Ok && result->Ok_0@ == edgeless(
                node_count as nat,
            ),
            !(0 <= node_count <= usize::MAX) ==> result is Err && result->Err_0
                == GraphError::InvalidSize,
    {
        if node_count < 0 || node_count as u64 > usize::MAX as u64 {
            return Err(GraphError::InvalidSize);
        }
        Ok(Graph::new(node_count as usize))
    }

    /// The number of nodes, fixed when the graph was made.
    pub fn node_count(&self) -> (n: usize)
        ensures
            n == self@.len(),
    {
        self.adjacency_list.len()
    }

    /// The edges that leave `from`, as `(target, weight)` pairs in the order in
    /// which they were added, or `None` if `from` is not a node of the graph.
    pub fn edges_from(&self, from: usize) -> (edges: Option<&Vec<(usize, u64)>>)
        ensures
            from >= self@.len() ==> edges is None,
            from < self@.len() ==> edges is Some && edges->0@ == self@[from as int],
    {
        if from < self.adjacency_list.len() {
            Some(&self.adjacency_list[from])
        } else {
            None
        }
    }

    /// Appends the edge `from -> to` to the outgoing list of `from`.
    ///
    /// An endpoint outside the graph is refused with `NodeOutOfRange`; otherwise a
    /// negative weight is refused with `InvalidWeight`. A refused call leaves the
    /// graph as it was.
    pub fn add_edge(&mut self, from: usize, to: usize, weight: i64) -> (result: Result<
        (),
        GraphError,
    >)
        ensures
            from >= old(self)@.len() || to >= old(self)@.len() ==> result == Err::<
                (),
                GraphError,
            >(GraphError::NodeOutOfRange) && final(self)@ == old(self)@,
            from < old(self)@.len() && to < old(self)@.len() && weight < 0 ==> result == Err::<
                (),
                GraphError,
            >(GraphError::InvalidWeight) && final(self)@ == old(self)@,
            from < old(self)@.len() && to < old(self)@.len() && weight >= 0 ==> result is Ok
                && final(self)@ == with_edge(old(self)@, from as int, to, weight as u64),
    {
        proof {
            use_type_invariant(&*self);
        }
        let n = self.adjacency_list.len();
        if from >= n || to >= n {
            return Err(GraphError::NodeOutOfRange);
        }
        if weight < 0 {
            return Err(GraphError::InvalidWeight);
        }
        // The lists are taken out while one of them grows, so that the graph is
        // well formed at every step.
        let mut lists: Vec<Vec<(usize, u64)>> = Vec::new();
        std::mem::swap(&mut self.adjacency_list, &mut lists);
        lists[from].push((to, weight as u64));
        proof {
            let before = old(self)@;
            let after = Seq::new(lists@.len(), |u: int| lists@[u]@);
            assert(after =~~= with_edge(before, from as int, to, weight as u64));
            assert forall|u: int, i: int|
                0 <= u < after.len() && 0 <= i < after[u].len() implies (#[trigger] after[u][i]).0
                < after.len() by {
                if u != from || i < before[u].len() {
                    assert(after[u][i] == before[u][i]);
                }
            }
        }
        self.adjacency_list = lists;
        proof {
            assert(self@ =~~= with_edge(old(self)@, from as int, to, weight as u64));
        }
        Ok(())
    }
}

} // verus!
