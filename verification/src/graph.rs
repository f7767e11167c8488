//! The graph store: an immutable list of nodes, each with a value and an
//! ordered list of neighbor positions.

use vstd::prelude::*;

verus! {

/// A single graph node: a value and the positions of its neighbors inside
/// the owning graph's node list.
#[derive(Debug)]
pub struct Node {
    pub value: i32,
    pub neighbors: Vec<usize>,
}

/// Why a node list cannot be made into a graph.
#[derive(Debug, Clone, Copy, PartialEq, Eq)]
pub enum GraphError {
    /// Some node names a neighbor position at or past the node count.
    NeighborOutOfRange,
}

/// An immutable directed graph: nodes indexed by position `0..len`.
/// Neighbor positions are indices into the same list.
#[derive(Debug)]
pub struct Graph {
    pub nodes: Vec<Node>,
}

/// Every neighbor position named by any node lies inside the node list.
pub open spec fn nodes_wf(nodes: Seq<Node>) -> bool {
    forall|i: int, j: int|
        0 <= i < nodes.len() && 0 <= j < nodes[i].neighbors@.len()
            ==> (#[trigger] nodes[i].neighbors@[j]) < nodes.len()
}

impl Graph {
    /// The graph's invariant: no dangling neighbor reference.
    pub open spec fn wf(self) -> bool {
        nodes_wf(self.nodes@)
    }

    pub open spec fn node_count(self) -> nat {
        self.nodes@.len()
    }

    /// There is an edge from `u` to `v`: `v` occurs in `u`'s neighbor list.
    pub open spec fn edge(self, u: usize, v: usize) -> bool {
        u < self.nodes@.len() && self.nodes@[u as int].neighbors@.contains(v)
    }

    /// The value stored at position `p`.
    pub open spec fn value_at(self, p: usize) -> i32 {
        self.nodes@[p as int].value
    }

    /// Builds a graph from a literal node list, the only supported build
    /// path.  Every neighbor position is checked up front: a dangling
    /// reference is rejected here so that traversal never meets one.
    #[verifier::loop_isolation(false)]
    pub fn new(nodes: Vec<Node>) -> (r: Result<Graph, GraphError>)
        ensures
            r is Ok <==> nodes_wf(nodes@),
            r matches Ok(g) ==> g.nodes == nodes,
            r matches Err(e) ==> e == GraphError::NeighborOutOfRange,
    {
        let n = nodes.len();
        let mut i: usize = 0;
        while i < n
            invariant
                i <= n,
                forall|a: int, b: int|
                    0 <= a < i && 0 <= b < nodes@[a].neighbors@.len()
                        ==> (#[trigger] nodes@[a].neighbors@[b]) < n,
            decreases n - i,
        {
            let m = nodes[i].neighbors.len();
            let mut j: usize = 0;
            while j < m
                invariant
                    j <= m,
                    forall|b: int|
                        0 <= b < j ==> (#[trigger] nodes@[i as int].neighbors@[b]) < n,
                decreases m - j,
            {
                if nodes[i].neighbors[j] >= n {
                    return Err(GraphError::NeighborOutOfRange);
                }
                j += 1;
            }
            i += 1;
        }
        Ok(Graph { nodes })
    }

    /// Number of nodes in the graph.
    pub fn len(&self) -> (n: usize)
        ensures
            n == self.node_count(),
    {
        self.nodes.len()
    }

    /// The value stored at position `p`.
    pub fn value_of(&self, p: usize) -> (v: i32)
        requires
            p < self.node_count(),
        ensures
            v == self.value_at(p),
    {
        self.nodes[p].value
    }
}

} // verus!
