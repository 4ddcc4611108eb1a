//! Traversal results and specifications, and the reachability model that
//! the traversal contracts speak of.

use vstd::prelude::*;

use crate::csr::GraphView;
use crate::types::NodeId;

verus! {

// ---------------------------------------------------------------------
// Reachability
// ---------------------------------------------------------------------

/// `v` is reachable from the sources `s` in at most `k` steps along the
/// edges of `g`.
pub open spec fn reached(g: GraphView, s: Set<u64>, k: nat, v: u64) -> bool
    decreases k,
{
    if k == 0 {
        s.contains(v)
    } else {
        reached(g, s, (k - 1) as nat, v) || exists|u: u64|
            reached(g, s, (k - 1) as nat, u) && #[trigger] g.has_edge(u, v)
    }
}

/// `v` is at distance exactly `d` from the sources `s`.
pub open spec fn at_distance(g: GraphView, s: Set<u64>, v: u64, d: nat) -> bool {
    &&& reached(g, s, d, v)
    &&& d > 0 ==> !reached(g, s, (d - 1) as nat, v)
}

pub proof fn lemma_reached_mono(g: GraphView, s: Set<u64>, a: nat, b: nat, v: u64)
    requires
        a <= b,
        reached(g, s, a, v),
    ensures
        reached(g, s, b, v),
    decreases b - a,
{
    if a < b {
        lemma_reached_mono(g, s, a, (b - 1) as nat, v);
    }
}

/// A node at distance `d` is reached in `k` steps exactly when `d <= k`.
pub proof fn lemma_distance_le(g: GraphView, s: Set<u64>, v: u64, d: nat, k: nat)
    requires
        at_distance(g, s, v, d),
    ensures
        reached(g, s, k, v) <==> d <= k,
{
    if d <= k {
        lemma_reached_mono(g, s, d, k, v);
    }
    if reached(g, s, k, v) && k < d {
        lemma_reached_mono(g, s, k, (d - 1) as nat, v);
    }
}

/// The nodes at distance exactly `d` from the sources.
pub open spec fn level_set(g: GraphView, s: Set<u64>, d: nat) -> Set<NodeId> {
    Set::new(|n: NodeId| at_distance(g, s, n.0, d))
}

// ---------------------------------------------------------------------
// Traversal results
// ---------------------------------------------------------------------

/// The entries of `visited` whose depth (at the same position of
/// `depths`, among the first `n`) is `d`, in order.
pub open spec fn with_depth(visited: Seq<NodeId>, depths: Seq<u32>, n: nat, d: u32) -> Seq<NodeId>
    decreases n,
{
    if n == 0 {
        Seq::empty()
    } else {
        let rest = with_depth(visited, depths, (n - 1) as nat, d);
        if depths[n - 1] == d {
            rest.push(visited[n - 1])
        } else {
            rest
        }
    }
}

/// Number of positions that both sequences have.
pub open spec fn paired_len(visited: Seq<NodeId>, depths: Seq<u32>) -> nat {
    if visited.len() <= depths.len() {
        visited.len()
    } else {
        depths.len()
    }
}

/// The sizes of the depth groups `0 .. top` of the first `n` entries,
/// added up.
pub open spec fn level_sizes(visited: Seq<NodeId>, depths: Seq<u32>, n: nat, top: nat) -> nat
    decreases top,
{
    if top == 0 {
        0
    } else {
        level_sizes(visited, depths, n, (top - 1) as nat) + with_depth(
            visited,
            depths,
            n,
            (top - 1) as u32,
        ).len()
    }
}

proof fn lemma_level_sizes_step(visited: Seq<NodeId>, depths: Seq<u32>, n: nat, top: nat)
    requires
        n > 0,
        top <= u32::MAX as nat + 1,
    ensures
        level_sizes(visited, depths, n, top) == level_sizes(visited, depths, (n - 1) as nat, top) + if depths[n
            - 1] < top {
            1nat
        } else {
            0nat
        },
    decreases top,
{
    if top > 0 {
        lemma_level_sizes_step(visited, depths, n, (top - 1) as nat);
    }
}

/// Grouping the first `n` entries by depth loses none and counts none
/// twice: the groups of all depths below `top`, when every depth is below
/// it, hold `n` entries together. In particular the groups of all depths
/// (`top` = 2^32) hold every entry.
pub proof fn lemma_levels_partition(visited: Seq<NodeId>, depths: Seq<u32>, n: nat, top: nat)
    requires
        n <= depths.len(),
        top <= u32::MAX as nat + 1,
        forall|i: int| 0 <= i < n ==> (#[trigger] depths[i] as nat) < top,
    ensures
        level_sizes(visited, depths, n, top) == n,
    decreases n,
{
    if n == 0 {
        lemma_level_sizes_zero(visited, depths, top);
    } else {
        lemma_level_sizes_step(visited, depths, n, top);
        lemma_levels_partition(visited, depths, (n - 1) as nat, top);
    }
}

proof fn lemma_level_sizes_zero(visited: Seq<NodeId>, depths: Seq<u32>, top: nat)
    ensures
        level_sizes(visited, depths, 0, top) == 0,
    decreases top,
{
    if top > 0 {
        lemma_level_sizes_zero(visited, depths, (top - 1) as nat);
    }
}

/// Result of a graph traversal.
#[derive(Debug, Clone)]
pub struct TraversalResult {
    /// Visited nodes in traversal order.
    pub visited: Vec<NodeId>,
    /// Depth of each visited node (parallel to `visited`).
    pub depths: Vec<u32>,
    /// Maximum depth reached during traversal.
    pub max_depth_reached: u32,
    /// Number of edges traversed.
    pub edges_traversed: usize,
}

impl TraversalResult {
    /// Creates an empty traversal result.
    pub fn empty() -> (r: Self)
        ensures
            r.visited@.len() == 0,
            r.depths@.len() == 0,
            r.max_depth_reached == 0,
            r.edges_traversed == 0,
    {
        TraversalResult { visited: Vec::new(), depths: Vec::new(), max_depth_reached: 0, edges_traversed: 0 }
    }

    /// Returns the number of visited nodes.
    pub fn node_count(&self) -> (r: usize)
        ensures
            r == self.visited@.len(),
    {
        self.visited.len()
    }

    /// Returns the visited nodes at a specific depth, in visiting order.
    pub fn nodes_at_depth(&self, depth: u32) -> (r: Vec<NodeId>)
        ensures
            r@ == with_depth(self.visited@, self.depths@, paired_len(self.visited@, self.depths@), depth),
    {
        let n = if self.visited.len() <= self.depths.len() {
            self.visited.len()
        } else {
            self.depths.len()
        };
        let mut out: Vec<NodeId> = Vec::new();
        let mut i: usize = 0;
        while i < n
            invariant
                i <= n,
                n <= self.visited@.len(),
                n <= self.depths@.len(),
                out@ == with_depth(self.visited@, self.depths@, i as nat, depth),
            decreases n - i,
        {
            if self.depths[i] == depth {
                out.push(self.visited[i]);
            }
            i = i + 1;
        }
        out
    }
}

/// Traversal algorithm to use.
#[derive(Debug, Clone, Copy, PartialEq, Eq, Structural)]
pub enum TraversalAlgorithm {
    /// Breadth-first search.
    Bfs,
    /// Depth-first search.
    Dfs,
    /// Dijkstra's shortest path (requires weighted graph).
    Dijkstra,
}

/// Direction of traversal.
#[derive(Debug, Clone, Copy, PartialEq, Eq, Structural)]
pub enum TraversalDirection {
    /// Follow outgoing edges.
    Outgoing,
    /// Follow incoming edges.
    Incoming,
    /// Follow both directions.
    Both,
}

/// Specification for a traversal operation.
#[derive(Debug, Clone)]
pub struct TraversalSpec {
    /// Starting node(s).
    pub start: Vec<NodeId>,
    /// Maximum depth to traverse.
    pub max_depth: u32,
    /// Maximum number of nodes to visit.
    pub max_nodes: Option<usize>,
    /// Traversal algorithm.
    pub algorithm: TraversalAlgorithm,
    /// Direction to traverse.
    pub direction: TraversalDirection,
}

impl Default for TraversalSpec {
    fn default() -> (r: Self)
        ensures
            r.start@.len() == 0,
            r.max_depth == 10,
            r.max_nodes is None,
            r.algorithm == TraversalAlgorithm::Bfs,
            r.direction == TraversalDirection::Outgoing,
    {
        TraversalSpec {
            start: Vec::new(),
            max_depth: 10,
            max_nodes: None,
            algorithm: TraversalAlgorithm::Bfs,
            direction: TraversalDirection::Outgoing,
        }
    }
}

} // verus!
