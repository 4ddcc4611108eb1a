//! Values exchanged with foreign callers.

use vstd::prelude::*;

verus! {

/// Statistics about a graph operation, laid out for foreign callers.
#[derive(Debug, Clone, Copy, PartialEq, Eq, Structural)]
pub struct FusionGraphStats {
    /// Number of nodes visited.
    pub nodes_visited: u64,
    /// Number of edges traversed.
    pub edges_traversed: u64,
    /// Execution time in microseconds.
    pub execution_time_us: u64,
}

impl Default for FusionGraphStats {
    fn default() -> (r: Self)
        ensures
            r.nodes_visited == 0,
            r.edges_traversed == 0,
            r.execution_time_us == 0,
    {
        FusionGraphStats { nodes_visited: 0, edges_traversed: 0, execution_time_us: 0 }
    }
}

} // verus!
