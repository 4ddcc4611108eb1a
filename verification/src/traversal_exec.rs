//! Decision logic of the graph traversal operator: which traversal
//! specifications it accepts, which kernel runs (direction-optimizing BFS
//! where a transpose is resident, plain BFS otherwise), and the rows it
//! answers with.

use std::sync::Arc;

use vstd::prelude::*;

use crate::bfs::{bfs_bounded, bfs_outcome, cap_of, in_discovery_order, in_some_discovery_order, BfsResult};
use crate::compaction::reverses;
use crate::csr::{CsrGraph, GraphView};
use crate::dobfs::{bfs_direction_optimized, do_levels, levels_listed, levels_outcome};
use crate::engine::{is_execution, is_not_implemented, is_plan, EngineError};
use crate::text::{decimal, u64_to_decimal};
use crate::traversal::{TraversalAlgorithm, TraversalDirection, TraversalSpec};
use crate::types::NodeId;

verus! {

/// The message for a traversal direction that needs the transpose.
pub open spec fn incoming_message() -> Seq<char> {
    "incoming traversal requires the transposed graph; attach it with GraphTraversalExec::with_reverse (built via CsrGraph::transpose) or register the graph with a reverse in the GraphCatalog"@
}

/// The name of an algorithm, as debug output shows it.
pub open spec fn algorithm_name(a: TraversalAlgorithm) -> Seq<char> {
    match a {
        TraversalAlgorithm::Bfs => "Bfs"@,
        TraversalAlgorithm::Dfs => "Dfs"@,
        TraversalAlgorithm::Dijkstra => "Dijkstra"@,
    }
}

/// What `validate_spec` answers for a specification with `algorithm` and
/// `direction`, with or without a resident transpose.
pub open spec fn spec_verdict(
    algorithm: TraversalAlgorithm,
    direction: TraversalDirection,
    has_reverse: bool,
    r: Result<(), EngineError>,
) -> bool {
    if algorithm != TraversalAlgorithm::Bfs {
        r is Err && is_not_implemented(
            r->Err_0,
            "GraphTraversalExec only supports BFS traversal, got "@ + algorithm_name(algorithm),
        )
    } else {
        match direction {
            TraversalDirection::Outgoing => r is Ok,
            TraversalDirection::Incoming => if has_reverse {
                r is Ok
            } else {
                r is Err && is_plan(r->Err_0, incoming_message())
            },
            TraversalDirection::Both => r is Err && is_not_implemented(
                r->Err_0,
                "GraphTraversalExec does not support bidirectional traversal yet"@,
            ),
        }
    }
}

/// The node IDs and depths of a traversal result, as rows.
pub open spec fn rows_of(res: BfsResult) -> (Seq<u64>, Seq<u32>) {
    (res.visited@.map_values(|n: NodeId| n.0), res.depths@)
}

/// What `bfs_bounded` returns on `f`: `bfs_outcome`, the discovery order of
/// its FIFO queue for the neighbor listings it expanded, and, for a graph
/// with nothing pending, that order exactly.
pub open spec fn bfs_kernel(f: GraphView, starts: Seq<NodeId>, max_depth: u32, cap: nat, res: BfsResult) -> bool {
    &&& bfs_outcome(f, starts, max_depth, cap, res)
    &&& f.delta_empty() ==> in_discovery_order(f, starts, max_depth, cap, res)
    &&& in_some_discovery_order(f, starts, max_depth, cap, res)
}

/// What the kernel run by the operator gives over `forward` (with the
/// transpose `reverse`, if resident) for `starts`, `max_depth` and the
/// node cap `max_nodes` (`usize::MAX` for none).
///
/// With a transpose, a single start and no cap, the direction-optimizing
/// BFS runs: where it refuses the pair of graphs (counts differ, or the
/// transpose has pending mutations) plain BFS runs instead; with pending
/// mutations on `forward` it is plain BFS; otherwise it gives nothing for
/// a start outside the graph and, where `reverse` is the transpose of
/// `forward`, the levels from the start. Every other request runs plain
/// BFS with the cap.
pub open spec fn kernel_outcome(
    forward: CsrGraph,
    reverse: Option<CsrGraph>,
    starts: Seq<NodeId>,
    max_depth: u32,
    max_nodes: usize,
    res: BfsResult,
) -> bool {
    let bounded = if max_nodes == usize::MAX {
        None
    } else {
        Some(max_nodes)
    };
    let f = forward@;
    if reverse is Some && bounded is None && starts.len() == 1 {
        let rv = reverse->0@;
        if f.node_count == rv.node_count && f.edge_count == rv.edge_count && rv.delta_empty() {
            if !f.delta_empty() {
                bfs_kernel(f, starts, max_depth, usize::MAX as nat, res)
            } else if starts[0].0 >= f.node_count {
                res.visited@.len() == 0 && res.depths@.len() == 0
            } else {
                &&& reverses(f, rv) ==> levels_outcome(f, starts[0], max_depth, res)
                &&& levels_listed(res)
                &&& do_levels(
                    f,
                    rv,
                    starts[0],
                    max_depth,
                    res.levels@.map_values(|l: Vec<NodeId>| l@),
                    res.max_depth_reached,
                    res.edges_examined,
                )
            }
        } else {
            bfs_kernel(f, starts, max_depth, usize::MAX as nat, res)
        }
    } else {
        bfs_kernel(f, starts, max_depth, cap_of(bounded), res)
    }
}

/// The graph traversal operator: a graph, its transpose if resident, and
/// the traversal to run.
#[derive(Debug)]
pub struct GraphTraversalExec {
    graph: Arc<CsrGraph>,
    reverse: Option<Arc<CsrGraph>>,
    spec: TraversalSpec,
}

impl GraphTraversalExec {
    /// The graph.
    pub closed spec fn spec_graph(&self) -> CsrGraph {
        *self.graph
    }

    /// The transpose, if attached.
    pub closed spec fn spec_reverse(&self) -> Option<CsrGraph> {
        match self.reverse {
            Some(r) => Some(*r),
            None => None,
        }
    }

    /// The traversal specification.
    pub closed spec fn spec_spec(&self) -> TraversalSpec {
        self.spec
    }

    /// Both graphs are well formed.
    pub open spec fn wf(&self) -> bool {
        &&& self.spec_graph().wf()
        &&& self.spec_reverse() matches Some(r) ==> r.wf()
    }

    /// The graph the traversal runs over: the transpose for incoming
    /// traversals, the graph otherwise.
    pub open spec fn spec_forward(&self) -> CsrGraph {
        if self.spec_spec().direction == TraversalDirection::Incoming {
            self.spec_reverse()->0
        } else {
            self.spec_graph()
        }
    }

    /// The transpose of `spec_forward`, if resident.
    pub open spec fn spec_backward(&self) -> Option<CsrGraph> {
        if self.spec_spec().direction == TraversalDirection::Incoming {
            Some(self.spec_graph())
        } else {
            self.spec_reverse()
        }
    }

    /// Creates the operator for `spec` over `graph`.
    pub fn new(graph: Arc<CsrGraph>, spec: TraversalSpec) -> (r: Self)
        requires
            graph.wf(),
        ensures
            r.wf(),
            r.spec_graph() == *graph,
            r.spec_reverse() is None,
            r.spec_spec() == spec,
    {
        GraphTraversalExec { graph, reverse: None, spec }
    }

    /// Attaches the transposed graph.
    pub fn with_reverse(self, reverse: Arc<CsrGraph>) -> (r: Self)
        requires
            self.wf(),
            reverse.wf(),
        ensures
            r.wf(),
            r.spec_graph() == self.spec_graph(),
            r.spec_reverse() == Some(*reverse),
            r.spec_spec() == self.spec_spec(),
    {
        let mut s = self;
        s.reverse = Some(reverse);
        s
    }

    /// Returns the traversal specification.
    pub fn spec(&self) -> (r: &TraversalSpec)
        ensures
            *r == self.spec_spec(),
    {
        &self.spec
    }

    /// Returns the graph.
    pub fn graph(&self) -> (r: &Arc<CsrGraph>)
        ensures
            **r == self.spec_graph(),
    {
        &self.graph
    }

    /// Whether a transpose is attached.
    pub fn has_reverse(&self) -> (r: bool)
        ensures
            r == self.spec_reverse() is Some,
    {
        self.reverse.is_some()
    }

    /// Accepts BFS traversals that are outgoing, or incoming with a
    /// resident transpose; see `spec_verdict`.
    pub fn validate_spec(&self) -> (r: Result<(), EngineError>)
        ensures
            spec_verdict(self.spec_spec().algorithm, self.spec_spec().direction, self.spec_reverse() is Some, r),
    {
        match self.spec.algorithm {
            TraversalAlgorithm::Bfs => {},
            TraversalAlgorithm::Dfs => {
                let msg = String::from_str("GraphTraversalExec only supports BFS traversal, got Dfs");
                proof {
                    reveal_strlit("GraphTraversalExec only supports BFS traversal, got Dfs");
                    reveal_strlit("GraphTraversalExec only supports BFS traversal, got ");
                    reveal_strlit("Dfs");
                    assert(msg@ =~= "GraphTraversalExec only supports BFS traversal, got "@ + "Dfs"@);
                }
                return Err(EngineError::NotImplemented(msg));
            },
            TraversalAlgorithm::Dijkstra => {
                let msg = String::from_str("GraphTraversalExec only supports BFS traversal, got Dijkstra");
                proof {
                    reveal_strlit("GraphTraversalExec only supports BFS traversal, got Dijkstra");
                    reveal_strlit("GraphTraversalExec only supports BFS traversal, got ");
                    reveal_strlit("Dijkstra");
                    assert(msg@ =~= "GraphTraversalExec only supports BFS traversal, got "@ + "Dijkstra"@);
                }
                return Err(EngineError::NotImplemented(msg));
            },
        }
        match self.spec.direction {
            TraversalDirection::Outgoing => Ok(()),
            TraversalDirection::Incoming => {
                if self.reverse.is_some() {
                    Ok(())
                } else {
                    Err(
                        EngineError::Plan(
                            String::from_str(
                                "incoming traversal requires the transposed graph; attach it with GraphTraversalExec::with_reverse (built via CsrGraph::transpose) or register the graph with a reverse in the GraphCatalog",
                            ),
                        ),
                    )
                }
            },
            TraversalDirection::Both => Err(
                EngineError::NotImplemented(
                    String::from_str("GraphTraversalExec does not support bidirectional traversal yet"),
                ),
            ),
        }
    }

    /// Runs the traversal with the node cap `max_nodes` (`usize::MAX` for
    /// none) and answers with the node IDs and depths, in visiting order;
    /// see `kernel_outcome`.
    pub fn collect_bfs_rows(&self, max_nodes: usize) -> (r: (Vec<u64>, Vec<u32>))
        requires
            self.wf(),
            self.spec_spec().direction == TraversalDirection::Incoming ==> self.spec_reverse() is Some,
        ensures
            max_nodes == 0 ==> r.0@.len() == 0 && r.1@.len() == 0,
            max_nodes != 0 ==> exists|res: BfsResult|
                kernel_outcome(
                    self.spec_forward(),
                    self.spec_backward(),
                    self.spec_spec().start@,
                    self.spec_spec().max_depth,
                    max_nodes,
                    res,
                ) && (r.0@, r.1@) == rows_of(res),
    {
        if max_nodes == 0 {
            return (Vec::new(), Vec::new());
        }
        let bounded = if max_nodes == usize::MAX {
            None
        } else {
            Some(max_nodes)
        };
        let (forward, reverse): (&CsrGraph, Option<&CsrGraph>) = match self.spec.direction {
            TraversalDirection::Incoming => {
                let fwd: &CsrGraph = match &self.reverse {
                    Some(rv) => &**rv,
                    None => vstd::pervasive::unreached(),
                };
                (fwd, Some(&*self.graph))
            },
            _ => {
                let rev: Option<&CsrGraph> = match &self.reverse {
                    Some(rv) => Some(&**rv),
                    None => None,
                };
                (&*self.graph, rev)
            },
        };
        proof {
            assert(*forward == self.spec_forward());
            assert(match reverse {
                Some(x) => self.spec_backward() == Some(*x),
                None => self.spec_backward() is None,
            });
        }
        let starts = self.spec.start.as_slice();
        let max_depth = self.spec.max_depth;
        let ghost fw = self.spec_forward();
        let ghost bw = self.spec_backward();
        proof {
            assert(starts@ == self.spec_spec().start@);
        }
        let result = match reverse {
            Some(rev) if bounded.is_none() && starts.len() == 1 => {
                proof {
                    assert(starts@ =~= seq![starts@[0]]);
                }
                match bfs_direction_optimized(forward, rev, starts[0], max_depth) {
                    Ok(res) => {
                        proof {
                            assert(kernel_outcome(fw, bw, starts@, max_depth, max_nodes, res));
                        }
                        res
                    },
                    Err(_) => {
                        let res = bfs_bounded(forward, starts, max_depth, bounded);
                        proof {
                            assert(kernel_outcome(fw, bw, starts@, max_depth, max_nodes, res));
                        }
                        res
                    },
                }
            },
            _ => {
                let res = bfs_bounded(forward, starts, max_depth, bounded);
                proof {
                    assert(kernel_outcome(fw, bw, starts@, max_depth, max_nodes, res));
                }
                res
            },
        };
        let mut node_ids: Vec<u64> = Vec::new();
        let mut k: usize = 0;
        while k < result.visited.len()
            invariant
                k <= result.visited@.len(),
                node_ids@ == result.visited@.take(k as int).map_values(|n: NodeId| n.0),
            decreases result.visited@.len() - k,
        {
            node_ids.push(result.visited[k].0);
            proof {
                assert(result.visited@.take(k + 1) =~= result.visited@.take(k as int).push(result.visited@[k as int]));
                assert(node_ids@ =~= result.visited@.take(k + 1).map_values(|n: NodeId| n.0));
            }
            k = k + 1;
        }
        proof {
            assert(result.visited@.take(k as int) =~= result.visited@);
            assert(kernel_outcome(
                self.spec_forward(),
                self.spec_backward(),
                self.spec_spec().start@,
                self.spec_spec().max_depth,
                max_nodes,
                result,
            ));
        }
        let depths = result.depths;
        proof {
            assert(node_ids@ =~= rows_of(result).0);
            assert(depths@ =~= rows_of(result).1);
            assert((node_ids@, depths@) == rows_of(result));
        }
        (node_ids, depths)
    }

    /// What the operator answers for output `partition`: partition 0 runs
    /// a valid specification with its node cap, any other is refused.
    pub fn execute_rows(&self, partition: usize) -> (r: Result<(Vec<u64>, Vec<u32>), EngineError>)
        requires
            self.wf(),
        ensures
            partition != 0 ==> r is Err && is_execution(
                r->Err_0,
                "GraphTraversalExec only supports partition 0, got "@ + decimal(partition as nat),
            ),
            partition == 0 ==> {
                let spec = self.spec_spec();
                let cap: usize = match spec.max_nodes {
                    Some(m) => m,
                    None => usize::MAX,
                };
                &&& spec_refused(spec.algorithm, spec.direction, self.spec_reverse() is Some) ==> r is Err
                    && spec_verdict(
                    spec.algorithm,
                    spec.direction,
                    self.spec_reverse() is Some,
                    Err::<(), EngineError>(r->Err_0),
                )
                &&& !spec_refused(spec.algorithm, spec.direction, self.spec_reverse() is Some) ==> r is Ok
                    && (cap == 0 ==> r->Ok_0.0@.len() == 0 && r->Ok_0.1@.len() == 0) && (cap != 0 ==> exists|
                    res: BfsResult,
                |
                    kernel_outcome(
                        self.spec_forward(),
                        self.spec_backward(),
                        spec.start@,
                        spec.max_depth,
                        cap,
                        res,
                    ) && (r->Ok_0.0@, r->Ok_0.1@) == rows_of(res))
            },
    {
        if partition != 0 {
            let mut msg = String::from_str("GraphTraversalExec only supports partition 0, got ");
            msg.append(u64_to_decimal(partition as u64).as_str());
            proof {
                reveal_strlit("GraphTraversalExec only supports partition 0, got ");
            }
            return Err(EngineError::Execution(msg));
        }
        match self.validate_spec() {
            Ok(()) => {},
            Err(e) => {
                return Err(e);
            },
        }
        let max_nodes = match self.spec.max_nodes {
            Some(m) => m,
            None => usize::MAX,
        };
        Ok(self.collect_bfs_rows(max_nodes))
    }
}

/// The operator refuses a specification with `algorithm` and `direction`.
pub open spec fn spec_refused(
    algorithm: TraversalAlgorithm,
    direction: TraversalDirection,
    has_reverse: bool,
) -> bool {
    algorithm != TraversalAlgorithm::Bfs || direction == TraversalDirection::Both || (direction
        == TraversalDirection::Incoming && !has_reverse)
}

} // verus!
