//! Error types for graph operations.

use vstd::prelude::*;

use crate::text::{decimal, u64_to_decimal};
use crate::types::NodeId;

verus! {

/// Errors that can occur during graph operations.
#[derive(Debug)]
pub enum GraphError {
    /// Node was not found in the graph.
    NodeNotFound {
        /// The node ID that was not found.
        node_id: NodeId,
    },
    /// CSR build failed due to out of memory.
    OutOfMemory {
        /// Bytes requested.
        requested: usize,
        /// Bytes available.
        available: usize,
    },
    /// CSR shard corruption detected.
    ShardCorruption {
        /// The corrupted shard ID.
        shard_id: u32,
    },
    /// Invalid edge data.
    InvalidEdge {
        /// Source node ID.
        from: NodeId,
        /// Target node ID.
        to: NodeId,
    },
    /// The graph exceeds the capacity limits of the CSR representation.
    UnsupportedGraphSize {
        /// Which limit was exceeded.
        reason: String,
    },
    /// Delta layer overflow.
    DeltaOverflow {
        /// Current entry count.
        count: usize,
        /// Configured threshold.
        threshold: usize,
    },
    /// Traversal timeout.
    TraversalTimeout {
        /// Duration in milliseconds.
        duration_ms: u64,
        /// Number of nodes visited before timeout.
        nodes_visited: usize,
    },
    /// Invalid traversal specification.
    InvalidTraversal {
        /// Reason for invalidity.
        reason: String,
    },
    /// A circuit breaker is open and rejects requests.
    CircuitOpen,
}

/// The error code of each variant.
pub open spec fn graph_error_code(e: GraphError) -> Seq<char> {
    match e {
        GraphError::NodeNotFound { .. } => "FG-TRV-E001"@,
        GraphError::OutOfMemory { .. } => "FG-CSR-E001"@,
        GraphError::ShardCorruption { .. } => "FG-CSR-F001"@,
        GraphError::InvalidEdge { .. } => "FG-CSR-E002"@,
        GraphError::UnsupportedGraphSize { .. } => "FG-CSR-E004"@,
        GraphError::DeltaOverflow { .. } => "FG-DLT-E001"@,
        GraphError::TraversalTimeout { .. } => "FG-TRV-E003"@,
        GraphError::InvalidTraversal { .. } => "FG-TRV-E002"@,
        GraphError::CircuitOpen => "FG-SYS-E001"@,
    }
}

/// The human-readable message of each variant, prefixed by its code.
pub open spec fn graph_error_message(e: GraphError) -> Seq<char> {
    match e {
        GraphError::NodeNotFound { node_id } => "FG-TRV-E001: Node Node("@ + decimal(
            node_id.0 as nat,
        ) + ") not found in graph"@,
        GraphError::OutOfMemory { requested, available } => "FG-CSR-E001: Out of memory (requested "@
            + decimal(requested as nat) + " bytes, available "@ + decimal(available as nat) + ")"@,
        GraphError::ShardCorruption { shard_id } => "FG-CSR-F001: Memory corruption in shard "@
            + decimal(shard_id as nat),
        GraphError::InvalidEdge { from, to } => "FG-CSR-E002: Invalid edge: source Node("@ + decimal(
            from.0 as nat,
        ) + ") or target Node("@ + decimal(to.0 as nat) + ") out of range"@,
        GraphError::UnsupportedGraphSize { reason } => "FG-CSR-E004: Unsupported graph size: "@
            + reason@,
        GraphError::DeltaOverflow { count, threshold } => "FG-DLT-E001: Delta layer overflow ("@
            + decimal(count as nat) + " entries exceed threshold "@ + decimal(threshold as nat)
            + ")"@,
        GraphError::TraversalTimeout { duration_ms, nodes_visited } =>
            "FG-TRV-E003: Traversal timed out after "@ + decimal(duration_ms as nat)
            + "ms (visited "@ + decimal(nodes_visited as nat) + " nodes)"@,
        GraphError::InvalidTraversal { reason } => "FG-TRV-E002: Invalid traversal: "@ + reason@,
        GraphError::CircuitOpen => "FG-SYS-E001: Circuit breaker open"@,
    }
}

impl GraphError {
    /// Returns the error code for this error.
    pub fn code(&self) -> (r: &'static str)
        ensures
            r@ == graph_error_code(*self),
    {
        match self {
            GraphError::NodeNotFound { .. } => "FG-TRV-E001",
            GraphError::OutOfMemory { .. } => "FG-CSR-E001",
            GraphError::ShardCorruption { .. } => "FG-CSR-F001",
            GraphError::InvalidEdge { .. } => "FG-CSR-E002",
            GraphError::UnsupportedGraphSize { .. } => "FG-CSR-E004",
            GraphError::DeltaOverflow { .. } => "FG-DLT-E001",
            GraphError::TraversalTimeout { .. } => "FG-TRV-E003",
            GraphError::InvalidTraversal { .. } => "FG-TRV-E002",
            GraphError::CircuitOpen => "FG-SYS-E001",
        }
    }

    /// Returns true if this is a fatal error.
    pub fn is_fatal(&self) -> (r: bool)
        ensures
            r <==> self is ShardCorruption,
    {
        matches!(self, GraphError::ShardCorruption { .. })
    }

    /// Returns true if the operation can be retried.
    pub fn is_retryable(&self) -> (r: bool)
        ensures
            r <==> (self is OutOfMemory || self is TraversalTimeout || self is CircuitOpen),
    {
        match self {
            GraphError::OutOfMemory { .. } => true,
            GraphError::TraversalTimeout { .. } => true,
            GraphError::CircuitOpen => true,
            _ => false,
        }
    }

    /// Renders the error message, which starts with the error code.
    pub fn to_string(&self) -> (s: String)
        ensures
            s@ == graph_error_message(*self),
    {
        match self {
            GraphError::NodeNotFound { node_id } => {
                let mut s = String::from_str("FG-TRV-E001: Node Node(");
                s.append(u64_to_decimal(node_id.0).as_str());
                s.append(") not found in graph");
                s
            },
            GraphError::OutOfMemory { requested, available } => {
                let mut s = String::from_str("FG-CSR-E001: Out of memory (requested ");
                s.append(u64_to_decimal(*requested as u64).as_str());
                s.append(" bytes, available ");
                s.append(u64_to_decimal(*available as u64).as_str());
                s.append(")");
                s
            },
            GraphError::ShardCorruption { shard_id } => {
                let mut s = String::from_str("FG-CSR-F001: Memory corruption in shard ");
                s.append(u64_to_decimal(*shard_id as u64).as_str());
                s
            },
            GraphError::InvalidEdge { from, to } => {
                let mut s = String::from_str("FG-CSR-E002: Invalid edge: source Node(");
                s.append(u64_to_decimal(from.0).as_str());
                s.append(") or target Node(");
                s.append(u64_to_decimal(to.0).as_str());
                s.append(") out of range");
                s
            },
            GraphError::UnsupportedGraphSize { reason } => {
                let mut s = String::from_str("FG-CSR-E004: Unsupported graph size: ");
                s.append(reason.as_str());
                s
            },
            GraphError::DeltaOverflow { count, threshold } => {
                let mut s = String::from_str("FG-DLT-E001: Delta layer overflow (");
                s.append(u64_to_decimal(*count as u64).as_str());
                s.append(" entries exceed threshold ");
                s.append(u64_to_decimal(*threshold as u64).as_str());
                s.append(")");
                s
            },
            GraphError::TraversalTimeout { duration_ms, nodes_visited } => {
                let mut s = String::from_str("FG-TRV-E003: Traversal timed out after ");
                s.append(u64_to_decimal(*duration_ms).as_str());
                s.append("ms (visited ");
                s.append(u64_to_decimal(*nodes_visited as u64).as_str());
                s.append(" nodes)");
                s
            },
            GraphError::InvalidTraversal { reason } => {
                let mut s = String::from_str("FG-TRV-E002: Invalid traversal: ");
                s.append(reason.as_str());
                s
            },
            GraphError::CircuitOpen => String::from_str("FG-SYS-E001: Circuit breaker open"),
        }
    }
}

/// The position of each variant in the declaration of `GraphError`.
pub open spec fn graph_error_kind(e: GraphError) -> int {
    match e {
        GraphError::NodeNotFound { .. } => 0,
        GraphError::OutOfMemory { .. } => 1,
        GraphError::ShardCorruption { .. } => 2,
        GraphError::InvalidEdge { .. } => 3,
        GraphError::UnsupportedGraphSize { .. } => 4,
        GraphError::DeltaOverflow { .. } => 5,
        GraphError::TraversalTimeout { .. } => 6,
        GraphError::InvalidTraversal { .. } => 7,
        GraphError::CircuitOpen => 8,
    }
}

/// A prefix `p` followed by anything starts with `p`.
proof fn lemma_prefix_of_concat(p: Seq<char>, rest: Seq<char>)
    ensures
        (p + rest).len() >= p.len(),
        (p + rest).subrange(0, p.len() as int) == p,
{
    assert((p + rest).subrange(0, p.len() as int) =~= p);
}

/// Every error's message starts with its code followed by ": ", and no two
/// kinds of error share a code.
pub proof fn lemma_message_starts_with_code(e: GraphError, f: GraphError)
    ensures
        graph_error_message(e).len() >= graph_error_code(e).len() + 2,
        graph_error_message(e).subrange(0, graph_error_code(e).len() + 2int) == graph_error_code(e) + ": "@,
        graph_error_code(e) == graph_error_code(f) ==> graph_error_kind(e) == graph_error_kind(f),
{
    reveal_strlit(": ");
    reveal_strlit("FG-TRV-E001");
    reveal_strlit("FG-CSR-E001");
    reveal_strlit("FG-CSR-F001");
    reveal_strlit("FG-CSR-E002");
    reveal_strlit("FG-CSR-E004");
    reveal_strlit("FG-DLT-E001");
    reveal_strlit("FG-TRV-E003");
    reveal_strlit("FG-TRV-E002");
    reveal_strlit("FG-SYS-E001");
    let c = graph_error_code(e);
    let m = graph_error_message(e);
    let p: Seq<char> = c + ": "@;
    match e {
        GraphError::NodeNotFound { node_id } => {
            reveal_strlit("FG-TRV-E001: Node Node(");
            assert(m == "FG-TRV-E001: Node Node("@ + (decimal(node_id.0 as nat) + ") not found in graph"@));
            assert("FG-TRV-E001: Node Node("@ =~= p + "Node Node("@) by {
                reveal_strlit("Node Node(");
            }
            lemma_prefix_of_concat(p, "Node Node("@ + (decimal(node_id.0 as nat) + ") not found in graph"@));
            assert(m =~= p + ("Node Node("@ + (decimal(node_id.0 as nat) + ") not found in graph"@)));
        },
        GraphError::OutOfMemory { requested, available } => {
            let rest = decimal(requested as nat) + " bytes, available "@ + decimal(available as nat) + ")"@;
            reveal_strlit("FG-CSR-E001: Out of memory (requested ");
            reveal_strlit("Out of memory (requested ");
            assert("FG-CSR-E001: Out of memory (requested "@ =~= p + "Out of memory (requested "@);
            lemma_prefix_of_concat(p, "Out of memory (requested "@ + rest);
            assert(m =~= p + ("Out of memory (requested "@ + rest));
        },
        GraphError::ShardCorruption { shard_id } => {
            reveal_strlit("FG-CSR-F001: Memory corruption in shard ");
            reveal_strlit("Memory corruption in shard ");
            assert("FG-CSR-F001: Memory corruption in shard "@ =~= p + "Memory corruption in shard "@);
            lemma_prefix_of_concat(p, "Memory corruption in shard "@ + decimal(shard_id as nat));
            assert(m =~= p + ("Memory corruption in shard "@ + decimal(shard_id as nat)));
        },
        GraphError::InvalidEdge { from, to } => {
            let rest = decimal(from.0 as nat) + ") or target Node("@ + decimal(to.0 as nat) + ") out of range"@;
            reveal_strlit("FG-CSR-E002: Invalid edge: source Node(");
            reveal_strlit("Invalid edge: source Node(");
            assert("FG-CSR-E002: Invalid edge: source Node("@ =~= p + "Invalid edge: source Node("@);
            lemma_prefix_of_concat(p, "Invalid edge: source Node("@ + rest);
            assert(m =~= p + ("Invalid edge: source Node("@ + rest));
        },
        GraphError::UnsupportedGraphSize { reason } => {
            reveal_strlit("FG-CSR-E004: Unsupported graph size: ");
            reveal_strlit("Unsupported graph size: ");
            assert("FG-CSR-E004: Unsupported graph size: "@ =~= p + "Unsupported graph size: "@);
            lemma_prefix_of_concat(p, "Unsupported graph size: "@ + reason@);
            assert(m =~= p + ("Unsupported graph size: "@ + reason@));
        },
        GraphError::DeltaOverflow { count, threshold } => {
            let rest = decimal(count as nat) + " entries exceed threshold "@ + decimal(threshold as nat) + ")"@;
            reveal_strlit("FG-DLT-E001: Delta layer overflow (");
            reveal_strlit("Delta layer overflow (");
            assert("FG-DLT-E001: Delta layer overflow ("@ =~= p + "Delta layer overflow ("@);
            lemma_prefix_of_concat(p, "Delta layer overflow ("@ + rest);
            assert(m =~= p + ("Delta layer overflow ("@ + rest));
        },
        GraphError::TraversalTimeout { duration_ms, nodes_visited } => {
            let rest = decimal(duration_ms as nat) + "ms (visited "@ + decimal(nodes_visited as nat) + " nodes)"@;
            reveal_strlit("FG-TRV-E003: Traversal timed out after ");
            reveal_strlit("Traversal timed out after ");
            assert("FG-TRV-E003: Traversal timed out after "@ =~= p + "Traversal timed out after "@);
            lemma_prefix_of_concat(p, "Traversal timed out after "@ + rest);
            assert(m =~= p + ("Traversal timed out after "@ + rest));
        },
        GraphError::InvalidTraversal { reason } => {
            reveal_strlit("FG-TRV-E002: Invalid traversal: ");
            reveal_strlit("Invalid traversal: ");
            assert("FG-TRV-E002: Invalid traversal: "@ =~= p + "Invalid traversal: "@);
            lemma_prefix_of_concat(p, "Invalid traversal: "@ + reason@);
            assert(m =~= p + ("Invalid traversal: "@ + reason@));
        },
        GraphError::CircuitOpen => {
            reveal_strlit("FG-SYS-E001: Circuit breaker open");
            reveal_strlit("Circuit breaker open");
            assert("FG-SYS-E001: Circuit breaker open"@ =~= p + "Circuit breaker open"@);
            lemma_prefix_of_concat(p, "Circuit breaker open"@);
        },
    }
    lemma_code_names_kind(e);
    lemma_code_names_kind(f);
}

/// The kind of error a code names, read from its subsystem letter, its
/// severity letter and its last digit.
spec fn kind_of_code(c: Seq<char>) -> int {
    if c[3] == 'T' {
        if c[10] == '1' {
            0
        } else if c[10] == '3' {
            6
        } else {
            7
        }
    } else if c[3] == 'C' {
        if c[7] == 'F' {
            2
        } else if c[10] == '1' {
            1
        } else if c[10] == '2' {
            3
        } else {
            4
        }
    } else if c[3] == 'D' {
        5
    } else {
        8
    }
}

proof fn lemma_code_names_kind(e: GraphError)
    ensures
        kind_of_code(graph_error_code(e)) == graph_error_kind(e),
{
    match e {
        GraphError::NodeNotFound { .. } => {
            reveal_strlit("FG-TRV-E001");
            assert("FG-TRV-E001"@[3] == 'T' && "FG-TRV-E001"@[7] == 'E' && "FG-TRV-E001"@[10] == '1');
        },
        GraphError::OutOfMemory { .. } => {
            reveal_strlit("FG-CSR-E001");
            assert("FG-CSR-E001"@[3] == 'C' && "FG-CSR-E001"@[7] == 'E' && "FG-CSR-E001"@[10] == '1');
        },
        GraphError::ShardCorruption { .. } => {
            reveal_strlit("FG-CSR-F001");
            assert("FG-CSR-F001"@[3] == 'C' && "FG-CSR-F001"@[7] == 'F' && "FG-CSR-F001"@[10] == '1');
        },
        GraphError::InvalidEdge { .. } => {
            reveal_strlit("FG-CSR-E002");
            assert("FG-CSR-E002"@[3] == 'C' && "FG-CSR-E002"@[7] == 'E' && "FG-CSR-E002"@[10] == '2');
        },
        GraphError::UnsupportedGraphSize { .. } => {
            reveal_strlit("FG-CSR-E004");
            assert("FG-CSR-E004"@[3] == 'C' && "FG-CSR-E004"@[7] == 'E' && "FG-CSR-E004"@[10] == '4');
        },
        GraphError::DeltaOverflow { .. } => {
            reveal_strlit("FG-DLT-E001");
            assert("FG-DLT-E001"@[3] == 'D' && "FG-DLT-E001"@[7] == 'E' && "FG-DLT-E001"@[10] == '1');
        },
        GraphError::TraversalTimeout { .. } => {
            reveal_strlit("FG-TRV-E003");
            assert("FG-TRV-E003"@[3] == 'T' && "FG-TRV-E003"@[7] == 'E' && "FG-TRV-E003"@[10] == '3');
        },
        GraphError::InvalidTraversal { .. } => {
            reveal_strlit("FG-TRV-E002");
            assert("FG-TRV-E002"@[3] == 'T' && "FG-TRV-E002"@[7] == 'E' && "FG-TRV-E002"@[10] == '2');
        },
        GraphError::CircuitOpen => {
            reveal_strlit("FG-SYS-E001");
            assert("FG-SYS-E001"@[3] == 'S' && "FG-SYS-E001"@[7] == 'E' && "FG-SYS-E001"@[10] == '1');
        },
    }
}

} // verus!
