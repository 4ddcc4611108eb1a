//! Core identifier and statistics types.

use vstd::prelude::*;

use crate::text::{decimal, u64_to_decimal};

verus! {

/// A unique identifier for a node in the graph.
#[derive(Debug, Clone, Copy, PartialEq, Eq, Hash, PartialOrd, Ord, Structural)]
pub struct NodeId(pub u64);

impl NodeId {
    /// Creates a new `NodeId` from a `u64` value.
    pub fn new(id: u64) -> (r: Self)
        ensures
            r.0 == id,
    {
        NodeId(id)
    }

    /// Returns the raw `u64` value.
    pub fn as_u64(self) -> (r: u64)
        ensures
            r == self.0,
    {
        self.0
    }

    /// Renders the identifier as `Node(<id>)`.
    pub fn to_string(&self) -> (s: String)
        ensures
            s@ == "Node("@ + decimal(self.0 as nat) + ")"@,
    {
        let mut s = String::from_str("Node(");
        let digits = u64_to_decimal(self.0);
        s.append(digits.as_str());
        s.append(")");
        s
    }
}

impl From<u64> for NodeId {
    fn from(id: u64) -> (r: Self) {
        NodeId(id)
    }
}

impl vstd::std_specs::convert::FromSpecImpl<u64> for NodeId {
    open spec fn obeys_from_spec() -> bool {
        true
    }

    open spec fn from_spec(v: u64) -> Self {
        NodeId(v)
    }
}

impl From<u32> for NodeId {
    fn from(id: u32) -> (r: Self) {
        NodeId(id as u64)
    }
}

impl vstd::std_specs::convert::FromSpecImpl<u32> for NodeId {
    open spec fn obeys_from_spec() -> bool {
        true
    }

    open spec fn from_spec(v: u32) -> Self {
        NodeId(v as u64)
    }
}

/// A unique identifier for an edge in the graph.
#[derive(Debug, Clone, Copy, PartialEq, Eq, Hash, Structural)]
pub struct EdgeId(pub u64);

impl EdgeId {
    /// Creates a new `EdgeId` from a `u64` value.
    pub fn new(id: u64) -> (r: Self)
        ensures
            r.0 == id,
    {
        EdgeId(id)
    }

    /// Returns the raw `u64` value.
    pub fn as_u64(self) -> (r: u64)
        ensures
            r == self.0,
    {
        self.0
    }

    /// Renders the identifier as `Edge(<id>)`.
    pub fn to_string(&self) -> (s: String)
        ensures
            s@ == "Edge("@ + decimal(self.0 as nat) + ")"@,
    {
        let mut s = String::from_str("Edge(");
        let digits = u64_to_decimal(self.0);
        s.append(digits.as_str());
        s.append(")");
        s
    }
}

/// Edge data stored in the delta layer.
///
/// The weight is kept as the bit pattern of the `f32` that CSR storage holds
/// for the edge (see `f32::to_bits`); the library only moves weights around
/// and never computes with them.
#[derive(Debug, Clone, Default)]
pub struct EdgeData {
    /// Optional edge weight, as `f32` bits.
    pub weight: Option<u32>,
    /// Optional edge label.
    pub label: Option<String>,
}

/// Statistics about the graph.
#[derive(Debug, Clone, Copy, Default, PartialEq, Eq, Structural)]
pub struct GraphStatistics {
    /// Total number of nodes.
    pub node_count: usize,
    /// Total number of edges.
    pub edge_count: usize,
    /// Number of shards.
    pub shard_count: usize,
    /// Memory usage in bytes.
    pub memory_bytes: usize,
    /// Delta layer entry count.
    pub delta_entries: usize,
}

} // verus!
