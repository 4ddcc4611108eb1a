//! Compressed Sparse Row (CSR) graph storage with micro-sharding.
//!
//! The CSR format stores graphs in contiguous memory for cache-efficient
//! traversal. Micro-sharding partitions the graph into chunks of a bounded
//! byte size so that no single allocation dominates compaction.

use vstd::prelude::*;
use vstd::bytes::{spec_u32_to_le_bytes, spec_u64_to_le_bytes, u32_to_le_bytes, u64_to_le_bytes};
use vstd::std_specs::hash::DefaultHasherAdditionalSpecFns;
use std::collections::hash_map::DefaultHasher;
use std::hash::Hasher;

use crate::delta::{no_insertions, no_keys, DeltaLayer, DeltaView};
use crate::error::GraphError;
use crate::types::{EdgeData, GraphStatistics, NodeId};
use crate::text::{decimal, u64_to_decimal};

verus! {


/// Default shard size: 64MB.
pub const DEFAULT_SHARD_SIZE: usize = 64 * 1024 * 1024;

/// Bit pattern of the `f32` value `1.0`, the weight of an edge that has none.
pub const UNIT_WEIGHT_BITS: u32 = 0x3f80_0000;

// ---------------------------------------------------------------------
// Mathematical model
// ---------------------------------------------------------------------

/// The targets of the edges of `edges` whose source is `u`, in order.
pub open spec fn out_of(edges: Seq<(u64, u64)>, u: int) -> Seq<u32>
    decreases edges.len(),
{
    if edges.len() == 0 {
        Seq::empty()
    } else {
        let rest = out_of(edges.drop_last(), u);
        if edges.last().0 == u {
            rest.push(edges.last().1 as u32)
        } else {
            rest
        }
    }
}

/// The weights of the edges of `edges` whose source is `u`, in order;
/// `weights` runs parallel to `edges`.
pub open spec fn weights_of(edges: Seq<(u64, u64)>, weights: Seq<u32>, u: int) -> Seq<u32>
    decreases edges.len(),
{
    if edges.len() == 0 {
        Seq::empty()
    } else {
        let rest = weights_of(edges.drop_last(), weights.take(edges.len() - 1), u);
        if edges.last().0 == u {
            rest.push(weights[edges.len() - 1])
        } else {
            rest
        }
    }
}

/// The largest endpoint of any edge (0 for no edges).
pub open spec fn max_endpoint(edges: Seq<(u64, u64)>) -> nat
    decreases edges.len(),
{
    if edges.len() == 0 {
        0
    } else {
        let rest = max_endpoint(edges.drop_last());
        let e = edges.last();
        let m = if e.0 >= e.1 {
            e.0 as nat
        } else {
            e.1 as nat
        };
        if m > rest {
            m
        } else {
            rest
        }
    }
}

/// An edge whose endpoints both fit the `u32` node range.
pub open spec fn valid_edge(e: (u64, u64)) -> bool {
    e.0 <= u32::MAX && e.1 <= u32::MAX
}

/// The adjacency lists that the edges of `edges` induce on `n` nodes.
pub open spec fn adjacency_of(edges: Seq<(u64, u64)>, n: nat) -> Seq<Seq<u32>> {
    Seq::new(n, |u: int| out_of(edges, u))
}

/// The weight lists that parallel `adjacency_of(edges, n)`.
pub open spec fn weight_lists_of(edges: Seq<(u64, u64)>, weights: Seq<u32>, n: nat) -> Seq<
    Seq<u32>,
> {
    Seq::new(n, |u: int| weights_of(edges, weights, u))
}

/// Sum of the lengths of a sequence of lists.
pub open spec fn total_len(adj: Seq<Seq<u32>>) -> nat
    decreases adj.len(),
{
    if adj.len() == 0 {
        0
    } else {
        total_len(adj.drop_last()) + adj.last().len()
    }
}

/// Sum of a sequence of counters.
pub open spec fn seq_sum(s: Seq<u32>) -> nat
    decreases s.len(),
{
    if s.len() == 0 {
        0
    } else {
        seq_sum(s.drop_last()) + s.last() as nat
    }
}

/// Abstract view of a CSR graph.
pub struct GraphView {
    /// Number of nodes of the base layer.
    pub node_count: nat,
    /// Number of edges of the base layer.
    pub edge_count: nat,
    /// Base-layer adjacency lists, one per node, in storage order.
    pub base: Seq<Seq<u32>>,
    /// Base-layer weight lists parallel to `base`, when the graph is weighted.
    pub weights: Option<Seq<Seq<u32>>>,
    /// Pending delta mutations.
    pub delta: DeltaView,
}

impl GraphView {
    /// The graph's structural invariant.
    pub open spec fn wf(self) -> bool {
        &&& self.base.len() == self.node_count
        &&& self.node_count <= u32::MAX as nat + 1
        &&& self.edge_count == total_len(self.base)
        &&& forall|u: int, i: int|
            0 <= u < self.base.len() && 0 <= i < self.base[u].len() ==> (#[trigger] self.base[u][i])
                < self.node_count
        &&& self.weights matches Some(w) ==> {
            &&& w.len() == self.base.len()
            &&& forall|u: int| 0 <= u < w.len() ==> (#[trigger] w[u]).len() == self.base[u].len()
        }
        &&& self.delta.wf()
    }

    /// `v` is among the base-layer targets of `u`.
    pub open spec fn base_has(self, u: u64, v: u64) -> bool {
        &&& u < self.node_count
        &&& v <= u32::MAX
        &&& self.base[u as int].contains(v as u32)
    }

    /// The merged edge relation: base edges minus tombstones, plus
    /// pending insertions.
    pub open spec fn has_edge(self, u: u64, v: u64) -> bool {
        &&& !self.delta.del.contains((u, v))
        &&& (self.delta.ins.dom().contains((u, v)) || self.base_has(u, v))
    }

    /// The delta layer is empty.
    pub open spec fn delta_empty(self) -> bool {
        self.delta.ins.dom() == Set::<(u64, u64)>::empty() && self.delta.del == Set::<
            (u64, u64),
        >::empty()
    }
}

// ---------------------------------------------------------------------
// Lemmas about the model
// ---------------------------------------------------------------------

proof fn lemma_out_of_take_step(edges: Seq<(u64, u64)>, i: int, u: int)
    requires
        0 <= i < edges.len(),
    ensures
        out_of(edges.take(i + 1), u) == if edges[i].0 == u {
            out_of(edges.take(i), u).push(edges[i].1 as u32)
        } else {
            out_of(edges.take(i), u)
        },
{
    assert(edges.take(i + 1).drop_last() =~= edges.take(i));
}

proof fn lemma_weights_of_take_step(edges: Seq<(u64, u64)>, weights: Seq<u32>, i: int, u: int)
    requires
        0 <= i < edges.len(),
        edges.len() <= weights.len(),
    ensures
        weights_of(edges.take(i + 1), weights.take(i + 1), u) == if edges[i].0 == u {
            weights_of(edges.take(i), weights.take(i), u).push(weights[i])
        } else {
            weights_of(edges.take(i), weights.take(i), u)
        },
{
    assert(edges.take(i + 1).drop_last() =~= edges.take(i));
    assert(weights.take(i + 1).take(i) =~= weights.take(i));
}

proof fn lemma_out_of_len_mono(edges: Seq<(u64, u64)>, i: int, u: int)
    requires
        0 <= i <= edges.len(),
    ensures
        out_of(edges.take(i), u).len() <= out_of(edges, u).len(),
    decreases edges.len() - i,
{
    if i < edges.len() {
        lemma_out_of_take_step(edges, i, u);
        lemma_out_of_len_mono(edges, i + 1, u);
    } else {
        assert(edges.take(i) =~= edges);
    }
}

proof fn lemma_out_of_bounded(edges: Seq<(u64, u64)>, u: int, j: int)
    requires
        forall|k: int| 0 <= k < edges.len() ==> valid_edge(#[trigger] edges[k]),
        0 <= j < out_of(edges, u).len(),
    ensures
        out_of(edges, u)[j] <= max_endpoint(edges),
    decreases edges.len(),
{
    if edges.len() > 0 {
        let rest = edges.drop_last();
        assert forall|k: int| 0 <= k < rest.len() implies valid_edge(#[trigger] rest[k]) by {
            assert(rest[k] == edges[k]);
        }
        if edges.last().0 == u && j == out_of(rest, u).len() {
            assert(valid_edge(edges[edges.len() - 1]));
        } else {
            lemma_out_of_bounded(rest, u, j);
        }
    }
}

pub(crate) proof fn lemma_sources_below_max(edges: Seq<(u64, u64)>, k: int)
    requires
        0 <= k < edges.len(),
    ensures
        edges[k].0 <= max_endpoint(edges),
        edges[k].1 <= max_endpoint(edges),
    decreases edges.len(),
{
    if k < edges.len() - 1 {
        lemma_sources_below_max(edges.drop_last(), k);
    }
}

pub(crate) proof fn lemma_max_endpoint_bound(edges: Seq<(u64, u64)>)
    requires
        forall|k: int| 0 <= k < edges.len() ==> valid_edge(#[trigger] edges[k]),
    ensures
        max_endpoint(edges) <= u32::MAX,
    decreases edges.len(),
{
    if edges.len() > 0 {
        let rest = edges.drop_last();
        assert forall|k: int| 0 <= k < rest.len() implies valid_edge(#[trigger] rest[k]) by {
            assert(rest[k] == edges[k]);
        }
        lemma_max_endpoint_bound(rest);
        assert(valid_edge(edges[edges.len() - 1]));
    }
}

proof fn lemma_seq_sum_update(s: Seq<u32>, j: int, v: u32)
    requires
        0 <= j < s.len(),
    ensures
        seq_sum(s.update(j, v)) + s[j] == seq_sum(s) + v,
    decreases s.len(),
{
    if j < s.len() - 1 {
        assert(s.update(j, v).drop_last() =~= s.drop_last().update(j, v));
        lemma_seq_sum_update(s.drop_last(), j, v);
    } else {
        assert(s.update(j, v).drop_last() =~= s.drop_last());
    }
}

proof fn lemma_seq_sum_prefix(s: Seq<u32>, k: int)
    requires
        0 <= k <= s.len(),
    ensures
        seq_sum(s.take(k)) <= seq_sum(s),
    decreases s.len() - k,
{
    if k < s.len() {
        assert(s.take(k + 1).drop_last() =~= s.take(k));
        lemma_seq_sum_prefix(s, k + 1);
    } else {
        assert(s.take(k) =~= s);
    }
}

proof fn lemma_total_len_concat(a: Seq<Seq<u32>>, b: Seq<Seq<u32>>)
    ensures
        total_len(a + b) == total_len(a) + total_len(b),
    decreases b.len(),
{
    if b.len() == 0 {
        assert(a + b =~= a);
    } else {
        assert((a + b).drop_last() =~= a + b.drop_last());
        lemma_total_len_concat(a, b.drop_last());
    }
}

// ---------------------------------------------------------------------
// Shards
// ---------------------------------------------------------------------

/// A single shard of the CSR graph.
///
/// Each shard covers a contiguous range of node IDs and stores their
/// outgoing edges in CSR format.
#[derive(Debug)]
pub struct CsrShard {
    id: u32,
    node_start: usize,
    node_end: usize,
    row_ptrs: Vec<u32>,
    col_indices: Vec<u32>,
    weights: Option<Vec<u32>>,
}

impl CsrShard {
    /// Shard identifier.
    pub closed spec fn spec_id(&self) -> u32 {
        self.id
    }

    /// First global node ID of the shard.
    pub closed spec fn start(&self) -> nat {
        self.node_start as nat
    }

    /// One past the last global node ID of the shard.
    pub closed spec fn end(&self) -> nat {
        self.node_end as nat
    }

    /// Row pointers of the shard.
    pub closed spec fn rows(&self) -> Seq<u32> {
        self.row_ptrs@
    }

    /// Column indices (targets) of the shard.
    pub closed spec fn cols(&self) -> Seq<u32> {
        self.col_indices@
    }

    /// Weights of the shard, parallel to `cols`.
    pub closed spec fn weight_bits(&self) -> Option<Seq<u32>> {
        match self.weights {
            Some(w) => Some(w@),
            None => None,
        }
    }

    /// The CSR arrays are consistent.
    pub open spec fn wf(&self) -> bool {
        &&& self.start() <= self.end()
        &&& self.rows().len() == self.end() - self.start() + 1
        &&& self.rows()[0] == 0
        &&& forall|i: int, j: int|
            0 <= i <= j < self.rows().len() ==> #[trigger] self.rows()[i] <= #[trigger] self.rows()[j]
        &&& self.rows().last() == self.cols().len()
        &&& self.weight_bits() matches Some(w) ==> w.len() == self.cols().len()
    }

    /// Targets of the node at `local` offset.
    pub open spec fn adj(&self, local: int) -> Seq<u32> {
        self.cols().subrange(self.rows()[local] as int, self.rows()[local + 1] as int)
    }

    /// Weights of the edges of the node at `local` offset.
    pub open spec fn adj_weights(&self, local: int) -> Seq<u32> {
        self.weight_bits().unwrap().subrange(
            self.rows()[local] as int,
            self.rows()[local + 1] as int,
        )
    }

    /// Adjacency lists of all nodes of the shard.
    pub open spec fn adj_seq(&self) -> Seq<Seq<u32>> {
        Seq::new((self.end() - self.start()) as nat, |i: int| self.adj(i))
    }

    /// Weight lists of all nodes of the shard.
    pub open spec fn weight_seq(&self) -> Seq<Seq<u32>> {
        Seq::new((self.end() - self.start()) as nat, |i: int| self.adj_weights(i))
    }

    /// Creates a new shard from CSR arrays.
    pub fn new(
        id: u32,
        node_range: std::ops::Range<usize>,
        row_ptrs: Vec<u32>,
        col_indices: Vec<u32>,
        weights: Option<Vec<u32>>,
    ) -> (r: Self)
        requires
            node_range.start <= node_range.end,
            row_ptrs@.len() == node_range.end - node_range.start + 1,
            weights matches Some(w) ==> w@.len() == col_indices@.len(),
        ensures
            r.spec_id() == id,
            r.start() == node_range.start,
            r.end() == node_range.end,
            r.rows() == row_ptrs@,
            r.cols() == col_indices@,
            r.weight_bits() == (match weights {
                Some(w) => Some(w@),
                None => None,
            }),
    {
        CsrShard {
            id,
            node_start: node_range.start,
            node_end: node_range.end,
            row_ptrs,
            col_indices,
            weights,
        }
    }

    /// Returns the shard ID.
    pub fn id(&self) -> (r: u32)
        ensures
            r == self.spec_id(),
    {
        self.id
    }

    /// Returns the range of global node IDs in this shard.
    pub fn node_range(&self) -> (r: std::ops::Range<usize>)
        ensures
            r.start == self.start(),
            r.end == self.end(),
    {
        std::ops::Range { start: self.node_start, end: self.node_end }
    }

    /// Returns the number of nodes in this shard.
    pub fn node_count(&self) -> (r: usize)
        requires
            self.start() <= self.end(),
        ensures
            r == self.end() - self.start(),
    {
        self.node_end - self.node_start
    }

    /// Returns the number of edges in this shard.
    pub fn edge_count(&self) -> (r: usize)
        ensures
            r == self.cols().len(),
    {
        self.col_indices.len()
    }

    /// Returns true if this shard contains the given global node ID.
    pub fn contains(&self, global_node_id: usize) -> (r: bool)
        ensures
            r == (self.start() <= global_node_id < self.end()),
    {
        self.node_start <= global_node_id && global_node_id < self.node_end
    }

    /// Returns true if the shard stores edge weights.
    pub fn has_weights(&self) -> (r: bool)
        ensures
            r == self.weight_bits() is Some,
    {
        self.weights.is_some()
    }

    /// Returns the out-degree of a node (by local offset); 0 outside the
    /// shard.
    pub fn out_degree(&self, local_offset: usize) -> (r: usize)
        requires
            self.wf(),
        ensures
            local_offset < self.end() - self.start() ==> r == self.adj(local_offset as int).len(),
            local_offset >= self.end() - self.start() ==> r == 0,
    {
        if local_offset >= self.node_end - self.node_start {
            return 0;
        }
        let start = self.row_ptrs[local_offset] as usize;
        let end = self.row_ptrs[local_offset + 1] as usize;
        end - start
    }

    /// Returns the range of indices in the column array for a node's
    /// neighbors; `(0, 0)` outside the shard.
    pub fn neighbor_range(&self, local_offset: usize) -> (r: (usize, usize))
        requires
            self.start() <= self.end(),
            self.rows().len() == self.end() - self.start() + 1,
        ensures
            local_offset < self.end() - self.start() ==> r == (
                self.rows()[local_offset as int] as usize,
                self.rows()[local_offset + 1] as usize,
            ),
            local_offset >= self.end() - self.start() ==> r == (0usize, 0usize),
    {
        if local_offset >= self.node_end - self.node_start {
            return (0, 0);
        }
        let start = self.row_ptrs[local_offset] as usize;
        let end = self.row_ptrs[local_offset + 1] as usize;
        (start, end)
    }

    /// Returns the column index (target node ID) at the given position.
    pub fn col_index(&self, idx: usize) -> (r: Option<u32>)
        ensures
            idx < self.cols().len() ==> r == Some(self.cols()[idx as int]),
            idx >= self.cols().len() ==> r is None,
    {
        if idx < self.col_indices.len() {
            Some(self.col_indices[idx])
        } else {
            None
        }
    }

    /// Returns the edge weight (as `f32` bits) at the given position.
    pub fn weight(&self, idx: usize) -> (r: Option<u32>)
        ensures
            r == (match self.weight_bits() {
                Some(w) => if idx < w.len() {
                    Some(w[idx as int])
                } else {
                    None
                },
                None => None,
            }),
    {
        match &self.weights {
            Some(w) => {
                if idx < w.len() {
                    Some(w[idx])
                } else {
                    None
                }
            },
            None => None,
        }
    }

    /// Returns the targets of the node at `local_offset` as a slice.
    pub fn neighbor_slice(&self, local_offset: usize) -> (r: &[u32])
        requires
            self.wf(),
            local_offset < self.end() - self.start(),
        ensures
            r@ == self.adj(local_offset as int),
    {
        let start = self.row_ptrs[local_offset] as usize;
        let end = self.row_ptrs[local_offset + 1] as usize;
        vstd::slice::slice_subrange(self.col_indices.as_slice(), start, end)
    }

    /// Returns the weights (as `f32` bits) of the edges of the node at
    /// `local_offset`, when the shard stores weights.
    pub fn neighbor_weight_slice(&self, local_offset: usize) -> (r: Option<&[u32]>)
        requires
            self.wf(),
            local_offset < self.end() - self.start(),
        ensures
            r is Some <==> self.weight_bits() is Some,
            r matches Some(w) ==> w@ == self.adj_weights(local_offset as int),
    {
        let start = self.row_ptrs[local_offset] as usize;
        let end = self.row_ptrs[local_offset + 1] as usize;
        match &self.weights {
            Some(w) => Some(vstd::slice::slice_subrange(w.as_slice(), start, end)),
            None => None,
        }
    }

    /// Returns the memory held by this shard in bytes (saturating at
    /// `usize::MAX`).
    pub fn memory_usage(&self) -> (r: usize)
        ensures
            r == sat(shard_bytes(*self) as int),
    {
        let word = std::mem::size_of::<u32>();
        let rows = sat_mul(self.row_ptrs.len(), word);
        let cols = sat_mul(self.col_indices.len(), word);
        let ws = match &self.weights {
            Some(w) => sat_mul(w.len(), word),
            None => 0,
        };
        let own = std::mem::size_of::<CsrShard>();
        let r = rows.saturating_add(cols).saturating_add(ws).saturating_add(own);
        proof {
            let a: int = (self.rows().len() * 4) as int;
            let b: int = (self.cols().len() * 4) as int;
            let c: int = match self.weight_bits() {
                Some(w) => (w.len() * 4) as int,
                None => 0,
            };
            lemma_sat_sum(a, b);
            lemma_sat_sum(a + b, c);
            lemma_sat_sum(a + b + c, own as int);
        }
        r
    }

    /// The byte strings that `checksum` feeds to the hasher, in order: the
    /// ID (four bytes), the first and one-past-last node IDs (eight bytes
    /// each), then each row pointer and each column index (four bytes
    /// each), all little-endian.
    pub open spec fn checksum_writes(&self) -> Seq<Seq<u8>> {
        seq![
            spec_u32_to_le_bytes(self.spec_id()),
            spec_u64_to_le_bytes(self.start() as u64),
            spec_u64_to_le_bytes(self.end() as u64),
        ] + self.rows().map_values(|p: u32| spec_u32_to_le_bytes(p)) + self.cols().map_values(
            |c: u32| spec_u32_to_le_bytes(c),
        )
    }

    /// A checksum of the shard's identity and topology, for corruption
    /// detection: std's default hasher run over `checksum_writes`.
    pub fn checksum(&self) -> (r: u64)
        ensures
            r == DefaultHasher::spec_finish(self.checksum_writes()),
    {
        let mut hasher = DefaultHasher::new();
        let id_bytes = u32_to_le_bytes(self.id);
        hasher.write(id_bytes.as_slice());
        let start_bytes = u64_to_le_bytes(self.node_start as u64);
        hasher.write(start_bytes.as_slice());
        let end_bytes = u64_to_le_bytes(self.node_end as u64);
        hasher.write(end_bytes.as_slice());
        let ghost head = hasher@;
        let mut i: usize = 0;
        while i < self.row_ptrs.len()
            invariant
                i <= self.rows().len(),
                hasher@ == head + self.rows().take(i as int).map_values(|p: u32| spec_u32_to_le_bytes(p)),
            decreases self.rows().len() - i,
        {
            let b = u32_to_le_bytes(self.row_ptrs[i]);
            hasher.write(b.as_slice());
            proof {
                assert(self.rows().take(i + 1).map_values(|p: u32| spec_u32_to_le_bytes(p))
                    =~= self.rows().take(i as int).map_values(|p: u32| spec_u32_to_le_bytes(p)).push(
                    spec_u32_to_le_bytes(self.rows()[i as int]),
                ));
            }
            i = i + 1;
        }
        proof {
            assert(self.rows().take(i as int) =~= self.rows());
        }
        let ghost mid = hasher@;
        let mut j: usize = 0;
        while j < self.col_indices.len()
            invariant
                j <= self.cols().len(),
                hasher@ == mid + self.cols().take(j as int).map_values(|c: u32| spec_u32_to_le_bytes(c)),
            decreases self.cols().len() - j,
        {
            let b = u32_to_le_bytes(self.col_indices[j]);
            hasher.write(b.as_slice());
            proof {
                assert(self.cols().take(j + 1).map_values(|c: u32| spec_u32_to_le_bytes(c))
                    =~= self.cols().take(j as int).map_values(|c: u32| spec_u32_to_le_bytes(c)).push(
                    spec_u32_to_le_bytes(self.cols()[j as int]),
                ));
            }
            j = j + 1;
        }
        proof {
            assert(self.cols().take(j as int) =~= self.cols());
            assert(hasher@ =~= self.checksum_writes());
        }
        hasher.finish()
    }
}

/// Bytes held by a shard: its row pointers, column indices and weights
/// (four bytes each) and the shard itself.
pub open spec fn shard_bytes(s: CsrShard) -> nat {
    (s.rows().len() * 4 + s.cols().len() * 4 + match s.weight_bits() {
        Some(w) => w.len() * 4,
        None => 0,
    } + vstd::layout::size_of::<CsrShard>()) as nat
}

/// Total bytes of a sequence of shards, each clamped to `usize`.
pub open spec fn shards_bytes(shards: Seq<CsrShard>) -> nat
    decreases shards.len(),
{
    if shards.len() == 0 {
        0
    } else {
        shards_bytes(shards.drop_last()) + sat(shard_bytes(shards.last()) as int)
    }
}

// ---------------------------------------------------------------------
// Saturating arithmetic on byte counts
// ---------------------------------------------------------------------

/// `x` clamped to the `usize` range.
pub open spec fn sat(x: int) -> nat {
    if x <= 0 {
        0
    } else if x >= usize::MAX {
        usize::MAX as nat
    } else {
        x as nat
    }
}

/// Clamping a partial sum first does not change the clamped total.
pub(crate) proof fn lemma_sat_sum(x: int, y: int)
    requires
        x >= 0,
        y >= 0,
    ensures
        sat((sat(x) + sat(y)) as int) == sat(x + y),
        sat(sat(x) + y) == sat(x + y),
        sat(x + sat(y)) == sat(x + y),
{
}

/// Integer division rounding up (`b > 0`).
pub open spec fn ceil_div(a: nat, b: nat) -> nat {
    if a % b == 0 {
        a / b
    } else {
        a / b + 1
    }
}

pub(crate) fn sat_mul(a: usize, b: usize) -> (r: usize)
    ensures
        r == sat(a * b),
{
    match a.checked_mul(b) {
        Some(x) => x,
        None => usize::MAX,
    }
}

fn div_ceil(a: usize, b: usize) -> (r: usize)
    requires
        b > 0,
    ensures
        r == ceil_div(a as nat, b as nat),
{
    let q = a / b;
    if a % b == 0 {
        q
    } else {
        proof {
            assert(q * b <= a) by (nonlinear_arith)
                requires
                    q == a / b,
                    b > 0,
            ;
            assert(q < a) by (nonlinear_arith)
                requires
                    q == a / b,
                    b > 0,
                    a % b != 0,
                    q * b <= a,
            ;
        }
        q + 1
    }
}

// ---------------------------------------------------------------------
// Shard partitioning model
// ---------------------------------------------------------------------

/// Estimated bytes of a shard holding nodes `start..end` of the global
/// row pointers `rows`.
pub open spec fn shard_memory(rows: Seq<u32>, start: int, end: int, bytes_per_edge: nat) -> nat {
    sat((sat((sat(end - start + 1) * 4) as int) + sat((rows[end] - rows[start]) * bytes_per_edge)) as int)
}

/// Target number of nodes per shard.
pub open spec fn target_nodes_per_shard(n: nat, m: nat, bytes_per_edge: nat, shard_size: nat) -> nat {
    let total_edge_bytes = sat((m * bytes_per_edge) as int);
    let total_row_bytes = sat((sat((n + 1) as int) * 4) as int);
    let total_bytes = sat((total_row_bytes + total_edge_bytes) as int);
    let avg = ceil_div(total_bytes, n);
    let avg1 = if avg >= 1 {
        avg
    } else {
        1
    };
    let t = ceil_div(shard_size, avg1);
    if t >= 1 {
        t
    } else {
        1
    }
}

/// The end chosen for a shard starting at `start`: shrink from `e` while
/// the shard exceeds `shard_size` and keeps more than one node.
pub open spec fn shard_end_from(
    rows: Seq<u32>,
    start: int,
    e: int,
    shard_size: nat,
    bytes_per_edge: nat,
) -> int
    decreases e - start,
{
    if e <= start + 1 || shard_memory(rows, start, e, bytes_per_edge) <= shard_size {
        e
    } else {
        shard_end_from(rows, start, e - 1, shard_size, bytes_per_edge)
    }
}

/// The node ranges of the shards covering `start..n`.
pub open spec fn partition_from(
    rows: Seq<u32>,
    n: int,
    start: int,
    target: int,
    shard_size: nat,
    bytes_per_edge: nat,
) -> Seq<(nat, nat)>
    decreases n - start,
{
    if start >= n {
        Seq::empty()
    } else {
        let e0 = if start + target <= n {
            start + target
        } else {
            n
        };
        let e = shard_end_from(rows, start, e0, shard_size, bytes_per_edge);
        if e <= start || e > n {
            Seq::empty()
        } else {
            seq![(start as nat, e as nat)] + partition_from(
                rows,
                n,
                e,
                target,
                shard_size,
                bytes_per_edge,
            )
        }
    }
}

/// Row offsets of the adjacency lists `adj` laid out back to back.
pub open spec fn row_offsets(adj: Seq<Seq<u32>>) -> Seq<u32> {
    Seq::new(adj.len() + 1, |u: int| total_len(adj.take(u)) as u32)
}

proof fn lemma_shard_end_from(
    rows: Seq<u32>,
    start: int,
    e: int,
    shard_size: nat,
    bytes_per_edge: nat,
)
    requires
        start + 1 <= e,
    ensures
        start + 1 <= shard_end_from(rows, start, e, shard_size, bytes_per_edge) <= e,
    decreases e - start,
{
    if e <= start + 1 || shard_memory(rows, start, e, bytes_per_edge) <= shard_size {
    } else {
        lemma_shard_end_from(rows, start, e - 1, shard_size, bytes_per_edge);
    }
}

// ---------------------------------------------------------------------
// Graph
// ---------------------------------------------------------------------

/// Adjacency lists of a sequence of shards, concatenated.
pub closed spec fn flat(shards: Seq<CsrShard>) -> Seq<Seq<u32>>
    decreases shards.len(),
{
    if shards.len() == 0 {
        Seq::empty()
    } else {
        flat(shards.drop_last()) + shards.last().adj_seq()
    }
}

/// Weight lists of a sequence of shards, concatenated.
pub closed spec fn flat_weights(shards: Seq<CsrShard>) -> Seq<Seq<u32>>
    decreases shards.len(),
{
    if shards.len() == 0 {
        Seq::empty()
    } else {
        flat_weights(shards.drop_last()) + shards.last().weight_seq()
    }
}

/// Shards are consistent, numbered in order, non-empty, and contiguous
/// from node 0.
pub closed spec fn contiguous(shards: Seq<CsrShard>) -> bool {
    forall|k: int|
        0 <= k < shards.len() ==> {
            &&& (#[trigger] shards[k]).wf()
            &&& shards[k].spec_id() == k
            &&& shards[k].start() < shards[k].end()
            &&& (k == 0 ==> shards[k].start() == 0)
            &&& (k + 1 < shards.len() ==> shards[k].end() == shards[k + 1].start())
        }
}

/// Shards partition the nodes `0..n`.
pub closed spec fn layout_ok(shards: Seq<CsrShard>, n: nat) -> bool {
    &&& contiguous(shards)
    &&& (shards.len() == 0 <==> n == 0)
    &&& shards.len() > 0 ==> shards.last().end() == n
}

/// Either every shard stores weights or none does.
pub closed spec fn uniform_weights(shards: Seq<CsrShard>) -> bool {
    forall|k: int|
        0 <= k < shards.len() ==> ((#[trigger] shards[k]).weight_bits() is Some <==> shards[0].weight_bits() is Some)
}

proof fn lemma_contiguous_drop_last(shards: Seq<CsrShard>)
    requires
        contiguous(shards),
        shards.len() > 0,
    ensures
        contiguous(shards.drop_last()),
{
    let rest = shards.drop_last();
    assert forall|k: int| 0 <= k < rest.len() implies {
        &&& (#[trigger] rest[k]).wf()
        &&& rest[k].spec_id() == k
        &&& rest[k].start() < rest[k].end()
        &&& (k == 0 ==> rest[k].start() == 0)
        &&& (k + 1 < rest.len() ==> rest[k].end() == rest[k + 1].start())
    } by {
        assert(rest[k] == shards[k]);
        assert(k + 1 < rest.len() ==> rest[k + 1] == shards[k + 1]);
    }
}

proof fn lemma_flat(shards: Seq<CsrShard>)
    requires
        contiguous(shards),
    ensures
        flat(shards).len() == flat_weights(shards).len(),
        flat(shards).len() == if shards.len() == 0 {
            0
        } else {
            shards.last().end()
        },
        forall|k: int, i: int|
            0 <= k < shards.len() && 0 <= i < shards[k].end() - shards[k].start() ==> {
                &&& #[trigger] flat(shards)[shards[k].start() + i] == shards[k].adj(i)
                &&& flat_weights(shards)[shards[k].start() + i] == shards[k].adj_weights(i)
            },
    decreases shards.len(),
{
    if shards.len() > 0 {
        let rest = shards.drop_last();
        lemma_contiguous_drop_last(shards);
        lemma_flat(rest);
        let last = shards.last();
        let lk = shards.len() - 1;
        assert(shards[lk] == last);
        assert(flat(shards) == flat(rest) + last.adj_seq());
        assert(flat_weights(shards) == flat_weights(rest) + last.weight_seq());
        let base = flat(rest).len();
        if rest.len() > 0 {
            assert(rest.last() == shards[lk - 1]);
            assert(shards[lk - 1].end() == shards[lk].start());
            assert(base == last.start());
        } else {
            assert(last.start() == 0);
            assert(base == 0);
        }
        assert forall|k: int, i: int|
            0 <= k < shards.len() && 0 <= i < shards[k].end() - shards[k].start() implies {
                &&& #[trigger] flat(shards)[shards[k].start() + i] == shards[k].adj(i)
                &&& flat_weights(shards)[shards[k].start() + i] == shards[k].adj_weights(i)
            } by {
            if k < lk {
                assert(rest[k] == shards[k]);
                lemma_contiguous_order(shards, k, lk);
                assert(shards[k].start() + i < base);
            } else {
                assert(k == lk);
                assert(last.adj_seq()[i] == last.adj(i));
                assert(last.weight_seq()[i] == last.adj_weights(i));
            }
        }
    }
}

proof fn lemma_contiguous_order(shards: Seq<CsrShard>, a: int, b: int)
    requires
        contiguous(shards),
        0 <= a < b < shards.len(),
    ensures
        shards[a].end() <= shards[b].start(),
    decreases b - a,
{
    assert(shards[a].end() == shards[a + 1].start());
    if a + 1 < b {
        lemma_contiguous_order(shards, a + 1, b);
        assert(shards[a + 1].start() < shards[a + 1].end());
    }
}

/// A CSR-based graph with micro-sharding support.
#[derive(Debug)]
pub struct CsrGraph {
    shards: Vec<CsrShard>,
    node_count: usize,
    edge_count: usize,
    delta: DeltaLayer,
}

impl View for CsrGraph {
    type V = GraphView;

    closed spec fn view(&self) -> GraphView {
        GraphView {
            node_count: self.node_count as nat,
            edge_count: self.edge_count as nat,
            base: flat(self.shards@),
            weights: if self.shards@.len() > 0 && self.shards@[0].weight_bits() is Some {
                Some(flat_weights(self.shards@))
            } else {
                None
            },
            delta: self.delta@,
        }
    }
}

/// Contiguous shards starting at zero cover every node below the end of
/// the last one.
proof fn lemma_shards_cover(shards: Seq<CsrShard>, x: nat)
    requires
        contiguous(shards),
        shards.len() > 0,
        x < shards.last().end(),
    ensures
        exists|k: int| 0 <= k < shards.len() && (#[trigger] shards[k]).start() <= x < shards[k].end(),
    decreases shards.len(),
{
    let k = shards.len() - 1;
    if x >= shards[k].start() {
        assert(shards[k].start() <= x < shards[k].end());
    } else {
        let p = shards.drop_last();
        assert(shards[k].start() > 0 || k > 0) by {
            if k == 0 {
                assert(shards[0].start() == 0);
            }
        }
        assert(contiguous(p)) by {
            assert forall|j: int| 0 <= j < p.len() implies {
                &&& (#[trigger] p[j]).wf()
                &&& p[j].spec_id() == j
                &&& p[j].start() < p[j].end()
                &&& (j == 0 ==> p[j].start() == 0)
                &&& (j + 1 < p.len() ==> p[j].end() == p[j + 1].start())
            } by {
                assert(p[j] == shards[j]);
                if j + 1 < p.len() {
                    assert(p[j + 1] == shards[j + 1]);
                }
            }
        }
        assert(p.last() == shards[k - 1]);
        assert(shards[k - 1].end() == shards[k].start());
        lemma_shards_cover(p, x);
        let j = choose|j: int| 0 <= j < p.len() && (#[trigger] p[j]).start() <= x < p[j].end();
        assert(p[j] == shards[j]);
    }
}

impl CsrGraph {
    /// Layout of the shards and agreement of the stored counters.
    pub closed spec fn inner_wf(&self) -> bool {
        &&& layout_ok(self.shards@, self.node_count as nat)
        &&& uniform_weights(self.shards@)
        &&& self.shards@.len() <= u32::MAX as nat + 1
    }

    /// The graph's invariant.
    pub open spec fn wf(&self) -> bool {
        self.inner_wf() && self@.wf()
    }

    /// The shards of the base layer, in order.
    pub closed spec fn shard_seq(&self) -> Seq<CsrShard> {
        self.shards@
    }

    /// Bytes held by the graph: its shards and its delta layer, each part
    /// and the total clamped to `usize`.
    pub open spec fn memory_spec(&self) -> nat {
        sat(
            (shards_bytes(self.shard_seq()) + sat(
                crate::delta::delta_bytes(self@.delta.ins.dom().len(), self@.delta.del.len()) as int,
            )) as int,
        )
    }

    /// Node ranges of the shards, in order.
    pub closed spec fn shard_bounds(&self) -> Seq<(nat, nat)> {
        Seq::new(self.shards@.len(), |k: int| (self.shards@[k].start(), self.shards@[k].end()))
    }

    /// The global node at offset `offset` of shard `shard_idx`, if any.
    pub closed spec fn shard_node(&self, shard_idx: int, offset: int) -> Option<u64> {
        if 0 <= shard_idx < self.shards@.len() && 0 <= offset < self.shards@[shard_idx].end()
            - self.shards@[shard_idx].start() {
            Some((self.shards@[shard_idx].start() + offset) as u64)
        } else {
            None
        }
    }

    /// Creates an empty graph.
    pub fn empty() -> (r: Self)
        ensures
            r.wf(),
            r@.node_count == 0,
            r@.edge_count == 0,
            r@.base == Seq::<Seq<u32>>::empty(),
            r@.weights is None,
            r@.delta_empty(),
            r.shard_bounds() == Seq::<(nat, nat)>::empty(),
    {
        let g = CsrGraph { shards: Vec::new(), node_count: 0, edge_count: 0, delta: DeltaLayer::new() };
        proof {
            reveal_with_fuel(flat, 1);
            assert(g.shard_bounds() =~= Seq::<(nat, nat)>::empty());
        }
        g
    }
}

// ---------------------------------------------------------------------
// Builder
// ---------------------------------------------------------------------

proof fn lemma_out_of_len_le(edges: Seq<(u64, u64)>, u: int)
    ensures
        out_of(edges, u).len() <= edges.len(),
    decreases edges.len(),
{
    if edges.len() > 0 {
        lemma_out_of_len_le(edges.drop_last(), u);
    }
}

/// Counting-sort construction of the CSR arrays: row pointers, column
/// indices grouped by source in input order, and the parallel weights.
/// Number of edges per source node.
fn count_degrees(edges: &Vec<(u64, u64)>, n: usize) -> (degrees: Vec<u32>)
    requires
        edges@.len() <= u32::MAX,
        forall|k: int| 0 <= k < edges@.len() ==> (#[trigger] edges@[k]).0 < n && valid_edge(edges@[k]),
    ensures
        degrees@.len() == n,
        forall|u: int| 0 <= u < n ==> #[trigger] degrees@[u] == out_of(edges@, u).len(),
        seq_sum(degrees@) == edges@.len(),
{
    let m = edges.len();
    // Count edges per node.
    let mut degrees: Vec<u32> = vec![0u32; n];
    proof {
        assert(degrees@ =~= Seq::new(n as nat, |u: int| 0u32));
        assert(seq_sum(degrees@) == 0) by {
            lemma_seq_sum_zero(degrees@);
        }
    }
    let mut i: usize = 0;
    while i < m
        invariant
            m == edges@.len(),
            m <= u32::MAX,
            i <= m,
            degrees@.len() == n,
            forall|k: int| 0 <= k < edges@.len() ==> (#[trigger] edges@[k]).0 < n && valid_edge(edges@[k]),
            forall|u: int| 0 <= u < n ==> #[trigger] degrees@[u] == out_of(edges@.take(i as int), u).len(),
            seq_sum(degrees@) == i,
        decreases m - i,
    {
        let src = edges[i].0 as usize;
        proof {
            assert forall|u: int| 0 <= u < n implies out_of(edges@.take(i + 1), u).len() == out_of(edges@.take(i as int), u).len() + if u == src { 1int } else { 0 } by {
                lemma_out_of_take_step(edges@, i as int, u);
            }
            lemma_out_of_len_le(edges@.take(i as int), src as int);
        }
        let d = degrees[src];
        let ghost old_deg = degrees@;
        degrees.set(src, d + 1);
        proof {
            lemma_seq_sum_update(old_deg, src as int, (d + 1) as u32);
        }
        i = i + 1;
    }
    proof {
        assert(edges@.take(m as int) =~= edges@);
    }
    degrees
}

/// Row pointers: prefix sums of the degrees.
fn prefix_sums(degrees: &Vec<u32>, Ghost(m): Ghost<nat>) -> (row_ptrs: Vec<u32>)
    requires
        seq_sum(degrees@) == m,
        m <= u32::MAX,
    ensures
        row_ptrs@.len() == degrees@.len() + 1,
        row_ptrs@[0] == 0,
        row_ptrs@[degrees@.len() as int] == m,
        forall|a: int, b: int| 0 <= a <= b <= degrees@.len() ==> #[trigger] row_ptrs@[a] <= #[trigger] row_ptrs@[b],
        forall|w: int| 0 <= w < degrees@.len() ==> row_ptrs@[w + 1] - row_ptrs@[w] == #[trigger] degrees@[w],
{
    let n = degrees.len();
    // Row pointers (cumulative sums).
    let mut row_ptrs: Vec<u32> = Vec::new();
    row_ptrs.push(0);
    let mut cumsum: u32 = 0;
    let mut u: usize = 0;
    while u < n
        invariant
            u <= n,
            degrees@.len() == n,
            seq_sum(degrees@) == m,
            m <= u32::MAX,
            row_ptrs@.len() == u + 1,
            cumsum == seq_sum(degrees@.take(u as int)),
            forall|j: int| 0 <= j <= u ==> #[trigger] row_ptrs@[j] == seq_sum(degrees@.take(j)),
        decreases n - u,
    {
        proof {
            assert(degrees@.take(u + 1).drop_last() =~= degrees@.take(u as int));
            lemma_seq_sum_prefix(degrees@, u + 1);
        }
        cumsum = cumsum + degrees[u];
        row_ptrs.push(cumsum);
        u = u + 1;
    }
    proof {
        assert(degrees@.take(n as int) =~= degrees@);
        assert forall|a: int, b: int| 0 <= a <= b <= n implies #[trigger] row_ptrs@[a] <= #[trigger] row_ptrs@[b] by {
            assert(degrees@.take(b).take(a) =~= degrees@.take(a));
            lemma_seq_sum_prefix(degrees@.take(b), a);
        }
        assert forall|w: int| 0 <= w < n implies row_ptrs@[w + 1] - row_ptrs@[w] == #[trigger] degrees@[w] by {
            assert(degrees@.take(w + 1).drop_last() =~= degrees@.take(w));
        }
        assert(seq_sum(Seq::<u32>::empty()) == 0);
        assert(degrees@.take(0) =~= Seq::<u32>::empty());
    }
    row_ptrs
}

fn build_csr_arrays(edges: &Vec<(u64, u64)>, weights: &Vec<u32>, weighted: bool, n: usize) -> (r: (
    Vec<u32>,
    Vec<u32>,
    Option<Vec<u32>>,
))
    requires
        edges@.len() <= u32::MAX,
        weighted ==> weights@.len() == edges@.len(),
        forall|k: int| 0 <= k < edges@.len() ==> (#[trigger] edges@[k]).0 < n && valid_edge(edges@[k]),
    ensures
        r.0@.len() == n + 1,
        r.0@[0] == 0,
        r.0@[n as int] == edges@.len(),
        forall|a: int, b: int| 0 <= a <= b <= n ==> #[trigger] r.0@[a] <= #[trigger] r.0@[b],
        r.1@.len() == edges@.len(),
        forall|u: int|
            0 <= u < n ==> #[trigger] r.1@.subrange(r.0@[u] as int, r.0@[u + 1] as int) == out_of(
                edges@,
                u,
            ),
        weighted ==> r.2 is Some,
        !weighted ==> r.2 is None,
        r.2 matches Some(w) ==> {
            &&& w@.len() == edges@.len()
            &&& forall|u: int|
                0 <= u < n ==> #[trigger] w@.subrange(r.0@[u] as int, r.0@[u + 1] as int)
                    == weights_of(edges@, weights@, u)
        },
{
    let m = edges.len();
    let degrees = count_degrees(edges, n);
    let row_ptrs = prefix_sums(&degrees, Ghost(m as nat));
    // Place each edge at its source's cursor.
    let mut col_indices: Vec<u32> = vec![0u32; m];
    let mut out_weights: Vec<u32> = if weighted {
        vec![0u32; m]
    } else {
        Vec::new()
    };
    let mut cursor: Vec<u32> = Vec::new();
    let mut c: usize = 0;
    while c < n
        invariant
            c <= n,
            row_ptrs@.len() == n + 1,
            cursor@ == row_ptrs@.take(c as int),
        decreases n - c,
    {
        cursor.push(row_ptrs[c]);
        proof {
            assert(cursor@ =~= row_ptrs@.take(c + 1));
        }
        c = c + 1;
    }
    proof {
        assert forall|w: int| 0 <= w < n implies row_ptrs@[w + 1] - row_ptrs@[w] == #[trigger] out_of(edges@, w).len() by {
            assert(row_ptrs@[w + 1] - row_ptrs@[w] == degrees@[w]);
        }
        assert(edges@.take(0) =~= Seq::<(u64, u64)>::empty());
        assert(weights@.take(0) =~= Seq::<u32>::empty());
        assert forall|w: int| 0 <= w < n implies #[trigger] col_indices@.subrange(row_ptrs@[w] as int, cursor@[w] as int)
            =~= out_of(edges@.take(0), w) by {
            assert(cursor@[w] == row_ptrs@[w]);
            assert(row_ptrs@[w] <= row_ptrs@[n as int]);
        }
        if weighted {
            assert forall|w: int| 0 <= w < n implies #[trigger] out_weights@.subrange(row_ptrs@[w] as int, cursor@[w] as int)
                =~= weights_of(edges@.take(0), weights@.take(0), w) by {
                assert(cursor@[w] == row_ptrs@[w]);
                assert(row_ptrs@[w] <= row_ptrs@[n as int]);
            }
        }
        assert forall|w: int| 0 <= w < n implies row_ptrs@[w] <= #[trigger] cursor@[w] <= row_ptrs@[w + 1]
            && cursor@[w] - row_ptrs@[w] == out_of(edges@.take(0), w).len() by {
            assert(cursor@[w] == row_ptrs@[w]);
        }
    }
    let mut i: usize = 0;
    while i < m
        invariant
            m == edges@.len(),
            i <= m,
            weighted ==> weights@.len() == m,
            forall|k: int| 0 <= k < edges@.len() ==> (#[trigger] edges@[k]).0 < n && valid_edge(edges@[k]),
            row_ptrs@.len() == n + 1,
            row_ptrs@[n as int] == m,
            forall|a: int, b: int| 0 <= a <= b <= n ==> #[trigger] row_ptrs@[a] <= #[trigger] row_ptrs@[b],
            forall|w: int| 0 <= w < n ==> row_ptrs@[w + 1] - row_ptrs@[w] == #[trigger] out_of(edges@, w).len(),
            cursor@.len() == n,
            col_indices@.len() == m,
            weighted ==> out_weights@.len() == m,
            forall|w: int|
                0 <= w < n ==> row_ptrs@[w] <= #[trigger] cursor@[w] <= row_ptrs@[w + 1]
                    && cursor@[w] - row_ptrs@[w] == out_of(edges@.take(i as int), w).len(),
            forall|w: int|
                0 <= w < n ==> #[trigger] col_indices@.subrange(row_ptrs@[w] as int, cursor@[w] as int)
                    == out_of(edges@.take(i as int), w),
            weighted ==> forall|w: int|
                0 <= w < n ==> #[trigger] out_weights@.subrange(row_ptrs@[w] as int, cursor@[w] as int)
                    == weights_of(edges@.take(i as int), weights@.take(i as int), w),
        decreases m - i,
    {
        let (src64, dst64) = edges[i];
        let src = src64 as usize;
        let pos = cursor[src];
        proof {
            lemma_out_of_take_step(edges@, i as int, src as int);
            lemma_out_of_len_mono(edges@, i + 1, src as int);
        }
        let ghost old_cols = col_indices@;
        let ghost old_ws = out_weights@;
        let ghost old_cursor = cursor@;
        col_indices.set(pos as usize, dst64 as u32);
        if weighted {
            out_weights.set(pos as usize, weights[i]);
        }
        cursor.set(src, pos + 1);
        proof {
            assert forall|w: int| 0 <= w < n implies #[trigger] col_indices@.subrange(row_ptrs@[w] as int, cursor@[w] as int)
                == out_of(edges@.take(i + 1), w) by {
                lemma_out_of_take_step(edges@, i as int, w);
                if w == src {
                    assert(col_indices@.subrange(row_ptrs@[w] as int, cursor@[w] as int) =~= old_cols.subrange(row_ptrs@[w] as int, old_cursor[w] as int).push(dst64 as u32));
                } else {
                    if w < src {
                        assert(row_ptrs@[w + 1] <= row_ptrs@[src as int]);
                    } else {
                        assert(row_ptrs@[src + 1] <= row_ptrs@[w]);
                    }
                    assert(col_indices@.subrange(row_ptrs@[w] as int, cursor@[w] as int) =~= old_cols.subrange(row_ptrs@[w] as int, old_cursor[w] as int));
                }
            }
            if weighted {
                assert forall|w: int| 0 <= w < n implies #[trigger] out_weights@.subrange(row_ptrs@[w] as int, cursor@[w] as int)
                    == weights_of(edges@.take(i + 1), weights@.take(i + 1), w) by {
                    lemma_weights_of_take_step(edges@, weights@, i as int, w);
                    if w == src {
                        assert(out_weights@.subrange(row_ptrs@[w] as int, cursor@[w] as int) =~= old_ws.subrange(row_ptrs@[w] as int, old_cursor[w] as int).push(weights@[i as int]));
                    } else {
                        if w < src {
                            assert(row_ptrs@[w + 1] <= row_ptrs@[src as int]);
                        } else {
                            assert(row_ptrs@[src + 1] <= row_ptrs@[w]);
                        }
                        assert(out_weights@.subrange(row_ptrs@[w] as int, cursor@[w] as int) =~= old_ws.subrange(row_ptrs@[w] as int, old_cursor[w] as int));
                    }
                }
            }
            assert forall|w: int| 0 <= w < n implies row_ptrs@[w] <= #[trigger] cursor@[w] <= row_ptrs@[w + 1]
                && cursor@[w] - row_ptrs@[w] == out_of(edges@.take(i + 1), w).len() by {
                lemma_out_of_take_step(edges@, i as int, w);
                lemma_out_of_len_mono(edges@, i + 1, w);
            }
        }
        i = i + 1;
    }
    proof {
        assert(edges@.take(m as int) =~= edges@);
        if weighted {
            assert(weights@.take(m as int) =~= weights@);
        }
        assert forall|w: int| 0 <= w < n implies #[trigger] col_indices@.subrange(row_ptrs@[w] as int, row_ptrs@[w + 1] as int) == out_of(edges@, w) by {
            assert(cursor@[w] == row_ptrs@[w + 1]);
        }
        if weighted {
            assert forall|w: int| 0 <= w < n implies #[trigger] out_weights@.subrange(row_ptrs@[w] as int, row_ptrs@[w + 1] as int) == weights_of(edges@, weights@, w) by {
                assert(cursor@[w] == row_ptrs@[w + 1]);
            }
        }
    }
    let w = if weighted {
        Some(out_weights)
    } else {
        None
    };
    (row_ptrs, col_indices, w)
}

proof fn lemma_seq_sum_zero(s: Seq<u32>)
    requires
        forall|i: int| 0 <= i < s.len() ==> s[i] == 0,
    ensures
        seq_sum(s) == 0,
    decreases s.len(),
{
    if s.len() > 0 {
        lemma_seq_sum_zero(s.drop_last());
    }
}

// ---------------------------------------------------------------------
// Shard partitioning
// ---------------------------------------------------------------------

/// The adjacency lists described by global CSR arrays.
pub open spec fn rows_adjacency(cols: Seq<u32>, rows: Seq<u32>, n: nat) -> Seq<Seq<u32>> {
    Seq::new(n, |u: int| cols.subrange(rows[u] as int, rows[u + 1] as int))
}

/// Row pointers that start at 0, never decrease and end at the column
/// count.
pub open spec fn rows_ok(rows: Seq<u32>, n: nat, m: nat) -> bool {
    &&& rows.len() == n + 1
    &&& rows[0] == 0
    &&& rows[n as int] == m
    &&& forall|a: int, b: int| 0 <= a <= b <= n ==> #[trigger] rows[a] <= #[trigger] rows[b]
}

proof fn lemma_total_len_rows(cols: Seq<u32>, rows: Seq<u32>, n: nat, j: nat)
    requires
        rows_ok(rows, n, cols.len()),
        j <= n,
    ensures
        total_len(rows_adjacency(cols, rows, j)) == rows[j as int],
    decreases j,
{
    if j > 0 {
        lemma_total_len_rows(cols, rows, n, (j - 1) as nat);
        assert(rows_adjacency(cols, rows, j).drop_last() =~= rows_adjacency(cols, rows, (j - 1) as nat));
        assert(rows[j - 1] <= rows[j as int]);
        assert(rows[j as int] <= rows[n as int]);
    } else {
        assert(rows_adjacency(cols, rows, 0) =~= Seq::<Seq<u32>>::empty());
    }
}

/// `shards` realize the partition `parts` of the CSR arrays.
pub closed spec fn partition_ok(
    shards: Seq<CsrShard>,
    n: nat,
    rows: Seq<u32>,
    cols: Seq<u32>,
    weights: Option<Seq<u32>>,
    parts: Seq<(nat, nat)>,
) -> bool {
    &&& layout_ok(shards, n)
    &&& shards.len() == parts.len()
    &&& forall|k: int| 0 <= k < shards.len() ==> (#[trigger] shards[k].start(), shards[k].end()) == parts[k]
    &&& flat(shards) == rows_adjacency(cols, rows, n)
    &&& forall|k: int| 0 <= k < shards.len() ==> ((#[trigger] shards[k]).weight_bits() is Some <==> weights is Some)
    &&& weights matches Some(w) ==> flat_weights(shards) == rows_adjacency(w, rows, n)
}

/// Estimated bytes of the shard `start..end`.
fn calculate_shard_memory(start: usize, end: usize, row_ptrs: &Vec<u32>, bytes_per_edge: usize) -> (r:
    usize)
    requires
        start <= end < row_ptrs@.len(),
        row_ptrs@[start as int] <= row_ptrs@[end as int],
    ensures
        r == shard_memory(row_ptrs@, start as int, end as int, bytes_per_edge as nat),
{
    let node_count = end - start;
    let edge_count = (row_ptrs[end] - row_ptrs[start]) as usize;
    sat_mul(node_count.saturating_add(1), 4).saturating_add(sat_mul(edge_count, bytes_per_edge))
}

/// Builds the shard holding nodes `start..end` of the global CSR arrays.
fn make_shard(
    id: u32,
    start: usize,
    end: usize,
    row_ptrs: &Vec<u32>,
    col_indices: &Vec<u32>,
    weights: &Option<Vec<u32>>,
) -> (sh: CsrShard)
    requires
        start < end < row_ptrs@.len(),
        rows_ok(row_ptrs@, (row_ptrs@.len() - 1) as nat, col_indices@.len()),
        weights matches Some(w) ==> w@.len() == col_indices@.len(),
    ensures
        sh.wf(),
        sh.spec_id() == id,
        sh.start() == start,
        sh.end() == end,
        sh.weight_bits() is Some <==> weights is Some,
        sh.adj_seq() =~= rows_adjacency(col_indices@, row_ptrs@, (row_ptrs@.len() - 1) as nat).subrange(
            start as int,
            end as int,
        ),
        weights matches Some(w) ==> sh.weight_seq() =~= rows_adjacency(
            w@,
            row_ptrs@,
            (row_ptrs@.len() - 1) as nat,
        ).subrange(start as int, end as int),
{
    let ghost n = (row_ptrs@.len() - 1) as nat;
    let base = row_ptrs[start];
    let mut rows: Vec<u32> = Vec::new();
    let mut i: usize = start;
    let len = row_ptrs.len();
    while i <= end
        invariant
            start <= i <= end + 1,
            end < len == row_ptrs@.len(),
            end < row_ptrs@.len(),
            base == row_ptrs@[start as int],
            rows_ok(row_ptrs@, n, col_indices@.len()),
            n == row_ptrs@.len() - 1,
            rows@.len() == i - start,
            forall|j: int| 0 <= j < rows@.len() ==> #[trigger] rows@[j] == row_ptrs@[start + j] - base,
        decreases end + 1 - i,
    {
        proof {
            assert(row_ptrs@[start as int] <= row_ptrs@[i as int]);
        }
        rows.push(row_ptrs[i] - base);
        i = i + 1;
    }
    let lo = row_ptrs[start] as usize;
    let hi = row_ptrs[end] as usize;
    proof {
        assert(row_ptrs@[start as int] <= row_ptrs@[end as int]);
        assert(row_ptrs@[end as int] <= row_ptrs@[n as int]);
    }
    let cols = vstd::slice::slice_to_vec(vstd::slice::slice_subrange(col_indices.as_slice(), lo, hi));
    let w = match weights {
        Some(w) => Some(vstd::slice::slice_to_vec(vstd::slice::slice_subrange(w.as_slice(), lo, hi))),
        None => None,
    };
    let sh = CsrShard::new(id, std::ops::Range { start, end }, rows, cols, w);
    proof {
        assert forall|a: int, b: int| 0 <= a <= b < sh.rows().len() implies #[trigger] sh.rows()[a] <= #[trigger] sh.rows()[b] by {
            assert(row_ptrs@[start + a] <= row_ptrs@[start + b]);
            assert(row_ptrs@[start as int] <= row_ptrs@[start + a]);
        }
        let g = rows_adjacency(col_indices@, row_ptrs@, n);
        assert forall|j: int| 0 <= j < end - start implies #[trigger] sh.adj_seq()[j] == g.subrange(start as int, end as int)[j] by {
            assert(row_ptrs@[start as int] <= row_ptrs@[start + j]);
            assert(row_ptrs@[start + j] <= row_ptrs@[start + j + 1]);
            assert(row_ptrs@[start + j + 1] <= row_ptrs@[end as int]);
            assert(sh.adj(j) =~= col_indices@.subrange(row_ptrs@[start + j] as int, row_ptrs@[start + j + 1] as int));
        }
        if let Some(ww) = weights {
            let gw = rows_adjacency(ww@, row_ptrs@, n);
            assert forall|j: int| 0 <= j < end - start implies #[trigger] sh.weight_seq()[j] == gw.subrange(start as int, end as int)[j] by {
                assert(row_ptrs@[start as int] <= row_ptrs@[start + j]);
                assert(row_ptrs@[start + j] <= row_ptrs@[start + j + 1]);
                assert(row_ptrs@[start + j + 1] <= row_ptrs@[end as int]);
                assert(sh.adj_weights(j) =~= ww@.subrange(row_ptrs@[start + j] as int, row_ptrs@[start + j + 1] as int));
            }
        }
    }
    sh
}

proof fn lemma_partition_step(rows: Seq<u32>, n: int, start: int, target: int, shard_size: nat, bpe: nat)
    requires
        0 <= start < n,
        target >= 1,
    ensures
        ({
            let e0 = if start + target <= n { start + target } else { n };
            let e = shard_end_from(rows, start, e0, shard_size, bpe);
            &&& start + 1 <= e <= n
            &&& partition_from(rows, n, start, target, shard_size, bpe) == seq![(start as nat, e as nat)]
                + partition_from(rows, n, e, target, shard_size, bpe)
        }),
{
    let e0 = if start + target <= n { start + target } else { n };
    lemma_shard_end_from(rows, start, e0, shard_size, bpe);
}

proof fn lemma_push_shard(
    old: Seq<CsrShard>,
    sh: CsrShard,
    start: nat,
    end: nat,
    gadj: Seq<Seq<u32>>,
    gw: Seq<Seq<u32>>,
    weighted: bool,
)
    requires
        contiguous(old),
        old.len() == 0 ==> start == 0,
        old.len() > 0 ==> old.last().end() == start,
        sh.wf(),
        sh.spec_id() == old.len(),
        sh.start() == start,
        sh.end() == end,
        start < end <= gadj.len(),
        flat(old) == gadj.take(start as int),
        sh.adj_seq() =~= gadj.subrange(start as int, end as int),
        weighted ==> {
            &&& end <= gw.len()
            &&& flat_weights(old) == gw.take(start as int)
            &&& sh.weight_seq() =~= gw.subrange(start as int, end as int)
        },
    ensures
        contiguous(old.push(sh)),
        old.push(sh).last().end() == end,
        forall|k: int| 0 <= k < old.len() ==> #[trigger] old.push(sh)[k] == old[k],
        old.push(sh)[old.len() as int] == sh,
        flat(old.push(sh)) == gadj.take(end as int),
        weighted ==> flat_weights(old.push(sh)) == gw.take(end as int),
{
    let s = old.push(sh);
    assert(s.drop_last() == old);
    reveal_with_fuel(flat, 1);
    reveal_with_fuel(flat_weights, 1);
    assert(flat(s) == flat(old) + sh.adj_seq());
    assert(flat(s) =~= gadj.take(end as int));
    if weighted {
        assert(flat_weights(s) == flat_weights(old) + sh.weight_seq());
        assert(flat_weights(s) =~= gw.take(end as int));
    }
    assert forall|k: int| 0 <= k < s.len() implies {
        &&& (#[trigger] s[k]).wf()
        &&& s[k].spec_id() == k
        &&& s[k].start() < s[k].end()
        &&& (k == 0 ==> s[k].start() == 0)
        &&& (k + 1 < s.len() ==> s[k].end() == s[k + 1].start())
    } by {
        if k < old.len() {
            assert(s[k] == old[k]);
            if k + 1 < old.len() {
                assert(s[k + 1] == old[k + 1]);
            }
        }
    }
}

/// Shrinks the shard `start..end0` while it exceeds `shard_size` and
/// keeps more than one node.
fn find_shard_end(
    start: usize,
    end0: usize,
    row_ptrs: &Vec<u32>,
    shard_size: usize,
    bytes_per_edge: usize,
    Ghost(n): Ghost<nat>,
    Ghost(m): Ghost<nat>,
) -> (end: usize)
    requires
        rows_ok(row_ptrs@, n, m),
        start + 1 <= end0 <= n,
    ensures
        end as int == shard_end_from(row_ptrs@, start as int, end0 as int, shard_size as nat, bytes_per_edge as nat),
        start + 1 <= end <= end0,
{
    let mut end_node = end0;
    proof {
        assert(row_ptrs@[start as int] <= row_ptrs@[end_node as int]);
    }
    let mut shard_bytes = calculate_shard_memory(start, end_node, row_ptrs, bytes_per_edge);
    while shard_bytes > shard_size && end_node > start + 1
        invariant
            rows_ok(row_ptrs@, n, m),
            start + 1 <= end_node <= end0 <= n,
            shard_end_from(row_ptrs@, start as int, end_node as int, shard_size as nat, bytes_per_edge as nat)
                == shard_end_from(row_ptrs@, start as int, end0 as int, shard_size as nat, bytes_per_edge as nat),
            shard_bytes == shard_memory(row_ptrs@, start as int, end_node as int, bytes_per_edge as nat),
        decreases end_node,
    {
        end_node = end_node - 1;
        proof {
            assert(row_ptrs@[start as int] <= row_ptrs@[end_node as int]);
        }
        shard_bytes = calculate_shard_memory(start, end_node, row_ptrs, bytes_per_edge);
    }
    end_node
}

/// Partitions the CSR arrays into shards of about `shard_size` bytes.
///
/// Each shard holds a contiguous range of at least one node; a shard keeps
/// more than one node only while its estimated size stays within
/// `shard_size`.
#[verifier::rlimit(80)]
#[verifier::spinoff_prover]
fn partition_into_shards(
    shard_size: usize,
    n: usize,
    row_ptrs: &Vec<u32>,
    col_indices: &Vec<u32>,
    weights: &Option<Vec<u32>>,
) -> (r: Result<Vec<CsrShard>, GraphError>)
    requires
        rows_ok(row_ptrs@, n as nat, col_indices@.len()),
        weights matches Some(w) ==> w@.len() == col_indices@.len(),
    ensures
        ({
            let bpe: nat = if weights is Some {
                8
            } else {
                4
            };
            let target = target_nodes_per_shard(n as nat, col_indices@.len(), bpe, shard_size as nat);
            let parts = partition_from(row_ptrs@, n as int, 0, target as int, shard_size as nat, bpe);
            &&& parts.len() > u32::MAX ==> r is Err && size_error(r->Err_0, "shard count exceeds u32::MAX"@)
            &&& parts.len() <= u32::MAX ==> r is Ok && partition_ok(
                r->Ok_0@,
                n as nat,
                row_ptrs@,
                col_indices@,
                match weights {
                    Some(w) => Some(w@),
                    None => None,
                },
                parts,
            )
        }),
{
    let ghost gadj = rows_adjacency(col_indices@, row_ptrs@, n as nat);
    let ghost gw: Seq<Seq<u32>> = match weights {
        Some(w) => rows_adjacency(w@, row_ptrs@, n as nat),
        None => Seq::empty(),
    };
    let bytes_per_edge: usize = if weights.is_some() {
        8
    } else {
        4
    };
    let ghost bpe = bytes_per_edge as nat;
    let total_edge_bytes = sat_mul(col_indices.len(), bytes_per_edge);
    let total_row_bytes = sat_mul(n.saturating_add(1), 4);
    let total_bytes = total_row_bytes.saturating_add(total_edge_bytes);
    let mut shards: Vec<CsrShard> = Vec::new();
    if n == 0 {
        proof {
            assert(partition_from(row_ptrs@, 0, 0, 1, shard_size as nat, bpe) =~= Seq::<(nat, nat)>::empty());
            reveal_with_fuel(flat, 1);
            reveal_with_fuel(flat_weights, 1);
            assert(gadj =~= Seq::<Seq<u32>>::empty());
            if let Some(w) = weights {
                assert(rows_adjacency(w@, row_ptrs@, 0) =~= Seq::<Seq<u32>>::empty());
            }
        }
        return Ok(shards);
    }
    let avg = div_ceil(total_bytes, n);
    let avg_bytes_per_node = if avg >= 1 {
        avg
    } else {
        1
    };
    let t = div_ceil(shard_size, avg_bytes_per_node);
    let target_nodes_per_shard = if t >= 1 {
        t
    } else {
        1
    };
    proof {
        assert(target_nodes_per_shard as nat == self::target_nodes_per_shard(n as nat, col_indices@.len(), bpe, shard_size as nat));
    }
    let ghost parts = partition_from(
        row_ptrs@,
        n as int,
        0,
        target_nodes_per_shard as int,
        shard_size as nat,
        bpe,
    );
    let ghost mut done: Seq<(nat, nat)> = Seq::empty();
    let mut start_node: usize = 0;
    let mut shard_id: u32 = 0;
    proof {
        reveal_with_fuel(flat, 1);
        reveal_with_fuel(flat_weights, 1);
        assert(gadj.take(0) =~= Seq::<Seq<u32>>::empty());
        assert(gw.take(0) =~= Seq::<Seq<u32>>::empty());
        assert(done + parts =~= parts);
    }
    while start_node < n
        invariant
            rows_ok(row_ptrs@, n as nat, col_indices@.len()),
            weights matches Some(w) ==> w@.len() == col_indices@.len(),
            gadj == rows_adjacency(col_indices@, row_ptrs@, n as nat),
            weights matches Some(w) ==> gw == rows_adjacency(w@, row_ptrs@, n as nat),
            bpe == bytes_per_edge as nat,
            bytes_per_edge == (if weights is Some { 8usize } else { 4usize }),
            target_nodes_per_shard >= 1,
            target_nodes_per_shard as nat == self::target_nodes_per_shard(n as nat, col_indices@.len(), bpe, shard_size as nat),
            bpe == (if weights is Some { 8nat } else { 4nat }),
            parts == partition_from(row_ptrs@, n as int, 0, target_nodes_per_shard as int, shard_size as nat, bpe),
            start_node <= n,
            shards@.len() == shard_id,
            done.len() == shard_id,
            done + partition_from(row_ptrs@, n as int, start_node as int, target_nodes_per_shard as int, shard_size as nat, bpe) == parts,
            contiguous(shards@),
            shards@.len() == 0 ==> start_node == 0,
            shards@.len() > 0 ==> shards@.last().end() == start_node,
            forall|k: int| 0 <= k < shards@.len() ==> (#[trigger] shards@[k].start(), shards@[k].end()) == done[k],
            flat(shards@) == gadj.take(start_node as int),
            forall|k: int| 0 <= k < shards@.len() ==> ((#[trigger] shards@[k]).weight_bits() is Some <==> weights is Some),
            weights is Some ==> flat_weights(shards@) == gw.take(start_node as int),
        decreases n - start_node,
    {
        let e0 = start_node.saturating_add(target_nodes_per_shard);
        let mut end_node = if e0 <= n {
            e0
        } else {
            n
        };
        end_node = find_shard_end(start_node, end_node, row_ptrs, shard_size, bytes_per_edge, Ghost(n as nat), Ghost(col_indices@.len()));
        let sh = make_shard(shard_id, start_node, end_node, row_ptrs, col_indices, weights);
        let ghost old_shards = shards@;
        shards.push(sh);
        proof {
            lemma_partition_step(row_ptrs@, n as int, start_node as int, target_nodes_per_shard as int, shard_size as nat, bpe);
            let pf_end = partition_from(row_ptrs@, n as int, end_node as int, target_nodes_per_shard as int, shard_size as nat, bpe);
            done = done.push((start_node as nat, end_node as nat));
            assert(done + pf_end =~= parts);
            assert(shards@ == old_shards.push(sh));
            lemma_push_shard(old_shards, sh, start_node as nat, end_node as nat, gadj, gw, weights is Some);
        }
        start_node = end_node;
        match shard_id.checked_add(1) {
            Some(next) => {
                shard_id = next;
            },
            None => {
                proof {
                    let pf = partition_from(row_ptrs@, n as int, start_node as int, target_nodes_per_shard as int, shard_size as nat, bpe);
                    assert((done + pf).len() == parts.len());
                    assert(done.len() == u32::MAX as nat + 1);
                    assert(parts.len() > u32::MAX);
                    assert(bpe == (if weights is Some { 8nat } else { 4nat }));
                }
                proof {
                    reveal_strlit("shard count exceeds u32::MAX");
                }
                return Err(
                    GraphError::UnsupportedGraphSize {
                        reason: String::from_str("shard count exceeds u32::MAX"),
                    },
                );
            },
        }
    }
    proof {
        assert(partition_from(row_ptrs@, n as int, n as int, target_nodes_per_shard as int, shard_size as nat, bpe) =~= Seq::<(nat, nat)>::empty());
        assert(done =~= parts);
        assert(gadj.take(n as int) =~= gadj);
        if weights is Some {
            assert(gw.take(n as int) =~= gw);
        }
    }
    Ok(shards)
}

// ---------------------------------------------------------------------
// Builder
// ---------------------------------------------------------------------

/// Every edge has endpoints in the `u32` node range.
pub open spec fn all_valid(edges: Seq<(u64, u64)>) -> bool {
    forall|k: int| 0 <= k < edges.len() ==> valid_edge(#[trigger] edges[k])
}

/// `edges[i]` is the first edge with an endpoint beyond the `u32` range.
pub open spec fn first_invalid_at(edges: Seq<(u64, u64)>, i: int) -> bool {
    &&& 0 <= i < edges.len()
    &&& !valid_edge(edges[i])
    &&& forall|j: int| 0 <= j < i ==> valid_edge(#[trigger] edges[j])
}

/// Configuration for CSR building.
#[derive(Debug, Clone, Copy, PartialEq, Eq, Structural)]
pub struct CsrBuildConfig {
    /// Shard size in bytes.
    pub shard_size: usize,
    /// Whether to include edge weights.
    pub include_weights: bool,
}

impl Default for CsrBuildConfig {
    fn default() -> (r: Self)
        ensures
            r.shard_size == DEFAULT_SHARD_SIZE,
            !r.include_weights,
    {
        CsrBuildConfig { shard_size: DEFAULT_SHARD_SIZE, include_weights: false }
    }
}

/// Builder for constructing CSR graphs.
#[derive(Debug)]
pub struct CsrBuilder {
    config: CsrBuildConfig,
    edges: Vec<(u64, u64)>,
    weights: Vec<u32>,
}

/// Checks that every edge endpoint fits the `u32` node range; reports the
/// first edge that does not.
fn validate_edge_ids(edges: &Vec<(u64, u64)>) -> (r: Result<(), GraphError>)
    ensures
        r is Ok <==> all_valid(edges@),
        forall|i: int|
            first_invalid_at(edges@, i) ==> r == Err::<(), GraphError>(
                GraphError::InvalidEdge { from: NodeId(edges@[i].0), to: NodeId(edges@[i].1) },
            ),
{
    let mut k: usize = 0;
    while k < edges.len()
        invariant
            k <= edges@.len(),
            forall|j: int| 0 <= j < k ==> valid_edge(#[trigger] edges@[j]),
        decreases edges@.len() - k,
    {
        let (src, dst) = edges[k];
        if src > u32::MAX as u64 || dst > u32::MAX as u64 {
            proof {
                assert forall|i: int| first_invalid_at(edges@, i) implies i == k by {
                    if i < k {
                        assert(valid_edge(edges@[i]));
                    }
                    if i > k {
                        assert(valid_edge(edges@[k as int]));
                    }
                }
            }
            return Err(GraphError::InvalidEdge { from: NodeId(src), to: NodeId(dst) });
        }
        k = k + 1;
    }
    Ok(())
}

/// Largest endpoint of any edge.
fn max_node_of(edges: &Vec<(u64, u64)>) -> (r: u64)
    ensures
        r == max_endpoint(edges@),
{
    let mut max_node: u64 = 0;
    let mut k: usize = 0;
    proof {
        assert(edges@.take(0) =~= Seq::<(u64, u64)>::empty());
    }
    while k < edges.len()
        invariant
            k <= edges@.len(),
            max_node == max_endpoint(edges@.take(k as int)),
        decreases edges@.len() - k,
    {
        let (src, dst) = edges[k];
        proof {
            assert(edges@.take(k + 1).drop_last() =~= edges@.take(k as int));
        }
        let m = if src >= dst {
            src
        } else {
            dst
        };
        if m > max_node {
            max_node = m;
        }
        k = k + 1;
    }
    proof {
        assert(edges@.take(edges@.len() as int) =~= edges@);
    }
    max_node
}

/// Shard partition of the graph built from `eff` under `config`.
pub open spec fn partition_spec_of(eff: Seq<(u64, u64)>, config: CsrBuildConfig) -> Seq<(nat, nat)> {
    let n = max_endpoint(eff) + 1;
    let bpe: nat = if config.include_weights {
        8
    } else {
        4
    };
    let size = config.shard_size as nat;
    partition_from(
        row_offsets(adjacency_of(eff, n)),
        n as int,
        0,
        target_nodes_per_shard(n, eff.len(), bpe, size) as int,
        size,
        bpe,
    )
}

proof fn lemma_rows_are_offsets(eff: Seq<(u64, u64)>, n: nat, rows: Seq<u32>, cols: Seq<u32>)
    requires
        rows_ok(rows, n, cols.len()),
        forall|u: int| 0 <= u < n ==> #[trigger] cols.subrange(rows[u] as int, rows[u + 1] as int) == out_of(eff, u),
    ensures
        rows_adjacency(cols, rows, n) == adjacency_of(eff, n),
        rows == row_offsets(adjacency_of(eff, n)),
{
    let base = adjacency_of(eff, n);
    assert(rows_adjacency(cols, rows, n) =~= base);
    assert forall|u: int| 0 <= u <= n implies #[trigger] rows[u] == total_len(base.take(u)) as u32 by {
        lemma_total_len_rows(cols, rows, n, u as nat);
        assert(rows_adjacency(cols, rows, u as nat) =~= base.take(u));
    }
    assert(rows =~= row_offsets(base));
}

proof fn lemma_assembled(
    g: CsrGraph,
    eff: Seq<(u64, u64)>,
    effw: Seq<u32>,
    config: CsrBuildConfig,
    rows: Seq<u32>,
    cols: Seq<u32>,
    w: Option<Seq<u32>>,
)
    requires
        all_valid(eff),
        g.node_count == max_endpoint(eff) + 1,
        max_endpoint(eff) <= u32::MAX,
        g.edge_count == eff.len(),
        cols.len() == eff.len(),
        rows_ok(rows, g.node_count as nat, cols.len()),
        rows == row_offsets(adjacency_of(eff, g.node_count as nat)),
        rows_adjacency(cols, rows, g.node_count as nat) == adjacency_of(eff, g.node_count as nat),
        config.include_weights <==> w is Some,
        w matches Some(ww) ==> {
            &&& ww.len() == cols.len()
            &&& forall|u: int|
                0 <= u < g.node_count ==> #[trigger] ww.subrange(rows[u] as int, rows[u + 1] as int)
                    == weights_of(eff, effw, u)
        },
        partition_ok(g.shards@, g.node_count as nat, rows, cols, w, partition_spec_of(eff, config)),
        g.shards@.len() <= u32::MAX,
        g.delta.wf(),
        g.delta@.ins == no_insertions(),
        g.delta@.del == no_keys(),
    ensures
        built_graph(g, eff, effw, config.include_weights, partition_spec_of(eff, config)),
{
    let n = g.node_count as nat;
    lemma_flat(g.shards@);
    lemma_total_len_rows(cols, rows, n, n);
    assert forall|u: int, i: int|
        0 <= u < g@.base.len() && 0 <= i < g@.base[u].len() implies (#[trigger] g@.base[u][i]) < g@.node_count by {
        lemma_out_of_bounded(eff, u, i);
    }
    if config.include_weights {
        assert(g.shards@[0].weight_bits() is Some);
        let ww = w.unwrap();
        assert(rows_adjacency(ww, rows, n) =~= weight_lists_of(eff, effw, n));
    }
    assert(g.shard_bounds() =~= partition_spec_of(eff, config));
    assert(g@.delta_empty());
}

/// Builds the graph from validated effective edges.
fn build_effective(config: CsrBuildConfig, edges: Vec<(u64, u64)>, weights: Vec<u32>) -> (r: Result<
    CsrGraph,
    GraphError,
>)
    requires
        all_valid(edges@),
        config.include_weights ==> weights@.len() == edges@.len(),
    ensures
        ({
            let n = max_endpoint(edges@) + 1;
            let m = edges@.len();
            let parts = partition_spec_of(edges@, config);
            &&& n > usize::MAX ==> r is Err && size_error(r->Err_0, node_count_reason(n))
            &&& n <= usize::MAX && m > u32::MAX ==> r is Err && size_error(r->Err_0, edge_count_reason(m))
            &&& n <= usize::MAX && m <= u32::MAX && parts.len() > u32::MAX ==> r is Err
                && size_error(r->Err_0, "shard count exceeds u32::MAX"@)
            &&& n <= usize::MAX && m <= u32::MAX && parts.len() <= u32::MAX ==> r is Ok && built_graph(
                r->Ok_0,
                edges@,
                weights@,
                config.include_weights,
                parts,
            )
        }),
{
    proof {
        lemma_max_endpoint_bound(edges@);
    }
        let max_node = max_node_of(&edges);
        if max_node + 1 > usize::MAX as u64 {
            let mut reason = String::from_str("node count ");
            reason.append(u64_to_decimal(max_node + 1).as_str());
            reason.append(" exceeds platform addressable range");
            proof {
                reveal_strlit("node count ");
                reveal_strlit(" exceeds platform addressable range");
            }
            return Err(GraphError::UnsupportedGraphSize { reason });
        }
        let n = (max_node + 1) as usize;
        let m = edges.len();
        if m > u32::MAX as usize {
            let mut reason = String::from_str("edge count ");
            reason.append(u64_to_decimal(m as u64).as_str());
            reason.append(" exceeds CSR row pointer capacity");
            proof {
                reveal_strlit("edge count ");
                reveal_strlit(" exceeds CSR row pointer capacity");
            }
            return Err(GraphError::UnsupportedGraphSize { reason });
        }
        proof {
            assert forall|k: int| 0 <= k < edges@.len() implies (#[trigger] edges@[k]).0 < n && valid_edge(edges@[k]) by {
                lemma_sources_below_max(edges@, k);
            }
        }
        let (row_ptrs, col_indices, w) = build_csr_arrays(&edges, &weights, config.include_weights, n);
        proof {
            lemma_rows_are_offsets(edges@, n as nat, row_ptrs@, col_indices@);
        }
        let shards = match partition_into_shards(config.shard_size, n, &row_ptrs, &col_indices, &w) {
            Ok(s) => s,
            Err(e) => {
                return Err(e);
            },
        };
        let g = CsrGraph { shards, node_count: n, edge_count: m, delta: DeltaLayer::new() };
        proof {
            lemma_assembled(
                g,
                edges@,
                weights@,
                config,
                row_ptrs@,
                col_indices@,
                match w {
                    Some(ww) => Some(ww@),
                    None => None,
                },
            );
        }
        Ok(g)
}

/// A graph produced by `CsrBuilder::build` for edges `eff` (weights
/// `effw` when `weighted`), partitioned as `parts`.
pub open spec fn built_graph(
    g: CsrGraph,
    eff: Seq<(u64, u64)>,
    effw: Seq<u32>,
    weighted: bool,
    parts: Seq<(nat, nat)>,
) -> bool {
    let n = max_endpoint(eff) + 1;
    &&& g.wf()
    &&& g@.node_count == n
    &&& g@.edge_count == eff.len()
    &&& g@.base == adjacency_of(eff, n)
    &&& g@.weights == if weighted {
        Some(weight_lists_of(eff, effw, n))
    } else {
        None
    }
    &&& g@.delta_empty()
    &&& g.shard_bounds() == parts
}

/// Number of edges that take part in a build: with weights, an edge
/// counts only when a weight stands at its position.
pub open spec fn effective_len_of(edges: Seq<(u64, u64)>, weights: Seq<u32>, config: CsrBuildConfig) -> nat {
    if config.include_weights && weights.len() < edges.len() {
        weights.len()
    } else {
        edges.len()
    }
}

/// `e` is an `UnsupportedGraphSize` error with the given reason.
pub open spec fn size_error(e: GraphError, reason: Seq<char>) -> bool {
    match e {
        GraphError::UnsupportedGraphSize { reason: r } => r@ == reason,
        _ => false,
    }
}

/// The reason given for a node count beyond `usize`.
pub open spec fn node_count_reason(n: nat) -> Seq<char> {
    "node count "@ + decimal(n) + " exceeds platform addressable range"@
}

/// The reason given for more edges than row pointers can count.
pub open spec fn edge_count_reason(m: nat) -> Seq<char> {
    "edge count "@ + decimal(m) + " exceeds CSR row pointer capacity"@
}

/// `r` is what a build of `edges` (with `weights`) under `config` gives:
/// the empty graph for no edges; `InvalidEdge` for the first edge with an
/// endpoint beyond the `u32` node range; `UnsupportedGraphSize` when the
/// node count exceeds `usize`, the edge count `u32::MAX`, or the shard
/// count `u32::MAX`; otherwise the CSR graph of the effective edges.
pub open spec fn build_result(
    edges: Seq<(u64, u64)>,
    weights: Seq<u32>,
    config: CsrBuildConfig,
    r: Result<CsrGraph, GraphError>,
) -> bool {
    let m = effective_len_of(edges, weights, config);
    let eff = edges.take(m as int);
    let effw = weights.take(m as int);
    let n = max_endpoint(eff) + 1;
    let parts = partition_spec_of(eff, config);
    &&& edges.len() == 0 ==> r is Ok && r->Ok_0.wf() && r->Ok_0@.node_count == 0 && r->Ok_0@.edge_count == 0
        && r->Ok_0@.base == Seq::<Seq<u32>>::empty() && r->Ok_0@.weights is None && r->Ok_0@.delta_empty()
        && r->Ok_0.shard_bounds() == Seq::<(nat, nat)>::empty()
    &&& forall|i: int|
        first_invalid_at(edges, i) ==> r == Err::<CsrGraph, GraphError>(
            GraphError::InvalidEdge { from: NodeId(edges[i].0), to: NodeId(edges[i].1) },
        )
    &&& edges.len() > 0 && all_valid(edges) ==> {
        &&& n > usize::MAX ==> r is Err && size_error(r->Err_0, node_count_reason(n))
        &&& n <= usize::MAX && m > u32::MAX ==> r is Err && size_error(r->Err_0, edge_count_reason(m))
        &&& n <= usize::MAX && m <= u32::MAX && parts.len() > u32::MAX ==> r is Err
            && size_error(r->Err_0, "shard count exceeds u32::MAX"@)
        &&& n <= usize::MAX && m <= u32::MAX && parts.len() <= u32::MAX ==> r is Ok && built_graph(
            r->Ok_0,
            eff,
            effw,
            config.include_weights,
            parts,
        )
    }
}

/// The configuration of `CsrBuilder::new`.
pub open spec fn default_build_config() -> CsrBuildConfig {
    CsrBuildConfig { shard_size: DEFAULT_SHARD_SIZE, include_weights: false }
}

impl CsrBuilder {
    /// The build configuration.
    pub closed spec fn spec_config(&self) -> CsrBuildConfig {
        self.config
    }

    /// Edges added so far.
    pub closed spec fn spec_edges(&self) -> Seq<(u64, u64)> {
        self.edges@
    }

    /// Weights (as `f32` bits) added so far.
    pub closed spec fn spec_weights(&self) -> Seq<u32> {
        self.weights@
    }

    /// Number of edges that take part in the build.
    pub open spec fn effective_len(&self) -> nat {
        effective_len_of(self.spec_edges(), self.spec_weights(), self.spec_config())
    }

    /// The edges that take part in the build.
    pub open spec fn effective_edges(&self) -> Seq<(u64, u64)> {
        self.spec_edges().take(self.effective_len() as int)
    }

    /// The weights that take part in the build.
    pub open spec fn effective_weights(&self) -> Seq<u32> {
        self.spec_weights().take(self.effective_len() as int)
    }

    /// Number of nodes of the built graph.
    pub open spec fn node_count_spec(&self) -> nat {
        max_endpoint(self.effective_edges()) + 1
    }

    /// Shard partition of the built graph.
    pub open spec fn partition_spec(&self) -> Seq<(nat, nat)> {
        let n = self.node_count_spec();
        let eff = self.effective_edges();
        let bpe: nat = if self.spec_config().include_weights {
            8
        } else {
            4
        };
        let size = self.spec_config().shard_size as nat;
        partition_from(
            row_offsets(adjacency_of(eff, n)),
            n as int,
            0,
            target_nodes_per_shard(n, eff.len(), bpe, size) as int,
            size,
            bpe,
        )
    }

    /// Creates a new builder with default configuration.
    pub fn new() -> (r: Self)
        ensures
            r.spec_config().shard_size == DEFAULT_SHARD_SIZE,
            !r.spec_config().include_weights,
            r.spec_edges() == Seq::<(u64, u64)>::empty(),
            r.spec_weights() == Seq::<u32>::empty(),
    {
        CsrBuilder {
            config: CsrBuildConfig { shard_size: DEFAULT_SHARD_SIZE, include_weights: false },
            edges: Vec::new(),
            weights: Vec::new(),
        }
    }

    /// Sets the shard size.
    pub fn with_shard_size(self, size: usize) -> (r: Self)
        ensures
            r.spec_config().shard_size == size,
            r.spec_config().include_weights == self.spec_config().include_weights,
            r.spec_edges() == self.spec_edges(),
            r.spec_weights() == self.spec_weights(),
    {
        let mut b = self;
        b.config.shard_size = size;
        b
    }

    /// Adds unweighted edges.
    pub fn with_edges(self, edges: Vec<(u64, u64)>) -> (r: Self)
        ensures
            r.spec_config() == self.spec_config(),
            r.spec_edges() == self.spec_edges() + edges@,
            r.spec_weights() == self.spec_weights(),
    {
        let mut b = self;
        let mut edges = edges;
        b.edges.append(&mut edges);
        b
    }

    /// Adds weighted edges `(source, target, weight bits)` and turns on
    /// weights for the build.
    pub fn with_weighted_edges(self, edges: Vec<(u64, u64, u32)>) -> (r: Self)
        ensures
            r.spec_config().shard_size == self.spec_config().shard_size,
            r.spec_config().include_weights,
            r.spec_edges() == self.spec_edges() + edges@.map_values(|e: (u64, u64, u32)| (e.0, e.1)),
            r.spec_weights() == self.spec_weights() + edges@.map_values(|e: (u64, u64, u32)| e.2),
    {
        let mut b = self;
        b.config.include_weights = true;
        let ghost e0 = b.edges@;
        let ghost w0 = b.weights@;
        let mut k: usize = 0;
        while k < edges.len()
            invariant
                k <= edges@.len(),
                b.edges@ == e0 + edges@.take(k as int).map_values(|e: (u64, u64, u32)| (e.0, e.1)),
                b.weights@ == w0 + edges@.take(k as int).map_values(|e: (u64, u64, u32)| e.2),
                b.config.include_weights,
                b.config.shard_size == self.spec_config().shard_size,
            decreases edges@.len() - k,
        {
            let (src, dst, w) = edges[k];
            b.edges.push((src, dst));
            b.weights.push(w);
            proof {
                assert(edges@.take(k + 1) =~= edges@.take(k as int).push(edges@[k as int]));
                assert(b.edges@ =~= e0 + edges@.take(k + 1).map_values(|e: (u64, u64, u32)| (e.0, e.1)));
                assert(b.weights@ =~= w0 + edges@.take(k + 1).map_values(|e: (u64, u64, u32)| e.2));
            }
            k = k + 1;
        }
        proof {
            assert(edges@.take(edges@.len() as int) =~= edges@);
        }
        b
    }

    /// Builds the CSR graph.
    ///
    /// Fails with `InvalidEdge` for the first edge whose endpoint exceeds the
    /// `u32` node range, and with `UnsupportedGraphSize` when the graph
    /// exceeds the CSR capacity limits (node count beyond `usize`, more than
    /// `u32::MAX` edges, or more than `u32::MAX` shards).
    pub fn build(self) -> (r: Result<CsrGraph, GraphError>)
        ensures
            build_result(self.spec_edges(), self.spec_weights(), self.spec_config(), r),
    {
        if self.edges.len() == 0 {
            return Ok(CsrGraph::empty());
        }
        match validate_edge_ids(&self.edges) {
            Ok(()) => {},
            Err(e) => {
                return Err(e);
            },
        }
        let ghost orig = self;
        let CsrBuilder { config, mut edges, mut weights } = self;
        if config.include_weights && weights.len() < edges.len() {
            edges.truncate(weights.len());
        }
        if config.include_weights && edges.len() < weights.len() {
            weights.truncate(edges.len());
        }
        proof {
            assert(edges@ == orig.effective_edges());
            assert(config.include_weights ==> weights@ == orig.effective_weights());
            assert(all_valid(edges@)) by {
                assert forall|k: int| 0 <= k < edges@.len() implies valid_edge(#[trigger] edges@[k]) by {
                    assert(edges@[k] == orig.spec_edges()[k]);
                }
            }
            lemma_max_endpoint_bound(edges@);
        }
        proof {
            assert(orig.partition_spec() == partition_spec_of(edges@, config));
        }
        build_effective(config, edges, weights)
    }
}

impl Default for CsrBuilder {
    fn default() -> (r: Self)
        ensures
            r.spec_config().shard_size == DEFAULT_SHARD_SIZE,
            !r.spec_config().include_weights,
            r.spec_edges() == Seq::<(u64, u64)>::empty(),
            r.spec_weights() == Seq::<u32>::empty(),
    {
        CsrBuilder::new()
    }
}

// ---------------------------------------------------------------------
// Graph queries
// ---------------------------------------------------------------------

proof fn lemma_starts_increase(shards: Seq<CsrShard>, a: int, b: int)
    requires
        contiguous(shards),
        0 <= a < b < shards.len(),
    ensures
        shards[a].start() < shards[b].start(),
{
    lemma_contiguous_order(shards, a, b);
    assert(shards[a].start() < shards[a].end());
}

impl CsrGraph {
    /// Builds a graph from unweighted edges with the default configuration.
    pub fn from_edges(edges: &[(u64, u64)]) -> (r: Self)
        requires
            all_valid(edges@),
            edges@.len() <= u32::MAX,
            max_endpoint(edges@) + 1 <= usize::MAX,
            partition_spec_of(edges@, default_build_config()).len() <= u32::MAX,
        ensures
            build_result(edges@, Seq::empty(), default_build_config(), Ok(r)),
    {
        let b = CsrBuilder::new().with_edges(vstd::slice::slice_to_vec(edges));
        proof {
            assert(b.spec_edges() =~= edges@);
            assert(b.spec_config() == default_build_config());
            assert(edges@.take(edges@.len() as int) =~= edges@);
        }
        match b.build() {
            Ok(g) => g,
            Err(_) => vstd::pervasive::unreached(),
        }
    }

    /// Returns the total number of nodes.
    pub fn node_count(&self) -> (r: usize)
        ensures
            r == self@.node_count,
    {
        self.node_count
    }

    /// Returns the total number of edges (base layer only).
    pub fn edge_count(&self) -> (r: usize)
        ensures
            r == self@.edge_count,
    {
        self.edge_count
    }

    /// Returns the number of shards.
    pub fn shard_count(&self) -> (r: usize)
        ensures
            r == self.shard_bounds().len(),
    {
        self.shards.len()
    }

    /// Returns the shards of the base layer.
    pub fn shards(&self) -> (r: &[CsrShard])
        ensures
            r@ == self.shard_seq(),
            r@.len() == self.shard_bounds().len(),
            forall|k: int|
                0 <= k < r@.len() ==> (#[trigger] r@[k]).start() == self.shard_bounds()[k].0
                    && r@[k].end() == self.shard_bounds()[k].1,
            self.wf() ==> forall|k: int| 0 <= k < r@.len() ==> (#[trigger] r@[k]).wf() && r@[k].spec_id() == k,
    {
        proof {
            if self.wf() {
                lemma_flat(self.shards@);
            }
        }
        self.shards.as_slice()
    }

    /// Returns true if the graph contains the given node.
    pub fn contains(&self, node: NodeId) -> (r: bool)
        ensures
            r == (node.0 < self@.node_count),
    {
        node.0 <= usize::MAX as u64 && (node.0 as usize) < self.node_count
    }

    /// Converts a global `NodeId` to `(shard_index, local_offset)`.
    pub fn global_to_shard(&self, node: NodeId) -> (r: Option<(usize, usize)>)
        requires
            self.wf(),
        ensures
            r is Some <==> node.0 < self@.node_count,
            r matches Some((s, o)) ==> s < self.shard_bounds().len() && self.shard_node(s as int, o as int)
                == Some(node.0),
    {
        proof {
            lemma_flat(self.shards@);
        }
        if node.0 > usize::MAX as u64 {
            return None;
        }
        let id = node.0 as usize;
        let mut lo: usize = 0;
        let mut hi: usize = self.shards.len();
        while lo < hi
            invariant
                0 <= lo <= hi <= self.shards@.len(),
                contiguous(self.shards@),
                forall|k: int| 0 <= k < lo ==> #[trigger] self.shards@[k].start() <= id,
                forall|k: int| hi <= k < self.shards@.len() ==> #[trigger] self.shards@[k].start() > id,
            decreases hi - lo,
        {
            let mid = lo + (hi - lo) / 2;
            if self.shards[mid].node_start <= id {
                proof {
                    assert forall|k: int| 0 <= k < mid + 1 implies #[trigger] self.shards@[k].start() <= id by {
                        if k < mid {
                            lemma_starts_increase(self.shards@, k, mid as int);
                        }
                    }
                }
                lo = mid + 1;
            } else {
                proof {
                    assert forall|k: int| mid <= k < self.shards@.len() implies #[trigger] self.shards@[k].start() > id by {
                        if k > mid {
                            lemma_starts_increase(self.shards@, mid as int, k);
                        }
                    }
                }
                hi = mid;
            }
        }
        if lo == 0 {
            proof {
                if self.shards@.len() > 0 {
                    assert(self.shards@[0].start() == 0);
                }
            }
            return None;
        }
        let k = lo - 1;
        let shard = &self.shards[k];
        if shard.contains(id) {
            Some((k, id - shard.node_start))
        } else {
            proof {
                if k + 1 < self.shards@.len() {
                    assert(self.shards@[k as int].end() == self.shards@[k + 1].start());
                }
            }
            None
        }
    }

    /// Converts `(shard_index, local_offset)` to a global `NodeId`.
    pub fn shard_to_global(&self, shard_idx: usize, offset: usize) -> (r: Option<NodeId>)
        requires
            self.wf(),
        ensures
            r == match self.shard_node(shard_idx as int, offset as int) {
                Some(g) => Some(NodeId(g)),
                None => None,
            },
    {
        if shard_idx >= self.shards.len() {
            return None;
        }
        let shard = &self.shards[shard_idx];
        proof {
            assert(shard.wf());
        }
        if offset >= shard.node_count() {
            return None;
        }
        let global = shard.node_start + offset;
        proof {
            lemma_flat(self.shards@);
            assert(global < self.node_count) by {
                if shard_idx + 1 < self.shards@.len() {
                    lemma_contiguous_order(self.shards@, shard_idx as int, self.shards@.len() - 1);
                }
            }
        }
        Some(NodeId(global as u64))
    }

    /// Returns the shard containing the given node.
    pub fn shard_for(&self, node: NodeId) -> (r: Option<&CsrShard>)
        requires
            self.wf(),
        ensures
            r is Some <==> node.0 < self@.node_count,
            r matches Some(sh) ==> sh.start() <= node.0 < sh.end(),
    {
        match self.global_to_shard(node) {
            Some((s, _)) => Some(&self.shards[s]),
            None => None,
        }
    }

    /// Returns the base-layer targets of a node as a slice of dense `u32`
    /// IDs (empty for nodes outside the base layer). Delta insertions and
    /// tombstones are not applied.
    pub fn base_neighbor_slice(&self, node: NodeId) -> (r: &[u32])
        requires
            self.wf(),
        ensures
            node.0 < self@.node_count ==> r@ == self@.base[node.0 as int],
            node.0 >= self@.node_count ==> r@.len() == 0,
    {
        match self.global_to_shard(node) {
            Some((s, o)) => {
                let shard = &self.shards[s];
                proof {
                    lemma_flat(self.shards@);
                    assert(shard.wf());
                }
                shard.neighbor_slice(o)
            },
            None => {
                let e: &[u32] = &[];
                e
            },
        }
    }

    /// Returns true if the base layer holds the edge `(from, to)`.
    pub(crate) fn base_contains(&self, from: NodeId, to: NodeId) -> (r: bool)
        requires
            self.wf(),
        ensures
            r == self@.base_has(from.0, to.0),
    {
        if to.0 > u32::MAX as u64 {
            return false;
        }
        let t = to.0 as u32;
        let slice = self.base_neighbor_slice(from);
        let mut i: usize = 0;
        while i < slice.len()
            invariant
                i <= slice@.len(),
                t as u64 == to.0,
                from.0 < self@.node_count ==> slice@ == self@.base[from.0 as int],
                from.0 >= self@.node_count ==> slice@.len() == 0,
                forall|j: int| 0 <= j < i ==> slice@[j] != t,
            decreases slice@.len() - i,
        {
            if slice[i] == t {
                proof {
                    assert(slice@[i as int] == t);
                }
                return true;
            }
            i = i + 1;
        }
        false
    }

    /// Returns true if the base layer stores edge weights.
    pub(crate) fn has_weights(&self) -> (r: bool)
        requires
            self.wf(),
        ensures
            r == self@.weights is Some,
    {
        self.shards.len() > 0 && self.shards[0].has_weights()
    }

    /// Returns the base-layer weights (as `f32` bits) of the out-edges of
    /// a node of the base layer, when the graph stores weights.
    pub(crate) fn base_weight_slice(&self, node: NodeId) -> (r: Option<&[u32]>)
        requires
            self.wf(),
            node.0 < self@.node_count,
        ensures
            r is Some <==> self@.weights is Some,
            r matches Some(w) ==> w@ == self@.weights->0[node.0 as int],
    {
        match self.global_to_shard(node) {
            Some((s, o)) => {
                let shard = &self.shards[s];
                proof {
                    lemma_flat(self.shards@);
                    assert(shard.wf());
                }
                shard.neighbor_weight_slice(o)
            },
            None => None,
        }
    }

    /// Returns the memory held by the graph in bytes: its shards and its
    /// delta layer (saturating at `usize::MAX`).
    pub fn memory_usage(&self) -> (r: usize)
        ensures
            r == self.memory_spec(),
    {
        let mut acc: usize = 0;
        let mut k: usize = 0;
        while k < self.shards.len()
            invariant
                k <= self.shards@.len(),
                acc == sat(shards_bytes(self.shards@.take(k as int)) as int),
            decreases self.shards@.len() - k,
        {
            let m = self.shards[k].memory_usage();
            proof {
                assert(self.shards@.take(k + 1).drop_last() =~= self.shards@.take(k as int));
                lemma_sat_sum(shards_bytes(self.shards@.take(k as int)) as int, shard_bytes(self.shards@[k as int]) as int);
            }
            acc = acc.saturating_add(m);
            k = k + 1;
        }
        let d = self.delta.memory_usage();
        proof {
            assert(self.shards@.take(k as int) =~= self.shards@);
            lemma_sat_sum(shards_bytes(self.shards@) as int, d as int);
        }
        acc.saturating_add(d)
    }

    /// Returns statistics about the graph.
    pub fn statistics(&self) -> (r: GraphStatistics)
        ensures
            r.node_count == self@.node_count,
            r.edge_count == self@.edge_count,
            r.shard_count == self.shard_bounds().len(),
            r.memory_bytes == self.memory_spec(),
            r.delta_entries == sat((self@.delta.ins.dom().len() + self@.delta.del.len()) as int),
    {
        GraphStatistics {
            node_count: self.node_count,
            edge_count: self.edge_count,
            shard_count: self.shards.len(),
            memory_bytes: self.memory_usage(),
            delta_entries: self.delta.len(),
        }
    }

    /// Returns a reference to the delta layer.
    pub fn delta(&self) -> (r: &DeltaLayer)
        ensures
            r@ == self@.delta,
            self.wf() ==> r.wf(),
    {
        &self.delta
    }

    /// Returns the delta layer for mutation; the base layer stays as is.
    pub fn delta_mut(&mut self) -> (r: &mut DeltaLayer)
        ensures
            r@ == old(self)@.delta,
            final(self)@ == (GraphView { delta: final(r)@, ..old(self)@ }),
            old(self).wf() && final(r).wf() ==> final(self).wf(),
            final(self).shard_bounds() == old(self).shard_bounds(),
    {
        &mut self.delta
    }

    /// Returns the neighbors of a node: base-layer targets in storage order
    /// (skipping tombstoned edges), then pending insertions not already
    /// yielded by the base layer, each once.
    pub fn neighbors(&self, node: NodeId) -> (r: Vec<NodeId>)
        requires
            self.wf(),
        ensures
            forall|t: u64| r@.contains(NodeId(t)) <==> self@.has_edge(node.0, t),
            r@.len() >= base_kept(self@, node.0).len(),
            r@.subrange(0, base_kept(self@, node.0).len() as int) == base_kept(self@, node.0),
            r@.skip(base_kept(self@, node.0).len() as int).no_duplicates(),
            r@.skip(base_kept(self@, node.0).len() as int).to_set() == extra_targets(self@, node.0),
            r@.len() == base_kept(self@, node.0).len() + extra_targets(self@, node.0).len(),
            neighbor_listing(self@, node.0, r@),
    {
        broadcast use vstd::std_specs::hash::group_hash_axioms;

        let base = self.base_neighbor_slice(node);
        let mut out: Vec<NodeId> = Vec::new();
        let mut seen: std::collections::HashSet<u64> = std::collections::HashSet::new();
        let ghost kept = base_kept(self@, node.0);
        let ghost full = if node.0 < self@.node_count {
            self@.base[node.0 as int]
        } else {
            Seq::<u32>::empty()
        };
        let mut i: usize = 0;
        while i < base.len()
            invariant
                self.wf(),
                base@ == full,
                full == (if node.0 < self@.node_count {
                    self@.base[node.0 as int]
                } else {
                    Seq::<u32>::empty()
                }),
                i <= base@.len(),
                out@ == kept_list(node.0, full.take(i as int), self@.delta.del),
                forall|t: u64|
                    seen@.contains(t) <==> (t <= u32::MAX && full.take(i as int).contains(t as u32)
                        && !self@.delta.del.contains((node.0, t))),
            decreases base@.len() - i,
        {
            let n = base[i];
            proof {
                assert(full.take(i + 1).drop_last() =~= full.take(i as int));
                lemma_take_step_contains(full, i as int);
            }
            if !self.delta.is_deleted(node, NodeId(n as u64)) {
                out.push(NodeId(n as u64));
                seen.insert(n as u64);
            }
            i = i + 1;
        }
        proof {
            assert(full.take(full.len() as int) =~= full);
            assert(out@ == kept);
            assert(kept == kept_list(node.0, full, self@.delta.del));
            assert forall|t: u64| seen@.contains(t) <==> kept.contains(NodeId(t)) by {
                assert(full.take(i as int) == full);
                lemma_kept_list(node.0, full, self@.delta.del, t);
            }
        }
        let base_len = out.len();
        let inserted = self.delta.neighbors(node);
        let mut j: usize = 0;
        while j < inserted.len()
            invariant
                self.wf(),
                j <= inserted@.len(),
                inserted@.no_duplicates(),
                forall|t: NodeId| inserted@.contains(t) <==> self@.delta.ins.dom().contains((node.0, t.0)),
                base_len == kept.len(),
                out@.len() >= base_len,
                out@.subrange(0, base_len as int) == kept,
                forall|t: u64| seen@.contains(t) <==> kept.contains(NodeId(t)),
                out@.skip(base_len as int).no_duplicates(),
                forall|t: NodeId| out@.skip(base_len as int).contains(t) <==> (exists|q: int| 0 <= q < j && inserted@[q] == t && !kept.contains(t)),
            decreases inserted@.len() - j,
        {
            let t = inserted[j];
            if !seen.contains(&t.0) {
                let ghost prev = out@;
                out.push(t);
                proof {
                    assert(out@.subrange(0, base_len as int) =~= prev.subrange(0, base_len as int));
                    assert(out@.skip(base_len as int) =~= prev.skip(base_len as int).push(t));
                    assert(!prev.skip(base_len as int).contains(t)) by {
                        if prev.skip(base_len as int).contains(t) {
                            let q = choose|q: int| 0 <= q < j && inserted@[q] == t && !kept.contains(t);
                            assert(inserted@[q] == inserted@[j as int]);
                        }
                    }
                    assert forall|x: NodeId| out@.skip(base_len as int).contains(x) <==> (exists|q: int| 0 <= q < j + 1 && inserted@[q] == x && !kept.contains(x)) by {
                        if x == t {
                            assert(inserted@[j as int] == x);
                            assert(t == NodeId(t.0));
                            assert(!kept.contains(t));
                            assert(out@.skip(base_len as int)[prev.skip(base_len as int).len() as int] == x);
                        } else {
                            if out@.skip(base_len as int).contains(x) {
                                let w = choose|w: int| 0 <= w < out@.skip(base_len as int).len() && out@.skip(base_len as int)[w] == x;
                                assert(prev.skip(base_len as int)[w] == x);
                                assert(prev.skip(base_len as int).contains(x));
                                let q = choose|q: int| 0 <= q < j && inserted@[q] == x && !kept.contains(x);
                                assert(inserted@[q] == x);
                            }
                            if exists|q: int| 0 <= q < j + 1 && inserted@[q] == x && !kept.contains(x) {
                                let q = choose|q: int| 0 <= q < j + 1 && inserted@[q] == x && !kept.contains(x);
                                assert(q < j);
                                assert(prev.skip(base_len as int).contains(x));
                                let w = choose|w: int| 0 <= w < prev.skip(base_len as int).len() && prev.skip(base_len as int)[w] == x;
                                assert(out@.skip(base_len as int)[w] == x);
                            }
                        }
                    }
                }
            } else {
                proof {
                    assert forall|x: NodeId| out@.skip(base_len as int).contains(x) <==> (exists|q: int| 0 <= q < j + 1 && inserted@[q] == x && !kept.contains(x)) by {
                        if exists|q: int| 0 <= q < j + 1 && inserted@[q] == x && !kept.contains(x) {
                            let q = choose|q: int| 0 <= q < j + 1 && inserted@[q] == x && !kept.contains(x);
                            if q == j {
                                assert(t == NodeId(t.0));
                                assert(kept.contains(NodeId(t.0)));
                            }
                        }
                        if out@.skip(base_len as int).contains(x) {
                            let q = choose|q: int| 0 <= q < j && inserted@[q] == x && !kept.contains(x);
                            assert(inserted@[q] == x);
                        }
                    }
                }
            }
            j = j + 1;
        }
        proof {
            assert forall|t: u64| out@.contains(NodeId(t)) <==> self@.has_edge(node.0, t) by {
                lemma_kept_list(node.0, full, self@.delta.del, t);
                lemma_split_contains(out@, base_len as int, NodeId(t));
                if self@.delta.ins.dom().contains((node.0, t)) {
                    assert(inserted@.contains(NodeId(t)));
                    let q = choose|q: int| 0 <= q < inserted@.len() && inserted@[q] == NodeId(t);
                    assert(inserted@[q] == NodeId(t));
                    assert(!self@.delta.del.contains((node.0, t)));
                }
                if exists|q: int| 0 <= q < inserted@.len() && inserted@[q] == NodeId(t) && !kept.contains(NodeId(t)) {
                    let q = choose|q: int| 0 <= q < inserted@.len() && inserted@[q] == NodeId(t) && !kept.contains(NodeId(t));
                    assert(inserted@.contains(inserted@[q]));
                }
            }
            let tail = out@.skip(base_len as int);
            assert forall|t: NodeId| tail.to_set().contains(t) <==> extra_targets(self@, node.0).contains(t) by {
                if tail.contains(t) {
                    let q = choose|q: int| 0 <= q < inserted@.len() && inserted@[q] == t && !kept.contains(t);
                    assert(inserted@.contains(inserted@[q]));
                }
                if extra_targets(self@, node.0).contains(t) {
                    assert(inserted@.contains(t));
                    let q = choose|q: int| 0 <= q < inserted@.len() && inserted@[q] == t;
                    assert(inserted@[q] == t);
                }
            }
            assert(tail.to_set() =~= extra_targets(self@, node.0));
            tail.unique_seq_to_set();
        }
        out
    }

    /// Returns the out-degree of a node: the number of neighbors that
    /// `neighbors` yields.
    pub fn out_degree(&self, node: NodeId) -> (r: usize)
        requires
            self.wf(),
        ensures
            r == base_kept(self@, node.0).len() + extra_targets(self@, node.0).len(),
    {
        self.neighbors(node).len()
    }

    /// Checks if an edge exists between two nodes.
    pub fn has_edge(&self, from: NodeId, to: NodeId) -> (r: bool)
        requires
            self.wf(),
        ensures
            r == self@.has_edge(from.0, to.0),
    {
        if self.delta.is_deleted(from, to) {
            return false;
        }
        if self.delta.has_insertion(from, to) {
            return true;
        }
        let ns = self.neighbors(from);
        let mut i: usize = 0;
        while i < ns.len()
            invariant
                i <= ns@.len(),
                forall|t: u64| ns@.contains(NodeId(t)) <==> self@.has_edge(from.0, t),
                forall|j: int| 0 <= j < i ==> ns@[j] != to,
            decreases ns@.len() - i,
        {
            if ns[i] == to {
                proof {
                    assert(ns@[i as int] == NodeId(to.0));
                    assert(ns@.contains(NodeId(to.0)));
                }
                return true;
            }
            i = i + 1;
        }
        proof {
            if self@.has_edge(from.0, to.0) {
                assert(ns@.contains(NodeId(to.0)));
                let j = choose|j: int| 0 <= j < ns@.len() && ns@[j] == NodeId(to.0);
            }
        }
        false
    }
}

proof fn lemma_take_step_contains(s: Seq<u32>, i: int)
    requires
        0 <= i < s.len(),
    ensures
        forall|x: u32| s.take(i + 1).contains(x) <==> (s.take(i).contains(x) || s[i] == x),
{
    let a = s.take(i + 1);
    let b = s.take(i);
    assert forall|x: u32| a.contains(x) <==> (b.contains(x) || s[i] == x) by {
        if a.contains(x) {
            let j = choose|j: int| 0 <= j < a.len() && a[j] == x;
            if j < i {
                assert(b[j] == x);
            }
        }
        if b.contains(x) {
            let j = choose|j: int| 0 <= j < b.len() && b[j] == x;
            assert(a[j] == x);
        }
        if s[i] == x {
            assert(a[i] == x);
        }
    }
}

proof fn lemma_split_contains(s: Seq<NodeId>, k: int, x: NodeId)
    requires
        0 <= k <= s.len(),
    ensures
        s.contains(x) <==> (s.subrange(0, k).contains(x) || s.skip(k).contains(x)),
{
    if s.contains(x) {
        let j = choose|j: int| 0 <= j < s.len() && s[j] == x;
        if j < k {
            assert(s.subrange(0, k)[j] == x);
        } else {
            assert(s.skip(k)[j - k] == x);
        }
    }
    if s.subrange(0, k).contains(x) {
        let j = choose|j: int| 0 <= j < k && s.subrange(0, k)[j] == x;
        assert(s[j] == x);
    }
    if s.skip(k).contains(x) {
        let j = choose|j: int| 0 <= j < s.len() - k && s.skip(k)[j] == x;
        assert(s[j + k] == x);
    }
}

/// The base-layer targets of `u` in `l` that carry no tombstone, in order.
pub open spec fn kept_list(u: u64, l: Seq<u32>, del: Set<(u64, u64)>) -> Seq<NodeId>
    decreases l.len(),
{
    if l.len() == 0 {
        Seq::empty()
    } else {
        let rest = kept_list(u, l.drop_last(), del);
        if del.contains((u, l.last() as u64)) {
            rest
        } else {
            rest.push(NodeId(l.last() as u64))
        }
    }
}

/// Targets of pending insertions from `u` that the base layer does not
/// already yield.
pub open spec fn extra_targets(g: GraphView, u: u64) -> Set<NodeId> {
    Set::new(|t: NodeId| g.delta.ins.dom().contains((u, t.0)) && !base_kept(g, u).contains(t))
}

/// `ns` is a listing of the neighbors of `u`: the base-layer targets in
/// storage order (skipping tombstoned edges), then the pending insertion
/// targets not already among them, each once, in some order.
pub open spec fn neighbor_listing(g: GraphView, u: u64, ns: Seq<NodeId>) -> bool {
    let k = base_kept(g, u);
    &&& ns.len() == k.len() + extra_targets(g, u).len()
    &&& ns.subrange(0, k.len() as int) == k
    &&& ns.skip(k.len() as int).no_duplicates()
    &&& ns.skip(k.len() as int).to_set() == extra_targets(g, u)
}

/// The base-layer neighbors of `u` that `neighbors` yields first.
pub open spec fn base_kept(g: GraphView, u: u64) -> Seq<NodeId> {
    if u < g.node_count {
        kept_list(u, g.base[u as int], g.delta.del)
    } else {
        Seq::empty()
    }
}

proof fn lemma_kept_list(u: u64, l: Seq<u32>, del: Set<(u64, u64)>, t: u64)
    ensures
        kept_list(u, l, del).contains(NodeId(t)) <==> (t <= u32::MAX && l.contains(t as u32) && !del.contains(
            (u, t),
        )),
    decreases l.len(),
{
    if l.len() > 0 {
        let p = l.drop_last();
        let last = l.last();
        lemma_kept_list(u, p, del, t);
        let rest = kept_list(u, p, del);
        let k = kept_list(u, l, del);
        let x = t as u32;
        if l.contains(x) {
            let j = choose|j: int| 0 <= j < l.len() && l[j] == x;
            if j < l.len() - 1 {
                assert(p[j] == x);
            }
        }
        if p.contains(x) {
            let j = choose|j: int| 0 <= j < p.len() && p[j] == x;
            assert(l[j] == x);
        }
        if last == x {
            assert(l[l.len() - 1] == x);
        }
        if t <= u32::MAX && x == last {
            assert(t == last as u64);
        }
        if !del.contains((u, last as u64)) {
            assert(k == rest.push(NodeId(last as u64)));
            let y = NodeId(t);
            if k.contains(y) {
                let j = choose|j: int| 0 <= j < k.len() && k[j] == y;
                if j < rest.len() {
                    assert(rest[j] == y);
                } else {
                    assert(t == last as u64);
                }
            }
            if rest.contains(y) {
                let j = choose|j: int| 0 <= j < rest.len() && rest[j] == y;
                assert(k[j] == y);
            }
            if t == last as u64 {
                assert(k[rest.len() as int] == y);
            }
        }
    }
}

/// Shard positions and nodes correspond one to one: every node of the
/// graph sits at some position (shard and offset), a position holds a node
/// of the graph, and no two positions hold the same node. So converting a
/// node to its position and back gives the node again, and converting a
/// position to its node and back gives the position again.
pub proof fn lemma_shard_positions(g: CsrGraph, node: u64, s1: int, o1: int, s2: int, o2: int)
    requires
        g.wf(),
    ensures
        node < g@.node_count ==> exists|s: int, o: int| #[trigger] g.shard_node(s, o) == Some(node),
        g.shard_node(s1, o1) matches Some(x) ==> x < g@.node_count,
        g.shard_node(s1, o1) == Some(node) && g.shard_node(s2, o2) == Some(node) ==> s1 == s2 && o1 == o2,
{
    let sh = g.shards@;
    if node < g@.node_count {
        lemma_shards_cover(sh, node as nat);
        let k = choose|k: int| 0 <= k < sh.len() && (#[trigger] sh[k]).start() <= node < sh[k].end();
        let o = node - sh[k].start();
        assert(g.shard_node(k, o) == Some(node));
    }
    if g.shard_node(s1, o1) is Some {
        let last = sh.len() - 1;
        if s1 < last {
            lemma_contiguous_order(sh, s1, last);
            assert(sh[last].start() < sh[last].end());
        }
    }
    if g.shard_node(s1, o1) == Some(node) && g.shard_node(s2, o2) == Some(node) {
        if s1 < s2 {
            lemma_contiguous_order(sh, s1, s2);
        } else if s2 < s1 {
            lemma_contiguous_order(sh, s2, s1);
        }
    }
}

/// Every shard of a partition of `start..n` holds at least one node, so
/// there are at most `n - start` of them.
proof fn lemma_partition_len(rows: Seq<u32>, n: int, start: int, target: int, shard_size: nat, bytes_per_edge: nat)
    ensures
        partition_from(rows, n, start, target, shard_size, bytes_per_edge).len() <= if n > start {
            n - start
        } else {
            0
        },
    decreases n - start,
{
    if start < n {
        let e0 = if start + target <= n {
            start + target
        } else {
            n
        };
        let e = shard_end_from(rows, start, e0, shard_size, bytes_per_edge);
        if !(e <= start || e > n) {
            lemma_partition_len(rows, n, e, target, shard_size, bytes_per_edge);
        }
    }
}

/// A build succeeds for every edge list whose endpoints all lie below
/// `u32::MAX` and that holds at most `u32::MAX` edges (with a weight for
/// every edge, when weighted).
pub proof fn lemma_build_succeeds(
    edges: Seq<(u64, u64)>,
    weights: Seq<u32>,
    config: CsrBuildConfig,
    r: Result<CsrGraph, GraphError>,
)
    requires
        build_result(edges, weights, config, r),
        max_endpoint(edges) < u32::MAX,
        edges.len() <= u32::MAX,
        config.include_weights ==> weights.len() >= edges.len(),
    ensures
        r is Ok,
{
    if edges.len() > 0 {
        assert forall|k: int| 0 <= k < edges.len() implies valid_edge(#[trigger] edges[k]) by {
            lemma_sources_below_max(edges, k);
        }
        assert(edges.take(edges.len() as int) =~= edges);
        let n = max_endpoint(edges) + 1;
        let bpe: nat = if config.include_weights {
            8
        } else {
            4
        };
        lemma_partition_len(
            row_offsets(adjacency_of(edges, n)),
            n as int,
            0,
            target_nodes_per_shard(n, edges.len(), bpe, config.shard_size as nat) as int,
            config.shard_size as nat,
            bpe,
        );
        if !all_valid(edges) {
            assert(false);
        }
    }
}

/// The number of edges of `edges` whose source is `u`.
pub open spec fn source_count(edges: Seq<(u64, u64)>, u: u64) -> nat {
    edges.filter(|p: (u64, u64)| p.0 == u).len()
}

proof fn lemma_out_of_count(edges: Seq<(u64, u64)>, u: u64)
    ensures
        out_of(edges, u as int).len() == source_count(edges, u),
    decreases edges.len(),
{
    reveal(Seq::filter);
    if edges.len() > 0 {
        lemma_out_of_count(edges.drop_last(), u);
    }
}

proof fn lemma_out_of_bounded_source(edges: Seq<(u64, u64)>, u: int)
    requires
        out_of(edges, u).len() > 0,
    ensures
        u <= max_endpoint(edges),
    decreases edges.len(),
{
    if edges.len() > 0 {
        let p = edges.drop_last();
        if out_of(p, u).len() > 0 {
            lemma_out_of_bounded_source(p, u);
        }
    }
}

proof fn lemma_kept_list_len(u: u64, l: Seq<u32>)
    ensures
        kept_list(u, l, Set::<(u64, u64)>::empty()).len() == l.len(),
    decreases l.len(),
{
    if l.len() > 0 {
        lemma_kept_list_len(u, l.drop_last());
    }
}

/// The graph a successful build gives has a node for every ID up to the
/// largest endpoint (none for no edges), and the out-degree of each node
/// (what `out_degree` answers) is the number of edges it is the source of.
pub proof fn lemma_build_degrees(
    edges: Seq<(u64, u64)>,
    weights: Seq<u32>,
    config: CsrBuildConfig,
    r: Result<CsrGraph, GraphError>,
)
    requires
        build_result(edges, weights, config, r),
        r is Ok,
        config.include_weights ==> weights.len() >= edges.len(),
    ensures
        r->Ok_0@.node_count == if edges.len() == 0 {
            0
        } else {
            max_endpoint(edges) + 1
        },
        forall|v: u64|
            #![trigger base_kept(r->Ok_0@, v)]
            base_kept(r->Ok_0@, v).len() + extra_targets(r->Ok_0@, v).len() == source_count(edges, v),
{
    let g = r->Ok_0@;
    if edges.len() > 0 {
        if !all_valid(edges) {
            crate::compaction::lemma_first_invalid(edges);
            let i = choose|i: int| first_invalid_at(edges, i);
            assert(r is Err);
        }
        assert(edges.take(edges.len() as int) =~= edges);
    }
    assert forall|v: u64| #![trigger base_kept(g, v)] base_kept(g, v).len() + extra_targets(g, v).len() == source_count(
        edges,
        v,
    ) by {
        assert(extra_targets(g, v) =~= Set::<NodeId>::empty());
        lemma_out_of_count(edges, v);
        if v < g.node_count {
            assert(g.base[v as int] == out_of(edges, v as int));
            lemma_kept_list_len(v, g.base[v as int]);
        } else {
            if out_of(edges, v as int).len() > 0 {
                lemma_out_of_bounded_source(edges, v as int);
                assert(false);
            }
        }
    }
}

} // verus!
