//! Breadth-first search.
//!
//! When the delta layer is empty, BFS reads zero-copy base-layer neighbor
//! slices and batch-filters them against a dense visited bitset through a
//! `SimdBackend`. With pending delta mutations it follows the merged
//! neighbor lists of `CsrGraph::neighbors`; visited tracking still uses the
//! dense bitset, with a hash-set overflow for delta nodes beyond the base
//! ID range.
//!
//! The queue is the list of admitted nodes itself, read front to back.

use vstd::prelude::*;

use crate::bitset::{bit_at, lemma_set_bit, lemma_zero_bit};
use crate::csr::{base_kept, extra_targets, kept_list, lemma_sat_sum, neighbor_listing, sat, CsrGraph, GraphView};
use crate::simd::{is_unvisited, select_backend, unvisited, SimdBackend};
use crate::traversal::{at_distance, lemma_distance_le, reached, with_depth};
use crate::types::NodeId;

verus! {

broadcast use vstd::std_specs::hash::group_hash_axioms;

/// Result of a BFS traversal.
#[derive(Debug, Clone)]
pub struct BfsResult {
    /// Visited nodes in BFS order.
    pub visited: Vec<NodeId>,
    /// Depth of each visited node.
    pub depths: Vec<u32>,
    /// Nodes at each level (level -> nodes).
    pub levels: Vec<Vec<NodeId>>,
    /// Maximum depth reached.
    pub max_depth_reached: u32,
    /// Number of edges examined.
    pub edges_examined: usize,
}

/// Position of the first occurrence of `n` in `s`, if any.
pub open spec fn first_index(s: Seq<NodeId>, n: NodeId) -> Option<int>
    decreases s.len(),
{
    if s.len() == 0 {
        None
    } else {
        match first_index(s.drop_last(), n) {
            Some(i) => Some(i),
            None => if s.last() == n {
                Some(s.len() - 1)
            } else {
                None
            },
        }
    }
}

proof fn lemma_first_index(s: Seq<NodeId>, n: NodeId)
    ensures
        first_index(s, n) is Some <==> s.contains(n),
        first_index(s, n) matches Some(i) ==> 0 <= i < s.len() && s[i] == n && forall|j: int|
            0 <= j < i ==> s[j] != n,
    decreases s.len(),
{
    if s.len() > 0 {
        let p = s.drop_last();
        lemma_first_index(p, n);
        if s.contains(n) && !p.contains(n) {
            let j = choose|j: int| 0 <= j < s.len() && s[j] == n;
            if j < p.len() {
                assert(p[j] == n);
            }
        }
        if p.contains(n) {
            let j = choose|j: int| 0 <= j < p.len() && p[j] == n;
            assert(s[j] == n);
        }
        match first_index(p, n) {
            Some(i) => {
                assert forall|j: int| 0 <= j < i implies s[j] != n by {
                    assert(s[j] == p[j]);
                }
                assert(s[i] == p[i]);
            },
            None => {
                if s.last() == n {
                    assert forall|j: int| 0 <= j < s.len() - 1 implies s[j] != n by {
                        assert(s[j] == p[j]);
                        if p[j] == n {
                            assert(p.contains(n));
                        }
                    }
                }
            },
        }
    }
}

impl BfsResult {
    /// An empty result.
    pub fn empty() -> (r: Self)
        ensures
            r.visited@.len() == 0,
            r.depths@.len() == 0,
            r.levels@.len() == 0,
            r.max_depth_reached == 0,
            r.edges_examined == 0,
    {
        BfsResult {
            visited: Vec::new(),
            depths: Vec::new(),
            levels: Vec::new(),
            max_depth_reached: 0,
            edges_examined: 0,
        }
    }

    /// Returns the number of visited nodes.
    pub fn node_count(&self) -> (r: usize)
        ensures
            r == self.visited@.len(),
    {
        self.visited.len()
    }

    /// Returns true if the given node was visited.
    pub fn contains(&self, node: NodeId) -> (r: bool)
        ensures
            r == self.visited@.contains(node),
    {
        let mut i: usize = 0;
        while i < self.visited.len()
            invariant
                i <= self.visited@.len(),
                forall|j: int| 0 <= j < i ==> self.visited@[j] != node,
            decreases self.visited@.len() - i,
        {
            if self.visited[i] == node {
                proof {
                    assert(self.visited@[i as int] == node);
                }
                return true;
            }
            i = i + 1;
        }
        false
    }

    /// Returns the depth of a node, if visited: the depth at its first
    /// position (which must have one).
    pub fn depth_of(&self, node: NodeId) -> (r: Option<u32>)
        requires
            first_index(self.visited@, node) matches Some(i) ==> i < self.depths@.len(),
        ensures
            r == match first_index(self.visited@, node) {
                Some(i) => Some(self.depths@[i]),
                None => None,
            },
    {
        proof {
            lemma_first_index(self.visited@, node);
        }
        let mut i: usize = 0;
        while i < self.visited.len()
            invariant
                i <= self.visited@.len(),
                first_index(self.visited@, node) matches Some(k) ==> k < self.depths@.len(),
                forall|j: int| 0 <= j < i ==> self.visited@[j] != node,
                first_index(self.visited@, node) is Some <==> self.visited@.contains(node),
                first_index(self.visited@, node) matches Some(k) ==> 0 <= k < self.visited@.len()
                    && self.visited@[k] == node && forall|j: int| 0 <= j < k ==> self.visited@[j] != node,
            decreases self.visited@.len() - i,
        {
            if self.visited[i] == node {
                proof {
                    assert(self.visited@.contains(node)) by {
                        assert(self.visited@[i as int] == node);
                    }
                    let k = first_index(self.visited@, node)->0;
                    if k < i {
                        assert(self.visited@[k] != node);
                    }
                    if k > i {
                        assert(self.visited@[i as int] != node);
                    }
                }
                return Some(self.depths[i]);
            }
            i = i + 1;
        }
        proof {
            if self.visited@.contains(node) {
                let j = choose|j: int| 0 <= j < self.visited@.len() && self.visited@[j] == node;
            }
        }
        None
    }
}

// ---------------------------------------------------------------------
// Visited tracking
// ---------------------------------------------------------------------

/// Dense bitset over the base node range, with a hash-set overflow for
/// node IDs beyond it.
struct Visited {
    words: Vec<u64>,
    capacity: u64,
    overflow: std::collections::HashSet<u64>,
}

impl View for Visited {
    type V = Set<u64>;

    closed spec fn view(&self) -> Set<u64> {
        Set::new(
            |i: u64| (i < self.capacity && bit_at(self.words@, i as int)) || self.overflow@.contains(i),
        )
    }
}

impl Visited {
    spec fn wf(&self) -> bool {
        &&& self.words@.len() * 64 >= self.capacity
        &&& forall|i: u64| #[trigger] self.overflow@.contains(i) ==> i >= self.capacity
    }

    fn new(node_count: usize) -> (r: Self)
        ensures
            r.wf(),
            r.capacity == node_count,
            r@ == Set::<u64>::empty(),
    {
        let num_words = node_count / 64 + if node_count % 64 == 0 {
            0
        } else {
            1
        };
        let r = Visited {
            words: vec![0u64; num_words],
            capacity: node_count as u64,
            overflow: std::collections::HashSet::new(),
        };
        proof {
            assert forall|i: u64| !r@.contains(i) by {
                if i < r.capacity {
                    lemma_zero_bit(((i as int) % 64) as u64);
                }
            }
            assert(r@ =~= Set::<u64>::empty());
        }
        r
    }

    /// Marks `id` visited; returns `true` if it was previously unvisited.
    fn test_and_set(&mut self, id: u64) -> (r: bool)
        requires
            old(self).wf(),
        ensures
            final(self).wf(),
            final(self).capacity == old(self).capacity,
            final(self).words@.len() == old(self).words@.len(),
            r == !old(self)@.contains(id),
            final(self)@ == old(self)@.insert(id),
    {
        if id < self.capacity {
            let word = (id / 64) as usize;
            let bit = id % 64;
            let mask = 1u64 << bit;
            let ghost before = self.words@;
            proof {
                crate::bitset::lemma_mask_bit(before[word as int], bit);
            }
            let was_unset = self.words[word] & mask == 0;
            let w = self.words[word] | mask;
            self.words.set(word, w);
            proof {
                assert forall|i: u64| #[trigger] self@.contains(i) == old(self)@.insert(id).contains(i) by {
                    lemma_set_bit(before, id as int, i as int);
                }
                assert(self@ =~= old(self)@.insert(id));
            }
            was_unset
        } else {
            let fresh = self.overflow.insert(id);
            proof {
                assert(self@ =~= old(self)@.insert(id));
            }
            fresh
        }
    }

    /// The dense part: `n` below the capacity is unvisited exactly when
    /// its bit is clear in `words`, the tracker's words at some earlier
    /// point whose set was then `tracked`.
    proof fn lemma_dense_words(&self, n: u32, words: Seq<u64>)
        requires
            self.wf(),
            (n as int) < self.capacity,
            words == self.words@,
        ensures
            is_unvisited(n, words) <==> !self@.contains(n as u64),
    {
    }
}

// ---------------------------------------------------------------------
// The model of a run
// ---------------------------------------------------------------------

/// The valid start nodes (inside the base layer), each once, in order.
pub open spec fn distinct_valid(g: GraphView, starts: Seq<NodeId>) -> Seq<u64>
    decreases starts.len(),
{
    if starts.len() == 0 {
        Seq::empty()
    } else {
        let rest = distinct_valid(g, starts.drop_last());
        let s = starts.last().0;
        if s < g.node_count && !rest.contains(s) {
            rest.push(s)
        } else {
            rest
        }
    }
}

/// The start nodes a run admits: the first `cap` distinct valid ones.
pub open spec fn admitted_starts(g: GraphView, starts: Seq<NodeId>, cap: nat) -> Seq<u64> {
    let d = distinct_valid(g, starts);
    if d.len() <= cap {
        d
    } else {
        d.take(cap as int)
    }
}

/// The node IDs of the admitted entries.
pub open spec fn ids(order: Seq<(NodeId, u32)>) -> Seq<u64> {
    order.map_values(|p: (NodeId, u32)| p.0.0)
}

/// The admitted entries so far are distinct, carry their exact distance
/// from the sources (at most `max_depth`), in non-decreasing order.
spec fn order_ok(g: GraphView, s: Set<u64>, order: Seq<(NodeId, u32)>, max_depth: u32) -> bool {
    &&& ids(order).no_duplicates()
    &&& forall|i: int|
        0 <= i < order.len() ==> (#[trigger] order[i]).1 <= max_depth && at_distance(
            g,
            s,
            order[i].0.0,
            order[i].1 as nat,
        )
    &&& forall|i: int, j: int| 0 <= i <= j < order.len() ==> (#[trigger] order[i]).1 <= (#[trigger] order[j]).1
}

/// Every entry before `head` below `max_depth` has all its successors
/// admitted.
spec fn closed_upto(g: GraphView, order: Seq<(NodeId, u32)>, head: int, max_depth: u32) -> bool {
    forall|i: int, v: u64|
        0 <= i < head && (#[trigger] order[i]).1 < max_depth && #[trigger] g.has_edge(order[i].0.0, v)
            ==> ids(order).contains(v)
}

/// Once the cap is reached: the entries before `stop` are closed, and the
/// entries from `stop` on are at most one level above the last one.
#[verifier::opaque]
spec fn capped_closed(g: GraphView, order: Seq<(NodeId, u32)>, stop: int, max_depth: u32) -> bool {
    &&& 0 <= stop <= order.len()
    &&& closed_upto(g, order, stop, max_depth)
    &&& forall|i: int| stop <= i < order.len() ==> (#[trigger] order[i]).1 + 1 >= order[order.len() - 1].1
}

proof fn lemma_ids_push(order: Seq<(NodeId, u32)>, e: (NodeId, u32), v: u64)
    ensures
        ids(order.push(e)).contains(v) <==> (ids(order).contains(v) || e.0.0 == v),
        ids(order.push(e)) == ids(order).push(e.0.0),
{
    assert(ids(order.push(e)) =~= ids(order).push(e.0.0));
    let a = ids(order);
    if a.push(e.0.0).contains(v) {
        let j = choose|j: int| 0 <= j < a.push(e.0.0).len() && a.push(e.0.0)[j] == v;
        if j < a.len() {
            assert(a[j] == v);
        }
    }
    if a.contains(v) {
        let j = choose|j: int| 0 <= j < a.len() && a[j] == v;
        assert(a.push(e.0.0)[j] == v);
    }
    if e.0.0 == v {
        assert(a.push(e.0.0)[a.len() as int] == v);
    }
}

/// Everything reachable within `bound` steps has been admitted, once every
/// entry of depth below `bound` has been expanded.
proof fn lemma_complete(
    g: GraphView,
    s: Set<u64>,
    order: Seq<(NodeId, u32)>,
    head: int,
    bound: nat,
    max_depth: u32,
    k: nat,
    v: u64,
)
    requires
        0 <= head <= order.len(),
        order_ok(g, s, order, max_depth),
        forall|x: u64| s.contains(x) ==> ids(order).contains(x),
        forall|i: int| head <= i < order.len() ==> (#[trigger] order[i]).1 >= bound,
        bound <= max_depth,
        closed_upto(g, order, head, max_depth),
        k <= bound,
        reached(g, s, k, v),
    ensures
        ids(order).contains(v),
    decreases k,
{
    if k > 0 {
        if reached(g, s, (k - 1) as nat, v) {
            lemma_complete(g, s, order, head, bound, max_depth, (k - 1) as nat, v);
        } else {
            let u = choose|u: u64| reached(g, s, (k - 1) as nat, u) && #[trigger] g.has_edge(u, v);
            lemma_complete(g, s, order, head, bound, max_depth, (k - 1) as nat, u);
            let i = choose|i: int| 0 <= i < ids(order).len() && ids(order)[i] == u;
            assert(order[i].0.0 == u);
            lemma_distance_le(g, s, u, order[i].1 as nat, (k - 1) as nat);
            assert(order[i].1 < bound);
            assert(i < head);
            assert(g.has_edge(order[i].0.0, v));
        }
    }
}

proof fn lemma_distinct_valid_prefix(g: GraphView, starts: Seq<NodeId>, i: int)
    requires
        0 <= i <= starts.len(),
    ensures
        distinct_valid(g, starts.take(i)).len() <= distinct_valid(g, starts).len(),
        distinct_valid(g, starts).take(distinct_valid(g, starts.take(i)).len() as int) == distinct_valid(
            g,
            starts.take(i),
        ),
    decreases starts.len(),
{
    if i == starts.len() {
        assert(starts.take(i) =~= starts);
        assert(distinct_valid(g, starts).take(distinct_valid(g, starts).len() as int) =~= distinct_valid(
            g,
            starts,
        ));
    } else {
        let p = starts.drop_last();
        assert(starts.take(i) =~= p.take(i));
        lemma_distinct_valid_prefix(g, p, i);
        let a = distinct_valid(g, p.take(i));
        let b = distinct_valid(g, p);
        let c = distinct_valid(g, starts);
        assert(c.take(a.len() as int) =~= b.take(a.len() as int));
    }
}

pub(crate) proof fn lemma_reached_empty(g: GraphView, k: nat, v: u64)
    ensures
        !reached(g, Set::<u64>::empty(), k, v),
    decreases k,
{
    let e = Set::<u64>::empty();
    if k == 0 {
        assert(!e.contains(v));
    } else {
        lemma_reached_empty(g, (k - 1) as nat, v);
        if reached(g, e, k, v) {
            let u = choose|u: u64| reached(g, e, (k - 1) as nat, u) && #[trigger] g.has_edge(u, v);
            lemma_reached_empty(g, (k - 1) as nat, u);
        }
    }
}

/// Admits the start nodes: the valid ones, each once, until `cap` are
/// admitted; each at depth zero.
fn admit_starts(graph: &CsrGraph, starts: &[NodeId], cap: usize, tracker: &mut Visited) -> (order: Vec<
    (NodeId, u32),
>)
    requires
        graph.wf(),
        old(tracker).wf(),
        old(tracker).capacity == graph@.node_count,
        old(tracker)@ == Set::<u64>::empty(),
    ensures
        final(tracker).wf(),
        final(tracker).capacity == old(tracker).capacity,
        final(tracker).words@.len() == old(tracker).words@.len(),
        ids(order@) == admitted_starts(graph@, starts@, cap as nat),
        forall|i: int| 0 <= i < order@.len() ==> (#[trigger] order@[i]).1 == 0,
        forall|v: u64| final(tracker)@.contains(v) <==> ids(order@).contains(v),
        order@.len() <= cap,
{
    let mut order: Vec<(NodeId, u32)> = Vec::new();
    let mut i: usize = 0;
    let ghost g = graph@;
    proof {
        assert(ids(order@) =~= distinct_valid(g, starts@.take(0)));
    }
    while i < starts.len()
        invariant_except_break
            ids(order@) == distinct_valid(g, starts@.take(i as int)),
        invariant
            graph.wf(),
            g == graph@,
            i <= starts@.len(),
            tracker.wf(),
            tracker.capacity == old(tracker).capacity,
            tracker.words@.len() == old(tracker).words@.len(),
            tracker.capacity == g.node_count,
            order@.len() <= cap,
            forall|j: int| 0 <= j < order@.len() ==> (#[trigger] order@[j]).1 == 0,
            forall|v: u64| tracker@.contains(v) <==> ids(order@).contains(v),
            exists|m: int| 0 <= m <= starts@.len() && ids(order@) == distinct_valid(g, starts@.take(m)),
        ensures
            order@.len() >= cap || ids(order@) == distinct_valid(g, starts@.take(starts@.len() as int)),
            exists|m: int| 0 <= m <= starts@.len() && ids(order@) == distinct_valid(g, starts@.take(m)),
        decreases starts@.len() - i,
    {
        if order.len() >= cap {
            break;
        }
        let start = starts[i];
        let ghost before = order@;
        proof {
            assert(starts@.take(i + 1).drop_last() =~= starts@.take(i as int));
            assert(starts@.take(i + 1).last() == start);
        }
        if graph.contains(start) && tracker.test_and_set(start.0) {
            order.push((start, 0));
            proof {
                lemma_ids_push(before, (start, 0), start.0);
                assert forall|v: u64| tracker@.contains(v) <==> ids(order@).contains(v) by {
                    lemma_ids_push(before, (start, 0), v);
                }
            }
        }
        proof {
            assert(ids(order@) == distinct_valid(g, starts@.take(i + 1)));
        }
        i = i + 1;
    }
    proof {
        let m = choose|m: int| 0 <= m <= starts@.len() && ids(order@) == distinct_valid(g, starts@.take(m));
        lemma_distinct_valid_prefix(g, starts@, m);
        assert(starts@.take(starts@.len() as int) =~= starts@);
        if order@.len() >= cap {
            assert(ids(order@).len() == cap);
        }
    }
    order
}

// ---------------------------------------------------------------------
// Expanding one node
// ---------------------------------------------------------------------

/// Number of neighbors that `CsrGraph::neighbors` yields for `u`.
pub open spec fn degree(g: GraphView, u: u64) -> nat {
    base_kept(g, u).len() + extra_targets(g, u).len()
}

proof fn lemma_kept_list_all(u: u64, l: Seq<u32>)
    ensures
        kept_list(u, l, Set::<(u64, u64)>::empty()).len() == l.len(),
    decreases l.len(),
{
    if l.len() > 0 {
        lemma_kept_list_all(u, l.drop_last());
        assert(!Set::<(u64, u64)>::empty().contains((u, l.last() as u64)));
    }
}

/// With nothing pending, a node yields its base-layer list.
proof fn lemma_degree_base_only(g: GraphView, u: u64)
    requires
        g.wf(),
        g.delta_empty(),
    ensures
        degree(g, u) == if u < g.node_count {
            g.base[u as int].len()
        } else {
            0
        },
{
    if u < g.node_count {
        lemma_kept_list_all(u, g.base[u as int]);
    }
    assert(extra_targets(g, u) =~= Set::<NodeId>::empty()) by {
        assert forall|t: NodeId| !extra_targets(g, u).contains(t) by {
            assert(!Set::<(u64, u64)>::empty().contains((u, t.0)));
        }
    }
}

/// The neighbours of `v` in storage order; none for a node outside the
/// graph.
pub open spec fn adjacency(g: GraphView, v: u64) -> Seq<u32> {
    if v < g.node_count {
        g.base[v as int]
    } else {
        Seq::empty()
    }
}

/// Offering the targets `ns`, in order, at depth `d` to a queue that holds
/// at most `cap` entries: each target not yet queued joins at the back
/// while there is room.
pub open spec fn offer_all(q: Seq<(NodeId, u32)>, ns: Seq<u32>, d: u32, cap: nat) -> Seq<(NodeId, u32)>
    decreases ns.len(),
{
    if ns.len() == 0 {
        q
    } else {
        let q1 = offer_all(q, ns.drop_last(), d, cap);
        let w = ns.last() as u64;
        if q1.len() < cap && !ids(q1).contains(w) {
            q1.push((NodeId(w), d))
        } else {
            q1
        }
    }
}

/// The FIFO queue of a breadth-first search of the base layer of `g` after
/// its first `h` entries were taken: it starts with the admitted start
/// nodes at depth zero, and each entry taken below `max_depth`, while the
/// queue holds fewer than `cap` entries, offers its neighbours in storage
/// order at the next depth.
pub open spec fn bfs_queue(g: GraphView, starts: Seq<NodeId>, max_depth: u32, cap: nat, h: nat) -> Seq<
    (NodeId, u32),
>
    decreases h,
{
    if h == 0 {
        let s0 = admitted_starts(g, starts, cap);
        Seq::new(s0.len(), |i: int| (NodeId(s0[i]), 0u32))
    } else {
        let q = bfs_queue(g, starts, max_depth, cap, (h - 1) as nat);
        let k = h - 1;
        if k < q.len() && q[k].1 < max_depth && q.len() < cap {
            offer_all(q, adjacency(g, q[k].0.0), (q[k].1 + 1) as u32, cap)
        } else {
            q
        }
    }
}

/// `r` visits its nodes in the order in which the FIFO queue of
/// `bfs_queue` discovers them, with their depths, and the queue stops
/// growing once they are all taken.
pub open spec fn in_discovery_order(g: GraphView, starts: Seq<NodeId>, max_depth: u32, cap: nat, r: BfsResult) -> bool {
    let n = r.visited@.len();
    let q = bfs_queue(g, starts, max_depth, cap, n);
    &&& q.len() == n
    &&& r.depths@.len() == n
    &&& forall|i: int| 0 <= i < n ==> r.visited@[i] == (#[trigger] q[i]).0 && r.depths@[i] == q[i].1
}

proof fn lemma_offer_extends(q: Seq<(NodeId, u32)>, ns: Seq<u32>, d: u32, cap: nat)
    ensures
        offer_all(q, ns, d, cap).len() >= q.len(),
        forall|i: int| 0 <= i < q.len() ==> #[trigger] offer_all(q, ns, d, cap)[i] == q[i],
    decreases ns.len(),
{
    if ns.len() > 0 {
        lemma_offer_extends(q, ns.drop_last(), d, cap);
    }
}

proof fn lemma_offer_full(q: Seq<(NodeId, u32)>, ns: Seq<u32>, d: u32, cap: nat)
    requires
        q.len() >= cap,
    ensures
        offer_all(q, ns, d, cap) == q,
    decreases ns.len(),
{
    if ns.len() > 0 {
        lemma_offer_full(q, ns.drop_last(), d, cap);
    }
}

proof fn lemma_offer_split(q: Seq<(NodeId, u32)>, a: Seq<u32>, b: Seq<u32>, d: u32, cap: nat)
    ensures
        offer_all(q, a + b, d, cap) == offer_all(offer_all(q, a, d, cap), b, d, cap),
    decreases b.len(),
{
    if b.len() == 0 {
        assert(a + b =~= a);
    } else {
        assert((a + b).drop_last() =~= a + b.drop_last());
        assert((a + b).last() == b.last());
        lemma_offer_split(q, a, b.drop_last(), d, cap);
    }
}

/// Skipping targets that were already queued changes nothing.
proof fn lemma_offer_unvisited(q: Seq<(NodeId, u32)>, ns: Seq<u32>, words: Seq<u64>, d: u32, cap: nat, n: nat)
    requires
        forall|i: int| 0 <= i < ns.len() ==> (#[trigger] ns[i] as int) < n,
        forall|x: u32| (x as int) < n ==> (crate::simd::is_unvisited(x, words) <==> !ids(q).contains(x as u64)),
    ensures
        offer_all(q, ns, d, cap) == offer_all(q, unvisited(ns, words), d, cap),
    decreases ns.len(),
{
    if ns.len() > 0 {
        let p = ns.drop_last();
        let x = ns.last();
        assert(forall|i: int| 0 <= i < p.len() ==> p[i] == ns[i]);
        lemma_offer_unvisited(q, p, words, d, cap, n);
        assert(x == ns[ns.len() - 1]);
        if !crate::simd::is_unvisited(x, words) {
            let q1 = offer_all(q, p, d, cap);
            lemma_offer_extends(q, p, d, cap);
            assert(ids(q).contains(x as u64));
            let j = choose|j: int| 0 <= j < ids(q).len() && ids(q)[j] == x as u64;
            assert(q1[j] == q[j]);
            assert(ids(q1)[j] == x as u64);
            assert(ids(q1).contains(x as u64));
        } else {
            let u = unvisited(ns, words);
            assert(u.drop_last() =~= unvisited(p, words));
            assert(u.last() == x);
        }
    }
}

/// Offering target `w` at depth `d` to a queue of at most `cap` entries:
/// it joins at the back unless already queued or the queue is full.
pub open spec fn offer_one(q: Seq<(NodeId, u32)>, w: NodeId, d: u32, cap: nat) -> Seq<(NodeId, u32)> {
    if q.len() < cap && !ids(q).contains(w.0) {
        q.push((w, d))
    } else {
        q
    }
}

/// Offering the targets `ns`, in order, at depth `d`.
pub open spec fn offer_ids(q: Seq<(NodeId, u32)>, ns: Seq<NodeId>, d: u32, cap: nat) -> Seq<(NodeId, u32)>
    decreases ns.len(),
{
    if ns.len() == 0 {
        q
    } else {
        offer_one(offer_ids(q, ns.drop_last(), d, cap), ns.last(), d, cap)
    }
}

/// Edges examined by the merged-neighbor expansion of a node whose
/// neighbors are listed by `ns`: one per target looked at, stopping at the
/// first target met with the queue already full.
pub open spec fn slow_count(q: Seq<(NodeId, u32)>, ns: Seq<NodeId>, d: u32, cap: nat) -> nat
    decreases ns.len(),
{
    if ns.len() == 0 {
        0
    } else if q.len() >= cap {
        1
    } else {
        1 + slow_count(offer_one(q, ns[0], d, cap), ns.drop_first(), d, cap)
    }
}

/// Whether the entry taken at position `k` of queue `q` is expanded: it is
/// queued, below `max_depth`, and the queue is not full.
pub open spec fn expands(q: Seq<(NodeId, u32)>, k: int, max_depth: u32, cap: nat) -> bool {
    0 <= k < q.len() && q[k].1 < max_depth && q.len() < cap
}

/// The FIFO queue after the first `h` entries were taken, when the entry
/// taken at position `k` offers the targets `lists[k]`.
#[verifier::opaque]
pub open spec fn queue_by(
    g: GraphView,
    starts: Seq<NodeId>,
    max_depth: u32,
    cap: nat,
    lists: Seq<Seq<NodeId>>,
    h: nat,
) -> Seq<(NodeId, u32)>
    decreases h,
{
    if h == 0 {
        let s0 = admitted_starts(g, starts, cap);
        Seq::new(s0.len(), |i: int| (NodeId(s0[i]), 0u32))
    } else {
        let q = queue_by(g, starts, max_depth, cap, lists, (h - 1) as nat);
        let k = h - 1;
        if expands(q, k, max_depth, cap) {
            offer_ids(q, lists[k], (q[k].1 + 1) as u32, cap)
        } else {
            q
        }
    }
}

/// The edges examined by expanding entry `k` of `q` through the targets
/// `ns`: all of them on a graph with nothing pending (the base slice is
/// scanned whole), else up to the first one met with the queue full.
pub open spec fn step_examined(g: GraphView, q: Seq<(NodeId, u32)>, k: int, ns: Seq<NodeId>, cap: nat) -> nat {
    if g.delta_empty() {
        ns.len()
    } else {
        slow_count(q, ns, (q[k].1 + 1) as u32, cap)
    }
}

/// The edges examined while taking the first `h` entries.
#[verifier::opaque]
pub open spec fn examined_by(
    g: GraphView,
    starts: Seq<NodeId>,
    max_depth: u32,
    cap: nat,
    lists: Seq<Seq<NodeId>>,
    h: nat,
) -> nat
    decreases h,
{
    if h == 0 {
        0
    } else {
        let q = queue_by(g, starts, max_depth, cap, lists, (h - 1) as nat);
        let k = h - 1;
        examined_by(g, starts, max_depth, cap, lists, (h - 1) as nat) + if expands(q, k, max_depth, cap) {
            step_examined(g, q, k, lists[k], cap)
        } else {
            0
        }
    }
}

/// Each of the first `n` entries taken that is expanded offers a listing
/// of its node's neighbors.
#[verifier::opaque]
pub open spec fn listings_ok(
    g: GraphView,
    starts: Seq<NodeId>,
    max_depth: u32,
    cap: nat,
    lists: Seq<Seq<NodeId>>,
    n: nat,
) -> bool {
    forall|k: int|
        0 <= k < n && expands(#[trigger] queue_by(g, starts, max_depth, cap, lists, k as nat), k, max_depth, cap)
            ==> neighbor_listing(g, queue_by(g, starts, max_depth, cap, lists, k as nat)[k].0.0, lists[k])
}

proof fn lemma_queue_by_prefix(
    g: GraphView,
    starts: Seq<NodeId>,
    max_depth: u32,
    cap: nat,
    a: Seq<Seq<NodeId>>,
    b: Seq<Seq<NodeId>>,
    h: nat,
)
    requires
        forall|k: int| 0 <= k < h ==> a[k] == b[k],
    ensures
        queue_by(g, starts, max_depth, cap, a, h) == queue_by(g, starts, max_depth, cap, b, h),
        examined_by(g, starts, max_depth, cap, a, h) == examined_by(g, starts, max_depth, cap, b, h),
    decreases h,
{
    reveal(queue_by);
    reveal(examined_by);
    if h > 0 {
        lemma_queue_by_prefix(g, starts, max_depth, cap, a, b, (h - 1) as nat);
        assert(a[h - 1] == b[h - 1]);
    }
}

/// After taking `h` entries, the search has offered `lists`, holds `order`
/// and has examined `edges` edges.
#[verifier::opaque]
spec fn run_state(
    g: GraphView,
    starts: Seq<NodeId>,
    max_depth: u32,
    cap: nat,
    lists: Seq<Seq<NodeId>>,
    h: nat,
    order: Seq<(NodeId, u32)>,
    edges: nat,
) -> bool {
    &&& lists.len() == h
    &&& listings_ok(g, starts, max_depth, cap, lists, h)
    &&& order == queue_by(g, starts, max_depth, cap, lists, h)
    &&& edges == sat(examined_by(g, starts, max_depth, cap, lists, h) as int)
}

proof fn lemma_run_init(g: GraphView, starts: Seq<NodeId>, max_depth: u32, cap: nat, order: Seq<(NodeId, u32)>)
    requires
        order.len() == admitted_starts(g, starts, cap).len(),
        forall|i: int|
            0 <= i < admitted_starts(g, starts, cap).len() ==> order[i] == (
                NodeId(admitted_starts(g, starts, cap)[i]),
                0u32,
            ),
    ensures
        run_state(g, starts, max_depth, cap, Seq::empty(), 0, order, 0),
{
    reveal(run_state);
    reveal(queue_by);
    reveal(examined_by);
    reveal(listings_ok);
    assert(order =~= queue_by(g, starts, max_depth, cap, Seq::empty(), 0));
}

proof fn lemma_run_skip(
    g: GraphView,
    starts: Seq<NodeId>,
    max_depth: u32,
    cap: nat,
    lists: Seq<Seq<NodeId>>,
    h: nat,
    order: Seq<(NodeId, u32)>,
    edges: nat,
)
    requires
        run_state(g, starts, max_depth, cap, lists, h, order, edges),
        !expands(order, h as int, max_depth, cap),
    ensures
        run_state(g, starts, max_depth, cap, lists.push(Seq::empty()), h + 1, order, edges),
{
    reveal(run_state);
    lemma_run_step(g, starts, max_depth, cap, lists, h, Seq::empty());
}

proof fn lemma_run_fast(
    g: GraphView,
    starts: Seq<NodeId>,
    max_depth: u32,
    cap: nat,
    lists: Seq<Seq<NodeId>>,
    h: nat,
    order: Seq<(NodeId, u32)>,
    edges: nat,
    new_order: Seq<(NodeId, u32)>,
    new_edges: nat,
)
    requires
        run_state(g, starts, max_depth, cap, lists, h, order, edges),
        g.delta_empty(),
        expands(order, h as int, max_depth, cap),
        new_order == offer_all(order, adjacency(g, order[h as int].0.0), (order[h as int].1 + 1) as u32, cap),
        new_edges == sat((edges + degree(g, order[h as int].0.0)) as int),
    ensures
        run_state(
            g,
            starts,
            max_depth,
            cap,
            lists.push(base_kept(g, order[h as int].0.0)),
            h + 1,
            new_order,
            new_edges,
        ),
{
    reveal(run_state);
    let u = order[h as int].0.0;
    lemma_listing_base(g, u);
    if u < g.node_count {
        lemma_offer_all_ids(order, u, g.base[u as int], (order[h as int].1 + 1) as u32, cap);
    } else {
        assert(base_kept(g, u) == Seq::<NodeId>::empty());
    }
    lemma_run_step(g, starts, max_depth, cap, lists, h, base_kept(g, u));
    lemma_sat_sum(examined_by(g, starts, max_depth, cap, lists, h) as int, degree(g, u) as int);
}

proof fn lemma_run_slow(
    g: GraphView,
    starts: Seq<NodeId>,
    max_depth: u32,
    cap: nat,
    lists: Seq<Seq<NodeId>>,
    h: nat,
    order: Seq<(NodeId, u32)>,
    edges: nat,
    ns: Seq<NodeId>,
    new_order: Seq<(NodeId, u32)>,
    new_edges: nat,
)
    requires
        run_state(g, starts, max_depth, cap, lists, h, order, edges),
        !g.delta_empty(),
        expands(order, h as int, max_depth, cap),
        neighbor_listing(g, order[h as int].0.0, ns),
        new_order == offer_ids(order, ns, (order[h as int].1 + 1) as u32, cap),
        new_edges == sat((edges + slow_count(order, ns, (order[h as int].1 + 1) as u32, cap)) as int),
    ensures
        run_state(g, starts, max_depth, cap, lists.push(ns), h + 1, new_order, new_edges),
{
    reveal(run_state);
    lemma_run_step(g, starts, max_depth, cap, lists, h, ns);
    lemma_sat_sum(
        examined_by(g, starts, max_depth, cap, lists, h) as int,
        slow_count(order, ns, (order[h as int].1 + 1) as u32, cap) as int,
    );
}

proof fn lemma_run_done(
    g: GraphView,
    starts: Seq<NodeId>,
    max_depth: u32,
    cap: nat,
    lists: Seq<Seq<NodeId>>,
    order: Seq<(NodeId, u32)>,
    r: BfsResult,
)
    requires
        run_state(g, starts, max_depth, cap, lists, order.len(), order, r.edges_examined as nat),
        r.visited@.len() == order.len(),
        r.depths@.len() == order.len(),
        forall|i: int| 0 <= i < order.len() ==> r.visited@[i] == order[i].0 && r.depths@[i] == order[i].1,
    ensures
        in_some_discovery_order(g, starts, max_depth, cap, r),
{
    reveal(run_state);
    assert(run_by(g, starts, max_depth, cap, lists, r));
}

/// On a graph with nothing pending the only listing of a node's neighbors
/// is its base slice, in storage order.
proof fn lemma_listing_base(g: GraphView, u: u64)
    requires
        g.delta_empty(),
    ensures
        neighbor_listing(g, u, base_kept(g, u)),
        u < g.node_count ==> base_kept(g, u) == kept_list(u, g.base[u as int], Set::<(u64, u64)>::empty()),
        extra_targets(g, u).len() == 0,
{
    assert(extra_targets(g, u) =~= Set::<NodeId>::empty());
    let k = base_kept(g, u);
    assert(k.subrange(0, k.len() as int) =~= k);
    assert(k.skip(k.len() as int) =~= Seq::<NodeId>::empty());
    assert(Seq::<NodeId>::empty().to_set() =~= Set::<NodeId>::empty());
}

/// Taking entry `h`, which offers `ns` (nothing when it is not expanded),
/// extends the run by one step.
proof fn lemma_run_step(
    g: GraphView,
    starts: Seq<NodeId>,
    max_depth: u32,
    cap: nat,
    lists: Seq<Seq<NodeId>>,
    h: nat,
    ns: Seq<NodeId>,
)
    requires
        lists.len() == h,
        listings_ok(g, starts, max_depth, cap, lists, h),
        expands(queue_by(g, starts, max_depth, cap, lists, h), h as int, max_depth, cap) ==> neighbor_listing(
            g,
            queue_by(g, starts, max_depth, cap, lists, h)[h as int].0.0,
            ns,
        ),
    ensures
        ({
            let q = queue_by(g, starts, max_depth, cap, lists, h);
            let l2 = lists.push(ns);
            &&& listings_ok(g, starts, max_depth, cap, l2, h + 1)
            &&& queue_by(g, starts, max_depth, cap, l2, h + 1) == if expands(q, h as int, max_depth, cap) {
                offer_ids(q, ns, (q[h as int].1 + 1) as u32, cap)
            } else {
                q
            }
            &&& examined_by(g, starts, max_depth, cap, l2, h + 1) == examined_by(
                g,
                starts,
                max_depth,
                cap,
                lists,
                h,
            ) + if expands(q, h as int, max_depth, cap) {
                step_examined(g, q, h as int, ns, cap)
            } else {
                0
            }
        }),
{
    reveal(queue_by);
    reveal(examined_by);
    reveal(listings_ok);
    let l2 = lists.push(ns);
    lemma_queue_by_prefix(g, starts, max_depth, cap, lists, l2, h);
    assert(l2[h as int] == ns);
    assert forall|k: int|
        0 <= k < h + 1 && expands(#[trigger] queue_by(g, starts, max_depth, cap, l2, k as nat), k, max_depth, cap)
            implies neighbor_listing(g, queue_by(g, starts, max_depth, cap, l2, k as nat)[k].0.0, l2[k]) by {
        if k < h {
            lemma_queue_by_prefix(g, starts, max_depth, cap, lists, l2, k as nat);
            assert(l2[k] == lists[k]);
            assert(expands(queue_by(g, starts, max_depth, cap, lists, k as nat), k, max_depth, cap));
        }
    }
}

/// `r` is the run of a FIFO breadth-first search whose expanded entries
/// offer the neighbor listings `lists`: the visited nodes and depths are
/// the queue's entries, the queue stops growing once they are all taken,
/// and the examined edges are those of the expansions.
pub open spec fn run_by(
    g: GraphView,
    starts: Seq<NodeId>,
    max_depth: u32,
    cap: nat,
    lists: Seq<Seq<NodeId>>,
    r: BfsResult,
) -> bool {
    let n = r.visited@.len();
    let q = queue_by(g, starts, max_depth, cap, lists, n);
    &&& lists.len() == n
    &&& listings_ok(g, starts, max_depth, cap, lists, n)
    &&& q.len() == n
    &&& r.depths@.len() == n
    &&& forall|i: int| 0 <= i < n ==> r.visited@[i] == (#[trigger] q[i]).0 && r.depths@[i] == q[i].1
    &&& r.edges_examined == sat(examined_by(g, starts, max_depth, cap, lists, n) as int)
}

/// `r` is the run of a FIFO breadth-first search in which each expanded
/// node offers its neighbors as `neighbors` lists them (base targets in
/// storage order, then its pending insertion targets in some order).
pub open spec fn in_some_discovery_order(
    g: GraphView,
    starts: Seq<NodeId>,
    max_depth: u32,
    cap: nat,
    r: BfsResult,
) -> bool {
    exists|lists: Seq<Seq<NodeId>>| run_by(g, starts, max_depth, cap, lists, r)
}

proof fn lemma_offer_all_ids(q: Seq<(NodeId, u32)>, u: u64, l: Seq<u32>, d: u32, cap: nat)
    ensures
        offer_all(q, l, d, cap) == offer_ids(q, kept_list(u, l, Set::<(u64, u64)>::empty()), d, cap),
    decreases l.len(),
{
    if l.len() > 0 {
        lemma_offer_all_ids(q, u, l.drop_last(), d, cap);
        let k = kept_list(u, l, Set::<(u64, u64)>::empty());
        assert(k.drop_last() == kept_list(u, l.drop_last(), Set::<(u64, u64)>::empty()));
    }
}

/// Offering a prefix one more target is offering that target to what the
/// prefix gave.
proof fn lemma_offer_ids_take(q: Seq<(NodeId, u32)>, ns: Seq<NodeId>, j: int, d: u32, cap: nat)
    requires
        0 <= j < ns.len(),
    ensures
        offer_ids(q, ns.take(j + 1), d, cap) == offer_one(offer_ids(q, ns.take(j), d, cap), ns[j], d, cap),
{
    assert(ns.take(j + 1).drop_last() =~= ns.take(j));
}

/// Counting from the `j`-th target on, while the queue has room before each
/// of the first `j`.
proof fn lemma_slow_count_prefix(q: Seq<(NodeId, u32)>, ns: Seq<NodeId>, j: int, d: u32, cap: nat)
    requires
        0 <= j <= ns.len(),
        forall|i: int| 0 <= i < j ==> (#[trigger] offer_ids(q, ns.take(i), d, cap)).len() < cap,
    ensures
        slow_count(q, ns, d, cap) == j + slow_count(offer_ids(q, ns.take(j), d, cap), ns.skip(j), d, cap),
    decreases j,
{
    if j == 0 {
        assert(ns.take(0) =~= Seq::<NodeId>::empty());
        assert(ns.skip(0) =~= ns);
    } else {
        lemma_slow_count_prefix(q, ns, j - 1, d, cap);
        let qp = offer_ids(q, ns.take(j - 1), d, cap);
        let rest = ns.skip(j - 1);
        assert(qp.len() < cap);
        assert(rest.len() > 0);
        assert(rest[0] == ns[j - 1]);
        assert(rest.drop_first() =~= ns.skip(j));
        lemma_offer_ids_take(q, ns, j - 1, d, cap);
    }
}

proof fn lemma_offer_ids_full(q: Seq<(NodeId, u32)>, ns: Seq<NodeId>, d: u32, cap: nat)
    requires
        q.len() >= cap,
    ensures
        offer_ids(q, ns, d, cap) == q,
    decreases ns.len(),
{
    if ns.len() > 0 {
        lemma_offer_ids_full(q, ns.drop_last(), d, cap);
    }
}

proof fn lemma_offer_ids_split(q: Seq<(NodeId, u32)>, a: Seq<NodeId>, b: Seq<NodeId>, d: u32, cap: nat)
    ensures
        offer_ids(q, a + b, d, cap) == offer_ids(offer_ids(q, a, d, cap), b, d, cap),
    decreases b.len(),
{
    if b.len() == 0 {
        assert(a + b =~= a);
    } else {
        assert((a + b).drop_last() =~= a + b.drop_last());
        assert((a + b).last() == b.last());
        lemma_offer_ids_split(q, a, b.drop_last(), d, cap);
    }
}

/// The tracker holds exactly the admitted nodes.
spec fn tracker_matches(t: Visited, order: Seq<(NodeId, u32)>, n: nat) -> bool {
    &&& t.wf()
    &&& t.capacity == n
    &&& forall|v: u64| #[trigger] t@.contains(v) <==> ids(order).contains(v)
}

/// The state in which entry `h`, `(node, depth)`, is expanded.
spec fn expansion_pre(
    g: GraphView,
    s: Set<u64>,
    order: Seq<(NodeId, u32)>,
    h: int,
    node: NodeId,
    depth: u32,
    max_depth: u32,
    cap: nat,
) -> bool {
    &&& order_ok(g, s, order, max_depth)
    &&& forall|x: u64| s.contains(x) ==> ids(order).contains(x)
    &&& 0 <= h < order.len()
    &&& order[h] == (node, depth)
    &&& depth < max_depth
    &&& forall|i: int| h < i < order.len() ==> (#[trigger] order[i]).1 <= depth + 1
    &&& closed_upto(g, order, h, max_depth)
    &&& order.len() < cap
}

/// What expanding entry `h` at `depth` leaves: the entries before extended,
/// still in order, and, unless the cap was reached, entry `h` closed.
spec fn expansion_post(
    g: GraphView,
    s: Set<u64>,
    before: Seq<(NodeId, u32)>,
    after: Seq<(NodeId, u32)>,
    h: int,
    depth: u32,
    max_depth: u32,
    cap: nat,
) -> bool {
    &&& order_ok(g, s, after, max_depth)
    &&& forall|x: u64| s.contains(x) ==> ids(after).contains(x)
    &&& after.len() >= before.len()
    &&& after.take(before.len() as int) == before
    &&& forall|i: int| h < i < after.len() ==> (#[trigger] after[i]).1 <= depth + 1
    &&& after.len() <= cap
    &&& closed_upto(g, after, h, max_depth)
    &&& after.len() < cap ==> closed_upto(g, after, h + 1, max_depth)
}

/// Admitting `v` at `depth + 1` from entry `h` at `depth` keeps the order
/// sound.
proof fn lemma_admit(
    g: GraphView,
    s: Set<u64>,
    order: Seq<(NodeId, u32)>,
    h: int,
    depth: u32,
    max_depth: u32,
    v: NodeId,
)
    requires
        order_ok(g, s, order, max_depth),
        forall|x: u64| s.contains(x) ==> ids(order).contains(x),
        0 <= h < order.len(),
        order[h].1 == depth,
        depth < max_depth,
        forall|i: int| h < i < order.len() ==> (#[trigger] order[i]).1 <= depth + 1,
        closed_upto(g, order, h, max_depth),
        !ids(order).contains(v.0),
        g.has_edge(order[h].0.0, v.0),
    ensures
        order_ok(g, s, order.push((v, (depth + 1) as u32)), max_depth),
        forall|x: u64| s.contains(x) ==> ids(order.push((v, (depth + 1) as u32))).contains(x),
        closed_upto(g, order.push((v, (depth + 1) as u32)), h, max_depth),
{
    let e = (v, (depth + 1) as u32);
    let o2 = order.push(e);
    let u = order[h].0.0;
    // v is not within `depth` steps: everything that is has been admitted.
    if reached(g, s, depth as nat, v.0) {
        assert forall|i: int| h <= i < order.len() implies (#[trigger] order[i]).1 >= depth by {
            assert(order[h].1 <= order[i].1);
        }
        lemma_complete(g, s, order, h, depth as nat, max_depth, depth as nat, v.0);
    }
    // v is within `depth + 1` steps, through u.
    assert(at_distance(g, s, u, depth as nat));
    assert(reached(g, s, (depth + 1) as nat, v.0));
    assert forall|x: u64| ids(o2).contains(x) <== ids(order).contains(x) by {
        lemma_ids_push(order, e, x);
    }
    lemma_ids_push(order, e, v.0);
    assert(ids(o2).no_duplicates()) by {
        let a = ids(order);
        assert forall|i: int, j: int| 0 <= i < ids(o2).len() && 0 <= j < ids(o2).len() && i != j implies ids(
            o2,
        )[i] != ids(o2)[j] by {
            if i < a.len() && j < a.len() {
                assert(ids(o2)[i] == a[i] && ids(o2)[j] == a[j]);
            } else if i < a.len() {
                assert(ids(o2)[i] == a[i]);
                assert(a.contains(a[i]));
            } else if j < a.len() {
                assert(ids(o2)[j] == a[j]);
                assert(a.contains(a[j]));
            }
        }
    }
    assert forall|i: int, j: int| 0 <= i <= j < o2.len() implies (#[trigger] o2[i]).1 <= (#[trigger] o2[j]).1 by {
        if j == order.len() && i < order.len() {
            if i > h {
                assert(order[i].1 <= depth + 1);
            } else {
                assert(order[i].1 <= order[h].1);
            }
        }
    }
    assert forall|i: int, w: u64|
        0 <= i < h && (#[trigger] o2[i]).1 < max_depth && #[trigger] g.has_edge(o2[i].0.0, w) implies ids(
        o2,
    ).contains(w) by {
        assert(o2[i] == order[i]);
        lemma_ids_push(order, e, w);
    }
}

proof fn lemma_extend_keeps(
    g: GraphView,
    s: Set<u64>,
    before: Seq<(NodeId, u32)>,
    after: Seq<(NodeId, u32)>,
    h: int,
    max_depth: u32,
)
    requires
        after.len() >= before.len(),
        after.take(before.len() as int) == before,
    ensures
        forall|x: u64| ids(before).contains(x) ==> ids(after).contains(x),
        closed_upto(g, before, h, max_depth) && h <= before.len() ==> closed_upto(g, after, h, max_depth),
{
    assert forall|x: u64| ids(before).contains(x) implies ids(after).contains(x) by {
        let j = choose|j: int| 0 <= j < ids(before).len() && ids(before)[j] == x;
        assert(after[j] == before[j]);
        assert(ids(after)[j] == x);
    }
    if closed_upto(g, before, h, max_depth) && h <= before.len() {
        assert forall|i: int, w: u64|
            0 <= i < h && (#[trigger] after[i]).1 < max_depth && #[trigger] g.has_edge(after[i].0.0, w) implies ids(
            after,
        ).contains(w) by {
            assert(after[i] == before[i]);
        }
    }
}

/// Expands `node` through its base-layer slice, filtered by `backend`
/// against the dense bitset (the graph has nothing pending).
fn expand_fast(
    graph: &CsrGraph,
    backend: &dyn SimdBackend,
    node: NodeId,
    depth: u32,
    max_depth: u32,
    cap: usize,
    tracker: &mut Visited,
    order: &mut Vec<(NodeId, u32)>,
    filtered: &mut Vec<u32>,
    edges: &mut usize,
    Ghost(s): Ghost<Set<u64>>,
    Ghost(h): Ghost<int>,
)
    requires
        graph.wf(),
        graph@.delta_empty(),
        expansion_pre(graph@, s, old(order)@, h, node, depth, max_depth, cap as nat),
        tracker_matches(*old(tracker), old(order)@, graph@.node_count),
    ensures
        tracker_matches(*final(tracker), final(order)@, graph@.node_count),
        expansion_post(graph@, s, old(order)@, final(order)@, h, depth, max_depth, cap as nat),
        final(order)@.len() < cap ==> *final(edges) == sat(*old(edges) + degree(graph@, node.0)),
        final(order)@ == offer_all(old(order)@, adjacency(graph@, node.0), (depth + 1) as u32, cap as nat),
        *final(edges) == sat(*old(edges) + degree(graph@, node.0)),
{
    let ghost g = graph@;
    let ghost before = order@;
    let slice = graph.base_neighbor_slice(node);
    *edges = edges.saturating_add(slice.len());
    proof {
        lemma_degree_base_only(g, node.0);
    }
    let ghost e1 = *edges;
    let ghost words_before = tracker.words@;
    let ghost tracked_before = tracker@;
    backend.filter_unvisited_into(slice, tracker.words.as_slice(), filtered);
    proof {
        assert forall|x: u32|
            (x as int) < g.node_count implies (crate::simd::is_unvisited(x, words_before) <==> !tracked_before.contains(
            x as u64,
        )) by {
            tracker.lemma_dense_words(x, words_before);
        }
        assert forall|v: u64| #[trigger] g.has_edge(node.0, v) implies v < g.node_count && slice@.contains(
            v as u32,
        ) by {
            assert(g.base[node.0 as int].contains(v as u32));
            let j = choose|j: int| 0 <= j < g.base[node.0 as int].len() && g.base[node.0 as int][j] == v as u32;
            assert(g.base[node.0 as int][j] < g.node_count);
        }
    }
    let mut q: usize = 0;
    while q < filtered.len() && order.len() < cap
        invariant
            graph.wf(),
            g == graph@,
            g.delta_empty(),
            tracker_matches(*tracker, order@, g.node_count),
            forall|x: u32|
                (x as int) < g.node_count ==> (crate::simd::is_unvisited(x, words_before) <==> !tracked_before.contains(
                    x as u64,
                )),
            order_ok(g, s, order@, max_depth),
            forall|x: u64| s.contains(x) ==> ids(order@).contains(x),
            order@.len() >= before.len(),
            order@.take(before.len() as int) == before,
            0 <= h < before.len(),
            before[h] == (node, depth),
            depth < max_depth,
            forall|i: int| h < i < order@.len() ==> (#[trigger] order@[i]).1 <= depth + 1,
            order@.len() <= cap,
            closed_upto(g, order@, h, max_depth),
            q <= filtered@.len(),
            filtered@ == unvisited(slice@, words_before),
            node.0 < g.node_count ==> slice@ == g.base[node.0 as int],
            node.0 >= g.node_count ==> slice@.len() == 0,
            forall|x: u64| tracked_before.contains(x) ==> ids(order@).contains(x),
            forall|j: int| 0 <= j < q ==> ids(order@).contains(#[trigger] filtered@[j] as u64),
            *edges == e1,
            order@ == offer_all(before, filtered@.take(q as int), (depth + 1) as u32, cap as nat),
        decreases filtered@.len() - q,
    {
        let n = filtered[q];
        let ghost cur = order@;
        proof {
            assert(filtered@.take(q + 1).drop_last() =~= filtered@.take(q as int));
            assert(filtered@.take(q + 1).last() == n);
            crate::simd::lemma_unvisited_contains(slice@, words_before, n);
            assert(filtered@.contains(n)) by {
                assert(filtered@[q as int] == n);
            }
            assert(slice@.contains(n));
            let j = choose|j: int| 0 <= j < slice@.len() && slice@[j] == n;
            assert(g.base[node.0 as int][j] == n);
            assert(g.base_has(node.0, n as u64));
            assert(cur[h] == before[h]);
        }
        if tracker.test_and_set(n as u64) {
            let v = NodeId(n as u64);
            proof {
                lemma_admit(g, s, cur, h, depth, max_depth, v);
            }
            order.push((v, depth + 1));
            proof {
                assert forall|x: u64| #[trigger] tracker@.contains(x) <==> ids(order@).contains(x) by {
                    lemma_ids_push(cur, (v, (depth + 1) as u32), x);
                }
                assert(order@.take(cur.len() as int) =~= cur);
                lemma_extend_keeps(g, s, cur, order@, h, max_depth);
                assert(order@.take(before.len() as int) =~= before) by {
                    assert forall|k: int| 0 <= k < before.len() implies order@[k] == before[k] by {
                        assert(cur[k] == before[k]);
                    }
                }
                lemma_ids_push(cur, (v, (depth + 1) as u32), n as u64);
            }
        }
        proof {
            assert(ids(order@).contains(n as u64));
            assert forall|j: int| 0 <= j < q + 1 implies ids(order@).contains(#[trigger] filtered@[j] as u64) by {
                if j < q {
                    assert(ids(cur).contains(filtered@[j] as u64));
                    assert(order@.take(cur.len() as int) =~= cur);
                    lemma_extend_keeps(g, s, cur, order@, h, max_depth);
                }
            }
        }
        q = q + 1;
    }
    proof {
        let d1 = (depth + 1) as u32;
        assert(slice@ == adjacency(g, node.0));
        assert forall|i: int| 0 <= i < slice@.len() implies (#[trigger] slice@[i] as int) < g.node_count by {
            assert(g.base[node.0 as int][i] == slice@[i]);
        }
        assert forall|x: u32| (x as int) < g.node_count implies (crate::simd::is_unvisited(x, words_before)
            <==> !ids(before).contains(x as u64)) by {
            assert(tracked_before.contains(x as u64) <==> ids(before).contains(x as u64));
        }
        lemma_offer_unvisited(before, slice@, words_before, d1, cap as nat, g.node_count);
        lemma_offer_split(before, filtered@.take(q as int), filtered@.skip(q as int), d1, cap as nat);
        assert(filtered@.take(q as int) + filtered@.skip(q as int) =~= filtered@);
        if q < filtered@.len() {
            lemma_offer_full(order@, filtered@.skip(q as int), d1, cap as nat);
        } else {
            assert(filtered@.skip(q as int) =~= Seq::<u32>::empty());
        }
        if order@.len() < cap {
            assert forall|i: int, w: u64|
                0 <= i < h + 1 && (#[trigger] order@[i]).1 < max_depth && #[trigger] g.has_edge(order@[i].0.0, w)
                    implies ids(order@).contains(w) by {
                if i == h {
                    assert(order@[h] == before[h]);
                    assert(w < g.node_count && slice@.contains(w as u32));
                    let wn = w as u32;
                    assert(wn as u64 == w);
                    crate::simd::lemma_unvisited_contains(slice@, words_before, wn);
                    if crate::simd::is_unvisited(wn, words_before) {
                        let j = choose|j: int| 0 <= j < filtered@.len() && filtered@[j] == wn;
                        assert(ids(order@).contains(filtered@[j] as u64));
                    } else {
                        assert(tracked_before.contains(w));
                    }
                }
            }
        }
    }
}

/// Expands `node` through the merged neighbor list of the graph, which
/// applies pending insertions and tombstones.
fn expand_slow(
    graph: &CsrGraph,
    node: NodeId,
    depth: u32,
    max_depth: u32,
    cap: usize,
    tracker: &mut Visited,
    order: &mut Vec<(NodeId, u32)>,
    edges: &mut usize,
    Ghost(s): Ghost<Set<u64>>,
    Ghost(h): Ghost<int>,
) -> (listed: Ghost<Seq<NodeId>>)
    requires
        graph.wf(),
        expansion_pre(graph@, s, old(order)@, h, node, depth, max_depth, cap as nat),
        tracker_matches(*old(tracker), old(order)@, graph@.node_count),
    ensures
        tracker_matches(*final(tracker), final(order)@, graph@.node_count),
        expansion_post(graph@, s, old(order)@, final(order)@, h, depth, max_depth, cap as nat),
        final(order)@.len() < cap ==> *final(edges) == sat(*old(edges) + degree(graph@, node.0)),
        neighbor_listing(graph@, node.0, listed@),
        final(order)@ == offer_ids(old(order)@, listed@, (depth + 1) as u32, cap as nat),
        *final(edges) == sat(*old(edges) + slow_count(old(order)@, listed@, (depth + 1) as u32, cap as nat)),
{
    let ghost g = graph@;
    let ghost before = order@;
    let ghost e0 = *edges;
    let ns = graph.neighbors(node);
    let ghost d1 = (depth + 1) as u32;
    let mut q: usize = 0;
    while q < ns.len()
        invariant_except_break
            *edges == sat(e0 + q),
        invariant
            graph.wf(),
            g == graph@,
            tracker_matches(*tracker, order@, g.node_count),
            order_ok(g, s, order@, max_depth),
            forall|x: u64| s.contains(x) ==> ids(order@).contains(x),
            order@.len() >= before.len(),
            order@.take(before.len() as int) == before,
            0 <= h < before.len(),
            before[h] == (node, depth),
            depth < max_depth,
            forall|i: int| h < i < order@.len() ==> (#[trigger] order@[i]).1 <= depth + 1,
            order@.len() <= cap,
            closed_upto(g, order@, h, max_depth),
            q <= ns@.len(),
            forall|t: u64| ns@.contains(NodeId(t)) <==> g.has_edge(node.0, t),
            ns@.len() == degree(g, node.0),
            forall|j: int| 0 <= j < q ==> ids(order@).contains((#[trigger] ns@[j]).0),
            order@.len() < cap ==> *edges == sat(e0 + q),
            d1 == (depth + 1) as u32,
            order@ == offer_ids(before, ns@.take(q as int), d1, cap as nat),
            forall|i: int| 0 <= i < q ==> (#[trigger] offer_ids(before, ns@.take(i), d1, cap as nat)).len() < cap,
        ensures
            tracker_matches(*tracker, order@, g.node_count),
            order_ok(g, s, order@, max_depth),
            forall|x: u64| s.contains(x) ==> ids(order@).contains(x),
            order@.len() >= before.len(),
            order@.take(before.len() as int) == before,
            forall|i: int| h < i < order@.len() ==> (#[trigger] order@[i]).1 <= depth + 1,
            order@.len() <= cap,
            closed_upto(g, order@, h, max_depth),
            order@.len() < cap ==> q == ns@.len(),
            forall|j: int| 0 <= j < q ==> ids(order@).contains((#[trigger] ns@[j]).0),
            order@.len() < cap ==> *edges == sat(e0 + q),
            order@ == offer_ids(before, ns@.take(q as int), d1, cap as nat),
            forall|i: int| 0 <= i < q ==> (#[trigger] offer_ids(before, ns@.take(i), d1, cap as nat)).len() < cap,
            (q == ns@.len() && *edges == sat(e0 + q)) || (q < ns@.len() && order@.len() >= cap && *edges == sat(
                e0 + q + 1,
            )),
        decreases ns@.len() - q,
    {
        proof {
            lemma_sat_sum(e0 + q, 1);
        }
        *edges = edges.saturating_add(1);
        if order.len() >= cap {
            break;
        }
        let v = ns[q];
        let ghost cur = order@;
        proof {
            assert(v == NodeId(v.0));
            assert(ns@.contains(NodeId(v.0))) by {
                assert(ns@[q as int] == v);
            }
            assert(cur[h] == before[h]);
        }
        proof {
            lemma_offer_ids_take(before, ns@, q as int, d1, cap as nat);
            assert(tracker@.contains(v.0) <==> ids(cur).contains(v.0));
        }
        if tracker.test_and_set(v.0) {
            proof {
                lemma_admit(g, s, cur, h, depth, max_depth, v);
            }
            order.push((v, depth + 1));
            proof {
                assert forall|x: u64| #[trigger] tracker@.contains(x) <==> ids(order@).contains(x) by {
                    lemma_ids_push(cur, (v, (depth + 1) as u32), x);
                }
                assert(order@.take(cur.len() as int) =~= cur);
                lemma_extend_keeps(g, s, cur, order@, h, max_depth);
                assert(order@.take(before.len() as int) =~= before) by {
                    assert forall|k: int| 0 <= k < before.len() implies order@[k] == before[k] by {
                        assert(cur[k] == before[k]);
                    }
                }
                lemma_ids_push(cur, (v, (depth + 1) as u32), v.0);
            }
        }
        proof {
            assert(ids(order@).contains(v.0));
            assert forall|j: int| 0 <= j < q + 1 implies ids(order@).contains((#[trigger] ns@[j]).0) by {
                if j < q {
                    assert(ids(cur).contains(ns@[j].0));
                    assert(order@.take(cur.len() as int) =~= cur);
                    lemma_extend_keeps(g, s, cur, order@, h, max_depth);
                }
            }
        }
        q = q + 1;
    }
    proof {
        lemma_slow_count_prefix(before, ns@, q as int, d1, cap as nat);
        lemma_offer_ids_split(before, ns@.take(q as int), ns@.skip(q as int), d1, cap as nat);
        assert(ns@.take(q as int) + ns@.skip(q as int) =~= ns@);
        if q < ns@.len() {
            lemma_offer_ids_full(order@, ns@.skip(q as int), d1, cap as nat);
            assert(slow_count(order@, ns@.skip(q as int), d1, cap as nat) == 1);
        } else {
            assert(ns@.skip(q as int) =~= Seq::<NodeId>::empty());
        }
        if order@.len() < cap {
            assert forall|i: int, w: u64|
                0 <= i < h + 1 && (#[trigger] order@[i]).1 < max_depth && #[trigger] g.has_edge(order@[i].0.0, w)
                    implies ids(order@).contains(w) by {
                if i == h {
                    assert(order@[h] == before[h]);
                    assert(ns@.contains(NodeId(w)));
                    let j = choose|j: int| 0 <= j < ns@.len() && ns@[j] == NodeId(w);
                    assert(ids(order@).contains(ns@[j].0));
                }
            }
        }
    }
    Ghost(ns@)
}

// ---------------------------------------------------------------------
// The traversal
// ---------------------------------------------------------------------

/// The node cap of a run: `max_nodes`, or no cap below `usize::MAX`.
pub open spec fn cap_of(max_nodes: Option<usize>) -> nat {
    match max_nodes {
        Some(m) => m as nat,
        None => usize::MAX as nat,
    }
}

/// Edges examined while expanding the first `n` visited nodes: the degree
/// of each one below `max_depth`.
pub open spec fn examined_total(
    g: GraphView,
    visited: Seq<NodeId>,
    depths: Seq<u32>,
    n: nat,
    max_depth: u32,
) -> nat
    decreases n,
{
    if n == 0 {
        0
    } else {
        examined_total(g, visited, depths, (n - 1) as nat, max_depth) + if depths[n - 1] < max_depth {
            degree(g, visited[n - 1].0)
        } else {
            0
        }
    }
}

/// `r` is what a BFS of `g` from `starts` to depth `max_depth`, admitting
/// at most `cap` nodes, returns.
///
/// The admitted start nodes come first, at depth zero. Every visited node
/// is visited once, at its exact distance from the admitted start nodes,
/// in non-decreasing order of depth; every node closer than the last
/// visited one is visited. Unless the cap was reached, every node within
/// `max_depth` steps is visited and the examined edges are the degrees of
/// the visited nodes below `max_depth`. The levels group the
/// visited nodes by depth, in visiting order.
pub open spec fn bfs_outcome(g: GraphView, starts: Seq<NodeId>, max_depth: u32, cap: nat, r: BfsResult) -> bool {
    let s0 = admitted_starts(g, starts, cap);
    let s = s0.to_set();
    let vis = r.visited@;
    let dep = r.depths@;
    let n = vis.len();
    &&& dep.len() == n
    &&& n <= cap
    &&& s0.len() <= n
    &&& forall|i: int| 0 <= i < s0.len() ==> vis[i] == NodeId(s0[i]) && dep[i] == 0
    &&& vis.no_duplicates()
    &&& forall|i: int|
        0 <= i < n ==> #[trigger] dep[i] <= max_depth && at_distance(g, s, vis[i].0, dep[i] as nat)
    &&& forall|i: int, j: int| 0 <= i <= j < n ==> #[trigger] dep[i] <= #[trigger] dep[j]
    &&& n < cap ==> forall|v: u64, k: nat|
        k <= max_depth && #[trigger] reached(g, s, k, v) ==> vis.contains(NodeId(v))
    &&& n > 0 ==> forall|v: u64, k: nat|
        k < dep[n - 1] && #[trigger] reached(g, s, k, v) ==> vis.contains(NodeId(v))
    &&& n < cap ==> r.edges_examined == sat(examined_total(g, vis, dep, n, max_depth) as int)
    &&& r.max_depth_reached == if n == 0 {
        0
    } else {
        dep[n - 1]
    }
    &&& r.levels@.len() == if n == 0 {
        0
    } else {
        dep[n - 1] + 1
    }
    &&& forall|k: int| 0 <= k < r.levels@.len() ==> (#[trigger] r.levels@[k])@ == with_depth(vis, dep, n, k as u32)
}

pub(crate) proof fn lemma_with_depth_prefix(a: Seq<NodeId>, ad: Seq<u32>, b: Seq<NodeId>, bd: Seq<u32>, n: nat, k: u32)
    requires
        n <= a.len(),
        n <= ad.len(),
        n <= b.len(),
        n <= bd.len(),
        forall|i: int| 0 <= i < n ==> a[i] == b[i] && ad[i] == bd[i],
    ensures
        with_depth(a, ad, n, k) == with_depth(b, bd, n, k),
    decreases n,
{
    if n > 0 {
        lemma_with_depth_prefix(a, ad, b, bd, (n - 1) as nat, k);
    }
}

pub(crate) proof fn lemma_with_depth_none(a: Seq<NodeId>, ad: Seq<u32>, n: nat, k: u32)
    requires
        n <= ad.len(),
        forall|i: int| 0 <= i < n ==> ad[i] != k,
    ensures
        with_depth(a, ad, n, k) == Seq::<NodeId>::empty(),
    decreases n,
{
    if n > 0 {
        lemma_with_depth_none(a, ad, (n - 1) as nat, k);
    }
}

proof fn lemma_examined_prefix(
    g: GraphView,
    a: Seq<NodeId>,
    ad: Seq<u32>,
    b: Seq<NodeId>,
    bd: Seq<u32>,
    n: nat,
    max_depth: u32,
)
    requires
        n <= a.len(),
        n <= ad.len(),
        n <= b.len(),
        n <= bd.len(),
        forall|i: int| 0 <= i < n ==> a[i] == b[i] && ad[i] == bd[i],
    ensures
        examined_total(g, a, ad, n, max_depth) == examined_total(g, b, bd, n, max_depth),
    decreases n,
{
    if n > 0 {
        lemma_examined_prefix(g, a, ad, b, bd, (n - 1) as nat, max_depth);
    }
}

proof fn lemma_distinct_valid_unique(g: GraphView, starts: Seq<NodeId>)
    ensures
        distinct_valid(g, starts).no_duplicates(),
    decreases starts.len(),
{
    if starts.len() > 0 {
        lemma_distinct_valid_unique(g, starts.drop_last());
        let rest = distinct_valid(g, starts.drop_last());
        let x = starts.last().0;
        if x < g.node_count && !rest.contains(x) {
            let d = rest.push(x);
            assert forall|i: int, j: int| 0 <= i < d.len() && 0 <= j < d.len() && i != j implies d[i] != d[j] by {
                if i < rest.len() && j < rest.len() {
                    assert(d[i] == rest[i] && d[j] == rest[j]);
                } else if i < rest.len() {
                    assert(rest.contains(d[i]));
                } else if j < rest.len() {
                    assert(rest.contains(d[j]));
                }
            }
        }
    }
}

/// Order properties of the admitted start nodes.
proof fn lemma_starts_ok(g: GraphView, starts: Seq<NodeId>, cap: nat, order: Seq<(NodeId, u32)>, max_depth: u32)
    requires
        ids(order) == admitted_starts(g, starts, cap),
        forall|i: int| 0 <= i < order.len() ==> (#[trigger] order[i]).1 == 0,
    ensures
        order_ok(g, admitted_starts(g, starts, cap).to_set(), order, max_depth),
        forall|x: u64| admitted_starts(g, starts, cap).to_set().contains(x) ==> ids(order).contains(x),
        forall|i: int|
            0 <= i < admitted_starts(g, starts, cap).len() ==> order[i] == (
                NodeId(admitted_starts(g, starts, cap)[i]),
                0u32,
            ),
{
    let s0 = admitted_starts(g, starts, cap);
    lemma_distinct_valid_unique(g, starts);
    let d = distinct_valid(g, starts);
    assert(s0.no_duplicates()) by {
        assert forall|i: int, j: int| 0 <= i < s0.len() && 0 <= j < s0.len() && i != j implies s0[i] != s0[j] by {
            assert(s0[i] == d[i] && s0[j] == d[j]);
        }
    }
    assert forall|i: int| 0 <= i < order.len() implies (#[trigger] order[i]).1 <= max_depth && at_distance(
        g,
        s0.to_set(),
        order[i].0.0,
        order[i].1 as nat,
    ) by {
        assert(ids(order)[i] == order[i].0.0);
        assert(s0.contains(order[i].0.0));
    }
    assert forall|i: int| 0 <= i < s0.len() implies order[i] == (NodeId(s0[i]), 0u32) by {
        assert(ids(order)[i] == order[i].0.0);
        assert(order[i].0 == NodeId(order[i].0.0));
    }
}

/// BFS from several start nodes with an explicit backend, admitting at most
/// `max_nodes` nodes (start nodes included).
pub fn bfs_bounded_with_backend(
    graph: &CsrGraph,
    starts: &[NodeId],
    max_depth: u32,
    max_nodes: Option<usize>,
    backend: &dyn SimdBackend,
) -> (r: BfsResult)
    requires
        graph.wf(),
    ensures
        bfs_outcome(graph@, starts@, max_depth, cap_of(max_nodes), r),
        graph@.delta_empty() ==> in_discovery_order(graph@, starts@, max_depth, cap_of(max_nodes), r),
        in_some_discovery_order(graph@, starts@, max_depth, cap_of(max_nodes), r),
{
    let cap: usize = match max_nodes {
        Some(m) => m,
        None => usize::MAX,
    };
    let ghost g = graph@;
    let mut tracker = Visited::new(graph.node_count());
    let mut order = admit_starts(graph, starts, cap, &mut tracker);
    let ghost s0 = admitted_starts(g, starts@, cap as nat);
    let ghost s = s0.to_set();
    if order.len() == 0 {
        proof {
            assert(s0 =~= Seq::<u64>::empty());
            assert(s =~= Set::<u64>::empty());
            assert forall|v: u64, k: nat| !#[trigger] reached(g, s, k, v) by {
                lemma_reached_empty(g, k, v);
            }
        }
        let r = BfsResult::empty();
        proof {
            let l0 = Seq::<Seq<NodeId>>::empty();
            reveal(queue_by);
            reveal(examined_by);
            reveal(listings_ok);
            assert(queue_by(g, starts@, max_depth, cap as nat, l0, 0).len() == 0);
            assert(run_by(g, starts@, max_depth, cap as nat, l0, r));
        }
        return r;
    }
    proof {
        lemma_starts_ok(g, starts@, cap as nat, order@, max_depth);
        assert(ids(order@).len() == order@.len());
        assert(order@ =~= bfs_queue(g, starts@, max_depth, cap as nat, 0));
    }
    let mut visited: Vec<NodeId> = Vec::new();
    let mut depths: Vec<u32> = Vec::new();
    let mut levels: Vec<Vec<NodeId>> = Vec::new();
    let mut current_level: Vec<NodeId> = Vec::new();
    let mut edges: usize = 0;
    let mut current_depth: u32 = 0;
    let delta_empty = graph.delta().is_empty();
    let mut filtered: Vec<u32> = Vec::new();
    let mut head: usize = 0;
    let ghost mut stop: int = 0;
    let ghost mut lists: Seq<Seq<NodeId>> = Seq::empty();
    proof {
        lemma_run_init(g, starts@, max_depth, cap as nat, order@);
    }
    proof {
        if order@.len() >= cap {
            reveal(capped_closed);
            assert(order@[order@.len() - 1].1 == 0);
        }
    }
    while head < order.len()
        invariant
            order@.len() >= cap ==> capped_closed(g, order@, stop, max_depth),
            graph.wf(),
            g == graph@,
            delta_empty == g.delta_empty(),
            cap as nat == cap_of(max_nodes),
            s0 == admitted_starts(g, starts@, cap as nat),
            s == s0.to_set(),
            tracker_matches(tracker, order@, g.node_count),
            order_ok(g, s, order@, max_depth),
            forall|x: u64| s.contains(x) ==> ids(order@).contains(x),
            1 <= s0.len() <= order@.len(),
            forall|i: int| 0 <= i < s0.len() ==> order@[i] == (NodeId(s0[i]), 0u32),
            head <= order@.len(),
            order@.len() <= cap,
            head == 0 ==> current_depth == 0 && levels@.len() == 0 && current_level@.len() == 0,
            head > 0 ==> current_depth == order@[head - 1].1,
            forall|i: int|
                head <= i < order@.len() ==> (#[trigger] order@[i]).1 <= current_depth + 1 && order@[i].1
                    >= current_depth,
            order@.len() < cap ==> closed_upto(g, order@, head as int, max_depth),
            visited@.len() == head,
            depths@.len() == head,
            forall|i: int| 0 <= i < head ==> #[trigger] visited@[i] == order@[i].0 && depths@[i] == order@[i].1,
            head > 0 ==> levels@.len() == current_depth,
            head > 0 ==> forall|k: int|
                0 <= k < levels@.len() ==> (#[trigger] levels@[k])@ == with_depth(
                    visited@,
                    depths@,
                    head as nat,
                    k as u32,
                ),
            head > 0 ==> current_level@ == with_depth(visited@, depths@, head as nat, current_depth),
            order@.len() < cap ==> edges == sat(
                examined_total(g, visited@, depths@, head as nat, max_depth) as int,
            ),
            delta_empty ==> order@ == bfs_queue(g, starts@, max_depth, cap as nat, head as nat),
            run_state(g, starts@, max_depth, cap as nat, lists, head as nat, order@, edges as nat),
        decreases cap - head,
    {
        let (node, depth) = order[head];
        let ghost h = head as int;
        let ghost vis0 = visited@;
        let ghost dep0 = depths@;
        let ghost lv0 = levels@;
        let ghost cl0 = current_level@;
        let ghost cd0 = current_depth;
        let ghost ord0 = order@;
        proof {
            assert forall|i: int| 0 <= i < h implies #[trigger] vis0[i] == ord0[i].0 && dep0[i] == ord0[i].1 by {
                assert(visited@[i] == order@[i].0 && depths@[i] == order@[i].1);
            }
            assert(order@[h] == (node, depth));
            if h == 0 {
                assert(depth == 0) by {
                    assert(order@[0] == (NodeId(s0[0]), 0u32));
                }
            }
        }
        head = head + 1;
        if depth > current_depth {
            let mut done: Vec<NodeId> = Vec::new();
            std::mem::swap(&mut done, &mut current_level);
            levels.push(done);
            current_depth = depth;
        }
        visited.push(node);
        depths.push(depth);
        current_level.push(node);
        proof {
            let n0 = h as nat;
            assert forall|i: int| 0 <= i < head implies #[trigger] visited@[i] == order@[i].0 && depths@[i]
                == order@[i].1 by {
                if i < h {
                    assert(vis0[i] == ord0[i].0 && dep0[i] == ord0[i].1);
                }
            }
            assert forall|k: int| 0 <= k < levels@.len() implies (#[trigger] levels@[k])@ == with_depth(
                visited@,
                depths@,
                head as nat,
                k as u32,
            ) by {
                lemma_with_depth_prefix(visited@, depths@, vis0, dep0, n0, k as u32);
                assert(k < current_depth);
                if depth > cd0 && k == cd0 {
                    assert(levels@[k]@ == cl0);
                } else {
                    assert(levels@[k] == lv0[k]);
                }
            }
            lemma_with_depth_prefix(visited@, depths@, vis0, dep0, n0, current_depth);
            if depth > cd0 {
                assert forall|i: int| 0 <= i < n0 implies dep0[i] != depth by {
                    assert(vis0[i] == ord0[i].0 && dep0[i] == ord0[i].1);
                    assert(order@[i].1 <= order@[h - 1].1);
                }
                lemma_with_depth_none(vis0, dep0, n0, depth);
            } else if h == 0 {
                assert(with_depth(vis0, dep0, 0, current_depth) == Seq::<NodeId>::empty());
            }
            assert(current_level@ == with_depth(visited@, depths@, head as nat, current_depth));
            lemma_examined_prefix(g, visited@, depths@, vis0, dep0, n0, max_depth);
        }
        if depth >= max_depth || order.len() >= cap {
            proof {
                if delta_empty {
                    assert(ord0[h] == (node, depth));
                    assert(bfs_queue(g, starts@, max_depth, cap as nat, head as nat) == bfs_queue(
                        g,
                        starts@,
                        max_depth,
                        cap as nat,
                        h as nat,
                    ));
                }
                if order@.len() < cap {
                    assert forall|i: int, w: u64|
                        0 <= i < head && (#[trigger] order@[i]).1 < max_depth && #[trigger] g.has_edge(
                            order@[i].0.0,
                            w,
                        ) implies ids(order@).contains(w) by {
                        assert(i < h);
                    }
                }
                assert(ord0[h] == (node, depth));
                lemma_run_skip(g, starts@, max_depth, cap as nat, lists, h as nat, ord0, edges as nat);
                lists = lists.push(Seq::<NodeId>::empty());
            }
            continue;
        }
        let ghost e0 = edges;
        let ghost vis1 = visited@;
        let ghost dep1 = depths@;
        proof {
            assert forall|i: int| 0 <= i < head implies vis1[i] == ord0[i].0 && dep1[i] == ord0[i].1 by {
                assert(visited@[i] == order@[i].0 && depths@[i] == order@[i].1);
            }
        }
        if delta_empty {
            expand_fast(
                graph,
                backend,
                node,
                depth,
                max_depth,
                cap,
                &mut tracker,
                &mut order,
                &mut filtered,
                &mut edges,
                Ghost(s),
                Ghost(h),
            );
            proof {
                assert(ord0[h] == (node, depth));
                lemma_run_fast(
                    g,
                    starts@,
                    max_depth,
                    cap as nat,
                    lists,
                    h as nat,
                    ord0,
                    e0 as nat,
                    order@,
                    edges as nat,
                );
                lists = lists.push(base_kept(g, node.0));
            }
        } else {
            let listed = expand_slow(
                graph,
                node,
                depth,
                max_depth,
                cap,
                &mut tracker,
                &mut order,
                &mut edges,
                Ghost(s),
                Ghost(h),
            );
            proof {
                assert(ord0[h] == (node, depth));
                lemma_run_slow(
                    g,
                    starts@,
                    max_depth,
                    cap as nat,
                    lists,
                    h as nat,
                    ord0,
                    e0 as nat,
                    listed@,
                    order@,
                    edges as nat,
                );
                lists = lists.push(listed@);
            }
        }
        proof {
            if delta_empty {
                assert(bfs_queue(g, starts@, max_depth, cap as nat, head as nat) == offer_all(
                    ord0,
                    adjacency(g, node.0),
                    (depth + 1) as u32,
                    cap as nat,
                ));
            }
            assert forall|i: int| 0 <= i < ord0.len() implies order@[i] == ord0[i] by {
                assert(order@.take(ord0.len() as int)[i] == ord0[i]);
            }
            if order@.len() >= cap {
                stop = h;
                let last = order@.len() - 1;
                assert(last > h);
                assert(order@[h] == ord0[h]);
                assert(order@[last].1 <= depth + 1);
                assert forall|i: int| stop <= i < order@.len() implies (#[trigger] order@[i]).1 + 1 >= order@[
                    order@.len() - 1
                ].1 by {
                    assert(order@[h].1 <= order@[i].1);
                }
                reveal(capped_closed);
            }
            assert forall|i: int| 0 <= i < s0.len() implies order@[i] == (NodeId(s0[i]), 0u32) by {
                assert(order@[i] == ord0[i]);
            }
            assert forall|i: int| 0 <= i < head implies #[trigger] visited@[i] == order@[i].0 && depths@[i]
                == order@[i].1 by {
                assert(order@[i] == ord0[i]);
                assert(vis1[i] == ord0[i].0 && dep1[i] == ord0[i].1);
            }
            assert forall|i: int| head <= i < order@.len() implies (#[trigger] order@[i]).1 <= current_depth + 1
                && order@[i].1 >= current_depth by {
                assert(order@[h].1 <= order@[i].1);
            }
            if order@.len() < cap {
                lemma_sat_sum(examined_total(g, vis0, dep0, h as nat, max_depth) as int, degree(g, node.0) as int);
            }
        }
    }
    if current_level.len() > 0 {
        levels.push(current_level);
    }
    proof {
        let n = visited@.len();
        assert(n == order@.len());
        assert(n > 0);
        assert(visited@.no_duplicates()) by {
            assert forall|i: int, j: int| 0 <= i < n && 0 <= j < n && i != j implies visited@[i] != visited@[j] by {
                assert(ids(order@)[i] == order@[i].0.0);
                assert(ids(order@)[j] == order@[j].0.0);
            }
        }
        assert(with_depth(visited@, depths@, n, current_depth).len() > 0) by {
            assert(visited@[n - 1] == order@[n - 1].0);
            assert(depths@[n - 1] == current_depth);
        }
        assert forall|v: u64, k: nat|
            k < depths@[n - 1] && #[trigger] reached(g, s, k, v) implies visited@.contains(NodeId(v)) by {
            let bound = (depths@[n - 1] - 1) as nat;
            if n < cap {
                lemma_complete(g, s, order@, n as int, max_depth as nat, max_depth, k, v);
            } else {
                reveal(capped_closed);
                assert forall|i: int| stop <= i < order@.len() implies (#[trigger] order@[i]).1 >= bound by {
                    assert(order@[n - 1].1 == depths@[n - 1]);
                }
                lemma_complete(g, s, order@, stop, bound, max_depth, k, v);
            }
            let i = choose|i: int| 0 <= i < ids(order@).len() && ids(order@)[i] == v;
            assert(visited@[i] == order@[i].0);
            assert(order@[i].0 == NodeId(v));
        }
        if n < cap {
            assert forall|v: u64, k: nat|
                k <= max_depth && #[trigger] reached(g, s, k, v) implies visited@.contains(NodeId(v)) by {
                lemma_complete(g, s, order@, n as int, max_depth as nat, max_depth, k, v);
                let i = choose|i: int| 0 <= i < ids(order@).len() && ids(order@)[i] == v;
                assert(visited@[i] == order@[i].0);
                assert(order@[i].0 == NodeId(v));
            }
        }
        assert forall|i: int|
            0 <= i < n implies #[trigger] depths@[i] <= max_depth && at_distance(g, s, visited@[i].0, depths@[i] as nat) by {
            assert(visited@[i] == order@[i].0);
        }
    }
    let r = BfsResult { visited, depths, levels, max_depth_reached: current_depth, edges_examined: edges };
    proof {
        lemma_run_done(g, starts@, max_depth, cap as nat, lists, order@, r);
    }
    r
}

/// Breadth-first search from a start node to depth `max_depth` (0 = the
/// start node only).
pub fn bfs(graph: &CsrGraph, start: NodeId, max_depth: u32) -> (r: BfsResult)
    requires
        graph.wf(),
    ensures
        bfs_outcome(graph@, seq![start], max_depth, usize::MAX as nat, r),
        graph@.delta_empty() ==> in_discovery_order(graph@, seq![start], max_depth, usize::MAX as nat, r),
        in_some_discovery_order(graph@, seq![start], max_depth, usize::MAX as nat, r),
{
    let starts = vec![start];
    proof {
        assert(starts@ =~= seq![start]);
    }
    bfs_bounded(graph, starts.as_slice(), max_depth, None)
}

/// Breadth-first search from several start nodes at once.
pub fn bfs_multi(graph: &CsrGraph, starts: &[NodeId], max_depth: u32) -> (r: BfsResult)
    requires
        graph.wf(),
    ensures
        bfs_outcome(graph@, starts@, max_depth, usize::MAX as nat, r),
        graph@.delta_empty() ==> in_discovery_order(graph@, starts@, max_depth, usize::MAX as nat, r),
        in_some_discovery_order(graph@, starts@, max_depth, usize::MAX as nat, r),
{
    bfs_bounded(graph, starts, max_depth, None)
}

/// Breadth-first search from several start nodes, admitting at most
/// `max_nodes` nodes (start nodes included).
pub fn bfs_bounded(graph: &CsrGraph, starts: &[NodeId], max_depth: u32, max_nodes: Option<usize>) -> (r:
    BfsResult)
    requires
        graph.wf(),
    ensures
        bfs_outcome(graph@, starts@, max_depth, cap_of(max_nodes), r),
        graph@.delta_empty() ==> in_discovery_order(graph@, starts@, max_depth, cap_of(max_nodes), r),
        in_some_discovery_order(graph@, starts@, max_depth, cap_of(max_nodes), r),
{
    let backend = select_backend();
    bfs_bounded_with_backend(graph, starts, max_depth, max_nodes, &*backend)
}

/// Reachability depends on the edges alone.
proof fn lemma_reached_same(g1: GraphView, g2: GraphView, s: Set<u64>, k: nat, v: u64)
    requires
        forall|x: u64, y: u64| #[trigger] g1.has_edge(x, y) == g2.has_edge(x, y),
    ensures
        reached(g1, s, k, v) == reached(g2, s, k, v),
    decreases k,
{
    if k > 0 {
        lemma_reached_same(g1, g2, s, (k - 1) as nat, v);
        if reached(g1, s, k, v) && !reached(g1, s, (k - 1) as nat, v) {
            let u = choose|u: u64| reached(g1, s, (k - 1) as nat, u) && #[trigger] g1.has_edge(u, v);
            lemma_reached_same(g1, g2, s, (k - 1) as nat, u);
            assert(g2.has_edge(u, v));
        }
        if reached(g2, s, k, v) && !reached(g2, s, (k - 1) as nat, v) {
            let u = choose|u: u64| reached(g2, s, (k - 1) as nat, u) && #[trigger] g2.has_edge(u, v);
            lemma_reached_same(g1, g2, s, (k - 1) as nat, u);
            assert(g1.has_edge(u, v));
        }
    }
}

proof fn lemma_distance_same(g1: GraphView, g2: GraphView, s: Set<u64>, v: u64, d: nat)
    requires
        forall|x: u64, y: u64| #[trigger] g1.has_edge(x, y) == g2.has_edge(x, y),
    ensures
        at_distance(g1, s, v, d) == at_distance(g2, s, v, d),
{
    lemma_reached_same(g1, g2, s, d, v);
    if d > 0 {
        lemma_reached_same(g1, g2, s, (d - 1) as nat, v);
    }
}

/// Breadth-first search sees a graph through its edges only: searched
/// without a cap from the same admitted start nodes to the same depth, two
/// graphs with the same edges give the same visited nodes, each at the same
/// depth, as many of them, and the same depth reached.
pub proof fn lemma_bfs_depends_on_edges(
    g1: GraphView,
    g2: GraphView,
    starts: Seq<NodeId>,
    max_depth: u32,
    a: BfsResult,
    b: BfsResult,
)
    requires
        forall|x: u64, y: u64| #[trigger] g1.has_edge(x, y) == g2.has_edge(x, y),
        admitted_starts(g1, starts, usize::MAX as nat) == admitted_starts(g2, starts, usize::MAX as nat),
        bfs_outcome(g1, starts, max_depth, usize::MAX as nat, a),
        bfs_outcome(g2, starts, max_depth, usize::MAX as nat, b),
        a.visited@.len() < usize::MAX,
        b.visited@.len() < usize::MAX,
    ensures
        forall|x: NodeId| a.visited@.contains(x) <==> b.visited@.contains(x),
        a.visited@.len() == b.visited@.len(),
        forall|i: int, j: int|
            0 <= i < a.visited@.len() && 0 <= j < b.visited@.len() && #[trigger] a.visited@[i]
                == #[trigger] b.visited@[j] ==> a.depths@[i] == b.depths@[j],
        a.max_depth_reached == b.max_depth_reached,
{
    let s = admitted_starts(g1, starts, usize::MAX as nat).to_set();
    let av = a.visited@;
    let ad = a.depths@;
    let bv = b.visited@;
    let bd = b.depths@;
    let n = av.len();
    let m = bv.len();
    assert forall|x: NodeId| av.contains(x) <==> bv.contains(x) by {
        if av.contains(x) {
            let i = choose|i: int| 0 <= i < n && av[i] == x;
            assert(at_distance(g1, s, av[i].0, ad[i] as nat));
            lemma_distance_same(g1, g2, s, x.0, ad[i] as nat);
            assert(reached(g2, s, ad[i] as nat, x.0));
            assert(x == NodeId(x.0));
        }
        if bv.contains(x) {
            let j = choose|j: int| 0 <= j < m && bv[j] == x;
            assert(at_distance(g2, s, bv[j].0, bd[j] as nat));
            lemma_distance_same(g1, g2, s, x.0, bd[j] as nat);
            assert(reached(g1, s, bd[j] as nat, x.0));
            assert(x == NodeId(x.0));
        }
    }
    assert forall|i: int, j: int|
        0 <= i < n && 0 <= j < m && #[trigger] av[i] == #[trigger] bv[j] implies ad[i] == bd[j] by {
        assert(at_distance(g1, s, av[i].0, ad[i] as nat));
        assert(at_distance(g2, s, bv[j].0, bd[j] as nat));
        lemma_distance_same(g1, g2, s, av[i].0, bd[j] as nat);
        lemma_distance_le(g1, s, av[i].0, ad[i] as nat, bd[j] as nat);
        lemma_distance_le(g1, s, av[i].0, bd[j] as nat, ad[i] as nat);
    }
    if n > 0 {
        assert(av.contains(av[n - 1]));
        let j0 = choose|j: int| 0 <= j < m && bv[j] == av[n - 1];
        assert(bv.contains(bv[m - 1]));
        let i0 = choose|i: int| 0 <= i < n && av[i] == bv[m - 1];
        assert(ad[n - 1] == bd[j0]);
        assert(bd[m - 1] == ad[i0]);
        assert(bd[j0] <= bd[m - 1]);
        assert(ad[i0] <= ad[n - 1]);
    } else if m > 0 {
        assert(bv.contains(bv[0]));
    }
    assert(av.to_set() =~= bv.to_set());
    av.unique_seq_to_set();
    bv.unique_seq_to_set();
}

/// The first `c` entries of `s`, or all of them when there are fewer.
pub open spec fn first_at_most<A>(s: Seq<A>, c: nat) -> Seq<A> {
    if s.len() <= c {
        s
    } else {
        s.take(c as int)
    }
}

proof fn lemma_offer_cap(q: Seq<(NodeId, u32)>, ns: Seq<u32>, d: u32, c: nat, u: nat)
    requires
        q.len() <= c <= u,
    ensures
        offer_all(q, ns, d, c) == first_at_most(offer_all(q, ns, d, u), c),
    decreases ns.len(),
{
    if ns.len() == 0 {
    } else {
        let dl = ns.drop_last();
        lemma_offer_cap(q, dl, d, c, u);
        let a = offer_all(q, dl, d, c);
        let b = offer_all(q, dl, d, u);
        let w = ns.last() as u64;
        let b2 = offer_all(q, ns, d, u);
        if a.len() < c {
            assert(a == b);
        } else {
            assert(b.len() >= c);
            assert(a == b.take(c as int));
            assert(b2.take(c as int) =~= b.take(c as int));
        }
    }
}

proof fn lemma_distinct_valid_len(g: GraphView, starts: Seq<NodeId>)
    ensures
        distinct_valid(g, starts).len() <= starts.len(),
    decreases starts.len(),
{
    if starts.len() > 0 {
        lemma_distinct_valid_len(g, starts.drop_last());
    }
}

/// The queue of a run capped at `c` is the first `c` entries of the queue
/// of an uncapped run, step by step.
proof fn lemma_queue_cap(g: GraphView, starts: Seq<NodeId>, max_depth: u32, c: nat, h: nat)
    requires
        c <= usize::MAX,
        starts.len() <= usize::MAX,
    ensures
        bfs_queue(g, starts, max_depth, c, h) == first_at_most(
            bfs_queue(g, starts, max_depth, usize::MAX as nat, h),
            c,
        ),
    decreases h,
{
    let u = usize::MAX as nat;
    if h == 0 {
        lemma_distinct_valid_len(g, starts);
        let d = distinct_valid(g, starts);
        assert(admitted_starts(g, starts, u) == d);
        assert(bfs_queue(g, starts, max_depth, c, 0) =~= first_at_most(bfs_queue(g, starts, max_depth, u, 0), c));
    } else {
        let k = (h - 1) as nat;
        lemma_queue_cap(g, starts, max_depth, c, k);
        let qc = bfs_queue(g, starts, max_depth, c, k);
        let qu = bfs_queue(g, starts, max_depth, u, k);
        if qc.len() < c {
            assert(qc == qu);
            if k < qc.len() && qc[k as int].1 < max_depth {
                lemma_offer_cap(qc, adjacency(g, qc[k as int].0.0), (qc[k as int].1 + 1) as u32, c, u);
            }
        } else {
            assert(qu.len() >= c);
            let qu2 = bfs_queue(g, starts, max_depth, u, h);
            if k < qu.len() && qu[k as int].1 < max_depth && qu.len() < u {
                lemma_offer_extends(qu, adjacency(g, qu[k as int].0.0), (qu[k as int].1 + 1) as u32, u);
            }
            assert(qu2.take(c as int) =~= qu.take(c as int));
        }
    }
}

/// Once the queue holds no entry past the `h` taken, it stops growing.
proof fn lemma_queue_stable(g: GraphView, starts: Seq<NodeId>, max_depth: u32, cap: nat, h: nat, h2: nat)
    requires
        bfs_queue(g, starts, max_depth, cap, h).len() == h,
        h <= h2,
    ensures
        bfs_queue(g, starts, max_depth, cap, h2) == bfs_queue(g, starts, max_depth, cap, h),
    decreases h2 - h,
{
    if h2 > h {
        lemma_queue_stable(g, starts, max_depth, cap, h, (h2 - 1) as nat);
    }
}

/// The queue only grows at its back.
proof fn lemma_queue_grows(g: GraphView, starts: Seq<NodeId>, max_depth: u32, cap: nat, h: nat, h2: nat)
    requires
        h <= h2,
    ensures
        bfs_queue(g, starts, max_depth, cap, h2).len() >= bfs_queue(g, starts, max_depth, cap, h).len(),
        forall|i: int|
            0 <= i < bfs_queue(g, starts, max_depth, cap, h).len() ==> #[trigger] bfs_queue(
                g,
                starts,
                max_depth,
                cap,
                h2,
            )[i] == bfs_queue(g, starts, max_depth, cap, h)[i],
    decreases h2 - h,
{
    if h2 > h {
        let k = (h2 - 1) as nat;
        lemma_queue_grows(g, starts, max_depth, cap, h, k);
        let q = bfs_queue(g, starts, max_depth, cap, k);
        if k < q.len() && q[k as int].1 < max_depth && q.len() < cap {
            lemma_offer_extends(q, adjacency(g, q[k as int].0.0), (q[k as int].1 + 1) as u32, cap);
        }
    }
}

/// On a graph with nothing pending, a run capped at `k` nodes keeps the
/// first `k` nodes of the uncapped run, with their depths (all of them when
/// there are fewer): the cap cuts the visiting order, it does not change it.
pub proof fn lemma_capped_run_is_prefix(
    g: GraphView,
    starts: Seq<NodeId>,
    max_depth: u32,
    k: usize,
    capped: BfsResult,
    full: BfsResult,
)
    requires
        g.delta_empty(),
        starts.len() <= usize::MAX,
        in_discovery_order(g, starts, max_depth, k as nat, capped),
        in_discovery_order(g, starts, max_depth, usize::MAX as nat, full),
    ensures
        capped.visited@ == first_at_most(full.visited@, k as nat),
        capped.depths@ == first_at_most(full.depths@, k as nat),
{
    let u = usize::MAX as nat;
    let c = k as nat;
    let nc = capped.visited@.len();
    let nu = full.visited@.len();
    lemma_queue_cap(g, starts, max_depth, c, nc);
    let qc = bfs_queue(g, starts, max_depth, c, nc);
    let qun = bfs_queue(g, starts, max_depth, u, nc);
    let qu = bfs_queue(g, starts, max_depth, u, nu);
    if qun.len() <= c {
        assert(qc == qun);
        if nu < nc {
            lemma_queue_stable(g, starts, max_depth, u, nu, nc);
            assert(false);
        }
        lemma_queue_stable(g, starts, max_depth, u, nc, nu);
        assert(nu == nc);
        assert(qu == qc);
        assert forall|i: int| 0 <= i < nc implies capped.visited@[i] == full.visited@[i] && capped.depths@[i]
            == full.depths@[i] by {
            assert(capped.visited@[i] == qc[i].0 && capped.depths@[i] == qc[i].1);
            assert(full.visited@[i] == qu[i].0 && full.depths@[i] == qu[i].1);
        }
        assert(capped.visited@ =~= full.visited@);
        assert(capped.depths@ =~= full.depths@);
    } else {
        assert(nc == c);
        if nu <= nc {
            lemma_queue_stable(g, starts, max_depth, u, nu, nc);
            assert(false);
        }
        lemma_queue_grows(g, starts, max_depth, u, nc, nu);
        assert(capped.visited@ =~= full.visited@.take(c as int)) by {
            assert forall|i: int| 0 <= i < c implies capped.visited@[i] == full.visited@[i] by {
                assert(qc[i] == qun[i]);
                assert(qu[i] == qun[i]);
            }
        }
        assert(capped.depths@ =~= full.depths@.take(c as int)) by {
            assert forall|i: int| 0 <= i < c implies capped.depths@[i] == full.depths@[i] by {
                assert(qc[i] == qun[i]);
                assert(qu[i] == qun[i]);
            }
        }
    }
}

/// Breadth-first search is deterministic where it follows the discovery
/// order of its FIFO queue (as every run on a graph with nothing pending
/// does): two such runs from the same start nodes to the same depth under
/// the same cap visit the same nodes in the same order at the same depths.
pub proof fn lemma_bfs_deterministic(
    g: GraphView,
    starts: Seq<NodeId>,
    max_depth: u32,
    cap: nat,
    a: BfsResult,
    b: BfsResult,
)
    requires
        in_discovery_order(g, starts, max_depth, cap, a),
        in_discovery_order(g, starts, max_depth, cap, b),
    ensures
        a.visited@ == b.visited@,
        a.depths@ == b.depths@,
{
    let na = a.visited@.len();
    let nb = b.visited@.len();
    if na < nb {
        lemma_queue_stable(g, starts, max_depth, cap, na, nb);
        assert(false);
    }
    if nb < na {
        lemma_queue_stable(g, starts, max_depth, cap, nb, na);
        assert(false);
    }
    let q = bfs_queue(g, starts, max_depth, cap, na);
    assert forall|i: int| 0 <= i < na implies a.visited@[i] == b.visited@[i] && a.depths@[i] == b.depths@[i] by {
        assert(a.visited@[i] == q[i].0 && b.visited@[i] == q[i].0);
    }
    assert(a.visited@ =~= b.visited@);
    assert(a.depths@ =~= b.depths@);
}

} // verus!
