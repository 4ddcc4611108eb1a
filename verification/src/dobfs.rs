//! Direction-optimizing BFS.
//!
//! Level-synchronous BFS that switches between two expansion strategies:
//! top-down scans the out-edges of the frontier; bottom-up scans the
//! in-edges (through the transposed graph) of every unvisited node and
//! stops at the first parent found in the frontier. It goes bottom-up when
//! the frontier's out-edge count exceeds the remaining unvisited edges
//! divided by `ALPHA` and the frontier holds at least `1 / BETA` of the
//! nodes.
//!
//! Within a bottom-up level nodes come in ascending ID order; level
//! membership and depths are those of `bfs`.

use vstd::prelude::*;

use crate::bfs::{
    admitted_starts, bfs, bfs_outcome, distinct_valid, in_some_discovery_order, lemma_reached_empty, BfsResult,
};
use crate::bitset::{bit_at, clear_bit, set_bit, test_bit};
use crate::compaction::reverses;
use crate::csr::{lemma_sat_sum, sat, CsrGraph, GraphView};
use crate::error::GraphError;
use crate::simd::{lemma_unvisited_contains, select_backend, unvisited, SimdBackend};
use crate::text::{decimal, u64_to_decimal};
use crate::traversal::{at_distance, lemma_distance_le, lemma_reached_mono, reached, with_depth};
use crate::types::NodeId;

verus! {

/// Go bottom-up when the frontier's out-edges exceed the unvisited edges
/// divided by this.
pub const ALPHA: usize = 14;

/// Stay top-down while the frontier holds fewer than the nodes divided by
/// this.
pub const BETA: usize = 24;

// ---------------------------------------------------------------------
// The levels of a graph without pending mutations
// ---------------------------------------------------------------------

/// The dense nodes marked in `words` below `n` are exactly those within
/// `d` steps of `s`.
pub open spec fn marks_reached(g: GraphView, s: Set<u64>, d: nat, words: Seq<u64>, n: nat) -> bool {
    forall|x: u32| (x as int) < n ==> (#[trigger] bit_at(words, x as int) <==> reached(g, s, d, x as u64))
}

/// `f` lists the nodes at distance `d` from `s`, each once.
pub open spec fn is_level(g: GraphView, s: Set<u64>, d: nat, f: Seq<u32>) -> bool {
    &&& f.no_duplicates()
    &&& forall|x: u32| #[trigger] f.contains(x) <==> at_distance(g, s, x as u64, d)
}

/// With nothing pending, every node reached from base nodes lies inside
/// the base layer.
proof fn lemma_reached_inside(g: GraphView, s: Set<u64>, d: nat, v: u64)
    requires
        g.wf(),
        g.delta_empty(),
        forall|x: u64| s.contains(x) ==> x < g.node_count,
        reached(g, s, d, v),
    ensures
        v < g.node_count,
    decreases d,
{
    if d > 0 {
        if reached(g, s, (d - 1) as nat, v) {
            lemma_reached_inside(g, s, (d - 1) as nat, v);
        } else {
            let u = choose|u: u64| reached(g, s, (d - 1) as nat, u) && #[trigger] g.has_edge(u, v);
            assert(!g.delta.ins.dom().contains((u, v)));
            assert(g.base[u as int].contains(v as u32));
            let j = choose|j: int| 0 <= j < g.base[u as int].len() && g.base[u as int][j] == v as u32;
            assert(g.base[u as int][j] < g.node_count);
        }
    }
}

/// The next level: the nodes not yet reached with an edge from the
/// current level.
proof fn lemma_next_level(g: GraphView, s: Set<u64>, d: nat, v: u64)
    ensures
        at_distance(g, s, v, d + 1) <==> (!reached(g, s, d, v) && exists|u: u64|
            at_distance(g, s, u, d) && #[trigger] g.has_edge(u, v)),
{
    if at_distance(g, s, v, d + 1) {
        let u = choose|u: u64| reached(g, s, d, u) && #[trigger] g.has_edge(u, v);
        if d > 0 && reached(g, s, (d - 1) as nat, u) {
            assert(reached(g, s, d, v));
        }
        assert(at_distance(g, s, u, d));
    }
}

// ---------------------------------------------------------------------
// One level
// ---------------------------------------------------------------------

/// `next` lists, each once, the nodes below `n` unmarked in `before` that
/// `step` relates to a frontier node; `after` marks what `before` marks
/// and `next`.
pub open spec fn level_step(
    before: Seq<u64>,
    after: Seq<u64>,
    next: Seq<u32>,
    n: nat,
    linked: spec_fn(u32) -> bool,
) -> bool {
    &&& after.len() == before.len()
    &&& next.no_duplicates()
    &&& forall|x: u32| #[trigger] next.contains(x) <==> ((x as int) < n && !bit_at(before, x as int) && linked(x))
    &&& forall|x: u32| (x as int) < n ==> (#[trigger] bit_at(after, x as int) <==> (bit_at(before, x as int) || next.contains(x)))
}

/// Some frontier node has an edge to `x` in `g`.
pub open spec fn out_linked(g: GraphView, frontier: Seq<u32>) -> spec_fn(u32) -> bool {
    |x: u32| exists|f: u32| frontier.contains(f) && #[trigger] g.has_edge(f as u64, x as u64)
}

/// `x` has an edge to some frontier node in `rg`.
pub open spec fn in_linked(rg: GraphView, frontier: Seq<u32>) -> spec_fn(u32) -> bool {
    |x: u32| exists|p: u32| frontier.contains(p) && #[trigger] rg.has_edge(x as u64, p as u64)
}

proof fn lemma_push_next(next0: Seq<u32>, m: u32)
    requires
        next0.no_duplicates(),
        !next0.contains(m),
    ensures
        next0.push(m).no_duplicates(),
        forall|x: u32| #[trigger] next0.push(m).contains(x) == (next0.contains(x) || x == m),
{
    let nx = next0.push(m);
    assert forall|x: u32| #[trigger] nx.contains(x) == (next0.contains(x) || x == m) by {
        lemma_push_u32(next0, m, x);
    }
    assert forall|i: int, j: int| 0 <= i < nx.len() && 0 <= j < nx.len() && i != j implies nx[i] != nx[j] by {
        if i < next0.len() && j < next0.len() {
            assert(nx[i] == next0[i] && nx[j] == next0[j]);
        } else if i < next0.len() {
            assert(next0.contains(nx[i]));
        } else if j < next0.len() {
            assert(next0.contains(nx[j]));
        }
    }
}

/// Offering the targets `ms`, in order, to the next level `next`: each one
/// joins unless it is marked or already listed.
pub open spec fn td_offer(next: Seq<u32>, marked: spec_fn(u32) -> bool, ms: Seq<u32>) -> Seq<u32>
    decreases ms.len(),
{
    if ms.len() == 0 {
        next
    } else {
        let p = td_offer(next, marked, ms.drop_last());
        let m = ms.last();
        if !marked(m) && !p.contains(m) {
            p.push(m)
        } else {
            p
        }
    }
}

/// The out-neighbors of dense node `f` in storage order.
pub open spec fn out_list(g: GraphView, f: u32) -> Seq<u32> {
    if (f as int) < g.node_count {
        g.base[f as int]
    } else {
        Seq::empty()
    }
}

/// The top-down next level after the first `a` frontier nodes: their
/// out-neighbors, frontier node by frontier node in storage order, each
/// unmarked one listed once, when first met.
pub open spec fn td_next(g: GraphView, marked: spec_fn(u32) -> bool, frontier: Seq<u32>, a: nat) -> Seq<u32>
    decreases a,
{
    if a == 0 {
        Seq::empty()
    } else {
        td_offer(td_next(g, marked, frontier, (a - 1) as nat), marked, out_list(g, frontier[a - 1]))
    }
}

/// The out-degrees of the first `a` frontier nodes, added up.
pub open spec fn deg_sum(g: GraphView, frontier: Seq<u32>, a: nat) -> nat
    decreases a,
{
    if a == 0 {
        0
    } else {
        deg_sum(g, frontier, (a - 1) as nat) + out_list(g, frontier[a - 1]).len()
    }
}

/// The bottom-up next level among the nodes below `u`: in ascending order,
/// each unmarked node with an in-edge from the frontier.
pub open spec fn bu_next(rg: GraphView, marked: spec_fn(u32) -> bool, frontier: Seq<u32>, u: nat) -> Seq<u32>
    decreases u,
{
    if u == 0 {
        Seq::empty()
    } else {
        let p = bu_next(rg, marked, frontier, (u - 1) as nat);
        let x = (u - 1) as u32;
        if !marked(x) && in_linked(rg, frontier)(x) {
            p.push(x)
        } else {
            p
        }
    }
}

/// In-edges looked at while searching `parents` for a frontier node: up to
/// and including the first one found, or all of them.
pub open spec fn scan_count(parents: Seq<u32>, frontier: Seq<u32>) -> nat
    decreases parents.len(),
{
    if parents.len() == 0 {
        0
    } else if frontier.contains(parents[0]) {
        1
    } else {
        1 + scan_count(parents.drop_first(), frontier)
    }
}

/// In-edges looked at by the bottom-up scan of the nodes below `u`.
pub open spec fn bu_edges(rg: GraphView, marked: spec_fn(u32) -> bool, frontier: Seq<u32>, u: nat) -> nat
    decreases u,
{
    if u == 0 {
        0
    } else {
        bu_edges(rg, marked, frontier, (u - 1) as nat) + if !marked((u - 1) as u32) {
            scan_count(out_list(rg, (u - 1) as u32), frontier)
        } else {
            0
        }
    }
}

proof fn lemma_td_offer_unvisited(next: Seq<u32>, marked: spec_fn(u32) -> bool, ms: Seq<u32>, words: Seq<u64>, n: nat)
    requires
        forall|i: int| 0 <= i < ms.len() ==> (#[trigger] ms[i] as int) < n,
        forall|x: u32|
            (x as int) < n ==> (crate::simd::is_unvisited(x, words) <==> (!marked(x) && !next.contains(x))),
    ensures
        td_offer(next, marked, ms) == td_offer(next, marked, unvisited(ms, words)),
    decreases ms.len(),
{
    if ms.len() > 0 {
        let p = ms.drop_last();
        let x = ms.last();
        assert(forall|i: int| 0 <= i < p.len() ==> p[i] == ms[i]);
        lemma_td_offer_unvisited(next, marked, p, words, n);
        assert(x == ms[ms.len() - 1]);
        if !crate::simd::is_unvisited(x, words) {
            if !marked(x) {
                lemma_td_offer_extends(next, marked, p);
                let q1 = td_offer(next, marked, p);
                let j = choose|j: int| 0 <= j < next.len() && next[j] == x;
                assert(q1[j] == x);
            }
        } else {
            let u = unvisited(ms, words);
            assert(u.drop_last() =~= unvisited(p, words));
            assert(u.last() == x);
        }
    }
}

proof fn lemma_td_offer_extends(next: Seq<u32>, marked: spec_fn(u32) -> bool, ms: Seq<u32>)
    ensures
        td_offer(next, marked, ms).len() >= next.len(),
        forall|i: int| 0 <= i < next.len() ==> #[trigger] td_offer(next, marked, ms)[i] == next[i],
    decreases ms.len(),
{
    if ms.len() > 0 {
        lemma_td_offer_extends(next, marked, ms.drop_last());
    }
}

/// Counting from the `j`-th parent on, while none of the first `j` is in
/// the frontier.
proof fn lemma_scan_count_prefix(parents: Seq<u32>, frontier: Seq<u32>, j: int)
    requires
        0 <= j <= parents.len(),
        forall|i: int| 0 <= i < j ==> !frontier.contains(#[trigger] parents[i]),
    ensures
        scan_count(parents, frontier) == j + scan_count(parents.skip(j), frontier),
    decreases j,
{
    if j == 0 {
        assert(parents.skip(0) =~= parents);
    } else {
        lemma_scan_count_prefix(parents, frontier, j - 1);
        let rest = parents.skip(j - 1);
        assert(rest[0] == parents[j - 1]);
        assert(rest.drop_first() =~= parents.skip(j));
    }
}

/// The node IDs of dense nodes.
pub open spec fn ids32(f: Seq<u32>) -> Seq<NodeId> {
    f.map_values(|x: u32| NodeId(x as u64))
}

/// Whether a node is listed in one of the levels `0..=k`.
pub open spec fn marked_upto(fronts: Seq<Seq<u32>>, k: int) -> spec_fn(u32) -> bool {
    |x: u32| exists|j: int| 0 <= j <= k && #[trigger] fronts[j].contains(x)
}

/// The out-edge count of the levels `0..=k`, as the traversal keeps it
/// (adding each level's saturated count, saturating).
pub open spec fn visited_out(g: GraphView, fronts: Seq<Seq<u32>>, k: int) -> nat
    decreases k + 1,
{
    if k < 0 {
        0
    } else {
        sat((visited_out(g, fronts, k - 1) + sat(deg_sum(g, fronts[k], fronts[k].len()) as int)) as int)
    }
}

/// Whether level `k` is expanded bottom-up: its out-edges exceed the
/// unvisited edges divided by `ALPHA` and it holds at least the nodes
/// divided by `BETA`.
pub open spec fn goes_bottom_up(g: GraphView, fronts: Seq<Seq<u32>>, k: int) -> bool {
    let fo = sat(deg_sum(g, fronts[k], fronts[k].len()) as int);
    let vo = visited_out(g, fronts, k);
    let unv: int = if g.edge_count >= vo {
        g.edge_count - vo
    } else {
        0
    };
    fo > unv / (ALPHA as int) && fronts[k].len() >= g.node_count / (BETA as nat)
}

/// The level after level `k`.
pub open spec fn level_after(g: GraphView, rg: GraphView, fronts: Seq<Seq<u32>>, k: int) -> Seq<u32> {
    if goes_bottom_up(g, fronts, k) {
        bu_next(rg, marked_upto(fronts, k), fronts[k], g.node_count)
    } else {
        td_next(g, marked_upto(fronts, k), fronts[k], fronts[k].len())
    }
}

/// The edges examined while computing the level after level `k`.
pub open spec fn edges_after(g: GraphView, rg: GraphView, fronts: Seq<Seq<u32>>, k: int) -> nat {
    if goes_bottom_up(g, fronts, k) {
        bu_edges(rg, marked_upto(fronts, k), fronts[k], g.node_count)
    } else {
        deg_sum(g, fronts[k], fronts[k].len())
    }
}

/// The edges examined while computing the levels after levels `0 .. k`.
pub open spec fn steps_edges(g: GraphView, rg: GraphView, fronts: Seq<Seq<u32>>, k: nat) -> nat
    decreases k,
{
    if k == 0 {
        0
    } else {
        steps_edges(g, rg, fronts, (k - 1) as nat) + edges_after(g, rg, fronts, k - 1)
    }
}

/// `levels` are the levels of the direction-optimizing traversal from
/// `start`, in the order it lists them: level zero is `start`, each next
/// level is `level_after` the one before (top-down in order of discovery,
/// bottom-up in ascending ID order), and they stop at `max_depth` or before
/// an empty level; `reached` is the last level's depth and `edges` the
/// edges examined on the way.
pub open spec fn do_levels(
    g: GraphView,
    rg: GraphView,
    start: NodeId,
    max_depth: u32,
    levels: Seq<Seq<NodeId>>,
    reached: u32,
    edges: usize,
) -> bool {
    exists|fronts: Seq<Seq<u32>>| #[trigger] do_fronts(g, rg, start, max_depth, levels, reached, edges, fronts)
}

/// `fronts`, the dense levels, witness `do_levels`.
pub open spec fn do_fronts(
    g: GraphView,
    rg: GraphView,
    start: NodeId,
    max_depth: u32,
    levels: Seq<Seq<NodeId>>,
    reached: u32,
    edges: usize,
    fronts: Seq<Seq<u32>>,
) -> bool {
    let k = fronts.len() - 1;
    &&& fronts.len() == levels.len()
    &&& fronts.len() >= 1
    &&& k == reached
    &&& fronts[0] == seq![start.0 as u32]
    &&& forall|j: int| 0 <= j < k ==> #[trigger] fronts[j + 1] == level_after(g, rg, fronts, j)
    &&& forall|j: int| 0 <= j <= k ==> #[trigger] levels[j] == ids32(fronts[j])
    &&& k == max_depth || (k < max_depth && level_after(g, rg, fronts, k).len() == 0)
    &&& edges == sat(
        (steps_edges(g, rg, fronts, k as nat) + if k < max_depth {
            edges_after(g, rg, fronts, k)
        } else {
            0
        }) as int,
    )
}

proof fn lemma_td_offer_congr(next: Seq<u32>, p1: spec_fn(u32) -> bool, p2: spec_fn(u32) -> bool, ms: Seq<u32>, n: nat)
    requires
        forall|i: int| 0 <= i < ms.len() ==> (#[trigger] ms[i] as int) < n,
        forall|x: u32| (x as int) < n ==> #[trigger] p1(x) == p2(x),
    ensures
        td_offer(next, p1, ms) == td_offer(next, p2, ms),
    decreases ms.len(),
{
    if ms.len() > 0 {
        let p = ms.drop_last();
        assert(forall|i: int| 0 <= i < p.len() ==> p[i] == ms[i]);
        lemma_td_offer_congr(next, p1, p2, p, n);
        assert(ms.last() == ms[ms.len() - 1]);
    }
}

proof fn lemma_td_next_congr(g: GraphView, p1: spec_fn(u32) -> bool, p2: spec_fn(u32) -> bool, frontier: Seq<u32>, a: nat)
    requires
        g.wf(),
        forall|x: u32| (x as int) < g.node_count ==> #[trigger] p1(x) == p2(x),
    ensures
        td_next(g, p1, frontier, a) == td_next(g, p2, frontier, a),
    decreases a,
{
    if a > 0 {
        lemma_td_next_congr(g, p1, p2, frontier, (a - 1) as nat);
        let ms = out_list(g, frontier[a - 1]);
        assert forall|i: int| 0 <= i < ms.len() implies (#[trigger] ms[i] as int) < g.node_count by {
            assert(g.base[frontier[a - 1] as int][i] == ms[i]);
        }
        lemma_td_offer_congr(td_next(g, p1, frontier, (a - 1) as nat), p1, p2, ms, g.node_count);
    }
}

proof fn lemma_bu_congr(rg: GraphView, p1: spec_fn(u32) -> bool, p2: spec_fn(u32) -> bool, frontier: Seq<u32>, u: nat)
    requires
        u <= u32::MAX as nat + 1,
        forall|x: u32| (x as int) < u ==> #[trigger] p1(x) == p2(x),
    ensures
        bu_next(rg, p1, frontier, u) == bu_next(rg, p2, frontier, u),
        bu_edges(rg, p1, frontier, u) == bu_edges(rg, p2, frontier, u),
    decreases u,
{
    if u > 0 {
        lemma_bu_congr(rg, p1, p2, frontier, (u - 1) as nat);
        let x = (u - 1) as u32;
        assert((x as int) == u - 1);
    }
}

/// Extending the levels past `k` changes nothing computed from levels
/// `0..=k`.
proof fn lemma_fronts_prefix(g: GraphView, rg: GraphView, a: Seq<Seq<u32>>, b: Seq<Seq<u32>>, k: int)
    requires
        0 <= k < a.len(),
        k < b.len(),
        forall|j: int| 0 <= j <= k ==> a[j] == b[j],
    ensures
        marked_upto(a, k) == marked_upto(b, k),
        visited_out(g, a, k) == visited_out(g, b, k),
        level_after(g, rg, a, k) == level_after(g, rg, b, k),
        edges_after(g, rg, a, k) == edges_after(g, rg, b, k),
    decreases k,
{
    assert(marked_upto(a, k) =~= marked_upto(b, k)) by {
        assert forall|x: u32| #[trigger] marked_upto(a, k)(x) == marked_upto(b, k)(x) by {
            if marked_upto(a, k)(x) {
                let j = choose|j: int| 0 <= j <= k && #[trigger] a[j].contains(x);
                assert(b[j].contains(x));
            }
            if marked_upto(b, k)(x) {
                let j = choose|j: int| 0 <= j <= k && #[trigger] b[j].contains(x);
                assert(a[j].contains(x));
            }
        }
    }
    if k > 0 {
        lemma_fronts_prefix(g, rg, a, b, k - 1);
    }
}

proof fn lemma_steps_prefix(g: GraphView, rg: GraphView, a: Seq<Seq<u32>>, b: Seq<Seq<u32>>, k: nat)
    requires
        k <= a.len(),
        k <= b.len(),
        forall|j: int| 0 <= j < k ==> a[j] == b[j],
    ensures
        steps_edges(g, rg, a, k) == steps_edges(g, rg, b, k),
    decreases k,
{
    if k > 0 {
        lemma_steps_prefix(g, rg, a, b, (k - 1) as nat);
        lemma_fronts_prefix(g, rg, a, b, k - 1);
    }
}

/// After listing levels `0 .. depth` and reaching frontier `frontier` (level
/// `depth`), with `bits` marking the listed nodes, `vo` the out-edges of
/// the earlier levels and `edges` the edges examined so far.
#[verifier::opaque]
spec fn do_state(
    g: GraphView,
    rg: GraphView,
    start: NodeId,
    fronts: Seq<Seq<u32>>,
    depth: nat,
    frontier: Seq<u32>,
    bits: Seq<u64>,
    vo: nat,
    edges: nat,
    levels: Seq<Seq<NodeId>>,
) -> bool {
    &&& fronts.len() == depth + 1
    &&& fronts[0] == seq![start.0 as u32]
    &&& fronts[depth as int] == frontier
    &&& forall|k: int| 0 <= k < depth ==> #[trigger] fronts[k + 1] == level_after(g, rg, fronts, k)
    &&& levels.len() == depth
    &&& forall|k: int| 0 <= k < depth ==> #[trigger] levels[k] == ids32(fronts[k])
    &&& forall|x: u32|
        (x as int) < g.node_count ==> (#[trigger] bit_at(bits, x as int) <==> marked_upto(fronts, depth as int)(x))
    &&& vo == visited_out(g, fronts, depth - 1)
    &&& edges == sat(steps_edges(g, rg, fronts, depth) as int)
}

proof fn lemma_do_init(g: GraphView, rg: GraphView, start: NodeId, bits: Seq<u64>)
    requires
        start.0 < g.node_count,
        g.node_count <= u32::MAX as nat + 1,
        forall|x: u32| (x as int) < g.node_count ==> (#[trigger] bit_at(bits, x as int) <==> x == start.0 as u32),
    ensures
        do_state(g, rg, start, seq![seq![start.0 as u32]], 0, seq![start.0 as u32], bits, 0, 0, Seq::empty()),
{
    reveal(do_state);
    let fronts = seq![seq![start.0 as u32]];
    assert forall|x: u32| (x as int) < g.node_count implies (#[trigger] bit_at(bits, x as int) <==> marked_upto(
        fronts,
        0,
    )(x)) by {
        let f0 = seq![start.0 as u32];
        assert(fronts[0] == f0);
        if x == start.0 as u32 {
            assert(f0[0] == x);
            assert(fronts[0].contains(x));
            assert(marked_upto(fronts, 0)(x));
        }
        if marked_upto(fronts, 0)(x) {
            let j = choose|j: int| 0 <= j <= 0 && #[trigger] fronts[j].contains(x);
            assert(j == 0);
            let i = choose|i: int| 0 <= i < f0.len() && f0[i] == x;
            assert(i == 0);
        }
    }
}

/// One level step: what the traversal computes from `frontier` is the
/// level after it, with its edges, and, when that level is not empty, the
/// state moves to it.
proof fn lemma_do_step(
    g: GraphView,
    rg: GraphView,
    start: NodeId,
    fronts: Seq<Seq<u32>>,
    depth: nat,
    frontier: Seq<u32>,
    bits: Seq<u64>,
    vo: nat,
    edges: nat,
    levels: Seq<Seq<NodeId>>,
    fo: nat,
    vo2: nat,
    bottom_up: bool,
    next: Seq<u32>,
    bits2: Seq<u64>,
    edges2: nat,
)
    requires
        do_state(g, rg, start, fronts, depth, frontier, bits, vo, edges, levels),
        g.wf(),
        g.node_count <= u32::MAX as nat + 1,
        fo == sat(deg_sum(g, frontier, frontier.len()) as int),
        vo2 == sat((vo + fo) as int),
        bottom_up == (fo > (if g.edge_count >= vo2 {
            g.edge_count - vo2
        } else {
            0
        }) / (ALPHA as int) && frontier.len() >= g.node_count / (BETA as nat)),
        bottom_up ==> next == bu_next(rg, |x: u32| bit_at(bits, x as int), frontier, g.node_count),
        bottom_up ==> edges2 == sat((edges + bu_edges(rg, |x: u32| bit_at(bits, x as int), frontier, g.node_count)) as int),
        !bottom_up ==> next == td_next(g, |x: u32| bit_at(bits, x as int), frontier, frontier.len()),
        !bottom_up ==> edges2 == sat((edges + deg_sum(g, frontier, frontier.len())) as int),
        forall|x: u32|
            (x as int) < g.node_count ==> (#[trigger] bit_at(bits2, x as int) <==> (bit_at(bits, x as int)
                || next.contains(x))),
    ensures
        next == level_after(g, rg, fronts, depth as int),
        edges2 == sat((steps_edges(g, rg, fronts, depth) + edges_after(g, rg, fronts, depth as int)) as int),
        next.len() > 0 ==> do_state(
            g,
            rg,
            start,
            fronts.push(next),
            depth + 1,
            next,
            bits2,
            vo2,
            edges2,
            levels.push(ids32(frontier)),
        ),
{
    reveal(do_state);
    let mk = marked_upto(fronts, depth as int);
    let pb = |x: u32| bit_at(bits, x as int);
    assert(visited_out(g, fronts, depth as int) == vo2);
    assert forall|x: u32| (x as int) < g.node_count implies #[trigger] pb(x) == mk(x) by {
    }
    if bottom_up {
        lemma_bu_congr(rg, pb, mk, frontier, g.node_count);
    } else {
        lemma_td_next_congr(g, pb, mk, frontier, frontier.len());
    }
    assert(goes_bottom_up(g, fronts, depth as int) == bottom_up);
    lemma_sat_sum(steps_edges(g, rg, fronts, depth) as int, edges_after(g, rg, fronts, depth as int) as int);
    if next.len() > 0 {
        let f2 = fronts.push(next);
        let d2 = depth + 1;
        assert forall|j: int| 0 <= j <= depth implies f2[j] == fronts[j] by {
        }
        assert forall|k: int| 0 <= k < d2 implies #[trigger] f2[k + 1] == level_after(g, rg, f2, k) by {
            lemma_fronts_prefix(g, rg, fronts, f2, k);
            if k < depth {
                assert(f2[k + 1] == fronts[k + 1]);
            }
        }
        let l2 = levels.push(ids32(frontier));
        assert forall|k: int| 0 <= k < d2 implies #[trigger] l2[k] == ids32(f2[k]) by {
            if k < depth {
                assert(l2[k] == levels[k]);
            }
        }
        lemma_fronts_prefix(g, rg, fronts, f2, depth as int);
        assert forall|x: u32| (x as int) < g.node_count implies (#[trigger] bit_at(bits2, x as int) <==> marked_upto(
            f2,
            d2 as int,
        )(x)) by {
            if marked_upto(f2, d2 as int)(x) {
                let j = choose|j: int| 0 <= j <= d2 && #[trigger] f2[j].contains(x);
                if j <= depth {
                    assert(fronts[j].contains(x));
                    assert(mk(x));
                }
            }
            if mk(x) {
                let j = choose|j: int| 0 <= j <= depth && #[trigger] fronts[j].contains(x);
                assert(f2[j].contains(x));
            }
            if next.contains(x) {
                assert(f2[d2 as int].contains(x));
            }
        }
        assert(visited_out(g, f2, depth as int) == visited_out(g, fronts, depth as int));
        lemma_steps_prefix(g, rg, fronts, f2, depth);
        assert(steps_edges(g, rg, f2, d2) == steps_edges(g, rg, fronts, depth) + edges_after(
            g,
            rg,
            f2,
            depth as int,
        ));
    }
}

/// The traversal stops at level `depth`: at `max_depth`, or with an empty
/// level after it.
proof fn lemma_do_finish(
    g: GraphView,
    rg: GraphView,
    start: NodeId,
    max_depth: u32,
    fronts: Seq<Seq<u32>>,
    depth: nat,
    frontier: Seq<u32>,
    bits: Seq<u64>,
    vo: nat,
    edges: nat,
    levels: Seq<Seq<NodeId>>,
    final_edges: usize,
)
    requires
        do_state(g, rg, start, fronts, depth, frontier, bits, vo, edges, levels),
        depth <= max_depth,
        depth == max_depth ==> final_edges == edges,
        depth < max_depth ==> level_after(g, rg, fronts, depth as int).len() == 0 && final_edges == sat(
            (steps_edges(g, rg, fronts, depth) + edges_after(g, rg, fronts, depth as int)) as int,
        ),
    ensures
        do_levels(g, rg, start, max_depth, levels.push(ids32(frontier)), depth as u32, final_edges),
{
    reveal(do_state);
    let l2 = levels.push(ids32(frontier));
    assert forall|j: int| 0 <= j <= depth implies #[trigger] l2[j] == ids32(fronts[j]) by {
        if j < depth {
            assert(l2[j] == levels[j]);
        }
    }
    assert(do_fronts(g, rg, start, max_depth, l2, depth as u32, final_edges, fronts));
}

/// Top-down: scans the out-edges of the frontier, marking and listing the
/// nodes not marked yet.
fn top_down_step(
    forward: &CsrGraph,
    backend: &dyn SimdBackend,
    frontier: &Vec<u32>,
    visited_bits: &mut Vec<u64>,
    next: &mut Vec<u32>,
    filtered: &mut Vec<u32>,
    edges: &mut usize,
)
    requires
        forward.wf(),
        forward@.delta_empty(),
        forall|x: u32| #[trigger] frontier@.contains(x) ==> (x as int) < forward@.node_count,
        old(visited_bits)@.len() * 64 >= forward@.node_count,
        old(next)@.len() == 0,
    ensures
        level_step(
            old(visited_bits)@,
            final(visited_bits)@,
            final(next)@,
            forward@.node_count,
            out_linked(forward@, frontier@),
        ),
        forall|x: u32| #[trigger] final(next)@.contains(x) ==> (x as int) < forward@.node_count,
        final(next)@ == td_next(
            forward@,
            |x: u32| bit_at(old(visited_bits)@, x as int),
            frontier@,
            frontier@.len(),
        ),
        *final(edges) == sat(*old(edges) + deg_sum(forward@, frontier@, frontier@.len())),
{
    let ghost g = forward@;
    let ghost n = g.node_count;
    let ghost init = visited_bits@;
    let ghost mk = |x: u32| bit_at(init, x as int);
    let ghost e_init = *edges;
    let ghost wlen = visited_bits@.len();
    let mut a: usize = 0;
    while a < frontier.len()
        invariant
            forward.wf(),
            g == forward@,
            n == g.node_count,
            g.delta_empty(),
            forall|x: u32| #[trigger] frontier@.contains(x) ==> (x as int) < n,
            visited_bits@.len() == wlen,
            init.len() == wlen,
            wlen * 64 >= n,
            a <= frontier@.len(),
            next@.no_duplicates(),
            forall|x: u32|
                (x as int) < n ==> (#[trigger] bit_at(visited_bits@, x as int) <==> (bit_at(init, x as int)
                    || next@.contains(x))),
            forall|x: u32|
                #[trigger] next@.contains(x) ==> (x as int) < n && !bit_at(init, x as int) && out_linked(
                    g,
                    frontier@,
                )(x),
            forall|b: int, x: u64|
                0 <= b < a && #[trigger] g.has_edge(frontier@[b] as u64, x) ==> (x < n && bit_at(
                    visited_bits@,
                    x as int,
                )),
            mk == (|x: u32| bit_at(init, x as int)),
            next@ == td_next(g, mk, frontier@, a as nat),
            *edges == sat(e_init + deg_sum(g, frontier@, a as nat)),
        decreases frontier@.len() - a,
    {
        let f = frontier[a];
        proof {
            assert(frontier@.contains(f)) by {
                assert(frontier@[a as int] == f);
            }
        }
        let slice = forward.base_neighbor_slice(NodeId(f as u64));
        proof {
            lemma_sat_sum(e_init + deg_sum(g, frontier@, a as nat), slice@.len() as int);
        }
        *edges = edges.saturating_add(slice.len());
        let ghost words0 = visited_bits@;
        let ghost na = next@;
        backend.filter_unvisited_into(slice, visited_bits.as_slice(), filtered);
        proof {
            assert(slice@ == g.base[f as int]);
            assert forall|x: u32| #[trigger] slice@.contains(x) implies (x as int) < n && g.has_edge(f as u64, x as u64) by {
                let j = choose|j: int| 0 <= j < slice@.len() && slice@[j] == x;
                assert(g.base[f as int][j] < n);
            }
        }
        let mut b: usize = 0;
        while b < filtered.len()
            invariant
                forward.wf(),
                g == forward@,
                n == g.node_count,
                g.delta_empty(),
                frontier@.contains(f),
                visited_bits@.len() == wlen,
                wlen * 64 >= n,
                b <= filtered@.len(),
                filtered@ == unvisited(slice@, words0),
                forall|x: u32| #[trigger] slice@.contains(x) ==> (x as int) < n && g.has_edge(f as u64, x as u64),
                forall|i: int| #[trigger] bit_at(words0, i) ==> bit_at(visited_bits@, i),
                next@.no_duplicates(),
                forall|x: u32|
                    (x as int) < n ==> (#[trigger] bit_at(visited_bits@, x as int) <==> (bit_at(init, x as int)
                        || next@.contains(x))),
                forall|x: u32|
                    #[trigger] next@.contains(x) ==> (x as int) < n && !bit_at(init, x as int) && out_linked(
                        g,
                        frontier@,
                    )(x),
                forall|j: int| 0 <= j < b ==> bit_at(visited_bits@, #[trigger] filtered@[j] as int),
                mk == (|x: u32| bit_at(init, x as int)),
                next@ == td_offer(na, mk, filtered@.take(b as int)),
            decreases filtered@.len() - b,
        {
            let m = filtered[b];
            proof {
                assert(filtered@.take(b + 1).drop_last() =~= filtered@.take(b as int));
                assert(filtered@.take(b + 1).last() == m);
                lemma_unvisited_contains(slice@, words0, m);
                assert(filtered@.contains(m)) by {
                    assert(filtered@[b as int] == m);
                }
                assert(slice@.contains(m));
            }
            if !test_bit(visited_bits.as_slice(), m) {
                let ghost next0 = next@;
                set_bit(visited_bits, m);
                next.push(m);
                proof {
                    lemma_push_next(next0, m);
                    assert(g.has_edge(f as u64, m as u64));
                    assert(out_linked(g, frontier@)(m));
                }
            }
            b = b + 1;
        }
        proof {
            assert(filtered@.take(b as int) =~= filtered@);
            assert(slice@ == out_list(g, f));
            assert forall|i: int| 0 <= i < slice@.len() implies (#[trigger] slice@[i] as int) < n by {
                assert(slice@.contains(slice@[i]));
            }
            assert forall|x: u32| (x as int) < n implies (crate::simd::is_unvisited(x, words0) <==> (!mk(x)
                && !na.contains(x))) by {
                assert((x as int) / 64 < words0.len()) by (nonlinear_arith)
                    requires
                        (x as int) < n,
                        words0.len() * 64 >= n,
                ;
            }
            lemma_td_offer_unvisited(na, mk, slice@, words0, n);
        }
        proof {
            assert forall|bb: int, x: u64|
                0 <= bb < a + 1 && #[trigger] g.has_edge(frontier@[bb] as u64, x) implies (x < n && bit_at(
                visited_bits@,
                x as int,
            )) by {
                if bb == a {
                    assert(frontier@[bb] == f);
                    assert(g.base_has(f as u64, x));
                    let xm = x as u32;
                    assert(xm as u64 == x);
                    assert(slice@.contains(xm));
                    lemma_unvisited_contains(slice@, words0, xm);
                    if crate::simd::is_unvisited(xm, words0) {
                        let j = choose|j: int| 0 <= j < filtered@.len() && filtered@[j] == xm;
                        assert(bit_at(visited_bits@, filtered@[j] as int));
                    } else {
                        assert(bit_at(words0, xm as int));
                    }
                }
            }
        }
        a = a + 1;
    }
    proof {
        assert forall|x: u32|
            #[trigger] next@.contains(x) <==> ((x as int) < n && !bit_at(init, x as int) && out_linked(g, frontier@)(
                x,
            )) by {
            if (x as int) < n && !bit_at(init, x as int) && out_linked(g, frontier@)(x) {
                let f = choose|f: u32| frontier@.contains(f) && #[trigger] g.has_edge(f as u64, x as u64);
                let bb = choose|bb: int| 0 <= bb < frontier@.len() && frontier@[bb] == f;
                assert(g.has_edge(frontier@[bb] as u64, x as u64));
            }
        }
    }
}

proof fn lemma_push_u32(s: Seq<u32>, x: u32, y: u32)
    ensures
        s.push(x).contains(y) <==> (s.contains(y) || x == y),
{
    if s.push(x).contains(y) {
        let j = choose|j: int| 0 <= j < s.push(x).len() && s.push(x)[j] == y;
        if j < s.len() {
            assert(s[j] == y);
        }
    }
    if s.contains(y) {
        let j = choose|j: int| 0 <= j < s.len() && s[j] == y;
        assert(s.push(x)[j] == y);
    }
    if x == y {
        assert(s.push(x)[s.len() as int] == y);
    }
}

/// Bottom-up: for every unmarked node, in ascending order, scans its
/// out-edges in `reverse` (its in-edges) for a parent in the frontier.
fn bottom_up_step(
    forward: &CsrGraph,
    reverse: &CsrGraph,
    frontier: &Vec<u32>,
    visited_bits: &mut Vec<u64>,
    frontier_bits: &mut Vec<u64>,
    next: &mut Vec<u32>,
    edges: &mut usize,
)
    requires
        reverse.wf(),
        reverse@.delta_empty(),
        reverse@.node_count == forward@.node_count,
        forall|x: u32| #[trigger] frontier@.contains(x) ==> (x as int) < forward@.node_count,
        old(visited_bits)@.len() * 64 >= forward@.node_count,
        old(frontier_bits)@.len() == old(visited_bits)@.len(),
        forall|i: int| !#[trigger] bit_at(old(frontier_bits)@, i),
        old(next)@.len() == 0,
    ensures
        level_step(
            old(visited_bits)@,
            final(visited_bits)@,
            final(next)@,
            forward@.node_count,
            in_linked(reverse@, frontier@),
        ),
        forall|x: u32| #[trigger] final(next)@.contains(x) ==> (x as int) < forward@.node_count,
        final(frontier_bits)@.len() == old(frontier_bits)@.len(),
        forall|i: int| !#[trigger] bit_at(final(frontier_bits)@, i),
        final(next)@ == bu_next(
            reverse@,
            |x: u32| bit_at(old(visited_bits)@, x as int),
            frontier@,
            forward@.node_count,
        ),
        *final(edges) == sat(
            *old(edges) + bu_edges(
                reverse@,
                |x: u32| bit_at(old(visited_bits)@, x as int),
                frontier@,
                forward@.node_count,
            ),
        ),
{
    let ghost rg = reverse@;
    let n = forward.node_count();
    let ghost wlen = visited_bits@.len();
    let ghost init = visited_bits@;
    let ghost mk = |x: u32| bit_at(init, x as int);
    let ghost e_init = *edges;
    // Mark the frontier.
    let mut a: usize = 0;
    while a < frontier.len()
        invariant
            forall|x: u32| #[trigger] frontier@.contains(x) ==> (x as int) < n,
            frontier_bits@.len() == wlen,
            wlen * 64 >= n,
            a <= frontier@.len(),
            forall|i: int|
                #[trigger] bit_at(frontier_bits@, i) <==> exists|b: int| 0 <= b < a && frontier@[b] as int == i,
        decreases frontier@.len() - a,
    {
        let f = frontier[a];
        proof {
            assert(frontier@.contains(f)) by {
                assert(frontier@[a as int] == f);
            }
        }
        let ghost fb0 = frontier_bits@;
        set_bit(frontier_bits, f);
        proof {
            assert forall|i: int|
                #[trigger] bit_at(frontier_bits@, i) <==> exists|b: int| 0 <= b < a + 1 && frontier@[b] as int == i by {
                if bit_at(frontier_bits@, i) && i != f as int {
                    assert(bit_at(fb0, i));
                    let b = choose|b: int| 0 <= b < a && frontier@[b] as int == i;
                }
                if exists|b: int| 0 <= b < a + 1 && frontier@[b] as int == i {
                    let b = choose|b: int| 0 <= b < a + 1 && frontier@[b] as int == i;
                    if b < a {
                        assert(bit_at(fb0, i));
                    }
                }
            }
        }
        a = a + 1;
    }
    proof {
        assert forall|x: u32| #[trigger] bit_at(frontier_bits@, x as int) <==> frontier@.contains(x) by {
            if bit_at(frontier_bits@, x as int) {
                let b = choose|b: int| 0 <= b < a && frontier@[b] as int == x as int;
                assert(frontier@[b] == x);
            }
            if frontier@.contains(x) {
                let b = choose|b: int| 0 <= b < frontier@.len() && frontier@[b] == x;
            }
        }
    }
    // Scan the unmarked nodes.
    let mut u: usize = 0;
    while u < n
        invariant
            reverse.wf(),
            rg == reverse@,
            rg.node_count == n,
            rg.delta_empty(),
            visited_bits@ == init,
            init.len() == wlen,
            frontier_bits@.len() == wlen,
            wlen * 64 >= n,
            forall|x: u32| #[trigger] bit_at(frontier_bits@, x as int) <==> frontier@.contains(x),
            u <= n,
            next@.no_duplicates(),
            forall|x: u32|
                #[trigger] next@.contains(x) <==> ((x as int) < u && !bit_at(init, x as int) && in_linked(
                    rg,
                    frontier@,
                )(x)),
            mk == (|x: u32| bit_at(init, x as int)),
            next@ == bu_next(rg, mk, frontier@, u as nat),
            *edges == sat(e_init + bu_edges(rg, mk, frontier@, u as nat)),
        decreases n - u,
    {
        let uu = u as u32;
        proof {
            assert(uu as int == u as int);
            assert((u as int) / 64 < wlen) by (nonlinear_arith)
                requires
                    u < n,
                    wlen * 64 >= n,
            ;
        }
        if !test_bit(visited_bits.as_slice(), uu) {
            let parents = reverse.base_neighbor_slice(NodeId(u as u64));
            let ghost e_u = *edges;
            let mut q: usize = 0;
            let mut found = false;
            while q < parents.len()
                invariant_except_break
                    !found,
                    *edges == sat(e_u + q),
                invariant
                    reverse.wf(),
                    rg == reverse@,
                    rg.node_count == n,
                    u < n,
                    frontier_bits@.len() == wlen,
                    wlen * 64 >= n,
                    parents@ == rg.base[u as int],
                    forall|x: u32| #[trigger] bit_at(frontier_bits@, x as int) <==> frontier@.contains(x),
                    q <= parents@.len(),
                    forall|j: int| 0 <= j < q ==> !frontier@.contains(#[trigger] parents@[j]),
                    e_u >= 0,
                ensures
                    found ==> *edges == sat(e_u + q + 1),
                    !found ==> *edges == sat(e_u + parents@.len()),
                    found ==> frontier@.contains(parents@[q as int]) && q < parents@.len(),
                    !found ==> forall|j: int| 0 <= j < parents@.len() ==> !frontier@.contains(#[trigger] parents@[j]),
                decreases parents@.len() - q,
            {
                proof {
                    lemma_sat_sum(e_u + q, 1);
                }
                *edges = edges.saturating_add(1);
                let p = parents[q];
                proof {
                    assert(rg.base[u as int][q as int] < n);
                }
                if test_bit(frontier_bits.as_slice(), p) {
                    found = true;
                    break;
                }
                q = q + 1;
            }
            proof {
                assert(parents@ == out_list(rg, uu));
                if found {
                    lemma_scan_count_prefix(parents@, frontier@, q as int);
                    assert(parents@.skip(q as int)[0] == parents@[q as int]);
                    lemma_sat_sum(e_init + bu_edges(rg, mk, frontier@, u as nat), (q + 1) as int);
                } else {
                    lemma_scan_count_prefix(parents@, frontier@, parents@.len() as int);
                    assert(parents@.skip(parents@.len() as int) =~= Seq::<u32>::empty());
                    lemma_sat_sum(e_init + bu_edges(rg, mk, frontier@, u as nat), parents@.len() as int);
                }
                assert(!mk(uu));
            }
            let ghost next0 = next@;
            if found {
                proof {
                    assert(!next0.contains(uu));
                    lemma_push_next(next0, uu);
                }
                next.push(uu);
            }
            proof {
                assert forall|x: u32|
                    #[trigger] next@.contains(x) <==> ((x as int) < u + 1 && !bit_at(init, x as int) && in_linked(
                        rg,
                        frontier@,
                    )(x)) by {
                    if x == uu {
                        if found {
                            let p = parents@[q as int];
                            assert(rg.base[u as int].contains(p));
                            assert(rg.has_edge(x as u64, p as u64));
                        } else if in_linked(rg, frontier@)(x) {
                            let p = choose|p: u32| frontier@.contains(p) && #[trigger] rg.has_edge(x as u64, p as u64);
                            assert(rg.base[u as int].contains(p));
                            let j = choose|j: int| 0 <= j < parents@.len() && parents@[j] == p;
                        }
                    }
                }
            }
            proof {
                let u1 = (u + 1) as nat;
                assert(((u1 - 1) as u32) == uu);
                assert(next@.contains(uu) <==> ((uu as int) < u + 1 && !bit_at(init, uu as int) && in_linked(
                    rg,
                    frontier@,
                )(uu)));
                if found {
                    assert(next@ == next0.push(uu));
                    assert(next@.contains(uu)) by {
                        assert(next@[next0.len() as int] == uu);
                    }
                } else {
                    assert(next@ == next0);
                    if in_linked(rg, frontier@)(uu) {
                        assert(next@.contains(uu));
                        assert(next0.contains(uu));
                    }
                }
            }
        } else {
            proof {
                assert forall|x: u32|
                    #[trigger] next@.contains(x) <==> ((x as int) < u + 1 && !bit_at(init, x as int) && in_linked(
                        rg,
                        frontier@,
                    )(x)) by {
                }
            }
        }
        u = u + 1;
    }
    // Mark the next level.
    let mut c: usize = 0;
    while c < next.len()
        invariant
            visited_bits@.len() == wlen,
            init.len() == wlen,
            wlen * 64 >= n,
            c <= next@.len(),
            forall|x: u32| #[trigger] next@.contains(x) ==> (x as int) < n,
            forall|x: u32|
                (x as int) < n ==> (#[trigger] bit_at(visited_bits@, x as int) <==> (bit_at(init, x as int)
                    || exists|j: int| 0 <= j < c && next@[j] == x)),
        decreases next@.len() - c,
    {
        let x = next[c];
        proof {
            assert(next@.contains(x)) by {
                assert(next@[c as int] == x);
            }
        }
        let ghost vb0 = visited_bits@;
        set_bit(visited_bits, x);
        proof {
            assert forall|y: u32|
                (y as int) < n implies (#[trigger] bit_at(visited_bits@, y as int) <==> (bit_at(init, y as int)
                    || exists|j: int| 0 <= j < c + 1 && next@[j] == y)) by {
                if y == x {
                    assert(next@[c as int] == y);
                }
                if exists|j: int| 0 <= j < c + 1 && next@[j] == y {
                    let j = choose|j: int| 0 <= j < c + 1 && next@[j] == y;
                    if j < c {
                        assert(bit_at(vb0, y as int));
                    }
                }
            }
        }
        c = c + 1;
    }
    // Clear the frontier marks.
    let mut e: usize = 0;
    while e < frontier.len()
        invariant
            forall|x: u32| #[trigger] frontier@.contains(x) ==> (x as int) < n,
            frontier_bits@.len() == wlen,
            wlen * 64 >= n,
            e <= frontier@.len(),
            forall|i: int|
                #[trigger] bit_at(frontier_bits@, i) ==> exists|b: int| e <= b < frontier@.len() && frontier@[b] as int == i,
        decreases frontier@.len() - e,
    {
        let f = frontier[e];
        proof {
            assert(frontier@.contains(f)) by {
                assert(frontier@[e as int] == f);
            }
        }
        let ghost fb0 = frontier_bits@;
        clear_bit(frontier_bits, f);
        proof {
            assert forall|i: int|
                #[trigger] bit_at(frontier_bits@, i) implies exists|b: int| e + 1 <= b < frontier@.len() && frontier@[b] as int == i by {
                assert(bit_at(fb0, i));
                let b = choose|b: int| e <= b < frontier@.len() && frontier@[b] as int == i;
                if b == e {
                    assert(i == f as int);
                }
            }
        }
        e = e + 1;
    }
    proof {
        assert forall|x: u32|
            (x as int) < n implies (#[trigger] bit_at(visited_bits@, x as int) <==> (bit_at(init, x as int)
                || next@.contains(x))) by {
            if exists|j: int| 0 <= j < next@.len() && next@[j] == x {
                let j = choose|j: int| 0 <= j < next@.len() && next@[j] == x;
                assert(next@.contains(x));
            }
            if next@.contains(x) {
                let j = choose|j: int| 0 <= j < next@.len() && next@[j] == x;
            }
        }
    }
}

// ---------------------------------------------------------------------
// The traversal
// ---------------------------------------------------------------------

/// With the reverse graph the transpose of the forward graph, both steps
/// advance from level `d` to level `d + 1`.
proof fn lemma_step_level(
    g: GraphView,
    rg: GraphView,
    s: Set<u64>,
    d: nat,
    frontier: Seq<u32>,
    before: Seq<u64>,
    after: Seq<u64>,
    next: Seq<u32>,
    bottom: bool,
)
    requires
        g.wf(),
        g.delta_empty(),
        reverses(g, rg),
        forall|x: u64| s.contains(x) ==> x < g.node_count,
        is_level(g, s, d, frontier),
        marks_reached(g, s, d, before, g.node_count),
        level_step(
            before,
            after,
            next,
            g.node_count,
            if bottom {
                in_linked(rg, frontier)
            } else {
                out_linked(g, frontier)
            },
        ),
    ensures
        is_level(g, s, d + 1, next),
        marks_reached(g, s, d + 1, after, g.node_count),
{
    let n = g.node_count;
    let linked = if bottom {
        in_linked(rg, frontier)
    } else {
        out_linked(g, frontier)
    };
    assert forall|x: u32| #[trigger] next.contains(x) <==> at_distance(g, s, x as u64, d + 1) by {
        lemma_next_level(g, s, d, x as u64);
        let lx = linked(x);
        let ex = exists|u: u64| at_distance(g, s, u, d) && #[trigger] g.has_edge(u, x as u64);
        if lx {
            let f = if bottom {
                choose|p: u32| frontier.contains(p) && #[trigger] rg.has_edge(x as u64, p as u64)
            } else {
                choose|f: u32| frontier.contains(f) && #[trigger] g.has_edge(f as u64, x as u64)
            };
            if bottom {
                assert(rg.has_edge(x as u64, f as u64));
            }
            assert(g.has_edge(f as u64, x as u64));
            assert(at_distance(g, s, f as u64, d));
        }
        if ex {
            let u = choose|u: u64| at_distance(g, s, u, d) && #[trigger] g.has_edge(u, x as u64);
            lemma_reached_inside(g, s, d, u);
            let f = u as u32;
            assert(f as u64 == u);
            assert(frontier.contains(f));
            if bottom {
                assert(rg.has_edge(x as u64, f as u64));
            } else {
                assert(g.has_edge(f as u64, x as u64));
            }
            assert(lx);
        }
        if at_distance(g, s, x as u64, d + 1) {
            lemma_reached_inside(g, s, d + 1, x as u64);
        }
    }
    assert forall|x: u32| (x as int) < n implies (#[trigger] bit_at(after, x as int) <==> reached(g, s, d + 1, x as u64)) by {
        lemma_next_level(g, s, d, x as u64);
        if reached(g, s, d, x as u64) {
            lemma_reached_mono(g, s, d, d + 1, x as u64);
        }
        assert(next.contains(x) <==> at_distance(g, s, x as u64, d + 1));
    }
}

/// The reason given when the reverse graph's counts differ from the
/// forward graph's.
pub open spec fn mismatch_reason(fnodes: nat, rnodes: nat, fedges: nat, redges: nat) -> Seq<char> {
    "reverse graph is not the transpose of forward: "@ + decimal(fnodes) + "/"@ + decimal(rnodes) + " nodes, "@
        + decimal(fedges) + "/"@ + decimal(redges) + " edges"@
}

/// `e` is an `InvalidTraversal` error with the given reason.
pub open spec fn invalid_traversal(e: GraphError, reason: Seq<char>) -> bool {
    match e {
        GraphError::InvalidTraversal { reason: r } => r@ == reason,
        _ => false,
    }
}

/// `r` holds the levels of `g` from `start` down to `max_depth`: each
/// level lists the nodes at its distance, each once, in the order the
/// traversal found them; the visited nodes are the levels one after the
/// other, with their depths; the last level is at `max_depth` or the one
/// after it is empty.
pub open spec fn levels_outcome(g: GraphView, start: NodeId, max_depth: u32, r: BfsResult) -> bool {
    let s = Set::<u64>::empty().insert(start.0);
    let vis = r.visited@;
    let dep = r.depths@;
    let n = vis.len();
    let lv = r.levels@;
    &&& dep.len() == n
    &&& r.max_depth_reached <= max_depth
    &&& lv.len() == r.max_depth_reached + 1
    &&& forall|i: int| 0 <= i < n ==> #[trigger] dep[i] <= r.max_depth_reached
    &&& forall|i: int, j: int| 0 <= i <= j < n ==> #[trigger] dep[i] <= #[trigger] dep[j]
    &&& forall|k: int| 0 <= k < lv.len() ==> (#[trigger] lv[k])@ == with_depth(vis, dep, n, k as u32)
    &&& forall|k: int|
        0 <= k < lv.len() ==> (#[trigger] lv[k])@.no_duplicates() && lv[k]@.len() > 0 && forall|x: NodeId|
            lv[k]@.contains(x) <==> at_distance(g, s, x.0, k as nat)
    &&& forall|i: int| 0 <= i < n ==> at_distance(g, s, (#[trigger] vis[i]).0, dep[i] as nat)
    &&& vis.no_duplicates()
    &&& r.max_depth_reached < max_depth ==> forall|v: u64|
        !#[trigger] at_distance(g, s, v, (r.max_depth_reached + 1) as nat)
}

/// `r` lists its levels one after the other: the visited nodes are the
/// levels in order, each at its level's depth, and the last level is at
/// the depth reached.
pub open spec fn levels_listed(r: BfsResult) -> bool {
    let n = r.visited@.len();
    &&& r.depths@.len() == n
    &&& r.levels@.len() == r.max_depth_reached + 1
    &&& forall|i: int| 0 <= i < n ==> #[trigger] r.depths@[i] <= r.max_depth_reached
    &&& forall|i: int, j: int| 0 <= i <= j < n ==> #[trigger] r.depths@[i] <= #[trigger] r.depths@[j]
    &&& forall|k: int| 0 <= k < r.levels@.len() ==> (#[trigger] r.levels@[k])@ == with_depth(
        r.visited@,
        r.depths@,
        n,
        k as u32,
    )
}

/// What `bfs_direction_optimized` answers for `forward` graph `f` and
/// `reverse` graph `rv`: an `InvalidTraversal` error when the node or edge
/// counts differ, or when `rv` has pending mutations; `bfs` when `f` has
/// pending mutations; otherwise nothing for a start node outside the graph
/// and, when `rv` holds exactly the reversed edges of `f`, the levels from
/// `start`.
pub open spec fn dobfs_outcome(
    f: GraphView,
    rv: GraphView,
    start: NodeId,
    max_depth: u32,
    r: Result<BfsResult, GraphError>,
) -> bool {
    let same_counts = f.node_count == rv.node_count && f.edge_count == rv.edge_count;
    &&& !same_counts ==> r is Err && invalid_traversal(
        r->Err_0,
        mismatch_reason(f.node_count, rv.node_count, f.edge_count, rv.edge_count),
    )
    &&& same_counts && !rv.delta_empty() ==> r is Err && invalid_traversal(
        r->Err_0,
        "reverse graph has delta mutations; rebuild the transpose"@,
    )
    &&& same_counts && rv.delta_empty() && !f.delta_empty() ==> r is Ok && bfs_outcome(
        f,
        seq![start],
        max_depth,
        usize::MAX as nat,
        r->Ok_0,
    ) && in_some_discovery_order(f, seq![start], max_depth, usize::MAX as nat, r->Ok_0)
    &&& same_counts && rv.delta_empty() && f.delta_empty() ==> r is Ok
    &&& same_counts && rv.delta_empty() && f.delta_empty() && start.0 >= f.node_count ==> {
        &&& r->Ok_0.visited@.len() == 0
        &&& r->Ok_0.depths@.len() == 0
        &&& r->Ok_0.levels@.len() == 0
        &&& r->Ok_0.max_depth_reached == 0
        &&& r->Ok_0.edges_examined == 0
    }
    &&& same_counts && rv.delta_empty() && f.delta_empty() && start.0 < f.node_count && reverses(f, rv)
        ==> levels_outcome(f, start, max_depth, r->Ok_0)
    &&& same_counts && rv.delta_empty() && f.delta_empty() && start.0 < f.node_count ==> levels_listed(r->Ok_0)
    &&& same_counts && rv.delta_empty() && f.delta_empty() && start.0 < f.node_count ==> do_levels(
        f,
        rv,
        start,
        max_depth,
        r->Ok_0.levels@.map_values(|l: Vec<NodeId>| l@),
        r->Ok_0.max_depth_reached,
        r->Ok_0.edges_examined,
    )
}

/// Direction-optimizing BFS over `forward` using its transpose `reverse`.
///
/// Fails with `InvalidTraversal` when the node or edge counts of the two
/// graphs differ, or when `reverse` has pending mutations. With pending
/// mutations on `forward`, runs `bfs`. Otherwise, when `reverse` holds
/// exactly the reversed edges of `forward`, returns the levels from
/// `start`; for a start node outside the graph, nothing.
pub fn bfs_direction_optimized(forward: &CsrGraph, reverse: &CsrGraph, start: NodeId, max_depth: u32) -> (r:
    Result<BfsResult, GraphError>)
    requires
        forward.wf(),
        reverse.wf(),
    ensures
        dobfs_outcome(forward@, reverse@, start, max_depth, r),
{
    if forward.node_count() != reverse.node_count() || forward.edge_count() != reverse.edge_count() {
        let mut reason = String::from_str("reverse graph is not the transpose of forward: ");
        reason.append(u64_to_decimal(forward.node_count() as u64).as_str());
        reason.append("/");
        reason.append(u64_to_decimal(reverse.node_count() as u64).as_str());
        reason.append(" nodes, ");
        reason.append(u64_to_decimal(forward.edge_count() as u64).as_str());
        reason.append("/");
        reason.append(u64_to_decimal(reverse.edge_count() as u64).as_str());
        reason.append(" edges");
        return Err(GraphError::InvalidTraversal { reason });
    }
    if !reverse.delta().is_empty() {
        return Err(
            GraphError::InvalidTraversal {
                reason: String::from_str("reverse graph has delta mutations; rebuild the transpose"),
            },
        );
    }
    if !forward.delta().is_empty() {
        return Ok(bfs(forward, start, max_depth));
    }
    if !forward.contains(start) {
        return Ok(BfsResult::empty());
    }
    let ghost g = forward@;
    let ghost rg = reverse@;
    let ghost tr = reverses(g, rg);
    let ghost s = Set::<u64>::empty().insert(start.0);
    let node_count = forward.node_count();
    let words_len = node_count / 64 + if node_count % 64 == 0 {
        0
    } else {
        1
    };
    let backend = select_backend();
    let mut visited_bits: Vec<u64> = vec![0u64; words_len];
    let mut frontier_bits: Vec<u64> = vec![0u64; words_len];
    proof {
        assert forall|i: int| !#[trigger] bit_at(visited_bits@, i) by {
            if 0 <= i && i / 64 < visited_bits@.len() {
                crate::bitset::lemma_zero_bit((i % 64) as u64);
            }
        }
        assert forall|i: int| !#[trigger] bit_at(frontier_bits@, i) by {
            if 0 <= i && i / 64 < frontier_bits@.len() {
                crate::bitset::lemma_zero_bit((i % 64) as u64);
            }
        }
    }
    let start_dense = start.0 as u32;
    set_bit(&mut visited_bits, start_dense);
    let mut frontier: Vec<u32> = vec![start_dense];
    let mut next: Vec<u32> = Vec::new();
    let mut filtered: Vec<u32> = Vec::new();
    let mut visited: Vec<NodeId> = Vec::new();
    let mut depths: Vec<u32> = Vec::new();
    let mut levels: Vec<Vec<NodeId>> = Vec::new();
    let mut edges_examined: usize = 0;
    let mut visited_out_edges: usize = 0;
    let mut depth: u32 = 0;
    proof {
        assert(frontier@ =~= seq![start_dense]);
        assert forall|x: u32| #[trigger] frontier@.contains(x) <==> at_distance(g, s, x as u64, 0) by {
            if frontier@.contains(x) {
                let j = choose|j: int| 0 <= j < frontier@.len() && frontier@[j] == x;
            }
            if at_distance(g, s, x as u64, 0) {
                assert(frontier@[0] == x);
            }
        }
        assert forall|x: u32|
            (x as int) < node_count implies (#[trigger] bit_at(visited_bits@, x as int) <==> reached(g, s, 0, x as u64)) by {
        }
        assert forall|x: u32|
            (x as int) < g.node_count implies (#[trigger] bit_at(visited_bits@, x as int) <==> x == start.0 as u32) by {
            assert(reached(g, s, 0, x as u64) <==> s.contains(x as u64));
        }
        lemma_do_init(g, rg, start, visited_bits@);
        assert(levels@.map_values(|l: Vec<NodeId>| l@) =~= Seq::<Seq<NodeId>>::empty());
    }
    let ghost mut fronts: Seq<Seq<u32>> = seq![seq![start.0 as u32]];
    loop
        invariant_except_break
            levels@.len() == depth,
            do_state(
                g,
                rg,
                start,
                fronts,
                depth as nat,
                frontier@,
                visited_bits@,
                visited_out_edges as nat,
                edges_examined as nat,
                levels@.map_values(|l: Vec<NodeId>| l@),
            ),
            forall|i: int| 0 <= i < depths@.len() ==> #[trigger] depths@[i] < depth,
            tr ==> is_level(g, s, depth as nat, frontier@),
            tr ==> marks_reached(g, s, depth as nat, visited_bits@, node_count as nat),
        invariant
            forward.wf(),
            reverse.wf(),
            g == forward@,
            rg == reverse@,
            tr == reverses(g, rg),
            s == Set::<u64>::empty().insert(start.0),
            start.0 < g.node_count,
            g.delta_empty(),
            rg.delta_empty(),
            rg.node_count == g.node_count,
            node_count == g.node_count,
            visited_bits@.len() == words_len,
            frontier_bits@.len() == words_len,
            words_len * 64 >= node_count,
            forall|i: int| !#[trigger] bit_at(frontier_bits@, i),
            forall|x: u32| #[trigger] frontier@.contains(x) ==> (x as int) < node_count,
            frontier@.len() > 0,
            depth <= max_depth,
            visited@.len() == depths@.len(),
            forall|i: int, j: int| 0 <= i <= j < depths@.len() ==> #[trigger] depths@[i] <= #[trigger] depths@[j],
            forall|k: int|
                0 <= k < levels@.len() ==> (#[trigger] levels@[k])@ == with_depth(
                    visited@,
                    depths@,
                    visited@.len(),
                    k as u32,
                ),
            tr ==> forall|k: int|
                0 <= k < levels@.len() ==> (#[trigger] levels@[k])@.no_duplicates() && levels@[k]@.len() > 0
                    && forall|x: NodeId| levels@[k]@.contains(x) <==> at_distance(g, s, x.0, k as nat),
            tr ==> forall|i: int| 0 <= i < visited@.len() ==> at_distance(g, s, (#[trigger] visited@[i]).0, depths@[i] as nat),
            tr ==> visited@.no_duplicates(),
        ensures
            levels@.len() == depth + 1,
            depth <= max_depth,
            visited@.len() == depths@.len(),
            forall|i: int| 0 <= i < depths@.len() ==> #[trigger] depths@[i] <= depth,
            forall|i: int, j: int| 0 <= i <= j < depths@.len() ==> #[trigger] depths@[i] <= #[trigger] depths@[j],
            forall|k: int|
                0 <= k < levels@.len() ==> (#[trigger] levels@[k])@ == with_depth(
                    visited@,
                    depths@,
                    visited@.len(),
                    k as u32,
                ),
            tr ==> forall|k: int|
                0 <= k < levels@.len() ==> (#[trigger] levels@[k])@.no_duplicates() && levels@[k]@.len() > 0
                    && forall|x: NodeId| levels@[k]@.contains(x) <==> at_distance(g, s, x.0, k as nat),
            tr ==> forall|i: int| 0 <= i < visited@.len() ==> at_distance(g, s, (#[trigger] visited@[i]).0, depths@[i] as nat),
            tr ==> visited@.no_duplicates(),
            tr && depth < max_depth ==> forall|v: u64| !#[trigger] at_distance(g, s, v, (depth + 1) as nat),
            do_levels(g, rg, start, max_depth, levels@.map_values(|l: Vec<NodeId>| l@), depth, edges_examined),
        decreases max_depth - depth,
    {
        // Record the current level.
        let ghost vis0 = visited@;
        let ghost dep0 = depths@;
        let mut level: Vec<NodeId> = Vec::new();
        let mut j: usize = 0;
        while j < frontier.len()
            invariant
                j <= frontier@.len(),
                visited@.len() == depths@.len(),
                visited@.len() == vis0.len() + j,
                forall|i: int| 0 <= i < vis0.len() ==> visited@[i] == vis0[i] && depths@[i] == dep0[i],
                forall|i: int| vis0.len() <= i < visited@.len() ==> #[trigger] depths@[i] == depth,
                forall|i: int| 0 <= i < j ==> #[trigger] level@[i] == NodeId(frontier@[i] as u64),
                level@.len() == j,
                forall|i: int| 0 <= i < j ==> visited@[vis0.len() + i] == NodeId(frontier@[i] as u64),
            decreases frontier@.len() - j,
        {
            let f = frontier[j];
            visited.push(NodeId(f as u64));
            depths.push(depth);
            level.push(NodeId(f as u64));
            j = j + 1;
        }
        proof {
            lemma_record_level(vis0, dep0, visited@, depths@, level@, frontier@, depth, levels@);
            if tr {
                assert forall|x: NodeId| level@.contains(x) <==> at_distance(g, s, x.0, depth as nat) by {
                    if level@.contains(x) {
                        let i = choose|i: int| 0 <= i < level@.len() && level@[i] == x;
                        assert(frontier@.contains(frontier@[i]));
                    }
                    if at_distance(g, s, x.0, depth as nat) {
                        lemma_reached_inside(g, s, depth as nat, x.0);
                        let f = x.0 as u32;
                        assert(f as u64 == x.0);
                        assert(frontier@.contains(f));
                        let i = choose|i: int| 0 <= i < frontier@.len() && frontier@[i] == f;
                        assert(level@[i] == x);
                    }
                }
                assert(level@.no_duplicates()) by {
                    assert forall|a: int, b: int| 0 <= a < level@.len() && 0 <= b < level@.len() && a != b implies level@[a]
                        != level@[b] by {
                        assert(frontier@[a] != frontier@[b]);
                    }
                }
                assert forall|i: int| 0 <= i < visited@.len() implies at_distance(g, s, (#[trigger] visited@[i]).0, depths@[i] as nat) by {
                    if i < vis0.len() {
                        assert(visited@[i] == vis0[i]);
                    } else {
                        let q = i - vis0.len();
                        assert(visited@[vis0.len() + q] == NodeId(frontier@[q] as u64));
                        assert(frontier@.contains(frontier@[q]));
                    }
                }
                assert(visited@.no_duplicates()) by {
                    assert forall|a: int, b: int| 0 <= a < visited@.len() && 0 <= b < visited@.len() && a != b implies visited@[a]
                        != visited@[b] by {
                        if a < vis0.len() && b < vis0.len() {
                            assert(visited@[a] == vis0[a] && visited@[b] == vis0[b]);
                        } else if a >= vis0.len() && b >= vis0.len() {
                            let qa = a - vis0.len();
                            let qb = b - vis0.len();
                            assert(visited@[vis0.len() + qa] == NodeId(frontier@[qa] as u64));
                            assert(visited@[vis0.len() + qb] == NodeId(frontier@[qb] as u64));
                            assert(frontier@[qa] != frontier@[qb]);
                        } else {
                            let (o, nw) = if a < vis0.len() { (a, b) } else { (b, a) };
                            let q = nw - vis0.len();
                            assert(visited@[vis0.len() + q] == NodeId(frontier@[q] as u64));
                            assert(frontier@.contains(frontier@[q]));
                            assert(visited@[o] == vis0[o]);
                            assert(at_distance(g, s, vis0[o].0, dep0[o] as nat));
                            assert(at_distance(g, s, frontier@[q] as u64, depth as nat));
                            if visited@[o] == visited@[nw] {
                                lemma_distance_le(g, s, vis0[o].0, dep0[o] as nat, dep0[o] as nat);
                                lemma_distance_le(g, s, vis0[o].0, depth as nat, dep0[o] as nat);
                            }
                        }
                    }
                }
            }
        }
        let ghost lv0 = levels@;
        let ghost lvv0 = levels@.map_values(|l: Vec<NodeId>| l@);
        let ghost fr = frontier@;
        let ghost vo0 = visited_out_edges;
        let ghost e0 = edges_examined;
        let ghost bits0 = visited_bits@;
        proof {
            assert(level@ =~= ids32(frontier@));
        }
        levels.push(level);
        proof {
            assert(levels@.map_values(|l: Vec<NodeId>| l@) =~= lvv0.push(ids32(fr)));
        }
        proof {
            assert forall|k: int| 0 <= k < levels@.len() implies (#[trigger] levels@[k])@ == with_depth(
                visited@,
                depths@,
                visited@.len(),
                k as u32,
            ) by {
                if k < lv0.len() {
                    assert(levels@[k] == lv0[k]);
                }
            }
        }
        if depth >= max_depth {
            proof {
                lemma_do_finish(
                    g,
                    rg,
                    start,
                    max_depth,
                    fronts,
                    depth as nat,
                    fr,
                    bits0,
                    vo0 as nat,
                    e0 as nat,
                    lvv0,
                    edges_examined,
                );
            }
            break;
        }
        // Heuristic inputs.
        let mut frontier_out_edges: usize = 0;
        let mut a: usize = 0;
        while a < frontier.len()
            invariant
                forward.wf(),
                g == forward@,
                a <= frontier@.len(),
                frontier_out_edges == sat(deg_sum(g, frontier@, a as nat) as int),
            decreases frontier@.len() - a,
        {
            let d = forward.base_neighbor_slice(NodeId(frontier[a] as u64)).len();
            proof {
                assert(d == out_list(g, frontier@[a as int]).len());
                lemma_sat_sum(deg_sum(g, frontier@, a as nat) as int, d as int);
            }
            frontier_out_edges = frontier_out_edges.saturating_add(d);
            a = a + 1;
        }
        visited_out_edges = visited_out_edges.saturating_add(frontier_out_edges);
        let unvisited_edges = forward.edge_count().saturating_sub(visited_out_edges);
        let bottom_up = frontier_out_edges > unvisited_edges / ALPHA && frontier.len() >= node_count / BETA;
        let ghost before = visited_bits@;
        next.clear();
        if bottom_up {
            bottom_up_step(
                forward,
                reverse,
                &frontier,
                &mut visited_bits,
                &mut frontier_bits,
                &mut next,
                &mut edges_examined,
            );
        } else {
            top_down_step(
                forward,
                &*backend,
                &frontier,
                &mut visited_bits,
                &mut next,
                &mut filtered,
                &mut edges_examined,
            );
        }
        proof {
            if tr {
                lemma_step_level(g, rg, s, depth as nat, frontier@, before, visited_bits@, next@, bottom_up);
            }
            lemma_do_step(
                g,
                rg,
                start,
                fronts,
                depth as nat,
                fr,
                bits0,
                vo0 as nat,
                e0 as nat,
                lvv0,
                frontier_out_edges as nat,
                visited_out_edges as nat,
                bottom_up,
                next@,
                visited_bits@,
                edges_examined as nat,
            );
        }
        if next.len() == 0 {
            proof {
                if tr {
                    assert forall|v: u64| !#[trigger] at_distance(g, s, v, (depth + 1) as nat) by {
                        if at_distance(g, s, v, (depth + 1) as nat) {
                            lemma_reached_inside(g, s, (depth + 1) as nat, v);
                            let x = v as u32;
                            assert(x as u64 == v);
                            assert(next@.contains(x));
                        }
                    }
                }
                lemma_do_finish(
                    g,
                    rg,
                    start,
                    max_depth,
                    fronts,
                    depth as nat,
                    fr,
                    bits0,
                    vo0 as nat,
                    e0 as nat,
                    lvv0,
                    edges_examined,
                );
            }
            break;
        }
        let ghost nx = next@;
        std::mem::swap(&mut frontier, &mut next);
        depth = depth + 1;
        proof {
            fronts = fronts.push(nx);
        }
    }
    proof {
        assert forall|i: int| 0 <= i < depths@.len() implies #[trigger] depths@[i] <= depth by {
        }
    }
    Ok(BfsResult { visited, depths, levels, max_depth_reached: depth, edges_examined })
}

/// Recording a level: the new entries, at `depth`, form the level, and the
/// earlier levels keep their entries.
proof fn lemma_record_level(
    vis0: Seq<NodeId>,
    dep0: Seq<u32>,
    vis: Seq<NodeId>,
    dep: Seq<u32>,
    level: Seq<NodeId>,
    frontier: Seq<u32>,
    depth: u32,
    levels: Seq<Vec<NodeId>>,
)
    requires
        vis0.len() == dep0.len(),
        vis.len() == dep.len(),
        vis.len() == vis0.len() + frontier.len(),
        level.len() == frontier.len(),
        forall|i: int| 0 <= i < vis0.len() ==> vis[i] == vis0[i] && dep[i] == dep0[i],
        forall|i: int| 0 <= i < dep0.len() ==> #[trigger] dep0[i] < depth,
        forall|i: int, j: int| 0 <= i <= j < dep0.len() ==> #[trigger] dep0[i] <= #[trigger] dep0[j],
        forall|i: int| vis0.len() <= i < vis.len() ==> #[trigger] dep[i] == depth,
        forall|i: int| 0 <= i < frontier.len() ==> #[trigger] level[i] == NodeId(frontier[i] as u64),
        forall|i: int| 0 <= i < frontier.len() ==> vis[vis0.len() + i] == NodeId(frontier[i] as u64),
        levels.len() == depth,
        forall|k: int| 0 <= k < levels.len() ==> (#[trigger] levels[k])@ == with_depth(vis0, dep0, vis0.len(), k as u32),
    ensures
        level == with_depth(vis, dep, vis.len(), depth),
        forall|k: int| 0 <= k < levels.len() ==> (#[trigger] levels[k])@ == with_depth(vis, dep, vis.len(), k as u32),
        forall|i: int| 0 <= i < dep.len() ==> #[trigger] dep[i] <= depth,
        forall|i: int, j: int| 0 <= i <= j < dep.len() ==> #[trigger] dep[i] <= #[trigger] dep[j],
{
    lemma_with_depth_extend(vis0, dep0, vis, dep, frontier, depth, level, frontier.len());
    assert forall|k: int| 0 <= k < levels.len() implies (#[trigger] levels[k])@ == with_depth(vis, dep, vis.len(), k as u32) by {
        lemma_with_depth_other(vis0, dep0, vis, dep, depth, k as u32, frontier.len());
    }
    assert forall|i: int, j: int| 0 <= i <= j < dep.len() implies #[trigger] dep[i] <= #[trigger] dep[j] by {
        if j < dep0.len() {
            assert(dep[i] == dep0[i] && dep[j] == dep0[j]);
        } else if i < dep0.len() {
            assert(dep[i] == dep0[i]);
        }
    }
    assert forall|i: int| 0 <= i < dep.len() implies #[trigger] dep[i] <= depth by {
        if i < dep0.len() {
            assert(dep[i] == dep0[i]);
        }
    }
}

/// The entries at `depth` among the first `vis0.len() + m` are the first
/// `m` new ones.
proof fn lemma_with_depth_extend(
    vis0: Seq<NodeId>,
    dep0: Seq<u32>,
    vis: Seq<NodeId>,
    dep: Seq<u32>,
    frontier: Seq<u32>,
    depth: u32,
    level: Seq<NodeId>,
    m: nat,
)
    requires
        vis0.len() == dep0.len(),
        vis.len() == dep.len(),
        vis.len() == vis0.len() + frontier.len(),
        level.len() == frontier.len(),
        m <= frontier.len(),
        forall|i: int| 0 <= i < vis0.len() ==> vis[i] == vis0[i] && dep[i] == dep0[i],
        forall|i: int| 0 <= i < dep0.len() ==> #[trigger] dep0[i] < depth,
        forall|i: int| vis0.len() <= i < vis.len() ==> #[trigger] dep[i] == depth,
        forall|i: int| 0 <= i < frontier.len() ==> #[trigger] level[i] == NodeId(frontier[i] as u64),
        forall|i: int| 0 <= i < frontier.len() ==> vis[vis0.len() + i] == NodeId(frontier[i] as u64),
    ensures
        with_depth(vis, dep, vis0.len() + m, depth) == level.take(m as int),
    decreases m,
{
    if m == 0 {
        crate::bfs::lemma_with_depth_none(vis, dep, vis0.len(), depth);
        assert(level.take(0) =~= Seq::<NodeId>::empty());
    } else {
        lemma_with_depth_extend(vis0, dep0, vis, dep, frontier, depth, level, (m - 1) as nat);
        assert(dep[vis0.len() + m - 1] == depth);
        assert(level.take(m as int) =~= level.take(m - 1).push(level[m - 1]));
    }
}

/// Entries at `depth` do not change the entries at another depth.
proof fn lemma_with_depth_other(
    vis0: Seq<NodeId>,
    dep0: Seq<u32>,
    vis: Seq<NodeId>,
    dep: Seq<u32>,
    depth: u32,
    k: u32,
    m: nat,
)
    requires
        vis0.len() == dep0.len(),
        vis.len() == dep.len(),
        vis.len() >= vis0.len() + m,
        k != depth,
        forall|i: int| 0 <= i < vis0.len() ==> vis[i] == vis0[i] && dep[i] == dep0[i],
        forall|i: int| vis0.len() <= i < vis.len() ==> #[trigger] dep[i] == depth,
    ensures
        with_depth(vis, dep, vis0.len() + m, k) == with_depth(vis0, dep0, vis0.len(), k),
    decreases m,
{
    if m == 0 {
        crate::bfs::lemma_with_depth_prefix(vis, dep, vis0, dep0, vis0.len(), k);
    } else {
        lemma_with_depth_other(vis0, dep0, vis, dep, depth, k, (m - 1) as nat);
        assert(dep[vis0.len() + m - 1] == depth);
    }
}

// ---------------------------------------------------------------------
// Agreement with the ordinary BFS
// ---------------------------------------------------------------------

proof fn lemma_distance_unique(g: GraphView, s: Set<u64>, v: u64, a: nat, b: nat)
    requires
        at_distance(g, s, v, a),
        at_distance(g, s, v, b),
    ensures
        a == b,
{
    lemma_distance_le(g, s, v, a, b);
    lemma_distance_le(g, s, v, b, a);
}

/// A node at distance `d` has nodes at every smaller distance.
proof fn lemma_distance_down(g: GraphView, s: Set<u64>, v: u64, d: nat, k: nat)
    requires
        at_distance(g, s, v, d),
        k <= d,
    ensures
        exists|u: u64| #[trigger] at_distance(g, s, u, k),
    decreases d - k,
{
    if k < d {
        lemma_next_level(g, s, (d - 1) as nat, v);
        let u = choose|u: u64| at_distance(g, s, u, (d - 1) as nat) && #[trigger] g.has_edge(u, v);
        lemma_distance_down(g, s, u, (d - 1) as nat, k);
    }
}

proof fn lemma_with_depth_contains(vis: Seq<NodeId>, dep: Seq<u32>, n: nat, k: u32, x: NodeId)
    requires
        n <= vis.len(),
        n <= dep.len(),
    ensures
        with_depth(vis, dep, n, k).contains(x) <==> exists|i: int| 0 <= i < n && vis[i] == x && dep[i] == k,
    decreases n,
{
    if n > 0 {
        lemma_with_depth_contains(vis, dep, (n - 1) as nat, k, x);
        let rest = with_depth(vis, dep, (n - 1) as nat, k);
        if dep[n - 1] == k {
            lemma_push_node(rest, vis[n - 1], x);
        }
        if exists|i: int| 0 <= i < n && vis[i] == x && dep[i] == k {
            let i = choose|i: int| 0 <= i < n && vis[i] == x && dep[i] == k;
            if i < n - 1 {
                assert(exists|j: int| 0 <= j < n - 1 && vis[j] == x && dep[j] == k);
            }
        }
    }
}

proof fn lemma_push_node(s: Seq<NodeId>, a: NodeId, x: NodeId)
    ensures
        s.push(a).contains(x) <==> (s.contains(x) || a == x),
{
    if s.push(a).contains(x) {
        let j = choose|j: int| 0 <= j < s.push(a).len() && s.push(a)[j] == x;
        if j < s.len() {
            assert(s[j] == x);
        }
    }
    if s.contains(x) {
        let j = choose|j: int| 0 <= j < s.len() && s[j] == x;
        assert(s.push(a)[j] == x);
    }
    if a == x {
        assert(s.push(a)[s.len() as int] == x);
    }
}

/// Where the reverse graph is the transpose of the forward graph, the
/// direction-optimizing traversal and `bfs` from the same start node agree:
/// the same depth reached, the same levels as sets, the same visited nodes
/// at the same depths.
pub proof fn lemma_levels_match_bfs(g: GraphView, start: NodeId, max_depth: u32, a: BfsResult, b: BfsResult)
    requires
        g.wf(),
        start.0 < g.node_count,
        bfs_outcome(g, seq![start], max_depth, usize::MAX as nat, a),
        a.visited@.len() < usize::MAX,
        levels_outcome(g, start, max_depth, b),
    ensures
        a.max_depth_reached == b.max_depth_reached,
        a.levels@.len() == b.levels@.len(),
        forall|k: int, x: NodeId|
            0 <= k < a.levels@.len() ==> (#[trigger] a.levels@[k]@.contains(x) <==> b.levels@[k]@.contains(x)),
        forall|x: NodeId| a.visited@.contains(x) <==> b.visited@.contains(x),
        a.visited@.len() == b.visited@.len(),
        forall|i: int, j: int|
            0 <= i < a.visited@.len() && 0 <= j < b.visited@.len() && #[trigger] a.visited@[i]
                == #[trigger] b.visited@[j] ==> a.depths@[i] == b.depths@[j],
{
    let s = Set::<u64>::empty().insert(start.0);
    let starts = seq![start];
    assert(starts.drop_last() =~= Seq::<NodeId>::empty());
    assert(distinct_valid(g, starts.drop_last()) == Seq::<u64>::empty());
    assert(starts.last() == start);
    assert(!Seq::<u64>::empty().contains(start.0));
    assert(distinct_valid(g, starts) =~= seq![start.0]);
    assert(admitted_starts(g, starts, usize::MAX as nat) == seq![start.0]);
    assert(seq![start.0].to_set() =~= s) by {
        assert forall|x: u64| seq![start.0].to_set().contains(x) <==> s.contains(x) by {
            if x == start.0 {
                assert(seq![start.0][0] == x);
            }
        }
    }
    let av = a.visited@;
    let ad = a.depths@;
    let bv = b.visited@;
    let bd = b.depths@;
    let n = av.len();
    let m = bv.len();
    let l = b.max_depth_reached;
    // Membership.
    assert forall|x: NodeId| av.contains(x) <==> (exists|d: nat| d <= max_depth && #[trigger] at_distance(g, s, x.0, d)) by {
        if av.contains(x) {
            let i = choose|i: int| 0 <= i < n && av[i] == x;
            assert(at_distance(g, s, av[i].0, ad[i] as nat));
        }
        if exists|d: nat| d <= max_depth && #[trigger] at_distance(g, s, x.0, d) {
            let d = choose|d: nat| d <= max_depth && #[trigger] at_distance(g, s, x.0, d);
            assert(reached(g, s, d, x.0));
            assert(x == NodeId(x.0));
        }
    }
    assert forall|x: NodeId| bv.contains(x) <==> (exists|d: nat| d <= l && #[trigger] at_distance(g, s, x.0, d)) by {
        if bv.contains(x) {
            let j = choose|j: int| 0 <= j < m && bv[j] == x;
            assert(at_distance(g, s, bv[j].0, bd[j] as nat));
            assert(bd[j] <= l);
        }
        if exists|d: nat| d <= l && #[trigger] at_distance(g, s, x.0, d) {
            let d = choose|d: nat| d <= l && #[trigger] at_distance(g, s, x.0, d);
            assert(b.levels@[d as int]@.contains(x));
            lemma_with_depth_contains(bv, bd, m, d as u32, x);
            let j = choose|j: int| 0 <= j < m && bv[j] == x && bd[j] == d as u32;
        }
    }
    // No node lies between the last level of `b` and `max_depth`.
    assert forall|x: NodeId| av.contains(x) <==> bv.contains(x) by {
        if av.contains(x) && l < max_depth {
            let d = choose|d: nat| d <= max_depth && #[trigger] at_distance(g, s, x.0, d);
            if d > l {
                lemma_distance_down(g, s, x.0, d, (l + 1) as nat);
                let u = choose|u: u64| #[trigger] at_distance(g, s, u, (l + 1) as nat);
                assert(!at_distance(g, s, u, (l + 1) as nat));
            }
        }
    }
    // Depths agree.
    assert forall|i: int, j: int|
        0 <= i < n && 0 <= j < m && #[trigger] av[i] == #[trigger] bv[j] implies ad[i] == bd[j] by {
        lemma_distance_unique(g, s, av[i].0, ad[i] as nat, bd[j] as nat);
    }
    // The depth reached.
    assert(n > 0);
    let da = ad[n - 1];
    assert(b.levels@[l as int]@.len() > 0);
    let x0 = b.levels@[l as int]@[0];
    assert(b.levels@[l as int]@.contains(x0));
    assert(at_distance(g, s, x0.0, l as nat));
    assert(bv.contains(x0));
    assert(av.contains(x0));
    let i0 = choose|i: int| 0 <= i < n && av[i] == x0;
    lemma_distance_unique(g, s, x0.0, ad[i0] as nat, l as nat);
    assert(ad[i0] <= ad[n - 1]);
    assert(av.contains(av[n - 1]));
    assert(bv.contains(av[n - 1]));
    let j0 = choose|j: int| 0 <= j < m && bv[j] == av[n - 1];
    assert(ad[n - 1] == bd[j0]);
    assert(bd[j0] <= l);
    // Levels as sets.
    assert forall|k: int, x: NodeId|
        0 <= k < a.levels@.len() implies (#[trigger] a.levels@[k]@.contains(x) <==> b.levels@[k]@.contains(x)) by {
        lemma_with_depth_contains(av, ad, n, k as u32, x);
        if a.levels@[k]@.contains(x) {
            let i = choose|i: int| 0 <= i < n && av[i] == x && ad[i] == k as u32;
            assert(at_distance(g, s, av[i].0, ad[i] as nat));
        }
        if b.levels@[k]@.contains(x) {
            assert(at_distance(g, s, x.0, k as nat));
            assert(bv.contains(x));
            assert(av.contains(x));
            let i = choose|i: int| 0 <= i < n && av[i] == x;
            lemma_distance_unique(g, s, x.0, ad[i] as nat, k as nat);
        }
    }
    // Visited counts.
    assert(av.to_set() =~= bv.to_set());
    av.unique_seq_to_set();
    bv.unique_seq_to_set();
}

/// For a graph with nothing pending and its transpose (the reversed edges,
/// as many nodes and edges, nothing pending), the direction-optimizing
/// traversal succeeds and agrees with `bfs` from the same start node: the
/// same depth reached, the same levels as sets, the same visited nodes, as
/// many of them, at the same depths.
pub proof fn lemma_direction_optimized_agrees(
    forward: GraphView,
    reverse: GraphView,
    start: NodeId,
    max_depth: u32,
    r: Result<BfsResult, GraphError>,
    b: BfsResult,
)
    requires
        forward.wf(),
        reverse.wf(),
        forward.delta_empty(),
        reverse.delta_empty(),
        reverses(forward, reverse),
        forward.node_count == reverse.node_count,
        forward.edge_count == reverse.edge_count,
        dobfs_outcome(forward, reverse, start, max_depth, r),
        bfs_outcome(forward, seq![start], max_depth, usize::MAX as nat, b),
        b.visited@.len() < usize::MAX,
    ensures
        r is Ok,
        b.max_depth_reached == r->Ok_0.max_depth_reached,
        b.levels@.len() == r->Ok_0.levels@.len(),
        forall|k: int, x: NodeId|
            0 <= k < b.levels@.len() ==> (#[trigger] b.levels@[k]@.contains(x) <==> r->Ok_0.levels@[k]@.contains(
                x,
            )),
        forall|x: NodeId| b.visited@.contains(x) <==> r->Ok_0.visited@.contains(x),
        b.visited@.len() == r->Ok_0.visited@.len(),
        forall|i: int, j: int|
            0 <= i < b.visited@.len() && 0 <= j < r->Ok_0.visited@.len() && #[trigger] b.visited@[i]
                == #[trigger] r->Ok_0.visited@[j] ==> b.depths@[i] == r->Ok_0.depths@[j],
{
    let a = r->Ok_0;
    if start.0 < forward.node_count {
        lemma_levels_match_bfs(forward, start, max_depth, b, a);
    } else {
        let starts = seq![start];
        assert(starts.drop_last() =~= Seq::<NodeId>::empty());
        assert(distinct_valid(forward, starts.drop_last()) == Seq::<u64>::empty());
        assert(starts.last() == start);
        assert(distinct_valid(forward, starts) =~= Seq::<u64>::empty());
        assert(admitted_starts(forward, starts, usize::MAX as nat).to_set() =~= Set::<u64>::empty());
        if b.visited@.len() > 0 {
            let v = b.visited@[0].0;
            let d = b.depths@[0] as nat;
            lemma_reached_empty(forward, d, v);
            assert(false);
        }
        assert(a.visited@.len() == 0);
    }
}

} // verus!
