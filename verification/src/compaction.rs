//! Materialising the delta layer: compaction into a fresh base layer and
//! the transposed graph.
//!
//! Both operations collect the merged edge list of a graph (the live base
//! edges in storage order, then the pending insertions that the base layer
//! does not already hold) and hand it to `CsrBuilder`. The pending
//! insertions come out of a concurrent map in no fixed order, so the
//! contracts speak of some ordering `d` of them.

use vstd::prelude::*;

use crate::csr::{
    all_valid, build_result, built_graph, default_build_config, lemma_max_endpoint_bound,
    lemma_sources_below_max, max_endpoint, out_of, valid_edge, weights_of, CsrBuildConfig, CsrBuilder,
    CsrGraph, GraphView, DEFAULT_SHARD_SIZE, UNIT_WEIGHT_BITS,
};
use crate::delta::{no_insertions, no_keys, DeltaView};
use crate::error::GraphError;
use crate::types::{EdgeData, NodeId};

verus! {

// ---------------------------------------------------------------------
// The merged edge list
// ---------------------------------------------------------------------

/// The edges `(u, t)` for the targets `t` of `l` that carry no tombstone,
/// in order.
pub open spec fn kept_edges(u: u64, l: Seq<u32>, del: Set<(u64, u64)>) -> Seq<(u64, u64)>
    decreases l.len(),
{
    if l.len() == 0 {
        Seq::empty()
    } else {
        let rest = kept_edges(u, l.drop_last(), del);
        if del.contains((u, l.last() as u64)) {
            rest
        } else {
            rest.push((u, l.last() as u64))
        }
    }
}

/// The weights of the edges that `kept_edges(u, l, del)` keeps, where `w`
/// parallels `l`.
pub open spec fn kept_weights(u: u64, l: Seq<u32>, w: Seq<u32>, del: Set<(u64, u64)>) -> Seq<u32>
    decreases l.len(),
{
    if l.len() == 0 {
        Seq::empty()
    } else {
        let rest = kept_weights(u, l.drop_last(), w.drop_last(), del);
        if del.contains((u, l.last() as u64)) {
            rest
        } else {
            rest.push(w.last())
        }
    }
}

/// The live base-layer edges of the first `k` nodes, in storage order.
pub open spec fn live_base_edges(g: GraphView, k: nat) -> Seq<(u64, u64)>
    decreases k,
{
    if k == 0 {
        Seq::empty()
    } else {
        live_base_edges(g, (k - 1) as nat) + kept_edges((k - 1) as u64, g.base[k - 1], g.delta.del)
    }
}

/// The weights of `live_base_edges(g, k)` in a weighted graph.
pub open spec fn live_base_weights(g: GraphView, k: nat) -> Seq<u32>
    decreases k,
{
    if k == 0 {
        Seq::empty()
    } else {
        live_base_weights(g, (k - 1) as nat) + kept_weights(
            (k - 1) as u64,
            g.base[k - 1],
            g.weights->0[k - 1],
            g.delta.del,
        )
    }
}

/// Pending insertions that the base layer does not already hold.
pub open spec fn fresh_insertions(g: GraphView) -> Set<(u64, u64)> {
    Set::new(|e: (u64, u64)| g.delta.ins.dom().contains(e) && !g.base_has(e.0, e.1))
}

/// `d` lists each fresh insertion of `g` once.
pub open spec fn lists_fresh(g: GraphView, d: Seq<(u64, u64)>) -> bool {
    &&& d.no_duplicates()
    &&& forall|e: (u64, u64)| d.contains(e) <==> fresh_insertions(g).contains(e)
}

/// The weight (as `f32` bits) that an insertion carries into a weighted
/// base layer: its own, or one.
pub open spec fn insertion_weight(data: EdgeData) -> u32 {
    match data.weight {
        Some(w) => w,
        None => UNIT_WEIGHT_BITS,
    }
}

/// The merged edge list of `g`, with its fresh insertions in the order `d`.
pub open spec fn merged_edges(g: GraphView, d: Seq<(u64, u64)>) -> Seq<(u64, u64)> {
    live_base_edges(g, g.node_count) + d
}

/// The weights of `merged_edges(g, d)` in a weighted graph.
pub open spec fn merged_weights(g: GraphView, d: Seq<(u64, u64)>) -> Seq<u32> {
    live_base_weights(g, g.node_count) + d.map_values(|e: (u64, u64)| insertion_weight(g.delta.ins[e]))
}

/// What `compact` builds from `g`: the merged edge list (live base edges,
/// then each fresh insertion once, in some order) with, for a weighted
/// graph, the merged weights.
pub open spec fn compact_outcome(g: GraphView, r: Result<CsrGraph, GraphError>) -> bool {
    exists|d: Seq<(u64, u64)>|
        lists_fresh(g, d) && build_result(
            merged_edges(g, d),
            if g.weights is Some {
                merged_weights(g, d)
            } else {
                Seq::<u32>::empty()
            },
            compact_config(g.weights is Some),
            r,
        )
}

/// Every edge of `e` reversed.
pub open spec fn reversed(e: Seq<(u64, u64)>) -> Seq<(u64, u64)> {
    e.map_values(|p: (u64, u64)| (p.1, p.0))
}

/// The build configuration of a compaction.
pub open spec fn compact_config(weighted: bool) -> CsrBuildConfig {
    CsrBuildConfig { shard_size: DEFAULT_SHARD_SIZE, include_weights: weighted }
}

/// `g` with an empty delta layer.
pub open spec fn without_delta(g: GraphView) -> GraphView {
    GraphView { delta: DeltaView { ins: no_insertions(), del: no_keys() }, ..g }
}

/// `b` holds exactly the edges of `a`.
pub open spec fn same_edges(a: GraphView, b: GraphView) -> bool {
    forall|x: u64, y: u64| #[trigger] b.has_edge(x, y) <==> a.has_edge(x, y)
}

/// `b` holds exactly the reversed edges of `a`.
pub open spec fn reverses(a: GraphView, b: GraphView) -> bool {
    forall|x: u64, y: u64| #[trigger] b.has_edge(x, y) <==> a.has_edge(y, x)
}

/// Number of edges of the merged view of `g`: its live base edges and its
/// fresh insertions.
pub open spec fn merged_count(g: GraphView) -> nat {
    live_base_edges(g, g.node_count).len() + fresh_insertions(g).len()
}

// ---------------------------------------------------------------------
// Lemmas
// ---------------------------------------------------------------------

proof fn lemma_push_contains<A>(s: Seq<A>, x: A, y: A)
    ensures
        s.push(x).contains(y) <==> (s.contains(y) || x == y),
{
    if s.push(x).contains(y) {
        let j = choose|j: int| 0 <= j < s.push(x).len() && s.push(x)[j] == y;
        if j < s.len() {
            assert(s[j] == y);
        }
    }
    if s.contains(y) {
        let j = choose|j: int| 0 <= j < s.len() && s[j] == y;
        assert(s.push(x)[j] == y);
    }
    if x == y {
        assert(s.push(x)[s.len() as int] == y);
    }
}

proof fn lemma_concat_contains<A>(s: Seq<A>, t: Seq<A>, y: A)
    ensures
        (s + t).contains(y) <==> (s.contains(y) || t.contains(y)),
{
    if (s + t).contains(y) {
        let j = choose|j: int| 0 <= j < (s + t).len() && (s + t)[j] == y;
        if j < s.len() {
            assert(s[j] == y);
        } else {
            assert(t[j - s.len()] == y);
        }
    }
    if s.contains(y) {
        let j = choose|j: int| 0 <= j < s.len() && s[j] == y;
        assert((s + t)[j] == y);
    }
    if t.contains(y) {
        let j = choose|j: int| 0 <= j < t.len() && t[j] == y;
        assert((s + t)[s.len() + j] == y);
    }
}

proof fn lemma_drop_last_contains(l: Seq<u32>, x: u32)
    requires
        l.len() > 0,
    ensures
        l.contains(x) <==> (l.drop_last().contains(x) || l.last() == x),
{
    assert(l == l.drop_last().push(l.last()));
    lemma_push_contains(l.drop_last(), l.last(), x);
}

proof fn lemma_kept_edges(u: u64, l: Seq<u32>, del: Set<(u64, u64)>, a: u64, b: u64)
    ensures
        kept_edges(u, l, del).contains((a, b)) <==> (a == u && b <= u32::MAX && l.contains(b as u32)
            && !del.contains((u, b))),
    decreases l.len(),
{
    if l.len() > 0 {
        let p = l.drop_last();
        let last = l.last();
        lemma_kept_edges(u, p, del, a, b);
        lemma_drop_last_contains(l, b as u32);
        if b <= u32::MAX && (b as u32) == last {
            assert(b == last as u64);
        }
        if !del.contains((u, last as u64)) {
            lemma_push_contains(kept_edges(u, p, del), (u, last as u64), (a, b));
        }
    }
}

proof fn lemma_kept_lengths(u: u64, l: Seq<u32>, w: Seq<u32>, del: Set<(u64, u64)>)
    requires
        w.len() == l.len(),
    ensures
        kept_weights(u, l, w, del).len() == kept_edges(u, l, del).len(),
    decreases l.len(),
{
    if l.len() > 0 {
        lemma_kept_lengths(u, l.drop_last(), w.drop_last(), del);
    }
}

proof fn lemma_kept_valid(u: u64, l: Seq<u32>, del: Set<(u64, u64)>)
    requires
        u <= u32::MAX,
    ensures
        all_valid(kept_edges(u, l, del)),
    decreases l.len(),
{
    if l.len() > 0 {
        lemma_kept_valid(u, l.drop_last(), del);
        let rest = kept_edges(u, l.drop_last(), del);
        if !del.contains((u, l.last() as u64)) {
            assert forall|k: int| 0 <= k < rest.len() + 1 implies valid_edge(
                #[trigger] rest.push((u, l.last() as u64))[k],
            ) by {
                if k < rest.len() {
                    assert(valid_edge(rest[k]));
                }
            }
        }
    }
}

proof fn lemma_live_base(g: GraphView, k: nat, a: u64, b: u64)
    requires
        k <= g.node_count,
        g.wf(),
    ensures
        live_base_edges(g, k).contains((a, b)) <==> (a < k && b <= u32::MAX && g.base[a as int].contains(
            b as u32,
        ) && !g.delta.del.contains((a, b))),
    decreases k,
{
    if k > 0 {
        lemma_live_base(g, (k - 1) as nat, a, b);
        let u = (k - 1) as u64;
        lemma_concat_contains(
            live_base_edges(g, (k - 1) as nat),
            kept_edges(u, g.base[k - 1], g.delta.del),
            (a, b),
        );
        lemma_kept_edges(u, g.base[k - 1], g.delta.del, a, b);
    }
}

proof fn lemma_live_base_valid(g: GraphView, k: nat)
    requires
        k <= g.node_count,
        g.wf(),
    ensures
        all_valid(live_base_edges(g, k)),
    decreases k,
{
    if k > 0 {
        lemma_live_base_valid(g, (k - 1) as nat);
        let u = (k - 1) as u64;
        let a = live_base_edges(g, (k - 1) as nat);
        let b = kept_edges(u, g.base[k - 1], g.delta.del);
        lemma_kept_valid(u, g.base[k - 1], g.delta.del);
        assert forall|i: int| 0 <= i < (a + b).len() implies valid_edge(#[trigger] (a + b)[i]) by {
            if i < a.len() {
                assert(valid_edge(a[i]));
            } else {
                assert(valid_edge(b[i - a.len()]));
            }
        }
    }
}

proof fn lemma_live_base_lengths(g: GraphView, k: nat)
    requires
        k <= g.node_count,
        g.wf(),
        g.weights is Some,
    ensures
        live_base_weights(g, k).len() == live_base_edges(g, k).len(),
    decreases k,
{
    if k > 0 {
        lemma_live_base_lengths(g, (k - 1) as nat);
        lemma_kept_lengths((k - 1) as u64, g.base[k - 1], g.weights->0[k - 1], g.delta.del);
    }
}

/// The merged edge list of a graph holds exactly its edges.
proof fn lemma_merged_edges(g: GraphView, d: Seq<(u64, u64)>, a: u64, b: u64)
    requires
        g.wf(),
        lists_fresh(g, d),
    ensures
        merged_edges(g, d).contains((a, b)) <==> g.has_edge(a, b),
{
    lemma_concat_contains(live_base_edges(g, g.node_count), d, (a, b));
    lemma_live_base(g, g.node_count, a, b);
    assert(fresh_insertions(g).contains((a, b)) <==> (g.delta.ins.dom().contains((a, b)) && !g.base_has(
        a,
        b,
    )));
}

proof fn lemma_merged_count(g: GraphView, d: Seq<(u64, u64)>)
    requires
        lists_fresh(g, d),
    ensures
        merged_edges(g, d).len() == merged_count(g),
        reversed(merged_edges(g, d)).len() == merged_count(g),
{
    assert(d.to_set() =~= fresh_insertions(g));
    d.unique_seq_to_set();
}

proof fn lemma_kept_all(u: u64, l: Seq<u32>, del: Set<(u64, u64)>)
    requires
        forall|t: u64| !#[trigger] del.contains((u, t)),
    ensures
        kept_edges(u, l, del).len() == l.len(),
    decreases l.len(),
{
    if l.len() > 0 {
        lemma_kept_all(u, l.drop_last(), del);
    }
}

proof fn lemma_live_all(g: GraphView, k: nat)
    requires
        k <= g.node_count,
        g.wf(),
        g.delta_empty(),
    ensures
        live_base_edges(g, k).len() == crate::csr::total_len(g.base.take(k as int)),
    decreases k,
{
    if k > 0 {
        lemma_live_all(g, (k - 1) as nat);
        assert(g.base.take(k as int).drop_last() =~= g.base.take(k - 1));
        assert forall|t: u64| !#[trigger] g.delta.del.contains(((k - 1) as u64, t)) by {
            assert(!Set::<(u64, u64)>::empty().contains(((k - 1) as u64, t)));
        }
        lemma_kept_all((k - 1) as u64, g.base[k - 1], g.delta.del);
    }
}

/// The merged view of a graph with nothing pending has as many edges as
/// its base layer.
proof fn lemma_merged_count_base_only(g: GraphView)
    requires
        g.wf(),
        g.delta_empty(),
    ensures
        merged_count(g) == g.edge_count,
{
    lemma_live_all(g, g.node_count);
    assert(g.base.take(g.node_count as int) =~= g.base);
    assert(fresh_insertions(g) =~= Set::<(u64, u64)>::empty()) by {
        assert forall|e: (u64, u64)| !fresh_insertions(g).contains(e) by {
            assert(!Set::<(u64, u64)>::empty().contains(e));
        }
    }
}

/// Transposing twice gives back the edges of the graph it started from, and, for
/// a graph with nothing pending, as many of them.
pub proof fn lemma_double_transpose(g: CsrGraph, t: CsrGraph, tt: CsrGraph)
    requires
        g.wf(),
        t.wf(),
        tt.wf(),
        t@.delta_empty(),
        reverses(g@, t@),
        reverses(t@, tt@),
        t@.edge_count == merged_count(g@),
        tt@.edge_count == merged_count(t@),
    ensures
        same_edges(g@, tt@),
        g@.delta_empty() ==> tt@.edge_count == g@.edge_count,
{
    lemma_merged_count_base_only(t@);
    if g@.delta_empty() {
        lemma_merged_count_base_only(g@);
    }
    assert forall|x: u64, y: u64| #[trigger] tt@.has_edge(x, y) <==> g@.has_edge(x, y) by {
        assert(tt@.has_edge(x, y) <==> t@.has_edge(y, x));
        assert(t@.has_edge(y, x) <==> g@.has_edge(x, y));
    }
}

/// Compaction keeps the edges of a graph and their number, and leaves
/// nothing pending.
pub proof fn lemma_compact_preserves(g: CsrGraph, c: CsrGraph)
    requires
        g.wf(),
        c.wf(),
        c@.delta_empty(),
        same_edges(g@, c@),
        c@.edge_count == merged_count(g@),
    ensures
        forall|x: u64, y: u64| c@.has_edge(x, y) <==> g@.has_edge(x, y),
        g@.delta_empty() ==> c@.edge_count == g@.edge_count,
        merged_count(c@) == c@.edge_count,
{
    lemma_merged_count_base_only(c@);
    if g@.delta_empty() {
        lemma_merged_count_base_only(g@);
    }
    assert forall|x: u64, y: u64| c@.has_edge(x, y) <==> g@.has_edge(x, y) by {
        assert(c@.has_edge(x, y) <==> g@.has_edge(x, y));
    }
}

proof fn lemma_reversed_contains(e: Seq<(u64, u64)>, a: u64, b: u64)
    ensures
        reversed(e).contains((a, b)) <==> e.contains((b, a)),
{
    if reversed(e).contains((a, b)) {
        let j = choose|j: int| 0 <= j < reversed(e).len() && reversed(e)[j] == (a, b);
        assert(e[j] == (b, a));
    }
    if e.contains((b, a)) {
        let j = choose|j: int| 0 <= j < e.len() && e[j] == (b, a);
        assert(reversed(e)[j] == (a, b));
    }
}

proof fn lemma_out_of_contains(e: Seq<(u64, u64)>, a: u64, b: u64)
    requires
        all_valid(e),
        b <= u32::MAX,
    ensures
        out_of(e, a as int).contains(b as u32) <==> e.contains((a, b)),
    decreases e.len(),
{
    if e.len() > 0 {
        let p = e.drop_last();
        assert(all_valid(p)) by {
            assert forall|k: int| 0 <= k < p.len() implies valid_edge(#[trigger] p[k]) by {
                assert(valid_edge(e[k]));
            }
        }
        lemma_out_of_contains(p, a, b);
        assert(e == p.push(e.last()));
        lemma_push_contains(p, e.last(), (a, b));
        assert(valid_edge(e[e.len() - 1]));
        if e.last().0 == a as int {
            lemma_push_contains(out_of(p, a as int), e.last().1 as u32, b as u32);
        }
    }
}

/// A freshly built graph holds exactly the edges it was built from.
proof fn lemma_built_edges(
    r: CsrGraph,
    e: Seq<(u64, u64)>,
    w: Seq<u32>,
    weighted: bool,
    parts: Seq<(nat, nat)>,
    a: u64,
    b: u64,
)
    requires
        built_graph(r, e, w, weighted, parts),
        all_valid(e),
    ensures
        r@.has_edge(a, b) <==> e.contains((a, b)),
{
    let n = max_endpoint(e) + 1;
    if e.contains((a, b)) {
        let k = choose|k: int| 0 <= k < e.len() && e[k] == (a, b);
        lemma_sources_below_max(e, k);
        assert(valid_edge(e[k]));
        lemma_out_of_contains(e, a, b);
        assert(r@.base[a as int] == out_of(e, a as int));
    }
    if r@.has_edge(a, b) {
        assert(a < n);
        assert(r@.base[a as int] == out_of(e, a as int));
        lemma_out_of_contains(e, a, b);
    }
}

/// The fresh insertions among `keys`, in order, as plain pairs.
pub open spec fn fresh_keys(g: GraphView, keys: Seq<(NodeId, NodeId)>) -> Seq<(u64, u64)>
    decreases keys.len(),
{
    if keys.len() == 0 {
        Seq::empty()
    } else {
        let rest = fresh_keys(g, keys.drop_last());
        let k = keys.last();
        if g.base_has(k.0.0, k.1.0) {
            rest
        } else {
            rest.push((k.0.0, k.1.0))
        }
    }
}

proof fn lemma_fresh_keys(g: GraphView, keys: Seq<(NodeId, NodeId)>)
    requires
        keys.no_duplicates(),
    ensures
        fresh_keys(g, keys).no_duplicates(),
        forall|e: (u64, u64)|
            fresh_keys(g, keys).contains(e) <==> (keys.contains((NodeId(e.0), NodeId(e.1))) && !g.base_has(
                e.0,
                e.1,
            )),
    decreases keys.len(),
{
    if keys.len() > 0 {
        let p = keys.drop_last();
        let k = keys.last();
        assert(p.no_duplicates()) by {
            assert forall|i: int, j: int| 0 <= i < p.len() && 0 <= j < p.len() && i != j implies p[i] != p[j] by {
                assert(p[i] == keys[i] && p[j] == keys[j]);
            }
        }
        lemma_fresh_keys(g, p);
        let rest = fresh_keys(g, p);
        assert(keys == p.push(k));
        assert forall|e: (u64, u64)|
            fresh_keys(g, keys).contains(e) <==> (keys.contains((NodeId(e.0), NodeId(e.1))) && !g.base_has(
                e.0,
                e.1,
            )) by {
            lemma_push_contains(p, k, (NodeId(e.0), NodeId(e.1)));
            if !g.base_has(k.0.0, k.1.0) {
                lemma_push_contains(rest, (k.0.0, k.1.0), e);
            }
        }
        if !g.base_has(k.0.0, k.1.0) {
            assert(!rest.contains((k.0.0, k.1.0))) by {
                if rest.contains((k.0.0, k.1.0)) {
                    assert(p.contains((NodeId(k.0.0), NodeId(k.1.0))));
                    let j = choose|j: int| 0 <= j < p.len() && p[j] == (NodeId(k.0.0), NodeId(k.1.0));
                    assert(keys[j] == keys[keys.len() - 1]);
                }
            }
            let f = rest.push((k.0.0, k.1.0));
            assert forall|i: int, j: int| 0 <= i < f.len() && 0 <= j < f.len() && i != j implies f[i] != f[j] by {
                if i < rest.len() && j < rest.len() {
                    assert(f[i] == rest[i] && f[j] == rest[j]);
                } else if i < rest.len() {
                    assert(rest.contains(f[i]));
                } else if j < rest.len() {
                    assert(rest.contains(f[j]));
                }
            }
        }
    }
}

proof fn lemma_fresh_keys_listed(g: GraphView, keys: Seq<(NodeId, NodeId)>)
    requires
        keys.no_duplicates(),
        forall|k: (NodeId, NodeId)| keys.contains(k) <==> g.delta.ins.dom().contains((k.0.0, k.1.0)),
    ensures
        lists_fresh(g, fresh_keys(g, keys)),
{
    lemma_fresh_keys(g, keys);
    assert forall|e: (u64, u64)| fresh_keys(g, keys).contains(e) <==> fresh_insertions(g).contains(e) by {
        assert(keys.contains((NodeId(e.0), NodeId(e.1))) <==> g.delta.ins.dom().contains(e));
    }
}

pub(crate) proof fn lemma_first_invalid(e: Seq<(u64, u64)>)
    requires
        !all_valid(e),
    ensures
        exists|i: int| crate::csr::first_invalid_at(e, i),
    decreases e.len(),
{
    let p = e.drop_last();
    if !all_valid(p) {
        lemma_first_invalid(p);
        let i = choose|i: int| crate::csr::first_invalid_at(p, i);
        assert forall|j: int| 0 <= j < i implies valid_edge(#[trigger] e[j]) by {
            assert(valid_edge(p[j]));
            assert(p[j] == e[j]);
        }
        assert(e[i] == p[i]);
        assert(crate::csr::first_invalid_at(e, i));
    } else {
        let k = choose|k: int| 0 <= k < e.len() && !valid_edge(#[trigger] e[k]);
        if k < e.len() - 1 {
            assert(valid_edge(p[k]));
            assert(p[k] == e[k]);
        }
        assert forall|j: int| 0 <= j < e.len() - 1 implies valid_edge(#[trigger] e[j]) by {
            assert(valid_edge(p[j]));
            assert(p[j] == e[j]);
        }
        assert(crate::csr::first_invalid_at(e, e.len() - 1));
    }
}

/// A successful build holds exactly the edges it was given, each
/// counted once per occurrence, and nothing pending. A weighted build is
/// covered when it has a weight for every edge (with fewer weights the
/// unmatched edges are dropped).
pub proof fn lemma_build_ok_edges(
    e: Seq<(u64, u64)>,
    w: Seq<u32>,
    config: CsrBuildConfig,
    r: Result<CsrGraph, GraphError>,
)
    requires
        build_result(e, w, config, r),
        r is Ok,
        config.include_weights ==> w.len() >= e.len(),
    ensures
        r->Ok_0.wf(),
        r->Ok_0@.delta_empty(),
        r->Ok_0@.edge_count == e.len(),
        forall|a: u64, b: u64| #[trigger] r->Ok_0@.has_edge(a, b) <==> e.contains((a, b)),
{
    let g = r->Ok_0;
    if e.len() == 0 {
        assert forall|a: u64, b: u64| #[trigger] g@.has_edge(a, b) <==> e.contains((a, b)) by {
            assert(!g@.delta.ins.dom().contains((a, b)));
        }
    } else {
        if !all_valid(e) {
            lemma_first_invalid(e);
            let i = choose|i: int| crate::csr::first_invalid_at(e, i);
            assert(r is Err);
        }
        assert(e.take(e.len() as int) =~= e);
        lemma_max_endpoint_bound(e);
        assert forall|a: u64, b: u64| #[trigger] g@.has_edge(a, b) <==> e.contains((a, b)) by {
            lemma_built_edges(
                g,
                e,
                w.take(e.len() as int),
                config.include_weights,
                crate::csr::partition_spec_of(e, config),
                a,
                b,
            );
        }
    }
}

// ---------------------------------------------------------------------
// Collecting the merged edge list
// ---------------------------------------------------------------------

/// The live base edges of `g` in storage order, with their weights when
/// `weighted`.
fn collect_live_base(g: &CsrGraph, weighted: bool) -> (r: (Vec<(u64, u64)>, Vec<u32>))
    requires
        g.wf(),
        weighted ==> (g@.weights is Some),
    ensures
        r.0@ == live_base_edges(g@, g@.node_count),
        weighted ==> r.1@ == live_base_weights(g@, g@.node_count),
        !weighted ==> r.1@.len() == 0,
{
    let n = g.node_count();
    let mut edges: Vec<(u64, u64)> = Vec::new();
    let mut weights: Vec<u32> = Vec::new();
    let mut u: usize = 0;
    while u < n
        invariant
            g.wf(),
            n == g@.node_count,
            u <= n,
            weighted ==> (g@.weights is Some),
            edges@ == live_base_edges(g@, u as nat),
            weighted ==> weights@ == live_base_weights(g@, u as nat),
            !weighted ==> weights@.len() == 0,
        decreases n - u,
    {
        let node = NodeId(u as u64);
        let slice = g.base_neighbor_slice(node);
        let wslice: Option<&[u32]> = if weighted {
            g.base_weight_slice(node)
        } else {
            None
        };
        let ghost e0 = edges@;
        let ghost w0 = weights@;
        let ghost del = g@.delta.del;
        let mut i: usize = 0;
        while i < slice.len()
            invariant
                g.wf(),
                u < n,
                n == g@.node_count,
                del == g@.delta.del,
                node == NodeId(u as u64),
                weighted ==> (g@.weights is Some),
                slice@ == g@.base[u as int],
                weighted ==> wslice is Some && wslice->0@ == g@.weights->0[u as int],
                i <= slice@.len(),
                edges@ == e0 + kept_edges(u as u64, slice@.take(i as int), del),
                weighted ==> weights@ == w0 + kept_weights(
                    u as u64,
                    slice@.take(i as int),
                    wslice->0@.take(i as int),
                    del,
                ),
                !weighted ==> weights@.len() == 0,
            decreases slice@.len() - i,
        {
            let t = slice[i];
            proof {
                assert(slice@.take(i + 1).drop_last() =~= slice@.take(i as int));
                assert(slice@.take(i + 1).last() == t);
                if weighted {
                    let ws = wslice->0@;
                    assert(ws.len() == slice@.len());
                    assert(ws.take(i + 1).drop_last() =~= ws.take(i as int));
                }
            }
            let ghost ki = kept_edges(u as u64, slice@.take(i as int), del);
            let ghost kw = if weighted {
                kept_weights(u as u64, slice@.take(i as int), wslice->0@.take(i as int), del)
            } else {
                Seq::<u32>::empty()
            };
            let deleted = g.delta().is_deleted(node, NodeId(t as u64));
            if !deleted {
                edges.push((u as u64, t as u64));
                if weighted {
                    match wslice {
                        Some(ws) => {
                            weights.push(ws[i]);
                        },
                        None => {},
                    }
                }
            }
            proof {
                assert(deleted == del.contains((u as u64, t as u64)));
                let l1 = slice@.take(i + 1);
                assert(l1.len() > 0);
                assert(l1.drop_last() == slice@.take(i as int));
                assert(l1.last() == t);
                assert(kept_edges(u as u64, slice@.take(i + 1), del) == if deleted {
                    ki
                } else {
                    ki.push((u as u64, t as u64))
                });
                if !deleted {
                    assert(edges@ =~= e0 + ki.push((u as u64, t as u64)));
                }
                if weighted {
                    let ws = wslice->0@;
                    assert(kept_weights(u as u64, slice@.take(i + 1), ws.take(i + 1), del) == if deleted {
                        kw
                    } else {
                        kw.push(ws[i as int])
                    });
                    if !deleted {
                        assert(weights@ =~= w0 + kw.push(ws[i as int]));
                    }
                }
            }
            i = i + 1;
        }
        proof {
            assert(slice@.take(i as int) =~= slice@);
            if weighted {
                assert(wslice->0@.take(i as int) =~= wslice->0@);
            }
            assert(live_base_edges(g@, (u + 1) as nat) == live_base_edges(g@, u as nat) + kept_edges(
                u as u64,
                g@.base[u as int],
                del,
            ));
        }
        u = u + 1;
    }
    (edges, weights)
}

/// The weights of the fresh insertions `d` of `g`.
pub open spec fn fresh_weights(g: GraphView, d: Seq<(u64, u64)>) -> Seq<u32> {
    d.map_values(|e: (u64, u64)| insertion_weight(g.delta.ins[e]))
}

impl CsrGraph {
    /// Compacts the delta layer into a new base-only graph.
    ///
    /// The live base edges (tombstoned ones dropped) keep their storage
    /// order and weights; the pending insertions that the base layer does
    /// not already hold follow, with their own weight or one when the graph
    /// is weighted. The returned graph has an empty delta layer; this
    /// graph's delta layer is drained, its base layer left as it was.
    pub fn compact(&mut self) -> (r: Result<CsrGraph, GraphError>)
        requires
            old(self).wf(),
        ensures
            final(self).wf(),
            final(self)@ == without_delta(old(self)@),
            final(self).shard_bounds() == old(self).shard_bounds(),
            exists|d: Seq<(u64, u64)>|
                lists_fresh(old(self)@, d) && build_result(
                    merged_edges(old(self)@, d),
                    if old(self)@.weights is Some {
                        merged_weights(old(self)@, d)
                    } else {
                        Seq::<u32>::empty()
                    },
                    compact_config(old(self)@.weights is Some),
                    r,
                ),
            r is Ok ==> r->Ok_0.wf() && r->Ok_0@.delta_empty() && same_edges(old(self)@, r->Ok_0@),
            r is Ok ==> r->Ok_0@.edge_count == merged_count(old(self)@),
            compact_outcome(old(self)@, r),
    {
        let weighted = self.has_weights();
        let ghost g0 = self@;
        let (mut edges, mut weights) = collect_live_base(self, weighted);
        let drained = self.delta_mut().drain_insertions();
        let ghost keys = drained@.map_values(|e: ((NodeId, NodeId), EdgeData)| e.0);
        proof {
            assert(keys.no_duplicates()) by {
                assert forall|a: int, b: int| 0 <= a < keys.len() && 0 <= b < keys.len() && a != b implies keys[a]
                    != keys[b] by {
                    if a < b {
                        assert(drained@[a].0 != drained@[b].0);
                    } else {
                        assert(drained@[b].0 != drained@[a].0);
                    }
                }
            }
            assert forall|k: (NodeId, NodeId)| keys.contains(k) <==> g0.delta.ins.dom().contains((k.0.0, k.1.0)) by {
                if keys.contains(k) {
                    let a = choose|a: int| 0 <= a < keys.len() && keys[a] == k;
                    assert(drained@[a].0 == k);
                }
                if g0.delta.ins.dom().contains((k.0.0, k.1.0)) {
                    let a = choose|a: int| 0 <= a < drained@.len() && (#[trigger] drained@[a]).0 == (NodeId(k.0.0), NodeId(k.1.0));
                    assert(k == (NodeId(k.0.0), NodeId(k.1.0)));
                    assert(keys[a] == k);
                }
            }
            lemma_fresh_keys_listed(g0, keys);
        }
        let ghost live = edges@;
        let ghost livew = weights@;
        let mut j: usize = 0;
        while j < drained.len()
            invariant
                self.wf(),
                self@.base == g0.base,
                self@.node_count == g0.node_count,
                weighted == (g0.weights is Some),
                j <= drained@.len(),
                keys == drained@.map_values(|e: ((NodeId, NodeId), EdgeData)| e.0),
                forall|a: int|
                    0 <= a < drained@.len() ==> {
                        let e = #[trigger] drained@[a];
                        &&& g0.delta.ins.dom().contains((e.0.0.0, e.0.1.0))
                        &&& g0.delta.ins[(e.0.0.0, e.0.1.0)] == e.1
                    },
                edges@ == live + fresh_keys(g0, keys.take(j as int)),
                weighted ==> weights@ == livew + fresh_weights(g0, fresh_keys(g0, keys.take(j as int))),
                !weighted ==> weights@.len() == 0,
            decreases drained@.len() - j,
        {
            let entry = &drained[j];
            let f = entry.0.0;
            let t = entry.0.1;
            let ghost fk = fresh_keys(g0, keys.take(j as int));
            proof {
                assert(keys.take(j + 1).drop_last() =~= keys.take(j as int));
                assert(keys.take(j + 1).last() == (f, t));
            }
            let in_base = self.base_contains(f, t);
            if !in_base {
                edges.push((f.0, t.0));
                if weighted {
                    let w = match entry.1.weight {
                        Some(w) => w,
                        None => UNIT_WEIGHT_BITS,
                    };
                    weights.push(w);
                }
            }
            proof {
                assert(in_base == g0.base_has(f.0, t.0));
                assert(fresh_keys(g0, keys.take(j + 1)) == if in_base {
                    fk
                } else {
                    fk.push((f.0, t.0))
                });
                if !in_base {
                    assert(edges@ =~= live + fk.push((f.0, t.0)));
                    if weighted {
                        assert(g0.delta.ins[(f.0, t.0)] == entry.1);
                        assert(fresh_weights(g0, fk.push((f.0, t.0))) =~= fresh_weights(g0, fk).push(
                            insertion_weight(entry.1),
                        ));
                        assert(weights@ =~= livew + fresh_weights(g0, fk.push((f.0, t.0))));
                    }
                }
            }
            j = j + 1;
        }
        let _ = self.delta_mut().drain_deletions();
        let ghost d = fresh_keys(g0, keys);
        proof {
            assert(keys.take(j as int) =~= keys);
            assert(self@ =~= without_delta(g0));
            assert(edges@ == merged_edges(g0, d));
        }
        let r = if weighted {
            proof {
                lemma_live_base_lengths(g0, g0.node_count);
                assert(weights@ == merged_weights(g0, d));
            }
            let mut triples: Vec<(u64, u64, u32)> = Vec::new();
            let mut k: usize = 0;
            while k < edges.len()
                invariant
                    k <= edges@.len(),
                    weights@.len() == edges@.len(),
                    triples@.len() == k,
                    forall|a: int|
                        0 <= a < k ==> #[trigger] triples@[a] == (edges@[a].0, edges@[a].1, weights@[a]),
                decreases edges@.len() - k,
            {
                triples.push((edges[k].0, edges[k].1, weights[k]));
                k = k + 1;
            }
            let b = CsrBuilder::new().with_weighted_edges(triples);
            proof {
                assert(b.spec_edges() =~= edges@);
                assert(b.spec_weights() =~= weights@);
                assert(b.spec_config() == compact_config(true));
            }
            b.build()
        } else {
            let b = CsrBuilder::new().with_edges(edges);
            proof {
                assert(b.spec_edges() =~= merged_edges(g0, d));
                assert(b.spec_config() == compact_config(false));
            }
            b.build()
        };
        proof {
            let w = if weighted {
                merged_weights(g0, d)
            } else {
                Seq::<u32>::empty()
            };
            assert(lists_fresh(g0, d));
            if r is Ok {
                lemma_build_ok_edges(merged_edges(g0, d), w, compact_config(weighted), r);
                lemma_merged_count(g0, d);
                assert(merged_edges(g0, d).take(merged_edges(g0, d).len() as int) =~= merged_edges(g0, d));
                if weighted {
                    assert(w.take(merged_edges(g0, d).len() as int) =~= w);
                }
                assert forall|x: u64, y: u64| #[trigger] r->Ok_0@.has_edge(x, y) <==> g0.has_edge(x, y) by {
                    lemma_merged_edges(g0, d, x, y);
                }
            }
        }
        r
    }

    /// Builds the transposed graph: every edge `(a, b)` of the merged view
    /// (live base edges, then pending insertions the base layer does not
    /// hold) becomes `(b, a)`. The returned graph has an empty delta layer
    /// and no weights.
    pub fn transpose(&self) -> (r: Result<CsrGraph, GraphError>)
        requires
            self.wf(),
        ensures
            exists|d: Seq<(u64, u64)>|
                lists_fresh(self@, d) && build_result(
                    reversed(merged_edges(self@, d)),
                    Seq::<u32>::empty(),
                    default_build_config(),
                    r,
                ),
            r is Ok ==> r->Ok_0.wf() && r->Ok_0@.delta_empty() && reverses(self@, r->Ok_0@),
            r is Ok ==> r->Ok_0@.edge_count == merged_count(self@),
    {
        let (mut edges, _) = collect_live_base(self, false);
        let keys = self.delta().snapshot_insertion_keys();
        proof {
            lemma_fresh_keys_listed(self@, keys@);
        }
        let ghost live = edges@;
        let mut j: usize = 0;
        while j < keys.len()
            invariant
                self.wf(),
                j <= keys@.len(),
                edges@ == live + fresh_keys(self@, keys@.take(j as int)),
            decreases keys@.len() - j,
        {
            let (f, t) = keys[j];
            let ghost fk = fresh_keys(self@, keys@.take(j as int));
            proof {
                assert(keys@.take(j + 1).drop_last() =~= keys@.take(j as int));
                assert(keys@.take(j + 1).last() == (f, t));
            }
            let in_base = self.base_contains(f, t);
            if !in_base {
                edges.push((f.0, t.0));
            }
            proof {
                assert(fresh_keys(self@, keys@.take(j + 1)) == if in_base {
                    fk
                } else {
                    fk.push((f.0, t.0))
                });
                if !in_base {
                    assert(edges@ =~= live + fk.push((f.0, t.0)));
                }
            }
            j = j + 1;
        }
        let ghost d = fresh_keys(self@, keys@);
        proof {
            assert(keys@.take(j as int) =~= keys@);
        }
        let mut rev: Vec<(u64, u64)> = Vec::new();
        let mut k: usize = 0;
        while k < edges.len()
            invariant
                k <= edges@.len(),
                rev@ == reversed(edges@.take(k as int)),
            decreases edges@.len() - k,
        {
            let (a, b) = edges[k];
            rev.push((b, a));
            proof {
                assert(reversed(edges@.take(k + 1)) =~= reversed(edges@.take(k as int)).push((b, a)));
            }
            k = k + 1;
        }
        proof {
            assert(edges@.take(k as int) =~= edges@);
        }
        let b = CsrBuilder::new().with_edges(rev);
        proof {
            assert(b.spec_edges() =~= reversed(merged_edges(self@, d)));
        }
        let r = b.build();
        proof {
            let e = reversed(merged_edges(self@, d));
            if r is Ok {
                lemma_build_ok_edges(e, Seq::<u32>::empty(), default_build_config(), r);
                lemma_merged_count(self@, d);
                assert(e.take(e.len() as int) =~= e);
                assert forall|x: u64, y: u64| #[trigger] r->Ok_0@.has_edge(x, y) <==> self@.has_edge(y, x) by {
                    lemma_reversed_contains(merged_edges(self@, d), x, y);
                    lemma_merged_edges(self@, d, y, x);
                }
            }
        }
        r
    }
}

proof fn lemma_weights_of_len(e: Seq<(u64, u64)>, w: Seq<u32>, u: int)
    requires
        e.len() <= w.len(),
    ensures
        weights_of(e, w, u).len() == out_of(e, u).len(),
    decreases e.len(),
{
    if e.len() > 0 {
        lemma_weights_of_len(e.drop_last(), w.take(e.len() - 1), u);
    }
}

/// Entry `j` of a node's adjacency list comes from some edge of the list,
/// together with that edge's weight.
proof fn lemma_out_of_entry(e: Seq<(u64, u64)>, w: Seq<u32>, u: int, j: int)
    requires
        e.len() <= w.len(),
        0 <= j < out_of(e, u).len(),
    ensures
        exists|k: int|
            0 <= k < e.len() && e[k].0 == u && e[k].1 as u32 == out_of(e, u)[j] && #[trigger] weights_of(
                e,
                w,
                u,
            )[j] == w[k],
    decreases e.len(),
{
    let p = e.drop_last();
    let wp = w.take(e.len() - 1);
    lemma_weights_of_len(p, wp, u);
    if e.last().0 == u && j == out_of(p, u).len() {
        let k = e.len() - 1;
        assert(e[k] == e.last());
        assert(weights_of(e, w, u)[j] == w[k]);
    } else {
        lemma_out_of_entry(p, wp, u, j);
        let k = choose|k: int|
            0 <= k < p.len() && p[k].0 == u && p[k].1 as u32 == out_of(p, u)[j] && #[trigger] weights_of(
                p,
                wp,
                u,
            )[j] == wp[k];
        assert(e[k] == p[k]);
        assert(wp[k] == w[k]);
        assert(weights_of(e, w, u)[j] == weights_of(p, wp, u)[j]);
        assert(out_of(e, u)[j] == out_of(p, u)[j]);
    }
}

/// Compacting a weighted graph keeps each pending insertion's own weight:
/// an inserted edge that the base layer did not hold is in the compacted
/// graph, and every entry of it there carries the insertion's weight, or
/// 1.0 when the insertion carries none.
pub proof fn lemma_compact_insertion_weights(g: GraphView, r: Result<CsrGraph, GraphError>, u: u64, v: u64)
    requires
        g.wf(),
        compact_outcome(g, r),
        r is Ok,
        g.weights is Some,
        g.delta.ins.dom().contains((u, v)),
        !g.base_has(u, v),
    ensures
        r->Ok_0@.weights is Some,
        u < r->Ok_0@.node_count,
        exists|j: int| 0 <= j < r->Ok_0@.base[u as int].len() && r->Ok_0@.base[u as int][j] as u64 == v,
        forall|j: int|
            0 <= j < r->Ok_0@.base[u as int].len() && r->Ok_0@.base[u as int][j] as u64 == v
                ==> #[trigger] r->Ok_0@.weights->0[u as int][j] == match g.delta.ins[(u, v)].weight {
                Some(w) => w,
                None => UNIT_WEIGHT_BITS,
            },
{
    let c = r->Ok_0;
    let d = choose|d: Seq<(u64, u64)>|
        lists_fresh(g, d) && build_result(
            merged_edges(g, d),
            if g.weights is Some {
                merged_weights(g, d)
            } else {
                Seq::<u32>::empty()
            },
            compact_config(g.weights is Some),
            r,
        );
    let live = live_base_edges(g, g.node_count);
    let e = merged_edges(g, d);
    let w = merged_weights(g, d);
    let ll = live.len();
    assert(fresh_insertions(g).contains((u, v)));
    assert(d.contains((u, v)));
    let p = choose|p: int| 0 <= p < d.len() && d[p] == (u, v);
    assert(e[ll + p] == (u, v));
    lemma_live_base_lengths(g, g.node_count);
    assert(w.len() == e.len());
    assert(w[ll + p] == insertion_weight(g.delta.ins[(u, v)]));
    if !all_valid(e) {
        lemma_first_invalid(e);
        let i = choose|i: int| crate::csr::first_invalid_at(e, i);
        assert(r is Err);
    }
    assert(e.take(e.len() as int) =~= e);
    assert(w.take(e.len() as int) =~= w);
    let n = max_endpoint(e) + 1;
    lemma_sources_below_max(e, ll + p);
    assert(valid_edge(e[ll + p]));
    assert(c@.base == crate::csr::adjacency_of(e, n));
    assert(c@.base[u as int] == out_of(e, u as int));
    assert(c@.weights->0[u as int] == weights_of(e, w, u as int));
    lemma_out_of_contains(e, u, v);
    assert(e.contains((u, v)));
    let j0 = choose|j: int| 0 <= j < out_of(e, u as int).len() && out_of(e, u as int)[j] == v as u32;
    assert(c@.base[u as int][j0] as u64 == v);
    assert forall|j: int|
        0 <= j < c@.base[u as int].len() && c@.base[u as int][j] as u64 == v implies #[trigger] c@.weights->0[u as int][j]
            == insertion_weight(g.delta.ins[(u, v)]) by {
        lemma_out_of_entry(e, w, u as int, j);
        let k = choose|k: int|
            0 <= k < e.len() && e[k].0 == u as int && e[k].1 as u32 == out_of(e, u as int)[j] && #[trigger] weights_of(
                e,
                w,
                u as int,
            )[j] == w[k];
        assert(valid_edge(e[k]));
        assert(e[k] == (u, v));
        if k < ll {
            assert(live.contains((u, v))) by {
                assert(live[k] == e[k]);
            }
            lemma_live_base(g, g.node_count, u, v);
            assert(g.base_has(u, v));
        } else {
            assert(d[k - ll] == (u, v));
            assert(k - ll == p);
        }
    }
}

} // verus!
