//! Batch filters of dense neighbor indices against a visited bitset.
//!
//! A dense index `n` is unvisited when its word `n >> 6` lies inside the
//! bitset and bit `n & 63` of that word is clear; indices whose word lies
//! beyond the bitset are dropped. Every backend computes exactly this
//! filter: the lane-blocked backends test a block of indices at a time and
//! emit the unvisited lanes of the block in order.

use vstd::prelude::*;

use crate::bitset::{bit_at, lemma_mask_bit, lemma_or_bit, word_bit};
use crate::types::NodeId;

verus! {

/// Converts a `NodeId` into the dense `u32` index used by traversal
/// kernels, when it fits.
pub fn node_id_to_dense_index(node: NodeId) -> (r: Option<u32>)
    ensures
        r == if node.0 <= u32::MAX {
            Some(node.0 as u32)
        } else {
            None
        },
{
    if node.0 <= u32::MAX as u64 {
        Some(node.0 as u32)
    } else {
        None
    }
}

/// Converts a dense index back into a `NodeId`.
pub fn dense_index_to_node_id(index: u32) -> (r: NodeId)
    ensures
        r == NodeId(index as u64),
{
    NodeId(index as u64)
}

/// Index `n` is inside the bitset `visited` and not set there.
pub open spec fn is_unvisited(n: u32, visited: Seq<u64>) -> bool {
    (n as int) / 64 < visited.len() && !bit_at(visited, n as int)
}

/// The unvisited indices of `neighbors`, in order.
pub open spec fn unvisited(neighbors: Seq<u32>, visited: Seq<u64>) -> Seq<u32>
    decreases neighbors.len(),
{
    if neighbors.len() == 0 {
        Seq::empty()
    } else {
        let rest = unvisited(neighbors.drop_last(), visited);
        if is_unvisited(neighbors.last(), visited) {
            rest.push(neighbors.last())
        } else {
            rest
        }
    }
}

/// An index is kept exactly when it occurs in `neighbors` and is
/// unvisited.
pub proof fn lemma_unvisited_contains(neighbors: Seq<u32>, visited: Seq<u64>, x: u32)
    ensures
        unvisited(neighbors, visited).contains(x) <==> (neighbors.contains(x) && is_unvisited(x, visited)),
    decreases neighbors.len(),
{
    if neighbors.len() > 0 {
        let p = neighbors.drop_last();
        lemma_unvisited_contains(p, visited, x);
        let rest = unvisited(p, visited);
        if neighbors.contains(x) {
            let j = choose|j: int| 0 <= j < neighbors.len() && neighbors[j] == x;
            if j < p.len() {
                assert(p[j] == x);
            }
        }
        if p.contains(x) {
            let j = choose|j: int| 0 <= j < p.len() && p[j] == x;
            assert(neighbors[j] == x);
        }
        if is_unvisited(neighbors.last(), visited) {
            lemma_push_contains_u32(rest, neighbors.last(), x);
        }
    }
}

/// `after` is `before` with the bits of the in-range indices of `nodes`
/// set.
pub open spec fn marks(before: Seq<u64>, nodes: Seq<u32>, after: Seq<u64>) -> bool {
    &&& after.len() == before.len()
    &&& forall|i: int|
        #[trigger] bit_at(after, i) <==> (bit_at(before, i) || (0 <= i <= u32::MAX && i / 64 < before.len()
            && nodes.contains(i as u32)))
}

proof fn lemma_unvisited_concat(a: Seq<u32>, b: Seq<u32>, visited: Seq<u64>)
    ensures
        unvisited(a + b, visited) == unvisited(a, visited) + unvisited(b, visited),
    decreases b.len(),
{
    if b.len() == 0 {
        assert(a + b =~= a);
        assert(unvisited(a, visited) + unvisited(b, visited) =~= unvisited(a, visited));
    } else {
        lemma_unvisited_concat(a, b.drop_last(), visited);
        assert((a + b).drop_last() =~= a + b.drop_last());
        assert((a + b).last() == b.last());
        if is_unvisited(b.last(), visited) {
            assert(unvisited(a, visited) + unvisited(b, visited) =~= (unvisited(a, visited) + unvisited(
                b.drop_last(),
                visited,
            )).push(b.last()));
        }
    }
}

/// Tests index `n` against the bitset.
fn test_unvisited(n: u32, visited: &[u64]) -> (r: bool)
    ensures
        r == is_unvisited(n, visited@),
{
    let word_idx = (n / 64) as usize;
    let bit_idx = (n % 64) as u64;
    if word_idx < visited.len() {
        proof {
            lemma_mask_bit(visited@[word_idx as int], bit_idx);
        }
        (visited[word_idx] & (1u64 << bit_idx)) == 0
    } else {
        false
    }
}

/// Appends the unvisited indices of `neighbors` to `out`.
fn scalar_filter_into_no_clear(neighbors: &[u32], visited: &[u64], out: &mut Vec<u32>)
    ensures
        final(out)@ == old(out)@ + unvisited(neighbors@, visited@),
{
    let ghost start = out@;
    let mut i: usize = 0;
    while i < neighbors.len()
        invariant
            i <= neighbors@.len(),
            out@ == start + unvisited(neighbors@.take(i as int), visited@),
        decreases neighbors@.len() - i,
    {
        let n = neighbors[i];
        proof {
            assert(neighbors@.take(i + 1).drop_last() =~= neighbors@.take(i as int));
            assert(neighbors@.take(i + 1).last() == n);
        }
        if test_unvisited(n, visited) {
            out.push(n);
            proof {
                assert(out@ =~= start + unvisited(neighbors@.take(i + 1), visited@));
            }
        }
        i = i + 1;
    }
    proof {
        assert(neighbors@.take(i as int) =~= neighbors@);
    }
}

/// Replaces the contents of `out` with the unvisited indices of
/// `neighbors`.
fn scalar_filter_into(neighbors: &[u32], visited: &[u64], out: &mut Vec<u32>)
    ensures
        final(out)@ == unvisited(neighbors@, visited@),
{
    out.clear();
    scalar_filter_into_no_clear(neighbors, visited, out);
    proof {
        assert(Seq::<u32>::empty() + unvisited(neighbors@, visited@) =~= unvisited(neighbors@, visited@));
    }
}

/// Lane `k` of mask `m` is set.
pub open spec fn lane_set(m: u32, k: u32) -> bool {
    m & (1u32 << k) != 0
}

proof fn lemma_lane_mask(m: u32, j: u32, k: u32)
    requires
        j < 32,
        k < 32,
    ensures
        lane_set(m | (1u32 << j), k) == (lane_set(m, k) || j == k),
        !lane_set(0, k),
{
    assert(((m | (1u32 << j)) & (1u32 << k) != 0) == ((m & (1u32 << k) != 0) || j == k)) by (bit_vector)
        requires
            j < 32,
            k < 32,
    ;
    assert((0u32 & (1u32 << k)) == 0) by (bit_vector)
        requires
            k < 32,
    ;
}

/// Filters one block of indices whose words all lie inside the bitset:
/// builds the mask of unvisited lanes, then appends those lanes in order.
fn filter_block_in_range(block: &[u32], visited: &[u64], out: &mut Vec<u32>)
    requires
        block@.len() <= 32,
        forall|j: int| 0 <= j < block@.len() ==> (#[trigger] block@[j] as int) / 64 < visited@.len(),
    ensures
        final(out)@ == old(out)@ + unvisited(block@, visited@),
{
    let lanes = block.len();
    let mut mask: u32 = 0;
    proof {
        assert forall|k: u32| k < 32 implies !#[trigger] lane_set(mask, k) by {
            lemma_lane_mask(0, 0, k);
        }
    }
    let mut j: usize = 0;
    while j < lanes
        invariant
            lanes == block@.len(),
            lanes <= 32,
            j <= lanes,
            forall|k: int| 0 <= k < block@.len() ==> (#[trigger] block@[k] as int) / 64 < visited@.len(),
            forall|k: u32| k < 32 ==> (#[trigger] lane_set(mask, k) <==> (k < j && is_unvisited(block@[k as int], visited@))),
        decreases lanes - j,
    {
        let n = block[j];
        proof {
            assert((n >> 6u32) == n / 64) by (bit_vector);
            assert((n & 63u32) == n % 64) by (bit_vector);
            assert((n as int) / 64 < visited@.len());
        }
        let w = visited[(n >> 6) as usize];
        let b = (n & 63) as u64;
        let t = (w >> b) & 1;
        proof {
            assert(((w >> b) & 1u64) == 0u64 <==> !(((w >> b) & 1u64) == 1u64)) by (bit_vector);
            assert(t == 0 <==> !word_bit(w, b));
            assert(is_unvisited(n, visited@) <==> !word_bit(w, b));
        }
        let ghost old_mask = mask;
        if t == 0 {
            mask = mask | (1u32 << (j as u32));
        }
        proof {
            assert forall|k: u32| k < 32 implies (#[trigger] lane_set(mask, k) <==> (k < j + 1 && is_unvisited(
                block@[k as int],
                visited@,
            ))) by {
                lemma_lane_mask(old_mask, j as u32, k);
                assert(lane_set(old_mask, k) <==> (k < j && is_unvisited(block@[k as int], visited@)));
                if k == j as u32 {
                    assert(block@[k as int] == n);
                }
            }
        }
        j = j + 1;
    }
    let ghost start = out@;
    let mut k: usize = 0;
    while k < lanes
        invariant
            lanes == block@.len(),
            lanes <= 32,
            k <= lanes,
            forall|q: u32| q < 32 ==> (#[trigger] lane_set(mask, q) <==> (q < lanes && is_unvisited(block@[q as int], visited@))),
            out@ == start + unvisited(block@.take(k as int), visited@),
        decreases lanes - k,
    {
        proof {
            assert(block@.take(k + 1).drop_last() =~= block@.take(k as int));
            assert(block@.take(k + 1).last() == block@[k as int]);
            assert(lane_set(mask, k as u32) <==> is_unvisited(block@[k as int], visited@));
        }
        if mask & (1u32 << (k as u32)) != 0 {
            out.push(block[k]);
            proof {
                assert(out@ =~= start + unvisited(block@.take(k + 1), visited@));
            }
        }
        k = k + 1;
    }
    proof {
        assert(block@.take(k as int) =~= block@);
    }
}

/// Appends the unvisited indices of `neighbors` to `out`, testing blocks of
/// `lanes` indices at a time; a block with an index beyond the bitset, and
/// the final partial block, go through the scalar filter.
fn blocked_filter_into_no_clear(neighbors: &[u32], visited: &[u64], out: &mut Vec<u32>, lanes: usize)
    requires
        1 <= lanes <= 32,
    ensures
        final(out)@ == old(out)@ + unvisited(neighbors@, visited@),
{
    let ghost start = out@;
    let words_len = visited.len();
    let mut i: usize = 0;
    while neighbors.len() - i >= lanes
        invariant
            1 <= lanes <= 32,
            words_len == visited@.len(),
            i <= neighbors@.len(),
            out@ == start + unvisited(neighbors@.take(i as int), visited@),
        decreases neighbors@.len() - i,
    {
        let block = vstd::slice::slice_subrange(neighbors, i, i + lanes);
        let mut in_range = true;
        let mut j: usize = 0;
        while j < lanes
            invariant
                lanes == block@.len(),
                j <= lanes,
                words_len == visited@.len(),
                in_range <==> forall|k: int| 0 <= k < j ==> (#[trigger] block@[k] as int) / 64 < visited@.len(),
            decreases lanes - j,
        {
            if (block[j] >> 6) as usize >= words_len {
                proof {
                    let n = block@[j as int];
                    assert((n >> 6u32) == n / 64) by (bit_vector);
                }
                in_range = false;
            } else {
                proof {
                    let n = block@[j as int];
                    assert((n >> 6u32) == n / 64) by (bit_vector);
                }
            }
            j = j + 1;
        }
        if in_range {
            filter_block_in_range(block, visited, out);
        } else {
            scalar_filter_into_no_clear(block, visited, out);
        }
        proof {
            assert(neighbors@.take(i + lanes) =~= neighbors@.take(i as int) + block@);
            lemma_unvisited_concat(neighbors@.take(i as int), block@, visited@);
            assert(out@ =~= start + unvisited(neighbors@.take(i + lanes), visited@));
        }
        i = i + lanes;
    }
    let rest = vstd::slice::slice_subrange(neighbors, i, neighbors.len());
    scalar_filter_into_no_clear(rest, visited, out);
    proof {
        assert(neighbors@ =~= neighbors@.take(i as int) + rest@);
        lemma_unvisited_concat(neighbors@.take(i as int), rest@, visited@);
        assert(out@ =~= start + unvisited(neighbors@, visited@));
    }
}

/// A backend for batch neighbor evaluation during traversal.
pub trait SimdBackend {
    /// The name of this backend.
    spec fn backend_label(&self) -> Seq<char>;

    /// The number of indices this backend tests per block.
    spec fn lanes(&self) -> nat;

    /// Returns the name of this backend (e.g. "avx512", "neon", "scalar").
    fn name(&self) -> (r: &'static str)
        ensures
            r@ == self.backend_label(),
    ;

    /// Returns the number of indices this backend tests per block.
    fn batch_size(&self) -> (r: usize)
        ensures
            r >= 1,
            r == self.lanes(),
    ;

    /// Returns the unvisited indices of `neighbors`, in order.
    fn filter_unvisited(&self, neighbors: &[u32], visited: &[u64]) -> (r: Vec<u32>)
        ensures
            r@ == unvisited(neighbors@, visited@),
    {
        let mut out: Vec<u32> = Vec::new();
        self.filter_unvisited_into(neighbors, visited, &mut out);
        out
    }

    /// Replaces the contents of `out` with the unvisited indices of
    /// `neighbors`, in order.
    fn filter_unvisited_into(&self, neighbors: &[u32], visited: &[u64], out: &mut Vec<u32>)
        ensures
            final(out)@ == unvisited(neighbors@, visited@),
    ;

    /// Sets the bits of the indices of `nodes` that lie inside the bitset.
    fn set_visited_batch(&self, nodes: &[u32], visited: &mut [u64])
        ensures
            marks(old(visited)@, nodes@, final(visited)@),
    {
        let ghost before = visited@;
        let mut i: usize = 0;
        while i < nodes.len()
            invariant
                i <= nodes@.len(),
                marks(before, nodes@.take(i as int), visited@),
            decreases nodes@.len() - i,
        {
            let n = nodes[i];
            let word_idx = (n / 64) as usize;
            let bit_idx = (n % 64) as u64;
            let ghost prev = visited@;
            proof {
                assert(nodes@.take(i + 1) =~= nodes@.take(i as int).push(n));
            }
            if word_idx < visited.len() {
                let w = visited[word_idx] | (1u64 << bit_idx);
                visited[word_idx] = w;
                proof {
                    assert forall|q: int|
                        #[trigger] bit_at(visited@, q) <==> (bit_at(before, q) || (0 <= q <= u32::MAX && q / 64
                            < before.len() && nodes@.take(i + 1).contains(q as u32))) by {
                        crate::bitset::lemma_set_bit(prev, n as int, q);
                        if 0 <= q <= u32::MAX {
                            lemma_push_contains_u32(nodes@.take(i as int), n, q as u32);
                            if q == n as int {
                                assert(q as u32 == n);
                            }
                            if (q as u32) == n {
                                assert(q == n as int);
                            }
                        }
                    }
                }
            } else {
                proof {
                    assert forall|q: int|
                        #[trigger] bit_at(visited@, q) <==> (bit_at(before, q) || (0 <= q <= u32::MAX && q / 64
                            < before.len() && nodes@.take(i + 1).contains(q as u32))) by {
                        if 0 <= q <= u32::MAX {
                            lemma_push_contains_u32(nodes@.take(i as int), n, q as u32);
                            if (q as u32) == n {
                                assert(q == n as int);
                            }
                        }
                    }
                }
            }
            i = i + 1;
        }
        proof {
            assert(nodes@.take(i as int) =~= nodes@);
        }
    }
}

proof fn lemma_push_contains_u32(s: Seq<u32>, x: u32, y: u32)
    ensures
        s.push(x).contains(y) <==> (s.contains(y) || x == y),
{
    if s.push(x).contains(y) {
        let j = choose|j: int| 0 <= j < s.push(x).len() && s.push(x)[j] == y;
        if j < s.len() {
            assert(s[j] == y);
        }
    }
    if s.contains(y) {
        let j = choose|j: int| 0 <= j < s.len() && s[j] == y;
        assert(s.push(x)[j] == y);
    }
    if x == y {
        assert(s.push(x)[s.len() as int] == y);
    }
}

/// Portable backend that tests one index at a time.
#[derive(Debug, Default, Clone, Copy)]
pub struct ScalarBackend;

impl SimdBackend for ScalarBackend {
    open spec fn backend_label(&self) -> Seq<char> {
        "scalar"@
    }

    open spec fn lanes(&self) -> nat {
        1
    }

    fn name(&self) -> (r: &'static str) {
        proof {
            reveal_strlit("scalar");
        }
        "scalar"
    }

    fn batch_size(&self) -> (r: usize) {
        1
    }

    fn filter_unvisited_into(&self, neighbors: &[u32], visited: &[u64], out: &mut Vec<u32>) {
        scalar_filter_into(neighbors, visited, out);
    }
}

/// Backend that tests blocks of four indices (the width of a 128-bit
/// register of `u32` lanes).
#[derive(Debug, Default, Clone, Copy)]
pub struct NeonBackend;

impl SimdBackend for NeonBackend {
    open spec fn backend_label(&self) -> Seq<char> {
        "neon"@
    }

    open spec fn lanes(&self) -> nat {
        4
    }

    fn name(&self) -> (r: &'static str) {
        proof {
            reveal_strlit("neon");
        }
        "neon"
    }

    fn batch_size(&self) -> (r: usize) {
        4
    }

    fn filter_unvisited_into(&self, neighbors: &[u32], visited: &[u64], out: &mut Vec<u32>) {
        out.clear();
        blocked_filter_into_no_clear(neighbors, visited, out, 4);
        proof {
            assert(Seq::<u32>::empty() + unvisited(neighbors@, visited@) =~= unvisited(neighbors@, visited@));
        }
    }
}

/// Backend that tests blocks of eight indices (the width of a 256-bit
/// register of `u32` lanes).
#[derive(Debug, Default, Clone, Copy)]
pub struct Avx2Backend;

impl SimdBackend for Avx2Backend {
    open spec fn backend_label(&self) -> Seq<char> {
        "avx2"@
    }

    open spec fn lanes(&self) -> nat {
        8
    }

    fn name(&self) -> (r: &'static str) {
        proof {
            reveal_strlit("avx2");
        }
        "avx2"
    }

    fn batch_size(&self) -> (r: usize) {
        8
    }

    fn filter_unvisited_into(&self, neighbors: &[u32], visited: &[u64], out: &mut Vec<u32>) {
        out.clear();
        Avx2Backend::filter_avx2(neighbors, visited, out);
        proof {
            assert(Seq::<u32>::empty() + unvisited(neighbors@, visited@) =~= unvisited(neighbors@, visited@));
        }
    }
}

impl Avx2Backend {
    /// The eight-lane kernel: appends the unvisited indices of `neighbors`,
    /// in order, to `out`, without clearing it; indices beyond the bitset
    /// count as visited and no word outside `visited` is read.
    pub fn filter_avx2(neighbors: &[u32], visited: &[u64], out: &mut Vec<u32>)
        ensures
            final(out)@ == old(out)@ + unvisited(neighbors@, visited@),
    {
        blocked_filter_into_no_clear(neighbors, visited, out, 8);
    }
}

/// Backend declared for sixteen-lane hardware; it runs the eight-lane
/// kernel.
#[derive(Debug, Default, Clone, Copy)]
pub struct Avx512Backend;

impl SimdBackend for Avx512Backend {
    open spec fn backend_label(&self) -> Seq<char> {
        "avx512"@
    }

    open spec fn lanes(&self) -> nat {
        16
    }

    fn name(&self) -> (r: &'static str) {
        proof {
            reveal_strlit("avx512");
        }
        "avx512"
    }

    fn batch_size(&self) -> (r: usize) {
        16
    }

    fn filter_unvisited_into(&self, neighbors: &[u32], visited: &[u64], out: &mut Vec<u32>) {
        Avx2Backend.filter_unvisited_into(neighbors, visited, out);
    }
}

/// The backend for a CPU with the given features: sixteen lanes with
/// AVX-512F, eight with AVX2, else scalar.
pub fn select_backend_for(has_avx512f: bool, has_avx2: bool) -> (r: Box<dyn SimdBackend>) {
    if has_avx512f {
        return Box::new(Avx512Backend);
    }
    if has_avx2 {
        return Box::new(Avx2Backend);
    }
    Box::new(ScalarBackend)
}

/// The name of the backend that `select_backend_for` picks.
pub fn backend_name_for(has_avx512f: bool, has_avx2: bool) -> (r: &'static str)
    ensures
        has_avx512f ==> r@ == "avx512"@,
        !has_avx512f && has_avx2 ==> r@ == "avx2"@,
        !has_avx512f && !has_avx2 ==> r@ == "scalar"@,
{
    if has_avx512f {
        return "avx512";
    }
    if has_avx2 {
        return "avx2";
    }
    "scalar"
}

/// The default backend: scalar. Every backend computes the same filter;
/// callers that probe the CPU pick one with `select_backend_for`.
pub fn select_backend() -> (r: Box<dyn SimdBackend>) {
    select_backend_for(false, false)
}

/// The name of the default backend.
pub fn backend_name() -> (r: &'static str)
    ensures
        r@ == "scalar"@,
{
    backend_name_for(false, false)
}

} // verus!
