//! Deterministic synthetic graph generators for benchmarks, tests and
//! demos: `uniform` (fixed out-degree, uniform targets) and `rmat`
//! (R-MAT recursive-matrix graphs with Graph500 parameters). Both draw from
//! a seeded xorshift64 generator, so their output is a function of their
//! arguments.

use vstd::prelude::*;

verus! {

/// One step of the xorshift64 generator.
pub open spec fn xorshift_next(x: u64) -> u64 {
    let a = x ^ (x << 13u64);
    let b = a ^ (a >> 7u64);
    b ^ (b << 17u64)
}

/// The generator state after `k` steps from `seed`.
pub open spec fn xorshift_iter(seed: u64, k: nat) -> u64
    decreases k,
{
    if k == 0 {
        seed
    } else {
        xorshift_next(xorshift_iter(seed, (k - 1) as nat))
    }
}

/// Advances the generator and returns the new state.
fn xorshift(state: &mut u64) -> (r: u64)
    ensures
        r == xorshift_next(*old(state)),
        *final(state) == r,
{
    let mut x = *state;
    x = x ^ (x << 13u64);
    x = x ^ (x >> 7u64);
    x = x ^ (x << 17u64);
    *state = x;
    x
}

/// The edges of `uniform(nodes, degree, seed)`: edge `i` leaves node
/// `i / degree` for the target drawn at step `i + 1`.
pub open spec fn uniform_edge(nodes: u64, degree: u64, seed: u64, i: int) -> (u64, u64) {
    ((i / degree as int) as u64, (xorshift_iter(seed, (i + 1) as nat) % nodes) as u64)
}

/// Uniform random directed graph: `nodes` nodes, each with exactly
/// `degree` out-edges to uniformly drawn targets.
pub fn uniform(nodes: u64, degree: u64, seed: u64) -> (r: Vec<(u64, u64)>)
    requires
        nodes * degree <= u64::MAX,
        nodes * degree <= usize::MAX,
    ensures
        r@.len() == nodes * degree,
        forall|i: int| 0 <= i < r@.len() ==> #[trigger] r@[i] == uniform_edge(nodes, degree, seed, i),
        forall|i: int| 0 <= i < r@.len() ==> (#[trigger] r@[i]).0 < nodes && r@[i].1 < nodes,
{
    let mut state = seed;
    let mut edges: Vec<(u64, u64)> = Vec::new();
    let mut src: u64 = 0;
    while src < nodes
        invariant
            nodes * degree <= u64::MAX,
            src <= nodes,
            edges@.len() == src * degree,
            state == xorshift_iter(seed, (src * degree) as nat),
            forall|i: int| 0 <= i < edges@.len() ==> #[trigger] edges@[i] == uniform_edge(nodes, degree, seed, i),
            forall|i: int| 0 <= i < edges@.len() ==> (#[trigger] edges@[i]).0 < nodes && edges@[i].1 < nodes,
        decreases nodes - src,
    {
        let mut k: u64 = 0;
        while k < degree
            invariant
                nodes * degree <= u64::MAX,
                src < nodes,
                k <= degree,
                edges@.len() == src * degree + k,
                state == xorshift_iter(seed, (src * degree + k) as nat),
                forall|i: int| 0 <= i < edges@.len() ==> #[trigger] edges@[i] == uniform_edge(nodes, degree, seed, i),
                forall|i: int| 0 <= i < edges@.len() ==> (#[trigger] edges@[i]).0 < nodes && edges@[i].1 < nodes,
            decreases degree - k,
        {
            let x = xorshift(&mut state);
            proof {
                assert((src * degree + k) / degree as int == src as int) by (nonlinear_arith)
                    requires
                        k < degree,
                ;
                assert(src * degree + k + 1 <= nodes * degree) by (nonlinear_arith)
                    requires
                        src < nodes,
                        k < degree,
                ;
            }
            edges.push((src, x % nodes));
            k = k + 1;
        }
        proof {
            assert((src + 1) * degree == src * degree + degree) by (nonlinear_arith);
            assert((src + 1) * degree <= nodes * degree) by (nonlinear_arith)
                requires
                    src < nodes,
            ;
        }
        src = src + 1;
    }
    edges
}

/// Graph500 partition probabilities in 16-bit fixed point: a, a + b and
/// a + b + c for (a, b, c, d) = (0.57, 0.19, 0.19, 0.05).
pub const RMAT_A: u64 = 37_355;

pub const RMAT_AB: u64 = 49_807;

pub const RMAT_ABC: u64 = 62_259;

/// The quadrant a 16-bit draw selects, as (source bit, target bit).
pub open spec fn quadrant(r: u64) -> (u64, u64) {
    if r < RMAT_A {
        (0, 0)
    } else if r < RMAT_AB {
        (0, 1)
    } else if r < RMAT_ABC {
        (1, 0)
    } else {
        (1, 1)
    }
}

/// Completes an R-MAT edge from generator state `state` over the levels
/// `level - 1` down to `0`, with the bits chosen so far in `src` and
/// `dst`.
pub open spec fn rmat_fill(state: u64, level: nat, src: u64, dst: u64) -> (u64, u64)
    decreases level,
{
    if level == 0 {
        (src, dst)
    } else {
        let s1 = xorshift_next(state);
        let q = quadrant(s1 & 0xFFFF);
        rmat_fill(
            s1,
            (level - 1) as nat,
            src | (q.0 << ((level - 1) as u64)),
            dst | (q.1 << ((level - 1) as u64)),
        )
    }
}

/// Edge `i` of `rmat(scale, _, seed)`: drawn from the generator state
/// after `i * scale` steps, one step per level.
pub open spec fn rmat_edge(scale: u32, seed: u64, i: int) -> (u64, u64) {
    rmat_fill(xorshift_iter(seed, (i * scale) as nat), scale as nat, 0, 0)
}

proof fn lemma_or_below(x: u64, b: u64, level: u64, scale: u64)
    requires
        scale < 64,
        level < scale,
        x < (1u64 << scale),
        b <= 1,
    ensures
        (x | (b << level)) < (1u64 << scale),
{
    assert((x | (b << level)) < (1u64 << scale)) by (bit_vector)
        requires
            scale < 64,
            level < scale,
            x < (1u64 << scale),
            b <= 1,
    ;
}

/// R-MAT recursive-matrix graph over `2^scale` nodes with
/// `edge_factor * 2^scale` directed edges: each edge picks one quadrant per
/// level with the Graph500 probabilities, giving a skewed degree
/// distribution.
pub fn rmat(scale: u32, edge_factor: usize, seed: u64) -> (r: Vec<(u64, u64)>)
    requires
        scale < 64,
        edge_factor * vstd::arithmetic::power2::pow2(scale as nat) <= usize::MAX,
    ensures
        r@.len() == edge_factor * vstd::arithmetic::power2::pow2(scale as nat),
        forall|i: int| 0 <= i < r@.len() ==> #[trigger] r@[i] == rmat_edge(scale, seed, i),
        forall|i: int|
            0 <= i < r@.len() ==> (#[trigger] r@[i]).0 < vstd::arithmetic::power2::pow2(scale as nat) && r@[i].1
                < vstd::arithmetic::power2::pow2(scale as nat),
{
    let nodes: u64 = 1u64 << (scale as u64);
    proof {
        vstd::arithmetic::power2::lemma2_to64();
        vstd::arithmetic::power2::lemma2_to64_rest();
        vstd::arithmetic::power2::lemma_pow2_strictly_increases(scale as nat, 64);
        vstd::bits::lemma_u64_shl_is_mul(1, scale as u64);
        vstd::arithmetic::power2::lemma_pow2_pos(scale as nat);
        assert(nodes == vstd::arithmetic::power2::pow2(scale as nat));
    }
    let edge_count: usize = if edge_factor == 0 {
        0
    } else {
        proof {
            assert(edge_factor * nodes >= nodes) by (nonlinear_arith)
                requires
                    edge_factor >= 1,
            ;
        }
        edge_factor * (nodes as usize)
    };
    let mut state = seed;
    let mut edges: Vec<(u64, u64)> = Vec::new();
    let mut e: usize = 0;
    while e < edge_count
        invariant
            scale < 64,
            nodes == (1u64 << (scale as u64)),
            e <= edge_count,
            edges@.len() == e,
            state == xorshift_iter(seed, (e * scale) as nat),
            forall|i: int| 0 <= i < edges@.len() ==> #[trigger] edges@[i] == rmat_edge(scale, seed, i),
            forall|i: int| 0 <= i < edges@.len() ==> (#[trigger] edges@[i]).0 < nodes && edges@[i].1 < nodes,
        decreases edge_count - e,
    {
        let ghost start = state;
        let mut src: u64 = 0;
        let mut dst: u64 = 0;
        let mut level: u32 = scale;
        proof {
            assert(0u64 < (1u64 << (scale as u64))) by (bit_vector)
                requires
                    scale < 64,
            ;
        }
        while level > 0
            invariant
                scale < 64,
                nodes == (1u64 << (scale as u64)),
                level <= scale,
                state == xorshift_iter(start, (scale - level) as nat),
                rmat_fill(state, level as nat, src, dst) == rmat_fill(start, scale as nat, 0, 0),
                src < nodes,
                dst < nodes,
            decreases level,
        {
            let x = xorshift(&mut state);
            let r = x & 0xFFFF;
            let (src_bit, dst_bit): (u64, u64) = if r < RMAT_A {
                (0, 0)
            } else if r < RMAT_AB {
                (0, 1)
            } else if r < RMAT_ABC {
                (1, 0)
            } else {
                (1, 1)
            };
            proof {
                lemma_or_below(src, src_bit, (level - 1) as u64, scale as u64);
                lemma_or_below(dst, dst_bit, (level - 1) as u64, scale as u64);
            }
            src = src | (src_bit << ((level - 1) as u64));
            dst = dst | (dst_bit << ((level - 1) as u64));
            level = level - 1;
        }
        proof {
            assert(e * scale + scale == (e + 1) * scale) by (nonlinear_arith);
            lemma_iter_add(seed, (e * scale) as nat, scale as nat);
        }
        edges.push((src, dst));
        e = e + 1;
    }
    edges
}

proof fn lemma_iter_add(seed: u64, a: nat, b: nat)
    ensures
        xorshift_iter(xorshift_iter(seed, a), b) == xorshift_iter(seed, a + b),
    decreases b,
{
    if b > 0 {
        lemma_iter_add(seed, a, (b - 1) as nat);
    }
}

/// Bit `l` of `x`.
pub open spec fn bit_of(x: u64, l: u64) -> bool {
    (x >> l) & 1 == 1
}

proof fn lemma_set_bit_here(x: u64, b: u64, k: u64)
    requires
        k < 64,
        b <= 1,
        !bit_of(x, k),
    ensures
        bit_of(x | (b << k), k) == (b == 1),
{
    assert(((x >> k) & 1 != 1 && b <= 1 && k < 64) ==> ((((x | (b << k)) >> k) & 1 == 1) == (b == 1)))
        by (bit_vector);
}

proof fn lemma_set_bit_elsewhere(x: u64, b: u64, k: u64, l: u64)
    requires
        k < 64,
        l < 64,
        l != k,
        b <= 1,
    ensures
        bit_of(x | (b << k), l) == bit_of(x, l),
{
    assert((b <= 1 && k < 64 && l < 64 && l != k) ==> ((((x | (b << k)) >> l) & 1 == 1) == ((x >> l) & 1 == 1)))
        by (bit_vector);
}

/// The bits that `rmat_fill` sets: bit `l` below `level` comes from the
/// draw `level - l` steps after `state` (source bit: the lower half of the
/// quadrants; target bit: the right column), the other bits are those of
/// `src` and `dst`.
proof fn lemma_fill_bits(state: u64, level: nat, src: u64, dst: u64, l: u64)
    requires
        level < 64,
        l < 64,
        forall|k: u64| k < level ==> !#[trigger] bit_of(src, k),
        forall|k: u64| k < level ==> !#[trigger] bit_of(dst, k),
    ensures
        ({
            let x = xorshift_iter(state, (level - l) as nat) & 0xFFFF;
            &&& l < level ==> (bit_of(rmat_fill(state, level, src, dst).0, l) <==> x >= RMAT_AB)
            &&& l < level ==> (bit_of(rmat_fill(state, level, src, dst).1, l) <==> ((RMAT_A <= x && x < RMAT_AB)
                || x >= RMAT_ABC))
            &&& l >= level ==> bit_of(rmat_fill(state, level, src, dst).0, l) == bit_of(src, l)
            &&& l >= level ==> bit_of(rmat_fill(state, level, src, dst).1, l) == bit_of(dst, l)
        }),
    decreases level,
{
    if level > 0 {
        let s1 = xorshift_next(state);
        let q = quadrant(s1 & 0xFFFF);
        let k = (level - 1) as u64;
        let src2 = src | (q.0 << k);
        let dst2 = dst | (q.1 << k);
        assert forall|j: u64| j < (level - 1) implies !#[trigger] bit_of(src2, j) by {
            lemma_set_bit_elsewhere(src, q.0, k, j);
        }
        assert forall|j: u64| j < (level - 1) implies !#[trigger] bit_of(dst2, j) by {
            lemma_set_bit_elsewhere(dst, q.1, k, j);
        }
        lemma_fill_bits(s1, (level - 1) as nat, src2, dst2, l);
        assert(xorshift_iter(state, 0) == state);
        if l < level - 1 {
            lemma_iter_add(state, 1, (level - 1 - l) as nat);
            assert(xorshift_iter(state, 1) == s1);
        } else if l == level - 1 {
            assert(xorshift_iter(state, 1) == s1);
            lemma_set_bit_here(src, q.0, k);
            lemma_set_bit_here(dst, q.1, k);
        } else {
            lemma_set_bit_elsewhere(src, q.0, k, l);
            lemma_set_bit_elsewhere(dst, q.1, k, l);
        }
    }
}

/// Each bit of an R-MAT edge comes from the quadrant drawn for its level:
/// for edge `i` and bit `l`, the draw is the low 16 bits of the generator
/// state `scale - l` steps into the edge's run of `scale` steps; the source
/// bit is set exactly for the two lower quadrants (draws from `RMAT_AB`
/// on) and the target bit exactly for the two right-hand quadrants (draws
/// in `[RMAT_A, RMAT_AB)` or from `RMAT_ABC` on); bits from `scale` up are
/// clear. So a draw in `[RMAT_A, RMAT_AB)` gives source bit 0 and target
/// bit 1.
pub proof fn lemma_rmat_edge_bits(scale: u32, seed: u64, i: nat, l: u64)
    requires
        scale < 64,
        l < 64,
    ensures
        ({
            let e = rmat_edge(scale, seed, i as int);
            let x = xorshift_iter(seed, (i * scale + scale - l) as nat) & 0xFFFF;
            &&& l < scale ==> (bit_of(e.0, l) <==> x >= RMAT_AB)
            &&& l < scale ==> (bit_of(e.1, l) <==> ((RMAT_A <= x && x < RMAT_AB) || x >= RMAT_ABC))
            &&& l >= scale ==> !bit_of(e.0, l) && !bit_of(e.1, l)
        }),
{
    assert forall|k: u64| k < scale implies !#[trigger] bit_of(0u64, k) by {
        assert(((0u64 >> k) & 1) == 0) by (bit_vector);
    }
    assert(!bit_of(0u64, l)) by {
        assert(((0u64 >> l) & 1) == 0) by (bit_vector);
    }
    let start = xorshift_iter(seed, (i * scale) as nat);
    lemma_fill_bits(start, scale as nat, 0, 0, l);
    if l < scale {
        lemma_iter_add(seed, (i * scale) as nat, (scale - l) as nat);
        assert(i * scale + scale - l == (i * scale) + (scale - l));
    }
}

} // verus!
