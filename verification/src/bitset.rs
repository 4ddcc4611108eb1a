//! Dense bitsets over `u64` words, for visited tracking in traversals.
//!
//! Bit `i` lives in word `i / 64` at position `i % 64`.

use vstd::prelude::*;

verus! {

/// Bit `b` of word `w`.
pub open spec fn word_bit(w: u64, b: u64) -> bool {
    (w >> b) & 1 == 1
}

/// Bit `i` of a word sequence; positions beyond the words read as unset.
pub open spec fn bit_at(words: Seq<u64>, i: int) -> bool {
    0 <= i && i / 64 < words.len() && word_bit(words[i / 64], (i % 64) as u64)
}

/// Number of set bits among the first `n` positions.
pub open spec fn set_count(words: Seq<u64>, n: nat) -> nat
    decreases n,
{
    if n == 0 {
        0
    } else {
        set_count(words, (n - 1) as nat) + if bit_at(words, n - 1) {
            1nat
        } else {
            0nat
        }
    }
}

pub proof fn lemma_or_bit(w: u64, b: u64, c: u64)
    requires
        b < 64,
        c < 64,
    ensures
        word_bit(w | (1u64 << b), c) == (word_bit(w, c) || b == c),
{
    assert(((w | (1u64 << b)) >> c) & 1 == 1 <==> (((w >> c) & 1 == 1) || b == c)) by (bit_vector)
        requires
            b < 64,
            c < 64,
    ;
}

pub proof fn lemma_mask_bit(w: u64, b: u64)
    requires
        b < 64,
    ensures
        ((w & (1u64 << b)) == 0) == !word_bit(w, b),
{
    assert(((w & (1u64 << b)) == 0) <==> !((w >> b) & 1 == 1)) by (bit_vector)
        requires
            b < 64,
    ;
}

pub proof fn lemma_zero_bit(b: u64)
    requires
        b < 64,
    ensures
        !word_bit(0, b),
{
    assert(!((0u64 >> b) & 1 == 1)) by (bit_vector)
        requires
            b < 64,
    ;
}

pub proof fn lemma_and_not_bit(w: u64, b: u64, c: u64)
    requires
        b < 64,
        c < 64,
    ensures
        word_bit(w & !(1u64 << b), c) == (word_bit(w, c) && b != c),
{
    assert(((w & !(1u64 << b)) >> c) & 1 == 1 <==> (((w >> c) & 1 == 1) && b != c)) by (bit_vector)
        requires
            b < 64,
            c < 64,
    ;
}

/// Clearing bit `i` of word sequence `words`: every other bit stays.
pub proof fn lemma_clear_bit(words: Seq<u64>, i: int, j: int)
    requires
        0 <= i,
        i / 64 < words.len(),
    ensures
        bit_at(words.update(i / 64, words[i / 64] & !(1u64 << ((i % 64) as u64))), j) == (bit_at(words, j)
            && i != j),
{
    if 0 <= j && j / 64 < words.len() {
        if j / 64 == i / 64 {
            lemma_and_not_bit(words[i / 64], (i % 64) as u64, (j % 64) as u64);
            if i % 64 == j % 64 {
                assert(i == j);
            }
        }
    }
}

/// Tests bit `i` of `words`.
pub fn test_bit(words: &[u64], i: u32) -> (r: bool)
    requires
        (i as int) / 64 < words@.len(),
    ensures
        r == bit_at(words@, i as int),
{
    let w = (i / 64) as usize;
    let b = (i % 64) as u64;
    proof {
        lemma_mask_bit(words@[w as int], b);
    }
    (words[w] & (1u64 << b)) != 0
}

/// Sets bit `i` of `words`.
pub fn set_bit(words: &mut Vec<u64>, i: u32)
    requires
        (i as int) / 64 < old(words)@.len(),
    ensures
        final(words)@.len() == old(words)@.len(),
        forall|j: int| #[trigger] bit_at(final(words)@, j) == (bit_at(old(words)@, j) || j == i),
{
    let w = (i / 64) as usize;
    let b = (i % 64) as u64;
    let ghost before = words@;
    let v = words[w] | (1u64 << b);
    words.set(w, v);
    proof {
        assert forall|j: int| #[trigger] bit_at(words@, j) == (bit_at(before, j) || j == i) by {
            lemma_set_bit(before, i as int, j);
        }
    }
}

/// Clears bit `i` of `words`.
pub fn clear_bit(words: &mut Vec<u64>, i: u32)
    requires
        (i as int) / 64 < old(words)@.len(),
    ensures
        final(words)@.len() == old(words)@.len(),
        forall|j: int| #[trigger] bit_at(final(words)@, j) == (bit_at(old(words)@, j) && j != i),
{
    let w = (i / 64) as usize;
    let b = (i % 64) as u64;
    let ghost before = words@;
    let v = words[w] & !(1u64 << b);
    words.set(w, v);
    proof {
        assert forall|j: int| #[trigger] bit_at(words@, j) == (bit_at(before, j) && j != i) by {
            lemma_clear_bit(before, i as int, j);
        }
    }
}

/// Setting bit `i` of word sequence `words`: the word that holds it gains
/// the bit, every other bit stays.
pub proof fn lemma_set_bit(words: Seq<u64>, i: int, j: int)
    requires
        0 <= i,
        i / 64 < words.len(),
    ensures
        bit_at(words.update(i / 64, words[i / 64] | (1u64 << ((i % 64) as u64))), j) == (bit_at(words, j)
            || i == j),
        words.update(i / 64, words[i / 64] | (1u64 << ((i % 64) as u64))).len() == words.len(),
{
    let nw = words.update(i / 64, words[i / 64] | (1u64 << ((i % 64) as u64)));
    if 0 <= j && j / 64 < words.len() {
        if j / 64 == i / 64 {
            lemma_or_bit(words[i / 64], (i % 64) as u64, (j % 64) as u64);
            if i % 64 == j % 64 {
                assert(i == j);
            }
        }
    }
}

/// A bitset with a fixed capacity.
#[derive(Debug)]
pub struct AtomicBitset {
    bits: Vec<u64>,
    capacity: usize,
}

impl View for AtomicBitset {
    type V = Seq<bool>;

    /// Bit `i` for each position below the capacity.
    closed spec fn view(&self) -> Seq<bool> {
        Seq::new(self.capacity as nat, |i: int| bit_at(self.bits@, i))
    }
}

impl AtomicBitset {
    /// Enough words for the capacity, and no bit set at or beyond it.
    pub closed spec fn wf(&self) -> bool {
        &&& self.bits@.len() * 64 >= self.capacity
        &&& self.bits@.len() * 64 < self.capacity + 64
        &&& self.capacity + 63 <= usize::MAX
        &&& forall|i: int| self.capacity <= i ==> !#[trigger] bit_at(self.bits@, i)
    }

    /// The storage words.
    pub closed spec fn words(&self) -> Seq<u64> {
        self.bits@
    }

    /// Creates a new bitset with capacity for `n` bits, all initially unset.
    pub fn new(n: usize) -> (r: Self)
        requires
            n + 63 <= usize::MAX,
        ensures
            r.wf(),
            r@ == Seq::new(n as nat, |i: int| false),
            r.words().len() == (n + 63) / 64,
    {
        let num_words = (n + 63) / 64;
        let bits: Vec<u64> = vec![0u64; num_words];
        let r = AtomicBitset { bits, capacity: n };
        proof {
            assert forall|i: int| 0 <= i && i / 64 < r.bits@.len() implies !#[trigger] bit_at(r.bits@, i) by {
                lemma_zero_bit((i % 64) as u64);
            }
            assert(r@ =~= Seq::new(n as nat, |i: int| false));
        }
        r
    }

    /// Returns the capacity (maximum number of bits).
    pub fn capacity(&self) -> (r: usize)
        ensures
            r == self@.len(),
    {
        self.capacity
    }

    /// Tests if bit `i` is set; positions beyond the capacity read as unset.
    pub fn test(&self, i: usize) -> (r: bool)
        requires
            self.wf(),
        ensures
            r == (i < self@.len() && self@[i as int]),
    {
        if i >= self.capacity {
            return false;
        }
        let word = i / 64;
        let bit = (i % 64) as u64;
        proof {
            lemma_mask_bit(self.bits@[word as int], bit);
        }
        (self.bits[word] & (1u64 << bit)) != 0
    }

    /// Sets bit `i` and returns whether it was previously unset; positions
    /// beyond the capacity are ignored and give `false`.
    pub fn test_and_set(&mut self, i: usize) -> (r: bool)
        requires
            old(self).wf(),
        ensures
            final(self).wf(),
            r == (i < old(self)@.len() && !old(self)@[i as int]),
            i < old(self)@.len() ==> final(self)@ == old(self)@.update(i as int, true),
            i >= old(self)@.len() ==> final(self)@ == old(self)@,
    {
        if i >= self.capacity {
            return false;
        }
        let was_unset = !self.test(i);
        self.set(i);
        was_unset
    }

    /// Sets bit `i`; positions beyond the capacity are ignored.
    pub fn set(&mut self, i: usize)
        requires
            old(self).wf(),
        ensures
            final(self).wf(),
            i < old(self)@.len() ==> final(self)@ == old(self)@.update(i as int, true),
            i >= old(self)@.len() ==> final(self)@ == old(self)@,
    {
        if i >= self.capacity {
            return;
        }
        let word = i / 64;
        let bit = (i % 64) as u64;
        let ghost old_words = self.bits@;
        let w = self.bits[word] | (1u64 << bit);
        self.bits.set(word, w);
        proof {
            assert(self.bits@ == old_words.update(i as int / 64, old_words[i as int / 64] | (1u64 << ((i
                as int % 64) as u64))));
            assert forall|j: int| bit_at(self.bits@, j) == (bit_at(old_words, j) || i == j) by {
                lemma_set_bit(old_words, i as int, j);
            }
            assert forall|j: int| 0 <= j < self@.len() implies self@[j] == old(self)@.update(i as int, true)[j] by {
                lemma_set_bit(old_words, i as int, j);
            }
            assert forall|j: int| self.capacity <= j implies !#[trigger] bit_at(self.bits@, j) by {
                lemma_set_bit(old_words, i as int, j);
            }
            assert(self@ =~= old(self)@.update(i as int, true));
        }
    }

    /// Clears all bits.
    pub fn clear(&mut self)
        requires
            old(self).wf(),
        ensures
            final(self).wf(),
            final(self)@ == Seq::new(old(self)@.len(), |i: int| false),
    {
        let mut k: usize = 0;
        while k < self.bits.len()
            invariant
                k <= self.bits@.len(),
                self.capacity == old(self).capacity,
                self.bits@.len() == old(self).bits@.len(),
                forall|j: int| 0 <= j < k ==> self.bits@[j] == 0,
                forall|j: int| k <= j < self.bits@.len() ==> self.bits@[j] == old(self).bits@[j],
            decreases self.bits@.len() - k,
        {
            self.bits.set(k, 0);
            k = k + 1;
        }
        proof {
            assert forall|i: int| 0 <= i && i / 64 < self.bits@.len() implies !#[trigger] bit_at(self.bits@, i) by {
                lemma_zero_bit((i % 64) as u64);
            }
            assert(self@ =~= Seq::new(old(self)@.len(), |i: int| false));
        }
    }

    /// Returns the storage words.
    pub fn as_raw(&self) -> (r: &[u64])
        ensures
            r@ == self.words(),
            self.wf() ==> r@.len() == (self@.len() + 63) / 64,
            forall|i: int| 0 <= i < self@.len() ==> self@[i] == bit_at(r@, i),
    {
        proof {
            if self.wf() {
                let l = self.bits@.len() as int;
                let c = self.capacity as int;
                assert(l == (c + 63) / 64) by (nonlinear_arith)
                    requires
                        l * 64 >= c,
                        l * 64 < c + 64,
                        c >= 0,
                ;
            }
        }
        self.bits.as_slice()
    }

    /// Counts the number of set bits.
    pub fn count_ones(&self) -> (r: usize)
        requires
            self.wf(),
        ensures
            r == set_count(self.words(), self@.len()),
    {
        let mut total: usize = 0;
        let mut k: usize = 0;
        while k < self.bits.len()
            invariant
                self.wf(),
                k <= self.bits@.len(),
                total == set_count(self.bits@, (k * 64) as nat),
                total <= k * 64,
            decreases self.bits@.len() - k,
        {
            let w = self.bits[k];
            let mut b: u64 = 0;
            while b < 64
                invariant
                    self.wf(),
                    k < self.bits@.len(),
                    w == self.bits@[k as int],
                    b <= 64,
                    total == set_count(self.bits@, (k * 64 + b) as nat),
                    total <= k * 64 + b,
                decreases 64 - b,
            {
                proof {
                    assert((k * 64 + b) / 64 == k as int) by (nonlinear_arith)
                        requires
                            b < 64,
                    ;
                    assert((k * 64 + b) % 64 == b as int) by (nonlinear_arith)
                        requires
                            b < 64,
                    ;
                    assert(k * 64 + b < self.bits@.len() * 64) by (nonlinear_arith)
                        requires
                            b < 64,
                            k < self.bits@.len(),
                    ;
                }
                if (w >> b) & 1 == 1 {
                    total = total + 1;
                }
                b = b + 1;
            }
            k = k + 1;
        }
        proof {
            lemma_set_count_tail(self.bits@, self.capacity as nat, (self.bits@.len() * 64) as nat);
        }
        total
    }
}

/// Positions with no set bit add nothing to the count.
proof fn lemma_set_count_tail(words: Seq<u64>, lo: nat, hi: nat)
    requires
        lo <= hi,
        forall|i: int| lo <= i < hi ==> !#[trigger] bit_at(words, i),
    ensures
        set_count(words, hi) == set_count(words, lo),
    decreases hi - lo,
{
    if hi > lo {
        lemma_set_count_tail(words, lo, (hi - 1) as nat);
    }
}

/// The set bits of the first `n` positions of `words`, as booleans.
pub open spec fn bit_flags(words: Seq<u64>, n: nat) -> Seq<bool> {
    Seq::new(n, |i: int| bit_at(words, i))
}

proof fn lemma_set_count_filter(words: Seq<u64>, n: nat)
    ensures
        set_count(words, n) == bit_flags(words, n).filter(|b: bool| b).len(),
        set_count(words, n) <= n,
    decreases n,
{
    reveal(Seq::filter);
    if n > 0 {
        lemma_set_count_filter(words, (n - 1) as nat);
        assert(bit_flags(words, n).drop_last() =~= bit_flags(words, (n - 1) as nat));
    }
}

/// What `count_ones` counts is the number of positions below the capacity
/// whose bit is set, so never more than the capacity.
pub proof fn lemma_count_ones_counts(b: AtomicBitset)
    requires
        b.wf(),
    ensures
        set_count(b.words(), b@.len()) == b@.filter(|x: bool| x).len(),
        set_count(b.words(), b@.len()) <= b@.len(),
{
    lemma_set_count_filter(b.words(), b@.len());
    assert(b@ =~= bit_flags(b.words(), b@.len()));
}

} // verus!
