//! Node-key dictionary: maps external (string) node identifiers to the
//! dense `u64` IDs the CSR kernel requires, with full reverse mapping.
//!
//! Every distinct key gets the next dense ID in insertion order,
//! collision-free and reversible. Lookups go through buckets keyed by the
//! 64-bit FNV-1a hash of the key's UTF-8 bytes.

use vstd::prelude::*;

use std::collections::HashMap;

verus! {

broadcast use vstd::std_specs::hash::group_hash_axioms;

/// 64-bit FNV-1a hash of a byte sequence.
pub open spec fn fnv1a(bytes: Seq<u8>) -> u64
    decreases bytes.len(),
{
    if bytes.len() == 0 {
        0xcbf2_9ce4_8422_2325u64
    } else {
        vstd::wrapping::u64_specs::wrapping_mul(fnv1a(bytes.drop_last()) ^ (bytes.last() as u64), 0x0100_0000_01b3u64)
    }
}

/// The bucket of a key: the hash of its UTF-8 encoding.
pub open spec fn key_hash(key: Seq<char>) -> u64 {
    fnv1a(vstd::utf8::encode_utf8(key))
}

fn hash_key(key: &str) -> (r: u64)
    ensures
        r == key_hash(key@),
{
    let bytes = key.as_bytes();
    let mut h: u64 = 0xcbf2_9ce4_8422_2325u64;
    let mut i: usize = 0;
    while i < bytes.len()
        invariant
            i <= bytes@.len(),
            bytes@ == vstd::utf8::encode_utf8(key@),
            h == fnv1a(bytes@.take(i as int)),
        decreases bytes@.len() - i,
    {
        proof {
            assert(bytes@.take(i + 1).drop_last() =~= bytes@.take(i as int));
        }
        h = (h ^ (bytes[i] as u64)).wrapping_mul(0x0100_0000_01b3u64);
        i = i + 1;
    }
    proof {
        assert(bytes@.take(i as int) =~= bytes@);
    }
    h
}

/// Bidirectional mapping between external node keys and dense `u64` IDs.
#[derive(Debug)]
pub struct NodeDictionary {
    buckets: HashMap<u64, Vec<usize>>,
    keys: Vec<String>,
}

impl View for NodeDictionary {
    type V = Seq<Seq<char>>;

    /// The keys, in ID order.
    closed spec fn view(&self) -> Seq<Seq<char>> {
        self.keys@.map_values(|s: String| s@)
    }
}

impl NodeDictionary {
    /// Keys are distinct and each ID sits in the bucket of its key's hash.
    #[verifier::opaque]
    pub closed spec fn wf(&self) -> bool {
        &&& self@.no_duplicates()
        &&& forall|id: int|
            0 <= id < self.keys@.len() ==> {
                let h = key_hash(#[trigger] self.keys@[id]@);
                &&& self.buckets@.contains_key(h)
                &&& self.buckets@[h]@.contains(id as usize)
            }
        &&& forall|h: u64, j: int|
            #![trigger self.buckets@[h]@[j]]
            self.buckets@.contains_key(h) && 0 <= j < self.buckets@[h]@.len() ==> {
                &&& self.buckets@[h]@[j] < self.keys@.len()
                &&& key_hash(self.keys@[self.buckets@[h]@[j] as int]@) == h
            }
    }

    /// A well-formed dictionary holds each key under one ID only: distinct
    /// IDs name distinct keys, so each key has a unique ID.
    pub proof fn lemma_ids_unique(&self)
        requires
            self.wf(),
        ensures
            self@.no_duplicates(),
            forall|i: int, j: int| 0 <= i < self@.len() && 0 <= j < self@.len() && #[trigger] self@[i] == #[trigger] self@[j] ==> i == j,
    {
        reveal(NodeDictionary::wf);
    }

    proof fn lemma_bucket_entry(&self, h: u64, q: int)
        requires
            self.wf(),
            self.buckets@.contains_key(h),
            0 <= q < self.buckets@[h]@.len(),
        ensures
            self.buckets@[h]@[q] < self.keys@.len(),
            key_hash(self.keys@[self.buckets@[h]@[q] as int]@) == h,
    {
        reveal(NodeDictionary::wf);
    }

    proof fn lemma_key_bucket(&self, i: int)
        requires
            self.wf(),
            0 <= i < self.keys@.len(),
        ensures
            self.buckets@.contains_key(key_hash(self.keys@[i]@)),
            self.buckets@[key_hash(self.keys@[i]@)]@.contains(i as usize),
    {
        reveal(NodeDictionary::wf);
    }

    proof fn lemma_view(&self, i: int)
        requires
            0 <= i < self.keys@.len(),
        ensures
            self@[i] == self.keys@[i]@,
            self@.len() == self.keys@.len(),
    {
    }

    /// Creates an empty dictionary.
    pub fn new() -> (r: Self)
        ensures
            r.wf(),
            r@ == Seq::<Seq<char>>::empty(),
    {
        let r = NodeDictionary { buckets: HashMap::new(), keys: Vec::new() };
        proof {
            reveal(NodeDictionary::wf);
            assert(r@ =~= Seq::<Seq<char>>::empty());
        }
        r
    }

    /// Returns the dense ID for `key`, if present.
    pub fn id_of(&self, key: &str) -> (r: Option<u64>)
        requires
            self.wf(),
        ensures
            r matches Some(id) ==> id < self@.len() && self@[id as int] == key@,
            r is None ==> !self@.contains(key@),
    {
        let h = hash_key(key);
        let owned = key.to_owned();
        let n = self.keys.len();
        match self.buckets.get(&h) {
            Some(bucket) => {
                proof {
                    assert(self.buckets@.contains_key(h));
                    assert(self.buckets@[h] == *bucket);
                    assert forall|q: int| 0 <= q < bucket@.len() implies (#[trigger] bucket@[q]) < self.keys@.len() by {
                        self.lemma_bucket_entry(h, q);
                    }
                }
                let mut j: usize = 0;
                while j < bucket.len()
                    invariant
                        forall|q: int| 0 <= q < bucket@.len() ==> (#[trigger] bucket@[q]) < self.keys@.len(),
                        h == key_hash(key@),
                        owned@ == key@,
                        j <= bucket@.len(),
                        forall|q: int| 0 <= q < j ==> self.keys@[#[trigger] bucket@[q] as int]@ != key@,
                        n == self.keys@.len(),
                    decreases bucket@.len() - j,
                {
                    let id = bucket[j];
                    proof {
                        assert(bucket@[j as int] == id);
                        assert(id < self.keys@.len());
                    }
                    if self.keys[id] == owned {
                        proof {
                            self.lemma_view(id as int);
                        }
                        return Some(id as u64);
                    }
                    j = j + 1;
                }
                proof {
                    if self@.contains(key@) {
                        let i = choose|i: int| 0 <= i < self@.len() && self@[i] == key@;
                        self.lemma_view(i);
                        assert(i < n);
                        self.lemma_key_bucket(i);
                        assert(self.buckets@[h]@.contains(i as usize));
                        assert(bucket@ == self.buckets@[h]@);
                        let q = choose|q: int| 0 <= q < bucket@.len() && bucket@[q] == i as usize;
                        assert(self.keys@[bucket@[q] as int]@ != key@);
                        assert(false);
                    }
                }
                None
            },
            None => {
                proof {
                    assert(!self.buckets@.contains_key(h));
                    if self@.contains(key@) {
                        let i = choose|i: int| 0 <= i < self@.len() && self@[i] == key@;
                        self.lemma_view(i);
                        self.lemma_key_bucket(i);
                        assert(false);
                    }
                }
                None
            },
        }
    }

    /// Returns the dense ID for `key`, assigning the next ID if unseen.
    pub fn get_or_insert(&mut self, key: &str) -> (r: u64)
        requires
            old(self).wf(),
        ensures
            final(self).wf(),
            old(self)@.contains(key@) ==> final(self)@ == old(self)@ && r < old(self)@.len()
                && old(self)@[r as int] == key@,
            !old(self)@.contains(key@) ==> final(self)@ == old(self)@.push(key@) && r == old(self)@.len(),
    {
        match self.id_of(key) {
            Some(id) => id,
            None => {
                let idx = self.keys.len();
                let id = idx as u64;
                let h = hash_key(key);
                let ghost before = *self;
                let mut bucket = match self.buckets.remove(&h) {
                    Some(b) => b,
                    None => Vec::new(),
                };
                let ghost b0 = bucket@;
                bucket.push(idx);
                self.buckets.insert(h, bucket);
                self.keys.push(key.to_owned());
                proof {
                    reveal(NodeDictionary::wf);
                    assert(self@ =~= before@.push(key@));
                    assert(before.buckets@.contains_key(h) ==> b0 == before.buckets@[h]@);
                    assert(!before.buckets@.contains_key(h) ==> b0 == Seq::<usize>::empty());
                    assert forall|i: int, j: int| 0 <= i < self@.len() && 0 <= j < self@.len() && i != j implies self@[i]
                        != self@[j] by {
                        if i < before@.len() && j < before@.len() {
                            assert(self@[i] == before@[i] && self@[j] == before@[j]);
                        } else if i < before@.len() {
                            assert(before@.contains(self@[i]));
                        } else if j < before@.len() {
                            assert(before@.contains(self@[j]));
                        }
                    }
                    assert forall|i: int| 0 <= i < self.keys@.len() implies {
                        let hh = key_hash(#[trigger] self.keys@[i]@);
                        &&& self.buckets@.contains_key(hh)
                        &&& self.buckets@[hh]@.contains(i as usize)
                    } by {
                        if i < before.keys@.len() {
                            assert(self.keys@[i] == before.keys@[i]);
                            let hh = key_hash(before.keys@[i]@);
                            if hh == h {
                                let q = choose|q: int| 0 <= q < b0.len() && b0[q] == i as usize;
                                assert(self.buckets@[h]@[q] == i as usize);
                            } else {
                                assert(self.buckets@[hh] == before.buckets@[hh]);
                            }
                        } else {
                            assert(self.keys@[i]@ == key@);
                            assert(self.buckets@[h]@[b0.len() as int] == idx);
                        }
                    }
                    assert forall|hh: u64, j: int|
                        #![trigger self.buckets@[hh]@[j]]
                        self.buckets@.contains_key(hh) && 0 <= j < self.buckets@[hh]@.len() implies {
                            &&& self.buckets@[hh]@[j] < self.keys@.len()
                            &&& key_hash(self.keys@[self.buckets@[hh]@[j] as int]@) == hh
                        } by {
                        if hh == h {
                            if j < b0.len() {
                                assert(self.buckets@[h]@[j] == b0[j]);
                                assert(before.buckets@[h]@[j] == b0[j]);
                                assert(self.keys@[b0[j] as int] == before.keys@[b0[j] as int]);
                            } else {
                                assert(self.buckets@[h]@[j] == idx);
                            }
                        } else {
                            assert(self.buckets@[hh] == before.buckets@[hh]);
                            let x = before.buckets@[hh]@[j];
                            assert(self.keys@[x as int] == before.keys@[x as int]);
                        }
                    }
                }
                id
            },
        }
    }

    /// Returns the external key for a dense ID, if present.
    pub fn key_of(&self, id: u64) -> (r: Option<&str>)
        ensures
            r matches Some(k) ==> id < self@.len() && k@ == self@[id as int],
            r is None ==> id >= self@.len(),
    {
        let n = self.keys.len();
        if id < n as u64 {
            let i = id as usize;
            Some(self.keys[i].as_str())
        } else {
            None
        }
    }

    /// Number of distinct keys.
    pub fn len(&self) -> (r: usize)
        ensures
            r == self@.len(),
    {
        self.keys.len()
    }

    /// Returns true if no keys have been interned.
    pub fn is_empty(&self) -> (r: bool)
        ensures
            r == (self@.len() == 0),
    {
        self.keys.len() == 0
    }

    /// The keys, in ID order.
    pub fn keys(&self) -> (r: &[String])
        ensures
            r@.map_values(|s: String| s@) == self@,
    {
        self.keys.as_slice()
    }
}

impl Default for NodeDictionary {
    fn default() -> (r: Self)
        ensures
            r.wf(),
            r@ == Seq::<Seq<char>>::empty(),
    {
        NodeDictionary::new()
    }
}

/// Interning the same key twice gives the same ID, and a second key a
/// different one; looking a key up after interning it finds that ID, and
/// the ID gives back the key.
pub proof fn lemma_interning_roundtrip(d: Seq<Seq<char>>, key: Seq<char>)
    requires
        d.no_duplicates(),
    ensures
        ({
            let id = if d.contains(key) {
                choose|i: int| 0 <= i < d.len() && d[i] == key
            } else {
                d.len() as int
            };
            let after = if d.contains(key) {
                d
            } else {
                d.push(key)
            };
            &&& 0 <= id < after.len()
            &&& after[id] == key
            &&& after.no_duplicates()
        }),
{
    if d.contains(key) {
        let i = choose|i: int| 0 <= i < d.len() && d[i] == key;
    } else {
        let after = d.push(key);
        assert forall|i: int, j: int| 0 <= i < after.len() && 0 <= j < after.len() && i != j implies after[i]
            != after[j] by {
            if i < d.len() && j < d.len() {
                assert(after[i] == d[i] && after[j] == d[j]);
            } else if i < d.len() {
                assert(d.contains(after[i]));
            } else if j < d.len() {
                assert(d.contains(after[j]));
            }
        }
    }
}

} // verus!
