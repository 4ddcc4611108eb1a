//! Delta layer for real-time graph updates.
//!
//! The delta layer stores insertions and deletions (tombstones) that have
//! not yet been compacted into the base CSR layer. Both sets live in
//! `dashmap` collections; the specifications below name their contents.

use vstd::prelude::*;

use dashmap::{DashMap, DashSet};

use crate::types::{EdgeData, NodeId};

verus! {

#[verifier::external_type_specification]
#[verifier::external_body]
#[verifier::reject_recursive_types(K)]
#[verifier::reject_recursive_types(V)]
#[verifier::reject_recursive_types(S)]
pub struct ExDashMap<K, V, S>(DashMap<K, V, S>);

#[verifier::external_type_specification]
#[verifier::external_body]
#[verifier::reject_recursive_types(K)]
#[verifier::reject_recursive_types(S)]
pub struct ExDashSet<K, S>(DashSet<K, S>);

/// The entries held by a map of pending edge insertions.
pub uninterp spec fn pending_insertions(m: DashMap<(u64, u64), EdgeData>) -> Map<
    (u64, u64),
    EdgeData,
>;

/// The keys held by a set of edge tombstones.
pub uninterp spec fn pending_deletions(s: DashSet<(u64, u64)>) -> Set<(u64, u64)>;

/// `DashMap::new`: the new map holds no entries.
#[verifier::external_body]
fn insertions_new() -> (m: DashMap<(u64, u64), EdgeData>)
    ensures
        pending_insertions(m) == no_insertions(),
{
    DashMap::new()
}

/// `DashMap::insert`: afterwards `key` maps to `value`, every other entry
/// is unchanged.
#[verifier::external_body]
fn insertions_insert(m: &mut DashMap<(u64, u64), EdgeData>, key: (u64, u64), value: EdgeData)
    ensures
        pending_insertions(*final(m)) == pending_insertions(*old(m)).insert(key, value),
{
    m.insert(key, value);
}

/// `DashMap::remove`: drops the entry of `key` and hands it back, if there
/// was one.
#[verifier::external_body]
fn insertions_remove(m: &mut DashMap<(u64, u64), EdgeData>, key: (u64, u64)) -> (r: Option<
    ((u64, u64), EdgeData),
>)
    ensures
        pending_insertions(*final(m)) == pending_insertions(*old(m)).remove(key),
        pending_insertions(*old(m)).dom().contains(key) ==> r == Some(
            (key, pending_insertions(*old(m))[key]),
        ),
        !pending_insertions(*old(m)).dom().contains(key) ==> r is None,
{
    m.remove(&key)
}

/// `DashMap::contains_key`.
#[verifier::external_body]
fn insertions_contains_key(m: &DashMap<(u64, u64), EdgeData>, key: (u64, u64)) -> (r: bool)
    ensures
        r == pending_insertions(*m).dom().contains(key),
{
    m.contains_key(&key)
}

/// `DashMap::len`: the number of entries.
#[verifier::external_body]
fn insertions_len(m: &DashMap<(u64, u64), EdgeData>) -> (r: usize)
    ensures
        r as nat == pending_insertions(*m).dom().len(),
{
    m.len()
}

/// `DashMap::clear`: the map becomes empty.
#[verifier::external_body]
fn insertions_clear(m: &mut DashMap<(u64, u64), EdgeData>)
    ensures
        pending_insertions(*final(m)) == no_insertions(),
{
    m.clear();
}

/// `DashMap::iter`, each entry mapped to its key: every key exactly once,
/// in an order that the map leaves open.
#[verifier::external_body]
fn insertions_keys(m: &DashMap<(u64, u64), EdgeData>) -> (r: Vec<(u64, u64)>)
    ensures
        r@.no_duplicates(),
        forall|k: (u64, u64)| r@.contains(k) <==> pending_insertions(*m).dom().contains(k),
{
    m.iter().map(|e| *e.key()).collect()
}

/// `DashSet::new`: the new set is empty.
#[verifier::external_body]
fn deletions_new() -> (s: DashSet<(u64, u64)>)
    ensures
        pending_deletions(s) == no_keys(),
{
    DashSet::new()
}

/// `DashSet::insert`: afterwards `key` is in the set.
#[verifier::external_body]
fn deletions_insert(s: &mut DashSet<(u64, u64)>, key: (u64, u64))
    ensures
        pending_deletions(*final(s)) == pending_deletions(*old(s)).insert(key),
{
    s.insert(key);
}

/// `DashSet::remove`: afterwards `key` is not in the set.
#[verifier::external_body]
fn deletions_remove(s: &mut DashSet<(u64, u64)>, key: (u64, u64))
    ensures
        pending_deletions(*final(s)) == pending_deletions(*old(s)).remove(key),
{
    s.remove(&key);
}

/// `DashSet::contains`.
#[verifier::external_body]
fn deletions_contains(s: &DashSet<(u64, u64)>, key: (u64, u64)) -> (r: bool)
    ensures
        r == pending_deletions(*s).contains(key),
{
    s.contains(&key)
}

/// `DashSet::len`: the number of keys.
#[verifier::external_body]
fn deletions_len(s: &DashSet<(u64, u64)>) -> (r: usize)
    ensures
        r as nat == pending_deletions(*s).len(),
{
    s.len()
}

/// `DashSet::clear`: the set becomes empty.
#[verifier::external_body]
fn deletions_clear(s: &mut DashSet<(u64, u64)>)
    ensures
        pending_deletions(*final(s)) == no_keys(),
{
    s.clear();
}

/// `DashSet::iter`, each entry mapped to its key: every key exactly once,
/// in an order that the set leaves open.
#[verifier::external_body]
fn deletions_keys(s: &DashSet<(u64, u64)>) -> (r: Vec<(u64, u64)>)
    ensures
        r@.no_duplicates(),
        forall|k: (u64, u64)| r@.contains(k) <==> pending_deletions(*s).contains(k),
{
    s.iter().map(|e| *e.key()).collect()
}

/// The empty insertion map.
pub open spec fn no_insertions() -> Map<(u64, u64), EdgeData> {
    Map::empty()
}

/// The empty key set.
pub open spec fn no_keys() -> Set<(u64, u64)> {
    Set::empty()
}

/// Bytes held by a delta layer with `ins` insertions and `del` tombstones:
/// one key and one payload per insertion, one key per tombstone, and the
/// layer itself.
pub open spec fn delta_bytes(ins: nat, del: nat) -> nat {
    ins * (vstd::layout::size_of::<(NodeId, NodeId)>() + vstd::layout::size_of::<EdgeData>()) + del
        * vstd::layout::size_of::<(NodeId, NodeId)>() + vstd::layout::size_of::<DeltaLayer>()
}

/// Abstract contents of a delta layer.
pub struct DeltaView {
    /// Pending insertions with their edge data.
    pub ins: Map<(u64, u64), EdgeData>,
    /// Tombstones of deleted edges.
    pub del: Set<(u64, u64)>,
}

impl DeltaView {
    /// Both collections are finite and no edge is both inserted and deleted.
    pub open spec fn wf(self) -> bool {
        &&& self.ins.dom().finite()
        &&& self.del.finite()
        &&& forall|k: (u64, u64)| self.ins.dom().contains(k) ==> !#[trigger] self.del.contains(k)
    }

    /// The targets inserted for `from`.
    pub open spec fn targets(self, from: u64) -> Set<u64> {
        Set::new(|t: u64| self.ins.dom().contains((from, t)))
    }
}

/// Number of keys of `s` whose source is `from`.
pub open spec fn count_from(s: Set<(u64, u64)>, from: u64) -> nat {
    s.filter(from_source(from)).len()
}

/// Holds of the keys whose source is `from`.
pub open spec fn from_source(from: u64) -> spec_fn((u64, u64)) -> bool {
    |k: (u64, u64)| k.0 == from
}

/// Lock-free delta layer for real-time edge updates.
#[derive(Debug)]
pub struct DeltaLayer {
    insertions: DashMap<(u64, u64), EdgeData>,
    deletions: DashSet<(u64, u64)>,
}

impl View for DeltaLayer {
    type V = DeltaView;

    closed spec fn view(&self) -> DeltaView {
        DeltaView {
            ins: pending_insertions(self.insertions),
            del: pending_deletions(self.deletions),
        }
    }
}

/// Counts the keys of `keys` whose source is `from`.
fn count_source(keys: &Vec<(u64, u64)>, from: u64) -> (r: usize)
    requires
        keys@.no_duplicates(),
    ensures
        r as nat == count_from(keys@.to_set(), from),
{
    let mut count: usize = 0;
    let ghost mut seen: Seq<(u64, u64)> = Seq::empty();
    let mut i: usize = 0;
    while i < keys.len()
        invariant
            i <= keys.len(),
            keys@.no_duplicates(),
            seen.no_duplicates(),
            count == seen.len(),
            count <= i,
            seen.to_set() == keys@.take(i as int).to_set().filter(from_source(from)),
        decreases keys.len() - i,
    {
        let k = keys[i];
        proof {
            assert(keys@.take(i as int + 1) =~= keys@.take(i as int).push(k));
            keys@.take(i as int).lemma_push_to_set_commute(k);
            assert forall|j: int| 0 <= j < seen.len() implies #[trigger] seen[j] != k by {
                assert(seen.to_set().contains(seen[j]));
                assert(keys@.take(i as int).contains(seen[j]));
                let jj = choose|jj: int| 0 <= jj < i && keys@.take(i as int)[jj] == seen[j];
                assert(keys@.take(i as int)[jj] == seen[j]);
            }
        }
        if k.0 == from {
            proof {
                seen.lemma_push_to_set_commute(k);
                let ghost old_seen = seen;
                seen = seen.push(k);
                assert(seen.to_set() == old_seen.to_set().insert(k));
                assert(keys@.take(i as int + 1).to_set() == keys@.take(i as int).to_set().insert(k));
                assert(from_source(from)(k));
                assert(seen.to_set() =~= keys@.take(i as int + 1).to_set().filter(from_source(from)));
            }
            count = count + 1;
        } else {
            proof {
                assert(keys@.take(i as int + 1).to_set() == keys@.take(i as int).to_set().insert(k));
                assert(!from_source(from)(k));
                assert(seen.to_set() =~= keys@.take(i as int + 1).to_set().filter(from_source(from)));
            }
        }
        i = i + 1;
    }
    proof {
        assert(keys@.take(keys@.len() as int) =~= keys@);
        seen.unique_seq_to_set();
    }
    count
}

impl DeltaLayer {
    /// The layer's own invariant.
    pub open spec fn wf(&self) -> bool {
        self@.wf()
    }

    /// Creates a new empty delta layer.
    pub fn new() -> (r: Self)
        ensures
            r.wf(),
            r@.ins == no_insertions(),
            r@.del == no_keys(),
    {
        DeltaLayer { insertions: insertions_new(), deletions: deletions_new() }
    }

    /// Inserts an edge into the delta layer, removing any tombstone it had.
    pub fn insert(&mut self, from: NodeId, to: NodeId, data: EdgeData)
        requires
            old(self).wf(),
        ensures
            final(self).wf(),
            final(self)@.ins == old(self)@.ins.insert((from.0, to.0), data),
            final(self)@.del == old(self)@.del.remove((from.0, to.0)),
    {
        deletions_remove(&mut self.deletions, (from.0, to.0));
        insertions_insert(&mut self.insertions, (from.0, to.0), data);
    }

    /// Deletes an edge: drops a pending insertion and adds a tombstone.
    pub fn delete(&mut self, from: NodeId, to: NodeId)
        requires
            old(self).wf(),
        ensures
            final(self).wf(),
            final(self)@.ins == old(self)@.ins.remove((from.0, to.0)),
            final(self)@.del == old(self)@.del.insert((from.0, to.0)),
    {
        insertions_remove(&mut self.insertions, (from.0, to.0));
        deletions_insert(&mut self.deletions, (from.0, to.0));
    }

    /// Returns true if the edge has a tombstone (is deleted).
    pub fn is_deleted(&self, from: NodeId, to: NodeId) -> (r: bool)
        ensures
            r == self@.del.contains((from.0, to.0)),
    {
        deletions_contains(&self.deletions, (from.0, to.0))
    }

    /// Returns true if the edge exists in the insertion set.
    pub fn has_insertion(&self, from: NodeId, to: NodeId) -> (r: bool)
        ensures
            r == self@.ins.dom().contains((from.0, to.0)),
    {
        insertions_contains_key(&self.insertions, (from.0, to.0))
    }

    /// Returns the number of pending insertions for a specific source node.
    pub fn insertion_count_for(&self, from: NodeId) -> (r: usize)
        ensures
            r as nat == count_from(self@.ins.dom(), from.0),
    {
        let keys = insertions_keys(&self.insertions);
        proof {
            assert(keys@.to_set() =~= self@.ins.dom());
        }
        count_source(&keys, from.0)
    }

    /// Returns the number of pending deletions for a specific source node.
    pub fn deletion_count_for(&self, from: NodeId) -> (r: usize)
        ensures
            r as nat == count_from(self@.del, from.0),
    {
        let keys = deletions_keys(&self.deletions);
        proof {
            assert(keys@.to_set() =~= self@.del);
        }
        count_source(&keys, from.0)
    }

    /// Returns the targets added for `from` via delta insertions, each once,
    /// in an order that the underlying map leaves open.
    pub fn neighbors(&self, from: NodeId) -> (r: Vec<NodeId>)
        ensures
            r@.no_duplicates(),
            forall|t: NodeId| r@.contains(t) <==> self@.ins.dom().contains((from.0, t.0)),
    {
        let keys = insertions_keys(&self.insertions);
        let mut out: Vec<NodeId> = Vec::new();
        let mut i: usize = 0;
        while i < keys.len()
            invariant
                i <= keys.len(),
                keys@.no_duplicates(),
                forall|k: (u64, u64)| keys@.contains(k) <==> self@.ins.dom().contains(k),
                out@.no_duplicates(),
                forall|t: NodeId|
                    out@.contains(t) <==> exists|j: int|
                        0 <= j < i && #[trigger] keys@[j] == (from.0, t.0),
            decreases keys.len() - i,
        {
            let k = keys[i];
            let ghost prev = out@;
            if k.0 == from.0 {
                proof {
                    assert forall|j: int| 0 <= j < out@.len() implies #[trigger] out@[j] != NodeId(
                        k.1,
                    ) by {
                        if out@[j] == NodeId(k.1) {
                            assert(out@.contains(NodeId(k.1)));
                            let jj = choose|jj: int| 0 <= jj < i && #[trigger] keys@[jj] == (from.0, k.1);
                            assert(keys@[jj] == keys@[i as int]);
                        }
                    }
                }
                out.push(NodeId(k.1));
                proof {
                    assert(out@ == prev.push(NodeId(k.1)));
                    assert forall|t: NodeId|
                        out@.contains(t) <==> exists|j: int|
                            0 <= j < i + 1 && #[trigger] keys@[j] == (from.0, t.0) by {
                        if t == NodeId(k.1) {
                            assert(out@[prev.len() as int] == t);
                            assert(keys@[i as int] == (from.0, t.0));
                        } else {
                            if out@.contains(t) {
                                let jo = choose|jo: int| 0 <= jo < out@.len() && out@[jo] == t;
                                assert(jo < prev.len());
                                assert(prev[jo] == t);
                                assert(prev.contains(t));
                                let j = choose|j: int| 0 <= j < i && #[trigger] keys@[j] == (from.0, t.0);
                                assert(keys@[j] == (from.0, t.0));
                            }
                            if exists|j: int| 0 <= j < i + 1 && #[trigger] keys@[j] == (from.0, t.0) {
                                let j = choose|j: int| 0 <= j < i + 1 && #[trigger] keys@[j] == (from.0, t.0);
                                assert(j != i);
                                assert(keys@[j] == (from.0, t.0));
                                assert(prev.contains(t));
                                let jo = choose|jo: int| 0 <= jo < prev.len() && prev[jo] == t;
                                assert(out@[jo] == t);
                            }
                        }
                    }
                }
            } else {
                proof {
                    assert forall|t: NodeId|
                        out@.contains(t) <==> exists|j: int|
                            0 <= j < i + 1 && #[trigger] keys@[j] == (from.0, t.0) by {
                        if out@.contains(t) {
                            let j = choose|j: int| 0 <= j < i && #[trigger] keys@[j] == (from.0, t.0);
                            assert(keys@[j] == (from.0, t.0));
                        }
                        if exists|j: int| 0 <= j < i + 1 && #[trigger] keys@[j] == (from.0, t.0) {
                            let j = choose|j: int| 0 <= j < i + 1 && #[trigger] keys@[j] == (from.0, t.0);
                            assert(j != i);
                            assert(keys@[j] == (from.0, t.0));
                        }
                    }
                }
            }
            i = i + 1;
        }
        proof {
            assert forall|t: NodeId| out@.contains(t) <==> self@.ins.dom().contains((from.0, t.0)) by {
                if out@.contains(t) {
                    let j = choose|j: int| 0 <= j < keys@.len() && #[trigger] keys@[j] == (from.0, t.0);
                    assert(keys@.contains(keys@[j]));
                }
                if self@.ins.dom().contains((from.0, t.0)) {
                    assert(keys@.contains((from.0, t.0)));
                    let j = choose|j: int| 0 <= j < keys@.len() && keys@[j] == (from.0, t.0);
                    assert(keys@[j] == (from.0, t.0));
                }
            }
        }
        out
    }

    /// Returns the total number of entries (insertions + deletions),
    /// saturating at `usize::MAX`.
    pub fn len(&self) -> (r: usize)
        ensures
            r as nat == if self@.ins.dom().len() + self@.del.len() <= usize::MAX {
                self@.ins.dom().len() + self@.del.len()
            } else {
                usize::MAX as nat
            },
    {
        insertions_len(&self.insertions).saturating_add(deletions_len(&self.deletions))
    }

    /// Returns the approximate memory held by the pending mutations, in
    /// bytes, saturating at `usize::MAX`.
    pub fn memory_usage(&self) -> (r: usize)
        ensures
            r == crate::csr::sat(delta_bytes(self@.ins.dom().len(), self@.del.len()) as int),
    {
        let pair = std::mem::size_of::<(NodeId, NodeId)>();
        let data = std::mem::size_of::<EdgeData>();
        let own = std::mem::size_of::<DeltaLayer>();
        let ins = insertions_len(&self.insertions);
        let del = deletions_len(&self.deletions);
        let per_insertion = pair.saturating_add(data);
        let a = crate::csr::sat_mul(ins, per_insertion);
        let b = crate::csr::sat_mul(del, pair);
        let r = a.saturating_add(b).saturating_add(own);
        proof {
            let x = ins * (pair + data);
            if pair + data > usize::MAX && ins > 0 {
                assert(ins * per_insertion >= per_insertion) by (nonlinear_arith)
                    requires
                        ins >= 1,
                ;
                assert(x >= pair + data) by (nonlinear_arith)
                    requires
                        ins >= 1,
                        x == ins * (pair + data),
                ;
            }
            assert(a == crate::csr::sat(x));
            crate::csr::lemma_sat_sum(x, del * pair);
            crate::csr::lemma_sat_sum(x + del * pair, own as int);
        }
        r
    }

    /// Returns true if the delta layer is empty.
    pub fn is_empty(&self) -> (r: bool)
        requires
            self.wf(),
        ensures
            r <==> (self@.ins.dom() == Set::<(u64, u64)>::empty() && self@.del == no_keys()),
    {
        let a = insertions_len(&self.insertions);
        let b = deletions_len(&self.deletions);
        proof {
            if a == 0 {
                self@.ins.dom().lemma_len0_is_empty();
            }
            if b == 0 {
                self@.del.lemma_len0_is_empty();
            }
        }
        a == 0 && b == 0
    }

    /// Returns the number of pending insertions.
    pub fn insertion_count(&self) -> (r: usize)
        ensures
            r as nat == self@.ins.dom().len(),
    {
        insertions_len(&self.insertions)
    }

    /// Returns the number of pending deletions.
    pub fn deletion_count(&self) -> (r: usize)
        ensures
            r as nat == self@.del.len(),
    {
        deletions_len(&self.deletions)
    }

    /// Clears all entries from the delta layer.
    pub fn clear(&mut self)
        ensures
            final(self).wf(),
            final(self)@.ins == no_insertions(),
            final(self)@.del == no_keys(),
    {
        insertions_clear(&mut self.insertions);
        deletions_clear(&mut self.deletions);
    }

    /// Returns the keys of all pending insertions, each once, leaving the
    /// layer unchanged.
    pub fn snapshot_insertion_keys(&self) -> (r: Vec<(NodeId, NodeId)>)
        ensures
            r@.no_duplicates(),
            forall|f: NodeId, t: NodeId| r@.contains((f, t)) <==> self@.ins.dom().contains((f.0, t.0)),
    {
        let keys = insertions_keys(&self.insertions);
        pairs_of(&keys)
    }

    /// Returns all tombstones, each once, leaving the layer unchanged.
    pub fn snapshot_deletions(&self) -> (r: Vec<(NodeId, NodeId)>)
        ensures
            r@.no_duplicates(),
            forall|f: NodeId, t: NodeId| r@.contains((f, t)) <==> self@.del.contains((f.0, t.0)),
    {
        let keys = deletions_keys(&self.deletions);
        pairs_of(&keys)
    }

    /// Drains all insertions for compaction: returns every pending
    /// insertion with its data and leaves no insertion behind.
    pub fn drain_insertions(&mut self) -> (r: Vec<((NodeId, NodeId), EdgeData)>)
        requires
            old(self).wf(),
        ensures
            final(self).wf(),
            final(self)@.ins == no_insertions(),
            final(self)@.del == old(self)@.del,
            r@.len() == old(self)@.ins.dom().len(),
            forall|i: int, j: int|
                0 <= i < j < r@.len() ==> (#[trigger] r@[i]).0 != (#[trigger] r@[j]).0,
            forall|i: int|
                0 <= i < r@.len() ==> {
                    let e = #[trigger] r@[i];
                    &&& old(self)@.ins.dom().contains((e.0.0.0, e.0.1.0))
                    &&& old(self)@.ins[(e.0.0.0, e.0.1.0)] == e.1
                },
            forall|k: (u64, u64)|
                old(self)@.ins.dom().contains(k) ==> exists|i: int|
                    0 <= i < r@.len() && (#[trigger] r@[i]).0 == (NodeId(k.0), NodeId(k.1)),
    {
        let keys = insertions_keys(&self.insertions);
        let ghost orig = self@.ins;
        let mut out: Vec<((NodeId, NodeId), EdgeData)> = Vec::new();
        let mut i: usize = 0;
        while i < keys.len()
            invariant
                i <= keys.len(),
                keys@.no_duplicates(),
                forall|k: (u64, u64)| keys@.contains(k) <==> orig.dom().contains(k),
                self@.del == old(self)@.del,
                self@.ins == orig.remove_keys(keys@.take(i as int).to_set()),
                out@.len() == i,
                forall|j: int|
                    0 <= j < i ==> (#[trigger] out@[j]).0 == (NodeId(keys@[j].0), NodeId(
                        keys@[j].1,
                    )) && out@[j].1 == orig[keys@[j]],
            decreases keys.len() - i,
        {
            let k = keys[i];
            proof {
                assert(keys@.take(i as int + 1).to_set() =~= keys@.take(i as int).to_set().insert(
                    k,
                )) by {
                    assert(keys@.take(i as int + 1) =~= keys@.take(i as int).push(k));
                    keys@.take(i as int).lemma_push_to_set_commute(k);
                }
                assert(keys@.contains(k));
                assert(!keys@.take(i as int).to_set().contains(k)) by {
                    if keys@.take(i as int).contains(k) {
                        let jj = choose|jj: int| 0 <= jj < i && keys@.take(i as int)[jj] == k;
                        assert(keys@[jj] == keys@[i as int]);
                    }
                }
            }
            let removed = insertions_remove(&mut self.insertions, k);
            match removed {
                Some(entry) => {
                    out.push(((NodeId(entry.0.0), NodeId(entry.0.1)), entry.1));
                },
                None => {
                    proof {
                        assert(false);
                    }
                },
            }
            proof {
                assert(self@.ins =~= orig.remove_keys(keys@.take(i as int + 1).to_set()));
            }
            i = i + 1;
        }
        proof {
            assert(keys@.take(keys@.len() as int) =~= keys@);
            assert(keys@.to_set() =~= orig.dom());
            assert(self@.ins =~= Map::<(u64, u64), EdgeData>::empty());
            keys@.unique_seq_to_set();
            assert forall|k: (u64, u64)| orig.dom().contains(k) implies exists|i: int|
                0 <= i < out@.len() && (#[trigger] out@[i]).0 == (NodeId(k.0), NodeId(k.1)) by {
                assert(keys@.contains(k));
                let j = choose|j: int| 0 <= j < keys@.len() && keys@[j] == k;
                assert(out@[j].0 == (NodeId(k.0), NodeId(k.1)));
            }
        }
        out
    }

    /// Drains all deletions for compaction: returns every tombstone and
    /// leaves none behind.
    pub fn drain_deletions(&mut self) -> (r: Vec<(NodeId, NodeId)>)
        requires
            old(self).wf(),
        ensures
            final(self).wf(),
            final(self)@.del == no_keys(),
            final(self)@.ins == old(self)@.ins,
            r@.no_duplicates(),
            forall|f: NodeId, t: NodeId| r@.contains((f, t)) <==> old(self)@.del.contains((f.0, t.0)),
    {
        let keys = deletions_keys(&self.deletions);
        let out = pairs_of(&keys);
        deletions_clear(&mut self.deletions);
        out
    }
}

/// Converts raw key pairs to node pairs.
fn pairs_of(keys: &Vec<(u64, u64)>) -> (r: Vec<(NodeId, NodeId)>)
    requires
        keys@.no_duplicates(),
    ensures
        r@.no_duplicates(),
        r@.len() == keys@.len(),
        forall|i: int| 0 <= i < r@.len() ==> #[trigger] r@[i] == (NodeId(keys@[i].0), NodeId(keys@[i].1)),
        forall|f: NodeId, t: NodeId| r@.contains((f, t)) <==> keys@.contains((f.0, t.0)),
{
    let mut out: Vec<(NodeId, NodeId)> = Vec::new();
    let mut i: usize = 0;
    while i < keys.len()
        invariant
            i <= keys.len(),
            out@.len() == i,
            forall|j: int| 0 <= j < i ==> #[trigger] out@[j] == (NodeId(keys@[j].0), NodeId(keys@[j].1)),
        decreases keys.len() - i,
    {
        out.push((NodeId(keys[i].0), NodeId(keys[i].1)));
        i = i + 1;
    }
    proof {
        assert forall|a: int, b: int| 0 <= a < out@.len() && 0 <= b < out@.len() && a != b implies out@[a] != out@[b] by {
            assert(keys@[a] != keys@[b]);
        }
        assert forall|f: NodeId, t: NodeId| out@.contains((f, t)) <==> keys@.contains((f.0, t.0)) by {
            if keys@.contains((f.0, t.0)) {
                let j = choose|j: int| 0 <= j < keys@.len() && keys@[j] == (f.0, t.0);
                assert(out@[j] == (f, t));
            }
            if out@.contains((f, t)) {
                let j = choose|j: int| 0 <= j < out@.len() && out@[j] == (f, t);
                assert(keys@[j] == (f.0, t.0));
            }
        }
    }
    out
}

impl Default for DeltaLayer {
    fn default() -> (r: Self)
        ensures
            r.wf(),
            r@.ins == no_insertions(),
            r@.del == no_keys(),
    {
        DeltaLayer::new()
    }
}

} // verus!
