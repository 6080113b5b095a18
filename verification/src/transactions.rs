//! Scheduled changes. A change to a property of a node is a transaction kept
//! in an `IndexMap` by id, in scheduling order; at most one pending
//! transaction is tracked per animated value.
use vstd::prelude::*;
use indexmap::IndexMap;
use std::collections::HashMap;
use crate::storage::next_index;

verus! {

broadcast use vstd::std_specs::hash::group_hash_axioms;

#[verifier::external_type_specification]
#[verifier::external_body]
#[verifier::reject_recursive_types(K)]
#[verifier::reject_recursive_types(V)]
#[verifier::reject_recursive_types(S)]
pub struct ExIndexMap<K, V, S>(IndexMap<K, V, S>);

/// What the engine reads of a scheduled change: the node it targets, the
/// value it changes, and the animation that drives it, if any.
#[derive(Clone, Copy, Debug, PartialEq, Eq, Structural)]
pub struct TransactionRecord {
    pub node_id: usize,
    pub value_id: usize,
    pub animation_id: Option<usize>,
}

/// The entries of a transaction map, in order.
pub uninterp spec fn index_map_entries(m: IndexMap<usize, TransactionRecord>) -> Seq<(usize, TransactionRecord)>;

/// No key occurs twice.
pub open spec fn keys_distinct(e: Seq<(usize, TransactionRecord)>) -> bool {
    forall|i: int, j: int| 0 <= i < e.len() && 0 <= j < e.len() && i != j ==> e[i].0 != e[j].0
}

/// Whether `k` is a key of the entries.
pub open spec fn has_key(e: Seq<(usize, TransactionRecord)>, k: usize) -> bool {
    exists|i: int| 0 <= i < e.len() && e[i].0 == k
}

/// The position of key `k`.
pub open spec fn key_index(e: Seq<(usize, TransactionRecord)>, k: usize) -> int {
    choose|i: int| 0 <= i < e.len() && e[i].0 == k
}

/// The entries as a map from key to value.
pub open spec fn entries_map(e: Seq<(usize, TransactionRecord)>) -> Map<usize, TransactionRecord> {
    Map::new(|k: usize| has_key(e, k), |k: usize| e[key_index(e, k)].1)
}

/// The entries after `IndexMap::insert`: an existing key keeps its place and
/// takes the new value, a new key goes last.
pub open spec fn seq_insert(e: Seq<(usize, TransactionRecord)>, k: usize, v: TransactionRecord) -> Seq<(usize, TransactionRecord)> {
    if has_key(e, k) {
        e.update(key_index(e, k), (k, v))
    } else {
        e.push((k, v))
    }
}

/// The entries after `IndexMap::swap_remove`: the last entry takes the place
/// of the removed one.
pub open spec fn seq_swap_remove(e: Seq<(usize, TransactionRecord)>, k: usize) -> Seq<(usize, TransactionRecord)> {
    if has_key(e, k) {
        let i = key_index(e, k);
        if i == e.len() - 1 {
            e.drop_last()
        } else {
            e.update(i, e.last()).drop_last()
        }
    } else {
        e
    }
}

/// Creates an empty map (`IndexMap::new`).
#[verifier::external_body]
fn index_map_new() -> (r: IndexMap<usize, TransactionRecord>)
    ensures
        index_map_entries(r) == Seq::<(usize, TransactionRecord)>::empty(),
{
    IndexMap::new()
}

/// The number of entries (`IndexMap::len`).
#[verifier::external_body]
fn index_map_len(m: &IndexMap<usize, TransactionRecord>) -> (r: usize)
    ensures
        r == index_map_entries(*m).len(),
{
    m.len()
}

/// The value under a key (`IndexMap::get`).
#[verifier::external_body]
fn index_map_get(m: &IndexMap<usize, TransactionRecord>, k: usize) -> (r: Option<TransactionRecord>)
    ensures
        r == (if has_key(index_map_entries(*m), k) {
            Some(index_map_entries(*m)[key_index(index_map_entries(*m), k)].1)
        } else {
            None
        }),
{
    m.get(&k).copied()
}

/// The entry at a position (`IndexMap::get_index`).
#[verifier::external_body]
fn index_map_get_index(m: &IndexMap<usize, TransactionRecord>, i: usize) -> (r: (usize, TransactionRecord))
    requires
        i < index_map_entries(*m).len(),
    ensures
        r == index_map_entries(*m)[i as int],
{
    let (k, v) = m.get_index(i).unwrap();
    (*k, *v)
}

/// Inserts or replaces the value under a key (`IndexMap::insert`).
#[verifier::external_body]
fn index_map_insert(m: &mut IndexMap<usize, TransactionRecord>, k: usize, v: TransactionRecord) -> (r: Option<TransactionRecord>)
    ensures
        index_map_entries(*final(m)) == seq_insert(index_map_entries(*old(m)), k, v),
        r == (if has_key(index_map_entries(*old(m)), k) {
            Some(index_map_entries(*old(m))[key_index(index_map_entries(*old(m)), k)].1)
        } else {
            None
        }),
{
    m.insert(k, v)
}

/// Removes the entry under a key, moving the last entry into its place
/// (`IndexMap::swap_remove`).
#[verifier::external_body]
fn index_map_swap_remove(m: &mut IndexMap<usize, TransactionRecord>, k: usize) -> (r: Option<TransactionRecord>)
    ensures
        index_map_entries(*final(m)) == seq_swap_remove(index_map_entries(*old(m)), k),
        r == (if has_key(index_map_entries(*old(m)), k) {
            Some(index_map_entries(*old(m))[key_index(index_map_entries(*old(m)), k)].1)
        } else {
            None
        }),
{
    m.swap_remove(&k)
}

/// The pending transactions and, per value, the transaction that will set it.
pub struct Transactions {
    entries: IndexMap<usize, TransactionRecord>,
    next_id: usize,
    values: HashMap<usize, usize>,
}

impl Transactions {
    /// The pending transactions, in order.
    pub closed spec fn entries(&self) -> Seq<(usize, TransactionRecord)> {
        index_map_entries(self.entries)
    }

    /// The pending transactions by id.
    pub open spec fn pending(&self) -> Map<usize, TransactionRecord> {
        entries_map(self.entries())
    }

    /// For each value, the last transaction scheduled for it.
    pub closed spec fn values(&self) -> Map<usize, usize> {
        self.values@
    }

    /// The id the next scheduled transaction gets.
    pub closed spec fn next_id(&self) -> usize {
        self.next_id
    }

    /// No transaction id occurs twice.
    pub open spec fn wf(&self) -> bool {
        keys_distinct(self.entries())
    }

    /// No pending transaction.
    pub fn new() -> (r: Transactions)
        ensures
            r.wf(),
            r.entries() == Seq::<(usize, TransactionRecord)>::empty(),
            r.values() == Map::<usize, usize>::empty(),
            r.next_id() == 0,
    {
        Transactions { entries: index_map_new(), next_id: 0, values: HashMap::new() }
    }

    /// The number of pending transactions.
    pub fn len(&self) -> (r: usize)
        ensures
            r == self.entries().len(),
    {
        index_map_len(&self.entries)
    }

    /// The pending transaction at a position of the order.
    pub fn entry_at(&self, i: usize) -> (r: (usize, TransactionRecord))
        requires
            i < self.entries().len(),
        ensures
            r == self.entries()[i as int],
    {
        index_map_get_index(&self.entries, i)
    }

    /// The pending transaction with this id.
    pub fn get(&self, id: usize) -> (r: Option<TransactionRecord>)
        requires
            self.wf(),
        ensures
            r == (if self.pending().contains_key(id) {
                Some(self.pending()[id])
            } else {
                None
            }),
    {
        index_map_get(&self.entries, id)
    }

    /// The id of the last transaction scheduled for a value.
    pub fn transaction_for_value(&self, value_id: usize) -> (r: Option<usize>)
        ensures
            r == (if self.values().contains_key(value_id) {
                Some(self.values()[value_id])
            } else {
                None
            }),
    {
        match self.values.get(&value_id) {
            Some(t) => Some(*t),
            None => None,
        }
    }

    /// The pending transaction that will set a value, if any.
    pub fn get_for_value(&self, value_id: usize) -> (r: Option<TransactionRecord>)
        requires
            self.wf(),
        ensures
            r == (if self.values().contains_key(value_id) && self.pending().contains_key(
                self.values()[value_id],
            ) {
                Some(self.pending()[self.values()[value_id]])
            } else {
                None
            }),
    {
        match self.transaction_for_value(value_id) {
            Some(tid) => self.get(tid),
            None => None,
        }
    }

    /// Removes a pending transaction; the value's entry is left as it is.
    pub fn cancel(&mut self, id: usize)
        requires
            old(self).wf(),
        ensures
            final(self).wf(),
            final(self).entries() == seq_swap_remove(old(self).entries(), id),
            final(self).values() == old(self).values(),
            final(self).next_id() == old(self).next_id(),
    {
        index_map_swap_remove(&mut self.entries, id);
    }

    /// Schedules a change of `value_id` on `node_id`. It takes the next id; a
    /// transaction pending for the same value is cancelled, and the value now
    /// maps to the new transaction.
    pub fn schedule(&mut self, node_id: usize, value_id: usize, animation_id: Option<usize>) -> (r: usize)
        requires
            old(self).wf(),
        ensures
            final(self).wf(),
            r == old(self).next_id(),
            final(self).next_id() == next_index(old(self).next_id()),
            final(self).values() == old(self).values().insert(value_id, r),
            ({
                let rec = TransactionRecord { node_id, value_id, animation_id };
                let inserted = seq_insert(old(self).entries(), r, rec);
                final(self).entries() == (if old(self).values().contains_key(value_id) {
                    seq_swap_remove(inserted, old(self).values()[value_id])
                } else {
                    inserted
                })
            }),
    {
        let id = self.next_id;
        self.next_id = if self.next_id < usize::MAX {
            self.next_id + 1
        } else {
            0
        };
        let rec = TransactionRecord { node_id, value_id, animation_id };
        index_map_insert(&mut self.entries, id, rec);
        match self.values.get(&value_id) {
            Some(existing) => {
                let e = *existing;
                index_map_swap_remove(&mut self.entries, e);
            },
            None => {},
        }
        self.values.insert(value_id, id);
        id
    }

    /// Sets the animation of the pending transaction stored under the key
    /// `key`, if there is one.
    pub fn set_animation(&mut self, key: usize, animation_id: usize)
        requires
            old(self).wf(),
        ensures
            final(self).wf(),
            final(self).values() == old(self).values(),
            final(self).next_id() == old(self).next_id(),
            old(self).pending().contains_key(key) ==> final(self).entries() == seq_insert(
                old(self).entries(),
                key,
                TransactionRecord { animation_id: Some(animation_id), ..old(self).pending()[key] },
            ),
            !old(self).pending().contains_key(key) ==> final(self).entries() == old(self).entries(),
    {
        match index_map_get(&self.entries, key) {
            Some(rec) => {
                let updated = TransactionRecord { animation_id: Some(animation_id), ..rec };
                index_map_insert(&mut self.entries, key, updated);
            },
            None => {},
        }
    }

    /// Removes a finished transaction. When it is pending, its value's entry
    /// is dropped if it still names this transaction, and its value id is
    /// returned.
    pub fn finish(&mut self, id: usize) -> (r: Option<usize>)
        requires
            old(self).wf(),
        ensures
            final(self).wf(),
            final(self).next_id() == old(self).next_id(),
            final(self).entries() == seq_swap_remove(old(self).entries(), id),
            r == (if old(self).pending().contains_key(id) {
                Some(old(self).pending()[id].value_id)
            } else {
                None
            }),
            match r {
                Some(vid) => final(self).values() == (if old(self).values().contains_key(vid)
                    && old(self).values()[vid] == id {
                    old(self).values().remove(vid)
                } else {
                    old(self).values()
                }),
                None => final(self).values() == old(self).values(),
            },
    {
        match index_map_get(&self.entries, id) {
            Some(rec) => {
                let vid = rec.value_id;
                index_map_swap_remove(&mut self.entries, id);
                let owns = match self.values.get(&vid) {
                    Some(t) => *t == id,
                    None => false,
                };
                if owns {
                    self.values.remove(&vid);
                }
                Some(vid)
            },
            None => None,
        }
    }
}


/// Inserting into the entries inserts into their map.
pub proof fn lemma_seq_insert_map(e: Seq<(usize, TransactionRecord)>, k: usize, v: TransactionRecord)
    requires
        keys_distinct(e),
    ensures
        keys_distinct(seq_insert(e, k, v)),
        entries_map(seq_insert(e, k, v)) == entries_map(e).insert(k, v),
{
    let e2 = seq_insert(e, k, v);
    if has_key(e, k) {
        let i = key_index(e, k);
        assert(e2[i].0 == k);
    } else {
        assert(e2[e.len() as int].0 == k);
    }
    assert forall|x: usize| has_key(e2, x) == (has_key(e, x) || x == k) by {
        if has_key(e, x) {
            let j = choose|j: int| 0 <= j < e.len() && e[j].0 == x;
            if has_key(e, k) && j == key_index(e, k) {
                assert(e2[j].0 == k);
            } else {
                assert(e2[j] == e[j]);
            }
        }
        if has_key(e2, x) && x != k {
            let j = choose|j: int| 0 <= j < e2.len() && e2[j].0 == x;
            assert(e[j] == e2[j]);
        }
    }
    assert forall|x: usize| #[trigger] has_key(e2, x) implies e2[key_index(e2, x)].1 == (if x == k {
        v
    } else {
        e[key_index(e, x)].1
    }) by {
        let j2 = key_index(e2, x);
        if x != k {
            let j = key_index(e, x);
            assert(e2[j] == e[j]);
        }
    }
    assert(entries_map(e2) =~= entries_map(e).insert(k, v));
}

/// Swap-removing from the entries removes from their map.
pub proof fn lemma_seq_swap_remove_map(e: Seq<(usize, TransactionRecord)>, k: usize)
    requires
        keys_distinct(e),
    ensures
        keys_distinct(seq_swap_remove(e, k)),
        entries_map(seq_swap_remove(e, k)) == entries_map(e).remove(k),
{
    let e2 = seq_swap_remove(e, k);
    if has_key(e, k) {
        let i = key_index(e, k);
        assert forall|x: usize| has_key(e2, x) == (has_key(e, x) && x != k) by {
            if has_key(e, x) && x != k {
                let j = choose|j: int| 0 <= j < e.len() && e[j].0 == x;
                if j == e.len() - 1 {
                    assert(e2[i].0 == x);
                } else {
                    assert(e2[j].0 == x);
                }
            }
            if has_key(e2, x) {
                let j = choose|j: int| 0 <= j < e2.len() && e2[j].0 == x;
                if j == i {
                    assert(e[e.len() - 1].0 == x);
                } else {
                    assert(e[j].0 == x);
                }
            }
        }
        assert forall|x: usize| #[trigger] has_key(e2, x) implies e2[key_index(e2, x)].1 == e[key_index(e, x)].1 by {
            let j2 = key_index(e2, x);
            if j2 == i {
                assert(e2[j2] == e[e.len() - 1]);
            } else {
                assert(e2[j2] == e[j2]);
            }
        }
    }
    assert(entries_map(e2) =~= entries_map(e).remove(k));
}

/// The entries, the value map and the next id after scheduling the changes
/// `(node, value, animation)` in order.
pub open spec fn schedule_all(
    e: Seq<(usize, TransactionRecord)>,
    v: Map<usize, usize>,
    n: usize,
    changes: Seq<(usize, usize, Option<usize>)>,
) -> (Seq<(usize, TransactionRecord)>, Map<usize, usize>, usize)
    decreases changes.len(),
{
    if changes.len() == 0 {
        (e, v, n)
    } else {
        let (e0, v0, n0) = schedule_all(e, v, n, changes.drop_last());
        let c = changes.last();
        let ins = seq_insert(e0, n0, TransactionRecord { node_id: c.0, value_id: c.1, animation_id: c.2 });
        (
            if v0.contains_key(c.1) {
                seq_swap_remove(ins, v0[c.1])
            } else {
                ins
            },
            v0.insert(c.1, n0),
            crate::storage::next_index(n0),
        )
    }
}

/// Scheduling a change of a value leaves the value mapped to the new
/// transaction, which is pending with the given record, and the transaction
/// that was pending for the value before is no longer pending. All other
/// pending transactions stay as they were. (The new id differs from the old
/// one unless the id counter went all the way around.)
pub proof fn law_schedule_replaces(
    before: Seq<(usize, TransactionRecord)>,
    values: Map<usize, usize>,
    id: usize,
    rec: TransactionRecord,
    after: Seq<(usize, TransactionRecord)>,
)
    requires
        keys_distinct(before),
        values.contains_key(rec.value_id) ==> values[rec.value_id] != id,
        after == (if values.contains_key(rec.value_id) {
            seq_swap_remove(seq_insert(before, id, rec), values[rec.value_id])
        } else {
            seq_insert(before, id, rec)
        }),
    ensures
        entries_map(after).contains_key(id),
        entries_map(after)[id] == rec,
        values.contains_key(rec.value_id) ==> !entries_map(after).contains_key(values[rec.value_id]),
        forall|t: usize|
            t != id && !(values.contains_key(rec.value_id) && t == values[rec.value_id])
                ==> (#[trigger] entries_map(after).contains_key(t) == entries_map(before).contains_key(t))
                && (entries_map(before).contains_key(t) ==> entries_map(after)[t] == entries_map(before)[t]),
{
    lemma_seq_insert_map(before, id, rec);
    if values.contains_key(rec.value_id) {
        lemma_seq_swap_remove_map(seq_insert(before, id, rec), values[rec.value_id]);
    }
}

/// The record a scheduled change `(node, value, animation)` leaves pending.
pub open spec fn change_record(c: (usize, usize, Option<usize>)) -> TransactionRecord {
    TransactionRecord { node_id: c.0, value_id: c.1, animation_id: c.2 }
}

/// Whether change `i` is the last of `changes` for its value.
pub open spec fn last_for_value(changes: Seq<(usize, usize, Option<usize>)>, i: int) -> bool {
    forall|j: int| i < j < changes.len() ==> (#[trigger] changes[j]).1 != changes[i].1
}

/// Scheduling a batch of changes hands them consecutive ids from the
/// counter; for each value, the last change of the batch for it is pending
/// under its id with its record, and the value maps to that id; a value the
/// batch does not touch keeps its mapping. This holds while the counter does
/// not wrap and the ids in use are below it. (The value map then only holds
/// ids from before the batch, or the id of a change of the batch for that
/// value.)
pub proof fn law_schedule_all(
    e: Seq<(usize, TransactionRecord)>,
    v: Map<usize, usize>,
    n: usize,
    changes: Seq<(usize, usize, Option<usize>)>,
)
    requires
        keys_distinct(e),
        forall|k: usize| #[trigger] entries_map(e).contains_key(k) ==> k < n,
        forall|x: usize| #[trigger] v.contains_key(x) ==> v[x] < n,
        n + changes.len() <= usize::MAX,
    ensures
        ({
            let (e2, v2, n2) = schedule_all(e, v, n, changes);
            &&& n2 == n + changes.len()
            &&& keys_distinct(e2)
            &&& forall|k: usize| #[trigger] entries_map(e2).contains_key(k) ==> k < n2
            &&& forall|x: usize| #[trigger] v2.contains_key(x) ==> (v2[x] < n || (n <= v2[x] < n2 && changes[v2[x] - n].1 == x))
            &&& forall|i: int| 0 <= i < changes.len() && #[trigger] last_for_value(changes, i) ==> {
                &&& v2.contains_key(changes[i].1)
                &&& v2[changes[i].1] == n + i
                &&& entries_map(e2).contains_key((n + i) as usize)
                &&& entries_map(e2)[(n + i) as usize] == change_record(changes[i])
            }
            &&& forall|x: usize| (forall|j: int| 0 <= j < changes.len() ==> (#[trigger] changes[j]).1 != x)
                ==> (#[trigger] v2.contains_key(x)) == v.contains_key(x) && (v.contains_key(x) ==> v2[x] == v[x])
        }),
    decreases changes.len(),
{
    if changes.len() > 0 {
        let pre = changes.drop_last();
        let k = changes.len() - 1;
        law_schedule_all(e, v, n, pre);
        let (e0, v0, n0) = schedule_all(e, v, n, pre);
        let c = changes.last();
        let rec = change_record(c);
        let ins = seq_insert(e0, n0, rec);
        let e2 = schedule_all(e, v, n, changes).0;
        let v2 = schedule_all(e, v, n, changes).1;
        assert(c == changes[k]);
        lemma_seq_insert_map(e0, n0, rec);
        if v0.contains_key(c.1) {
            lemma_seq_swap_remove_map(ins, v0[c.1]);
        }
        law_schedule_replaces(e0, v0, n0, rec, e2);
        assert forall|i: int| 0 <= i < changes.len() && #[trigger] last_for_value(changes, i) implies {
            &&& v2.contains_key(changes[i].1)
            &&& v2[changes[i].1] == n + i
            &&& entries_map(e2).contains_key((n + i) as usize)
            &&& entries_map(e2)[(n + i) as usize] == change_record(changes[i])
        } by {
            if i < k {
                assert(changes[k].1 != changes[i].1);
                assert(pre[i] == changes[i]);
                assert(last_for_value(pre, i)) by {
                    assert forall|j: int| i < j < pre.len() implies (#[trigger] pre[j]).1 != pre[i].1 by {
                        assert(pre[j] == changes[j]);
                    }
                }
                let t = (n + i) as usize;
                if v0.contains_key(c.1) && v0[c.1] == t {
                    assert(pre[v0[c.1] - n].1 == c.1);
                    assert(false);
                }
            }
        }
        assert forall|x: usize| #[trigger] v2.contains_key(x) implies (v2[x] < n || (n <= v2[x] < n + changes.len() && changes[v2[x] - n].1 == x)) by {
            if x != c.1 {
                assert(v0.contains_key(x));
                if v0[x] >= n {
                    assert(pre[v0[x] - n] == changes[v0[x] - n]);
                }
            }
        }
        assert forall|x: usize| (forall|j: int| 0 <= j < changes.len() ==> (#[trigger] changes[j]).1 != x)
            implies (#[trigger] v2.contains_key(x)) == v.contains_key(x) && (v.contains_key(x) ==> v2[x] == v[x]) by {
            assert(changes[k].1 != x);
            assert forall|j: int| 0 <= j < pre.len() implies (#[trigger] pre[j]).1 != x by {
                assert(pre[j] == changes[j]);
            }
        }
    }
}

} // verus!
