//! Values that changes are applied to: attributes, synced values and
//! animated values, each a handle on an entry of a value storage under an id
//! handed out by a counter, and the no-op change.
use vstd::prelude::*;
use crate::flags::{RenderableFlags, NEEDS_LAYOUT_BIT, NEEDS_PAINT_BIT};
use crate::storage::{next_index, FlatStorage};
use core::marker::PhantomData;

verus! {

/// A counter handing out value ids, wrapping at `usize::MAX` as an atomic
/// `fetch_add` does.
#[derive(Debug)]
pub struct IdCounter {
    next: usize,
}

impl IdCounter {
    /// The id the next call of `fetch_add` returns.
    pub closed spec fn peek(&self) -> usize {
        self.next
    }

    /// A counter starting at 0.
    pub fn new() -> (r: IdCounter)
        ensures
            r.peek() == 0,
    {
        IdCounter { next: 0 }
    }

    /// Returns the current id and advances the counter.
    pub fn fetch_add(&mut self) -> (r: usize)
        ensures
            r == old(self).peek(),
            final(self).peek() == next_index(old(self).peek()),
    {
        let r = self.next;
        self.next = if self.next < usize::MAX {
            self.next + 1
        } else {
            0
        };
        r
    }
}

/// The id a counter that stood at `start` hands out at its `k`-th call of
/// `fetch_add`, counting from 0.
pub open spec fn nth_id(start: usize, k: nat) -> usize
    decreases k,
{
    if k == 0 {
        start
    } else {
        next_index(nth_id(start, (k - 1) as nat))
    }
}

/// Until it reaches `usize::MAX`, the counter hands out `start`, `start + 1`,
/// and so on.
pub proof fn lemma_nth_id(start: usize, k: nat)
    requires
        start + k <= usize::MAX,
    ensures
        nth_id(start, k) == start + k,
    decreases k,
{
    if k > 0 {
        lemma_nth_id(start, (k - 1) as nat);
    }
}

/// All ids handed out by one counter are distinct until it wraps: the `i`-th
/// and `j`-th calls of `fetch_add` on a counter that stood at `start` give
/// different ids whenever the later one is still at most `usize::MAX`.
pub proof fn law_ids_distinct(start: usize, i: nat, j: nat)
    requires
        i < j,
        start + j <= usize::MAX,
    ensures
        nth_id(start, i) != nth_id(start, j),
        nth_id(start, i) == start + i,
        nth_id(start, j) == start + j,
{
    lemma_nth_id(start, i);
    lemma_nth_id(start, j);
}

/// A change of a value from `from` to `to`; `target` is a handle on the
/// value, sharing its storage. The transition that times it, if any, is
/// kept by the caller.
#[derive(Clone, Debug)]
pub struct AttributeChange<V> {
    pub from: V,
    pub to: V,
    pub target: Attribute<V>,
}

/// A value of a model: a handle on the entry `id` of a value storage. Every
/// copy of the handle, and the target of every change built from it, reads
/// and writes that same entry.
#[derive(Debug)]
pub struct Attribute<V> {
    pub id: usize,
    pub kind: PhantomData<V>,
}

/// What a handle with id `id` reads from a storage whose values are `store`.
pub open spec fn read<V>(store: Map<usize, V>, id: usize) -> V {
    store[id]
}

/// A `set` through an attribute is seen through its copies and through the
/// target of a change built from it before the `set`: after the storage
/// `before` takes the value under the attribute's id (what `set` does), a
/// copy (`clone` gives the same handle) and the change's target (`to` gives
/// the attribute itself) read the new value, while the values under other
/// ids stay as they were.
pub proof fn law_set_seen_by_copies_and_targets<V>(
    a: Attribute<V>,
    copy: Attribute<V>,
    change: AttributeChange<V>,
    before: Map<usize, V>,
    value: V,
    other: usize,
)
    requires
        copy == a,
        change.target == a,
    ensures
        before.insert(a.id, value).contains_key(copy.id),
        read(before.insert(a.id, value), copy.id) == value,
        read(before.insert(a.id, value), change.target.id) == value,
        other != a.id ==> read(before.insert(a.id, value), other) == read(before, other),
{
}

impl<V> Clone for Attribute<V> {
    fn clone(&self) -> (r: Self)
        ensures
            r == *self,
    {
        Attribute { id: self.id, kind: PhantomData }
    }
}

impl<V: Clone> Attribute<V> {
    /// A new attribute holding `value`: its id is taken from `counter` and
    /// `value` is stored under it.
    pub fn new(value: V, counter: &mut IdCounter, store: &mut FlatStorage<V>) -> (r: Attribute<V>)
        ensures
            r.id == old(counter).peek(),
            final(counter).peek() == next_index(old(counter).peek()),
            final(store).view() == old(store).view().insert(r.id, value),
            final(store).next_id() == old(store).next_id(),
    {
        let id = counter.fetch_add();
        store.insert_with_id(value, id);
        Attribute { id, kind: PhantomData }
    }

    /// A clone of the value held.
    pub fn value(&self, store: &FlatStorage<V>) -> (r: V)
        requires
            store.view().contains_key(self.id),
        ensures
            cloned(read(store.view(), self.id), r),
    {
        store.get(self.id).unwrap().clone()
    }

    /// Replaces the value held, for every handle on it.
    pub fn set(&self, value: V, store: &mut FlatStorage<V>)
        ensures
            final(store).view() == old(store).view().insert(self.id, value),
            final(store).next_id() == old(store).next_id(),
    {
        store.insert_with_id(value, self.id);
    }

    /// The change of this value from what it holds now to `to`, targeting
    /// this value.
    pub fn to(&self, to: V, store: &FlatStorage<V>) -> (r: AttributeChange<V>)
        requires
            store.view().contains_key(self.id),
        ensures
            cloned(read(store.view(), self.id), r.from),
            r.to == to,
            r.target == *self,
    {
        AttributeChange { from: self.value(store), to, target: self.clone() }
    }
}

/// A value shared with the engine's animations: a handle on the entry `id`
/// of a value storage, read and written through every copy of it.
#[derive(Debug)]
pub struct SyncValue<V> {
    pub id: usize,
    pub kind: PhantomData<V>,
}

impl<V> Clone for SyncValue<V> {
    fn clone(&self) -> (r: Self)
        ensures
            r == *self,
    {
        SyncValue { id: self.id, kind: PhantomData }
    }
}

/// A `set` through a synced value is seen through its copies and through
/// the target of a change built from it: both name the same entry.
pub proof fn law_sync_set_seen_by_copies_and_targets<V>(
    s: SyncValue<V>,
    copy: SyncValue<V>,
    change: AttributeChange<V>,
    before: Map<usize, V>,
    value: V,
)
    requires
        copy == s,
        change.target.id == s.id,
    ensures
        read(before.insert(s.id, value), copy.id) == value,
        read(before.insert(s.id, value), change.target.id) == value,
{
}

impl<V: Clone> SyncValue<V> {
    /// A new synced value holding `value`: its id is taken from `counter` and
    /// `value` is stored under it.
    pub fn new(value: V, counter: &mut IdCounter, store: &mut FlatStorage<V>) -> (r: SyncValue<V>)
        ensures
            r.id == old(counter).peek(),
            final(counter).peek() == next_index(old(counter).peek()),
            final(store).view() == old(store).view().insert(r.id, value),
            final(store).next_id() == old(store).next_id(),
    {
        let id = counter.fetch_add();
        store.insert_with_id(value, id);
        SyncValue { id, kind: PhantomData }
    }

    /// A clone of the value held.
    pub fn value(&self, store: &FlatStorage<V>) -> (r: V)
        requires
            store.view().contains_key(self.id),
        ensures
            cloned(read(store.view(), self.id), r),
    {
        store.get(self.id).unwrap().clone()
    }

    /// Replaces the value held, for every copy of this handle.
    pub fn set(&self, value: V, store: &mut FlatStorage<V>)
        ensures
            final(store).view() == old(store).view().insert(self.id, value),
            final(store).next_id() == old(store).next_id(),
    {
        store.insert_with_id(value, self.id);
    }

    /// The change of this value from what it holds now to `to`; its target
    /// is an attribute handle on the same entry.
    pub fn to(&self, to: V, store: &FlatStorage<V>) -> (r: AttributeChange<V>)
        requires
            store.view().contains_key(self.id),
        ensures
            cloned(read(store.view(), self.id), r.from),
            r.to == to,
            r.target.id == self.id,
    {
        AttributeChange { from: self.value(store), to, target: Attribute { id: self.id, kind: PhantomData } }
    }
}

/// A value of an entity: a handle on the entry `id` of a value storage, with
/// the id of the entity it belongs to.
#[derive(Debug)]
pub struct AnimatedValue<V> {
    pub id: usize,
    pub parent: usize,
    pub kind: PhantomData<V>,
}

impl<V> Clone for AnimatedValue<V> {
    fn clone(&self) -> (r: Self)
        ensures
            r == *self,
    {
        AnimatedValue { id: self.id, parent: self.parent, kind: PhantomData }
    }
}

impl<V: Clone> AnimatedValue<V> {
    /// A new value of entity `parent`: its id is taken from `counter` and
    /// `value` is stored under it.
    pub fn new(parent: usize, value: V, counter: &mut IdCounter, store: &mut FlatStorage<V>) -> (r: AnimatedValue<V>)
        ensures
            r.id == old(counter).peek(),
            r.parent == parent,
            final(counter).peek() == next_index(old(counter).peek()),
            final(store).view() == old(store).view().insert(r.id, value),
            final(store).next_id() == old(store).next_id(),
    {
        let id = counter.fetch_add();
        store.insert_with_id(value, id);
        AnimatedValue { id, parent, kind: PhantomData }
    }

    /// A clone of the value held.
    pub fn value(&self, store: &FlatStorage<V>) -> (r: V)
        requires
            store.view().contains_key(self.id),
        ensures
            cloned(read(store.view(), self.id), r),
    {
        store.get(self.id).unwrap().clone()
    }
}

/// A change that alters no value and asks for layout and repaint of its node.
#[derive(Clone, Copy, Debug, PartialEq, Eq, Structural)]
pub struct NoopChange(pub usize);

impl NoopChange {
    /// A no-op change on the value `id`.
    pub fn new(id: usize) -> (r: NoopChange)
        ensures
            r.0 == id,
    {
        NoopChange(id)
    }

    /// The id of the value the change is scheduled on.
    pub fn value_id(&self) -> (r: usize)
        ensures
            r == self.0,
    {
        self.0
    }

    /// What executing the change asks of its node, at any progress: layout
    /// and repaint.
    pub fn execute(&self) -> (r: RenderableFlags)
        ensures
            r.bits == NEEDS_PAINT_BIT | NEEDS_LAYOUT_BIT,
    {
        RenderableFlags::needs_paint().union(RenderableFlags::needs_layout())
    }
}

/// The style of a layer's border.
#[derive(Clone, Copy, Debug, PartialEq, Eq, Structural)]
pub enum BorderStyle {
    Solid,
    Dotted,
    Dashed,
}

/// The error a debug server hands to its handler in place of a message.
#[derive(Clone, Copy, Debug, PartialEq, Eq, Structural)]
pub struct DebugServerError;

/// A receiver of the messages of the debug server.
pub trait DebugServer {
    /// Handles one message, or the error that came in its place.
    fn handle_message(&mut self, message: Result<String, DebugServerError>);
}

} // verus!
