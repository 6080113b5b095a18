//! Flat storage: values kept by integer id, with a counter handing out the
//! ids of values inserted without one.
use vstd::prelude::*;
use std::collections::HashMap;

verus! {

broadcast use vstd::std_specs::hash::group_hash_axioms;

/// The id that follows `i` in a storage's counter, wrapping at `usize::MAX`
/// as an atomic `fetch_add` does.
pub open spec fn next_index(i: usize) -> usize {
    if i < usize::MAX {
        (i + 1) as usize
    } else {
        0
    }
}

/// Values stored by id.
pub struct FlatStorage<V> {
    data: HashMap<usize, V>,
    index: usize,
}

impl<V> FlatStorage<V> {
    /// The stored values by id.
    pub closed spec fn view(&self) -> Map<usize, V> {
        self.data@
    }

    /// The id the next `insert` will use.
    pub closed spec fn next_id(&self) -> usize {
        self.index
    }

    /// An empty storage whose first id is 0.
    pub fn new() -> (r: FlatStorage<V>)
        ensures
            r.view() == Map::<usize, V>::empty(),
            r.next_id() == 0,
    {
        FlatStorage { data: HashMap::new(), index: 0 }
    }

    /// Stores `value` under the next id of the counter and returns that id.
    pub fn insert(&mut self, value: V) -> (id: usize)
        ensures
            id == old(self).next_id(),
            final(self).next_id() == next_index(old(self).next_id()),
            final(self).view() == old(self).view().insert(id, value),
    {
        let id = self.index;
        self.index = if self.index < usize::MAX {
            self.index + 1
        } else {
            0
        };
        self.data.insert(id, value);
        id
    }

    /// Stores `value` under `id`, replacing what was there.
    pub fn insert_with_id(&mut self, value: V, id: usize) -> (r: usize)
        ensures
            r == id,
            final(self).next_id() == old(self).next_id(),
            final(self).view() == old(self).view().insert(id, value),
    {
        self.data.insert(id, value);
        id
    }

    /// The value stored under `id`.
    pub fn get(&self, id: usize) -> (r: Option<&V>)
        ensures
            match r {
                Some(v) => self.view().contains_key(id) && *v == self.view()[id],
                None => !self.view().contains_key(id),
            },
    {
        self.data.get(&id)
    }

    /// Whether a value is stored under `id`.
    pub fn contains(&self, id: usize) -> (r: bool)
        ensures
            r == self.view().contains_key(id),
    {
        self.data.contains_key(&id)
    }

    /// Takes out the value stored under `id`.
    pub fn remove_at(&mut self, id: usize) -> (r: Option<V>)
        ensures
            final(self).next_id() == old(self).next_id(),
            final(self).view() == old(self).view().remove(id),
            match r {
                Some(v) => old(self).view().contains_key(id) && v == old(self).view()[id],
                None => !old(self).view().contains_key(id),
            },
    {
        self.data.remove(&id)
    }

    /// The number of stored values.
    pub fn len(&self) -> (r: usize)
        ensures
            r == self.view().len(),
    {
        self.data.len()
    }
}

} // verus!
