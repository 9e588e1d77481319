//! Sparse sets: sparse maps with a unit value.

use vstd::prelude::*;

use crate::util::sparse_map::{key_indexes, ImmutableSparseMap, Keys, SparseMap, SparseMapKey};

verus! {

/// A set of small-integer-indexed keys, stored directly at the key's index.
#[derive(Debug)]
pub struct SparseSet<K> {
    pub map: SparseMap<K, ()>,
}

impl<K> SparseSet<K> {
    /// The mathematical contents: the set of member indexes.
    pub open spec fn spec_set(&self) -> Set<int> {
        Set::new(|i: int| self.map.spec_contains(i))
    }

    pub open spec fn spec_contains(&self, i: int) -> bool {
        self.map.spec_contains(i)
    }

    pub open spec fn wf(&self) -> bool {
        self.map.wf()
    }

    pub fn new() -> (r: Self)
        ensures
            r.wf(),
            r.map.values@.len() == 0,
            r.map.len == 0,
    {
        SparseSet { map: SparseMap::new() }
    }

    pub fn with_capacity(capacity: usize) -> (r: Self)
        ensures
            r.wf(),
            r.map.values@.len() == 0,
            r.map.len == 0,
    {
        SparseSet { map: SparseMap::with_capacity(capacity) }
    }

    pub fn reserve(&mut self, additional: usize)
        ensures
            final(self).map.values@ == old(self).map.values@,
            final(self).map.len == old(self).map.len,
    {
        self.map.reserve(additional);
    }

    pub fn clear(&mut self)
        ensures
            final(self).wf(),
            final(self).map.values@.len() == 0,
            final(self).map.len == 0,
    {
        self.map.clear();
    }

    pub fn len(&self) -> (n: usize)
        ensures
            n == self.map.len,
    {
        self.map.len()
    }

    pub fn is_empty(&self) -> (b: bool)
        ensures
            b == (self.map.len == 0),
    {
        self.map.is_empty()
    }
}

impl<K: SparseMapKey> SparseSet<K> {
    pub fn contains(&self, key: &K) -> (b: bool)
        ensures
            b == self.spec_contains(key.spec_index()),
    {
        self.map.contains_key(key)
    }
    /// Add the key; hands back whether it was already a member.
    pub fn insert(&mut self, key: &K) -> (r: bool)
        requires
            old(self).wf(),
        ensures
            final(self).wf(),
            r == old(self).spec_contains(key.spec_index()),
            final(self).spec_contains(key.spec_index()),
            forall|i: int|
                i != key.spec_index() ==> final(self).spec_contains(i) == old(self).spec_contains(i),
            final(self).map.len == old(self).map.len + (if r {
                0int
            } else {
                1int
            }),
    {
        let r = self.map.insert(key, ());
        r.is_some()
    }

    /// Drop the key; hands back whether it was a member.
    pub fn remove(&mut self, key: &K) -> (r: bool)
        requires
            old(self).wf(),
        ensures
            final(self).wf(),
            r == old(self).spec_contains(key.spec_index()),
            !final(self).spec_contains(key.spec_index()),
            forall|i: int|
                i != key.spec_index() ==> final(self).spec_contains(i) == old(self).spec_contains(i),
            final(self).map.len == old(self).map.len - (if r {
                1int
            } else {
                0int
            }),
    {
        let r = self.map.remove(key);
        r.is_some()
    }

    /// Snapshot the members, in ascending index order.
    pub fn iter(&self) -> (r: Keys<K, ()>)
        ensures
            r.items@.map_values(|k: K| k.spec_index()) == key_indexes(self.map.values@),
            r.pos == 0,
    {
        self.map.keys()
    }
}

/// A frozen sparse set.
#[derive(Debug)]
pub struct ImmutableSparseSet<K> {
    pub map: ImmutableSparseMap<K, ()>,
}

impl<K> ImmutableSparseSet<K> {
    pub open spec fn spec_set(&self) -> Set<int> {
        Set::new(|i: int| self.map.spec_contains(i))
    }

    pub open spec fn spec_contains(&self, i: int) -> bool {
        self.map.spec_contains(i)
    }

    pub open spec fn wf(&self) -> bool {
        self.map.wf()
    }

    pub fn new() -> (r: Self)
        ensures
            r.wf(),
            r.map.values@.len() == 0,
            r.map.len == 0,
    {
        ImmutableSparseSet { map: ImmutableSparseMap::new() }
    }

    pub fn len(&self) -> (n: usize)
        ensures
            n == self.map.len,
    {
        self.map.len()
    }

    pub fn is_empty(&self) -> (b: bool)
        ensures
            b == (self.map.len == 0),
    {
        self.map.is_empty()
    }

    /// Freeze a sparse set.
    pub fn from_sparse_set(set: SparseSet<K>) -> (r: Self)
        ensures
            r.map.values@ == set.map.values@,
            r.map.len == set.map.len,
    {
        ImmutableSparseSet { map: ImmutableSparseMap::from_sparse_map(set.map) }
    }

    /// Thaw into a growable sparse set.
    pub fn into_sparse_set(self) -> (r: SparseSet<K>)
        ensures
            r.map.values@ == self.map.values@,
            r.map.len == self.map.len,
    {
        SparseSet { map: self.map.into_sparse_map() }
    }
}

impl<K: SparseMapKey> ImmutableSparseSet<K> {
    pub fn contains(&self, key: &K) -> (b: bool)
        ensures
            b == self.spec_contains(key.spec_index()),
    {
        self.map.contains_key(key)
    }

    /// Snapshot the members, in ascending index order.
    pub fn iter(&self) -> (r: Keys<K, ()>)
        ensures
            r.items@.map_values(|k: K| k.spec_index()) == key_indexes(self.map.values@),
            r.pos == 0,
    {
        self.map.keys()
    }
}

} // verus!
