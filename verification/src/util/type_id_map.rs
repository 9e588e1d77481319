//! Maps keyed by a static type's identity.
//!
//! Type identity is modelled as an opaque 64-bit key: the caller assigns each
//! distinct static type a distinct key and uses it consistently.

use vstd::prelude::*;

verus! {

/// The identity of a static type, as an opaque 64-bit key.
///
/// Two keys are equal exactly when they stand for the same type.
#[derive(Clone, Copy, Debug, PartialEq, Eq, Structural, Hash)]
pub struct TypeKey(pub u64);

/// An association list from type keys to values, with each key held at most
/// once.
#[derive(Debug)]
pub struct TypeIdMap<T> {
    pub items: Vec<(TypeKey, T)>,
}

impl<T> TypeIdMap<T> {
    pub open spec fn spec_contains_key(&self, key: TypeKey) -> bool {
        exists|i: int| 0 <= i < self.items@.len() && (#[trigger] self.items@[i]).0 == key
    }

    pub open spec fn spec_index_of(&self, key: TypeKey) -> int {
        choose|i: int| 0 <= i < self.items@.len() && (#[trigger] self.items@[i]).0 == key
    }

    pub open spec fn spec_get(&self, key: TypeKey) -> T {
        self.items@[self.spec_index_of(key)].1
    }

    /// Every key occurs at most once.
    pub open spec fn wf(&self) -> bool {
        forall|i: int, j: int|
            0 <= i < j < self.items@.len() ==> (#[trigger] self.items@[i]).0 != (
            #[trigger] self.items@[j]).0
    }

    pub fn new() -> (r: Self)
        ensures
            r.wf(),
            r.items@.len() == 0,
    {
        TypeIdMap { items: Vec::new() }
    }


    pub fn len(&self) -> (n: usize)
        ensures
            n == self.items@.len(),
    {
        self.items.len()
    }

    pub fn is_empty(&self) -> (b: bool)
        ensures
            b == (self.items@.len() == 0),
    {
        self.items.len() == 0
    }

    pub fn clear(&mut self)
        ensures
            final(self).wf(),
            final(self).items@.len() == 0,
    {
        self.items.clear();
    }

    pub fn contains_key(&self, key: TypeKey) -> (b: bool)
        ensures
            b == self.spec_contains_key(key),
    {
        let n = self.items.len();
        let mut i: usize = 0;
        while i < n
            invariant
                n == self.items@.len(),
                i <= n,
                forall|m: int| 0 <= m < i as int ==> (#[trigger] self.items@[m]).0 != key,
            decreases n - i,
        {
            if self.items[i].0.0 == key.0 {
                return true;
            }
            i = i + 1;
        }
        false
    }

    pub fn get(&self, key: TypeKey) -> (r: Option<&T>)
        requires
            self.wf(),
        ensures
            r is Some <==> self.spec_contains_key(key),
            r is Some ==> *r->Some_0 == self.spec_get(key),
    {
        let n = self.items.len();
        let mut i: usize = 0;
        while i < n
            invariant
                self.wf(),
                n == self.items@.len(),
                i <= n,
                forall|m: int| 0 <= m < i as int ==> (#[trigger] self.items@[m]).0 != key,
            decreases n - i,
        {
            if self.items[i].0.0 == key.0 {
                proof {
                    assert(self.items@[i as int].0 == key);
                    assert(self.spec_contains_key(key));
                    assert(self.spec_index_of(key) == i as int) by {
                        let w = self.spec_index_of(key);
                        assert(0 <= w < self.items@.len() && self.items@[w].0 == key);
                        lemma_unique_key(self, w, i as int);
                    }
                }
                return Some(&self.items[i].1);
            }
            i = i + 1;
        }
        None
    }

    pub fn get_mut(&mut self, key: TypeKey) -> (r: Option<&mut T>)
        requires
            old(self).wf(),
        ensures
            final(self).wf(),
            r is Some <==> old(self).spec_contains_key(key),
            r is Some ==> {
                &&& *r->Some_0 == old(self).spec_get(key)
                &&& final(self).items@ == old(self).items@.update(
                    old(self).spec_index_of(key),
                    (key, *final(r->Some_0)),
                )
            },
            r is None ==> *final(self) == *old(self),
    {
        let n = self.items.len();
        let mut i: usize = 0;
        while i < n
            invariant
                old(self).wf(),
                n == self.items@.len(),
                *self == *old(self),
                i <= n,
                forall|m: int| 0 <= m < i as int ==> (#[trigger] self.items@[m]).0 != key,
            decreases n - i,
        {
            if self.items[i].0.0 == key.0 {
                proof {
                    assert(old(self).items@[i as int].0 == key);
                    assert(old(self).spec_contains_key(key));
                    assert(old(self).spec_index_of(key) == i as int) by {
                        let w = old(self).spec_index_of(key);
                        assert(0 <= w < old(self).items@.len() && old(self).items@[w].0 == key);
                        lemma_unique_key(old(self), w, i as int);
                    }
                }
                return Some(&mut self.items[i].1);
            }
            i = i + 1;
        }
        None
    }

    /// Put a value under the key, replacing and handing back what the key
    /// held before, if anything.
    pub fn insert(&mut self, key: TypeKey, value: T) -> (r: Option<T>)
        requires
            old(self).wf(),
        ensures
            final(self).wf(),
            r is Some <==> old(self).spec_contains_key(key),
            r is Some ==> {
                &&& r->Some_0 == old(self).spec_get(key)
                &&& final(self).items@ == old(self).items@.update(
                    old(self).spec_index_of(key),
                    (key, value),
                )
            },
            r is None ==> final(self).items@ == old(self).items@.push((key, value)),
            final(self).spec_contains_key(key),
            final(self).spec_get(key) == value,
    {
        let n = self.items.len();
        let mut i: usize = 0;
        while i < n
            invariant
                old(self).wf(),
                n == self.items@.len(),
                *self == *old(self),
                i <= n,
                forall|m: int| 0 <= m < i as int ==> (#[trigger] self.items@[m]).0 != key,
            decreases n - i,
        {
            if self.items[i].0.0 == key.0 {
                proof {
                    assert(old(self).items@[i as int].0 == key);
                    assert(old(self).spec_contains_key(key));
                    assert(old(self).spec_index_of(key) == i as int) by {
                        let w = old(self).spec_index_of(key);
                        assert(0 <= w < old(self).items@.len() && old(self).items@[w].0 == key);
                        lemma_unique_key(old(self), w, i as int);
                    }
                }
                let mut slot = (key, value);
                core::mem::swap(&mut self.items[i], &mut slot);
                proof {
                    let fin = self.items@;
                    assert(fin[i as int].0 == key);
                    assert(self.spec_contains_key(key));
                    assert(self.spec_index_of(key) == i as int) by {
                        let w = self.spec_index_of(key);
                        assert(0 <= w < fin.len() && fin[w].0 == key);
                        if w != i as int {
                            assert(fin[w] == old(self).items@[w]);
                            lemma_unique_key(old(self), w, i as int);
                        }
                    }
                }
                return Some(slot.1);
            }
            i = i + 1;
        }
        self.items.push((key, value));
        proof {
            let fin = self.items@;
            assert(fin[fin.len() - 1].0 == key);
            assert(self.spec_contains_key(key));
            assert(self.spec_index_of(key) == fin.len() - 1) by {
                let w = self.spec_index_of(key);
                assert(0 <= w < fin.len() && fin[w].0 == key);
                if w < fin.len() - 1 {
                    assert((old(self).items@[w]).0 != key);
                }
            }
        }
        None
    }
}

/// In a well-formed map, a key determines its position.
pub proof fn lemma_unique_key<T>(m: &TypeIdMap<T>, a: int, b: int)
    requires
        m.wf(),
        0 <= a < m.items@.len(),
        0 <= b < m.items@.len(),
        m.items@[a].0 == m.items@[b].0,
    ensures
        a == b,
{
    if a < b {
        assert(m.items@[a].0 != m.items@[b].0);
    } else if b < a {
        assert(m.items@[b].0 != m.items@[a].0);
    }
}

} // verus!
