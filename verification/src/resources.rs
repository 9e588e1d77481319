//! A type-keyed bag of values owned by the world.

use vstd::prelude::*;

use crate::util::type_id_map::{TypeIdMap, TypeKey};

verus! {

/// A bag holding at most one value per type identity.
#[derive(Debug)]
pub struct Resources<R> {
    pub map: TypeIdMap<R>,
}

impl<R> Resources<R> {
    pub open spec fn wf(&self) -> bool {
        self.map.wf()
    }

    pub open spec fn spec_contains(&self, key: TypeKey) -> bool {
        self.map.spec_contains_key(key)
    }

    pub open spec fn spec_get(&self, key: TypeKey) -> R {
        self.map.spec_get(key)
    }

    pub fn new() -> (r: Self)
        ensures
            r.wf(),
            r.map.items@.len() == 0,
    {
        Resources { map: TypeIdMap::new() }
    }

    /// Put a value under its type's key, handing back what the key held
    /// before, if anything.
    pub fn insert(&mut self, key: TypeKey, resource: R) -> (r: Option<R>)
        requires
            old(self).wf(),
        ensures
            final(self).wf(),
            r is Some <==> old(self).spec_contains(key),
            r is Some ==> r->Some_0 == old(self).spec_get(key),
            final(self).spec_contains(key),
            final(self).spec_get(key) == resource,
    {
        self.map.insert(key, resource)
    }

    pub fn get(&self, key: TypeKey) -> (r: Option<&R>)
        requires
            self.wf(),
        ensures
            r is Some <==> self.spec_contains(key),
            r is Some ==> *r->Some_0 == self.spec_get(key),
    {
        self.map.get(key)
    }

    pub fn get_mut(&mut self, key: TypeKey) -> (r: Option<&mut R>)
        requires
            old(self).wf(),
        ensures
            final(self).wf(),
            r is Some <==> old(self).spec_contains(key),
            r is Some ==> {
                &&& *r->Some_0 == old(self).spec_get(key)
                &&& final(self).map.items@ == old(self).map.items@.update(
                    old(self).map.spec_index_of(key),
                    (key, *final(r->Some_0)),
                )
            },
            r is None ==> *final(self) == *old(self),
    {
        proof {
            if old(self).map.spec_contains_key(key) {
                let w = old(self).map.spec_index_of(key);
                assert(old(self).map.items@[w].0 == key);
                assert forall|v: R|
                    #[trigger] old(self).map.items@.update(w, (key, v))[w].0 == key by {}
            }
        }
        self.map.get_mut(key)
    }

    /// Drop every held value.
    pub fn clear(&mut self)
        ensures
            final(self).wf(),
            final(self).map.items@.len() == 0,
            forall|k: TypeKey| !final(self).spec_contains(k),
    {
        self.map.clear();
    }
}

} // verus!
