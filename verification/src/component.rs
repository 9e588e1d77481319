//! Component identity: stable ids, descriptors and the component registry.

use vstd::prelude::*;

use crate::storage::StorageType;
use crate::util::sparse_map::SparseMapKey;
use crate::util::type_id_map::{TypeIdMap, TypeKey};

verus! {

/// The stable id a component type receives on first registration.
#[derive(Clone, Copy, Debug, PartialEq, Eq, Structural, Hash)]
pub struct ComponentId(pub usize);

impl SparseMapKey for ComponentId {
    open spec fn spec_index(&self) -> int {
        self.0 as int
    }

    fn index(&self) -> (i: usize)
        ensures
            i as int == self.spec_index(),
    {
        self.0
    }

    fn from_index(index: usize) -> (k: Self)
        ensures
            k.spec_index() == index as int,
    {
        ComponentId(index)
    }
}

/// What the registry must know about a component type: its name (for
/// diagnostics), its type identity, and its storage class.
#[derive(Debug)]
pub struct ComponentDescriptor {
    pub name: String,
    pub type_key: TypeKey,
    pub storage_type: StorageType,
}

impl ComponentDescriptor {
    pub fn new(name: String, type_key: TypeKey, storage_type: StorageType) -> (r: Self)
        ensures
            r == (ComponentDescriptor { name, type_key, storage_type }),
    {
        ComponentDescriptor { name, type_key, storage_type }
    }

    pub fn name(&self) -> (r: &String)
        ensures
            r == &self.name,
    {
        &self.name
    }

    pub fn type_key(&self) -> (r: TypeKey)
        ensures
            r == self.type_key,
    {
        self.type_key
    }

    pub fn storage_type(&self) -> (r: StorageType)
        ensures
            r == self.storage_type,
    {
        self.storage_type
    }

    pub fn duplicate(&self) -> (r: Self)
        ensures
            r == *self,
    {
        ComponentDescriptor {
            name: self.name.clone(),
            type_key: self.type_key,
            storage_type: self.storage_type,
        }
    }
}

/// A registered component: its id and its descriptor.
#[derive(Debug)]
pub struct ComponentInfo {
    pub id: ComponentId,
    pub storage_type: StorageType,
    pub descriptor: ComponentDescriptor,
}

impl ComponentInfo {
    pub fn id(&self) -> (r: ComponentId)
        ensures
            r == self.id,
    {
        self.id
    }

    pub fn storage_type(&self) -> (r: StorageType)
        ensures
            r == self.storage_type,
    {
        self.storage_type
    }

    pub fn descriptor(&self) -> (r: &ComponentDescriptor)
        ensures
            r == &self.descriptor,
    {
        &self.descriptor
    }
}

/// The component registry: assigns a stable, monotonically increasing id to
/// every distinct component type it is shown.
#[derive(Debug)]
pub struct Components {
    pub components: Vec<ComponentInfo>,
    pub by_type: TypeIdMap<ComponentId>,
}

impl Components {
    /// The id under which a type key is registered.
    pub open spec fn spec_id_of(&self, key: TypeKey) -> int {
        self.by_type.spec_get(key).spec_index()
    }

    pub open spec fn spec_registered(&self, key: TypeKey) -> bool {
        self.by_type.spec_contains_key(key)
    }

    pub open spec fn spec_info(&self, id: int) -> ComponentInfo {
        self.components@[id]
    }

    pub open spec fn wf(&self) -> bool {
        &&& self.by_type.wf()
        &&& self.by_type.items@.len() == self.components@.len()
        &&& forall|i: int|
            0 <= i < self.components@.len() ==> (#[trigger] self.components@[i]).id.0 == i
        &&& forall|i: int|
            0 <= i < self.components@.len() ==> (#[trigger] self.components@[i]).storage_type
                == self.components@[i].descriptor.storage_type
        &&& forall|i: int|
            0 <= i < self.components@.len() ==> #[trigger] self.by_type.items@[i] == (
            self.components@[i].descriptor.type_key,
            self.components@[i].id,
            )
    }

    /// A registered key resolves to the unique component that carries it.
    pub proof fn lemma_id_of(&self, key: TypeKey)
        requires
            self.wf(),
            self.spec_registered(key),
        ensures
            0 <= self.spec_id_of(key) < self.components@.len(),
            self.components@[self.spec_id_of(key)].descriptor.type_key == key,
            forall|i: int|
                0 <= i < self.components@.len() && (#[trigger] self.components@[i]).descriptor
                    .type_key == key ==> i == self.spec_id_of(key),
    {
        let w = self.by_type.spec_index_of(key);
        assert(0 <= w < self.by_type.items@.len() && self.by_type.items@[w].0 == key);
        assert(self.by_type.items@[w].1 == self.components@[w].id);
        assert forall|i: int|
            0 <= i < self.components@.len() && (#[trigger] self.components@[i]).descriptor
                .type_key == key implies i == self.spec_id_of(key) by {
            assert(self.by_type.items@[i].0 == key);
            crate::util::type_id_map::lemma_unique_key(&self.by_type, i, w);
        }
    }

    pub fn new() -> (r: Self)
        ensures
            r.wf(),
            r.components@.len() == 0,
    {
        Components { components: Vec::new(), by_type: TypeIdMap::new() }
    }

    /// Register a component type: idempotent, and the id space grows by one
    /// exactly when the type key is new.
    pub fn register(&mut self, descriptor: ComponentDescriptor) -> (r: ComponentId)
        requires
            old(self).wf(),
        ensures
            final(self).wf(),
            final(self).spec_registered(descriptor.type_key),
            r.0 as int == final(self).spec_id_of(descriptor.type_key),
            old(self).spec_registered(descriptor.type_key) ==> {
                &&& *final(self) == *old(self)
                &&& r.0 as int == old(self).spec_id_of(descriptor.type_key)
            },
            !old(self).spec_registered(descriptor.type_key) ==> {
                &&& r.0 as int == old(self).components@.len()
                &&& final(self).components@ == old(self).components@.push(
                    ComponentInfo {
                        id: r,
                        storage_type: descriptor.storage_type,
                        descriptor,
                    },
                )
                &&& final(self).by_type.items@ == old(self).by_type.items@.push(
                    (descriptor.type_key, r),
                )
            },
            // already-registered ids never move
            forall|k: TypeKey|
                old(self).spec_registered(k) ==> (final(self).spec_registered(k)
                    && final(self).spec_id_of(k) == old(self).spec_id_of(k)),
            final(self).components@.len() >= old(self).components@.len(),
            forall|i: int|
                0 <= i < old(self).components@.len() ==> #[trigger] final(self).components@[i]
                    == old(self).components@[i],
    {
        let existing = self.by_type.get(descriptor.type_key);
        match existing {
            Some(id) => {
                let id = *id;
                id
            }
            None => {
                let index = self.components.len();
                let id = ComponentId(index);
                let key = descriptor.type_key;
                self.components.push(
                    ComponentInfo { id, storage_type: descriptor.storage_type, descriptor },
                );
                let replaced = self.by_type.insert(key, id);
                proof {
                    assert(replaced is None);
                    assert forall|k: TypeKey| old(self).spec_registered(k) implies self
                        .spec_registered(k) && self.spec_id_of(k) == old(self).spec_id_of(
                        k,
                    ) by {
                        let w = old(self).by_type.spec_index_of(k);
                        assert(old(self).by_type.items@[w].0 == k);
                        assert(self.by_type.items@[w].0 == k);
                        assert(self.by_type.spec_index_of(k) == w) by {
                            let w2 = self.by_type.spec_index_of(k);
                            assert(0 <= w2 < self.by_type.items@.len() && self.by_type.items@[
                                w2
                            ].0 == k);
                            if w2 != w {
                                assert(self.by_type.items@[w2].0 != self.by_type.items@[w].0);
                            }
                        }
                    }
                    assert(self.by_type.spec_index_of(key) == self.by_type.items@.len() - 1) by {
                        let w = self.by_type.spec_index_of(key);
                        assert(0 <= w < self.by_type.items@.len() && self.by_type.items@[w].0
                            == key);
                        if w < self.by_type.items@.len() - 1 {
                            assert(old(self).by_type.items@[w].0 == key);
                            assert(old(self).spec_registered(key));
                        }
                    }
                }
                id
            }
        }
    }

    /// Look up a registered component's record.
    pub fn get_component_info(&self, component_id: ComponentId) -> (r: &ComponentInfo)
        requires
            0 <= component_id.0 < self.components@.len(),
        ensures
            *r == self.components@[component_id.0 as int],
    {
        &self.components[component_id.0]
    }

    /// The id of a type key, if it has been registered.
    pub fn get_component_id(&self, type_key: TypeKey) -> (r: Option<ComponentId>)
        requires
            self.wf(),
        ensures
            r is Some <==> self.spec_registered(type_key),
            r is Some ==> r->Some_0.0 as int == self.spec_id_of(type_key),
    {
        let existing = self.by_type.get(type_key);
        match existing {
            Some(id) => Some(*id),
            None => None,
        }
    }

    pub fn len(&self) -> (n: usize)
        ensures
            n == self.components@.len(),
    {
        self.components.len()
    }
}

} // verus!
