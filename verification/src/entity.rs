//! Entity handles and the generational entity allocator.

use vstd::prelude::*;

use crate::archetype::{ArchetypeId, ArchetypeRow};
use crate::storage::table::{TableId, TableRow};

verus! {

/// Per-slot generation counter.
///
/// A live generation is at least 1 and strictly below `u32::MAX`;
/// `u32::MAX` is the sentinel generation of an empty slot.
#[derive(Clone, Copy, Debug, PartialEq, Eq, Structural, Hash)]
pub struct EntityGeneration(pub u32);

impl EntityGeneration {
    pub open spec fn spec_new() -> Self {
        EntityGeneration(1)
    }

    pub open spec fn spec_invalid() -> Self {
        EntityGeneration(u32::MAX)
    }

    pub fn new() -> (r: Self)
        ensures
            r == Self::spec_new(),
    {
        EntityGeneration(1)
    }

    pub fn invalid() -> (r: Self)
        ensures
            r == Self::spec_invalid(),
    {
        EntityGeneration(u32::MAX)
    }

    pub fn is_invalid(&self) -> (b: bool)
        ensures
            b == (*self == Self::spec_invalid()),
    {
        self.0 == u32::MAX
    }

    /// Step to the next generation; the caller rules out wrap-around.
    pub fn increment(&mut self)
        requires
            old(self).0 + 1 < u32::MAX,
        ensures
            final(self).0 == old(self).0 + 1,
    {
        self.0 = self.0 + 1;
    }
}

/// An opaque 64-bit entity handle: a 32-bit slot index and a generation.
///
/// Equality is bitwise on the pair.
#[derive(Clone, Copy, Debug, PartialEq, Eq, Structural, Hash)]
pub struct Entity {
    pub index: u32,
    pub generation: EntityGeneration,
}

impl Entity {
    pub open spec fn spec_placeholder() -> Self {
        Entity { index: u32::MAX, generation: EntityGeneration::spec_new() }
    }

    /// The distinguished placeholder handle, never returned by the allocator.
    pub fn placeholder() -> (r: Self)
        ensures
            r == Self::spec_placeholder(),
    {
        Entity { index: u32::MAX, generation: EntityGeneration::new() }
    }

    pub(crate) fn new(index: u32, generation: EntityGeneration) -> (r: Self)
        ensures
            r == (Entity { index, generation }),
    {
        Entity { index, generation }
    }

    pub fn generation(&self) -> (g: EntityGeneration)
        ensures
            g == self.generation,
    {
        self.generation
    }

    pub fn is_placeholder(&self) -> (b: bool)
        ensures
            b == (*self == Self::spec_placeholder()),
    {
        self.index == u32::MAX && self.generation.0 == 1
    }

    /// Pack the handle into 64 bits: the index in the low word, the
    /// generation in the high word.
    pub fn to_bits(&self) -> (r: u64)
        ensures
            r == self.index + self.generation.0 * 0x1_0000_0000,
    {
        let i: u64 = self.index as u64;
        let g: u64 = self.generation.0 as u64;
        let r: u64 = i | (g << 32u64);
        proof {
            assert((i | (g << 32u64)) == i + g * 0x1_0000_0000) by (bit_vector)
                requires
                    i < 0x1_0000_0000,
                    g < 0x1_0000_0000,
            ;
        }
        r
    }

    pub fn as_index(&self) -> (i: usize)
        ensures
            i as int == self.index as int,
    {
        self.index as usize
    }
}

/// Where a live entity's row is stored: archetype and table coordinates.
#[derive(Clone, Copy, Debug, PartialEq, Eq, Structural, Hash)]
pub struct EntityLocation {
    pub archetype_id: ArchetypeId,
    pub archetype_row: ArchetypeRow,
    pub table_id: TableId,
    pub table_row: TableRow,
}

impl EntityLocation {
    pub open spec fn spec_invalid() -> Self {
        EntityLocation {
            archetype_id: ArchetypeId::spec_invalid(),
            archetype_row: ArchetypeRow::spec_invalid(),
            table_id: TableId::spec_invalid(),
            table_row: TableRow::spec_invalid(),
        }
    }

    /// The location of an entity that has been allocated but holds no
    /// components yet: the empty archetype and table, with no row.
    pub open spec fn spec_empty() -> Self {
        EntityLocation {
            archetype_id: ArchetypeId::spec_empty(),
            archetype_row: ArchetypeRow::spec_invalid(),
            table_id: TableId::spec_empty(),
            table_row: TableRow::spec_invalid(),
        }
    }

    pub fn invalid() -> (r: Self)
        ensures
            r == Self::spec_invalid(),
    {
        EntityLocation {
            archetype_id: ArchetypeId::invalid(),
            archetype_row: ArchetypeRow::invalid(),
            table_id: TableId::invalid(),
            table_row: TableRow::invalid(),
        }
    }

    pub fn empty() -> (r: Self)
        ensures
            r == Self::spec_empty(),
    {
        EntityLocation {
            archetype_id: ArchetypeId::empty(),
            archetype_row: ArchetypeRow::invalid(),
            table_id: TableId::empty(),
            table_row: TableRow::invalid(),
        }
    }

    pub fn is_invalid(&self) -> (b: bool)
        ensures
            b == (*self == Self::spec_invalid()),
    {
        self.archetype_id.is_invalid() && self.archetype_row.is_invalid()
            && self.table_id.is_invalid() && self.table_row.is_invalid()
    }
}

/// One metadata slot of the allocator: the slot's current generation and,
/// when occupied, the location of the entity living in it.
#[derive(Clone, Copy, Debug, PartialEq, Eq, Structural, Hash)]
pub struct EntityMeta {
    pub generation: EntityGeneration,
    pub location: EntityLocation,
}

impl EntityMeta {
    pub open spec fn spec_empty() -> Self {
        EntityMeta {
            generation: EntityGeneration::spec_invalid(),
            location: EntityLocation::spec_invalid(),
        }
    }

    pub fn empty() -> (r: Self)
        ensures
            r == Self::spec_empty(),
    {
        EntityMeta { generation: EntityGeneration::invalid(), location: EntityLocation::invalid() }
    }

    pub fn is_empty(&self) -> (b: bool)
        ensures
            b == (*self == Self::spec_empty()),
    {
        self.generation.is_invalid() && self.location.is_invalid()
    }
}

/// The generational index pool: a metadata slot per ever-allocated index and
/// a free list of retired handles awaiting reuse.
#[derive(Debug)]
pub struct Entities {
    pub meta: Vec<EntityMeta>,
    pub free_list: Vec<Entity>,
}

impl Entities {
    /// A slot holds a live entity iff its generation is not the sentinel.
    pub open spec fn occupied(&self, i: int) -> bool {
        self.meta@[i].generation != EntityGeneration::spec_invalid()
    }

    /// The handle `e` is live: its slot exists and the generations agree.
    pub open spec fn spec_live(&self, e: Entity) -> bool {
        &&& e.index < self.meta@.len()
        &&& e.generation != EntityGeneration::spec_invalid()
        &&& self.meta@[e.index as int].generation == e.generation
    }

    pub open spec fn spec_location(&self, e: Entity) -> EntityLocation {
        self.meta@[e.index as int].location
    }

    pub open spec fn in_free_list(&self, index: int) -> bool {
        exists|j: int| 0 <= j < self.free_list@.len() && self.free_list@[j].index as int == index
    }

    /// Allocation is possible: either a slot awaits reuse or a fresh index
    /// still fits in 32 bits (with `u32::MAX` reserved for the placeholder).
    pub open spec fn can_allocate(&self) -> bool {
        self.free_list@.len() > 0 || self.meta@.len() + 1 < u32::MAX
    }

    pub open spec fn wf(&self) -> bool {
        &&& self.meta@.len() + 1 <= u32::MAX
        &&& forall|i: int|
            0 <= i < self.meta@.len() ==> #[trigger] self.meta@[i].generation.0 >= 1
        &&& forall|j: int|
            0 <= j < self.free_list@.len() ==> {
                &&& (#[trigger] self.free_list@[j]).index < self.meta@.len()
                &&& 1 <= self.free_list@[j].generation.0
                &&& self.free_list@[j].generation.0 + 1 < u32::MAX
                &&& self.meta@[self.free_list@[j].index as int].generation
                    == EntityGeneration::spec_invalid()
            }
        &&& forall|j1: int, j2: int|
            0 <= j1 < self.free_list@.len() && 0 <= j2 < self.free_list@.len() && j1 != j2
                ==> #[trigger] self.free_list@[j1].index != #[trigger] self.free_list@[j2].index
    }

    pub fn new() -> (r: Self)
        ensures
            r.wf(),
            r.meta@.len() == 0,
            r.free_list@.len() == 0,
    {
        Entities { meta: Vec::new(), free_list: Vec::new() }
    }

    /// Retire every entity: every slot is emptied in place and queued for
    /// reuse, so the generations survive and no pre-clear handle can ever
    /// resolve again.
    pub fn clear(&mut self)
        requires
            old(self).wf(),
        ensures
            final(self).wf(),
            final(self).meta@.len() == old(self).meta@.len(),
            forall|i: int|
                0 <= i < final(self).meta@.len() ==> #[trigger] final(self).meta@[i]
                    == EntityMeta::spec_empty(),
            forall|e: Entity| !final(self).spec_live(e),
            final(self).free_list@.len() >= old(self).free_list@.len(),
            final(self).free_list@.take(old(self).free_list@.len() as int) == old(self).free_list@,
            forall|j: int|
                old(self).free_list@.len() <= j < final(self).free_list@.len() ==> old(self).meta@[(#[trigger] final(self).free_list@[j]).index as int].generation == final(self).free_list@[j].generation,
    {
        let ghost fl0 = self.free_list@;
        let n = self.meta.len();
        let mut i: usize = 0;
        while i < n
            invariant
                old(self).wf(),
                n == self.meta@.len(),
                n == old(self).meta@.len(),
                i <= n,
                forall|m: int|
                    0 <= m < i as int ==> #[trigger] self.meta@[m] == EntityMeta::spec_empty(),
                forall|m: int|
                    i as int <= m < n ==> #[trigger] self.meta@[m] == old(self).meta@[m],
                self.free_list@.len() >= fl0.len(),
                self.free_list@.take(fl0.len() as int) == fl0,
                fl0 == old(self).free_list@,
                forall|j: int|
                    fl0.len() <= j < self.free_list@.len() ==> {
                        &&& (#[trigger] self.free_list@[j]).index < i
                        &&& old(self).meta@[self.free_list@[j].index as int].generation
                            == self.free_list@[j].generation
                        &&& self.free_list@[j].generation != EntityGeneration::spec_invalid()
                        &&& 1 <= self.free_list@[j].generation.0
                        &&& self.free_list@[j].generation.0 + 1 < u32::MAX
                    },
                forall|j1: int, j2: int|
                    fl0.len() <= j1 < j2 < self.free_list@.len()
                        ==> (#[trigger] self.free_list@[j1]).index < (
                        #[trigger] self.free_list@[j2]).index,
            decreases n - i,
        {
            let meta_i = self.meta[i];
            self.meta[i] = EntityMeta::empty();
            if !meta_i.generation.is_invalid() && meta_i.generation.0 < u32::MAX - 1 {
                let ghost fl_before = self.free_list@;
                self.free_list.push(
                    Entity { index: i as u32, generation: meta_i.generation },
                );
                proof {
                    assert(self.free_list@.take(fl0.len() as int) =~= fl_before.take(
                        fl0.len() as int,
                    ));
                }
            }
            i = i + 1;
        }
        proof {
            assert forall|j: int|
                0 <= j < self.free_list@.len() implies {
                &&& (#[trigger] self.free_list@[j]).index < self.meta@.len()
                &&& 1 <= self.free_list@[j].generation.0
                &&& self.free_list@[j].generation.0 + 1 < u32::MAX
                &&& self.meta@[self.free_list@[j].index as int].generation
                    == EntityGeneration::spec_invalid()
            } by {
                if j < fl0.len() {
                    assert(self.free_list@[j] == fl0[j]) by {
                        assert(self.free_list@.take(fl0.len() as int)[j]
                            == self.free_list@[j]);
                    }
                }
            }
            assert forall|j1: int, j2: int|
                0 <= j1 < self.free_list@.len() && 0 <= j2 < self.free_list@.len() && j1 != j2
                    implies (#[trigger] self.free_list@[j1]).index != (
                #[trigger] self.free_list@[j2]).index by {
                if j1 < fl0.len() {
                    assert(self.free_list@[j1] == fl0[j1]) by {
                        assert(self.free_list@.take(fl0.len() as int)[j1]
                            == self.free_list@[j1]);
                    }
                }
                if j2 < fl0.len() {
                    assert(self.free_list@[j2] == fl0[j2]) by {
                        assert(self.free_list@.take(fl0.len() as int)[j2]
                            == self.free_list@[j2]);
                    }
                }
                if j1 < fl0.len() && j2 >= fl0.len() {
                    assert(old(self).meta@[self.free_list@[j1].index as int].generation
                        == EntityGeneration::spec_invalid());
                    assert(old(self).meta@[self.free_list@[j2].index as int].generation
                        != EntityGeneration::spec_invalid());
                } else if j2 < fl0.len() && j1 >= fl0.len() {
                    assert(old(self).meta@[self.free_list@[j2].index as int].generation
                        == EntityGeneration::spec_invalid());
                    assert(old(self).meta@[self.free_list@[j1].index as int].generation
                        != EntityGeneration::spec_invalid());
                } else if j1 >= fl0.len() && j2 >= fl0.len() {
                    if j1 < j2 {
                        assert(self.free_list@[j1].index < self.free_list@[j2].index);
                    } else {
                        assert(self.free_list@[j2].index < self.free_list@[j1].index);
                    }
                }
            }
        }
    }

    /// Hand out a live handle: reuse the most recently freed slot with a
    /// strictly larger generation, or append a fresh slot.
    ///
    /// The new handle's slot stays empty until `set_location` materializes
    /// the entity.
    pub fn allocate(&mut self) -> (e: Entity)
        requires
            old(self).wf(),
            old(self).can_allocate(),
        ensures
            final(self).wf(),
            1 <= e.generation.0 < u32::MAX,
            e.index < final(self).meta@.len(),
            !final(self).spec_live(e),
            !final(self).in_free_list(e.index as int),
            final(self).meta@[e.index as int].generation == EntityGeneration::spec_invalid(),
            // reuse takes the tail of the free list and bumps its generation
            old(self).free_list@.len() > 0 ==> {
                &&& e.index == old(self).free_list@.last().index
                &&& e.generation.0 == old(self).free_list@.last().generation.0 + 1
                &&& final(self).free_list@ == old(self).free_list@.drop_last()
                &&& final(self).meta@ == old(self).meta@
            },
            // otherwise a fresh slot is appended
            old(self).free_list@.len() == 0 ==> {
                &&& e.index as int == old(self).meta@.len()
                &&& e.generation == EntityGeneration::spec_new()
                &&& final(self).meta@ == old(self).meta@.push(EntityMeta::spec_empty())
                &&& final(self).free_list@ == old(self).free_list@
            },
    {
        let popped = self.free_list.pop();
        match popped {
            Some(mut entity) => {
                entity.generation.increment();
                entity
            }
            None => {
                let index = self.meta.len();
                self.meta.push(EntityMeta::empty());
                Entity { index: index as u32, generation: EntityGeneration::new() }
            }
        }
    }

    /// Retire a live handle: empty its slot and queue it for reuse, unless
    /// its generation space is exhausted, in which case the slot is retired
    /// for good.  Freeing an already-stale handle changes nothing.
    pub fn free(&mut self, entity: Entity)
        requires
            old(self).wf(),
            entity.index < old(self).meta@.len(),
            1 <= entity.generation.0 < u32::MAX,
            entity.generation.0 <= old(self).meta@[entity.index as int].generation.0,
        ensures
            final(self).wf(),
            old(self).spec_live(entity) ==> {
                &&& final(self).meta@ == old(self).meta@.update(
                    entity.index as int,
                    EntityMeta::spec_empty(),
                )
                &&& entity.generation.0 + 1 < u32::MAX ==> final(self).free_list@
                    == old(self).free_list@.push(entity)
                &&& entity.generation.0 + 1 == u32::MAX ==> final(self).free_list@
                    == old(self).free_list@
                &&& !final(self).spec_live(entity)
            },
            !old(self).spec_live(entity) ==> *final(self) == *old(self),
    {
        let index = entity.as_index();
        if self.meta[index].generation.0 == entity.generation.0 {
            proof {
                assert(!old(self).in_free_list(entity.index as int));
            }
            self.meta[index] = EntityMeta::empty();
            if entity.generation.0 + 1 < u32::MAX {
                self.free_list.push(entity);
            }
        }
    }

    /// Record where a live entity's row is stored.  The slot must not be
    /// awaiting reuse.
    pub fn set_location(&mut self, entity: Entity, location: EntityLocation)
        requires
            old(self).wf(),
            entity.index < old(self).meta@.len(),
            1 <= entity.generation.0 < u32::MAX,
            !old(self).in_free_list(entity.index as int),
        ensures
            final(self).wf(),
            final(self).meta@ == old(self).meta@.update(
                entity.index as int,
                EntityMeta { generation: entity.generation, location },
            ),
            final(self).free_list@ == old(self).free_list@,
            final(self).spec_live(entity),
            final(self).spec_location(entity) == location,
    {
        let index = entity.as_index();
        self.meta[index] = EntityMeta { generation: entity.generation, location };
    }

    /// Resolve a handle to its location: present exactly when the handle is
    /// live.  A stale or unknown handle yields nothing.
    pub fn get_location(&self, entity: Entity) -> (r: Option<EntityLocation>)
        ensures
            r is Some <==> self.spec_live(entity),
            r is Some ==> r->Some_0 == self.spec_location(entity),
    {
        if (entity.index as usize) < self.meta.len() {
            let meta = self.meta[entity.index as usize];
            if !entity.generation.is_invalid() && meta.generation.0 == entity.generation.0 {
                Some(meta.location)
            } else {
                None
            }
        } else {
            None
        }
    }

    /// The `(entity, location)` pairs of all occupied slots, by ascending
    /// slot index.
    pub open spec fn occupied_entries(meta: Seq<EntityMeta>) -> Seq<(Entity, EntityLocation)>
        decreases meta.len(),
    {
        if meta.len() == 0 {
            Seq::empty()
        } else {
            let prefix = Self::occupied_entries(meta.drop_last());
            let m = meta.last();
            if m.generation != EntityGeneration::spec_invalid() {
                prefix.push(
                    (
                        Entity {
                            index: (meta.len() - 1) as u32,
                            generation: m.generation,
                        },
                        m.location,
                    ),
                )
            } else {
                prefix
            }
        }
    }

    /// Snapshot every occupied slot, in ascending slot order.
    pub fn iter(&self) -> (it: EntitiesIter)
        ensures
            it.items@ == Self::occupied_entries(self.meta@),
            it.pos == 0,
    {
        let mut items: Vec<(Entity, EntityLocation)> = Vec::new();
        let n = self.meta.len();
        let mut i: usize = 0;
        while i < n
            invariant
                n == self.meta@.len(),
                i <= n,
                items@ == Self::occupied_entries(self.meta@.take(i as int)),
            decreases n - i,
        {
            let meta = self.meta[i];
            proof {
                assert(self.meta@.take(i as int + 1).drop_last() =~= self.meta@.take(i as int));
                assert(self.meta@.take(i as int + 1).last() == self.meta@[i as int]);
            }
            if !meta.generation.is_invalid() {
                items.push((Entity { index: i as u32, generation: meta.generation }, meta.location));
            }
            i = i + 1;
        }
        proof {
            assert(self.meta@.take(n as int) =~= self.meta@);
        }
        EntitiesIter { items, pos: 0 }
    }
}

/// A snapshot iterator over the occupied entity slots.
#[derive(Debug)]
pub struct EntitiesIter {
    pub items: Vec<(Entity, EntityLocation)>,
    pub pos: usize,
}

impl EntitiesIter {
    pub fn next(&mut self) -> (r: Option<(Entity, EntityLocation)>)
        ensures
            old(self).pos < old(self).items@.len() ==> {
                &&& r == Some(old(self).items@[old(self).pos as int])
                &&& final(self).pos == old(self).pos + 1
            },
            old(self).pos >= old(self).items@.len() ==> {
                &&& r is None
                &&& final(self).pos == old(self).pos
            },
            final(self).items@ == old(self).items@,
    {
        if self.pos < self.items.len() {
            let item = self.items[self.pos];
            self.pos = self.pos + 1;
            Some(item)
        } else {
            None
        }
    }
}

/// A deferred rewrite of one entity's location record, produced when a
/// swap-remove moved that entity into a vacated row.
#[derive(Clone, Copy, Debug)]
pub struct ChangedLocation<T> {
    pub entity: Entity,
    pub changed_value: T,
}

impl ChangedLocation<ArchetypeRow> {
    /// Rewrite the entity's archetype row.
    pub fn apply(&self, entities: &mut Entities)
        requires
            old(entities).wf(),
            old(entities).spec_live(self.entity),
        ensures
            final(entities).wf(),
            final(entities).meta@ == old(entities).meta@.update(
                self.entity.index as int,
                EntityMeta {
                    generation: self.entity.generation,
                    location: EntityLocation {
                        archetype_row: self.changed_value,
                        ..old(entities).spec_location(self.entity)
                    },
                },
            ),
            final(entities).free_list@ == old(entities).free_list@,
    {
        let index = self.entity.as_index();
        let mut location = entities.meta[index].location;
        location.archetype_row = self.changed_value;
        proof {
            assert(!old(entities).in_free_list(self.entity.index as int));
        }
        entities.set_location(self.entity, location);
    }
}

impl ChangedLocation<TableRow> {
    /// Rewrite the entity's table row.
    pub fn apply(&self, entities: &mut Entities)
        requires
            old(entities).wf(),
            old(entities).spec_live(self.entity),
        ensures
            final(entities).wf(),
            final(entities).meta@ == old(entities).meta@.update(
                self.entity.index as int,
                EntityMeta {
                    generation: self.entity.generation,
                    location: EntityLocation {
                        table_row: self.changed_value,
                        ..old(entities).spec_location(self.entity)
                    },
                },
            ),
            final(entities).free_list@ == old(entities).free_list@,
    {
        let index = self.entity.as_index();
        let mut location = entities.meta[index].location;
        location.table_row = self.changed_value;
        proof {
            assert(!old(entities).in_free_list(self.entity.index as int));
        }
        entities.set_location(self.entity, location);
    }
}

impl ChangedLocation<EntityLocation> {
    /// Rewrite the entity's whole location record.
    pub fn apply(&self, entities: &mut Entities)
        requires
            old(entities).wf(),
            old(entities).spec_live(self.entity),
        ensures
            final(entities).wf(),
            final(entities).meta@ == old(entities).meta@.update(
                self.entity.index as int,
                EntityMeta { generation: self.entity.generation, location: self.changed_value },
            ),
            final(entities).free_list@ == old(entities).free_list@,
    {
        proof {
            assert(!old(entities).in_free_list(self.entity.index as int));
        }
        entities.set_location(self.entity, self.changed_value);
    }
}

} // verus!
