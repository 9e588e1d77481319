//! The world: entity allocation, the archetype graph and the tables, kept
//! consistent as one state machine.

use vstd::prelude::*;

use crate::archetype::{ArchetypeEntity, ArchetypeId, ArchetypeRow, Archetypes};
use crate::bundle::{distinct_type_keys, Bundles, DuplicateComponentsError, DynamicBundle};
use crate::component::{ComponentDescriptor, ComponentId, Components};
use crate::storage::table::cells_match_columns;
use crate::entity::{Entities, EntitiesIter, Entity, EntityGeneration, EntityLocation};
use crate::resources::Resources;
use crate::storage::table::{TableId, TableRow, Tables};
use crate::util::type_id_map::TypeKey;

verus! {

/// A world's identity, for debug and cross-world checks.
///
/// A process-unique value would take process-global state, which this crate
/// does not hold; the caller may number its worlds itself.
#[derive(Clone, Copy, Debug, PartialEq, Eq, Structural, Hash)]
pub struct WorldId(pub u64);

/// A read-only handle on one entity.
#[derive(Clone, Copy, Debug, PartialEq, Eq, Structural)]
pub struct EntityRef {
    pub entity: Entity,
}

impl EntityRef {
    pub fn id(&self) -> (r: Entity)
        ensures
            r == self.entity,
    {
        self.entity
    }
}

/// A snapshot iterator over the live entities of a world.
#[derive(Debug)]
pub struct EntityIter {
    pub iter: EntitiesIter,
}

impl EntityIter {
    pub fn next(&mut self) -> (r: Option<EntityRef>)
        ensures
            old(self).iter.pos < old(self).iter.items@.len() ==> {
                &&& r == Some(EntityRef { entity: old(self).iter.items@[old(self).iter.pos as int].0 })
                &&& final(self).iter.pos == old(self).iter.pos + 1
            },
            old(self).iter.pos >= old(self).iter.items@.len() ==> r is None && final(self).iter.pos
                == old(self).iter.pos,
            final(self).iter.items@ == old(self).iter.items@,
    {
        match self.iter.next() {
            Some(pair) => Some(EntityRef { entity: pair.0 }),
            None => None,
        }
    }
}

/// The storage core: owns the allocator, both registries, the archetype
/// graph, the tables and the resource bag, and keeps them consistent.
#[derive(Debug)]
pub struct World<V> {
    pub id: WorldId,
    pub entities: Entities,
    pub components: Components,
    pub bundles: Bundles,
    pub archetypes: Archetypes,
    pub tables: Tables<V>,
    pub resources: Resources<V>,
}

impl<V> World<V> {
    /// The location record of slot `i` names real rows that point back at
    /// the entity, or is the empty location of a component-less entity.
    pub open spec fn located_ok(&self, i: int) -> bool {
        let m = self.entities.meta@[i];
        let e = Entity { index: i as u32, generation: m.generation };
        m.location == EntityLocation::spec_empty() || {
            &&& m.location.archetype_id.0 < self.archetypes.archetypes@.len()
            &&& self.archetypes.archetypes@[m.location.archetype_id.0 as int].table_id
                == m.location.table_id
            &&& m.location.archetype_row.0 < self.archetypes.archetypes@[
                m.location.archetype_id.0 as int
            ].entities@.len()
            &&& self.archetypes.archetypes@[m.location.archetype_id.0 as int].entities@[
                m.location.archetype_row.0 as int
            ] == (ArchetypeEntity { entity: e, table_row: m.location.table_row })
            &&& m.location.table_id.0 < self.tables.tables@.len()
            &&& m.location.table_row.0 < self.tables.tables@[
                m.location.table_id.0 as int
            ].entities@.len()
            &&& self.tables.tables@[m.location.table_id.0 as int].entities@[
                m.location.table_row.0 as int
            ] == e
        }
    }

    /// Every live entity's location is good.
    pub open spec fn locations_consistent(&self) -> bool {
        forall|i: int|
            0 <= i < self.entities.meta@.len() && (#[trigger] self.entities.meta@[i]).generation
                != EntityGeneration::spec_invalid() ==> self.located_ok(i)
    }

    /// Every archetype row holds a live entity whose location names exactly
    /// that row.
    pub open spec fn archetype_rows_consistent(&self) -> bool {
        forall|a: int, r: int|
            0 <= a < self.archetypes.archetypes@.len() && 0 <= r < self.archetypes.archetypes@[
                a
            ].entities@.len() ==> {
                let ae = #[trigger] self.archetypes.archetypes@[a].entities@[r];
                &&& self.entities.spec_live(ae.entity)
                &&& self.entities.spec_location(ae.entity) == (EntityLocation {
                    archetype_id: ArchetypeId(a as usize),
                    archetype_row: ArchetypeRow(r as usize),
                    table_id: self.archetypes.archetypes@[a].table_id,
                    table_row: ae.table_row,
                })
            }
    }

    /// Every table row holds a live entity whose location names exactly that
    /// row.
    pub open spec fn table_rows_consistent(&self) -> bool {
        forall|t: int, r: int|
            0 <= t < self.tables.tables@.len() && 0 <= r < self.tables.tables@[
                t
            ].entities@.len() ==> {
                let e = #[trigger] self.tables.tables@[t].entities@[r];
                &&& self.entities.spec_live(e)
                &&& self.entities.spec_location(e).table_id.0 as int == t
                &&& self.entities.spec_location(e).table_row.0 as int == r
            }
    }

    /// The world invariant: each part is well formed, the graph matches the
    /// tables and the registries, and the three row stores agree on where
    /// every live entity lives.
    pub open spec fn wf(&self) -> bool {
        &&& self.entities.wf()
        &&& self.components.wf()
        &&& self.bundles.wf()
        &&& self.bundles.in_range(self.components.components@.len() as int)
        &&& self.archetypes.wf()
        &&& self.tables.wf()
        &&& self.archetypes.tables_consistent(&self.tables)
        &&& self.archetypes.edges_consistent(&self.bundles)
        &&& self.archetypes.ids_in_range(self.components.components@.len() as int)
        &&& self.resources.wf()
        &&& self.locations_consistent()
        &&& self.archetype_rows_consistent()
        &&& self.table_rows_consistent()
    }

    /// A live entity holds the component exactly when its archetype does.
    pub open spec fn spec_entity_has(&self, e: Entity, cid: int) -> bool {
        self.archetypes.archetypes@[
            self.entities.spec_location(e).archetype_id.0 as int
        ].spec_has_component(cid)
    }

    /// The cell a live entity holds for a component it has.
    pub open spec fn spec_entity_cell(&self, e: Entity, cid: int) -> V {
        self.tables.tables@[self.entities.spec_location(e).table_id.0 as int].spec_column(cid)[
            self.entities.spec_location(e).table_row.0 as int
        ]
    }

    /// A fresh world: no entities, no registrations, the empty archetype and
    /// the empty table.
    pub fn new() -> (r: Self)
        ensures
            r.wf(),
            r.entities.meta@.len() == 0,
            r.components.components@.len() == 0,
            r.bundles.bundle_infos@.len() == 0,
            r.archetypes.archetypes@.len() == 1,
            r.tables.tables@.len() == 1,
    {
        World {
            id: WorldId(1),
            entities: Entities::new(),
            components: Components::new(),
            bundles: Bundles::new(),
            archetypes: Archetypes::new(),
            tables: Tables::new(),
            resources: Resources::new(),
        }
    }

    pub fn id(&self) -> (r: WorldId)
        ensures
            r == self.id,
    {
        self.id
    }

    /// Allocate a live entity with no components: it lives in the empty
    /// archetype with no row of its own.
    pub fn spawn_empty(&mut self) -> (e: Entity)
        requires
            old(self).wf(),
            old(self).entities.can_allocate(),
        ensures
            final(self).wf(),
            final(self).entities.spec_live(e),
            final(self).entities.spec_location(e) == EntityLocation::spec_empty(),
            !old(self).entities.spec_live(e),
            // nothing else moves
            final(self).components == old(self).components,
            final(self).bundles == old(self).bundles,
            final(self).archetypes == old(self).archetypes,
            final(self).tables == old(self).tables,
            final(self).resources == old(self).resources,
            final(self).entities.meta@.len() >= old(self).entities.meta@.len(),
            forall|i: int|
                0 <= i < old(self).entities.meta@.len() && i != e.index as int
                    ==> #[trigger] final(self).entities.meta@[i] == old(self).entities.meta@[i],
    {
        let entity = self.entities.allocate();
        self.entities.set_location(entity, EntityLocation::empty());
        proof {
            assert forall|i: int|
                0 <= i < self.entities.meta@.len() && (#[trigger] self.entities.meta@[
                    i
                ]).generation != EntityGeneration::spec_invalid() implies self.located_ok(i) by {
                if i != entity.index as int {
                    assert(old(self).entities.meta@[i] == self.entities.meta@[i]);
                    assert(old(self).located_ok(i));
                }
            }
        }
        entity
    }

    /// A handle on the entity, exactly when it is live.
    pub fn get_entity(&self, entity: Entity) -> (r: Option<EntityRef>)
        ensures
            r is Some <==> self.entities.spec_live(entity),
            r is Some ==> r->Some_0.entity == entity,
    {
        match self.entities.get_location(entity) {
            Some(_) => Some(EntityRef { entity }),
            None => None,
        }
    }

    /// Whether a live entity holds the component registered under the key;
    /// a stale handle or an unregistered key holds nothing.
    pub fn contains(&self, entity: Entity, type_key: TypeKey) -> (b: bool)
        requires
            self.wf(),
        ensures
            b == (self.entities.spec_live(entity) && self.components.spec_registered(type_key)
                && self.spec_entity_has(entity, self.components.spec_id_of(type_key))),
    {
        let location = match self.entities.get_location(entity) {
            Some(location) => location,
            None => {
                return false;
            }
        };
        let component_id = match self.components.get_component_id(type_key) {
            Some(component_id) => component_id,
            None => {
                return false;
            }
        };
        proof {
            let i = entity.index as int;
            assert(self.located_ok(i));
        }
        self.archetypes.get(location.archetype_id).contains_component(component_id)
    }

    /// Read a live entity's cell for the component registered under the key;
    /// absent for a stale handle, an unregistered key, or a component the
    /// entity does not hold.
    pub fn get(&self, entity: Entity, type_key: TypeKey) -> (r: Option<&V>)
        requires
            self.wf(),
        ensures
            r is Some <==> (self.entities.spec_live(entity) && self.components.spec_registered(
                type_key,
            ) && self.spec_entity_has(entity, self.components.spec_id_of(type_key))),
            r is Some ==> *r->Some_0 == self.spec_entity_cell(
                entity,
                self.components.spec_id_of(type_key),
            ),
    {
        let location = match self.entities.get_location(entity) {
            Some(location) => location,
            None => {
                return None;
            }
        };
        let component_id = match self.components.get_component_id(type_key) {
            Some(component_id) => component_id,
            None => {
                return None;
            }
        };
        proof {
            let i = entity.index as int;
            assert(self.located_ok(i));
            assert(self.archetypes.archetypes@[location.archetype_id.0 as int].table_id
                == location.table_id);
        }
        let table = self.tables.get(location.table_id);
        proof {
            if table.spec_has_column(component_id.0 as int) {
                assert(self.archetypes.archetypes@[
                    location.archetype_id.0 as int
                ].spec_has_component(component_id.0 as int));
                assert(self.entities.spec_location(entity) != EntityLocation::spec_empty());
            }
        }
        table.get_component(component_id, location.table_row)
    }

    /// Snapshot the live entities.
    pub fn iter_entities(&self) -> (it: EntityIter)
        ensures
            it.iter.items@ == Entities::occupied_entries(self.entities.meta@),
            it.iter.pos == 0,
    {
        EntityIter { iter: self.entities.iter() }
    }

    /// A bundle value agrees with what its static type registered: if the
    /// bundle type is cached, its declared types are distinct, registered,
    /// and resolve to exactly the cached component-id set.
    ///
    /// The original leaves this to the bundle trait's contract and never
    /// checks it; here it is a precondition of the operations that consume a
    /// bundle value.
    pub open spec fn bundle_value_coherent(&self, bundle: &DynamicBundle<V>) -> bool {
        self.bundles.spec_registered(bundle.type_key) ==> {
            let info = self.bundles.bundle_infos@[self.bundles.spec_id_of(bundle.type_key)];
            &&& distinct_type_keys(bundle.spec_descriptors())
            &&& forall|n: int|
                0 <= n < bundle.spec_descriptors().len() ==> self.components.spec_registered(
                    (#[trigger] bundle.spec_descriptors()[n]).type_key,
                )
            &&& forall|cid: int|
                #[trigger] info.spec_has_component(cid) <==> exists|n: int|
                    0 <= n < bundle.spec_descriptors().len() && self.components.spec_id_of(
                        (#[trigger] bundle.spec_descriptors()[n]).type_key,
                    ) == cid
        }
    }

    /// Allocate an entity and materialize the bundle's components on it.
    ///
    /// Succeeds exactly when the bundle type is already registered or its
    /// declared component types are distinct; a rejected bundle allocates
    /// nothing and names the duplicated components in the diagnostic.
    #[verifier::rlimit(100)]
    #[verifier::spinoff_prover]
    pub fn spawn(&mut self, bundle: DynamicBundle<V>) -> (r: Result<
        Entity,
        DuplicateComponentsError,
    >)
        requires
            old(self).wf(),
            old(self).entities.can_allocate(),
            old(self).bundle_value_coherent(&bundle),
        ensures
            final(self).wf(),
            r is Ok <==> (old(self).bundles.spec_registered(bundle.type_key)
                || distinct_type_keys(bundle.spec_descriptors())),
            r is Err ==> {
                &&& forall|e2: Entity|
                    final(self).entities.spec_live(e2) <==> old(self).entities.spec_live(e2)
                &&& final(self).bundles == old(self).bundles
                &&& r->Err_0.bundle_name@ == bundle.name@
                &&& r->Err_0.component_names@.len() > 0
            },
            r is Ok ==> {
                let e = r->Ok_0;
                &&& final(self).entities.spec_live(e)
                &&& !old(self).entities.spec_live(e)
                &&& final(self).bundles.spec_registered(bundle.type_key)
                // the entity holds exactly the bundle's component set
                &&& forall|cid: int|
                    #[trigger] final(self).spec_entity_has(e, cid) <==> final(self).bundles.bundle_infos@[
                        final(self).bundles.spec_id_of(bundle.type_key)
                    ].spec_has_component(cid)
                // each declared value lands in its component's cell
                &&& forall|n: int|
                    0 <= n < bundle.components@.len() ==> final(self).spec_entity_cell(
                        e,
                        final(self).components.spec_id_of(
                            (#[trigger] bundle.components@[n]).0.type_key,
                        ),
                    ) == bundle.components@[n].1
                // every other live entity keeps its location and its cells
                &&& forall|e2: Entity|
                    old(self).entities.spec_live(e2) ==> (final(self).entities.spec_live(e2)
                        && final(self).entities.spec_location(e2) == old(self).entities.spec_location(e2))
                &&& forall|e2: Entity, cid: int|
                    old(self).entities.spec_live(e2) ==> ((#[trigger] final(self).spec_entity_has(e2, cid)) <==> old(self).spec_entity_has(e2, cid))
                &&& forall|e2: Entity, cid: int|
                    old(self).entities.spec_live(e2) && old(self).spec_entity_has(e2, cid)
                        ==> #[trigger] final(self).spec_entity_cell(e2, cid) == old(self).spec_entity_cell(e2, cid)
            },
    {
        let ghost descs = bundle.spec_descriptors();
        let registered = self.bundles.get_mut_or_insert_dynamic(&bundle, &mut self.components);
        proof {
            assert forall|a2: int, j2: int|
                0 <= a2 < self.archetypes.archetypes@.len() && 0 <= j2 < self.archetypes
                    .archetypes@[a2].edges.add_bundle.values@.len() && (#[trigger] self.archetypes
                    .archetypes@[a2].edges.add_bundle.values@[j2]) is Some implies self.archetypes
                .add_edge_ok(a2, j2, &self.bundles) by {
                assert(old(self).archetypes.add_edge_ok(a2, j2, &old(self).bundles));
                assert(self.bundles.bundle_infos@[j2] == old(self).bundles.bundle_infos@[j2]);
            }
            assert forall|a2: int, j2: int|
                0 <= a2 < self.archetypes.archetypes@.len() && 0 <= j2 < self.archetypes
                    .archetypes@[a2].edges.remove_bundle.values@.len() && (
            #[trigger] self.archetypes.archetypes@[a2].edges.remove_bundle.values@[j2])
                is Some implies self.archetypes.remove_edge_ok(a2, j2, &self.bundles) by {
                assert(old(self).archetypes.remove_edge_ok(a2, j2, &old(self).bundles));
                assert(self.bundles.bundle_infos@[j2] == old(self).bundles.bundle_infos@[j2]);
            }
            assert forall|i: int, j: int|
                0 <= i < self.archetypes.archetypes@.len() && #[trigger] self.archetypes
                    .archetypes@[i].spec_has_component(j) implies 0 <= j < self.components
                .components@.len() by {
                assert(old(self).archetypes.ids_in_range(
                    old(self).components.components@.len() as int,
                ));
            }
        }
        let bundle_id = match registered {
            Ok(bundle_id) => bundle_id,
            Err(e) => {
                return Err(e);
            }
        };
        let ghost after_reg = *self;
        let entity = self.entities.allocate();
        self.entities.set_location(entity, EntityLocation::empty());
        proof {
            assert forall|i: int|
                0 <= i < self.entities.meta@.len() && (#[trigger] self.entities.meta@[
                    i
                ]).generation != EntityGeneration::spec_invalid() implies self.located_ok(i) by {
                if i != entity.index as int {
                    assert(after_reg.entities.meta@[i] == self.entities.meta@[i]);
                    assert(after_reg.located_ok(i));
                }
            }
        }
        if self.bundles.bundle_infos[bundle_id.0].component_ids.len() == 0 {
            proof {
                broadcast use vstd::seq_lib::group_to_multiset_ensures;

                let info = self.bundles.bundle_infos@[bundle_id.0 as int];
                assert(descs.len() == 0) by {
                    if descs.len() > 0 {
                        if old(self).bundles.spec_registered(bundle.type_key) {
                            assert(old(self).bundle_value_coherent(&bundle));
                            assert(info == old(self).bundles.bundle_infos@[
                                old(self).bundles.spec_id_of(bundle.type_key)
                            ]);
                            assert(info.spec_has_component(
                                old(self).components.spec_id_of(descs[0].type_key),
                            ));
                            let m = choose|m: int|
                                0 <= m < info.component_ids@.len() && (
                                #[trigger] info.component_ids@[m]).0 as int == old(
                                    self,
                                ).components.spec_id_of(descs[0].type_key);
                        } else {
                            let resolved = crate::bundle::ids_of(descs, self.components);
                            assert(info.component_ids@.to_multiset() == resolved.to_multiset());
                            assert(info.component_ids@.to_multiset().len() == 0);
                            assert(resolved.to_multiset().len() == resolved.len());
                            assert(resolved.len() == descs.len());
                        }
                    }
                }
                assert(bundle.components@.len() == descs.len());
                assert forall|cid: int| !(#[trigger] self.spec_entity_has(entity, cid)) by {
                    assert(self.archetypes.archetypes@[0].components.values@.len() == 0);
                }
                assert forall|cid: int| !(#[trigger] info.spec_has_component(cid)) by {}
                assert forall|e2: Entity|
                    old(self).entities.spec_live(e2) implies (self.entities.spec_live(e2)
                    && self.entities.spec_location(e2) == old(self).entities.spec_location(
                        e2,
                    )) by {
                    assert(e2.index as int != entity.index as int) by {
                        if e2.index == entity.index {
                            assert(after_reg.entities.meta@[entity.index as int].generation
                                == EntityGeneration::spec_invalid()
                                || entity.index as int >= after_reg.entities.meta@.len());
                        }
                    }
                    assert(self.entities.meta@[e2.index as int] == old(self).entities.meta@[
                        e2.index as int
                    ]);
                }
            }
            return Ok(entity);
        }
        let ghost pre_edge = *self;
        let binfo = &self.bundles.bundle_infos[bundle_id.0];
        let edge = self.archetypes.add_bundle(
            ArchetypeId::empty(),
            binfo,
            &self.bundles,
            &self.components,
            &mut self.tables,
        );
        proof {
            assert(pre_edge.archetypes.archetypes@[0].components.values@.len() == 0);
            assert forall|cid: int|
                !(#[trigger] pre_edge.archetypes.archetypes@[0].spec_has_component(cid)) by {}
            if edge is None {
                assert(pre_edge.bundles.bundle_infos@[bundle_id.0 as int].spec_has_component(
                    pre_edge.bundles.bundle_infos@[bundle_id.0 as int].component_ids@[0].0 as int,
                ));
                assert(false);
            }
        }
        let (_from_id, to_id) = match edge {
            Some(pair) => pair,
            None => {
                return Ok(entity);
            }
        };
        proof {
            // the world minus the graph pieces is untouched by the edge step
            assert forall|i: int|
                0 <= i < self.entities.meta@.len() && (#[trigger] self.entities.meta@[
                    i
                ]).generation != EntityGeneration::spec_invalid() implies self.located_ok(i) by {
                assert(pre_edge.located_ok(i));
                let m = self.entities.meta@[i];
                if m.location != EntityLocation::spec_empty() {
                    assert(self.archetypes.archetypes@[m.location.archetype_id.0 as int].entities@
                        == pre_edge.archetypes.archetypes@[m.location.archetype_id.0 as int].entities@);
                    assert(self.tables.tables@[m.location.table_id.0 as int] == pre_edge.tables
                        .tables@[m.location.table_id.0 as int]);
                }
            }
            assert forall|a: int, r2: int|
                0 <= a < self.archetypes.archetypes@.len() && 0 <= r2 < self.archetypes
                    .archetypes@[a].entities@.len() implies {
                let ae = #[trigger] self.archetypes.archetypes@[a].entities@[r2];
                &&& self.entities.spec_live(ae.entity)
                &&& self.entities.spec_location(ae.entity) == (EntityLocation {
                    archetype_id: ArchetypeId(a as usize),
                    archetype_row: ArchetypeRow(r2 as usize),
                    table_id: self.archetypes.archetypes@[a].table_id,
                    table_row: ae.table_row,
                })
            } by {
                if a < pre_edge.archetypes.archetypes@.len() {
                    assert(self.archetypes.archetypes@[a].entities@ == pre_edge.archetypes
                        .archetypes@[a].entities@);
                    assert(self.archetypes.archetypes@[a].table_id == pre_edge.archetypes
                        .archetypes@[a].table_id);
                } else {
                    assert(self.archetypes.archetypes@[a].entities@.len() == 0);
                }
            }
            assert forall|t: int, r2: int|
                0 <= t < self.tables.tables@.len() && 0 <= r2 < self.tables.tables@[
                    t
                ].entities@.len() implies {
                let e2 = #[trigger] self.tables.tables@[t].entities@[r2];
                &&& self.entities.spec_live(e2)
                &&& self.entities.spec_location(e2).table_id.0 as int == t
                &&& self.entities.spec_location(e2).table_row.0 as int == r2
            } by {
                if t < pre_edge.tables.tables@.len() {
                    assert(self.tables.tables@[t] == pre_edge.tables.tables@[t]);
                } else {
                    assert(self.tables.tables@[t].entities@.len() == 0);
                }
            }
        }
        let to_table_id = self.archetypes.get(to_id).table_id();
        // pair each declared value with its component id, in declared order
        let ghost parts0 = bundle.components@;
        let mut parts = bundle.components;
        let mut rev: Vec<(ComponentDescriptor, V)> = Vec::new();
        let ghost pn = parts0.len() as int;
        while parts.len() > 0
            invariant
                parts0.len() == pn,
                parts@.len() + rev@.len() == pn,
                parts@ == parts0.take(parts@.len() as int),
                forall|m: int| 0 <= m < rev@.len() ==> #[trigger] rev@[m] == parts0[pn - 1 - m],
            decreases parts@.len(),
        {
            let ghost k = parts@.len() - 1;
            let pair = parts.pop().unwrap();
            proof {
                assert(pair == parts0[k]);
                assert(parts@ =~= parts0.take(k));
            }
            rev.push(pair);
        }
        proof {
            assert forall|n: int| 0 <= n < parts0.len() implies self.components.spec_registered(
                (#[trigger] parts0[n]).0.type_key,
            ) by {
                assert(descs[n] == parts0[n].0);
                if old(self).bundles.spec_registered(bundle.type_key) {
                    assert(old(self).components.spec_registered(descs[n].type_key));
                }
            }
        }
        let mut cells: Vec<(ComponentId, V)> = Vec::new();
        while rev.len() > 0
            invariant
                self.components.wf(),
                parts0.len() == pn,
                rev@.len() <= pn,
                forall|m: int| 0 <= m < rev@.len() ==> #[trigger] rev@[m] == parts0[pn - 1 - m],
                cells@.len() == pn - rev@.len(),
                forall|n: int|
                    0 <= n < parts0.len() ==> self.components.spec_registered(
                        (#[trigger] parts0[n]).0.type_key,
                    ),
                forall|n: int|
                    0 <= n < cells@.len() ==> {
                        &&& (#[trigger] cells@[n]).0.0 as int == self.components.spec_id_of(
                            parts0[n].0.type_key,
                        )
                        &&& cells@[n].1 == parts0[n].1
                    },
            decreases rev@.len(),
        {
            let ghost p = pn - rev@.len();
            let pair = rev.pop().unwrap();
            proof {
                assert(pair == parts0[p]);
            }
            let (desc, value) = pair;
            let looked = self.components.get_component_id(desc.type_key);
            let cid = match looked {
                Some(cid) => cid,
                None => {
                    proof {
                        assert(self.components.spec_registered(parts0[p].0.type_key));
                        assert(false);
                    }
                    return Ok(entity);
                }
            };
            cells.push((cid, value));
        }
        proof {
            let info = self.bundles.bundle_infos@[bundle_id.0 as int];
            let cols = self.tables.tables@[to_table_id.0 as int].spec_columns();
            assert(distinct_type_keys(descs)) by {
                if old(self).bundles.spec_registered(bundle.type_key) {
                } else {
                }
            }
            assert forall|n: int| 0 <= n < descs.len() implies #[trigger] descs[n] == parts0[
                n
            ].0 by {}
            // the bundle's registered component set is exactly what the
            // declared types resolve to
            assert forall|cid: int|
                #[trigger] info.spec_has_component(cid) <==> exists|n: int|
                    0 <= n < descs.len() && self.components.spec_id_of(
                        (#[trigger] descs[n]).type_key,
                    ) == cid by {
                if old(self).bundles.spec_registered(bundle.type_key) {
                    assert(old(self).bundle_value_coherent(&bundle));
                    assert(info == old(self).bundles.bundle_infos@[
                        old(self).bundles.spec_id_of(bundle.type_key)
                    ]);
                    if info.spec_has_component(cid) {
                        let n = choose|n: int|
                            0 <= n < descs.len() && old(self).components.spec_id_of(
                                (#[trigger] descs[n]).type_key,
                            ) == cid;
                        assert(old(self).components.spec_registered(descs[n].type_key));
                        assert(self.components.spec_id_of(descs[n].type_key) == cid);
                    }
                    if exists|n: int|
                        0 <= n < descs.len() && self.components.spec_id_of(
                            (#[trigger] descs[n]).type_key,
                        ) == cid {
                        let n = choose|n: int|
                            0 <= n < descs.len() && self.components.spec_id_of(
                                (#[trigger] descs[n]).type_key,
                            ) == cid;
                        assert(old(self).components.spec_registered(descs[n].type_key));
                        assert(old(self).components.spec_id_of(descs[n].type_key) == cid);
                    }
                } else {
                    let resolved = crate::bundle::ids_of(descs, self.components);
                    vstd::std_specs::vec::axiom_spec_len(&self.components.components);
                    assert(info.component_ids@.to_multiset() == resolved.to_multiset());
                    if info.spec_has_component(cid) {
                        let m = choose|m: int|
                            0 <= m < info.component_ids@.len() && (
                            #[trigger] info.component_ids@[m]).0 as int == cid;
                        assert(info.component_ids@.contains(info.component_ids@[m]));
                        crate::util::lemma_contains_transfer(
                            info.component_ids@,
                            resolved,
                            info.component_ids@[m],
                        );
                        let n = choose|n: int|
                            0 <= n < resolved.len() && resolved[n] == info.component_ids@[m];
                        assert(resolved[n] == ComponentId(
                            self.components.spec_id_of(descs[n].type_key) as usize,
                        ));
                        self.components.lemma_id_of(descs[n].type_key);
                        assert(self.components.spec_id_of(descs[n].type_key) == cid);
                    }
                    if exists|n: int|
                        0 <= n < descs.len() && self.components.spec_id_of(
                            (#[trigger] descs[n]).type_key,
                        ) == cid {
                        let n = choose|n: int|
                            0 <= n < descs.len() && self.components.spec_id_of(
                                (#[trigger] descs[n]).type_key,
                            ) == cid;
                        self.components.lemma_id_of(descs[n].type_key);
                        assert(resolved[n] == ComponentId(
                            self.components.spec_id_of(descs[n].type_key) as usize,
                        ));
                        assert(resolved[n].0 as int == cid);
                        assert(resolved.contains(resolved[n]));
                        crate::util::lemma_contains_transfer(
                            resolved,
                            info.component_ids@,
                            resolved[n],
                        );
                        let m = choose|m: int|
                            0 <= m < info.component_ids@.len() && info.component_ids@[m]
                                == resolved[n];
                        assert(info.component_ids@[m].0 as int == cid);
                    }
                }
            }
            // the target table's columns are exactly that set
            assert forall|cid: int|
                (0 <= cid < cols.len() && cols[cid] is Some) <==> info.spec_has_component(
                    cid,
                ) by {
                assert(self.archetypes.archetypes@[to_id.0 as int].spec_has_component(cid)
                    <==> self.tables.tables@[to_table_id.0 as int].spec_has_column(cid));
            }
            // the assembled cells cover it exactly once
            assert forall|n1: int, n2: int|
                0 <= n1 < n2 < cells@.len() implies (#[trigger] cells@[n1]).0 != (
            #[trigger] cells@[n2]).0 by {
                self.components.lemma_id_of(descs[n1].type_key);
                self.components.lemma_id_of(descs[n2].type_key);
                if cells@[n1].0 == cells@[n2].0 {
                    assert(descs[n1].type_key == descs[n2].type_key);
                }
            }
            assert forall|n: int| 0 <= n < cells@.len() implies {
                &&& 0 <= (#[trigger] cells@[n]).0.0 < cols.len()
                &&& cols[cells@[n].0.0 as int] is Some
            } by {
                assert(self.components.spec_id_of(descs[n].type_key) == cells@[n].0.0 as int);
                assert(info.spec_has_component(cells@[n].0.0 as int));
            }
            assert forall|j: int|
                0 <= j < cols.len() && cols[j] is Some implies exists|n: int|
                    0 <= n < cells@.len() && (#[trigger] cells@[n]).0.0 as int == j by {
                assert(info.spec_has_component(j));
                let n = choose|n: int|
                    0 <= n < descs.len() && self.components.spec_id_of(
                        (#[trigger] descs[n]).type_key,
                    ) == j;
                assert(cells@[n].0.0 as int == j);
            }
            assert(cells_match_columns(cells@, cols));
        }
        let ghost pre_push = *self;
        let new_row = {
            let to_table = self.tables.get_mut(to_table_id);
            to_table.push_row(entity, cells)
        };
        proof {
            assert forall|i: int, j: int|
                0 <= i < j < self.tables.tables@.len() implies crate::util::sparse_map::key_indexes(
                (#[trigger] self.tables.tables@[i]).spec_columns(),
            ) != crate::util::sparse_map::key_indexes(
                (#[trigger] self.tables.tables@[j]).spec_columns(),
            ) by {
                crate::storage::table::lemma_key_indexes_same(
                    self.tables.tables@[i].spec_columns(),
                    pre_push.tables.tables@[i].spec_columns(),
                );
                crate::storage::table::lemma_key_indexes_same(
                    self.tables.tables@[j].spec_columns(),
                    pre_push.tables.tables@[j].spec_columns(),
                );
            }
            assert(to_table_id.0 != 0) by {
                let cid0 = pre_push.bundles.bundle_infos@[bundle_id.0 as int].component_ids@[0];
                assert(pre_push.bundles.bundle_infos@[bundle_id.0 as int].spec_has_component(
                    cid0.0 as int,
                ));
                assert(pre_push.archetypes.archetypes@[to_id.0 as int].spec_has_component(
                    cid0.0 as int,
                ));
                assert(pre_push.tables.tables@[to_table_id.0 as int].spec_has_column(
                    cid0.0 as int,
                ));
                if to_table_id.0 == 0 {
                    assert(pre_push.tables.tables@[0].spec_columns().len() == 0);
                }
            }
        }
        let arch_row = {
            let to_archetype = self.archetypes.get_mut(to_id);
            to_archetype.insert_entity(ArchetypeEntity { entity, table_row: new_row })
        };
        proof {
            assert forall|i: int, j: int|
                0 <= i < j < self.archetypes.archetypes@.len() implies crate::util::sparse_map
                ::key_indexes(
                (#[trigger] self.archetypes.archetypes@[i]).components.values@,
            ) != crate::util::sparse_map::key_indexes(
                (#[trigger] self.archetypes.archetypes@[j]).components.values@,
            ) by {
                assert(self.archetypes.archetypes@[i].components == pre_push.archetypes
                    .archetypes@[i].components);
                assert(self.archetypes.archetypes@[j].components == pre_push.archetypes
                    .archetypes@[j].components);
            }
            assert forall|a2: int, j2: int|
                0 <= a2 < self.archetypes.archetypes@.len() && 0 <= j2 < self.archetypes
                    .archetypes@[a2].edges.add_bundle.values@.len() && (#[trigger] self.archetypes
                    .archetypes@[a2].edges.add_bundle.values@[j2]) is Some implies self.archetypes
                .add_edge_ok(a2, j2, &self.bundles) by {
                assert(self.archetypes.archetypes@[a2].edges == pre_push.archetypes.archetypes@[
                    a2
                ].edges);
                assert(pre_push.archetypes.add_edge_ok(a2, j2, &self.bundles));
                assert forall|i: int|
                    0 <= i < self.archetypes.archetypes@.len() implies #[trigger] self.archetypes
                    .archetypes@[i].components == pre_push.archetypes.archetypes@[
                    i
                ].components by {}
                crate::archetype::lemma_cache_step_add_ok(
                    pre_push.archetypes,
                    self.archetypes,
                    a2,
                    j2,
                    &self.bundles,
                );
            }
            assert forall|a2: int, j2: int|
                0 <= a2 < self.archetypes.archetypes@.len() && 0 <= j2 < self.archetypes
                    .archetypes@[a2].edges.remove_bundle.values@.len() && (
            #[trigger] self.archetypes.archetypes@[a2].edges.remove_bundle.values@[j2])
                is Some implies self.archetypes.remove_edge_ok(a2, j2, &self.bundles) by {
                assert(self.archetypes.archetypes@[a2].edges == pre_push.archetypes.archetypes@[
                    a2
                ].edges);
                assert(pre_push.archetypes.remove_edge_ok(a2, j2, &self.bundles));
                assert forall|i: int|
                    0 <= i < self.archetypes.archetypes@.len() implies #[trigger] self.archetypes
                    .archetypes@[i].components == pre_push.archetypes.archetypes@[
                    i
                ].components by {}
                crate::archetype::lemma_cache_step_edge_ok(
                    pre_push.archetypes,
                    self.archetypes,
                    a2,
                    j2,
                    &self.bundles,
                );
            }
        }
        self.entities.set_location(
            entity,
            EntityLocation {
                archetype_id: to_id,
                archetype_row: arch_row,
                table_id: to_table_id,
                table_row: new_row,
            },
        );
        proof {
            let to = to_id.0 as int;
            let tt = to_table_id.0 as int;
            // locations: the spawned entity's new rows are the tails; every
            // other live entity's rows are untouched
            assert forall|i: int|
                0 <= i < self.entities.meta@.len() && (#[trigger] self.entities.meta@[
                    i
                ]).generation != EntityGeneration::spec_invalid() implies self.located_ok(i) by {
                if i == entity.index as int {
                    assert(self.archetypes.archetypes@[to].entities@[arch_row.0 as int]
                        == (ArchetypeEntity { entity, table_row: new_row }));
                    assert(self.tables.tables@[tt].entities@[new_row.0 as int] == entity);
                } else {
                    assert(self.entities.meta@[i] == pre_push.entities.meta@[i]);
                    assert(pre_push.located_ok(i));
                    let m = self.entities.meta@[i];
                    if m.location != EntityLocation::spec_empty() {
                        if m.location.archetype_id.0 as int == to {
                            assert(self.archetypes.archetypes@[to].entities@[
                                m.location.archetype_row.0 as int
                            ] == pre_push.archetypes.archetypes@[to].entities@[
                                m.location.archetype_row.0 as int
                            ]);
                        }
                        if m.location.table_id.0 as int == tt {
                            assert(self.tables.tables@[tt].entities@[
                                m.location.table_row.0 as int
                            ] == pre_push.tables.tables@[tt].entities@[
                                m.location.table_row.0 as int
                            ]);
                        }
                    }
                }
            }
            assert forall|a: int, r2: int|
                0 <= a < self.archetypes.archetypes@.len() && 0 <= r2 < self.archetypes
                    .archetypes@[a].entities@.len() implies {
                let ae = #[trigger] self.archetypes.archetypes@[a].entities@[r2];
                &&& self.entities.spec_live(ae.entity)
                &&& self.entities.spec_location(ae.entity) == (EntityLocation {
                    archetype_id: ArchetypeId(a as usize),
                    archetype_row: ArchetypeRow(r2 as usize),
                    table_id: self.archetypes.archetypes@[a].table_id,
                    table_row: ae.table_row,
                })
            } by {
                if a == to && r2 == arch_row.0 as int {
                } else {
                    assert(self.archetypes.archetypes@[a].entities@[r2] == pre_push.archetypes
                        .archetypes@[a].entities@[r2]);
                    let ae = pre_push.archetypes.archetypes@[a].entities@[r2];
                    assert(pre_push.entities.spec_live(ae.entity));
                    assert(ae.entity.index as int != entity.index as int) by {
                        if ae.entity.index == entity.index {
                            assert(pre_push.entities.spec_location(ae.entity)
                                == EntityLocation::spec_empty());
                            assert(pre_push.entities.spec_location(ae.entity).archetype_row
                                == ArchetypeRow(r2 as usize));
                        }
                    }
                    assert(self.entities.meta@[ae.entity.index as int] == pre_push.entities
                        .meta@[ae.entity.index as int]);
                }
            }
            assert forall|t: int, r2: int|
                0 <= t < self.tables.tables@.len() && 0 <= r2 < self.tables.tables@[
                    t
                ].entities@.len() implies {
                let e2 = #[trigger] self.tables.tables@[t].entities@[r2];
                &&& self.entities.spec_live(e2)
                &&& self.entities.spec_location(e2).table_id.0 as int == t
                &&& self.entities.spec_location(e2).table_row.0 as int == r2
            } by {
                if t == tt && r2 == new_row.0 as int {
                } else {
                    assert(self.tables.tables@[t].entities@[r2] == pre_push.tables.tables@[
                        t
                    ].entities@[r2]);
                    let e2 = pre_push.tables.tables@[t].entities@[r2];
                    assert(pre_push.entities.spec_live(e2));
                    assert(e2.index as int != entity.index as int) by {
                        if e2.index == entity.index {
                            assert(pre_push.entities.spec_location(e2)
                                == EntityLocation::spec_empty());
                            assert(pre_push.entities.spec_location(e2).table_row
                                == TableRow(r2 as usize));
                        }
                    }
                    assert(self.entities.meta@[e2.index as int] == pre_push.entities.meta@[
                        e2.index as int
                    ]);
                }
            }
            // the spawned entity holds exactly the bundle's set, with the
            // declared values
            let info = self.bundles.bundle_infos@[bundle_id.0 as int];
            assert forall|cid: int|
                #[trigger] self.spec_entity_has(entity, cid) <==> info.spec_has_component(
                    cid,
                ) by {
                assert(self.archetypes.archetypes@[to].components == pre_push.archetypes
                    .archetypes@[to].components);
            }
            assert forall|n: int|
                #![trigger parts0[n]]
                0 <= n < parts0.len() implies self.spec_entity_cell(
                entity,
                self.components.spec_id_of(parts0[n].0.type_key),
            ) == parts0[n].1 by {
                let cid = cells@[n].0;
                assert(self.tables.tables@[tt].spec_columns()[cid.0 as int]->Some_0
                    == pre_push.tables.tables@[tt].spec_column(cid.0 as int).push(
                    cells@[n].1,
                ));
                assert(pre_push.tables.tables@[tt].spec_column(cid.0 as int).len()
                    == new_row.0);
            }
            // every pre-existing live entity keeps its location and cells
            assert forall|e2: Entity|
                old(self).entities.spec_live(e2) implies (self.entities.spec_live(e2)
                && self.entities.spec_location(e2) == old(self).entities.spec_location(
                    e2,
                )) by {
                assert(e2.index as int != entity.index as int || e2.generation
                    != entity.generation);
                assert(self.entities.meta@[e2.index as int] == old(self).entities.meta@[
                    e2.index as int
                ]);
            }
            assert forall|e2: Entity, cid: int|
                old(self).entities.spec_live(e2) implies ((#[trigger] self.spec_entity_has(
                    e2,
                    cid,
                )) <==> old(self).spec_entity_has(e2, cid)) by {
                let l = old(self).entities.spec_location(e2);
                assert(self.archetypes.archetypes@[l.archetype_id.0 as int].components == old(self).archetypes.archetypes@[l.archetype_id.0 as int].components);
            }
            assert forall|e2: Entity, cid: int|
                old(self).entities.spec_live(e2) && old(self).spec_entity_has(e2, cid)
                    implies #[trigger] self.spec_entity_cell(e2, cid) == old(self).spec_entity_cell(e2, cid) by {
                let l = old(self).entities.spec_location(e2);
                assert(old(self).located_ok(e2.index as int));
                assert(l != EntityLocation::spec_empty()) by {
                    if l == EntityLocation::spec_empty() {
                        assert(old(self).archetypes.archetypes@[0].components.values@.len()
                            == 0);
                    }
                }
                assert(old(self).tables.tables@[l.table_id.0 as int].spec_has_column(cid));
                assert(l.table_row.0 < old(self).tables.tables@[
                    l.table_id.0 as int
                ].entities@.len());
                if l.table_id.0 as int == tt {
                    assert(self.tables.tables@[tt].spec_columns()[cid as int]->Some_0
                        == pre_push.tables.tables@[tt].spec_column(cid).push(
                        cells@[choose|n: int|
                            0 <= n < cells@.len() && (#[trigger] cells@[n]).0.0 as int == cid
                        ].1,
                    ));
                } else {
                    assert(self.tables.tables@[l.table_id.0 as int] == old(self).tables
                        .tables@[l.table_id.0 as int]);
                }
            }
        }
        Ok(entity)
    }

    /// Retire every entity and drop every row of every table; the
    /// registries, archetypes and tables themselves stay.
    pub fn clear_entities(&mut self)
        requires
            old(self).wf(),
        ensures
            final(self).wf(),
            forall|e: Entity| !final(self).entities.spec_live(e),
            final(self).components == old(self).components,
            final(self).bundles == old(self).bundles,
            final(self).resources == old(self).resources,
            final(self).archetypes.archetypes@.len() == old(self).archetypes.archetypes@.len(),
            final(self).tables.tables@.len() == old(self).tables.tables@.len(),
    {
        self.entities.clear();
        self.archetypes.clear_entities();
        self.tables.clear();
        proof {
            assert forall|i: int|
                0 <= i < self.entities.meta@.len() && (#[trigger] self.entities.meta@[
                    i
                ]).generation != EntityGeneration::spec_invalid() implies self.located_ok(i) by {
                assert(self.entities.meta@[i] == crate::entity::EntityMeta::spec_empty());
            }
            assert forall|i: int, j: int|
                0 <= i < self.archetypes.archetypes@.len() && #[trigger] self.archetypes
                    .archetypes@[i].spec_has_component(j) implies 0 <= j < self.components
                .components@.len() by {
                assert(self.archetypes.archetypes@[i].components == old(self).archetypes
                    .archetypes@[i].components);
                assert(old(self).archetypes.archetypes@[i].spec_has_component(j));
            }
            assert forall|a2: int, j2: int|
                0 <= a2 < self.archetypes.archetypes@.len() && 0 <= j2 < self.archetypes
                    .archetypes@[a2].edges.add_bundle.values@.len() && (#[trigger] self.archetypes
                    .archetypes@[a2].edges.add_bundle.values@[j2]) is Some implies self.archetypes
                .add_edge_ok(a2, j2, &self.bundles) by {
                assert(self.archetypes.archetypes@[a2].edges == old(self).archetypes.archetypes@[
                    a2
                ].edges);
                assert(old(self).archetypes.add_edge_ok(a2, j2, &old(self).bundles));
                assert forall|i: int|
                    0 <= i < self.archetypes.archetypes@.len() implies #[trigger] self.archetypes
                    .archetypes@[i].components == old(self).archetypes.archetypes@[
                    i
                ].components by {}
                crate::archetype::lemma_cache_step_add_ok(
                    old(self).archetypes,
                    self.archetypes,
                    a2,
                    j2,
                    &self.bundles,
                );
            }
            assert forall|a2: int, j2: int|
                0 <= a2 < self.archetypes.archetypes@.len() && 0 <= j2 < self.archetypes
                    .archetypes@[a2].edges.remove_bundle.values@.len() && (
            #[trigger] self.archetypes.archetypes@[a2].edges.remove_bundle.values@[j2])
                is Some implies self.archetypes.remove_edge_ok(a2, j2, &self.bundles) by {
                assert(self.archetypes.archetypes@[a2].edges == old(self).archetypes.archetypes@[
                    a2
                ].edges);
                assert(old(self).archetypes.remove_edge_ok(a2, j2, &old(self).bundles));
                assert forall|i: int|
                    0 <= i < self.archetypes.archetypes@.len() implies #[trigger] self.archetypes
                    .archetypes@[i].components == old(self).archetypes.archetypes@[
                    i
                ].components by {}
                crate::archetype::lemma_cache_step_edge_ok(
                    old(self).archetypes,
                    self.archetypes,
                    a2,
                    j2,
                    &self.bundles,
                );
            }
            assert forall|i: int|
                0 <= i < self.archetypes.archetypes@.len() implies {
                &&& (#[trigger] self.archetypes.archetypes@[i]).table_id.0
                    < self.tables.tables@.len()
                &&& forall|cid: int|
                    self.archetypes.archetypes@[i].spec_has_component(cid)
                        <==> self.tables.tables@[
                        self.archetypes.archetypes@[i].table_id.0 as int
                    ].spec_has_column(cid)
            } by {
                assert(self.archetypes.archetypes@[i].components == old(self).archetypes
                    .archetypes@[i].components);
                assert(self.archetypes.archetypes@[i].table_id == old(self).archetypes
                    .archetypes@[i].table_id);
                assert(old(self).archetypes.archetypes@[i].table_id.0 < old(self).tables.tables@.len());
                assert forall|cid: int|
                    #[trigger] self.archetypes.archetypes@[i].spec_has_component(cid) <==> self
                    .tables.tables@[
                    self.archetypes.archetypes@[i].table_id.0 as int
                ].spec_has_column(cid) by {
                    let t = old(self).archetypes.archetypes@[i].table_id.0 as int;
                    assert(old(self).archetypes.archetypes@[i].spec_has_component(cid) <==> old(self).tables.tables@[t].spec_has_column(cid));
                }
            }
        }
    }

    /// Drop every resource.
    pub fn clear_resources(&mut self)
        requires
            old(self).wf(),
        ensures
            final(self).wf(),
            forall|k: TypeKey| !final(self).resources.spec_contains(k),
            final(self).entities == old(self).entities,
            final(self).components == old(self).components,
            final(self).bundles == old(self).bundles,
            final(self).archetypes == old(self).archetypes,
            final(self).tables == old(self).tables,
    {
        self.resources.clear();
    }

    /// Retire every entity, drop every row, and drop every resource.
    pub fn clear_all(&mut self)
        requires
            old(self).wf(),
        ensures
            final(self).wf(),
            forall|e: Entity| !final(self).entities.spec_live(e),
            forall|k: TypeKey| !final(self).resources.spec_contains(k),
    {
        self.clear_entities();
        self.clear_resources();
    }
}

} // verus!
