//! Archetypes: groups of entities sharing an exact component set.

use vstd::prelude::*;

use crate::bundle::{BundleId, BundleInfo, Bundles};
use crate::component::{ComponentId, ComponentInfo, Components};
use crate::entity::{ChangedLocation, Entity};
use crate::storage::table::{lemma_key_indexes_same, TableBuilder, TableId, TableRow, Tables};
use crate::storage::StorageType;
use crate::util::sparse_map::{key_indexes, ImmutableSparseMap, SparseMap, SparseMapKey};
use crate::util::sparse_set::{ImmutableSparseSet, SparseSet};
use crate::util::{sort_by_index, strictly_sorted_by_index};

verus! {

/// Index of an archetype in the archetypes collection.
///
/// Id 0 is the empty archetype; `usize::MAX` is the invalid sentinel.
#[derive(Clone, Copy, Debug, PartialEq, Eq, Structural, Hash)]
pub struct ArchetypeId(pub usize);

impl ArchetypeId {
    pub open spec fn spec_index(&self) -> int {
        self.0 as int
    }

    pub open spec fn spec_empty() -> Self {
        ArchetypeId(0)
    }

    pub open spec fn spec_invalid() -> Self {
        ArchetypeId(usize::MAX)
    }

    pub fn empty() -> (r: Self)
        ensures
            r == Self::spec_empty(),
    {
        ArchetypeId(0)
    }

    pub fn invalid() -> (r: Self)
        ensures
            r == Self::spec_invalid(),
    {
        ArchetypeId(usize::MAX)
    }

    pub fn index(&self) -> (i: usize)
        ensures
            i as int == self.spec_index(),
    {
        self.0
    }

    pub fn from_index(index: usize) -> (r: Self)
        ensures
            r.spec_index() == index as int,
    {
        ArchetypeId(index)
    }

    pub fn is_invalid(&self) -> (b: bool)
        ensures
            b == (*self == Self::spec_invalid()),
    {
        self.0 == usize::MAX
    }

    pub fn is_valid(&self) -> (b: bool)
        ensures
            b == (*self != Self::spec_invalid()),
    {
        self.0 != usize::MAX
    }
}

/// Index of an entity's row inside one archetype's entity list.
#[derive(Clone, Copy, Debug, PartialEq, Eq, Structural, Hash)]
pub struct ArchetypeRow(pub usize);

impl ArchetypeRow {
    pub open spec fn spec_index(&self) -> int {
        self.0 as int
    }

    pub open spec fn spec_invalid() -> Self {
        ArchetypeRow(usize::MAX)
    }

    pub fn invalid() -> (r: Self)
        ensures
            r == Self::spec_invalid(),
    {
        ArchetypeRow(usize::MAX)
    }

    pub fn index(&self) -> (i: usize)
        ensures
            i as int == self.spec_index(),
    {
        self.0
    }

    pub fn from_index(index: usize) -> (r: Self)
        ensures
            r.spec_index() == index as int,
    {
        ArchetypeRow(index)
    }

    pub fn is_invalid(&self) -> (b: bool)
        ensures
            b == (*self == Self::spec_invalid()),
    {
        self.0 == usize::MAX
    }

    pub fn is_valid(&self) -> (b: bool)
        ensures
            b == (*self != Self::spec_invalid()),
    {
        self.0 != usize::MAX
    }
}

/// One row of an archetype: the entity living there and its table row.
#[derive(Clone, Copy, Debug, PartialEq, Eq, Structural)]
pub struct ArchetypeEntity {
    pub entity: Entity,
    pub table_row: TableRow,
}

/// What an archetype records about one of its component types.
#[derive(Clone, Copy, Debug, PartialEq, Eq, Structural)]
pub struct ArchetypeComponentInfo {
    pub storage_type: StorageType,
    pub component_id: ComponentId,
}

impl ArchetypeComponentInfo {
    pub fn from_component_info(value: &ComponentInfo) -> (r: Self)
        ensures
            r == (ArchetypeComponentInfo {
                storage_type: value.storage_type,
                component_id: value.id,
            }),
    {
        ArchetypeComponentInfo { storage_type: value.storage_type, component_id: value.id }
    }
}

/// The cached outcome of adding one bundle to one archetype: the target
/// archetype, and the bundle components the source already had.
#[derive(Debug)]
pub struct AddBundle {
    pub archetype_id: ArchetypeId,
    pub duplicate: ImmutableSparseSet<ComponentId>,
}

/// The cached outcome of removing one bundle from one archetype.
#[derive(Debug)]
pub enum RemoveBundle {
    Match { archetype_id: ArchetypeId },
    Mismatch,
}

impl RemoveBundle {
    pub fn archetype_id(&self) -> (r: Option<ArchetypeId>)
        ensures
            self is Match ==> r == Some(self->Match_archetype_id),
            self is Mismatch ==> r is None,
    {
        match self {
            RemoveBundle::Match { archetype_id } => Some(*archetype_id),
            RemoveBundle::Mismatch => None,
        }
    }
}

/// The cached bundle-transition edges out of one archetype.
#[derive(Debug)]
pub struct Edges {
    pub add_bundle: SparseMap<BundleId, AddBundle>,
    pub remove_bundle: SparseMap<BundleId, RemoveBundle>,
}

impl Edges {
    pub open spec fn wf(&self) -> bool {
        &&& self.add_bundle.wf()
        &&& self.remove_bundle.wf()
    }

    pub fn new() -> (r: Self)
        ensures
            r.wf(),
            r.add_bundle.values@.len() == 0,
            r.remove_bundle.values@.len() == 0,
    {
        Edges { add_bundle: SparseMap::new(), remove_bundle: SparseMap::new() }
    }
}

/// A set of entities sharing an exact component set, with its backing table
/// and its cached transition edges.
#[derive(Debug)]
pub struct Archetype {
    pub id: ArchetypeId,
    pub table_id: TableId,
    pub entities: Vec<ArchetypeEntity>,
    pub components: ImmutableSparseMap<ComponentId, ArchetypeComponentInfo>,
    pub edges: Edges,
}

impl Archetype {
    /// The archetype holds this component.
    pub open spec fn spec_has_component(&self, cid: int) -> bool {
        self.components.spec_contains(cid)
    }

    pub open spec fn wf(&self) -> bool {
        &&& self.components.wf()
        &&& self.edges.wf()
        &&& forall|j: int|
            0 <= j < self.components.values@.len() && self.components.values@[j] is Some
                ==> (#[trigger] self.components.values@[j])->Some_0.component_id.0 == j
    }

    pub fn id(&self) -> (r: ArchetypeId)
        ensures
            r == self.id,
    {
        self.id
    }

    pub fn table_id(&self) -> (r: TableId)
        ensures
            r == self.table_id,
    {
        self.table_id
    }

    pub fn contains_component(&self, component_id: ComponentId) -> (b: bool)
        ensures
            b == self.spec_has_component(component_id.0 as int),
    {
        self.components.contains_key(&component_id)
    }

    /// The cached add-bundle edge for a bundle, if one exists.
    pub fn add_bundle(&self, bundle_id: BundleId) -> (r: Option<&AddBundle>)
        ensures
            r is Some <==> self.edges.add_bundle.spec_contains(bundle_id.0 as int),
            r is Some ==> *r->Some_0 == self.edges.add_bundle.values@[
                bundle_id.0 as int
            ]->Some_0,
    {
        self.edges.add_bundle.get(&bundle_id)
    }

    /// Append an entity row; hands back its archetype row.
    pub fn insert_entity(&mut self, archetype_entity: ArchetypeEntity) -> (r: ArchetypeRow)
        ensures
            r.0 as int == old(self).entities@.len(),
            final(self).entities@ == old(self).entities@.push(archetype_entity),
            final(self).id == old(self).id,
            final(self).table_id == old(self).table_id,
            final(self).components == old(self).components,
            final(self).edges == old(self).edges,
    {
        let index = self.entities.len();
        self.entities.push(archetype_entity);
        ArchetypeRow(index)
    }

    /// Swap-remove an entity row; if another row was swapped up into the
    /// vacated slot, say whose location record must be rewritten.  An invalid
    /// row is a no-op.
    pub fn remove_entity(&mut self, archetype_row: ArchetypeRow) -> (r: Option<
        ChangedLocation<ArchetypeRow>,
    >)
        requires
            archetype_row != ArchetypeRow::spec_invalid() ==> archetype_row.0 < old(self).entities@.len(),
        ensures
            final(self).id == old(self).id,
            final(self).table_id == old(self).table_id,
            final(self).components == old(self).components,
            final(self).edges == old(self).edges,
            archetype_row == ArchetypeRow::spec_invalid() ==> (*final(self) == *old(self)
                && r is None),
            archetype_row != ArchetypeRow::spec_invalid() ==> {
                &&& final(self).entities@ == old(self).entities@.update(
                    archetype_row.0 as int,
                    old(self).entities@.last(),
                ).drop_last()
                &&& (r is Some <==> archetype_row.0 as int + 1 < old(self).entities@.len())
                &&& r is Some ==> r->Some_0 == (ChangedLocation {
                    entity: old(self).entities@.last().entity,
                    changed_value: archetype_row,
                })
            },
    {
        if archetype_row.is_invalid() {
            return None;
        }
        let index = archetype_row.index();
        let was_tail = index == self.entities.len() - 1;
        let _removed = self.entities.swap_remove(index);
        if !was_tail {
            Some(
                ChangedLocation {
                    entity: self.entities[index].entity,
                    changed_value: archetype_row,
                },
            )
        } else {
            None
        }
    }
}

/// Membership of an id in a sorted id list, decided by scan.
fn contains_id(ids: &Vec<ComponentId>, cid: ComponentId) -> (b: bool)
    ensures
        b == exists|m: int| 0 <= m < ids@.len() && (#[trigger] ids@[m]).0 == cid.0,
{
    let n = ids.len();
    let mut i: usize = 0;
    while i < n
        invariant
            n == ids@.len(),
            i <= n,
            forall|m: int| 0 <= m < i as int ==> (#[trigger] ids@[m]).0 != cid.0,
        decreases n - i,
    {
        if ids[i].0 == cid.0 {
            return true;
        }
        i = i + 1;
    }
    false
}

/// Compare an archetype's component-id set with a sorted id list.
fn component_set_matches(archetype: &Archetype, component_ids: &Vec<ComponentId>) -> (b: bool)
    ensures
        b == (key_indexes(archetype.components.values@) == component_ids@.map_values(
            |k: ComponentId| k.spec_index(),
        )),
{
    let keys = archetype.components.keys();
    if keys.items.len() != component_ids.len() {
        proof {
            assert(keys.items@.map_values(|k: ComponentId| k.spec_index()).len()
                == keys.items@.len());
            assert(component_ids@.map_values(|k: ComponentId| k.spec_index()).len()
                == component_ids@.len());
        }
        return false;
    }
    let n = keys.items.len();
    let mut i: usize = 0;
    while i < n
        invariant
            n == keys.items@.len(),
            n == component_ids@.len(),
            i <= n,
            key_indexes(archetype.components.values@) == keys.items@.map_values(
                |k: ComponentId| k.spec_index(),
            ),
            forall|m: int|
                0 <= m < i as int ==> (#[trigger] keys.items@[m]).0 == component_ids@[m].0,
        decreases n - i,
    {
        if keys.items[i].0 != component_ids[i].0 {
            proof {
                assert(keys.items@.map_values(|k: ComponentId| k.spec_index())[i as int]
                    != component_ids@.map_values(|k: ComponentId| k.spec_index())[i as int]);
            }
            return false;
        }
        i = i + 1;
    }
    proof {
        assert(keys.items@.map_values(|k: ComponentId| k.spec_index()) =~= component_ids@
            .map_values(|k: ComponentId| k.spec_index()));
    }
    true
}

/// An occupancy pattern whose index list is a sorted id list holds exactly
/// those ids.
pub proof fn lemma_set_of_key_indexes<V2>(values: Seq<Option<V2>>, ids: Seq<ComponentId>)
    requires
        key_indexes(values) == ids.map_values(|k: ComponentId| k.spec_index()),
    ensures
        forall|j: int|
            (0 <= j < values.len() && values[j] is Some) <==> exists|m: int|
                0 <= m < ids.len() && (#[trigger] ids[m]).0 as int == j,
{
    crate::util::sparse_map::lemma_key_indexes_bounds(values);
    assert forall|j: int| (0 <= j < values.len() && values[j] is Some) implies exists|m: int|
        0 <= m < ids.len() && (#[trigger] ids[m]).0 as int == j by {
        assert(key_indexes(values).contains(j));
        let n = choose|n: int|
            0 <= n < key_indexes(values).len() && key_indexes(values)[n] == j;
        assert(ids.map_values(|k: ComponentId| k.spec_index())[n] == j);
        assert(ids[n].0 as int == j);
    }
    assert forall|j: int|
        (exists|m: int| 0 <= m < ids.len() && (#[trigger] ids[m]).0 as int == j) implies (0 <= j
        < values.len() && values[j] is Some) by {
        let m = choose|m: int| 0 <= m < ids.len() && (#[trigger] ids[m]).0 as int == j;
        assert(ids.map_values(|k: ComponentId| k.spec_index())[m] == j);
        assert(key_indexes(values)[m] == j);
    }
}

/// An occupancy pattern built by inserting a sorted id list into an empty
/// sparse array lists exactly those ids.
pub proof fn lemma_key_indexes_from_sorted<V2>(values: Seq<Option<V2>>, ids: Seq<ComponentId>)
    requires
        strictly_sorted_by_index(ids),
        forall|j: int|
            0 <= j < values.len() ==> ((values[j] is Some) <==> exists|m: int|
                0 <= m < ids.len() && (#[trigger] ids[m]).0 as int == j),
        forall|m: int| 0 <= m < ids.len() ==> 0 <= (#[trigger] ids[m]).0 < values.len(),
    ensures
        key_indexes(values) == ids.map_values(|k: ComponentId| k.spec_index()),
    decreases values.len(),
{
    if values.len() == 0 {
        assert(ids.len() == 0) by {
            if ids.len() > 0 {
                assert(0 <= ids[0].0 < values.len());
            }
        }
        assert(key_indexes(values) =~= ids.map_values(|k: ComponentId| k.spec_index()));
    } else {
        let j = values.len() - 1;
        if values[j as int] is Some {
            let m = choose|m: int| 0 <= m < ids.len() && (#[trigger] ids[m]).0 as int == j;
            assert(m == ids.len() - 1) by {
                if m < ids.len() - 1 {
                    assert(ids[m].spec_index() < ids[ids.len() - 1].spec_index());
                    assert(0 <= ids[ids.len() - 1].0 < values.len());
                }
            }
            assert forall|j2: int|
                0 <= j2 < values.drop_last().len() implies ((values.drop_last()[j2] is Some)
                <==> exists|m2: int|
                0 <= m2 < ids.drop_last().len() && (#[trigger] ids.drop_last()[m2]).0 as int
                    == j2) by {
                if values.drop_last()[j2] is Some {
                    let m2 = choose|m2: int|
                        0 <= m2 < ids.len() && (#[trigger] ids[m2]).0 as int == j2;
                    assert(m2 != ids.len() - 1);
                    assert(ids.drop_last()[m2].0 as int == j2);
                }
                if exists|m2: int|
                    0 <= m2 < ids.drop_last().len() && (#[trigger] ids.drop_last()[m2]).0 as int
                        == j2 {
                    let m2 = choose|m2: int|
                        0 <= m2 < ids.drop_last().len() && (#[trigger] ids.drop_last()[m2]).0
                            as int == j2;
                    assert(ids[m2].0 as int == j2);
                }
            }
            assert forall|m2: int| 0 <= m2 < ids.drop_last().len() implies 0 <= (
            #[trigger] ids.drop_last()[m2]).0 < values.drop_last().len() by {
                assert(ids[m2].spec_index() < ids[ids.len() - 1].spec_index());
            }
            lemma_key_indexes_from_sorted(values.drop_last(), ids.drop_last());
            assert(ids.map_values(|k: ComponentId| k.spec_index()) =~= ids.drop_last()
                .map_values(|k: ComponentId| k.spec_index()).push(j as int));
        } else {
            assert forall|m2: int| 0 <= m2 < ids.len() implies 0 <= (#[trigger] ids[m2]).0
                < values.drop_last().len() by {
                assert(ids[m2].0 as int != j);
            }
            assert forall|j2: int|
                0 <= j2 < values.drop_last().len() implies ((values.drop_last()[j2] is Some)
                <==> exists|m2: int|
                0 <= m2 < ids.len() && (#[trigger] ids[m2]).0 as int == j2) by {
                assert(values.drop_last()[j2] == values[j2]);
            }
            lemma_key_indexes_from_sorted(values.drop_last(), ids);
        }
    }
}

/// Build a new archetype for a component-id set, reusing an existing table
/// with exactly that set or building a fresh one.
#[verifier::spinoff_prover]
pub fn create_archetype<V>(
    archetype_id: ArchetypeId,
    component_ids: &Vec<ComponentId>,
    components: &Components,
    tables: &mut Tables<V>,
) -> (r: Archetype)
    requires
        components.wf(),
        old(tables).wf(),
        strictly_sorted_by_index(component_ids@),
        forall|m: int|
            0 <= m < component_ids@.len() ==> 0 <= (#[trigger] component_ids@[m]).0
                < components.components@.len(),
    ensures
        final(tables).wf(),
        final(tables).tables@.len() >= old(tables).tables@.len(),
        forall|t: int|
            0 <= t < old(tables).tables@.len() ==> #[trigger] final(tables).tables@[t] == old(tables).tables@[t],
        forall|t: int|
            old(tables).tables@.len() <= t < final(tables).tables@.len() ==> (#[trigger] final(tables).tables@[t]).entities@.len() == 0,
        // the spec's creation policy: reuse a table with exactly this set,
        // else build exactly one
        (exists|t: int|
            0 <= t < old(tables).tables@.len() && key_indexes(
                (#[trigger] old(tables).tables@[t]).spec_columns(),
            ) == component_ids@.map_values(|k: ComponentId| k.spec_index())) ==> *final(tables)
            == *old(tables),
        !(exists|t: int|
            0 <= t < old(tables).tables@.len() && key_indexes(
                (#[trigger] old(tables).tables@[t]).spec_columns(),
            ) == component_ids@.map_values(|k: ComponentId| k.spec_index())) ==> {
            &&& final(tables).tables@.len() == old(tables).tables@.len() + 1
            &&& r.table_id.0 as int == old(tables).tables@.len()
        },
        r.id == archetype_id,
        r.entities@.len() == 0,
        r.edges.add_bundle.values@.len() == 0,
        r.edges.remove_bundle.values@.len() == 0,
        r.wf(),
        key_indexes(r.components.values@) == component_ids@.map_values(
            |k: ComponentId| k.spec_index(),
        ),
        forall|j: int|
            r.spec_has_component(j) <==> exists|m: int|
                0 <= m < component_ids@.len() && (#[trigger] component_ids@[m]).0 as int == j,
        r.table_id.0 < final(tables).tables@.len(),
        forall|cid: int|
            r.spec_has_component(cid) <==> final(tables).tables@[
                r.table_id.0 as int
            ].spec_has_column(cid),
        forall|j: int|
            r.spec_has_component(j) ==> r.components.values@[j]->Some_0
                == (ArchetypeComponentInfo {
                storage_type: components.components@[j].storage_type,
                component_id: ComponentId(j as usize),
            }),
{
    let looked_up = tables.get_table_id_by_component_ids(component_ids);
    let table_id = match looked_up {
        Some(table_id) => {
            proof {
                lemma_set_of_key_indexes(
                    tables.tables@[table_id.0 as int].spec_columns(),
                    component_ids@,
                );
            }
            table_id
        }
        None => {
            let mut builder: TableBuilder<V> = TableBuilder::new(1, component_ids.len());
            let n = component_ids.len();
            let mut m: usize = 0;
            while m < n
                invariant
                    n == component_ids@.len(),
                    m <= n,
                    components.wf(),
                    strictly_sorted_by_index(component_ids@),
                    forall|m2: int|
                        0 <= m2 < n ==> 0 <= (#[trigger] component_ids@[m2]).0
                            < components.components@.len(),
                    builder.wf(),
                    forall|j: int|
                        0 <= j < builder.columns.values@.len()
                            ==> ((#[trigger] builder.columns.values@[j]) is Some <==> exists|
                        m2: int|
                            0 <= m2 < m as int && (#[trigger] component_ids@[m2]).0 as int
                                == j),
                    builder.columns.values@.len() == (if m == 0 {
                        0int
                    } else {
                        component_ids@[m as int - 1].0 + 1
                    }),
                decreases n - m,
            {
                let cid = component_ids[m];
                let info = components.get_component_info(cid);
                proof {
                    if m > 0 {
                        assert(component_ids@[m as int - 1].spec_index() < component_ids@[
                            m as int
                        ].spec_index());
                    }
                }
                let ghost vals_before = builder.columns.values@;
                builder.add_column(info);
                proof {
                    assert forall|j: int|
                        0 <= j < builder.columns.values@.len() implies ((
                    #[trigger] builder.columns.values@[j]) is Some <==> exists|m2: int|
                        0 <= m2 < m as int + 1 && (#[trigger] component_ids@[m2]).0 as int
                            == j) by {
                        if j == cid.0 as int {
                            assert(component_ids@[m as int].0 as int == j);
                        } else {
                            if builder.columns.values@[j] is Some {
                                assert(j < vals_before.len() && vals_before[j] is Some);
                                let m2 = choose|m2: int|
                                    0 <= m2 < m as int && (#[trigger] component_ids@[m2]).0
                                        as int == j;
                                assert(component_ids@[m2].0 as int == j);
                            }
                            if exists|m2: int|
                                0 <= m2 < m as int + 1 && (#[trigger] component_ids@[m2]).0
                                    as int == j {
                                let m2 = choose|m2: int|
                                    0 <= m2 < m as int + 1 && (#[trigger] component_ids@[
                                        m2
                                    ]).0 as int == j;
                                assert(m2 < m as int);
                                assert(component_ids@[m2].spec_index() < component_ids@[
                                    m as int
                                ].spec_index());
                                assert(j < vals_before.len());
                                assert(vals_before[j] is Some);
                                assert(builder.columns.values@[j] is Some);
                            }
                        }
                    }
                }
                m = m + 1;
            }
            let table = builder.build();
            proof {
                assert forall|j: int|
                    0 <= j < table.spec_columns().len() implies ((table.spec_columns()[j]
                    is Some) <==> exists|m2: int|
                    0 <= m2 < component_ids@.len() && (#[trigger] component_ids@[m2]).0 as int
                        == j) by {}
                assert forall|m2: int| 0 <= m2 < component_ids@.len() implies 0 <= (
                #[trigger] component_ids@[m2]).0 < table.spec_columns().len() by {
                    if component_ids@.len() > 0 {
                        assert(component_ids@[m2].spec_index() <= component_ids@[
                            component_ids@.len() - 1
                        ].spec_index());
                    }
                }
                lemma_key_indexes_from_sorted(table.spec_columns(), component_ids@);
            }
            let table_id = tables.insert(table);
            proof {
                lemma_set_of_key_indexes(
                    tables.tables@[table_id.0 as int].spec_columns(),
                    component_ids@,
                );
            }
            table_id
        }
    };
    let mut infos: SparseMap<ComponentId, ArchetypeComponentInfo> = SparseMap::with_capacity(
        component_ids.len(),
    );
    let n = component_ids.len();
    let mut m: usize = 0;
    while m < n
        invariant
            n == component_ids@.len(),
            m <= n,
            components.wf(),
            forall|m2: int|
                0 <= m2 < n ==> 0 <= (#[trigger] component_ids@[m2]).0
                    < components.components@.len(),
            infos.wf(),
            strictly_sorted_by_index(component_ids@),
            forall|j: int|
                0 <= j < infos.values@.len() ==> ((#[trigger] infos.values@[j]) is Some <==> exists|
                m2: int|
                    0 <= m2 < m as int && (#[trigger] component_ids@[m2]).0 as int == j),
            forall|j: int|
                0 <= j < infos.values@.len() && infos.values@[j] is Some
                    ==> (#[trigger] infos.values@[j])->Some_0 == (ArchetypeComponentInfo {
                    storage_type: components.components@[j].storage_type,
                    component_id: ComponentId(j as usize),
                }),
            infos.values@.len() == (if m == 0 {
                0int
            } else {
                component_ids@[m as int - 1].0 + 1
            }),
        decreases n - m,
    {
        let cid = component_ids[m];
        let info = components.get_component_info(cid);
        proof {
            if m > 0 {
                assert(component_ids@[m as int - 1].spec_index() < component_ids@[
                    m as int
                ].spec_index());
            }
        }
        let ghost vals_before = infos.values@;
        let _replaced = infos.insert(
            &cid,
            ArchetypeComponentInfo { storage_type: info.storage_type, component_id: cid },
        );
        proof {
            assert forall|j: int|
                0 <= j < infos.values@.len() implies ((#[trigger] infos.values@[j]) is Some
                <==> exists|m2: int|
                0 <= m2 < m as int + 1 && (#[trigger] component_ids@[m2]).0 as int == j) by {
                if j == cid.0 as int {
                    assert(component_ids@[m as int].0 as int == j);
                } else {
                    if infos.values@[j] is Some {
                        assert(j < vals_before.len() && vals_before[j] is Some);
                        let m2 = choose|m2: int|
                            0 <= m2 < m as int && (#[trigger] component_ids@[m2]).0 as int == j;
                        assert(component_ids@[m2].0 as int == j);
                    }
                    if exists|m2: int|
                        0 <= m2 < m as int + 1 && (#[trigger] component_ids@[m2]).0 as int
                            == j {
                        let m2 = choose|m2: int|
                            0 <= m2 < m as int + 1 && (#[trigger] component_ids@[m2]).0 as int
                                == j;
                        assert(m2 < m as int);
                        assert(component_ids@[m2].spec_index() < component_ids@[
                            m as int
                        ].spec_index());
                        assert(j < vals_before.len());
                        assert(vals_before[j] is Some);
                        assert(infos.values@[j] is Some);
                    }
                }
            }
        }
        m = m + 1;
    }
    let components_map = ImmutableSparseMap::from_sparse_map(infos);
    proof {
        assert forall|m2: int| 0 <= m2 < component_ids@.len() implies 0 <= (
        #[trigger] component_ids@[m2]).0 < components_map.values@.len() by {
            assert(component_ids@[m2].spec_index() <= component_ids@[
                component_ids@.len() - 1
            ].spec_index());
        }
        lemma_key_indexes_from_sorted(components_map.values@, component_ids@);
    }
    Archetype {
        id: archetype_id,
        table_id,
        entities: Vec::new(),
        components: components_map,
        edges: Edges::new(),
    }
}

/// All archetypes, indexed by archetype id.  Id 0 is the empty archetype;
/// archetypes are uniquely keyed by their component-id set.
#[derive(Debug)]
pub struct Archetypes {
    pub archetypes: Vec<Archetype>,
}

impl Archetypes {
    pub open spec fn spec_archetype(&self, i: int) -> Archetype {
        self.archetypes@[i]
    }

    pub open spec fn wf(&self) -> bool {
        &&& self.archetypes@.len() >= 1
        &&& self.archetypes@[0].components.values@.len() == 0
        &&& self.archetypes@[0].table_id == TableId::spec_empty()
        &&& forall|i: int|
            0 <= i < self.archetypes@.len() ==> (#[trigger] self.archetypes@[i]).id.0 == i
        &&& forall|i: int| 0 <= i < self.archetypes@.len() ==> (#[trigger] self.archetypes@[i]).wf()
        &&& forall|i: int, j: int|
            0 <= i < j < self.archetypes@.len() ==> key_indexes(
                (#[trigger] self.archetypes@[i]).components.values@,
            ) != key_indexes((#[trigger] self.archetypes@[j]).components.values@)
    }

    /// Every archetype's component ids fall inside a registry of `n`
    /// components.
    pub open spec fn ids_in_range(&self, n: int) -> bool {
        forall|i: int, j: int|
            0 <= i < self.archetypes@.len() && #[trigger] self.archetypes@[
                i
            ].spec_has_component(j) ==> 0 <= j < n
    }

    /// Every archetype's backing table exists and stores exactly the
    /// archetype's component set.
    pub open spec fn tables_consistent<V>(&self, tables: &Tables<V>) -> bool {
        forall|i: int|
            0 <= i < self.archetypes@.len() ==> {
                &&& (#[trigger] self.archetypes@[i]).table_id.0 < tables.tables@.len()
                &&& forall|cid: int|
                    self.archetypes@[i].spec_has_component(cid) <==> tables.tables@[
                        self.archetypes@[i].table_id.0 as int
                    ].spec_has_column(cid)
            }
    }

    /// A cached add edge points at the archetype holding the union of the
    /// source's and the bundle's components, and records the intersection.
    pub open spec fn add_edge_ok(&self, a: int, j: int, bundles: &Bundles) -> bool {
        let arch = self.archetypes@[a];
        let e = arch.edges.add_bundle.values@[j]->Some_0;
        let info = bundles.bundle_infos@[j];
        &&& 0 <= j < bundles.bundle_infos@.len()
        &&& 0 <= e.archetype_id.0 < self.archetypes@.len()
        &&& e.duplicate.wf()
        &&& forall|cid: int|
            #[trigger] self.archetypes@[e.archetype_id.0 as int].spec_has_component(cid) <==> (
            arch.spec_has_component(cid) || info.spec_has_component(cid))
        &&& forall|cid: int|
            #[trigger] e.duplicate.spec_contains(cid) <==> (arch.spec_has_component(cid)
                && info.spec_has_component(cid))
    }

    /// A cached remove edge either points at the archetype holding the
    /// difference (when the source had the whole bundle) or records the
    /// mismatch.
    pub open spec fn remove_edge_ok(&self, a: int, j: int, bundles: &Bundles) -> bool {
        let arch = self.archetypes@[a];
        let e = arch.edges.remove_bundle.values@[j]->Some_0;
        let info = bundles.bundle_infos@[j];
        &&& 0 <= j < bundles.bundle_infos@.len()
        &&& e is Match ==> {
            &&& 0 <= e->Match_archetype_id.0 < self.archetypes@.len()
            &&& forall|cid: int|
                #[trigger] self.archetypes@[e->Match_archetype_id.0 as int].spec_has_component(
                    cid,
                ) <==> (arch.spec_has_component(cid) && !info.spec_has_component(cid))
            &&& forall|cid: int|
                #[trigger] info.spec_has_component(cid) ==> arch.spec_has_component(cid)
        }
        &&& e is Mismatch ==> exists|cid: int|
            #[trigger] info.spec_has_component(cid) && !arch.spec_has_component(cid)
    }

    /// Every cached edge of every archetype is right.
    pub open spec fn edges_consistent(&self, bundles: &Bundles) -> bool {
        &&& forall|a: int, j: int|
            0 <= a < self.archetypes@.len() && 0 <= j < self.archetypes@[
                a
            ].edges.add_bundle.values@.len() && (#[trigger] self.archetypes@[
                a
            ].edges.add_bundle.values@[j]) is Some ==> self.add_edge_ok(a, j, bundles)
        &&& forall|a: int, j: int|
            0 <= a < self.archetypes@.len() && 0 <= j < self.archetypes@[
                a
            ].edges.remove_bundle.values@.len() && (#[trigger] self.archetypes@[
                a
            ].edges.remove_bundle.values@[j]) is Some ==> self.remove_edge_ok(a, j, bundles)
    }

    /// The post-state of a graph operation: archetypes are only added, and
    /// existing ones keep their identity, rows and component set (only their
    /// edge caches may grow).
    pub open spec fn grows_from(pre: Self, post: Self) -> bool {
        &&& post.archetypes@.len() >= pre.archetypes@.len()
        &&& forall|i: int|
            0 <= i < pre.archetypes@.len() ==> {
                &&& (#[trigger] post.archetypes@[i]).id == pre.archetypes@[i].id
                &&& post.archetypes@[i].table_id == pre.archetypes@[i].table_id
                &&& post.archetypes@[i].entities@ == pre.archetypes@[i].entities@
                &&& post.archetypes@[i].components == pre.archetypes@[i].components
            }
        &&& forall|i: int|
            pre.archetypes@.len() <= i < post.archetypes@.len() ==> (#[trigger] post.archetypes@[
                i
            ]).entities@.len() == 0
    }

    pub fn new() -> (r: Self)
        ensures
            r.wf(),
            r.archetypes@.len() == 1,
            r.archetypes@[0].entities@.len() == 0,
            r.archetypes@[0].edges.add_bundle.values@.len() == 0,
            r.archetypes@[0].edges.remove_bundle.values@.len() == 0,
    {
        let empty = Archetype {
            id: ArchetypeId(0),
            table_id: TableId(0),
            entities: Vec::new(),
            components: ImmutableSparseMap::new(),
            edges: Edges::new(),
        };
        let mut archetypes: Vec<Archetype> = Vec::new();
        archetypes.push(empty);
        Archetypes { archetypes }
    }

    pub fn len(&self) -> (n: usize)
        ensures
            n == self.archetypes@.len(),
    {
        self.archetypes.len()
    }

    pub fn get(&self, archetype_id: ArchetypeId) -> (r: &Archetype)
        requires
            archetype_id.0 < self.archetypes@.len(),
        ensures
            *r == self.archetypes@[archetype_id.0 as int],
    {
        &self.archetypes[archetype_id.0]
    }

    pub fn get_mut(&mut self, archetype_id: ArchetypeId) -> (r: &mut Archetype)
        requires
            archetype_id.0 < old(self).archetypes@.len(),
        ensures
            *r == old(self).archetypes@[archetype_id.0 as int],
            final(self).archetypes@ == old(self).archetypes@.update(
                archetype_id.0 as int,
                *final(r),
            ),
    {
        &mut self.archetypes[archetype_id.0]
    }

    /// Drop every archetype's entity rows; the archetypes, their component
    /// sets and their edges stay.
    pub fn clear_entities(&mut self)
        requires
            old(self).wf(),
        ensures
            final(self).wf(),
            final(self).archetypes@.len() == old(self).archetypes@.len(),
            forall|i: int|
                0 <= i < old(self).archetypes@.len() ==> {
                    &&& (#[trigger] final(self).archetypes@[i]).entities@.len() == 0
                    &&& final(self).archetypes@[i].id == old(self).archetypes@[i].id
                    &&& final(self).archetypes@[i].table_id == old(self).archetypes@[i].table_id
                    &&& final(self).archetypes@[i].components == old(self).archetypes@[
                        i
                    ].components
                    &&& final(self).archetypes@[i].edges == old(self).archetypes@[i].edges
                },
    {
        let n = self.archetypes.len();
        let mut a: usize = 0;
        while a < n
            invariant
                old(self).wf(),
                n == self.archetypes@.len(),
                n == old(self).archetypes@.len(),
                a <= n,
                forall|m: int|
                    a as int <= m < n ==> #[trigger] self.archetypes@[m] == old(self).archetypes@[
                        m
                    ],
                forall|m: int|
                    0 <= m < a as int ==> {
                        &&& (#[trigger] self.archetypes@[m]).entities@.len() == 0
                        &&& self.archetypes@[m].id == old(self).archetypes@[m].id
                        &&& self.archetypes@[m].table_id == old(self).archetypes@[m].table_id
                        &&& self.archetypes@[m].components == old(self).archetypes@[m].components
                        &&& self.archetypes@[m].edges == old(self).archetypes@[m].edges
                        &&& self.archetypes@[m].wf()
                    },
            decreases n - a,
        {
            proof {
                assert(self.archetypes@[a as int] == old(self).archetypes@[a as int]);
                assert(old(self).archetypes@[a as int].wf());
            }
            let archetype = &mut self.archetypes[a];
            archetype.entities.clear();
            a = a + 1;
        }
        proof {
            assert forall|i: int, j: int|
                0 <= i < j < self.archetypes@.len() implies key_indexes(
                (#[trigger] self.archetypes@[i]).components.values@,
            ) != key_indexes((#[trigger] self.archetypes@[j]).components.values@) by {
                assert(self.archetypes@[i].components == old(self).archetypes@[i].components);
                assert(self.archetypes@[j].components == old(self).archetypes@[j].components);
            }
        }
    }

    /// The archetype with exactly this sorted component-id set, created (with
    /// its backing table) if it does not exist yet.
    #[verifier::spinoff_prover]
    pub fn get_or_insert_archetype_by_components<V>(
        &mut self,
        component_ids: Vec<ComponentId>,
        components: &Components,
        bundles: &Bundles,
        tables: &mut Tables<V>,
    ) -> (r: ArchetypeId)
        requires
            old(self).wf(),
            old(tables).wf(),
            components.wf(),
            old(self).tables_consistent(old(tables)),
            old(self).edges_consistent(bundles),
            old(self).ids_in_range(components.components@.len() as int),
            strictly_sorted_by_index(component_ids@),
            forall|m: int|
                0 <= m < component_ids@.len() ==> 0 <= (#[trigger] component_ids@[m]).0
                    < components.components@.len(),
        ensures
            final(self).wf(),
            final(tables).wf(),
            final(self).tables_consistent(final(tables)),
            final(self).edges_consistent(bundles),
            final(self).ids_in_range(components.components@.len() as int),
            Self::grows_from(*old(self), *final(self)),
            final(tables).tables@.len() >= old(tables).tables@.len(),
            forall|t: int|
                0 <= t < old(tables).tables@.len() ==> #[trigger] final(tables).tables@[t] == old(tables).tables@[t],
            forall|t: int|
                old(tables).tables@.len() <= t < final(tables).tables@.len() ==> (#[trigger] final(tables).tables@[t]).entities@.len() == 0,
            forall|i: int|
                0 <= i < old(self).archetypes@.len() ==> (#[trigger] final(self).archetypes@[
                    i
                ]).edges == old(self).archetypes@[i].edges,
            forall|i: int|
                old(self).archetypes@.len() <= i < final(self).archetypes@.len() ==> ((
                #[trigger] final(self).archetypes@[i]).edges.add_bundle.values@.len() == 0
                    && final(self).archetypes@[i].edges.remove_bundle.values@.len() == 0),
            r.0 < final(self).archetypes@.len(),
            forall|j: int|
                final(self).archetypes@[r.0 as int].spec_has_component(j) <==> exists|m: int|
                    0 <= m < component_ids@.len() && (#[trigger] component_ids@[m]).0 as int
                        == j,
            // reuse an archetype with exactly this set, else build exactly one
            (exists|a: int|
                0 <= a < old(self).archetypes@.len() && key_indexes(
                    (#[trigger] old(self).archetypes@[a]).components.values@,
                ) == component_ids@.map_values(|k: ComponentId| k.spec_index())) ==> (*final(self)
                == *old(self) && *final(tables) == *old(tables)),
            !(exists|a: int|
                0 <= a < old(self).archetypes@.len() && key_indexes(
                    (#[trigger] old(self).archetypes@[a]).components.values@,
                ) == component_ids@.map_values(|k: ComponentId| k.spec_index())) ==> {
                &&& final(self).archetypes@.len() == old(self).archetypes@.len() + 1
                &&& r.0 as int == old(self).archetypes@.len()
            },
    {
        let n = self.archetypes.len();
        let mut a: usize = 0;
        while a < n
            invariant
                n == self.archetypes@.len(),
                *self == *old(self),
                *tables == *old(tables),
                old(self).wf(),
                old(tables).wf(),
                components.wf(),
                old(self).tables_consistent(old(tables)),
                old(self).edges_consistent(bundles),
                old(self).ids_in_range(components.components@.len() as int),
                a <= n,
                forall|m: int|
                    0 <= m < a as int ==> key_indexes(
                        (#[trigger] self.archetypes@[m]).components.values@,
                    ) != component_ids@.map_values(|k: ComponentId| k.spec_index()),
            decreases n - a,
        {
            if component_set_matches(&self.archetypes[a], &component_ids) {
                proof {
                    lemma_set_of_key_indexes(
                        self.archetypes@[a as int].components.values@,
                        component_ids@,
                    );
                }
                return ArchetypeId(a);
            }
            a = a + 1;
        }
        let id = ArchetypeId(self.archetypes.len());
        let archetype = create_archetype(id, &component_ids, components, tables);
        self.archetypes.push(archetype);
        proof {
            lemma_set_of_key_indexes(
                self.archetypes@[id.0 as int].components.values@,
                component_ids@,
            );
            assert forall|i: int, j: int|
                0 <= i < j < self.archetypes@.len() implies key_indexes(
                (#[trigger] self.archetypes@[i]).components.values@,
            ) != key_indexes((#[trigger] self.archetypes@[j]).components.values@) by {
                if j == id.0 as int {
                    assert(self.archetypes@[i] == old(self).archetypes@[i]);
                }
            }
            assert forall|i: int|
                0 <= i < self.archetypes@.len() implies {
                &&& (#[trigger] self.archetypes@[i]).table_id.0 < tables.tables@.len()
                &&& forall|cid: int|
                    self.archetypes@[i].spec_has_component(cid) <==> tables.tables@[
                        self.archetypes@[i].table_id.0 as int
                    ].spec_has_column(cid)
            } by {
                if i < old(self).archetypes@.len() {
                    assert(self.archetypes@[i] == old(self).archetypes@[i]);
                    assert(old(self).archetypes@[i].table_id.0 < old(tables).tables@.len());
                    assert(tables.tables@[self.archetypes@[i].table_id.0 as int] == old(tables).tables@[old(self).archetypes@[i].table_id.0 as int]);
                }
            }
            assert forall|i: int, j: int|
                0 <= i < self.archetypes@.len() && #[trigger] self.archetypes@[
                    i
                ].spec_has_component(j) implies 0 <= j < components.components@.len() by {
                if i < old(self).archetypes@.len() {
                    assert(self.archetypes@[i] == old(self).archetypes@[i]);
                    assert(old(self).archetypes@[i].spec_has_component(j));
                } else {
                    let m2 = choose|m2: int|
                        0 <= m2 < component_ids@.len() && (#[trigger] component_ids@[m2]).0
                            as int == j;
                }
            }
            assert forall|a2: int, j2: int|
                0 <= a2 < self.archetypes@.len() && 0 <= j2 < self.archetypes@[
                    a2
                ].edges.add_bundle.values@.len() && (#[trigger] self.archetypes@[
                    a2
                ].edges.add_bundle.values@[j2]) is Some implies self.add_edge_ok(
                a2,
                j2,
                bundles,
            ) by {
                assert(a2 < old(self).archetypes@.len());
                assert(self.archetypes@[a2] == old(self).archetypes@[a2]);
                assert(old(self).add_edge_ok(a2, j2, bundles));
                let e = old(self).archetypes@[a2].edges.add_bundle.values@[j2]->Some_0;
                assert(self.archetypes@[e.archetype_id.0 as int] == old(self).archetypes@[
                    e.archetype_id.0 as int
                ]);
            }
            assert forall|a2: int, j2: int|
                0 <= a2 < self.archetypes@.len() && 0 <= j2 < self.archetypes@[
                    a2
                ].edges.remove_bundle.values@.len() && (#[trigger] self.archetypes@[
                    a2
                ].edges.remove_bundle.values@[j2]) is Some implies self.remove_edge_ok(
                a2,
                j2,
                bundles,
            ) by {
                assert(a2 < old(self).archetypes@.len());
                assert(self.archetypes@[a2] == old(self).archetypes@[a2]);
                assert(old(self).remove_edge_ok(a2, j2, bundles));
                let e = old(self).archetypes@[a2].edges.remove_bundle.values@[j2]->Some_0;
                if e is Match {
                    assert(self.archetypes@[e->Match_archetype_id.0 as int] == old(self).archetypes@[e->Match_archetype_id.0 as int]);
                }
            }
        }
        id
    }


    /// Compute and cache the add edge for a bundle not yet cached on the
    /// source archetype, creating the target archetype if needed.
    #[verifier::rlimit(100)]
    #[verifier::spinoff_prover]
    fn create_add_bundle_edge<V>(
        &mut self,
        archetype_id: ArchetypeId,
        bundle_info: &BundleInfo,
        bundles: &Bundles,
        components: &Components,
        tables: &mut Tables<V>,
    ) -> (to_id: ArchetypeId)
        requires
            old(self).wf(),
            old(tables).wf(),
            components.wf(),
            bundles.wf(),
            old(self).tables_consistent(old(tables)),
            old(self).edges_consistent(bundles),
            old(self).ids_in_range(components.components@.len() as int),
            archetype_id.0 < old(self).archetypes@.len(),
            bundle_info.id.0 < bundles.bundle_infos@.len(),
            *bundle_info == bundles.bundle_infos@[bundle_info.id.0 as int],
            bundles.in_range(components.components@.len() as int),
            bundle_info.component_ids@.len() > 0,
        ensures
            final(self).wf(),
            final(tables).wf(),
            final(self).tables_consistent(final(tables)),
            final(self).edges_consistent(bundles),
            final(self).ids_in_range(components.components@.len() as int),
            Self::grows_from(*old(self), *final(self)),
            final(tables).tables@.len() >= old(tables).tables@.len(),
            forall|t: int|
                0 <= t < old(tables).tables@.len() ==> #[trigger] final(tables).tables@[t] == old(tables).tables@[t],
            forall|t: int|
                old(tables).tables@.len() <= t < final(tables).tables@.len() ==> (#[trigger] final(tables).tables@[t]).entities@.len() == 0,
            to_id.0 < final(self).archetypes@.len(),
            final(self).archetypes@[archetype_id.0 as int].edges.add_bundle.spec_contains(
                bundle_info.id.0 as int,
            ),
            final(self).archetypes@[archetype_id.0 as int].edges.add_bundle.values@[
                bundle_info.id.0 as int
            ]->Some_0.archetype_id == to_id,
            final(self).archetypes@[archetype_id.0 as int].components == old(self).archetypes@[
                archetype_id.0 as int
            ].components,
            forall|cid: int|
                #[trigger] final(self).archetypes@[to_id.0 as int].spec_has_component(cid)
                    <==> (old(self).archetypes@[archetype_id.0 as int].spec_has_component(cid)
                    || bundle_info.spec_has_component(cid)),
    {
        let from_index = archetype_id.index();
        let keys = self.archetypes[from_index].components.keys();
        proof {
            lemma_set_of_key_indexes(
                self.archetypes@[from_index as int].components.values@,
                keys.items@,
            );
            crate::util::sparse_map::lemma_key_indexes_bounds(
                self.archetypes@[from_index as int].components.values@,
            );
            assert forall|n1: int, n2: int|
                0 <= n1 < n2 < keys.items@.len() implies #[trigger] keys.items@[
                n1
            ].spec_index() < #[trigger] keys.items@[n2].spec_index() by {
                assert(keys.items@.map_values(|k: ComponentId| k.spec_index())[n1]
                    == keys.items@[n1].spec_index());
                assert(keys.items@.map_values(|k: ComponentId| k.spec_index())[n2]
                    == keys.items@[n2].spec_index());
            }
        }
        let ghost keys0 = keys.items@;
        let ghost from_arch = self.archetypes@[from_index as int];
        let mut union_ids = keys.items;
        proof {
            assert(union_ids@.take(keys0.len() as int) =~= keys0);
            assert forall|n1: int, n2: int|
                0 <= n1 < n2 < union_ids@.len() implies (#[trigger] union_ids@[n1]).0
                != (#[trigger] union_ids@[n2]).0 by {
                assert(keys0[n1].spec_index() < keys0[n2].spec_index());
            }
        }
        let mut duplicate: SparseSet<ComponentId> = SparseSet::new();
        let bn = bundle_info.component_ids.len();
        let mut m: usize = 0;
        while m < bn
            invariant
                *self == *old(self),
                from_index < self.archetypes@.len(),
                from_arch == self.archetypes@[from_index as int],
                from_arch.wf(),
                bn == bundle_info.component_ids@.len(),
                m <= bn,
                strictly_sorted_by_index(bundle_info.component_ids@),
                strictly_sorted_by_index(keys0),
                forall|j: int|
                    (exists|n: int|
                        0 <= n < keys0.len() && (#[trigger] keys0[n]).0 as int == j)
                        <==> from_arch.spec_has_component(j),
                duplicate.wf(),
                forall|j: int|
                    #[trigger] duplicate.spec_contains(j) <==> (
                    from_arch.spec_has_component(j) && exists|m2: int|
                        0 <= m2 < m as int && (#[trigger] bundle_info.component_ids@[
                            m2
                        ]).0 as int == j),
                union_ids@.len() >= keys0.len(),
                union_ids@.take(keys0.len() as int) == keys0,
                forall|n: int|
                    keys0.len() <= n < union_ids@.len() ==> (
                    !from_arch.spec_has_component((#[trigger] union_ids@[n]).0 as int)
                        && exists|m2: int|
                        0 <= m2 < m as int && (#[trigger] bundle_info.component_ids@[
                            m2
                        ]).0 == union_ids@[n].0),
                forall|m2: int|
                    0 <= m2 < m as int ==> (from_arch.spec_has_component(
                        (#[trigger] bundle_info.component_ids@[m2]).0 as int,
                    ) || exists|n: int|
                        keys0.len() <= n < union_ids@.len() && (#[trigger] union_ids@[
                            n
                        ]).0 == bundle_info.component_ids@[m2].0),
                forall|n1: int, n2: int|
                    0 <= n1 < n2 < union_ids@.len() ==> (#[trigger] union_ids@[n1]).0
                        != (#[trigger] union_ids@[n2]).0,
            decreases bn - m,
        {
            let cid = bundle_info.component_ids[m];
            let ghost union_before = union_ids@;
            if self.archetypes[from_index].contains_component(cid) {
                let _already = duplicate.insert(&cid);
            } else {
                union_ids.push(cid);
                proof {
                    assert(union_ids@.take(keys0.len() as int) =~= union_before.take(
                        keys0.len() as int,
                    ));
                    assert forall|n1: int, n2: int|
                        0 <= n1 < n2 < union_ids@.len() implies (#[trigger] union_ids@[
                        n1
                    ]).0 != (#[trigger] union_ids@[n2]).0 by {
                        if n2 == union_ids@.len() - 1 && n1 >= keys0.len() {
                            let m2 = choose|m2: int|
                                0 <= m2 < m as int && (
                                #[trigger] bundle_info.component_ids@[m2]).0
                                    == union_before[n1].0;
                            assert(bundle_info.component_ids@[m2].spec_index()
                                < bundle_info.component_ids@[m as int].spec_index());
                        } else if n2 == union_ids@.len() - 1 && n1 < keys0.len() {
                            assert(union_ids@[n1] == keys0[n1]);
                            assert(from_arch.spec_has_component(keys0[n1].0 as int));
                        }
                    }
                }
            }
            proof {
                assert forall|j: int|
                    #[trigger] duplicate.spec_contains(j) implies (
                from_arch.spec_has_component(j) && exists|m2: int|
                    0 <= m2 < m as int + 1 && (#[trigger] bundle_info.component_ids@[
                        m2
                    ]).0 as int == j) by {}
                assert forall|j: int|
                    (from_arch.spec_has_component(j) && exists|m2: int|
                        0 <= m2 < m as int + 1 && (#[trigger] bundle_info.component_ids@[
                            m2
                        ]).0 as int == j) implies #[trigger] duplicate.spec_contains(
                    j,
                ) by {}
                assert forall|m2: int|
                    0 <= m2 < m as int + 1 implies (from_arch.spec_has_component(
                    (#[trigger] bundle_info.component_ids@[m2]).0 as int,
                ) || exists|n: int|
                    keys0.len() <= n < union_ids@.len() && (#[trigger] union_ids@[
                        n
                    ]).0 == bundle_info.component_ids@[m2].0) by {
                    if m2 == m as int {
                        if !from_arch.spec_has_component(
                            bundle_info.component_ids@[m2].0 as int,
                        ) {
                            assert(union_ids@[union_ids@.len() - 1].0
                                == bundle_info.component_ids@[m2].0);
                        }
                    } else {
                        if !from_arch.spec_has_component(
                            bundle_info.component_ids@[m2].0 as int,
                        ) {
                            let n = choose|n: int|
                                keys0.len() <= n < union_before.len() && (
                                #[trigger] union_before[n]).0
                                    == bundle_info.component_ids@[m2].0;
                            assert(union_ids@[n].0 == bundle_info.component_ids@[
                                m2
                            ].0);
                        }
                    }
                }
            }
            m = m + 1;
        }
        let ghost union0 = union_ids@;
        proof {
            assert forall|j: int|
                (exists|n: int|
                    0 <= n < union0.len() && (#[trigger] union0[n]).0 as int == j)
                <==> (from_arch.spec_has_component(j)
                || bundle_info.spec_has_component(j)) by {
                if exists|n: int|
                    0 <= n < union0.len() && (#[trigger] union0[n]).0 as int == j {
                    let n = choose|n: int|
                        0 <= n < union0.len() && (#[trigger] union0[n]).0 as int == j;
                    if n < keys0.len() {
                        assert(union0[n] == keys0[n]) by {
                            assert(union0.take(keys0.len() as int)[n] == union0[n]);
                        }
                        assert(keys0[n].0 as int == j);
                    }
                }
                if from_arch.spec_has_component(j) {
                    let n = choose|n: int|
                        0 <= n < keys0.len() && (#[trigger] keys0[n]).0 as int == j;
                    assert(union0.take(keys0.len() as int)[n] == union0[n]);
                    assert(union0[n].0 as int == j);
                }
                if bundle_info.spec_has_component(j) {
                    let m2 = choose|m2: int|
                        0 <= m2 < bn as int && (#[trigger] bundle_info.component_ids@[
                            m2
                        ]).0 as int == j;
                    if from_arch.spec_has_component(j) {
                    } else {
                        let n = choose|n: int|
                            keys0.len() <= n < union0.len() && (#[trigger] union0[n]).0
                                == bundle_info.component_ids@[m2].0;
                        assert(union0[n].0 as int == j);
                    }
                }
            }
        }
        sort_by_index(&mut union_ids);
        proof {
            assert forall|n: int| 0 <= n < union_ids@.len() implies exists|n2: int|
                0 <= n2 < union0.len() && (#[trigger] union0[n2]).0 == (
                #[trigger] union_ids@[n]).0 by {
                assert(union_ids@.contains(union_ids@[n]));
                crate::util::lemma_contains_transfer(union_ids@, union0, union_ids@[n]);
                let n2 = choose|n2: int|
                    0 <= n2 < union0.len() && union0[n2] == union_ids@[n];
                assert(union0[n2].0 == union_ids@[n].0);
            }
            assert forall|n: int| 0 <= n < union0.len() implies exists|n2: int|
                0 <= n2 < union_ids@.len() && (#[trigger] union_ids@[n2]).0 == (
                #[trigger] union0[n]).0 by {
                assert(union0.contains(union0[n]));
                crate::util::lemma_contains_transfer(union0, union_ids@, union0[n]);
                let n2 = choose|n2: int|
                    0 <= n2 < union_ids@.len() && union_ids@[n2] == union0[n];
                assert(union_ids@[n2].0 == union0[n].0);
            }
            assert forall|j: int|
                (exists|n: int|
                    0 <= n < union_ids@.len() && (#[trigger] union_ids@[n]).0 as int
                        == j) <==> (from_arch.spec_has_component(j)
                || bundle_info.spec_has_component(j)) by {
                if exists|n: int|
                    0 <= n < union_ids@.len() && (#[trigger] union_ids@[n]).0 as int
                        == j {
                    let n = choose|n: int|
                        0 <= n < union_ids@.len() && (#[trigger] union_ids@[n]).0 as int
                            == j;
                    let n2 = choose|n2: int|
                        0 <= n2 < union0.len() && (#[trigger] union0[n2]).0 == union_ids@[
                            n
                        ].0;
                }
                if from_arch.spec_has_component(j) {
                    let n = choose|n: int|
                        0 <= n < union0.len() && (#[trigger] union0[n]).0 as int == j;
                    let n2 = choose|n2: int|
                        0 <= n2 < union_ids@.len() && (#[trigger] union_ids@[n2]).0
                            == union0[n].0;
                }
                if bundle_info.spec_has_component(j) {
                    let n = choose|n: int|
                        0 <= n < union0.len() && (#[trigger] union0[n]).0 as int == j;
                    let n2 = choose|n2: int|
                        0 <= n2 < union_ids@.len() && (#[trigger] union_ids@[n2]).0
                            == union0[n].0;
                }
            }
            assert(union0.no_duplicates()) by {
                assert forall|n1: int, n2: int|
                    0 <= n1 < union0.len() && 0 <= n2 < union0.len() && n1 != n2 implies
                    union0[n1] != union0[n2] by {
                    if n1 < n2 {
                        assert(union0[n1].0 != union0[n2].0);
                    } else {
                        assert(union0[n2].0 != union0[n1].0);
                    }
                }
            }
            crate::util::lemma_multiset_distinct_transfer(union0, union_ids@);
            assert forall|n1: int, n2: int|
                0 <= n1 < n2 < union_ids@.len() implies #[trigger] union_ids@[
                n1
            ].spec_index() < #[trigger] union_ids@[n2].spec_index() by {
                assert(union_ids@[n1].spec_index() <= union_ids@[n2].spec_index());
                if union_ids@[n1].spec_index() == union_ids@[n2].spec_index() {
                    assert(union_ids@[n1] == union_ids@[n2]);
                    assert(false);
                }
            }
            assert forall|n: int| 0 <= n < union_ids@.len() implies 0 <= (
            #[trigger] union_ids@[n]).0 < components.components@.len() by {
                assert(union_ids@.contains(union_ids@[n]));
                crate::util::lemma_contains_transfer(union_ids@, union0, union_ids@[n]);
                let n2 = choose|n2: int|
                    0 <= n2 < union0.len() && union0[n2] == union_ids@[n];
                if n2 < keys0.len() {
                    assert(union0[n2] == keys0[n2]) by {
                        assert(union0.take(keys0.len() as int)[n2] == union0[n2]);
                    }
                    assert(from_arch.spec_has_component(union0[n2].0 as int));
                    assert(old(self).archetypes@[from_index as int].spec_has_component(
                        union0[n2].0 as int,
                    ));
                } else {
                    let m2 = choose|m2: int|
                        0 <= m2 < bn as int && (#[trigger] bundle_info.component_ids@[
                            m2
                        ]).0 == union0[n2].0;
                    assert(0 <= bundle_info.component_ids@[m2].0
                        < components.components@.len());
                }
            }
        }
        let ghost pre_graph = *self;
        let ghost sorted_union = union_ids@;
        let to_id = self.get_or_insert_archetype_by_components(
            union_ids,
            components,
            bundles,
            tables,
        );
        let dup = ImmutableSparseSet::from_sparse_set(duplicate);
        let edge = AddBundle { archetype_id: to_id, duplicate: dup };
        let ghost pre_cache = *self;
        let from_archetype = &mut self.archetypes[from_index];
        let _replaced = from_archetype.edges.add_bundle.insert(&bundle_info.id, edge);
        proof {
            let fi = from_index as int;
            let bid = bundle_info.id.0 as int;
            assert forall|i: int|
                0 <= i < self.archetypes@.len() && i != fi implies #[trigger] self
                .archetypes@[i] == pre_cache.archetypes@[i] by {}
            assert(self.archetypes@[fi].components == pre_cache.archetypes@[
                fi
            ].components);
            assert(self.archetypes@[fi].entities@ == pre_cache.archetypes@[
                fi
            ].entities@);
            assert(self.archetypes@[fi].edges.remove_bundle == pre_cache.archetypes@[
                fi
            ].edges.remove_bundle);
            // the new cache entry is right, and every old entry is kept
            assert forall|a2: int, j2: int|
                0 <= a2 < self.archetypes@.len() && 0 <= j2 < self.archetypes@[
                    a2
                ].edges.add_bundle.values@.len() && (#[trigger] self.archetypes@[
                    a2
                ].edges.add_bundle.values@[j2]) is Some implies self.add_edge_ok(
                a2,
                j2,
                bundles,
            ) by {
                if a2 == fi && j2 == bid {
                    assert(self.archetypes@[fi].edges.add_bundle.values@[bid]->Some_0
                        == edge);
                    assert(self.archetypes@[to_id.0 as int].components
                        == pre_cache.archetypes@[to_id.0 as int].components);
                    let e2 = self.archetypes@[a2].edges.add_bundle.values@[
                        j2
                    ]->Some_0;
                    assert(e2 == edge);
                    assert forall|cid: int|
                        #[trigger] self.archetypes@[
                            e2.archetype_id.0 as int
                        ].spec_has_component(cid) <==> (self.archetypes@[
                        a2
                    ].spec_has_component(cid) || bundles.bundle_infos@[
                        j2
                    ].spec_has_component(cid)) by {
                        assert(self.archetypes@[e2.archetype_id.0 as int].components
                            == pre_cache.archetypes@[to_id.0 as int].components);
                        assert(pre_cache.archetypes@[to_id.0 as int].spec_has_component(
                            cid,
                        ) <==> exists|m2: int|
                            0 <= m2 < sorted_union.len() && (#[trigger] sorted_union[
                                m2
                            ]).0 as int == cid);
                        assert((exists|m2: int|
                            0 <= m2 < sorted_union.len() && (#[trigger] sorted_union[
                                m2
                            ]).0 as int == cid) <==> (from_arch.spec_has_component(cid)
                            || bundle_info.spec_has_component(cid)));
                        assert(self.archetypes@[a2].spec_has_component(cid)
                            <==> from_arch.spec_has_component(cid));
                        assert(bundles.bundle_infos@[j2] == *bundle_info);
                    }
                    assert forall|cid: int|
                        #[trigger] e2.duplicate.spec_contains(cid) <==> (self
                        .archetypes@[a2].spec_has_component(cid)
                        && bundles.bundle_infos@[j2].spec_has_component(cid)) by {
                        assert(e2.duplicate.spec_contains(cid)
                            == duplicate.spec_contains(cid));
                        assert(self.archetypes@[a2].spec_has_component(cid)
                            <==> from_arch.spec_has_component(cid));
                        assert(bundles.bundle_infos@[j2] == *bundle_info);
                    }
                    assert(self.add_edge_ok(a2, j2, bundles));
                } else {
                    if a2 == fi {
                        assert(self.archetypes@[fi].edges.add_bundle.values@[j2]
                            == pre_cache.archetypes@[fi].edges.add_bundle.values@[j2]);
                    }
                    assert(pre_cache.add_edge_ok(a2, j2, bundles));
                    let e = pre_cache.archetypes@[a2].edges.add_bundle.values@[
                        j2
                    ]->Some_0;
                    assert(self.archetypes@[e.archetype_id.0 as int].components
                        == pre_cache.archetypes@[e.archetype_id.0 as int].components);
                    assert forall|cid: int|
                        #[trigger] self.archetypes@[
                            e.archetype_id.0 as int
                        ].spec_has_component(cid) <==> pre_cache.archetypes@[
                        e.archetype_id.0 as int
                    ].spec_has_component(cid) by {}
                    assert forall|cid: int|
                        #[trigger] self.archetypes@[a2].spec_has_component(cid)
                        <==> pre_cache.archetypes@[a2].spec_has_component(cid) by {
                        assert(self.archetypes@[a2].components == pre_cache.archetypes@[
                            a2
                        ].components);
                    }
                    assert(self.add_edge_ok(a2, j2, bundles));
                }
            }
            assert forall|a2: int, j2: int|
                0 <= a2 < self.archetypes@.len() && 0 <= j2 < self.archetypes@[
                    a2
                ].edges.remove_bundle.values@.len() && (#[trigger] self.archetypes@[
                    a2
                ].edges.remove_bundle.values@[j2]) is Some implies self.remove_edge_ok(
                a2,
                j2,
                bundles,
            ) by {
                assert(self.archetypes@[a2].edges.remove_bundle == pre_cache.archetypes@[
                    a2
                ].edges.remove_bundle);
                assert(pre_cache.remove_edge_ok(a2, j2, bundles));
                let e = pre_cache.archetypes@[a2].edges.remove_bundle.values@[
                    j2
                ]->Some_0;
                assert forall|cid: int|
                    #[trigger] self.archetypes@[a2].spec_has_component(cid)
                    <==> pre_cache.archetypes@[a2].spec_has_component(cid) by {
                    assert(self.archetypes@[a2].components == pre_cache.archetypes@[
                        a2
                    ].components);
                }
                if e is Match {
                    assert(self.archetypes@[e->Match_archetype_id.0 as int].components
                        == pre_cache.archetypes@[
                        e->Match_archetype_id.0 as int
                    ].components);
                    assert forall|cid: int|
                        #[trigger] self.archetypes@[
                            e->Match_archetype_id.0 as int
                        ].spec_has_component(cid) <==> pre_cache.archetypes@[
                        e->Match_archetype_id.0 as int
                    ].spec_has_component(cid) by {}
                }
                assert(self.remove_edge_ok(a2, j2, bundles));
            }
            assert forall|i: int, j: int|
                0 <= i < j < self.archetypes@.len() implies key_indexes(
                (#[trigger] self.archetypes@[i]).components.values@,
            ) != key_indexes((#[trigger] self.archetypes@[j]).components.values@) by {
                assert(self.archetypes@[i].components == pre_cache.archetypes@[
                    i
                ].components);
                assert(self.archetypes@[j].components == pre_cache.archetypes@[
                    j
                ].components);
            }
            assert forall|i: int|
                0 <= i < self.archetypes@.len() implies {
                &&& (#[trigger] self.archetypes@[i]).table_id.0 < tables.tables@.len()
                &&& forall|cid: int|
                    self.archetypes@[i].spec_has_component(cid) <==> tables.tables@[
                        self.archetypes@[i].table_id.0 as int
                    ].spec_has_column(cid)
            } by {
                assert(self.archetypes@[i].components == pre_cache.archetypes@[
                    i
                ].components);
                assert(self.archetypes@[i].table_id == pre_cache.archetypes@[
                    i
                ].table_id);
                assert(pre_cache.archetypes@[i].table_id.0 < tables.tables@.len());
                assert forall|cid: int|
                    #[trigger] self.archetypes@[i].spec_has_component(cid)
                    <==> pre_cache.archetypes@[i].spec_has_component(cid) by {}
                assert forall|cid: int|
                    #[trigger] pre_cache.archetypes@[i].spec_has_component(cid)
                    <==> tables.tables@[
                    pre_cache.archetypes@[i].table_id.0 as int
                ].spec_has_column(cid) by {}
            }
            assert forall|i: int, j: int|
                0 <= i < self.archetypes@.len() && #[trigger] self.archetypes@[
                    i
                ].spec_has_component(j) implies 0 <= j
                < components.components@.len() by {
                assert(self.archetypes@[i].components == pre_cache.archetypes@[
                    i
                ].components);
                assert(pre_cache.archetypes@[i].spec_has_component(j));
            }
            assert(self.archetypes@[fi].edges.add_bundle.spec_contains(bid));
            assert(self.archetypes@[fi].edges.add_bundle.values@[
                bid
            ]->Some_0.archetype_id == to_id);
            assert(self.archetypes@[fi].components == old(self).archetypes@[
                fi
            ].components);
            assert forall|cid: int|
                #[trigger] self.archetypes@[to_id.0 as int].spec_has_component(cid)
                <==> (old(self).archetypes@[archetype_id.0 as int].spec_has_component(
                cid,
            ) || bundle_info.spec_has_component(cid)) by {
                assert(self.archetypes@[to_id.0 as int].components
                    == pre_cache.archetypes@[to_id.0 as int].components);
                assert(pre_cache.archetypes@[to_id.0 as int].spec_has_component(cid)
                    <==> exists|m2: int|
                    0 <= m2 < sorted_union.len() && (#[trigger] sorted_union[m2]).0
                        as int == cid);
                assert((exists|m2: int|
                    0 <= m2 < sorted_union.len() && (#[trigger] sorted_union[m2]).0
                        as int == cid) <==> (from_arch.spec_has_component(cid)
                    || bundle_info.spec_has_component(cid)));
                assert(old(self).archetypes@[archetype_id.0 as int].spec_has_component(
                    cid,
                ) <==> from_arch.spec_has_component(cid));
            }
        }
        to_id
    }

    /// Look up or create the archetype that adding a bundle to `archetype_id`
    /// leads to, caching the edge.
    ///
    /// Nothing happens for an empty bundle; when source and target coincide
    /// (the source already holds every bundle component) the aliasing is
    /// signalled by returning nothing.  Otherwise the source and the distinct
    /// target archetype ids come back.
    #[verifier::rlimit(100)]
    #[verifier::spinoff_prover]
    pub fn add_bundle<V>(
        &mut self,
        archetype_id: ArchetypeId,
        bundle_info: &BundleInfo,
        bundles: &Bundles,
        components: &Components,
        tables: &mut Tables<V>,
    ) -> (r: Option<(ArchetypeId, ArchetypeId)>)
        requires
            old(self).wf(),
            old(tables).wf(),
            components.wf(),
            bundles.wf(),
            old(self).tables_consistent(old(tables)),
            old(self).edges_consistent(bundles),
            old(self).ids_in_range(components.components@.len() as int),
            archetype_id.0 < old(self).archetypes@.len(),
            bundle_info.id.0 < bundles.bundle_infos@.len(),
            *bundle_info == bundles.bundle_infos@[bundle_info.id.0 as int],
            bundles.in_range(components.components@.len() as int),
        ensures
            final(self).wf(),
            final(tables).wf(),
            final(self).tables_consistent(final(tables)),
            final(self).edges_consistent(bundles),
            final(self).ids_in_range(components.components@.len() as int),
            Self::grows_from(*old(self), *final(self)),
            final(tables).tables@.len() >= old(tables).tables@.len(),
            forall|t: int|
                0 <= t < old(tables).tables@.len() ==> #[trigger] final(tables).tables@[t] == old(tables).tables@[t],
            forall|t: int|
                old(tables).tables@.len() <= t < final(tables).tables@.len() ==> (#[trigger] final(tables).tables@[t]).entities@.len() == 0,
            bundle_info.component_ids@.len() == 0 ==> (*final(self) == *old(self) && *final(tables) == *old(tables) && r is None),
            // a cached edge changes nothing
            old(self).archetypes@[archetype_id.0 as int].edges.add_bundle.spec_contains(
                bundle_info.id.0 as int,
            ) ==> (*final(self) == *old(self) && *final(tables) == *old(tables)),
            r is None ==> forall|cid: int|
                #[trigger] bundle_info.spec_has_component(cid) ==> old(self).archetypes@[
                    archetype_id.0 as int
                ].spec_has_component(cid),
            r is Some ==> {
                &&& r->Some_0.0 == archetype_id
                &&& r->Some_0.1.0 < final(self).archetypes@.len()
                &&& r->Some_0.1.0 != archetype_id.0
                &&& forall|cid: int|
                    #[trigger] final(self).archetypes@[r->Some_0.1.0 as int].spec_has_component(
                        cid,
                    ) <==> (old(self).archetypes@[archetype_id.0 as int].spec_has_component(cid)
                        || bundle_info.spec_has_component(cid))
                &&& final(self).archetypes@[
                    archetype_id.0 as int
                ].edges.add_bundle.spec_contains(bundle_info.id.0 as int)
                &&& final(self).archetypes@[archetype_id.0 as int].edges.add_bundle.values@[
                    bundle_info.id.0 as int
                ]->Some_0.archetype_id == r->Some_0.1
            },
    {
        if bundle_info.component_ids.len() == 0 {
            return None;
        }
        let from_index = archetype_id.index();
        let cached = self.archetypes[from_index].edges.add_bundle.get(&bundle_info.id);
        let to_id = match cached {
            Some(edge) => {
                let to_id = edge.archetype_id;
                proof {
                    let fi = from_index as int;
                    let bid = bundle_info.id.0 as int;
                    assert(old(self).add_edge_ok(fi, bid, bundles));
                    let e = old(self).archetypes@[fi].edges.add_bundle.values@[bid]->Some_0;
                    assert(e.archetype_id == to_id);
                    assert forall|cid: int|
                        #[trigger] self.archetypes@[to_id.0 as int].spec_has_component(cid)
                        <==> (old(self).archetypes@[archetype_id.0 as int].spec_has_component(
                        cid,
                    ) || bundle_info.spec_has_component(cid)) by {
                        assert(bundles.bundle_infos@[bid] == *bundle_info);
                    }
                    assert(self.archetypes@[fi].edges.add_bundle.spec_contains(bid));
                    assert(self.archetypes@[fi].edges.add_bundle.values@[
                        bid
                    ]->Some_0.archetype_id == to_id);
                    assert(self.archetypes@[fi].components == old(self).archetypes@[
                        fi
                    ].components);
                }
                to_id
            }
            None => {
                self.create_add_bundle_edge(archetype_id, bundle_info, bundles, components, tables)
            }
        };
        proof {
            if to_id.0 == archetype_id.0 {
                assert forall|cid: int|
                    #[trigger] bundle_info.spec_has_component(cid) implies old(self).archetypes@[
                    archetype_id.0 as int
                ].spec_has_component(cid) by {
                    assert(self.archetypes@[to_id.0 as int].spec_has_component(cid));
                    assert(self.archetypes@[archetype_id.0 as int].components == old(
                        self,
                    ).archetypes@[archetype_id.0 as int].components);
                }
            }
        }
        if to_id.0 == archetype_id.0 {
            None
        } else {
            Some((archetype_id, to_id))
        }
    }

    /// Compute and cache the remove edge for a bundle not yet cached on the
    /// source archetype: `Match` with the difference archetype when the
    /// source holds the whole bundle, `Mismatch` otherwise.
    #[verifier::rlimit(100)]
    #[verifier::spinoff_prover]
    fn create_remove_bundle_edge<V>(
        &mut self,
        archetype_id: ArchetypeId,
        bundle_info: &BundleInfo,
        bundles: &Bundles,
        components: &Components,
        tables: &mut Tables<V>,
    ) -> (r: Option<ArchetypeId>)
        requires
            old(self).wf(),
            old(tables).wf(),
            components.wf(),
            bundles.wf(),
            old(self).tables_consistent(old(tables)),
            old(self).edges_consistent(bundles),
            old(self).ids_in_range(components.components@.len() as int),
            archetype_id.0 < old(self).archetypes@.len(),
            bundle_info.id.0 < bundles.bundle_infos@.len(),
            *bundle_info == bundles.bundle_infos@[bundle_info.id.0 as int],
            bundles.in_range(components.components@.len() as int),
            bundle_info.component_ids@.len() > 0,
        ensures
            final(self).wf(),
            final(tables).wf(),
            final(self).tables_consistent(final(tables)),
            final(self).edges_consistent(bundles),
            final(self).ids_in_range(components.components@.len() as int),
            Self::grows_from(*old(self), *final(self)),
            final(tables).tables@.len() >= old(tables).tables@.len(),
            forall|t: int|
                0 <= t < old(tables).tables@.len() ==> #[trigger] final(tables).tables@[t] == old(tables).tables@[t],
            forall|t: int|
                old(tables).tables@.len() <= t < final(tables).tables@.len() ==> (#[trigger] final(tables).tables@[t]).entities@.len() == 0,
            final(self).archetypes@[archetype_id.0 as int].components == old(self).archetypes@[
                archetype_id.0 as int
            ].components,
            r is Some <==> forall|cid: int|
                #[trigger] bundle_info.spec_has_component(cid) ==> old(self).archetypes@[
                    archetype_id.0 as int
                ].spec_has_component(cid),
            r is Some ==> {
                &&& r->Some_0.0 < final(self).archetypes@.len()
                &&& forall|cid: int|
                    #[trigger] final(self).archetypes@[r->Some_0.0 as int].spec_has_component(
                        cid,
                    ) <==> (old(self).archetypes@[archetype_id.0 as int].spec_has_component(
                        cid,
                    ) && !bundle_info.spec_has_component(cid))
            },
    {
        let from_index = archetype_id.index();
        let keys = self.archetypes[from_index].components.keys();
        proof {
            lemma_set_of_key_indexes(
                self.archetypes@[from_index as int].components.values@,
                keys.items@,
            );
            crate::util::sparse_map::lemma_key_indexes_bounds(
                self.archetypes@[from_index as int].components.values@,
            );
            assert forall|n1: int, n2: int|
                0 <= n1 < n2 < keys.items@.len() implies #[trigger] keys.items@[
                n1
            ].spec_index() < #[trigger] keys.items@[n2].spec_index() by {
                assert(keys.items@.map_values(|k: ComponentId| k.spec_index())[n1]
                    == keys.items@[n1].spec_index());
                assert(keys.items@.map_values(|k: ComponentId| k.spec_index())[n2]
                    == keys.items@[n2].spec_index());
            }
        }
        let ghost keys0 = keys.items@;
        let ghost from_arch = self.archetypes@[from_index as int];
        // does the source hold every bundle component?
        let bn = bundle_info.component_ids.len();
        let mut all_present = true;
        let ghost mut missing: int = 0;
        let mut m: usize = 0;
        while m < bn
            invariant
                *self == *old(self),
                from_index < self.archetypes@.len(),
                from_arch == self.archetypes@[from_index as int],
                bn == bundle_info.component_ids@.len(),
                m <= bn,
                all_present ==> forall|m2: int|
                    0 <= m2 < m as int ==> from_arch.spec_has_component(
                        (#[trigger] bundle_info.component_ids@[m2]).0 as int,
                    ),
                !all_present ==> (0 <= missing < bn as int && !from_arch.spec_has_component(
                    bundle_info.component_ids@[missing].0 as int,
                )),
            decreases bn - m,
        {
            let cid = bundle_info.component_ids[m];
            if !self.archetypes[from_index].contains_component(cid) {
                all_present = false;
                proof {
                    missing = m as int;
                }
            }
            m = m + 1;
        }
        if !all_present {
            let ghost pre_cache = *self;
            let from_archetype = &mut self.archetypes[from_index];
            let _replaced = from_archetype.edges.remove_bundle.insert(
                &bundle_info.id,
                RemoveBundle::Mismatch,
            );
            proof {
                let fi = from_index as int;
                let bid = bundle_info.id.0 as int;
                lemma_cache_step_ok(pre_cache, *self, fi, bundles, tables);
                assert(self.remove_edge_ok(fi, bid, bundles)) by {
                    assert(bundle_info.spec_has_component(
                        bundle_info.component_ids@[missing].0 as int,
                    ));
                    assert(!self.archetypes@[fi].spec_has_component(
                        bundle_info.component_ids@[missing].0 as int,
                    ));
                }
                assert forall|a2: int, j2: int|
                    0 <= a2 < self.archetypes@.len() && 0 <= j2 < self.archetypes@[
                        a2
                    ].edges.remove_bundle.values@.len() && (#[trigger] self.archetypes@[
                        a2
                    ].edges.remove_bundle.values@[j2]) is Some implies self.remove_edge_ok(
                    a2,
                    j2,
                    bundles,
                ) by {
                    if a2 == fi && j2 == bid {
                    } else {
                        if a2 == fi {
                            assert(self.archetypes@[fi].edges.remove_bundle.values@[j2]
                                == pre_cache.archetypes@[fi].edges.remove_bundle.values@[j2]);
                        }
                        lemma_cache_step_edge_ok(pre_cache, *self, a2, j2, bundles);
                    }
                }
                assert forall|a2: int, j2: int|
                    0 <= a2 < self.archetypes@.len() && 0 <= j2 < self.archetypes@[
                        a2
                    ].edges.add_bundle.values@.len() && (#[trigger] self.archetypes@[
                        a2
                    ].edges.add_bundle.values@[j2]) is Some implies self.add_edge_ok(
                    a2,
                    j2,
                    bundles,
                ) by {
                    assert(self.archetypes@[a2].edges.add_bundle == pre_cache.archetypes@[
                        a2
                    ].edges.add_bundle);
                    lemma_cache_step_add_ok(pre_cache, *self, a2, j2, bundles);
                }
                assert(!(forall|cid: int|
                    #[trigger] bundle_info.spec_has_component(cid) ==> old(self).archetypes@[
                        archetype_id.0 as int
                    ].spec_has_component(cid))) by {
                    assert(bundle_info.spec_has_component(
                        bundle_info.component_ids@[missing].0 as int,
                    ));
                }
            }
            return None;
        }
        // the kept components: the source's set minus the bundle's
        let kept = kept_component_ids(&keys.items, bundle_info, Ghost(from_arch));
        proof {
            assert forall|n: int| 0 <= n < kept@.len() implies 0 <= (#[trigger] kept@[n]).0
                < components.components@.len() by {
                let n2 = choose|n2: int|
                    0 <= n2 < keys0.len() && (#[trigger] keys0[n2]).0 == kept@[n].0;
                assert(from_arch.spec_has_component(keys0[n2].0 as int));
                assert(old(self).archetypes@[from_index as int].spec_has_component(
                    keys0[n2].0 as int,
                ));
            }
        }
        let ghost kept0 = kept@;
        let to_id = self.get_or_insert_archetype_by_components(kept, components, bundles, tables);
        let edge = RemoveBundle::Match { archetype_id: to_id };
        let ghost pre_cache = *self;
        let from_archetype = &mut self.archetypes[from_index];
        let _replaced = from_archetype.edges.remove_bundle.insert(&bundle_info.id, edge);
        proof {
            let fi = from_index as int;
            let bid = bundle_info.id.0 as int;
            lemma_cache_step_ok(pre_cache, *self, fi, bundles, tables);
            assert forall|cid: int|
                #[trigger] self.archetypes@[to_id.0 as int].spec_has_component(cid) <==> (old(self).archetypes@[archetype_id.0 as int].spec_has_component(cid)
                && !bundle_info.spec_has_component(cid)) by {
                assert(self.archetypes@[to_id.0 as int].components == pre_cache.archetypes@[
                    to_id.0 as int
                ].components);
                assert(pre_cache.archetypes@[to_id.0 as int].spec_has_component(cid) <==> exists|
                    m2: int|
                    0 <= m2 < kept0.len() && (#[trigger] kept0[m2]).0 as int == cid);
                if exists|m2: int|
                    0 <= m2 < kept0.len() && (#[trigger] kept0[m2]).0 as int == cid {
                    let m2 = choose|m2: int|
                        0 <= m2 < kept0.len() && (#[trigger] kept0[m2]).0 as int == cid;
                    let n2 = choose|n2: int|
                        0 <= n2 < keys0.len() && (#[trigger] keys0[n2]).0 == kept0[m2].0;
                }
                if from_arch.spec_has_component(cid) && !bundle_info.spec_has_component(cid) {
                    let n = choose|n: int|
                        0 <= n < keys0.len() && (#[trigger] keys0[n]).0 as int == cid;
                    assert(exists|n2: int|
                        0 <= n2 < kept0.len() && (#[trigger] kept0[n2]).0 == keys0[n].0);
                }
            }
            assert(self.remove_edge_ok(fi, bid, bundles)) by {
                assert(self.archetypes@[fi].edges.remove_bundle.values@[bid]->Some_0 == edge);
                assert forall|cid: int|
                    #[trigger] self.archetypes@[fi].spec_has_component(cid) <==> from_arch
                    .spec_has_component(cid) by {
                    assert(self.archetypes@[fi].components == from_arch.components);
                }
            }
            assert forall|a2: int, j2: int|
                0 <= a2 < self.archetypes@.len() && 0 <= j2 < self.archetypes@[
                    a2
                ].edges.remove_bundle.values@.len() && (#[trigger] self.archetypes@[
                    a2
                ].edges.remove_bundle.values@[j2]) is Some implies self.remove_edge_ok(
                a2,
                j2,
                bundles,
            ) by {
                if a2 == fi && j2 == bid {
                } else {
                    if a2 == fi {
                        assert(self.archetypes@[fi].edges.remove_bundle.values@[j2]
                            == pre_cache.archetypes@[fi].edges.remove_bundle.values@[j2]);
                    }
                    lemma_cache_step_edge_ok(pre_cache, *self, a2, j2, bundles);
                }
            }
            assert forall|a2: int, j2: int|
                0 <= a2 < self.archetypes@.len() && 0 <= j2 < self.archetypes@[
                    a2
                ].edges.add_bundle.values@.len() && (#[trigger] self.archetypes@[
                    a2
                ].edges.add_bundle.values@[j2]) is Some implies self.add_edge_ok(
                a2,
                j2,
                bundles,
            ) by {
                assert(self.archetypes@[a2].edges.add_bundle == pre_cache.archetypes@[
                    a2
                ].edges.add_bundle);
                lemma_cache_step_add_ok(pre_cache, *self, a2, j2, bundles);
            }
        }
        Some(to_id)
    }

    /// Look up or create the archetype that removing a bundle from
    /// `archetype_id` leads to, caching the edge.
    ///
    /// Nothing happens for an empty bundle; when the source lacks some bundle
    /// component the mismatch is cached and nothing comes back.  Otherwise the
    /// source and the distinct target archetype ids come back.
    #[verifier::spinoff_prover]
    pub fn remove_bundle<V>(
        &mut self,
        archetype_id: ArchetypeId,
        bundle_info: &BundleInfo,
        bundles: &Bundles,
        components: &Components,
        tables: &mut Tables<V>,
    ) -> (r: Option<(ArchetypeId, ArchetypeId)>)
        requires
            old(self).wf(),
            old(tables).wf(),
            components.wf(),
            bundles.wf(),
            old(self).tables_consistent(old(tables)),
            old(self).edges_consistent(bundles),
            old(self).ids_in_range(components.components@.len() as int),
            archetype_id.0 < old(self).archetypes@.len(),
            bundle_info.id.0 < bundles.bundle_infos@.len(),
            *bundle_info == bundles.bundle_infos@[bundle_info.id.0 as int],
            bundles.in_range(components.components@.len() as int),
        ensures
            final(self).wf(),
            final(tables).wf(),
            final(self).tables_consistent(final(tables)),
            final(self).edges_consistent(bundles),
            final(self).ids_in_range(components.components@.len() as int),
            Self::grows_from(*old(self), *final(self)),
            final(tables).tables@.len() >= old(tables).tables@.len(),
            forall|t: int|
                0 <= t < old(tables).tables@.len() ==> #[trigger] final(tables).tables@[t] == old(tables).tables@[t],
            forall|t: int|
                old(tables).tables@.len() <= t < final(tables).tables@.len() ==> (#[trigger] final(tables).tables@[t]).entities@.len() == 0,
            bundle_info.component_ids@.len() == 0 ==> (*final(self) == *old(self) && *final(tables) == *old(tables) && r is None),
            // a cached edge changes nothing
            old(self).archetypes@[archetype_id.0 as int].edges.remove_bundle.spec_contains(
                bundle_info.id.0 as int,
            ) ==> (*final(self) == *old(self) && *final(tables) == *old(tables)),
            r is Some <==> (bundle_info.component_ids@.len() > 0 && forall|cid: int|
                #[trigger] bundle_info.spec_has_component(cid) ==> old(self).archetypes@[
                    archetype_id.0 as int
                ].spec_has_component(cid)),
            r is Some ==> {
                &&& r->Some_0.0 == archetype_id
                &&& r->Some_0.1.0 < final(self).archetypes@.len()
                &&& r->Some_0.1.0 != archetype_id.0
                &&& forall|cid: int|
                    #[trigger] final(self).archetypes@[r->Some_0.1.0 as int].spec_has_component(
                        cid,
                    ) <==> (old(self).archetypes@[archetype_id.0 as int].spec_has_component(
                        cid,
                    ) && !bundle_info.spec_has_component(cid))
            },
    {
        if bundle_info.component_ids.len() == 0 {
            return None;
        }
        let from_index = archetype_id.index();
        let cached = self.archetypes[from_index].edges.remove_bundle.get(&bundle_info.id);
        let to_opt = match cached {
            Some(edge) => {
                proof {
                    assert(old(self).remove_edge_ok(
                        from_index as int,
                        bundle_info.id.0 as int,
                        bundles,
                    ));
                }
                match edge {
                    RemoveBundle::Match { archetype_id: t } => Some(*t),
                    RemoveBundle::Mismatch => None,
                }
            }
            None => {
                self.create_remove_bundle_edge(
                    archetype_id,
                    bundle_info,
                    bundles,
                    components,
                    tables,
                )
            }
        };
        match to_opt {
            Some(to_id) => {
                proof {
                    let cid0 = bundle_info.component_ids@[0].0 as int;
                    assert(bundle_info.spec_has_component(cid0));
                    assert(old(self).archetypes@[archetype_id.0 as int].spec_has_component(
                        cid0,
                    ));
                    if to_id.0 == archetype_id.0 {
                        assert(self.archetypes@[to_id.0 as int].spec_has_component(cid0))
                            by {
                            assert(self.archetypes@[archetype_id.0 as int].components == old(self).archetypes@[archetype_id.0 as int].components);
                        }
                        assert(!self.archetypes@[to_id.0 as int].spec_has_component(cid0));
                    }
                }
                Some((archetype_id, to_id))
            }
            None => None,
        }
    }
}


/// The keys of the source that the bundle does not name, in ascending order.
#[verifier::rlimit(100)]
#[verifier::spinoff_prover]
fn kept_component_ids(
    keys: &Vec<ComponentId>,
    bundle_info: &BundleInfo,
    from_arch_g: Ghost<Archetype>,
) -> (kept: Vec<ComponentId>)
    requires
        strictly_sorted_by_index(keys@),
        forall|j: int|
            (exists|n: int| 0 <= n < keys@.len() && (#[trigger] keys@[n]).0 as int == j)
                <==> from_arch_g@.spec_has_component(j),
    ensures
        strictly_sorted_by_index(kept@),
        forall|n: int|
            0 <= n < kept@.len() ==> (exists|n2: int|
                0 <= n2 < keys@.len() && (#[trigger] keys@[n2]).0 == (#[trigger] kept@[n]).0)
                && !bundle_info.spec_has_component(kept@[n].0 as int),
        forall|n2: int|
            0 <= n2 < keys@.len() && !bundle_info.spec_has_component(
                (#[trigger] keys@[n2]).0 as int,
            ) ==> exists|n: int| 0 <= n < kept@.len() && (#[trigger] kept@[n]).0 == keys@[n2].0,
{
    let ghost keys0 = keys@;
    let mut kept: Vec<ComponentId> = Vec::new();
    let kn = keys.len();
    let mut k: usize = 0;
    while k < kn
        invariant
            kn == keys0.len(),
            k <= kn,
            keys@ == keys0,
            strictly_sorted_by_index(keys0),
            strictly_sorted_by_index(kept@),
            forall|n: int|
                0 <= n < kept@.len() ==> (exists|n2: int|
                    0 <= n2 < k as int && (#[trigger] keys0[n2]).0 == (#[trigger] kept@[
                        n
                    ]).0) && !bundle_info.spec_has_component(kept@[n].0 as int),
            forall|n2: int|
                0 <= n2 < k as int && !bundle_info.spec_has_component(
                    (#[trigger] keys0[n2]).0 as int,
                ) ==> exists|n: int| 0 <= n < kept@.len() && (#[trigger] kept@[n]).0
                    == keys0[n2].0,
        decreases kn - k,
    {
        let cid = keys[k];
        let ghost kept_before = kept@;
        if !contains_id(&bundle_info.component_ids, cid) {
            kept.push(cid);
            proof {
                assert(kept@.last().0 == keys0[k as int].0);
                assert forall|n1: int, n2: int|
                    0 <= n1 < n2 < kept@.len() implies #[trigger] kept@[n1].spec_index()
                    < #[trigger] kept@[n2].spec_index() by {
                    if n2 == kept@.len() - 1 && kept_before.len() > 0 {
                        assert(kept@[n1] == kept_before[n1]);
                        let w2 = choose|w2: int|
                            0 <= w2 < k as int && (#[trigger] keys0[w2]).0 == kept_before[
                                n1
                            ].0;
                        assert(keys0[w2].spec_index() < keys0[k as int].spec_index());
                    }
                }
                assert forall|n2: int|
                    0 <= n2 < k as int + 1 && !bundle_info.spec_has_component(
                        (#[trigger] keys0[n2]).0 as int,
                    ) implies exists|n: int|
                    0 <= n < kept@.len() && (#[trigger] kept@[n]).0 == keys0[n2].0 by {
                    if n2 == k as int {
                        assert(kept@[kept@.len() - 1].0 == keys0[n2].0);
                    } else {
                        let n = choose|n: int|
                            0 <= n < kept_before.len() && (#[trigger] kept_before[n]).0 == keys0[
                                n2
                            ].0;
                        assert(kept@[n].0 == keys0[n2].0);
                    }
                }
            }
        } else {
            proof {
                assert(bundle_info.spec_has_component(keys0[k as int].0 as int));
                assert forall|n2: int|
                    0 <= n2 < k as int + 1 && !bundle_info.spec_has_component(
                        (#[trigger] keys0[n2]).0 as int,
                    ) implies exists|n: int|
                    0 <= n < kept@.len() && (#[trigger] kept@[n]).0 == keys0[n2].0 by {
                    let n = choose|n: int|
                        0 <= n < kept_before.len() && (#[trigger] kept_before[n]).0 == keys0[
                            n2
                        ].0;
                    assert(kept@[n].0 == keys0[n2].0);
                }
            }
        }
        k = k + 1;
    }
    proof {
        assert forall|n: int| 0 <= n < kept@.len() implies (exists|n2: int|
            0 <= n2 < keys@.len() && (#[trigger] keys@[n2]).0 == (#[trigger] kept@[n]).0)
            && !bundle_info.spec_has_component(kept@[n].0 as int) by {
            let n2 = choose|n2: int|
                0 <= n2 < kn as int && (#[trigger] keys0[n2]).0 == kept@[n].0;
            assert(keys@[n2].0 == kept@[n].0);
        }
    }
    kept
}

/// After one edge-cache insertion (which touches nothing but one archetype's
/// edge maps), the graph keeps its shape, its table links and its id ranges.
proof fn lemma_cache_step_ok<V>(
    pre: Archetypes,
    post: Archetypes,
    fi: int,
    bundles: &Bundles,
    tables: &Tables<V>,
)
    requires
        pre.wf(),
        0 <= fi < pre.archetypes@.len(),
        post.archetypes@.len() == pre.archetypes@.len(),
        forall|i: int|
            0 <= i < post.archetypes@.len() && i != fi ==> #[trigger] post.archetypes@[i]
                == pre.archetypes@[i],
        post.archetypes@[fi].id == pre.archetypes@[fi].id,
        post.archetypes@[fi].table_id == pre.archetypes@[fi].table_id,
        post.archetypes@[fi].entities@ == pre.archetypes@[fi].entities@,
        post.archetypes@[fi].components == pre.archetypes@[fi].components,
        post.archetypes@[fi].wf(),
    ensures
        post.wf(),
        forall|i: int|
            0 <= i < post.archetypes@.len() ==> #[trigger] post.archetypes@[i].components
                == pre.archetypes@[i].components,
        Archetypes::grows_from(pre, post),
        pre.tables_consistent(tables) ==> post.tables_consistent(tables),
        forall|n: int| pre.ids_in_range(n) ==> post.ids_in_range(n),
{
    assert forall|i: int|
        0 <= i < post.archetypes@.len() implies #[trigger] post.archetypes@[i].components
        == pre.archetypes@[i].components by {}
    assert forall|i: int, j: int|
        0 <= i < j < post.archetypes@.len() implies key_indexes(
        (#[trigger] post.archetypes@[i]).components.values@,
    ) != key_indexes((#[trigger] post.archetypes@[j]).components.values@) by {
        assert(post.archetypes@[i].components == pre.archetypes@[i].components);
        assert(post.archetypes@[j].components == pre.archetypes@[j].components);
    }
    if pre.tables_consistent(tables) {
        assert forall|i: int|
            0 <= i < post.archetypes@.len() implies {
            &&& (#[trigger] post.archetypes@[i]).table_id.0 < tables.tables@.len()
            &&& forall|cid: int|
                post.archetypes@[i].spec_has_component(cid) <==> tables.tables@[
                    post.archetypes@[i].table_id.0 as int
                ].spec_has_column(cid)
        } by {
            assert(post.archetypes@[i].components == pre.archetypes@[i].components);
            assert(post.archetypes@[i].table_id == pre.archetypes@[i].table_id);
            assert(pre.archetypes@[i].table_id.0 < tables.tables@.len());
            assert forall|cid: int|
                #[trigger] post.archetypes@[i].spec_has_component(cid) <==> pre.archetypes@[
                i
            ].spec_has_component(cid) by {}
            assert forall|cid: int|
                #[trigger] pre.archetypes@[i].spec_has_component(cid) <==> tables.tables@[
                pre.archetypes@[i].table_id.0 as int
            ].spec_has_column(cid) by {}
        }
    }
    assert forall|n: int| pre.ids_in_range(n) implies post.ids_in_range(n) by {
        assert forall|i: int, j: int|
            0 <= i < post.archetypes@.len() && #[trigger] post.archetypes@[
                i
            ].spec_has_component(j) implies 0 <= j < n by {
            assert(post.archetypes@[i].components == pre.archetypes@[i].components);
            assert(pre.archetypes@[i].spec_has_component(j));
        }
    }
}

/// A remove edge that was right before a cache step is still right after it.
pub proof fn lemma_cache_step_edge_ok(
    pre: Archetypes,
    post: Archetypes,
    a2: int,
    j2: int,
    bundles: &Bundles,
)
    requires
        pre.remove_edge_ok(a2, j2, bundles),
        0 <= a2 < pre.archetypes@.len(),
        0 <= j2 < pre.archetypes@[a2].edges.remove_bundle.values@.len(),
        pre.archetypes@[a2].edges.remove_bundle.values@[j2] is Some,
        post.archetypes@.len() == pre.archetypes@.len(),
        post.archetypes@[a2].edges.remove_bundle.values@[j2] == pre.archetypes@[
            a2
        ].edges.remove_bundle.values@[j2],
        forall|i: int|
            0 <= i < post.archetypes@.len() ==> #[trigger] post.archetypes@[i].components
                == pre.archetypes@[i].components,
    ensures
        post.remove_edge_ok(a2, j2, bundles),
{
    let e = pre.archetypes@[a2].edges.remove_bundle.values@[j2]->Some_0;
    assert forall|cid: int|
        #[trigger] post.archetypes@[a2].spec_has_component(cid) <==> pre.archetypes@[
        a2
    ].spec_has_component(cid) by {
        assert(post.archetypes@[a2].components == pre.archetypes@[a2].components);
    }
    if e is Match {
        assert forall|cid: int|
            #[trigger] post.archetypes@[e->Match_archetype_id.0 as int].spec_has_component(cid)
            <==> pre.archetypes@[e->Match_archetype_id.0 as int].spec_has_component(cid) by {
            assert(post.archetypes@[e->Match_archetype_id.0 as int].components
                == pre.archetypes@[e->Match_archetype_id.0 as int].components);
        }
    }
}

/// An add edge that was right before a cache step is still right after it.
pub proof fn lemma_cache_step_add_ok(
    pre: Archetypes,
    post: Archetypes,
    a2: int,
    j2: int,
    bundles: &Bundles,
)
    requires
        pre.add_edge_ok(a2, j2, bundles),
        0 <= a2 < pre.archetypes@.len(),
        0 <= j2 < pre.archetypes@[a2].edges.add_bundle.values@.len(),
        pre.archetypes@[a2].edges.add_bundle.values@[j2] is Some,
        post.archetypes@.len() == pre.archetypes@.len(),
        post.archetypes@[a2].edges.add_bundle.values@[j2] == pre.archetypes@[
            a2
        ].edges.add_bundle.values@[j2],
        forall|i: int|
            0 <= i < post.archetypes@.len() ==> #[trigger] post.archetypes@[i].components
                == pre.archetypes@[i].components,
    ensures
        post.add_edge_ok(a2, j2, bundles),
{
    let e = pre.archetypes@[a2].edges.add_bundle.values@[j2]->Some_0;
    assert forall|cid: int|
        #[trigger] post.archetypes@[a2].spec_has_component(cid) <==> pre.archetypes@[
        a2
    ].spec_has_component(cid) by {
        assert(post.archetypes@[a2].components == pre.archetypes@[a2].components);
    }
    assert forall|cid: int|
        #[trigger] post.archetypes@[e.archetype_id.0 as int].spec_has_component(cid)
        <==> pre.archetypes@[e.archetype_id.0 as int].spec_has_component(cid) by {
        assert(post.archetypes@[e.archetype_id.0 as int].components == pre.archetypes@[
            e.archetype_id.0 as int
        ].components);
    }
}

} // verus!
