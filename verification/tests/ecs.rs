use quasar_ecs::archetype::{ArchetypeId, Archetypes};
use quasar_ecs::bundle::{Bundle, Bundles, DynamicBundle};
use quasar_ecs::component::{ComponentDescriptor, ComponentId, Components};
use quasar_ecs::entity::{Entities, EntityLocation};
use quasar_ecs::storage::table::{Table, TableBuilder, TableRow, Tables};
use quasar_ecs::storage::StorageType;
use quasar_ecs::util::partition_dedup;
use quasar_ecs::util::sparse_map::SparseMap;
use quasar_ecs::util::sparse_set::SparseSet;
use quasar_ecs::util::type_id_map::{TypeIdMap, TypeKey};

fn descriptor(name: &str, key: u64) -> ComponentDescriptor {
    ComponentDescriptor::new(String::from(name), TypeKey(key), StorageType::Table)
}

#[test]
fn it_dedups_correctly() {
    let mut input: Vec<usize> = vec![1, 2, 2, 3, 4];
    let w = partition_dedup(&mut input);
    assert_eq!(&input[..w], &[1, 2, 3, 4]);
    assert_eq!(&input[w..], &[2]);
    assert_eq!(input, [1, 2, 3, 4, 2]);

    let mut input: Vec<usize> = vec![1, 2, 2, 2, 3, 4];
    let w = partition_dedup(&mut input);
    assert_eq!(&input[..w], &[1, 2, 3, 4]);
    assert_eq!(&input[w..], &[2, 2]);
    assert_eq!(input, [1, 2, 3, 4, 2, 2]);

    let mut input: Vec<usize> = vec![1, 2, 2, 3, 4, 4];
    let w = partition_dedup(&mut input);
    assert_eq!(&input[..w], &[1, 2, 3, 4]);
    assert_eq!(&input[w..], &[2, 4]);
    assert_eq!(input, [1, 2, 3, 4, 2, 4]);
}

#[test]
fn generations_grow_and_stale_handles_never_resolve() {
    let mut entities = Entities::new();
    let first = entities.allocate();
    entities.set_location(first, EntityLocation::empty());
    assert_eq!(first.generation.0, 1);
    assert!(entities.get_location(first).is_some());

    entities.free(first);
    assert!(entities.get_location(first).is_none());

    let reused = entities.allocate();
    entities.set_location(reused, EntityLocation::empty());
    assert_eq!(reused.index, first.index);
    assert!(reused.generation.0 > first.generation.0);
    assert!(entities.get_location(first).is_none());
    assert!(entities.get_location(reused).is_some());
}

#[test]
fn sparse_map_inserts_and_removes() {
    let mut map: SparseMap<usize, u32> = SparseMap::new();
    assert!(map.is_empty());
    assert_eq!(map.insert(&3, 30), None);
    assert_eq!(map.insert(&1, 10), None);
    assert_eq!(map.insert(&3, 33), Some(30));
    assert_eq!(map.len(), 2);
    assert_eq!(map.get(&3), Some(&33));
    assert_eq!(map.get(&2), None);
    assert!(map.contains_key(&1));
    assert_eq!(map.remove(&1), Some(10));
    assert_eq!(map.len(), 1);
    assert_eq!(map.get(&1), None);
    let keys: Vec<usize> = map.keys().items;
    assert_eq!(keys, vec![3]);
}

#[test]
fn sparse_set_tracks_membership() {
    let mut set: SparseSet<usize> = SparseSet::new();
    assert!(!set.insert(&5));
    assert!(set.insert(&5));
    assert!(set.contains(&5));
    assert!(!set.contains(&4));
    assert!(set.remove(&5));
    assert!(!set.remove(&5));
    assert!(set.is_empty());
}

#[test]
fn type_id_map_is_keyed_by_type_identity() {
    let mut map: TypeIdMap<u32> = TypeIdMap::new();
    assert_eq!(map.insert(TypeKey(7), 70), None);
    assert_eq!(map.insert(TypeKey(9), 90), None);
    assert_eq!(map.insert(TypeKey(7), 77), Some(70));
    assert_eq!(map.get(TypeKey(7)), Some(&77));
    assert_eq!(map.get(TypeKey(8)), None);
    assert!(map.contains_key(TypeKey(9)));
    assert_eq!(map.len(), 2);
}

#[test]
fn component_registration_is_idempotent() {
    let mut components = Components::new();
    let a = components.register(descriptor("position", 1));
    let b = components.register(descriptor("velocity", 2));
    let a_again = components.register(descriptor("position", 1));
    assert_eq!(a, ComponentId(0));
    assert_eq!(b, ComponentId(1));
    assert_eq!(a, a_again);
    assert_eq!(components.len(), 2);
    assert_eq!(components.get_component_id(TypeKey(2)), Some(b));
    assert_eq!(components.get_component_id(TypeKey(3)), None);
}

#[test]
fn bundle_registration_sorts_and_reuses() {
    let mut components = Components::new();
    let mut bundles = Bundles::new();
    let bundle = Bundle {
        type_key: TypeKey(100),
        name: String::from("pair"),
        components: vec![descriptor("velocity", 2), descriptor("position", 1)],
    };
    let id = bundles
        .get_mut_or_insert_static(&bundle, &mut components)
        .unwrap();
    let info = bundles.get(TypeKey(100)).unwrap();
    assert_eq!(info.id, id);
    assert_eq!(info.component_ids, vec![ComponentId(0), ComponentId(1)]);

    // a second registration of the same bundle type changes nothing
    let id_again = bundles
        .get_mut_or_insert_static(&bundle, &mut components)
        .unwrap();
    assert_eq!(id, id_again);
}

#[test]
fn duplicate_component_bundle_is_rejected_with_names() {
    let mut components = Components::new();
    let mut bundles = Bundles::new();
    let bundle: DynamicBundle<u64> = DynamicBundle {
        type_key: TypeKey(200),
        name: String::from("twice"),
        components: vec![
            (descriptor("position", 1), 42u64),
            (descriptor("position", 1), 43u64),
        ],
    };
    let err = bundles
        .get_mut_or_insert_dynamic(&bundle, &mut components)
        .unwrap_err();
    assert_eq!(err.bundle_name, "twice");
    assert!(err.component_names.iter().any(|n| n == "position"));
    // the rejected bundle is not registered
    assert!(bundles.get(TypeKey(200)).is_none());
}

fn single_bundle_info(
    bundles: &mut Bundles,
    components: &mut Components,
    key: u64,
    name: &str,
    comp: ComponentDescriptor,
) -> quasar_ecs::bundle::BundleId {
    let bundle = Bundle {
        type_key: TypeKey(key),
        name: String::from(name),
        components: vec![comp],
    };
    bundles
        .get_mut_or_insert_static(&bundle, components)
        .unwrap()
}

#[test]
fn archetype_with_one_component_set_is_reused() {
    let mut components = Components::new();
    let mut bundles = Bundles::new();
    let mut archetypes = Archetypes::new();
    let mut tables: Tables<u64> = Tables::new();

    let bid = single_bundle_info(
        &mut bundles,
        &mut components,
        100,
        "single",
        descriptor("position", 1),
    );
    let info_ids = bundles.get(TypeKey(100)).unwrap().component_ids.clone();
    assert_eq!(info_ids, vec![ComponentId(0)]);

    // adding the bundle to the empty archetype creates one new archetype
    let info = Bundle {
        type_key: TypeKey(100),
        name: String::from("single"),
        components: vec![descriptor("position", 1)],
    };
    let _ = info;
    let binfo = quasar_ecs::bundle::BundleInfo {
        id: bid,
        type_key: TypeKey(100),
        name: String::from("single"),
        component_ids: info_ids,
    };
    let (from, to) = archetypes
        .add_bundle(
            ArchetypeId(0),
            &binfo,
            &bundles,
            &components,
            &mut tables,
        )
        .unwrap();
    assert_eq!(from, ArchetypeId(0));
    assert_eq!(to, ArchetypeId(1));

    // the same transition again reuses the cached edge and the archetype
    let (_, to_again) = archetypes
        .add_bundle(
            ArchetypeId(0),
            &binfo,
            &bundles,
            &components,
            &mut tables,
        )
        .unwrap();
    assert_eq!(to_again, to);
    assert_eq!(archetypes.len(), 2);
    assert_eq!(tables.len(), 2);

    // adding the bundle to an archetype that already has it is a no-op
    assert!(archetypes
        .add_bundle(to, &binfo, &bundles, &components, &mut tables)
        .is_none());

    // removing the bundle leads back to the empty archetype
    let (from2, back) = archetypes
        .remove_bundle(to, &binfo, &bundles, &components, &mut tables)
        .unwrap();
    assert_eq!(from2, to);
    assert_eq!(back, ArchetypeId(0));

    // removing a bundle the archetype does not have is a mismatch
    assert!(archetypes
        .remove_bundle(ArchetypeId(0), &binfo, &bundles, &components, &mut tables)
        .is_none());
}

fn table_with_one_column(components: &Components, cid: ComponentId) -> Table<u64> {
    let mut builder: TableBuilder<u64> = TableBuilder::new(1, 1);
    builder.add_column(components.get_component_info(cid));
    builder.build()
}

#[test]
fn swap_remove_of_non_tail_row_rewrites_exactly_one_entity() {
    let mut components = Components::new();
    let cid = components.register(descriptor("position", 1));
    let mut table = table_with_one_column(&components, cid);

    let mut entities = Entities::new();
    let e0 = entities.allocate();
    entities.set_location(e0, EntityLocation::empty());
    let e1 = entities.allocate();
    entities.set_location(e1, EntityLocation::empty());
    let e2 = entities.allocate();
    entities.set_location(e2, EntityLocation::empty());

    let r0 = table.push_row(e0, vec![(cid, 10u64)]);
    let r1 = table.push_row(e1, vec![(cid, 11u64)]);
    let r2 = table.push_row(e2, vec![(cid, 12u64)]);
    assert_eq!(r0, TableRow(0));
    assert_eq!(r1, TableRow(1));
    assert_eq!(r2, TableRow(2));
    assert_eq!(table.get_component(cid, r1), Some(&11u64));

    // removing the middle row swaps the tail up and names the moved entity
    let swapped = table.remove_row(r1).unwrap();
    assert_eq!(swapped.entity, e2);
    assert_eq!(swapped.changed_value, r1);
    assert_eq!(table.num_entities(), 2);
    assert_eq!(table.get_component(cid, r1), Some(&12u64));

    // removing the tail row rewrites nothing
    assert!(table.remove_row(TableRow(1)).is_none());
    assert_eq!(table.num_entities(), 1);
}

#[test]
fn take_row_hands_cells_back_without_losing_them() {
    let mut components = Components::new();
    let cid = components.register(descriptor("position", 1));
    let mut table = table_with_one_column(&components, cid);
    let mut entities = Entities::new();
    let e0 = entities.allocate();
    let row = table.push_row(e0, vec![(cid, 99u64)]);
    let (cells, swapped) = table.take_row(row, e0);
    assert!(swapped.is_none());
    assert_eq!(cells, vec![(cid, 99u64)]);
    assert_eq!(table.num_entities(), 0);
}

use quasar_ecs::world::World;

fn single_component_bundle<V>(
    bundle_key: u64,
    bundle_name: &str,
    comp: ComponentDescriptor,
    value: V,
) -> DynamicBundle<V> {
    DynamicBundle {
        type_key: TypeKey(bundle_key),
        name: String::from(bundle_name),
        components: vec![(comp, value)],
    }
}

#[test]
fn spawn_component() {
    let mut world: World<(u32, u32)> = World::new();

    let component = (42u32, 1312u32);
    let entity = world
        .spawn(single_component_bundle(
            300,
            "my_component",
            descriptor("my_component", 30),
            component,
        ))
        .unwrap();

    // the component comes back verbatim through the world
    let component2 = world.get(entity, TypeKey(30)).unwrap();
    assert_eq!(component, *component2);

    // and through a fresh handle
    let entity2 = world.get_entity(entity).unwrap().id();
    let component3 = world.get(entity2, TypeKey(30)).unwrap();
    assert_eq!(component, *component3);
}

#[test]
fn spawn_empty() {
    let mut world: World<u64> = World::new();
    let entity = world.spawn_empty();
    assert!(world.get_entity(entity).is_some());
    assert!(world.get(entity, TypeKey(1)).is_none());
    assert!(!world.contains(entity, TypeKey(1)));
}

#[test]
fn insert_over_existing_archetype_reuses_it() {
    let mut world: World<u64> = World::new();
    let a = world
        .spawn(single_component_bundle(300, "single", descriptor("position", 1), 1u64))
        .unwrap();
    let b = world
        .spawn(single_component_bundle(300, "single", descriptor("position", 1), 2u64))
        .unwrap();
    let loc_a = world.entities.get_location(a).unwrap();
    let loc_b = world.entities.get_location(b).unwrap();
    assert_eq!(loc_a.archetype_id, loc_b.archetype_id);
    assert_eq!(loc_a.table_id, loc_b.table_id);
    assert_eq!(world.get(a, TypeKey(1)), Some(&1u64));
    assert_eq!(world.get(b, TypeKey(1)), Some(&2u64));
}

#[test]
fn duplicate_component_bundle_is_rejected_by_spawn() {
    let mut world: World<u64> = World::new();
    let bundle = DynamicBundle {
        type_key: TypeKey(400),
        name: String::from("twice"),
        components: vec![(descriptor("position", 1), 1u64), (descriptor("position", 1), 2u64)],
    };
    let err = world.spawn(bundle).unwrap_err();
    assert_eq!(err.bundle_name, "twice");
    assert!(err.component_names.iter().any(|n| n == "position"));
}

struct DropFlag(std::rc::Rc<std::cell::Cell<u32>>);

impl Drop for DropFlag {
    fn drop(&mut self) {
        self.0.set(self.0.get() + 1);
    }
}

#[test]
fn it_doesnt_drop_inserted_components() {
    let drops = std::rc::Rc::new(std::cell::Cell::new(0u32));
    let mut world: World<DropFlag> = World::new();
    let _ = world
        .spawn(single_component_bundle(
            300,
            "my_component",
            descriptor("my_component", 30),
            DropFlag(drops.clone()),
        ))
        .unwrap();
    assert_eq!(drops.get(), 0);
    drop(world);
}

#[test]
fn it_does_drop_components_when_world_is_dropped() {
    let drops = std::rc::Rc::new(std::cell::Cell::new(0u32));
    let mut world: World<DropFlag> = World::new();
    let _ = world
        .spawn(single_component_bundle(
            300,
            "my_component",
            descriptor("my_component", 30),
            DropFlag(drops.clone()),
        ))
        .unwrap();
    drop(world);
    assert_eq!(drops.get(), 1);
}

#[test]
fn clearing_entities_retires_their_handles() {
    let mut world: World<u64> = World::new();
    let entity = world
        .spawn(single_component_bundle(300, "single", descriptor("position", 1), 7u64))
        .unwrap();
    world.clear_entities();
    assert!(world.get_entity(entity).is_none());
    assert!(world.get(entity, TypeKey(1)).is_none());
    // the retired slot reuses with a strictly larger generation
    let reused = world.spawn_empty();
    assert_eq!(reused.index, entity.index);
    assert!(reused.generation.0 > entity.generation.0);
}
