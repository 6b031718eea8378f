use carnot::component::{BorrowState, ComponentStorage, ComponentVec};
use carnot::query::{Query, Shape};
use carnot::world::World;

#[derive(Clone, Copy, PartialEq, Eq, Debug)]
enum Comp {
    Position { x: u64 },
    Velocity { v: u64 },
    Counter(u64),
}

const POSITION: u64 = 1;
const VELOCITY: u64 = 2;
const HEALTH: u64 = 3;
const COUNTER: u64 = 10;

#[test]
fn scenario_a() {
    let mut world: World<Comp> = World::new();
    assert_eq!(world.new_entity(), 0);
    assert_eq!(world.new_entity(), 1);
    world
        .add_component_to_entity(0, POSITION, Comp::Position { x: 1 })
        .unwrap();
    world
        .add_component_to_entity(1, VELOCITY, Comp::Velocity { v: 2 })
        .unwrap();

    let q = Query::fetch(&world, &Shape::new().read(POSITION)).unwrap();
    assert_eq!(q.len(), 1);
    assert_eq!(q.row(0).entity, 0);
    assert_eq!(q.row(0).items, vec![Comp::Position { x: 1 }]);

    let q = Query::fetch(&world, &Shape::new().read(POSITION).read(VELOCITY)).unwrap();
    assert_eq!(q.len(), 0);
}

#[test]
fn scenario_b() {
    let mut world: World<Comp> = World::new();
    assert_eq!(world.new_entity(), 0);
    assert_eq!(world.new_entity(), 1);
    world
        .add_component_to_entity(0, POSITION, Comp::Position { x: 1 })
        .unwrap();
    world
        .add_component_to_entity(1, VELOCITY, Comp::Velocity { v: 2 })
        .unwrap();
    world
        .add_component_to_entity(0, VELOCITY, Comp::Velocity { v: 5 })
        .unwrap();

    let q = Query::fetch(&world, &Shape::new().read(POSITION).read(VELOCITY)).unwrap();
    assert_eq!(q.len(), 1);
    assert_eq!(q.row(0).entity, 0);
    assert_eq!(
        q.row(0).items,
        vec![Comp::Position { x: 1 }, Comp::Velocity { v: 5 }]
    );
}

#[test]
fn scenario_c() {
    let mut world: World<Comp> = World::new();
    world.add_resource(COUNTER, Comp::Counter(0));

    let mut guard = world.get_resource_mut(COUNTER).unwrap().unwrap();
    if let Comp::Counter(n) = guard.value {
        guard.value = Comp::Counter(n + 1);
    }
    world.release_resource_mut(COUNTER, guard);
    let read = world.get_resource(COUNTER).unwrap().unwrap();
    assert_eq!(read.value, Comp::Counter(1));
    world.release_resource(COUNTER);

    world.add_resource(COUNTER, Comp::Counter(100));
    let read = world.get_resource(COUNTER).unwrap().unwrap();
    assert_eq!(read.value, Comp::Counter(100));
    world.release_resource(COUNTER);
}

#[test]
fn scenario_d() {
    let mut world: World<Comp> = World::new();
    world.new_entity();
    world.new_entity();
    world
        .add_component_to_entity(0, POSITION, Comp::Position { x: 1 })
        .unwrap();

    let q = Query::fetch(&world, &Shape::new().read(HEALTH)).unwrap();
    assert_eq!(q.len(), 0);
    assert!(world.borrow_component_vec(HEALTH).unwrap().is_none());
}

#[test]
fn empty_world_query_is_empty() {
    let world: World<Comp> = World::new();
    let q = Query::fetch(&world, &Shape::new().read(POSITION)).unwrap();
    assert_eq!(q.len(), 0);
    assert!(q.is_empty());
}

#[test]
fn storage_width_tracks_entity_count() {
    let mut world: World<Comp> = World::new();
    world.new_entity();
    world
        .add_component_to_entity(0, POSITION, Comp::Position { x: 7 })
        .unwrap();
    let slots = world.borrow_component_vec(POSITION).unwrap().unwrap();
    assert_eq!(slots.len(), 1);
    world.release_component_vec(POSITION);

    world.new_entity();
    world.new_entity();
    let slots = world.borrow_component_vec(POSITION).unwrap().unwrap();
    assert_eq!(slots.len(), 3);
    assert_eq!(slots[0], Some(Comp::Position { x: 7 }));
    assert_eq!(slots[1], None);
    assert_eq!(slots[2], None);
    world.release_component_vec(POSITION);

    world
        .add_component_to_entity(1, VELOCITY, Comp::Velocity { v: 4 })
        .unwrap();
    let slots = world.borrow_component_vec(VELOCITY).unwrap().unwrap();
    assert_eq!(slots.len(), 3);
    assert_eq!(slots[1], Some(Comp::Velocity { v: 4 }));
    world.release_component_vec(VELOCITY);
}

#[test]
fn exclusive_borrow_conflicts_reported() {
    let mut world: World<Comp> = World::new();
    world.new_entity();
    world
        .add_component_to_entity(0, POSITION, Comp::Position { x: 1 })
        .unwrap();

    let checkout = world.borrow_component_vec_mut(POSITION).unwrap().unwrap();
    let second = world.borrow_component_vec_mut(POSITION);
    assert_eq!(second.unwrap_err().key, POSITION);
    let shared = world.borrow_component_vec(POSITION);
    assert!(shared.is_err());
    let added = world.add_component_to_entity(0, POSITION, Comp::Position { x: 9 });
    assert!(added.is_err());

    world.release_component_vec_mut(POSITION, checkout);
    assert!(world.borrow_component_vec(POSITION).is_ok());
    world.release_component_vec(POSITION);
}

#[test]
fn shared_borrow_blocks_exclusive() {
    let mut world: World<Comp> = World::new();
    world.new_entity();
    world
        .add_component_to_entity(0, POSITION, Comp::Position { x: 1 })
        .unwrap();

    let _snapshot = world.borrow_component_vec(POSITION).unwrap().unwrap();
    let exclusive = world.borrow_component_vec_mut(POSITION);
    assert_eq!(exclusive.unwrap_err().key, POSITION);
    // a second reader is fine
    assert!(world.borrow_component_vec(POSITION).is_ok());
    world.release_component_vec(POSITION);
    world.release_component_vec(POSITION);
    assert!(world.borrow_component_vec_mut(POSITION).is_ok());
}

#[test]
fn resource_borrow_conflicts_reported() {
    let mut world: World<Comp> = World::new();
    world.add_resource(COUNTER, Comp::Counter(0));

    let guard = world.get_resource_mut(COUNTER).unwrap().unwrap();
    assert_eq!(world.get_resource_mut(COUNTER).unwrap_err().key, COUNTER);
    assert_eq!(world.get_resource(COUNTER).unwrap_err().key, COUNTER);
    world.release_resource_mut(COUNTER, guard);

    let _shared = world.get_resource(COUNTER).unwrap().unwrap();
    assert!(world.get_resource_mut(COUNTER).is_err());
    world.release_resource(COUNTER);
    assert!(world.get_resource_mut(COUNTER).is_ok());
}

#[test]
fn absent_resource_is_none_not_error() {
    let mut world: World<Comp> = World::new();
    assert!(world.get_resource(COUNTER).unwrap().is_none());
    assert!(world.get_resource_mut(COUNTER).unwrap().is_none());
}

#[test]
fn query_self_conflict_fails_fast() {
    let mut world: World<Comp> = World::new();
    world.new_entity();
    world
        .add_component_to_entity(0, POSITION, Comp::Position { x: 1 })
        .unwrap();

    let aliasing = Shape::new().write(POSITION).read(POSITION);
    let q = Query::fetch(&world, &aliasing);
    assert_eq!(q.unwrap_err().key, POSITION);

    // reading the same kind twice without write intent is allowed
    let q = Query::fetch(&world, &Shape::new().read(POSITION).read(POSITION)).unwrap();
    assert_eq!(q.len(), 1);
}

#[test]
fn query_blocked_by_live_borrow() {
    let mut world: World<Comp> = World::new();
    world.new_entity();
    world
        .add_component_to_entity(0, POSITION, Comp::Position { x: 1 })
        .unwrap();

    let snapshot = world.borrow_component_vec(POSITION).unwrap().unwrap();
    // shared query access coexists with a live reader
    assert!(Query::fetch(&world, &Shape::new().read(POSITION)).is_ok());
    // write intent does not
    let q = Query::fetch(&world, &Shape::new().write(POSITION));
    assert_eq!(q.unwrap_err().key, POSITION);
    drop(snapshot);
    world.release_component_vec(POSITION);
    assert!(Query::fetch(&world, &Shape::new().write(POSITION)).is_ok());
}

#[test]
fn query_restartable() {
    let mut world: World<Comp> = World::new();
    for i in 0..4u64 {
        let id = world.new_entity();
        if i % 2 == 0 {
            world
                .add_component_to_entity(id, POSITION, Comp::Position { x: i })
                .unwrap();
        }
    }
    let q = Query::fetch(&world, &Shape::new().read(POSITION)).unwrap();
    let mut first = Vec::new();
    for i in 0..q.len() {
        first.push((q.row(i).entity, q.row(i).items.clone()));
    }
    let mut second = Vec::new();
    for i in 0..q.len() {
        second.push((q.row(i).entity, q.row(i).items.clone()));
    }
    assert_eq!(first, second);
    assert_eq!(
        first,
        vec![
            (0, vec![Comp::Position { x: 0 }]),
            (2, vec![Comp::Position { x: 2 }]),
        ]
    );
}

#[test]
fn checked_out_slots_write_back() {
    let mut world: World<Comp> = World::new();
    world.new_entity();
    world.new_entity();
    world
        .add_component_to_entity(0, POSITION, Comp::Position { x: 1 })
        .unwrap();

    let mut slots = world.borrow_component_vec_mut(POSITION).unwrap().unwrap();
    slots[1] = Some(Comp::Position { x: 8 });
    world.release_component_vec_mut(POSITION, slots);

    let q = Query::fetch(&world, &Shape::new().read(POSITION)).unwrap();
    assert_eq!(q.len(), 2);
    assert_eq!(q.row(1).entity, 1);
    assert_eq!(q.row(1).items, vec![Comp::Position { x: 8 }]);
}

#[test]
fn join_order_is_ascending_over_three_kinds() {
    let mut world: World<Comp> = World::new();
    for _ in 0..5 {
        world.new_entity();
    }
    for id in [4usize, 1, 3] {
        world
            .add_component_to_entity(id, POSITION, Comp::Position { x: id as u64 })
            .unwrap();
        world
            .add_component_to_entity(id, VELOCITY, Comp::Velocity { v: 2 * id as u64 })
            .unwrap();
    }
    world
        .add_component_to_entity(2, POSITION, Comp::Position { x: 2 })
        .unwrap();

    let q = Query::fetch(&world, &Shape::new().read(POSITION).read(VELOCITY)).unwrap();
    let entities: Vec<usize> = (0..q.len()).map(|i| q.row(i).entity).collect();
    assert_eq!(entities, vec![1, 3, 4]);
    assert_eq!(
        q.row(0).items,
        vec![Comp::Position { x: 1 }, Comp::Velocity { v: 2 }]
    );
}

#[test]
fn borrow_state_getter_reports_flags() {
    let mut world: World<Comp> = World::new();
    world.new_entity();
    world
        .add_component_to_entity(0, POSITION, Comp::Position { x: 1 })
        .unwrap();
    assert_eq!(world.storage_borrow_state(POSITION), BorrowState::Free);
    let snapshot = world.borrow_component_vec(POSITION).unwrap().unwrap();
    assert_eq!(world.storage_borrow_state(POSITION), BorrowState::Shared(1));
    drop(snapshot);
    world.release_component_vec(POSITION);
    assert_eq!(world.storage_borrow_state(POSITION), BorrowState::Free);
    let checkout = world.borrow_component_vec_mut(POSITION).unwrap().unwrap();
    assert_eq!(world.storage_borrow_state(POSITION), BorrowState::Exclusive);
    world.release_component_vec_mut(POSITION, checkout);
    assert_eq!(world.storage_borrow_state(POSITION), BorrowState::Free);
}

#[test]
fn component_at_reads_single_slot() {
    let mut world: World<Comp> = World::new();
    world.new_entity();
    world.new_entity();
    world
        .add_component_to_entity(1, VELOCITY, Comp::Velocity { v: 3 })
        .unwrap();
    assert_eq!(world.component_at(VELOCITY, 1), Some(Comp::Velocity { v: 3 }));
    assert_eq!(world.component_at(VELOCITY, 0), None);
    assert_eq!(world.component_at(HEALTH, 0), None);
    assert_eq!(world.num_entities(), 2);
}

#[test]
fn empty_shape_matches_every_entity() {
    let mut world: World<Comp> = World::new();
    world.new_entity();
    world.new_entity();
    // a join over zero storages holds vacuously at every entity
    let q = Query::fetch(&world, &Shape::new()).unwrap();
    assert_eq!(q.len(), 2);
    assert_eq!(q.row(0).entity, 0);
    assert_eq!(q.row(1).entity, 1);
    assert!(q.row(0).items.is_empty());
}

#[test]
fn widening_during_checkout_keeps_storage_width() {
    let mut world: World<Comp> = World::new();
    world.new_entity();
    world
        .add_component_to_entity(0, POSITION, Comp::Position { x: 1 })
        .unwrap();

    let checkout = world.borrow_component_vec_mut(POSITION).unwrap().unwrap();
    assert_eq!(checkout.len(), 1);
    // entities created while the storage is checked out
    world.new_entity();
    world.new_entity();
    world.release_component_vec_mut(POSITION, checkout);

    // the checked-in slots are fitted back to one slot per entity
    let slots = world.borrow_component_vec(POSITION).unwrap().unwrap();
    assert_eq!(slots.len(), 3);
    assert_eq!(slots[0], Some(Comp::Position { x: 1 }));
    assert_eq!(slots[1], None);
    assert_eq!(slots[2], None);
    world.release_component_vec(POSITION);
}

#[test]
fn release_without_borrow_changes_nothing() {
    let mut world: World<Comp> = World::new();
    world.new_entity();
    world
        .add_component_to_entity(0, POSITION, Comp::Position { x: 1 })
        .unwrap();
    world.release_component_vec(POSITION);
    world.release_component_vec_mut(POSITION, Vec::new());
    assert_eq!(world.storage_borrow_state(POSITION), BorrowState::Free);
    let slots = world.borrow_component_vec(POSITION).unwrap().unwrap();
    assert_eq!(slots[0], Some(Comp::Position { x: 1 }));
    world.release_component_vec(POSITION);
}

#[test]
fn component_storage_grows_slot_by_slot() {
    let mut storage: ComponentStorage<Comp> = ComponentStorage::new();
    assert_eq!(storage.slot_count(), 0);
    storage.push_none();
    storage.push_none();
    assert_eq!(storage.slot_count(), 2);
}
