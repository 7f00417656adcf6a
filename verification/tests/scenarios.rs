use parsecs::entity::Entity;
use parsecs::error::{EcsError, EntityGenerationError, EntityNotFoundError};
use parsecs::vec::Slot;
use parsecs::world::World;

const NAME: usize = 10;
const LEVEL: usize = 20;

#[test]
fn a_component_cannot_be_added_to_an_entity_that_is_not_live() {
    let mut world: World<&str> = World::new();
    let never = Entity { index: 0, generation: 0 };
    assert_eq!(
        world.add_component(NAME, never, "ghost"),
        Err(EcsError::EntityNotFound(EntityNotFoundError { entity: never }))
    );
    assert!(!world.is_registered(NAME));

    let entity = world.create_entity();
    let wrong_generation = Entity { index: 0, generation: 1 };
    assert_eq!(
        world.add_component(NAME, wrong_generation, "ghost"),
        Err(EcsError::EntityNotFound(EntityNotFoundError { entity: wrong_generation }))
    );

    world.remove_entity(entity);
    assert_eq!(
        world.add_component(NAME, entity, "ghost"),
        Err(EcsError::EntityNotFound(EntityNotFoundError { entity }))
    );
    assert_eq!(
        world.remove_component(NAME, entity),
        Err(EcsError::EntityNotFound(EntityNotFoundError { entity }))
    );
    assert!(!world.entity_exists(entity));
}

#[test]
fn a_stale_handle_cannot_touch_the_component_of_its_successor() {
    let mut world: World<&str> = World::new();
    let old = world.create_entity();
    assert_eq!(old, Entity { index: 0, generation: 0 });
    world.add_component(NAME, old, "v0").unwrap();

    world.remove_entity(old);
    let new = world.create_entity();
    assert_eq!(new, Entity { index: 0, generation: 1 });
    assert_eq!(world.get_component(NAME, new), None);
    world.add_component(NAME, new, "v1").unwrap();

    // The world turns the stale handle away because it is not live.
    assert_eq!(
        world.add_component(NAME, old, "stale"),
        Err(EcsError::EntityNotFound(EntityNotFoundError { entity: old }))
    );
    assert_eq!(world.remove_component(NAME, old), Err(EcsError::EntityNotFound(EntityNotFoundError { entity: old })));
    assert_eq!(world.get_component(NAME, old), None);
    assert_eq!(world.get_component_mut(NAME, old), None);
    assert_eq!(world.get_component(NAME, new), Some(&"v1"));

    // The table itself turns it away because of its generation.
    assert_eq!(
        world.get_component_vec_mut(NAME).add_to(old, "stale"),
        Err(EntityGenerationError { entity: old })
    );
    assert_eq!(world.get_component(NAME, new), Some(&"v1"));
}

#[test]
fn a_live_entity_meets_a_generation_conflict_only_after_a_direct_write() {
    let mut world: World<&str> = World::new();
    let entity = world.create_entity();
    world.add_component(NAME, entity, "mine").unwrap();

    // Written past the world: a value of a generation that is yet to come.
    let later = Entity { index: entity.index, generation: 2 };
    world.get_component_vec_mut(NAME).add_to(later, "later").unwrap();

    assert_eq!(
        world.add_component(NAME, entity, "again"),
        Err(EcsError::GenerationConflict(EntityGenerationError { entity }))
    );
    assert_eq!(world.get_component(NAME, entity), None);
    assert_eq!(world.get_component_vec(NAME).get(later), Some(&"later"));
}

#[test]
fn a_thousand_entities_are_recycled_under_the_next_generation() {
    let mut world: World<u8> = World::new();
    let first = world.create_entities(1000);
    assert_eq!(first.len(), 1000);
    for (index, entity) in first.iter().enumerate() {
        assert_eq!(*entity, Entity { index, generation: 0 });
    }

    world.remove_entities(&first);
    assert!(first.iter().all(|entity| !world.entity_exists(*entity)));

    let second = world.create_entities(1000);
    assert_eq!(second.len(), 1000);
    let mut indices: Vec<usize> = second.iter().map(|entity| entity.index).collect();
    indices.sort();
    assert_eq!(indices, (0..1000).collect::<Vec<usize>>());
    assert!(second.iter().all(|entity| entity.generation == 1));
    assert!(second.iter().all(|entity| world.entity_exists(*entity)));
    assert!(first.iter().all(|entity| !world.entity_exists(*entity)));

    // The last index freed is the first one issued again.
    assert_eq!(second[0], Entity { index: 999, generation: 1 });
    assert_eq!(second[999], Entity { index: 0, generation: 1 });
}

#[test]
fn adding_and_removing_touch_one_component_only() {
    let mut world: World<&str> = World::new();
    let entities = world.create_entities(2);
    world.add_component(NAME, entities[0], "zero").unwrap();
    world.add_component(NAME, entities[1], "one").unwrap();
    world.add_component(LEVEL, entities[0], "high").unwrap();

    world.add_component(NAME, entities[0], "nought").unwrap();
    assert_eq!(world.get_component(NAME, entities[0]), Some(&"nought"));
    assert_eq!(world.get_component(NAME, entities[1]), Some(&"one"));
    assert_eq!(world.get_component(LEVEL, entities[0]), Some(&"high"));
    assert_eq!(world.get_component(LEVEL, entities[1]), None);

    world.remove_component(NAME, entities[0]).unwrap();
    assert!(!world.has_component(NAME, entities[0]));
    assert!(world.has_component(NAME, entities[1]));
    assert!(world.has_component(LEVEL, entities[0]));
}

#[test]
fn removing_a_component_of_a_kind_without_a_table_succeeds() {
    let mut world: World<&str> = World::new();
    let entity = world.create_entity();
    assert_eq!(world.remove_component(NAME, entity), Ok(()));
    assert!(!world.is_registered(NAME));
    assert_eq!(world.hash_entity(entity), 0);

    world.add_component(NAME, entity, "named").unwrap();
    assert!(world.is_registered(NAME));
    assert_eq!(world.remove_component(NAME, entity), Ok(()));
    assert_eq!(world.remove_component(NAME, entity), Ok(()));
    assert!(world.is_registered(NAME));
    assert_eq!(world.get_component(NAME, entity), None);
}

#[test]
fn removing_an_entity_leaves_its_slots_to_be_overwritten() {
    let mut world: World<&str> = World::new();
    let entity = world.create_entity();
    world.add_component(NAME, entity, "left behind").unwrap();
    world.remove_entity(entity);

    // The slot is still there, and nobody reads it through the world.
    let slot: &Option<Slot<&str>> = &world.get_component_vec(NAME)[0];
    assert_eq!(slot.as_ref().map(|slot| (slot.value, slot.generation())), Some(("left behind", 0)));
    assert_eq!(world.get_component(NAME, entity), None);
    assert!(!world.has_component(NAME, entity));

    let successor = world.create_entity();
    assert_eq!(successor.index, entity.index);
    assert_eq!(world.get_component(NAME, successor), None);
    world.add_component(NAME, successor, "fresh").unwrap();
    assert_eq!(world.get_component(NAME, successor), Some(&"fresh"));
    assert_eq!(world.get_component_vec(NAME).len(), 1);
}

#[test]
fn removing_entities_skips_those_that_are_not_live() {
    let mut world: World<u8> = World::new();
    let entities = world.create_entities(3);
    world.remove_entities(&[entities[2], entities[2], Entity { index: 9, generation: 0 }, entities[0]]);
    assert!(!world.entity_exists(entities[0]));
    assert!(world.entity_exists(entities[1]));
    assert!(!world.entity_exists(entities[2]));
    assert_eq!(world.create_entity(), Entity { index: 0, generation: 1 });
    assert_eq!(world.create_entity(), Entity { index: 2, generation: 1 });
    assert_eq!(world.create_entity(), Entity { index: 3, generation: 0 });
    assert_eq!(world.create_entities(0), vec![]);
}

#[test]
fn the_hash_has_one_bit_per_table_in_order_of_creation() {
    let mut world: World<u8> = World::new();
    let entities = world.create_entities(3);
    world.add_component(LEVEL, entities[0], 1).unwrap();
    world.add_component(NAME, entities[1], 2).unwrap();
    world.add_component(NAME, entities[2], 3).unwrap();
    world.add_component(LEVEL, entities[2], 4).unwrap();
    world.add_component(30, entities[1], 5).unwrap();

    assert_eq!(world.table_count(), 3);
    assert_eq!(world.hash_entity(entities[0]), 0b001);
    assert_eq!(world.hash_entity(entities[1]), 0b110);
    assert_eq!(world.hash_entity(entities[2]), 0b011);
    assert_eq!(world.hash_entity(Entity { index: 8, generation: 0 }), 0);

    for kind in 100..113 {
        world.add_component(kind, entities[0], 0).unwrap();
    }
    assert_eq!(world.table_count(), 16);
    assert_eq!(world.hash_entity(entities[0]), 0b1111_1111_1111_1001);
    assert_eq!(world.hash_entity(entities[1]), 0b110);
}

#[test]
fn a_table_can_be_read_and_written_as_a_whole() {
    let mut world: World<u8> = World::new();
    let entities = world.create_entities(3);
    world.add_component(LEVEL, entities[0], 1).unwrap();
    world.add_component(LEVEL, entities[2], 3).unwrap();
    assert!(world.is_registered(LEVEL));

    let levels: Vec<Option<u8>> =
        world.get_component_vec(LEVEL).iter().map(|slot| slot.as_ref().map(|slot| slot.value)).collect();
    assert_eq!(levels, vec![Some(1), None, Some(3)]);

    for slot in world.get_component_vec_mut(LEVEL).iter_mut().flatten() {
        slot.value *= 10;
    }
    world.get_component_vec_mut(LEVEL).add_to(entities[1], 20).unwrap();
    assert_eq!(world.get_component(LEVEL, entities[0]), Some(&10));
    assert_eq!(world.get_component(LEVEL, entities[1]), Some(&20));
    assert_eq!(world.get_component(LEVEL, entities[2]), Some(&30));
}
