use parsecs::entity::Entity;
use parsecs::error::EcsError;
use parsecs::world::World;
use std::any::{Any, TypeId};
use std::ops::DerefMut;

type Component = Box<dyn Any>;

#[derive(Debug, Default, PartialEq, Copy, Clone)]
pub struct Position {
    x: f32,
    y: f32,
}

#[derive(Debug, Default, PartialEq, Eq, Copy, Clone)]
pub struct Health {
    value: u8,
}

/// The component kind that stands for the type `T` in these tests.
fn kind<T: 'static>() -> usize {
    if TypeId::of::<T>() == TypeId::of::<Position>() {
        0
    } else {
        1
    }
}

fn add<T: 'static>(world: &mut World<Component>, entity: Entity, component: T) -> Result<(), EcsError> {
    world.add_component(kind::<T>(), entity, Box::new(component))
}

fn get<T: 'static>(world: &World<Component>, entity: Entity) -> Option<&T> {
    world.get_component(kind::<T>(), entity).and_then(|component| component.downcast_ref::<T>())
}

fn get_mut<T: 'static>(world: &mut World<Component>, entity: Entity) -> Option<&mut T> {
    world.get_component_mut(kind::<T>(), entity).and_then(|component| component.downcast_mut::<T>())
}

/// A world whose first entity holds a default `Position` and a default
/// `Health`.
fn create_test_world() -> World<Component> {
    let mut world = World::default();
    let entity = world.create_entity();
    add(&mut world, entity, Position::default()).unwrap();
    add(&mut world, entity, Health::default()).unwrap();
    world
}

#[test]
fn ecs_add_component() -> Result<(), EcsError> {
    let mut world = World::default();
    let entity = world.create_entity();
    assert_eq!(get::<Position>(&world, entity), None);
    assert_eq!(get::<Health>(&world, entity), None);
    add(&mut world, entity, Position::default())?;
    add(&mut world, entity, Health { value: 10 })?;
    get_mut::<Health>(&mut world, entity).unwrap().value = 0;
    assert_eq!(*get::<Position>(&world, entity).unwrap(), Position::default());
    assert_eq!(*get::<Health>(&world, entity).unwrap(), Health { value: 0 });
    Ok(())
}

#[test]
fn ecs_remove_component() -> Result<(), EcsError> {
    let mut world = World::new();
    let entity = world.create_entity();
    let position = Position { x: 10.0, y: 10.0 };
    add(&mut world, entity, position)?;
    assert_eq!(get::<Position>(&world, entity), Some(&position));
    world.remove_component(kind::<Position>(), entity)?;
    assert!(get::<Position>(&world, entity).is_none());
    Ok(())
}

#[test]
fn ecs_get_component() {
    let entity = Entity::default();
    assert_eq!(*get::<Position>(&create_test_world(), entity).unwrap(), Position::default());
}

#[test]
fn ecs_get_component_mut() {
    let mut world = create_test_world();
    let entity = Entity::default();
    get_mut::<Position>(&mut world, entity).unwrap().deref_mut().x = 10.0;
    let actual = get::<Position>(&world, entity).unwrap();
    assert_eq!(*actual, Position { x: 10.0, y: 0.0 });
}

#[test]
fn ecs_system() -> Result<(), EcsError> {
    let mut world = World::default();
    let entity = world.create_entity();
    add(&mut world, entity, Position::default())?;
    add(&mut world, entity, Health { value: 10 })?;

    for matched in world.query(&[kind::<Position>(), kind::<Health>()]) {
        let position = get_mut::<Position>(&mut world, matched).unwrap();
        position.x = 10.0;
        position.y = 10.0;
    }

    assert_eq!(*get::<Position>(&world, entity).unwrap(), Position { x: 10.0, y: 10.0 });

    Ok(())
}
