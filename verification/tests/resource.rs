use parsecs::resource::ResourceMap;
use parsecs::world::World;
use std::any::{Any, TypeId};

struct DeltaTime(f64);

struct Input {
    esc_key_down: bool,
}

/// The resource kind that stands for the type `T` in these tests.
fn kind<T: 'static>() -> usize {
    if TypeId::of::<T>() == TypeId::of::<DeltaTime>() {
        0
    } else {
        1
    }
}

fn add<T: 'static>(resources: &mut ResourceMap<Box<dyn Any>>, value: T) {
    resources.add(kind::<T>(), Box::new(value));
}

fn get<T: 'static>(resources: &ResourceMap<Box<dyn Any>>) -> Option<&T> {
    resources.get(kind::<T>()).and_then(|any| any.downcast_ref())
}

fn get_mut<T: 'static>(resources: &mut ResourceMap<Box<dyn Any>>) -> Option<&mut T> {
    resources.get_mut(kind::<T>()).and_then(|any| any.downcast_mut())
}

#[test]
fn anymap() {
    let delta_time = 0.01;
    let mut anymap = ResourceMap::new();
    add(&mut anymap, DeltaTime(delta_time));
    assert_eq!(get::<DeltaTime>(&anymap).unwrap().0, delta_time);

    let delta_time = 0.02;
    if let Some(entry) = get_mut::<DeltaTime>(&mut anymap) {
        entry.0 = delta_time;
    }
    assert_eq!(get::<DeltaTime>(&anymap).unwrap().0, delta_time);

    add(&mut anymap, Input { esc_key_down: false });
    assert_eq!(get::<Input>(&anymap).unwrap().esc_key_down, false);

    anymap.remove(kind::<DeltaTime>());
    assert!(get::<DeltaTime>(&anymap).is_none());
}

#[test]
fn adding_a_resource_replaces_the_earlier_one_of_its_kind() {
    let mut resources: ResourceMap<u32> = ResourceMap::default();
    assert_eq!(resources.get(7), None);
    resources.add(7, 1);
    resources.add(8, 2);
    resources.add(7, 3);
    assert_eq!(resources.get(7), Some(&3));
    assert_eq!(resources.get(8), Some(&2));
    assert_eq!(resources.get_mut(9), None);
    resources.remove(9);
    resources.remove(8);
    assert_eq!(resources.get(8), None);
    assert_eq!(resources.get(7), Some(&3));
}

#[test]
fn the_world_carries_its_resources() {
    let mut world: World<u32> = World::new();
    assert_eq!(world.resources().get(0), None);
    world.resources_mut().add(0, 14);
    let entity = world.create_entity();
    world.add_component(0, entity, 5).unwrap();
    *world.resources_mut().get_mut(0).unwrap() += 1;
    assert_eq!(world.resources().get(0), Some(&15));
    assert_eq!(world.get_component(0, entity), Some(&5));
}
