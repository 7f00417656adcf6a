use parsecs::vec::{GenerationError, GenerationalVec, Handle, Slot};

fn handle(index: usize, generation: usize) -> Handle {
    Handle { index, generation }
}

#[test]
fn handles_are_equal_when_both_fields_are() {
    assert_eq!(Handle::default(), handle(0, 0));
    assert_eq!(handle(3, 1), handle(3, 1));
    assert_ne!(handle(3, 1), handle(3, 2));
    assert_ne!(handle(3, 1), handle(4, 1));
}

#[test]
fn a_slot_keeps_its_value_and_generation() {
    let slot = Slot::new("value", 4);
    assert_eq!(slot.generation(), 4);
    assert_eq!(slot.value, "value");
}

#[test]
fn a_write_grows_the_storage_with_empty_slots() {
    let mut storage: GenerationalVec<char> = GenerationalVec::new(Vec::new());
    assert_eq!(storage.len(), 0);
    assert_eq!(storage.add_to(handle(3, 0), 'a'), Ok(()));
    assert_eq!(storage.len(), 4);
    assert!(storage[0].is_none() && storage[1].is_none() && storage[2].is_none());
    assert_eq!(storage.get(handle(3, 0)), Some(&'a'));

    // A write below the length leaves the length alone.
    assert_eq!(storage.add_to(handle(1, 0), 'b'), Ok(()));
    assert_eq!(storage.len(), 4);
    assert_eq!(storage.get(handle(1, 0)), Some(&'b'));
    assert_eq!(storage.get(handle(3, 0)), Some(&'a'));
}

#[test]
fn a_stale_write_is_refused_and_changes_nothing() {
    let mut storage: GenerationalVec<&str> = GenerationalVec::new(Vec::new());
    assert_eq!(storage.add_to(handle(0, 0), "v0"), Ok(()));
    assert_eq!(storage.add_to(handle(0, 1), "v1"), Ok(()));
    assert_eq!(
        storage.add_to(handle(0, 0), "stale"),
        Err(GenerationError { handle: handle(0, 0) })
    );
    assert_eq!(storage.get(handle(0, 1)), Some(&"v1"));
    assert_eq!(storage.get(handle(0, 0)), None);
    assert_eq!(storage.len(), 1);
    assert_eq!(storage[0].as_ref().unwrap().generation(), 1);
}

#[test]
fn a_write_of_the_same_or_a_newer_generation_replaces_the_value() {
    let mut storage: GenerationalVec<u8> = GenerationalVec::new(Vec::new());
    assert_eq!(storage.add_to(handle(2, 5), 1), Ok(()));
    assert_eq!(storage.add_to(handle(2, 5), 2), Ok(()));
    assert_eq!(storage.get(handle(2, 5)), Some(&2));
    assert_eq!(storage.add_to(handle(2, 9), 3), Ok(()));
    assert_eq!(storage.get(handle(2, 9)), Some(&3));
    assert_eq!(storage.get(handle(2, 5)), None);
}

#[test]
fn get_needs_the_generation_that_wrote_the_slot() {
    let storage = GenerationalVec::new(vec![None, Some(Slot::new(7u8, 2))]);
    assert_eq!(storage.get(handle(1, 2)), Some(&7));
    assert_eq!(storage.get(handle(1, 1)), None);
    assert_eq!(storage.get(handle(1, 3)), None);
    assert_eq!(storage.get(handle(0, 0)), None);
    assert_eq!(storage.get(handle(2, 2)), None);
}

#[test]
fn get_mut_writes_through_to_the_slot() {
    let mut storage = GenerationalVec::new(vec![Some(Slot::new(7u8, 2)), Some(Slot::new(8u8, 0))]);
    *storage.get_mut(handle(0, 2)).unwrap() = 70;
    assert_eq!(storage.get_mut(handle(0, 1)), None);
    assert_eq!(storage.get_mut(handle(5, 0)), None);
    assert_eq!(storage.get(handle(0, 2)), Some(&70));
    assert_eq!(storage.get(handle(1, 0)), Some(&8));
}

#[test]
fn remove_empties_the_slot_whatever_its_generation() {
    let mut storage: GenerationalVec<u8> = GenerationalVec::new(Vec::new());
    storage.add_to(handle(1, 4), 9).unwrap();
    storage.remove_from(handle(6, 0));
    assert_eq!(storage.len(), 2);
    assert_eq!(storage.get(handle(1, 4)), Some(&9));

    // No generation check: an older handle empties the slot too.
    storage.remove_from(handle(1, 0));
    assert_eq!(storage.get(handle(1, 4)), None);
    assert!(storage[1].is_none());
    assert_eq!(storage.len(), 2);

    // An emptied slot accepts any generation again.
    assert_eq!(storage.add_to(handle(1, 0), 3), Ok(()));
    assert_eq!(storage.get(handle(1, 0)), Some(&3));
}

#[test]
fn the_raw_slots_can_be_walked_in_index_order() {
    let mut storage: GenerationalVec<u8> = GenerationalVec::new(Vec::new());
    storage.add_to(handle(2, 1), 20).unwrap();
    storage.add_to(handle(0, 3), 10).unwrap();
    let seen: Vec<Option<(u8, usize)>> =
        storage.iter().map(|slot| slot.as_ref().map(|slot| (slot.value, slot.generation()))).collect();
    assert_eq!(seen, vec![Some((10, 3)), None, Some((20, 1))]);

    for slot in storage.iter_mut().flatten() {
        slot.value += 1;
    }
    assert_eq!(storage.get(handle(0, 3)), Some(&11));
    assert_eq!(storage.get(handle(2, 1)), Some(&21));
}
