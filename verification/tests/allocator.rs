use parsecs::entity::{Entity, EntityAllocator};

#[test]
fn allocate_issues_fresh_indices_at_generation_zero() {
    let mut allocator = EntityAllocator::new();
    assert_eq!(allocator.len(), 0);
    assert_eq!(allocator.allocate(), Entity { index: 0, generation: 0 });
    assert_eq!(allocator.allocate(), Entity { index: 1, generation: 0 });
    assert_eq!(allocator.allocate(), Entity { index: 2, generation: 0 });
    assert_eq!(allocator.len(), 3);
}

#[test]
fn a_handle_is_live_from_allocation_to_deallocation() {
    let mut allocator = EntityAllocator::default();
    let handle = allocator.allocate();
    assert!(allocator.in_use(handle));
    allocator.deallocate(handle);
    assert!(!allocator.in_use(handle));
}

#[test]
fn a_reused_index_carries_the_next_generation() {
    let mut allocator = EntityAllocator::new();
    let first = allocator.allocate();
    let second = allocator.allocate();
    allocator.deallocate(first);
    let reused = allocator.allocate();
    assert_eq!(reused, Entity { index: 0, generation: 1 });
    assert!(reused.generation > first.generation);
    assert!(!allocator.in_use(first));
    assert!(allocator.in_use(reused));
    assert!(allocator.in_use(second));
}

#[test]
fn the_last_freed_index_is_reused_first() {
    let mut allocator = EntityAllocator::new();
    let handles: Vec<Entity> = (0..4).map(|_| allocator.allocate()).collect();
    allocator.deallocate(handles[1]);
    allocator.deallocate(handles[3]);
    allocator.deallocate(handles[0]);
    assert_eq!(allocator.allocate(), Entity { index: 0, generation: 1 });
    assert_eq!(allocator.allocate(), Entity { index: 3, generation: 1 });
    assert_eq!(allocator.allocate(), Entity { index: 1, generation: 1 });
    assert_eq!(allocator.allocate(), Entity { index: 4, generation: 0 });
}

#[test]
fn deallocating_a_handle_that_is_not_live_changes_nothing() {
    let mut allocator = EntityAllocator::new();
    let first = allocator.allocate();
    let second = allocator.allocate();

    // Out of range, and of a generation that was never issued.
    allocator.deallocate(Entity { index: 7, generation: 0 });
    allocator.deallocate(Entity { index: 1, generation: 3 });
    assert!(allocator.in_use(first));
    assert!(allocator.in_use(second));

    // Freed twice: the index must not be handed out twice.
    allocator.deallocate(first);
    allocator.deallocate(first);
    let reused = allocator.allocate();
    let fresh = allocator.allocate();
    assert_eq!(reused, Entity { index: 0, generation: 1 });
    assert_eq!(fresh, Entity { index: 2, generation: 0 });

    // A stale handle cannot free the entity that now lives at its index.
    allocator.deallocate(first);
    assert!(allocator.in_use(reused));
    assert_eq!(allocator.allocate(), Entity { index: 3, generation: 0 });
}

#[test]
fn entity_exists_looks_at_the_index_only() {
    let mut allocator = EntityAllocator::new();
    let handle = allocator.allocate();
    allocator.deallocate(handle);
    assert!(allocator.entity_exists(handle));
    assert!(allocator.entity_exists(Entity { index: 0, generation: 9 }));
    assert!(!allocator.entity_exists(Entity { index: 1, generation: 0 }));
}

#[test]
fn occupant_names_the_live_entity_of_an_index() {
    let mut allocator = EntityAllocator::new();
    let first = allocator.allocate();
    let second = allocator.allocate();
    allocator.deallocate(first);
    assert_eq!(allocator.occupant(0), None);
    assert_eq!(allocator.occupant(1), Some(second));
    assert_eq!(allocator.occupant(2), None);
    let reused = allocator.allocate();
    assert_eq!(allocator.occupant(0), Some(reused));
}

#[test]
fn reuses_left_counts_down_from_the_largest_generation() {
    let mut allocator = EntityAllocator::new();
    assert_eq!(allocator.reuses_left(0), None);
    let first = allocator.allocate();
    assert_eq!(allocator.reuses_left(0), Some(usize::MAX));
    allocator.deallocate(first);
    let reused = allocator.allocate();
    assert_eq!(reused.generation, 1);
    assert_eq!(allocator.reuses_left(0), Some(usize::MAX - 1));
}
