//! The handle allocator: issues and recycles entity handles and is the sole
//! authority on which handles are live.

use crate::vec::Handle;
use vstd::prelude::*;

verus! {

/// An entity is identified by a generational handle.
pub type Entity = Handle;

/// The allocator's record of one index.
pub struct Allocation {
    pub in_use: bool,
    pub generation: usize,
}

/// The mathematical state of an allocator: one record per index ever issued,
/// and the stack of indices waiting for reuse, most recently freed last.
pub struct AllocatorState {
    pub records: Seq<Allocation>,
    pub free: Seq<usize>,
}

impl AllocatorState {
    /// The state of an allocator that has issued nothing.
    pub open spec fn empty() -> AllocatorState {
        AllocatorState { records: Seq::empty(), free: Seq::empty() }
    }

    /// The index has been issued at some point (bounds only).
    pub open spec fn index_exists(self, index: usize) -> bool {
        index < self.records.len()
    }

    /// The handle names the current occupant of its index.
    pub open spec fn is_live(self, handle: Handle) -> bool {
        &&& handle.index < self.records.len()
        &&& self.records[handle.index as int].generation == handle.generation
        &&& self.records[handle.index as int].in_use
    }

    /// The entity that lives at `index`, if there is one.
    pub open spec fn occupant(self, index: int) -> Option<Handle> {
        if 0 <= index < self.records.len() && self.records[index].in_use {
            Some(Handle { index: index as usize, generation: self.records[index].generation })
        } else {
            None
        }
    }

    /// The index is free and its generation can still be incremented.
    ///
    /// An index whose generation has reached `usize::MAX` is retired when it
    /// is freed: it is never issued again, so a generation never wraps around.
    /// One index can therefore be issued `usize::MAX + 1` times in all.
    pub open spec fn reusable(self, index: int) -> bool {
        &&& 0 <= index < self.records.len()
        &&& !self.records[index].in_use
        &&& self.records[index].generation < usize::MAX
    }

    /// The free list holds exactly the reusable indices, each once.
    pub open spec fn wf(self) -> bool {
        &&& self.records.len() <= usize::MAX
        &&& self.free.no_duplicates()
        &&& forall|k: int|
            0 <= k < self.free.len() ==> self.reusable(#[trigger] self.free[k] as int)
        &&& forall|i: int| #[trigger] self.reusable(i) ==> self.free.contains(i as usize)
    }

    /// The state and the handle that result from one allocation: the most
    /// recently freed index with its generation incremented, or else a new
    /// index at generation 0.
    pub open spec fn allocate(self) -> (AllocatorState, Handle) {
        if self.free.len() > 0 {
            let index = self.free.last();
            let generation = (self.records[index as int].generation + 1) as usize;
            (
                AllocatorState {
                    records: self.records.update(
                        index as int,
                        Allocation { in_use: true, generation },
                    ),
                    free: self.free.drop_last(),
                },
                Handle { index, generation },
            )
        } else {
            (
                AllocatorState {
                    records: self.records.push(Allocation { in_use: true, generation: 0 }),
                    free: self.free,
                },
                Handle { index: self.records.len() as usize, generation: 0 },
            )
        }
    }

    /// The state after freeing `handle`. Freeing a handle that is not live
    /// changes nothing.
    pub open spec fn deallocate(self, handle: Handle) -> AllocatorState {
        if self.is_live(handle) {
            AllocatorState {
                records: self.records.update(
                    handle.index as int,
                    Allocation { in_use: false, generation: handle.generation },
                ),
                free: if handle.generation < usize::MAX {
                    self.free.push(handle.index)
                } else {
                    self.free
                },
            }
        } else {
            self
        }
    }

    /// The state and the handles that result from `count` allocations in a
    /// row, in the order in which the handles are issued.
    pub open spec fn allocate_many(self, count: nat) -> (AllocatorState, Seq<Handle>)
        decreases count,
    {
        if count == 0 {
            (self, Seq::empty())
        } else {
            let (state, handles) = self.allocate_many((count - 1) as nat);
            (state.allocate().0, handles.push(state.allocate().1))
        }
    }

    /// The state after the handles have been freed one after the other.
    pub open spec fn deallocate_all(self, handles: Seq<Handle>) -> AllocatorState
        decreases handles.len(),
    {
        if handles.len() == 0 {
            self
        } else {
            self.deallocate_all(handles.drop_last()).deallocate(handles.last())
        }
    }

    /// Allocation keeps the state well formed, unless it would need an index
    /// beyond `usize::MAX`.
    pub proof fn lemma_allocate_wf(self)
        requires
            self.wf(),
            self.free.len() > 0 || self.records.len() < usize::MAX,
        ensures
            self.allocate().0.wf(),
    {
        let next = self.allocate().0;
        if self.free.len() > 0 {
            let last = self.free.len() - 1;
            assert(self.reusable(self.free[last] as int));
            assert forall|k: int| 0 <= k < next.free.len() implies next.reusable(
                #[trigger] next.free[k] as int,
            ) by {
                assert(next.free[k] == self.free[k]);
                assert(self.reusable(self.free[k] as int));
                assert(self.free[k] != self.free[last]);
            }
            assert forall|i: int| #[trigger] next.reusable(i) implies next.free.contains(
                i as usize,
            ) by {
                assert(self.reusable(i));
                assert(self.free.contains(i as usize));
                let k = choose|k: int| 0 <= k < self.free.len() && self.free[k] == i as usize;
                assert(k != last);
                assert(next.free[k] == i as usize);
            }
        } else {
            assert forall|i: int| #[trigger] next.reusable(i) implies next.free.contains(
                i as usize,
            ) by {
                assert(self.reusable(i));
            }
            assert forall|k: int| 0 <= k < next.free.len() implies next.reusable(
                #[trigger] next.free[k] as int,
            ) by {
                assert(self.reusable(self.free[k] as int));
            }
        }
    }

    /// Freeing a handle keeps the state well formed.
    pub proof fn lemma_deallocate_wf(self, handle: Handle)
        requires
            self.wf(),
        ensures
            self.deallocate(handle).wf(),
    {
        let next = self.deallocate(handle);
        if self.is_live(handle) {
            assert(!self.free.contains(handle.index)) by {
                if self.free.contains(handle.index) {
                    let k = choose|k: int| 0 <= k < self.free.len() && self.free[k] == handle.index;
                    assert(self.reusable(self.free[k] as int));
                }
            }
            assert forall|k: int| 0 <= k < next.free.len() implies next.reusable(
                #[trigger] next.free[k] as int,
            ) by {
                if k < self.free.len() {
                    assert(next.free[k] == self.free[k]);
                    assert(self.reusable(self.free[k] as int));
                }
            }
            assert forall|i: int| #[trigger] next.reusable(i) implies next.free.contains(
                i as usize,
            ) by {
                if i == handle.index {
                    assert(next.free[next.free.len() - 1] == handle.index);
                } else {
                    assert(self.reusable(i));
                    let k = choose|k: int| 0 <= k < self.free.len() && self.free[k] == i as usize;
                    assert(next.free[k] == i as usize);
                }
            }
            assert(next.free.no_duplicates()) by {
                assert forall|a: int, b: int|
                    0 <= a < next.free.len() && 0 <= b < next.free.len() && a != b implies next.free[a]
                    != next.free[b] by {
                    if a < self.free.len() {
                        assert(next.free[a] == self.free[a]);
                    }
                    if b < self.free.len() {
                        assert(next.free[b] == self.free[b]);
                    }
                }
            }
        }
    }

    /// The handle was issued at some point: its index exists and the index has
    /// reached the handle's generation.
    pub open spec fn issued(self, handle: Handle) -> bool {
        &&& handle.index < self.records.len()
        &&& handle.generation <= self.records[handle.index as int].generation
    }

    /// Every live handle has been issued.
    pub proof fn lemma_live_is_issued(self, handle: Handle)
        requires
            self.is_live(handle),
        ensures
            self.issued(handle),
    {
    }

    /// Generations never decrease: a handle that has been issued stays issued
    /// through every allocation and every deallocation.
    pub proof fn lemma_issued_is_stable(self, handle: Handle, freed: Handle)
        requires
            self.wf(),
            self.issued(handle),
        ensures
            self.allocate().0.issued(handle),
            self.deallocate(freed).issued(handle),
    {
        if self.free.len() > 0 {
            assert(self.reusable(self.free[self.free.len() - 1] as int));
        }
    }

    /// A handle is live right after it is allocated and not live right after
    /// it is deallocated.
    pub proof fn lemma_live_until_deallocated(self)
        requires
            self.wf(),
        ensures
            ({
                let (allocated, handle) = self.allocate();
                &&& allocated.is_live(handle)
                &&& !allocated.deallocate(handle).is_live(handle)
            }),
    {
        if self.free.len() > 0 {
            assert(self.reusable(self.free[self.free.len() - 1] as int));
        }
    }

    /// When an allocation reuses the index of a handle that was issued
    /// earlier, the new handle's generation is strictly greater, the earlier
    /// handle is not live, and the new handle is live.
    pub proof fn lemma_reuse_outdates(self, earlier: Handle)
        requires
            self.wf(),
            self.issued(earlier),
            self.allocate().1.index == earlier.index,
        ensures
            self.allocate().1.generation > earlier.generation,
            !self.allocate().0.is_live(earlier),
            self.allocate().0.is_live(self.allocate().1),
    {
        if self.free.len() > 0 {
            assert(self.reusable(self.free[self.free.len() - 1] as int));
        }
    }

    /// Freeing a live handle and allocating next reuses its index under the
    /// following generation, unless the index was retired.
    pub proof fn lemma_last_freed_is_reused_first(self, handle: Handle)
        requires
            self.wf(),
            self.is_live(handle),
            handle.generation < usize::MAX,
        ensures
            self.deallocate(handle).allocate().1 == (Handle {
                index: handle.index,
                generation: (handle.generation + 1) as usize,
            }),
            !self.deallocate(handle).allocate().0.is_live(handle),
    {
    }
}

/// Issues entity handles, reusing freed indices under a new generation.
pub struct EntityAllocator {
    allocations: Vec<Allocation>,
    available_handles: Vec<usize>,
}

impl View for EntityAllocator {
    type V = AllocatorState;

    closed spec fn view(&self) -> AllocatorState {
        AllocatorState { records: self.allocations@, free: self.available_handles@ }
    }
}

impl EntityAllocator {
    /// The invariant that every operation keeps.
    pub open spec fn wf(&self) -> bool {
        self@.wf()
    }

    /// An allocator that has issued nothing.
    pub fn new() -> (allocator: Self)
        ensures
            allocator.wf(),
            allocator@ == AllocatorState::empty(),
    {
        EntityAllocator { allocations: Vec::new(), available_handles: Vec::new() }
    }

    /// Issues a handle: the most recently freed index under its next
    /// generation, or a new index at generation 0. The handle is live
    /// afterwards, and no handle that was live before has stopped being so.
    /// Every handle issued earlier for the same index has a strictly smaller
    /// generation and is not live.
    pub fn allocate(&mut self) -> (handle: Entity)
        requires
            old(self).wf(),
        ensures
            final(self).wf(),
            (final(self)@, handle) == old(self)@.allocate(),
            final(self)@.is_live(handle),
            !old(self)@.is_live(handle),
            forall|other: Handle| old(self)@.is_live(other) ==> final(self)@.is_live(other),
            forall|earlier: Handle|
                #[trigger] old(self)@.issued(earlier) && earlier.index == handle.index
                    ==> earlier.generation < handle.generation && !final(self)@.is_live(earlier),
    {
        proof {
            if self@.free.len() > 0 {
                assert(self@.reusable(self@.free[self@.free.len() - 1] as int));
            }
        }
        let handle = match self.available_handles.pop() {
            Some(index) => {
                self.allocations[index].generation += 1;
                self.allocations[index].in_use = true;
                Entity { index, generation: self.allocations[index].generation }
            },
            None => {
                self.allocations.push(Allocation { in_use: true, generation: 0 });
                Entity { index: self.allocations.len() - 1, generation: 0 }
            },
        };
        proof {
            assert(self@.records =~= old(self)@.allocate().0.records);
            assert(self@.free =~= old(self)@.allocate().0.free);
            old(self)@.lemma_allocate_wf();
        }
        handle
    }

    /// Frees the handle if it is live, so that its index can be issued again
    /// under the next generation; otherwise does nothing. The handle is not
    /// live afterwards. An index freed at generation `usize::MAX` is retired:
    /// it is not issued again.
    pub fn deallocate(&mut self, entity: Entity)
        requires
            old(self).wf(),
        ensures
            final(self).wf(),
            final(self)@ == old(self)@.deallocate(entity),
            !final(self)@.is_live(entity),
    {
        if !self.in_use(entity) {
            return ;
        }
        self.allocations[entity.index].in_use = false;
        if entity.generation < usize::MAX {
            self.available_handles.push(entity.index);
        }
        proof {
            assert(self@.records =~= old(self)@.deallocate(entity).records);
            assert(self@.free =~= old(self)@.deallocate(entity).free);
            old(self)@.lemma_deallocate_wf(entity);
        }
    }

    /// Whether the handle names the current occupant of its index.
    pub fn in_use(&self, entity: Entity) -> (live: bool)
        ensures
            live == self@.is_live(entity),
    {
        self.entity_exists(entity) && self.allocations[entity.index].generation
            == entity.generation && self.allocations[entity.index].in_use
    }

    /// Whether the handle's index has ever been issued, whatever its
    /// generation and whether or not it is live.
    pub fn entity_exists(&self, entity: Entity) -> (exists: bool)
        ensures
            exists == self@.index_exists(entity.index),
    {
        entity.index < self.allocations.len()
    }

    /// The entity that lives at `index`, if there is one.
    pub fn occupant(&self, index: usize) -> (entity: Option<Entity>)
        ensures
            entity == self@.occupant(index as int),
    {
        if index < self.allocations.len() && self.allocations[index].in_use {
            Some(Entity { index, generation: self.allocations[index].generation })
        } else {
            None
        }
    }

    /// The number of indices issued so far.
    pub fn len(&self) -> (count: usize)
        ensures
            count == self@.records.len(),
    {
        self.allocations.len()
    }

    /// How many more times the index can be issued before it is retired, or
    /// `None` if the index was never issued.
    pub fn reuses_left(&self, index: usize) -> (left: Option<usize>)
        ensures
            left == if self@.index_exists(index) {
                Some((usize::MAX - self@.records[index as int].generation) as usize)
            } else {
                None
            },
    {
        if index < self.allocations.len() {
            Some(usize::MAX - self.allocations[index].generation)
        } else {
            None
        }
    }
}

impl Default for EntityAllocator {
    fn default() -> (allocator: Self)
        ensures
            allocator.wf(),
            allocator@ == AllocatorState::empty(),
    {
        EntityAllocator::new()
    }
}

} // verus!
