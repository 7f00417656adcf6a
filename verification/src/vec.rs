//! Generational slot storage: a growable sparse array keyed by a handle.

use vstd::prelude::*;

verus! {

/// An opaque identity token: a position and the generation of its occupant.
///
/// Two handles are equal when both fields are equal.
#[derive(Debug, PartialEq, Eq, Copy, Clone, Structural)]
pub struct Handle {
    pub index: usize,
    pub generation: usize,
}

impl Default for Handle {
    fn default() -> (handle: Self)
        ensures
            handle == (Handle { index: 0, generation: 0 }),
    {
        Handle { index: 0, generation: 0 }
    }
}

/// A write through a stale handle was refused: the slot already holds a
/// value of a newer generation.
#[derive(Debug, PartialEq, Eq, Copy, Clone, Structural)]
pub struct GenerationError {
    pub handle: Handle,
}

/// A stored value together with the generation of the handle that wrote it.
pub struct Slot<T> {
    pub value: T,
    pub generation: usize,
}

impl<T> Slot<T> {
    /// A slot that holds `value`, written under `generation`.
    pub fn new(value: T, generation: usize) -> (slot: Self)
        ensures
            slot == (Slot { value, generation }),
    {
        Slot { value, generation }
    }

    /// The generation under which the value was written.
    pub fn generation(&self) -> (generation: usize)
        ensures
            generation == self.generation,
    {
        self.generation
    }
}

/// The contents of a storage: its slots in index order, empty ones included.
pub type Slots<T> = Seq<Option<Slot<T>>>;

/// The value that `handle` reads in `slots`: present only if the position is
/// in range, occupied, and written under the handle's generation.
pub open spec fn lookup<T>(slots: Slots<T>, handle: Handle) -> Option<T> {
    if handle.index < slots.len() {
        match slots[handle.index as int] {
            Some(slot) => if slot.generation == handle.generation {
                Some(slot.value)
            } else {
                None
            },
            None => None,
        }
    } else {
        None
    }
}

/// The slot at the handle's position holds a value of a strictly newer
/// generation, so a write through `handle` is refused.
pub open spec fn conflicts<T>(slots: Slots<T>, handle: Handle) -> bool {
    &&& handle.index < slots.len()
    &&& slots[handle.index as int] is Some
    &&& slots[handle.index as int]->0.generation > handle.generation
}

/// `slots` extended with empty slots up to length `len`, if it was shorter.
pub open spec fn grown<T>(slots: Slots<T>, len: nat) -> Slots<T> {
    if slots.len() >= len {
        slots
    } else {
        slots + Seq::new((len - slots.len()) as nat, |i: int| None::<Slot<T>>)
    }
}

/// `slots` after `value` has been written through `handle`: grown to cover
/// the handle's position, which then holds the value under the handle's
/// generation.
pub open spec fn inserted<T>(slots: Slots<T>, handle: Handle, value: T) -> Slots<T> {
    grown(slots, (handle.index + 1) as nat).update(
        handle.index as int,
        Some(Slot { value, generation: handle.generation }),
    )
}

/// `slots` with the position `index` emptied, if it is in range.
pub open spec fn removed<T>(slots: Slots<T>, index: usize) -> Slots<T> {
    if index < slots.len() {
        slots.update(index as int, None)
    } else {
        slots
    }
}

/// A write that is not refused never lowers the generation recorded in a
/// slot, and the value it stores is the value that the same handle reads back.
pub proof fn lemma_insert_keeps_generations_rising<T>(slots: Slots<T>, handle: Handle, value: T)
    requires
        !conflicts(slots, handle),
    ensures
        lookup(inserted(slots, handle, value), handle) == Some(value),
        handle.index < slots.len() && slots[handle.index as int] is Some ==> {
            let earlier = slots[handle.index as int]->0;
            let later = inserted(slots, handle, value)[handle.index as int]->0;
            earlier.generation <= later.generation
        },
        forall|other: Handle|
            other.index != handle.index ==> lookup(inserted(slots, handle, value), other) == lookup(
                slots,
                other,
            ),
{
}

/// Once a slot has been emptied, no handle reads a value at its position, and
/// every other position reads as before.
pub proof fn lemma_removed_reads_nothing<T>(slots: Slots<T>, handle: Handle)
    ensures
        lookup(removed(slots, handle.index), handle) is None,
        forall|other: Handle|
            other.index != handle.index ==> lookup(removed(slots, handle.index), other) == lookup(
                slots,
                other,
            ),
{
}

/// A growable sparse array of slots, read and written through handles.
pub struct GenerationalVec<T> {
    elements: Vec<Option<Slot<T>>>,
}

impl<T> View for GenerationalVec<T> {
    type V = Slots<T>;

    closed spec fn view(&self) -> Slots<T> {
        self.elements@
    }
}

impl<T> GenerationalVec<T> {
    /// A storage that holds the given slots.
    pub fn new(elements: Vec<Option<Slot<T>>>) -> (storage: Self)
        ensures
            storage@ == elements@,
    {
        GenerationalVec { elements }
    }

    /// Stores `value` at the handle's position under the handle's
    /// generation, growing the array with empty slots as needed. Fails, and
    /// changes nothing, exactly when the slot holds a newer generation.
    ///
    /// The array becomes longer than the handle's index, so the index must
    /// lie below `usize::MAX`.
    pub fn add_to(&mut self, handle: Handle, value: T) -> (result: Result<(), GenerationError>)
        requires
            handle.index < usize::MAX,
        ensures
            result is Err <==> conflicts(old(self)@, handle),
            match result {
                Ok(_) => final(self)@ == inserted(old(self)@, handle, value),
                Err(error) => error.handle == handle && final(self)@ == old(self)@,
            },
    {
        while self.elements.len() <= handle.index
            invariant
                handle.index < usize::MAX,
                self@ == grown(old(self)@, self@.len()),
                self@.len() <= old(self)@.len() || self@.len() <= handle.index + 1,
            decreases handle.index + 1 - self.elements.len(),
        {
            self.elements.push(None);
            assert(self@ =~= grown(old(self)@, self@.len()));
        }
        assert(self@ =~= grown(old(self)@, (handle.index + 1) as nat));

        let previous_generation = match &self.elements[handle.index] {
            Some(entry) => entry.generation,
            None => 0,
        };

        if previous_generation > handle.generation {
            return Err(GenerationError { handle });
        }
        self.elements[handle.index] = Some(Slot { value, generation: handle.generation });

        Ok(())
    }

    /// Empties the slot at the handle's position if it is in range, whatever
    /// generation it holds.
    pub fn remove_from(&mut self, handle: Handle)
        ensures
            final(self)@ == removed(old(self)@, handle.index),
    {
        if handle.index < self.elements.len() {
            self.elements[handle.index] = None;
        }
    }

    /// The value stored for `handle`, if the slot is in range, occupied and of
    /// the handle's generation.
    pub fn get(&self, handle: Handle) -> (value: Option<&T>)
        ensures
            match value {
                Some(value) => lookup(self@, handle) == Some(*value),
                None => lookup(self@, handle) is None,
            },
    {
        if handle.index >= self.elements.len() {
            return None;
        }
        match &self.elements[handle.index] {
            Some(entry) => {
                if entry.generation == handle.generation {
                    Some(&entry.value)
                } else {
                    None
                }
            },
            None => None,
        }
    }

    /// Mutable access to the value stored for `handle`, under the same
    /// conditions as `get`. Whatever is written through the reference
    /// replaces that value and nothing else.
    pub fn get_mut(&mut self, handle: Handle) -> (value: Option<&mut T>)
        ensures
            match value {
                Some(value) => {
                    &&& lookup(old(self)@, handle) == Some(*value)
                    &&& final(self)@ == old(self)@.update(
                        handle.index as int,
                        Some(Slot { value: *final(value), generation: handle.generation }),
                    )
                },
                None => lookup(old(self)@, handle) is None && final(self)@ == old(self)@,
            },
    {
        if handle.index >= self.elements.len() {
            return None;
        }
        match &mut self.elements[handle.index] {
            Some(entry) => {
                if entry.generation == handle.generation {
                    Some(&mut entry.value)
                } else {
                    None
                }
            },
            None => None,
        }
    }
}

/// The raw slots in index order, empty ones included, so that positions can
/// be paired across storages of different lengths.
impl<T> std::ops::Deref for GenerationalVec<T> {
    type Target = Vec<Option<Slot<T>>>;

    fn deref(&self) -> (slots: &Vec<Option<Slot<T>>>)
        ensures
            slots@ == self@,
    {
        &self.elements
    }
}

impl<T> std::ops::DerefMut for GenerationalVec<T> {
    fn deref_mut(&mut self) -> (slots: &mut Vec<Option<Slot<T>>>)
        ensures
            slots@ == old(self)@,
            final(self)@ == final(slots)@,
    {
        &mut self.elements
    }
}

} // verus!
