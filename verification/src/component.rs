//! Component tables: one generational slot storage per component kind.

use crate::entity::{Entity, EntityAllocator};
use crate::error::EntityGenerationError;
use crate::query::{
    lemma_scan_beyond_shortest, matches_at, matching, present_at, scan_end, zipped,
};
use crate::vec::{conflicts, inserted, lookup, removed, GenerationalVec, Slot, Slots};
use vstd::prelude::*;

verus! {

/// The table of one component kind.
pub struct ComponentVec<C> {
    components: GenerationalVec<C>,
}

impl<C> View for ComponentVec<C> {
    type V = Slots<C>;

    closed spec fn view(&self) -> Slots<C> {
        self.components@
    }
}

impl<C> ComponentVec<C> {
    /// A table that holds the given slots.
    pub fn new(components: Vec<Option<Slot<C>>>) -> (table: Self)
        ensures
            table@ == components@,
    {
        ComponentVec { components: GenerationalVec::new(components) }
    }

    /// Stores `value` for `entity`, growing the table with empty slots as
    /// needed. Fails, and changes nothing, exactly when the slot holds a
    /// value of a newer generation than the entity's.
    ///
    /// The table becomes longer than the entity's index, so the index must
    /// lie below `usize::MAX`.
    pub fn add_to(&mut self, entity: Entity, value: C) -> (result: Result<
        (),
        EntityGenerationError,
    >)
        requires
            entity.index < usize::MAX,
        ensures
            result is Err <==> conflicts(old(self)@, entity),
            match result {
                Ok(_) => final(self)@ == inserted(old(self)@, entity, value),
                Err(error) => error.entity == entity && final(self)@ == old(self)@,
            },
    {
        match self.components.add_to(entity, value) {
            Ok(_) => Ok(()),
            Err(error) => Err(EntityGenerationError { entity: error.handle }),
        }
    }

    /// Empties the slot at the entity's index if it is in range, whatever
    /// generation it holds.
    pub fn remove_from(&mut self, entity: Entity)
        ensures
            final(self)@ == removed(old(self)@, entity.index),
    {
        self.components.remove_from(entity);
    }

    /// The component stored for `entity`, if its slot is in range, occupied
    /// and of the entity's generation.
    pub fn get(&self, entity: Entity) -> (component: Option<&C>)
        ensures
            match component {
                Some(component) => lookup(self@, entity) == Some(*component),
                None => lookup(self@, entity) is None,
            },
    {
        self.components.get(entity)
    }

    /// Mutable access to the component stored for `entity`, under the same
    /// conditions as `get`. Whatever is written through the reference
    /// replaces that component and nothing else.
    pub fn get_mut(&mut self, entity: Entity) -> (component: Option<&mut C>)
        ensures
            match component {
                Some(component) => {
                    &&& lookup(old(self)@, entity) == Some(*component)
                    &&& final(self)@ == old(self)@.update(
                        entity.index as int,
                        Some(Slot { value: *final(component), generation: entity.generation }),
                    )
                },
                None => lookup(old(self)@, entity) is None && final(self)@ == old(self)@,
            },
    {
        self.components.get_mut(entity)
    }

    /// The live entities that hold a component in this table, in index
    /// order. Slots left behind by removed entities are passed over.
    pub fn get_all_valid_indices(&self, allocator: &EntityAllocator) -> (entities: Vec<Entity>)
        requires
            allocator.wf(),
        ensures
            entities@ == zipped(seq![self@], allocator@),
    {
        let mut result: Vec<Entity> = Vec::new();
        proof {
            assert(seq![self@].drop_last() =~= Seq::<Slots<C>>::empty());
            assert(seq![self@].last() == self@);
            assert(scan_end(seq![self@], allocator@) <= self@.len());
            lemma_scan_beyond_shortest(seq![self@], allocator@, self@.len() as int);
        }

        let mut index: usize = 0;
        while index < self.components.len()
            invariant
                index <= self@.len(),
                result@ == matching(seq![self@], allocator@, index as int),
            decreases self@.len() - index,
        {
            assert(matches_at(seq![self@], allocator@, index as int) <==> present_at(
                self@,
                allocator@,
                index as int,
            )) by {
                assert(seq![self@][0] == self@);
            }
            if let Some(entry) = &self.components[index] {
                let entity = Entity { index, generation: entry.generation };
                if allocator.in_use(entity) {
                    result.push(entity);
                }
            }
            index += 1;
        }

        result
    }

    /// The first live entity, in index order, that holds a component in this
    /// table, together with that component; `None` if there is no such entity.
    pub fn get_first_valid_entry(&self, allocator: &EntityAllocator) -> (entry: Option<
        (Entity, &C),
    >)
        ensures
            match entry {
                Some((entity, component)) => {
                    &&& allocator@.is_live(entity)
                    &&& lookup(self@, entity) == Some(*component)
                    &&& forall|earlier: int|
                        0 <= earlier < entity.index ==> !present_at(self@, allocator@, earlier)
                },
                None => forall|index: int|
                    0 <= index < self@.len() ==> !present_at(self@, allocator@, index),
            },
    {
        let mut index: usize = 0;
        while index < self.components.len()
            invariant
                index <= self@.len(),
                forall|earlier: int|
                    0 <= earlier < index ==> !present_at(self@, allocator@, earlier),
            decreases self@.len() - index,
        {
            if let Some(entry) = &self.components[index] {
                let entity = Entity { index, generation: entry.generation };
                if allocator.in_use(entity) {
                    return Some((entity, &entry.value));
                }
            }
            index += 1;
        }

        None
    }
}

/// Whether `components` holds a value for `entity`: the slot is in range,
/// occupied and of the entity's generation.
pub fn component_exists<C>(entity: Entity, components: &ComponentVec<C>) -> (exists: bool)
    ensures
        exists == lookup(components@, entity) is Some,
{
    components.get(entity).is_some()
}

impl<C> Default for ComponentVec<C> {
    fn default() -> (table: Self)
        ensures
            table@ == Slots::<C>::empty(),
    {
        ComponentVec::new(Vec::new())
    }
}

/// The raw slots in index order, empty ones included, so that positions can
/// be paired across tables of different lengths.
impl<C> std::ops::Deref for ComponentVec<C> {
    type Target = Vec<Option<Slot<C>>>;

    fn deref(&self) -> (slots: &Vec<Option<Slot<C>>>)
        ensures
            slots@ == self@,
    {
        &*self.components
    }
}

impl<C> std::ops::DerefMut for ComponentVec<C> {
    fn deref_mut(&mut self) -> (slots: &mut Vec<Option<Slot<C>>>)
        ensures
            slots@ == old(self)@,
            final(self)@ == final(slots)@,
    {
        &mut *self.components
    }
}

} // verus!
