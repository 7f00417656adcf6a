//! The world: one allocator, one component table per component kind and the
//! resource store, behind a single interface.

use crate::component::ComponentVec;
use crate::entity::{AllocatorState, Entity, EntityAllocator};
use crate::error::{EcsError, EntityGenerationError, EntityNotFoundError};
use crate::query::{
    lemma_empty_table_matches_nothing, lemma_matching_is_exact, lemma_scan_beyond_shortest,
    lemma_zipped_within_every_table, matches_at, present_at, scan_end, slots_of, zip,
    zip_components, zipped,
};
use crate::resource::ResourceMap;
use crate::vec::{conflicts, inserted, lookup, removed, Slot, Slots};
use vstd::prelude::*;

verus! {

/// The mathematical state of a world.
pub struct WorldState<C> {
    /// The state of the handle allocator.
    pub allocator: AllocatorState,
    /// The component kinds that have a table, in the order in which the
    /// tables were created.
    pub kinds: Seq<usize>,
    /// The slots of each table, by component kind.
    pub tables: Map<usize, Slots<C>>,
    /// The resources, by resource kind.
    pub resources: Map<usize, C>,
}

impl<C> WorldState<C> {
    /// The state of a world without entities, tables or resources.
    pub open spec fn empty() -> Self {
        WorldState {
            allocator: AllocatorState::empty(),
            kinds: Seq::empty(),
            tables: Map::empty(),
            resources: Map::empty(),
        }
    }

    /// The allocator is well formed, and the registered kinds are exactly the
    /// kinds with a table, each listed once.
    pub open spec fn wf(self) -> bool {
        &&& self.allocator.wf()
        &&& self.kinds.no_duplicates()
        &&& forall|kind: usize| self.tables.contains_key(kind) <==> self.kinds.contains(kind)
    }

    /// The slots of the table of `kind`. A kind without a table reads like an
    /// empty table.
    pub open spec fn table(self, kind: usize) -> Slots<C> {
        if self.tables.contains_key(kind) {
            self.tables[kind]
        } else {
            Seq::empty()
        }
    }

    /// The component of `kind` that `entity` holds: present only if the entity
    /// is live and its slot in the table of that kind was written under its
    /// generation.
    pub open spec fn component(self, kind: usize, entity: Entity) -> Option<C> {
        if self.allocator.is_live(entity) {
            lookup(self.table(kind), entity)
        } else {
            None
        }
    }

    /// The state in which the table of `kind` holds `slots`. A kind that had
    /// no table is registered after the others.
    pub open spec fn with_table(self, kind: usize, slots: Slots<C>) -> Self {
        WorldState {
            allocator: self.allocator,
            kinds: if self.tables.contains_key(kind) {
                self.kinds
            } else {
                self.kinds.push(kind)
            },
            tables: self.tables.insert(kind, slots),
            resources: self.resources,
        }
    }

    /// The slots of the tables of `kinds`, in the order of `kinds`.
    pub open spec fn tables_of(self, kinds: Seq<usize>) -> Seq<Slots<C>> {
        Seq::new(kinds.len(), |k: int| self.table(kinds[k]))
    }

    /// The state in which the allocator is in state `allocator`.
    pub open spec fn with_allocator(self, allocator: AllocatorState) -> Self {
        WorldState {
            allocator,
            kinds: self.kinds,
            tables: self.tables,
            resources: self.resources,
        }
    }

    /// The state in which the resource store holds `resources`.
    pub open spec fn with_resources(self, resources: Map<usize, C>) -> Self {
        WorldState {
            allocator: self.allocator,
            kinds: self.kinds,
            tables: self.tables,
            resources,
        }
    }

    /// How an attempt to store a component of `kind` for `entity` ends.
    pub open spec fn attach_outcome(self, kind: usize, entity: Entity) -> Result<(), EcsError> {
        if !self.allocator.is_live(entity) {
            Err(EcsError::EntityNotFound(EntityNotFoundError { entity }))
        } else if conflicts(self.table(kind), entity) {
            Err(EcsError::GenerationConflict(EntityGenerationError { entity }))
        } else {
            Ok(())
        }
    }

    /// How an attempt to remove a component of `entity` ends.
    pub open spec fn detach_outcome(self, entity: Entity) -> Result<(), EcsError> {
        if !self.allocator.is_live(entity) {
            Err(EcsError::EntityNotFound(EntityNotFoundError { entity }))
        } else {
            Ok(())
        }
    }

    /// The state after `value` has been stored for `entity` in the table of
    /// `kind`.
    pub open spec fn attach(self, kind: usize, entity: Entity, value: C) -> Self {
        self.with_table(kind, inserted(self.table(kind), entity, value))
    }

    /// The state after the slot of `entity` in the table of `kind` has been
    /// emptied. Without such a table nothing changes.
    pub open spec fn detach(self, kind: usize, entity: Entity) -> Self {
        if self.tables.contains_key(kind) {
            self.with_table(kind, removed(self.tables[kind], entity.index))
        } else {
            self
        }
    }

    /// What a query over `kinds` yields.
    pub open spec fn query(self, kinds: Seq<usize>) -> Seq<Entity> {
        zipped(self.tables_of(kinds), self.allocator)
    }

    /// A component that has been added is read back through the same entity
    /// and kind, and no other component of any entity changes.
    pub proof fn lemma_added_component_is_read(self, kind: usize, entity: Entity, value: C)
        requires
            self.wf(),
            self.attach_outcome(kind, entity) is Ok,
        ensures
            self.attach(kind, entity, value).wf(),
            self.attach(kind, entity, value).component(kind, entity) == Some(value),
            forall|other_kind: usize, other: Entity|
                other_kind != kind || other.index != entity.index ==> self.attach(
                    kind,
                    entity,
                    value,
                ).component(other_kind, other) == self.component(other_kind, other),
    {
        let after = self.attach(kind, entity, value);
        assert forall|a: int, b: int|
            0 <= a < after.kinds.len() && 0 <= b < after.kinds.len() && a != b implies after.kinds[a]
            != after.kinds[b] by {
            if !self.tables.contains_key(kind) {
                if a < self.kinds.len() {
                    assert(self.kinds.contains(self.kinds[a]));
                }
                if b < self.kinds.len() {
                    assert(self.kinds.contains(self.kinds[b]));
                }
            }
        }
        assert forall|k: usize| after.tables.contains_key(k) <==> after.kinds.contains(k) by {
            if self.kinds.contains(k) {
                let i = choose|i: int| 0 <= i < self.kinds.len() && self.kinds[i] == k;
                assert(after.kinds[i] == k);
            }
            if k == kind && !self.tables.contains_key(kind) {
                assert(after.kinds[after.kinds.len() - 1] == k);
            }
        }
    }

    /// After an attempt to remove a component, whether it succeeded or not,
    /// the entity holds no component of that kind; and a removal changes no
    /// other component of any entity.
    pub proof fn lemma_removed_component_is_absent(self, kind: usize, entity: Entity)
        requires
            self.wf(),
        ensures
            self.detach(kind, entity).wf(),
            self.detach(kind, entity).component(kind, entity) is None,
            self.detach_outcome(entity) is Err ==> self.component(kind, entity) is None,
            forall|other_kind: usize, other: Entity|
                other_kind != kind || other.index != entity.index ==> self.detach(
                    kind,
                    entity,
                ).component(other_kind, other) == self.component(other_kind, other),
    {
    }

    /// A component cannot be added to an entity that was never allocated: the
    /// attempt ends with `EntityNotFound`.
    pub proof fn lemma_add_to_unallocated_entity_fails(self, kind: usize, entity: Entity)
        requires
            self.wf(),
            !self.allocator.index_exists(entity.index),
        ensures
            self.attach_outcome(kind, entity) == Err::<(), EcsError>(
                EcsError::EntityNotFound(EntityNotFoundError { entity }),
            ),
    {
    }

    /// A component cannot be added to an entity that has been removed: the
    /// attempt ends with `EntityNotFound`.
    pub proof fn lemma_add_to_removed_entity_fails(self, kind: usize, entity: Entity)
        requires
            self.wf(),
        ensures
            self.with_allocator(self.allocator.deallocate(entity)).attach_outcome(kind, entity)
                == Err::<(), EcsError>(EcsError::EntityNotFound(EntityNotFoundError { entity })),
    {
    }

    /// Removing an entity leaves the tables as they are, and still none of
    /// its components can be read afterwards. When the index is issued again,
    /// the new entity starts without the components of the earlier one:
    /// whatever the earlier one left behind reads as absent. This holds of a
    /// kind whose table holds nothing newer than the entity at its index.
    pub proof fn lemma_removed_entity_holds_nothing(self, kind: usize, entity: Entity)
        requires
            self.wf(),
            self.allocator.is_live(entity),
            entity.generation < usize::MAX,
            !conflicts(self.table(kind), entity),
        ensures
            ({
                let removed = self.with_allocator(self.allocator.deallocate(entity));
                let (allocator, reused) = removed.allocator.allocate();
                &&& removed.tables == self.tables
                &&& removed.component(kind, entity) is None
                &&& reused.index == entity.index
                &&& removed.with_allocator(allocator).component(kind, entity) is None
                &&& removed.with_allocator(allocator).component(kind, reused) is None
            }),
    {
        self.allocator.lemma_deallocate_wf(entity);
        self.allocator.lemma_last_freed_is_reused_first(entity);
    }

    /// A query yields exactly the live entities that hold a component of
    /// every requested kind, each once, in increasing order of index; and it
    /// yields no index that lies outside the table of a requested kind.
    pub proof fn lemma_query_is_exact(self, kinds: Seq<usize>)
        requires
            self.wf(),
        ensures
            forall|j: int|
                0 <= j < self.query(kinds).len() ==> {
                    let entity = #[trigger] self.query(kinds)[j];
                    &&& self.allocator.is_live(entity)
                    &&& forall|k: int|
                        0 <= k < kinds.len() ==> self.component(#[trigger] kinds[k], entity)
                            is Some
                },
            forall|entity: Entity|
                self.allocator.is_live(entity) && (forall|k: int|
                    0 <= k < kinds.len() ==> self.component(#[trigger] kinds[k], entity) is Some)
                    ==> #[trigger] self.query(kinds).contains(entity),
            forall|j: int, k: int|
                0 <= j < k < self.query(kinds).len() ==> (#[trigger] self.query(kinds)[j]).index < (
                #[trigger] self.query(kinds)[k]).index,
            forall|j: int, k: int|
                0 <= j < self.query(kinds).len() && 0 <= k < kinds.len() ==> (#[trigger] self.query(
                    kinds,
                )[j]).index < self.table(#[trigger] kinds[k]).len(),
    {
        let tables = self.tables_of(kinds);
        let end = scan_end(tables, self.allocator) as int;
        lemma_matching_is_exact(tables, self.allocator, end);
        lemma_zipped_within_every_table(tables, self.allocator);
        assert forall|j: int| 0 <= j < self.query(kinds).len() implies {
            let entity = #[trigger] self.query(kinds)[j];
            &&& self.allocator.is_live(entity)
            &&& forall|k: int|
                0 <= k < kinds.len() ==> self.component(#[trigger] kinds[k], entity) is Some
        } by {
            let entity = self.query(kinds)[j];
            assert forall|k: int| 0 <= k < kinds.len() implies self.component(
                #[trigger] kinds[k],
                entity,
            ) is Some by {
                assert(present_at(tables[k], self.allocator, entity.index as int));
            }
        }
        assert forall|entity: Entity|
            self.allocator.is_live(entity) && (forall|k: int|
                0 <= k < kinds.len() ==> self.component(#[trigger] kinds[k], entity)
                    is Some) implies #[trigger] self.query(kinds).contains(entity) by {
            let i = entity.index as int;
            assert(self.allocator.occupant(i) == Some(entity));
            assert forall|t: int| 0 <= t < tables.len() implies present_at(
                #[trigger] tables[t],
                self.allocator,
                i,
            ) by {
                assert(self.component(kinds[t], entity) is Some);
            }
            assert(matches_at(tables, self.allocator, i));
            lemma_scan_beyond_shortest(
                tables,
                self.allocator,
                if end > i + 1 {
                    end
                } else {
                    i + 1
                },
            );
            lemma_matching_is_exact(
                tables,
                self.allocator,
                if end > i + 1 {
                    end
                } else {
                    i + 1
                },
            );
        }
        assert forall|j: int, k: int|
            0 <= j < self.query(kinds).len() && 0 <= k < kinds.len() implies (#[trigger] self.query(
            kinds,
        )[j]).index < self.table(#[trigger] kinds[k]).len() by {
            assert(tables[k] == self.table(kinds[k]));
        }
    }
}

/// A bit set over the registered component kinds.
pub type EntityHash = u16;

/// Whether bit `bit` of `hash` is set.
pub open spec fn has_bit(hash: EntityHash, bit: int) -> bool {
    (hash >> (bit as u16)) & 1 == 1
}

/// Whether `components` holds a value for `entity`: the slot is in range,
/// occupied and of the entity's generation.
pub fn entity_has_component<C>(entity: Entity, components: &ComponentVec<C>) -> (has: bool)
    ensures
        has == lookup(components@, entity) is Some,
{
    components.get(entity).is_some()
}

/// A component table and the kind it belongs to.
struct Registered<C> {
    kind: usize,
    table: ComponentVec<C>,
}

/// Entities, their components, and the resources.
pub struct World<C> {
    resources: ResourceMap<C>,
    components: Vec<Registered<C>>,
    allocator: EntityAllocator,
}

impl<C> View for World<C> {
    type V = WorldState<C>;

    closed spec fn view(&self) -> WorldState<C> {
        WorldState {
            allocator: self.allocator@,
            kinds: self.kinds(),
            tables: Map::new(
                |kind: usize| self.kinds().contains(kind),
                |kind: usize| self.components@[self.kinds().index_of(kind)].table@,
            ),
            resources: self.resources@,
        }
    }
}

impl<C> World<C> {
    /// The kinds of the tables, in the order of the registry.
    closed spec fn kinds(&self) -> Seq<usize> {
        Seq::new(self.components@.len(), |i: int| self.components@[i].kind)
    }

    /// The invariant that every operation keeps.
    pub open spec fn wf(&self) -> bool {
        self@.wf()
    }

    /// In a well-formed world the table at position `i` of the registry is
    /// the table of its kind.
    proof fn lemma_table_at(&self, i: int)
        requires
            self.wf(),
            0 <= i < self.components@.len(),
        ensures
            self@.tables.contains_key(self.components@[i].kind),
            self@.tables[self.components@[i].kind] == self.components@[i].table@,
            self.kinds().index_of(self.components@[i].kind) == i,
    {
        let kinds = self.kinds();
        let kind = self.components@[i].kind;
        assert(kinds[i] == kind);
        kinds.index_of_first_ensures(kind);
        let j = kinds.index_of(kind);
        assert(kinds[j] == kind);
    }

    /// Replacing the table at position `i` of the registry replaces the table
    /// of its kind and nothing else.
    proof fn lemma_table_replaced(before: Self, after: Self, i: int)
        requires
            before.wf(),
            0 <= i < before.components@.len(),
            after.allocator@ == before.allocator@,
            after.resources@ == before.resources@,
            after.components@.len() == before.components@.len(),
            forall|j: int|
                0 <= j < before.components@.len() ==> (#[trigger] after.components@[j]).kind
                    == before.components@[j].kind,
            forall|j: int|
                0 <= j < before.components@.len() && j != i ==> (
                #[trigger] after.components@[j]).table@ == before.components@[j].table@,
        ensures
            after.wf(),
            after@ == before@.with_table(before.components@[i].kind, after.components@[i].table@),
    {
        let kind = before.components@[i].kind;
        let expected = before@.with_table(kind, after.components@[i].table@);
        assert(after.kinds() =~= before.kinds());
        before.lemma_table_at(i);
        assert(after@.tables =~= expected.tables) by {
            assert forall|k: usize| after@.tables.contains_key(k) implies after@.tables[k]
                == expected.tables[k] by {
                let j = before.kinds().index_of(k);
                assert(0 <= j < before.kinds().len() && before.kinds()[j] == k);
                before.lemma_table_at(j);
            }
        }
    }

    /// Whatever table takes the place of the one at position `i` of the
    /// registry, the world that results is well formed and differs in the
    /// table of that kind only; with the same slots it is the same world.
    proof fn lemma_any_table_at(before: Self, i: int)
        requires
            before.wf(),
            0 <= i < before.components@.len(),
        ensures
            forall|after: Self|
                after.allocator == before.allocator && after.resources == before.resources
                    && after.components@ == before.components@.update(
                    i,
                    Registered { kind: before.components@[i].kind, table: after.components@[i].table },
                ) ==> {
                    &&& after.wf()
                    &&& #[trigger] after@ == before@.with_table(
                        before.components@[i].kind,
                        after.components@[i].table@,
                    )
                    &&& after.components@[i].table@ == before.components@[i].table@ ==> after@
                        == before@
                },
    {
        before.lemma_table_at(i);
        assert forall|after: Self|
            after.allocator == before.allocator && after.resources == before.resources
                && after.components@ == before.components@.update(
                i,
                Registered { kind: before.components@[i].kind, table: after.components@[i].table },
            ) implies {
            &&& after.wf()
            &&& #[trigger] after@ == before@.with_table(
                before.components@[i].kind,
                after.components@[i].table@,
            )
            &&& after.components@[i].table@ == before.components@[i].table@ ==> after@ == before@
        } by {
            Self::lemma_table_replaced(before, after, i);
            if after.components@[i].table@ == before.components@[i].table@ {
                assert(after@.tables =~= before@.tables);
            }
        }
    }

    /// Appending a table for a kind that had none registers that kind and
    /// changes nothing else.
    proof fn lemma_table_added(before: Self, after: Self, kind: usize)
        requires
            before.wf(),
            !before.kinds().contains(kind),
            after.allocator@ == before.allocator@,
            after.resources@ == before.resources@,
            after.components@.len() == before.components@.len() + 1,
            forall|j: int|
                0 <= j < before.components@.len() ==> #[trigger] after.components@[j]
                    == before.components@[j],
            after.components@[before.components@.len() as int].kind == kind,
        ensures
            after.wf(),
            after@ == before@.with_table(
                kind,
                after.components@[before.components@.len() as int].table@,
            ),
    {
        let last = before.components@.len() as int;
        let expected = before@.with_table(kind, after.components@[last].table@);
        assert(after.kinds() =~= before.kinds().push(kind));
        assert(after.kinds().no_duplicates());
        assert forall|k: usize| after.kinds().contains(k) <==> (before.kinds().contains(k) || k
            == kind) by {
            if before.kinds().contains(k) {
                let j = choose|j: int| 0 <= j < before.kinds().len() && before.kinds()[j] == k;
                assert(after.kinds()[j] == k);
            }
            if k == kind {
                assert(after.kinds()[last] == k);
            }
        }
        assert(after@.tables =~= expected.tables) by {
            assert forall|k: usize| after@.tables.contains_key(k) implies after@.tables[k]
                == expected.tables[k] by {
                let j = after.kinds().index_of(k);
                assert(0 <= j < after.kinds().len() && after.kinds()[j] == k);
                if k != kind {
                    let b = before.kinds().index_of(k);
                    assert(0 <= b < before.kinds().len() && before.kinds()[b] == k);
                    assert(after.kinds()[b] == k);
                    before.lemma_table_at(b);
                } else {
                    assert(after.kinds()[last] == k);
                }
            }
        }
    }

    /// A world without entities, tables or resources.
    pub fn new() -> (world: Self)
        ensures
            world.wf(),
            world@ == WorldState::<C>::empty(),
    {
        let world = World {
            resources: ResourceMap::new(),
            components: Vec::new(),
            allocator: EntityAllocator::new(),
        };
        assert(world@.kinds =~= WorldState::<C>::empty().kinds);
        assert(world@.tables =~= WorldState::<C>::empty().tables);
        world
    }

    /// The resource store.
    pub fn resources(&self) -> (resources: &ResourceMap<C>)
        ensures
            resources@ == self@.resources,
    {
        &self.resources
    }

    /// The resource store, for writing. Whatever is done to the store through
    /// the reference changes the resources and nothing else.
    pub fn resources_mut(&mut self) -> (resources: &mut ResourceMap<C>)
        ensures
            resources@ == old(self)@.resources,
            final(self)@ == old(self)@.with_resources(final(resources)@),
    {
        &mut self.resources
    }

    /// Where the table of `kind` stands in the registry, if it has one.
    fn position(&self, kind: usize) -> (position: Option<usize>)
        ensures
            match position {
                Some(i) => i < self.components@.len() && self.components@[i as int].kind == kind,
                None => !self.kinds().contains(kind),
            },
    {
        let mut i: usize = 0;
        while i < self.components.len()
            invariant
                i <= self.components@.len(),
                forall|j: int| 0 <= j < i ==> self.components@[j].kind != kind,
            decreases self.components@.len() - i,
        {
            if self.components[i].kind == kind {
                return Some(i);
            }
            i += 1;
        }
        assert(!self.kinds().contains(kind)) by {
            if self.kinds().contains(kind) {
                let j = choose|j: int| 0 <= j < self.kinds().len() && self.kinds()[j] == kind;
                assert(self.components@[j].kind != kind);
            }
        }
        None
    }

    /// Stores `component` as the component of `kind` of `entity`, creating
    /// the table of that kind if this is its first component.
    ///
    /// Fails with `EntityNotFound` exactly when the entity is not live, and
    /// with `GenerationConflict` exactly when it is live but its slot holds a
    /// value of a newer generation. A failure changes nothing.
    pub fn add_component(&mut self, kind: usize, entity: Entity, component: C) -> (result: Result<
        (),
        EcsError,
    >)
        requires
            old(self).wf(),
        ensures
            final(self).wf(),
            result == old(self)@.attach_outcome(kind, entity),
            final(self)@ == if result is Ok {
                old(self)@.attach(kind, entity, component)
            } else {
                old(self)@
            },
            result is Ok ==> final(self)@.component(kind, entity) == Some(component),
    {
        proof {
            if old(self)@.attach_outcome(kind, entity) is Ok {
                old(self)@.lemma_added_component_is_read(kind, entity, component);
            }
        }
        self.assign_component(kind, entity, Some(component))
    }

    /// Empties the slot of `entity` in the table of `kind`. When no such
    /// table exists there is nothing to do, and the call succeeds.
    ///
    /// Fails with `EntityNotFound`, and changes nothing, exactly when the
    /// entity is not live.
    pub fn remove_component(&mut self, kind: usize, entity: Entity) -> (result: Result<
        (),
        EcsError,
    >)
        requires
            old(self).wf(),
        ensures
            final(self).wf(),
            result == old(self)@.detach_outcome(entity),
            final(self)@ == if result is Ok {
                old(self)@.detach(kind, entity)
            } else {
                old(self)@
            },
            final(self)@.component(kind, entity) is None,
    {
        proof {
            old(self)@.lemma_removed_component_is_absent(kind, entity);
        }
        self.assign_component(kind, entity, None)
    }

    /// Writes `value` into the slot of `entity` in the table of `kind`, or
    /// empties that slot when `value` is `None`.
    fn assign_component(&mut self, kind: usize, entity: Entity, value: Option<C>) -> (result:
        Result<(), EcsError>)
        requires
            old(self).wf(),
        ensures
            final(self).wf(),
            result == match value {
                Some(_) => old(self)@.attach_outcome(kind, entity),
                None => old(self)@.detach_outcome(entity),
            },
            final(self)@ == if result is Ok {
                match value {
                    Some(component) => old(self)@.attach(kind, entity, component),
                    None => old(self)@.detach(kind, entity),
                }
            } else {
                old(self)@
            },
    {
        if !self.allocator.in_use(entity) {
            return Err(EcsError::EntityNotFound(EntityNotFoundError { entity }));
        }
        match value {
            Some(component) => {
                let i = match self.position(kind) {
                    Some(i) => {
                        proof {
                            self.lemma_table_at(i as int);
                        }
                        i
                    },
                    None => {
                        self.components.push(Registered { kind, table: ComponentVec::default() });
                        proof {
                            Self::lemma_table_added(*old(self), *self, kind);
                        }
                        self.components.len() - 1
                    },
                };
                let ghost registered = *self;
                assert(registered.components@[i as int].kind == kind);
                assert(registered.components@[i as int].table@ == old(self)@.table(kind));
                assert(registered@.kinds == old(self)@.attach(kind, entity, component).kinds);
                let added = self.components[i].table.add_to(entity, component);
                proof {
                    Self::lemma_table_replaced(registered, *self, i as int);
                    let slots = self.components@[i as int].table@;
                    assert(self@.tables =~= old(self)@.tables.insert(kind, slots));
                }
                match added {
                    Ok(_) => Ok(()),
                    Err(error) => {
                        assert(old(self)@.tables.contains_key(kind));
                        assert(self@.tables =~= old(self)@.tables);
                        Err(EcsError::GenerationConflict(error))
                    },
                }
            },
            None => {
                match self.position(kind) {
                    Some(i) => {
                        proof {
                            self.lemma_table_at(i as int);
                        }
                        self.components[i].table.remove_from(entity);
                        proof {
                            Self::lemma_table_replaced(*old(self), *self, i as int);
                        }
                    },
                    None => {},
                }
                Ok(())
            },
        }
    }

    /// Allocates one entity. Nothing else changes.
    pub fn create_entity(&mut self) -> (entity: Entity)
        requires
            old(self).wf(),
        ensures
            final(self).wf(),
            entity == old(self)@.allocator.allocate().1,
            final(self)@ == old(self)@.with_allocator(old(self)@.allocator.allocate().0),
            final(self)@.allocator.is_live(entity),
    {
        self.allocator.allocate()
    }

    /// Allocates `count` entities and returns their handles in the order of
    /// allocation: `count` distinct handles, all of them live. Nothing else
    /// changes.
    pub fn create_entities(&mut self, count: usize) -> (entities: Vec<Entity>)
        requires
            old(self).wf(),
        ensures
            final(self).wf(),
            entities@ == old(self)@.allocator.allocate_many(count as nat).1,
            final(self)@ == old(self)@.with_allocator(
                old(self)@.allocator.allocate_many(count as nat).0,
            ),
            entities@.len() == count,
            entities@.no_duplicates(),
            forall|j: int|
                0 <= j < count ==> final(self)@.allocator.is_live(#[trigger] entities@[j]),
    {
        let mut entities: Vec<Entity> = Vec::new();
        let mut created: usize = 0;
        while created < count
            invariant
                created <= count,
                self.wf(),
                self.components == old(self).components,
                self.resources == old(self).resources,
                (self.allocator@, entities@) == old(self)@.allocator.allocate_many(created as nat),
                entities@.len() == created,
                entities@.no_duplicates(),
                forall|j: int| 0 <= j < created ==> self.allocator@.is_live(#[trigger] entities@[j]),
            decreases count - created,
        {
            let entity = self.allocator.allocate();
            entities.push(entity);
            created += 1;
        }
        entities
    }

    /// Removes the entity if it is live; otherwise does nothing.
    ///
    /// The entity's slots in the component tables are left as they are: they
    /// read as absent from now on, and are overwritten when the index is
    /// written again. Nothing but the allocator changes.
    pub fn remove_entity(&mut self, entity: Entity)
        requires
            old(self).wf(),
        ensures
            final(self).wf(),
            final(self)@ == old(self)@.with_allocator(old(self)@.allocator.deallocate(entity)),
            !final(self)@.allocator.is_live(entity),
    {
        self.allocator.deallocate(entity);
    }

    /// Removes the entities one after the other, as `remove_entity` does.
    /// None of them is live afterwards.
    pub fn remove_entities(&mut self, entities: &[Entity])
        requires
            old(self).wf(),
        ensures
            final(self).wf(),
            final(self)@ == old(self)@.with_allocator(
                old(self)@.allocator.deallocate_all(entities@),
            ),
            forall|j: int|
                0 <= j < entities@.len() ==> !final(self)@.allocator.is_live(
                    #[trigger] entities@[j],
                ),
    {
        let mut removed: usize = 0;
        while removed < entities.len()
            invariant
                removed <= entities@.len(),
                self.wf(),
                self.components == old(self).components,
                self.resources == old(self).resources,
                self.allocator@ == old(self)@.allocator.deallocate_all(
                    entities@.take(removed as int),
                ),
                forall|j: int|
                    0 <= j < removed ==> !self.allocator@.is_live(#[trigger] entities@[j]),
            decreases entities@.len() - removed,
        {
            assert(entities@.take(removed + 1).drop_last() =~= entities@.take(removed as int));
            self.allocator.deallocate(entities[removed]);
            removed += 1;
        }
        assert(entities@.take(removed as int) =~= entities@);
    }

    /// Whether `entity` holds a component of `kind`.
    pub fn has_component(&self, kind: usize, entity: Entity) -> (has: bool)
        requires
            self.wf(),
        ensures
            has == self@.component(kind, entity) is Some,
    {
        self.get_component(kind, entity).is_some()
    }

    /// The number of tables, that is, of the kinds of which a component was
    /// ever added.
    pub fn table_count(&self) -> (count: usize)
        ensures
            count == self@.kinds.len(),
    {
        self.components.len()
    }

    /// Whether a table exists for `kind`, that is, whether a component of
    /// that kind was ever added.
    pub fn is_registered(&self, kind: usize) -> (registered: bool)
        requires
            self.wf(),
        ensures
            registered == self@.tables.contains_key(kind),
    {
        match self.position(kind) {
            Some(i) => {
                proof {
                    self.lemma_table_at(i as int);
                }
                true
            },
            None => false,
        }
    }

    /// The whole table of `kind`, for bulk reads.
    pub fn get_component_vec(&self, kind: usize) -> (table: &ComponentVec<C>)
        requires
            self.wf(),
            self@.tables.contains_key(kind),
        ensures
            table@ == self@.tables[kind],
    {
        let i = self.registered_position(kind);
        &self.components[i].table
    }

    /// The whole table of `kind`, for bulk writes. Whatever is done to the
    /// table through the reference changes that table and nothing else.
    pub fn get_component_vec_mut(&mut self, kind: usize) -> (table: &mut ComponentVec<C>)
        requires
            old(self).wf(),
            old(self)@.tables.contains_key(kind),
        ensures
            final(self).wf(),
            table@ == old(self)@.tables[kind],
            final(self)@ == old(self)@.with_table(kind, final(table)@),
    {
        let i = self.registered_position(kind);
        proof {
            Self::lemma_any_table_at(*self, i as int);
        }
        &mut self.components[i].table
    }

    /// A fingerprint of the components that `entity` holds: bit `i` is set
    /// exactly when the `i`-th table, in order of creation, holds a value for
    /// the entity. The hash has 16 bits, so the world may hold 16 tables at
    /// most; `table_count` tells how many it holds.
    pub fn hash_entity(&self, entity: Entity) -> (hash: EntityHash)
        requires
            self.wf(),
            self@.kinds.len() <= 16,
        ensures
            forall|bit: int|
                0 <= bit < 16 ==> (#[trigger] has_bit(hash, bit) <==> bit < self@.kinds.len()
                    && lookup(self@.table(self@.kinds[bit]), entity) is Some),
    {
        let mut hash: EntityHash = 0;
        assert forall|bit: int| 0 <= bit < 16 implies !#[trigger] has_bit(hash, bit) by {
            let b = bit as u16;
            assert((0u16 >> b) & 1 == 0) by (bit_vector);
        }
        let mut offset: usize = 0;
        while offset < self.components.len()
            invariant
                self.wf(),
                offset <= self.components@.len() <= 16,
                forall|bit: int|
                    0 <= bit < 16 ==> (#[trigger] has_bit(hash, bit) <==> bit < offset && lookup(
                        self.components@[bit].table@,
                        entity,
                    ) is Some),
            decreases self.components@.len() - offset,
        {
            let value: EntityHash = if entity_has_component(entity, &self.components[offset].table) {
                1
            } else {
                0
            };
            let shift = offset as u16;
            let ghost previous = hash;
            hash |= value << shift;
            assert forall|bit: int| 0 <= bit < 16 implies (#[trigger] has_bit(hash, bit) <==> (
            has_bit(previous, bit) || (value == 1 && bit == offset))) by {
                let b = bit as u16;
                assert(((previous | (value << shift)) >> b) & 1 == 1 <==> ((previous >> b) & 1 == 1
                    || (value == 1 && b == shift))) by (bit_vector)
                    requires
                        value <= 1,
                        shift < 16,
                        b < 16,
                ;
            }
            offset += 1;
        }
        assert forall|bit: int| 0 <= bit < self.components@.len() implies self@.table(
            self@.kinds[bit],
        ) == self.components@[bit].table@ by {
            self.lemma_table_at(bit);
        }
        hash
    }

    /// Where the table of `kind` stands in the registry.
    fn registered_position(&self, kind: usize) -> (position: usize)
        requires
            self.wf(),
            self@.tables.contains_key(kind),
        ensures
            position < self.components@.len(),
            self.components@[position as int].kind == kind,
            self@.tables[kind] == self.components@[position as int].table@,
    {
        match self.position(kind) {
            Some(i) => {
                proof {
                    self.lemma_table_at(i as int);
                }
                i
            },
            None => {
                proof {
                    assert(false);
                }
                0
            },
        }
    }

    /// The tables of `kinds`, in the order of `kinds`, or `None` if one of the
    /// kinds has no table.
    fn tables_for(&self, kinds: &[usize]) -> (tables: Option<Vec<&ComponentVec<C>>>)
        requires
            self.wf(),
        ensures
            match tables {
                Some(tables) => slots_of(tables@) == self@.tables_of(kinds@),
                None => exists|k: int| 0 <= k < kinds@.len() && self@.table(kinds@[k]).len() == 0,
            },
    {
        let mut tables: Vec<&ComponentVec<C>> = Vec::new();
        let mut k: usize = 0;
        while k < kinds.len()
            invariant
                k <= kinds@.len(),
                self.wf(),
                tables@.len() == k,
                slots_of(tables@) == self@.tables_of(kinds@.take(k as int)),
            decreases kinds@.len() - k,
        {
            let ghost found = tables@;
            match self.position(kinds[k]) {
                Some(i) => {
                    proof {
                        self.lemma_table_at(i as int);
                    }
                    tables.push(&self.components[i].table);
                },
                None => {
                    assert(self@.table(kinds@[k as int]).len() == 0);
                    return None;
                },
            }
            assert(tables@[k as int]@ == self@.table(kinds@[k as int]));
            k += 1;
            assert(slots_of(tables@) =~= self@.tables_of(kinds@.take(k as int))) by {
                let wanted = self@.tables_of(kinds@.take(k as int));
                assert forall|j: int| 0 <= j < k implies slots_of(tables@)[j] == wanted[j] by {
                    if j < k - 1 {
                        assert(tables@[j] == found[j]);
                        assert(slots_of(found)[j] == self@.tables_of(kinds@.take(k - 1))[j]);
                    }
                }
            }
        }
        assert(kinds@.take(k as int) =~= kinds@);
        Some(tables)
    }

    /// The entities that hold a component of every kind in `kinds`, in index
    /// order. A kind without a table is held by no entity.
    pub fn query(&self, kinds: &[usize]) -> (entities: Vec<Entity>)
        requires
            self.wf(),
        ensures
            entities@ == self@.query(kinds@),
            forall|j: int, k: int|
                0 <= j < entities@.len() && 0 <= k < kinds@.len() ==> (#[trigger] entities@[j]).index
                    < self@.table(#[trigger] kinds@[k]).len(),
    {
        proof {
            self@.lemma_query_is_exact(kinds@);
        }
        match self.tables_for(kinds) {
            Some(tables) => zip(tables.as_slice(), &self.allocator),
            None => {
                proof {
                    let k = choose|k: int|
                        0 <= k < kinds@.len() && self@.table(kinds@[k]).len() == 0;
                    lemma_empty_table_matches_nothing(
                        self@.tables_of(kinds@),
                        self@.allocator,
                        k,
                    );
                }
                Vec::new()
            },
        }
    }

    /// What `query` yields, each entity together with its component of each
    /// kind, in the order of `kinds`.
    pub fn query_components(&self, kinds: &[usize]) -> (rows: Vec<(Entity, Vec<&C>)>)
        requires
            self.wf(),
        ensures
            rows@.len() == self@.query(kinds@).len(),
            forall|j: int|
                0 <= j < rows@.len() ==> {
                    &&& (#[trigger] rows@[j]).0 == self@.query(kinds@)[j]
                    &&& rows@[j].1@.len() == kinds@.len()
                    &&& forall|k: int|
                        0 <= k < kinds@.len() ==> self@.component(#[trigger] kinds@[k], rows@[j].0)
                            == Some(*rows@[j].1@[k])
                },
    {
        proof {
            self@.lemma_query_is_exact(kinds@);
        }
        match self.tables_for(kinds) {
            Some(tables) => {
                let rows = zip_components(tables.as_slice(), &self.allocator);
                assert forall|j: int| 0 <= j < rows@.len() implies {
                    &&& (#[trigger] rows@[j]).0 == self@.query(kinds@)[j]
                    &&& rows@[j].1@.len() == kinds@.len()
                    &&& forall|k: int|
                        0 <= k < kinds@.len() ==> self@.component(#[trigger] kinds@[k], rows@[j].0)
                            == Some(*rows@[j].1@[k])
                } by {
                    assert(slots_of(tables@).len() == kinds@.len());
                    assert forall|k: int| 0 <= k < kinds@.len() implies self@.component(
                        #[trigger] kinds@[k],
                        rows@[j].0,
                    ) == Some(*rows@[j].1@[k]) by {
                        assert(slots_of(tables@)[k] == tables@[k]@);
                        assert(self@.tables_of(kinds@)[k] == self@.table(kinds@[k]));
                        assert(lookup(tables@[k]@, rows@[j].0) == Some(*rows@[j].1@[k]));
                    }
                }
                rows
            },
            None => {
                proof {
                    let k = choose|k: int|
                        0 <= k < kinds@.len() && self@.table(kinds@[k]).len() == 0;
                    lemma_empty_table_matches_nothing(
                        self@.tables_of(kinds@),
                        self@.allocator,
                        k,
                    );
                }
                Vec::new()
            },
        }
    }

    /// Whether the handle names a live entity.
    pub fn entity_exists(&self, entity: Entity) -> (live: bool)
        ensures
            live == self@.allocator.is_live(entity),
    {
        self.allocator.in_use(entity)
    }

    /// The component of `kind` that `entity` holds. It is absent when the
    /// entity is not live, when no component of that kind was ever added, and
    /// when the slot belongs to another generation.
    #[must_use]
    pub fn get_component(&self, kind: usize, entity: Entity) -> (component: Option<&C>)
        requires
            self.wf(),
        ensures
            match component {
                Some(component) => self@.component(kind, entity) == Some(*component),
                None => self@.component(kind, entity) is None,
            },
    {
        if !self.entity_exists(entity) {
            return None;
        }
        match self.position(kind) {
            Some(i) => {
                proof {
                    self.lemma_table_at(i as int);
                }
                self.components[i].table.get(entity)
            },
            None => None,
        }
    }

    /// Mutable access to the component of `kind` that `entity` holds, under
    /// the same conditions as `get_component`. Whatever is written through
    /// the reference replaces that component and nothing else.
    #[must_use]
    pub fn get_component_mut(&mut self, kind: usize, entity: Entity) -> (component: Option<&mut C>)
        requires
            old(self).wf(),
        ensures
            final(self).wf(),
            match component {
                Some(component) => {
                    &&& old(self)@.component(kind, entity) == Some(*component)
                    &&& final(self)@ == old(self)@.with_table(
                        kind,
                        old(self)@.table(kind).update(
                            entity.index as int,
                            Some(Slot { value: *final(component), generation: entity.generation }),
                        ),
                    )
                },
                None => old(self)@.component(kind, entity) is None && final(self)@ == old(self)@,
            },
    {
        if !self.entity_exists(entity) {
            return None;
        }
        match self.position(kind) {
            Some(i) => {
                proof {
                    self.lemma_table_at(i as int);
                }
                proof {
                    Self::lemma_any_table_at(*self, i as int);
                }
                self.components[i].table.get_mut(entity)
            },
            None => None,
        }
    }
}

impl<C> Default for World<C> {
    fn default() -> (world: Self)
        ensures
            world.wf(),
            world@ == WorldState::<C>::empty(),
    {
        World::new()
    }
}

} // verus!
