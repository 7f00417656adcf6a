//! The query over several component tables: the entities that hold a value in
//! every one of them, found by one scan in index order.

use crate::component::ComponentVec;
use crate::entity::{AllocatorState, Entity, EntityAllocator};
use crate::vec::{lookup, Handle, Slots};
use vstd::prelude::*;

verus! {

/// A live entity sits at `index` and reads a value in `slots`: the slot is in
/// range and occupied, and it was written under the entity's generation.
pub open spec fn present_at<C>(slots: Slots<C>, allocator: AllocatorState, index: int) -> bool {
    &&& allocator.occupant(index) is Some
    &&& lookup(slots, allocator.occupant(index)->0) is Some
}

/// A live entity sits at `index` and reads a value in every table.
pub open spec fn matches_at<C>(
    tables: Seq<Slots<C>>,
    allocator: AllocatorState,
    index: int,
) -> bool {
    &&& allocator.occupant(index) is Some
    &&& forall|t: int| 0 <= t < tables.len() ==> present_at(#[trigger] tables[t], allocator, index)
}

/// The entities below index `end` that match, in index order.
pub open spec fn matching<C>(tables: Seq<Slots<C>>, allocator: AllocatorState, end: int) -> Seq<
    Handle,
>
    decreases end,
{
    if end <= 0 {
        Seq::empty()
    } else if matches_at(tables, allocator, end - 1) {
        matching(tables, allocator, end - 1).push(allocator.occupant(end - 1)->0)
    } else {
        matching(tables, allocator, end - 1)
    }
}

/// Where the scan stops: the length of the shortest table, and never beyond
/// the indices that the allocator has issued.
pub open spec fn scan_end<C>(tables: Seq<Slots<C>>, allocator: AllocatorState) -> nat
    decreases tables.len(),
{
    if tables.len() == 0 {
        allocator.records.len()
    } else {
        let rest = scan_end(tables.drop_last(), allocator);
        if tables.last().len() < rest {
            tables.last().len()
        } else {
            rest
        }
    }
}

/// What a query over `tables` yields.
pub open spec fn zipped<C>(tables: Seq<Slots<C>>, allocator: AllocatorState) -> Seq<Handle> {
    matching(tables, allocator, scan_end(tables, allocator) as int)
}

/// The slots of each table of a list.
pub open spec fn slots_of<C>(tables: Seq<&ComponentVec<C>>) -> Seq<Slots<C>> {
    Seq::new(tables.len(), |t: int| tables[t]@)
}

/// The scan stops within every table and within the allocator's records.
pub proof fn lemma_scan_end_is_shortest<C>(tables: Seq<Slots<C>>, allocator: AllocatorState)
    ensures
        scan_end(tables, allocator) <= allocator.records.len(),
        forall|t: int|
            0 <= t < tables.len() ==> scan_end(tables, allocator) <= (#[trigger] tables[t]).len(),
    decreases tables.len(),
{
    if tables.len() > 0 {
        lemma_scan_end_is_shortest(tables.drop_last(), allocator);
        assert forall|t: int| 0 <= t < tables.len() implies scan_end(tables, allocator) <= (
        #[trigger] tables[t]).len() by {
            if t < tables.len() - 1 {
                assert(tables.drop_last()[t] == tables[t]);
            }
        }
    }
}

/// What a scan up to `end` yields: exactly the live entities below `end` that
/// read a value in every table, each once, in increasing order of index.
pub proof fn lemma_matching_is_exact<C>(tables: Seq<Slots<C>>, allocator: AllocatorState, end: int)
    requires
        allocator.wf(),
    ensures
        forall|j: int|
            0 <= j < matching(tables, allocator, end).len() ==> {
                let entity = #[trigger] matching(tables, allocator, end)[j];
                &&& entity.index < end
                &&& allocator.is_live(entity)
                &&& matches_at(tables, allocator, entity.index as int)
            },
        forall|i: int|
            0 <= i < end && #[trigger] matches_at(tables, allocator, i) ==> matching(
                tables,
                allocator,
                end,
            ).contains(allocator.occupant(i)->0),
        forall|j: int, k: int|
            0 <= j < k < matching(tables, allocator, end).len() ==> (#[trigger] matching(
                tables,
                allocator,
                end,
            )[j]).index < (#[trigger] matching(tables, allocator, end)[k]).index,
    decreases end,
{
    if end > 0 {
        lemma_matching_is_exact(tables, allocator, end - 1);
        let shorter = matching(tables, allocator, end - 1);
        let all = matching(tables, allocator, end);
        if matches_at(tables, allocator, end - 1) {
            let entity = allocator.occupant(end - 1)->0;
            assert(all[all.len() - 1] == entity);
            assert forall|i: int|
                0 <= i < end && #[trigger] matches_at(tables, allocator, i) implies all.contains(
                allocator.occupant(i)->0,
            ) by {
                if i < end - 1 {
                    let j = choose|j: int|
                        0 <= j < shorter.len() && shorter[j] == allocator.occupant(i)->0;
                    assert(all[j] == shorter[j]);
                }
            }
        }
    }
}

/// A query never yields an index that lies outside one of its tables, however
/// long the other tables are.
pub proof fn lemma_zipped_within_every_table<C>(tables: Seq<Slots<C>>, allocator: AllocatorState)
    requires
        allocator.wf(),
    ensures
        forall|j: int, t: int|
            0 <= j < zipped(tables, allocator).len() && 0 <= t < tables.len() ==> (
            #[trigger] zipped(tables, allocator)[j]).index < (#[trigger] tables[t]).len(),
{
    lemma_scan_end_is_shortest(tables, allocator);
    lemma_matching_is_exact(tables, allocator, scan_end(tables, allocator) as int);
}

/// Stopping at the shortest table loses nothing: beyond it no index matches,
/// so a longer scan yields the same entities.
pub proof fn lemma_scan_beyond_shortest<C>(
    tables: Seq<Slots<C>>,
    allocator: AllocatorState,
    end: int,
)
    requires
        allocator.wf(),
        scan_end(tables, allocator) <= end,
    ensures
        matching(tables, allocator, end) == zipped(tables, allocator),
    decreases end,
{
    if scan_end(tables, allocator) < end {
        lemma_scan_beyond_shortest(tables, allocator, end - 1);
        lemma_beyond_scan_end(tables, allocator, end - 1);
    }
}

/// At or beyond the end of the scan no index matches.
proof fn lemma_beyond_scan_end<C>(tables: Seq<Slots<C>>, allocator: AllocatorState, index: int)
    requires
        allocator.wf(),
        scan_end(tables, allocator) <= index,
    ensures
        !matches_at(tables, allocator, index),
    decreases tables.len(),
{
    if tables.len() > 0 {
        let rest = tables.drop_last();
        if scan_end(rest, allocator) <= index {
            lemma_beyond_scan_end(rest, allocator, index);
            if matches_at(tables, allocator, index) {
                assert forall|t: int| 0 <= t < rest.len() implies present_at(
                    #[trigger] rest[t],
                    allocator,
                    index,
                ) by {
                    assert(rest[t] == tables[t]);
                }
            }
        } else {
            assert(tables.last().len() <= index);
            assert(tables[tables.len() - 1] == tables.last());
        }
    }
}

/// A query over tables one of which is empty yields nothing.
pub proof fn lemma_empty_table_matches_nothing<C>(
    tables: Seq<Slots<C>>,
    allocator: AllocatorState,
    empty: int,
)
    requires
        0 <= empty < tables.len(),
        tables[empty].len() == 0,
    ensures
        zipped(tables, allocator) == Seq::<Handle>::empty(),
{
    lemma_scan_end_is_shortest(tables, allocator);
}

/// The entities that hold a value in every table of `tables`, in index order.
///
/// The scan covers the indices below the length of the shortest table; an
/// index is yielded when a live entity sits there and every table holds a
/// value of that entity's generation at it. Over no table at all, every live
/// entity is yielded.
pub fn zip<C>(tables: &[&ComponentVec<C>], allocator: &EntityAllocator) -> (entities: Vec<Entity>)
    requires
        allocator.wf(),
    ensures
        entities@ == zipped(slots_of(tables@), allocator@),
        forall|j: int, t: int|
            0 <= j < entities@.len() && 0 <= t < tables@.len() ==> (#[trigger] entities@[j]).index
                < (#[trigger] tables@[t])@.len(),
{
    proof {
        lemma_zipped_within_every_table(slots_of(tables@), allocator@);
        assert forall|j: int, t: int|
            0 <= j < zipped(slots_of(tables@), allocator@).len() && 0 <= t
                < tables@.len() implies (#[trigger] zipped(slots_of(tables@), allocator@)[j]).index
            < (#[trigger] tables@[t])@.len() by {
            assert(slots_of(tables@)[t] == tables@[t]@);
        }
    }
    let ghost views = slots_of(tables@);
    let mut end = allocator.len();
    let mut t: usize = 0;
    while t < tables.len()
        invariant
            t <= tables.len(),
            views == slots_of(tables@),
            end == scan_end(views.take(t as int), allocator@),
        decreases tables.len() - t,
    {
        assert(views.take(t as int + 1).drop_last() =~= views.take(t as int));
        if tables[t].len() < end {
            end = tables[t].len();
        }
        t += 1;
    }
    assert(views.take(t as int) =~= views);

    let mut entities: Vec<Entity> = Vec::new();
    let mut index: usize = 0;
    while index < end
        invariant
            index <= end,
            views == slots_of(tables@),
            entities@ == matching(views, allocator@, index as int),
        decreases end - index,
    {
        if let Some(entity) = allocator.occupant(index) {
            let mut everywhere = true;
            let mut t: usize = 0;
            while t < tables.len()
                invariant
                    t <= tables.len(),
                    views == slots_of(tables@),
                    allocator@.occupant(index as int) == Some(entity),
                    everywhere <==> forall|u: int|
                        0 <= u < t ==> present_at(#[trigger] views[u], allocator@, index as int),
                decreases tables.len() - t,
            {
                assert(views[t as int] == tables[t as int]@);
                if tables[t].get(entity).is_none() {
                    everywhere = false;
                }
                t += 1;
            }
            if everywhere {
                entities.push(entity);
            }
        }
        index += 1;
    }
    entities
}

/// What `zip` yields, each entity together with the value it holds in each
/// table, in the order of `tables`.
pub fn zip_components<'a, C>(tables: &[&'a ComponentVec<C>], allocator: &EntityAllocator) -> (rows:
    Vec<(Entity, Vec<&'a C>)>)
    requires
        allocator.wf(),
    ensures
        rows@.len() == zipped(slots_of(tables@), allocator@).len(),
        forall|j: int|
            0 <= j < rows@.len() ==> {
                &&& (#[trigger] rows@[j]).0 == zipped(slots_of(tables@), allocator@)[j]
                &&& rows@[j].1@.len() == tables@.len()
                &&& forall|t: int|
                    0 <= t < tables@.len() ==> lookup((#[trigger] tables@[t])@, rows@[j].0) == Some(
                        *rows@[j].1@[t],
                    )
            },
{
    let ghost views = slots_of(tables@);
    let entities = zip(tables, allocator);
    proof {
        lemma_matching_is_exact(views, allocator@, scan_end(views, allocator@) as int);
    }
    let mut rows: Vec<(Entity, Vec<&'a C>)> = Vec::new();
    let mut j: usize = 0;
    while j < entities.len()
        invariant
            j <= entities@.len(),
            views == slots_of(tables@),
            entities@ == zipped(views, allocator@),
            forall|i: int|
                0 <= i < entities@.len() ==> matches_at(
                    views,
                    allocator@,
                    (#[trigger] entities@[i]).index as int,
                ) && allocator@.is_live(entities@[i]),
            rows@.len() == j,
            forall|i: int|
                0 <= i < j ==> {
                    &&& (#[trigger] rows@[i]).0 == entities@[i]
                    &&& rows@[i].1@.len() == tables@.len()
                    &&& forall|t: int|
                        0 <= t < tables@.len() ==> lookup((#[trigger] tables@[t])@, rows@[i].0)
                            == Some(*rows@[i].1@[t])
                },
        decreases entities@.len() - j,
    {
        let entity = entities[j];
        let mut values: Vec<&'a C> = Vec::new();
        let mut t: usize = 0;
        while t < tables.len()
            invariant
                t <= tables@.len(),
                views == slots_of(tables@),
                matches_at(views, allocator@, entity.index as int),
                allocator@.is_live(entity),
                values@.len() == t,
                forall|u: int|
                    0 <= u < t ==> lookup((#[trigger] tables@[u])@, entity) == Some(*values@[u]),
            decreases tables@.len() - t,
        {
            assert(present_at(views[t as int], allocator@, entity.index as int));
            assert(views[t as int] == tables@[t as int]@);
            match tables[t].get(entity) {
                Some(value) => {
                    values.push(value);
                },
                None => {
                    assert(false);
                },
            }
            t += 1;
        }
        rows.push((entity, values));
        j += 1;
    }
    rows
}

} // verus!
