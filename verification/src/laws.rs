//! What holds across operations.
//!
//! The laws speak of what a world holds (its view), of which ids are in use (`IdState`) and of the
//! types of its archetypes (`World::layout`), as the contracts of the operations do; where they
//! speak of all three, of a `Model`.
use crate::entities::{entity_ids, next_generation, Entity, IdState};
use crate::model::{row_types, Model, Step};
use crate::query::{answer, answers, lemma_answer_from, lemma_answered, satisfied, Query};
use crate::types::{has_all, type_ids, TypeInfo};
use crate::world::batch::advanced;
use crate::world::state::with_all_types;
use crate::world::{
    empties, lemma_with_entities_push, with_entities, with_types, without_id, without_ids, World,
};
use vstd::prelude::*;

verus! {

/// After components were added to an entity, it has them, the others that it had are unchanged,
/// and so are the other entities.
pub proof fn law_insert_then_get<C>(
    world: Map<Entity, Map<u64, C>>,
    e: Entity,
    components: Map<u64, C>,
    other: Entity,
    ty: u64,
)
    requires
        world.contains_key(e),
    ensures
        ({
            let after = world.insert(e, world[e].union_prefer_right(components));
            &&& components.contains_key(ty) ==> after[e].contains_key(ty) && after[e][ty]
                == components[ty]
            &&& !components.contains_key(ty) ==> after[e].contains_key(ty) == world[e].contains_key(
                ty,
            )
            &&& !components.contains_key(ty) && world[e].contains_key(ty) ==> after[e][ty]
                == world[e][ty]
            &&& after.contains_key(other) == world.contains_key(other)
            &&& other != e && world.contains_key(other) ==> after[other] == world[other]
        }),
{
}

/// An entity has the components that it was created with, and the other entities are unchanged.
pub proof fn law_spawn_then_get<C>(
    world: Map<Entity, Map<u64, C>>,
    e: Entity,
    components: Map<u64, C>,
    other: Entity,
)
    ensures
        world.insert(e, components).contains_key(e),
        world.insert(e, components)[e] == components,
        other != e ==> world.insert(e, components).contains_key(other) == world.contains_key(other),
        other != e && world.contains_key(other) ==> world.insert(e, components)[other]
            == world[other],
{
}

/// Each entity of a batch has its own components, and the other entities are unchanged.
pub proof fn law_batch_then_get<C>(
    world: Map<Entity, Map<u64, C>>,
    handles: Seq<Entity>,
    rows: Seq<Map<u64, C>>,
    i: int,
    other: Entity,
)
    requires
        handles.no_duplicates(),
        handles.len() == rows.len(),
        0 <= i < handles.len(),
    ensures
        with_entities(world, handles, rows).contains_key(handles[i]),
        with_entities(world, handles, rows)[handles[i]] == rows[i],
        !handles.contains(other) ==> with_entities(world, handles, rows).contains_key(other)
            == world.contains_key(other),
        !handles.contains(other) && world.contains_key(other) ==> with_entities(
            world,
            handles,
            rows,
        )[other] == world[other],
{
    let k = handles.index_of(handles[i]);
    assert(handles.contains(handles[i]));
    assert(handles[k] == handles[i]);
}

/// After components were removed from an entity, it lacks them, and the others that it had are
/// unchanged. The entity itself stays, even if no components remain.
pub proof fn law_remove_then_get<C>(
    world: Map<Entity, Map<u64, C>>,
    e: Entity,
    types: Seq<TypeInfo>,
    ty: u64,
)
    requires
        world.contains_key(e),
    ensures
        ({
            let gone = type_ids(types).to_set();
            let after = world.insert(e, world[e].remove_keys(gone));
            &&& after.contains_key(e)
            &&& gone.contains(ty) ==> !after[e].contains_key(ty)
            &&& !gone.contains(ty) ==> after[e].contains_key(ty) == world[e].contains_key(ty)
            &&& !gone.contains(ty) && world[e].contains_key(ty) ==> after[e][ty] == world[e][ty]
        }),
{
}

/// Removing components that were just added, and that the entity did not have before, succeeds,
/// gives them back, and restores what every entity had.
pub proof fn law_insert_then_remove<C>(
    m: Model<C>,
    e: Entity,
    components: Map<u64, C>,
    types: Seq<TypeInfo>,
)
    requires
        m.view.contains_key(e),
        type_ids(types).to_set() == components.dom(),
        m.view[e].dom().disjoint(components.dom()),
    ensures
        ({
            let after = m.insert(e, components);
            &&& after.view.contains_key(e)
            &&& has_all(types, after.view[e].dom())
            &&& type_ids(types).map_values(|t: u64| after.view[e][t]) == type_ids(types).map_values(
                |t: u64| components[t],
            )
            &&& after.remove(e, types).view == m.view
        }),
{
    let after = m.insert(e, components);
    let ids = type_ids(types);
    assert forall|i: int| 0 <= i < types.len() implies after.view[e].dom().contains(
        (#[trigger] types[i]).id,
    ) && components.contains_key(types[i].id) by {
        assert(ids[i] == types[i].id);
        assert(ids.to_set().contains(types[i].id));
    }
    assert forall|i: int| 0 <= i < ids.len() implies after.view[e][#[trigger] ids[i]]
        == components[ids[i]] by {
        assert(ids[i] == types[i].id);
    }
    assert(ids.map_values(|t: u64| after.view[e][t]) =~= ids.map_values(|t: u64| components[t]));
    assert(after.view[e].remove_keys(components.dom()) =~= m.view[e]);
    assert(after.remove(e, types).view =~= m.view);
}

/// Adding components back that were just removed succeeds, restores what every entity had, and
/// adds no archetype.
pub proof fn law_remove_then_insert<C>(m: Model<C>, e: Entity, types: Seq<TypeInfo>)
    requires
        m.wf(),
        m.view.contains_key(e),
        has_all(types, m.view[e].dom()),
    ensures
        ({
            let after = m.remove(e, types);
            let back = after.insert(e, m.view[e].restrict(type_ids(types).to_set()));
            &&& after.view.contains_key(e)
            &&& back.view == m.view
            &&& back.ids == after.ids
            &&& back.layout == after.layout
        }),
{
    let gone = type_ids(types).to_set();
    let row = m.view[e];
    let after = m.remove(e, types);
    let back = after.insert(e, row.restrict(gone));
    assert(gone.subset_of(row.dom())) by {
        assert forall|t: u64| gone.contains(t) implies row.dom().contains(t) by {
            let i = type_ids(types).index_of(t);
            assert(types[i].id == t);
        }
    }
    assert(after.view[e].union_prefer_right(row.restrict(gone)) =~= row);
    assert(after.view[e].dom().union(row.restrict(gone).dom()) =~= row.dom());
    assert(back.view =~= m.view);
    m.ids.lemma_flushed();
    m.ids.flushed().lemma_flushed_again();
    law_archetypes_kept(m.layout, row.dom().difference(gone), Seq::empty());
    lemma_prefix_contains(m.layout, after.layout, row.dom());
}

/// Adding components twice is adding them once, with the later ones where both have a type; where
/// they share no type the order does not matter. Adding nothing, or the same again, changes no
/// component and adds no archetype.
pub proof fn law_insert_twice<C>(m: Model<C>, e: Entity, x: Map<u64, C>, y: Map<u64, C>)
    requires
        m.wf(),
        m.view.contains_key(e),
    ensures
        m.insert(e, x).insert(e, y).view == m.insert(e, x.union_prefer_right(y)).view,
        m.insert(e, x).insert(e, y).ids == m.insert(e, x.union_prefer_right(y)).ids,
        x.dom().disjoint(y.dom()) ==> m.insert(e, y).insert(e, x).view == m.insert(
            e,
            x.union_prefer_right(y),
        ).view,
        m.insert(e, Map::empty()).view == m.view,
        m.insert(e, Map::empty()).layout == m.layout,
        m.insert(e, x).insert(e, x) == m.insert(e, x),
{
    let row = m.view[e];
    let both = x.union_prefer_right(y);
    m.ids.lemma_flushed();
    m.ids.flushed().lemma_flushed_again();
    assert(row.union_prefer_right(x).union_prefer_right(y) =~= row.union_prefer_right(both));
    assert(m.insert(e, x).insert(e, y).view =~= m.insert(e, both).view);
    if x.dom().disjoint(y.dom()) {
        assert(row.union_prefer_right(y).union_prefer_right(x) =~= row.union_prefer_right(both));
        assert(m.insert(e, y).insert(e, x).view =~= m.insert(e, both).view);
    }
    assert(row.union_prefer_right(Map::empty()) =~= row);
    assert(row.dom().union(Map::<u64, C>::empty().dom()) =~= row.dom());
    assert(m.insert(e, Map::empty()).view =~= m.view);
    let once = m.insert(e, x);
    assert(once.view[e].union_prefer_right(x) =~= once.view[e]);
    assert(once.view[e].dom().union(x.dom()) =~= row.dom().union(x.dom()));
    law_generation(m.layout, row.dom().union(x.dom()));
    assert(once.insert(e, x).view =~= once.view);
}

/// Destroying an entity that was just created restores the world.
pub proof fn law_spawn_then_despawn<C>(
    world: Map<Entity, Map<u64, C>>,
    e: Entity,
    components: Map<u64, C>,
)
    requires
        !world.contains_key(e),
    ensures
        world.insert(e, components).remove(e) == world,
{
    assert(world.insert(e, components).remove(e) =~= world);
}

/// The id of a destroyed entity is the next one to be used, under another generation, so that the
/// old handle stays invalid.
pub proof fn law_despawn_then_spawn(ids: IdState, e: Entity)
    requires
        ids.wf(),
        ids.contains(e),
    ensures
        ({
            let after = ids.flushed().release(e.id);
            &&& after.flushed().next() == (Entity {
                generation: next_generation(e.generation),
                id: e.id,
            })
            &&& after.flushed().next().generation != e.generation
            &&& !after.contains(e)
            &&& !after.flushed().alloc_one().contains(e)
        }),
{
    ids.lemma_flushed();
    ids.flushed().lemma_release(e);
    let after = ids.flushed().release(e.id);
    after.lemma_flushed_again();
    assert(after.pending.last() == e.id);
    after.lemma_alloc_one();
}

/// An entity that is created is new, and creating it invalidates no handle.
pub proof fn law_spawn(ids: IdState, other: Entity)
    requires
        ids.wf(),
        ids.population() < u32::MAX,
    ensures
        !ids.contains(ids.flushed().next()),
        ids.flushed().alloc_one().contains(ids.flushed().next()),
        other != ids.flushed().next() ==> ids.flushed().alloc_one().contains(other) == ids.contains(
            other,
        ),
{
    ids.lemma_flushed();
    ids.flushed().lemma_alloc_one();
}

/// A handle that an entity is created with is live afterwards, whatever it stood for before, and
/// no other handle with its id is. Handles with other ids are unaffected.
pub proof fn law_spawn_at(ids: IdState, handle: Entity, other: Entity)
    requires
        ids.wf(),
        ids.flushed().alloc_at(handle).population() <= u32::MAX,
    ensures
        ids.flushed().alloc_at(handle).contains(handle),
        other.id == handle.id && other != handle ==> !ids.flushed().alloc_at(handle).contains(
            other,
        ),
        other.id != handle.id ==> ids.flushed().alloc_at(handle).contains(other) == ids.contains(
            other,
        ),
{
    ids.lemma_flushed();
    ids.flushed().lemma_alloc_at(handle);
}

/// Of two entities that are created with the same handle, the later one stays.
pub proof fn law_spawn_at_twice<C>(
    world: Map<Entity, Map<u64, C>>,
    handle: Entity,
    first: Map<u64, C>,
    second: Map<u64, C>,
)
    ensures
        without_id(without_id(world, handle.id).insert(handle, first), handle.id).insert(
            handle,
            second,
        ) == without_id(world, handle.id).insert(handle, second),
{
    assert(without_id(without_id(world, handle.id).insert(handle, first), handle.id)
        =~= without_id(world, handle.id));
}

/// Entities that are created with given handles, one after another.
pub open spec fn spawned_at<C>(
    world: Map<Entity, Map<u64, C>>,
    handles: Seq<Entity>,
    rows: Seq<Map<u64, C>>,
) -> Map<Entity, Map<u64, C>>
    decreases handles.len(),
{
    if handles.len() == 0 {
        world
    } else {
        without_id(
            spawned_at(world, handles.drop_last(), rows.drop_last()),
            handles.last().id,
        ).insert(handles.last(), rows.last())
    }
}

/// Creating a batch of entities with given handles does what creating them one after another
/// does.
pub proof fn law_column_batch_at<C>(
    world: Map<Entity, Map<u64, C>>,
    handles: Seq<Entity>,
    rows: Seq<Map<u64, C>>,
)
    requires
        handles.len() == rows.len(),
        entity_ids(handles).no_duplicates(),
    ensures
        with_entities(without_ids(world, entity_ids(handles).to_set()), handles, rows)
            == spawned_at(world, handles, rows),
    decreases handles.len(),
{
    let a = with_entities(without_ids(world, entity_ids(handles).to_set()), handles, rows);
    let b = spawned_at(world, handles, rows);
    let ids = entity_ids(handles);
    if handles.len() == 0 {
        assert(a =~= b);
    } else {
        let n = handles.len() - 1;
        let init = handles.drop_last();
        let last = handles.last();
        let init_ids = entity_ids(init);
        assert(ids =~= init_ids.push(last.id));
        assert(init_ids.no_duplicates()) by {
            assert forall|i: int, j: int|
                0 <= i < init_ids.len() && 0 <= j < init_ids.len() && i != j implies init_ids[i]
                != init_ids[j] by {
                assert(ids[i] == init_ids[i] && ids[j] == init_ids[j]);
            }
        }
        law_column_batch_at(world, init, rows.drop_last());
        assert forall|x: u32| #[trigger] ids.contains(x) == (init_ids.contains(x) || x
            == last.id) by {
            if init_ids.contains(x) {
                assert(ids[init_ids.index_of(x)] == x);
            }
            assert(ids[n] == last.id);
            if ids.contains(x) && ids.index_of(x) < n {
                assert(init_ids[ids.index_of(x)] == x);
            }
        }
        assert forall|e: Entity| #[trigger] handles.contains(e) == (init.contains(e) || e
            == last) by {
            if init.contains(e) {
                assert(handles[init.index_of(e)] == e);
            }
            assert(handles[n] == last);
            if handles.contains(e) && handles.index_of(e) < n {
                assert(init[handles.index_of(e)] == e);
            }
        }
        assert forall|e: Entity| #[trigger] init.contains(e) implies e.id != last.id
            && handles.index_of(e) == init.index_of(e) by {
            let k = init.index_of(e);
            let m = handles.index_of(e);
            assert(handles[k] == e && handles[m] == e);
            assert(ids[k] == e.id && ids[m] == e.id && ids[n] == last.id);
        }
        assert(handles.index_of(last) == n) by {
            let m = handles.index_of(last);
            assert(handles[n] == last && handles[m] == last);
            assert(ids[m] == last.id && ids[n] == last.id);
        }
        assert(a =~= b);
    }
}

/// Making reserved entities exist a second time changes nothing, and makes none of them invalid.
pub proof fn law_flush(ids: IdState, e: Entity)
    requires
        ids.wf(),
    ensures
        ids.flushed().flushed() == ids.flushed(),
        ids.flushed().contains(e) == ids.contains(e),
        !ids.flushed().reserved(e),
        ids.flushed().count() == ids.population(),
{
    ids.lemma_flushed();
    ids.flushed().lemma_flushed_again();
}

/// Reserved handles are new, valid at once, and still valid when the entities are made to exist.
/// Until then they do not add to the number of entities that exist.
pub proof fn law_reserve_then_flush(ids: IdState, n: int, i: int)
    requires
        ids.wf(),
        0 <= i < n,
        ids.population() + n <= u32::MAX,
    ensures
        ({
            let e = ids.reserve_list(n)[i];
            &&& !ids.contains(e)
            &&& ids.reserve(n).contains(e)
            &&& ids.reserve(n).reserved(e)
            &&& ids.reserve(n).count() == ids.count()
            &&& ids.reserve(n).flushed().contains(e)
            &&& !ids.reserve(n).flushed().reserved(e)
            &&& ids.reserve(n).flushed().count() == ids.flushed().count() + n
        }),
{
    ids.lemma_reserve(n);
    ids.reserve(n).lemma_flushed();
    ids.lemma_flushed();
    assert(ids.reserve_list(n)[i] == ids.reserve_list(n)[i]);
}

/// The number of entities that exist grows by one with each that is created and shrinks by one
/// with each that is destroyed.
pub proof fn law_len(ids: IdState, e: Entity)
    requires
        ids.wf(),
    ensures
        ids.population() < u32::MAX ==> ids.flushed().alloc_one().count() == ids.flushed().count()
            + 1,
        ids.contains(e) ==> ids.flushed().release(e.id).count() == ids.flushed().count() - 1,
        ids.is_flushed() ==> ids.flushed().count() == ids.count(),
{
    ids.lemma_flushed();
    if ids.population() < u32::MAX {
        ids.flushed().lemma_alloc_one();
    }
    if ids.contains(e) {
        ids.flushed().lemma_release(e);
    }
}

/// A batch of columns gets the same ids as entities that are created one after another.
pub proof fn law_column_batch_ids(ids: IdState, n: int)
    requires
        ids.wf(),
        ids.is_flushed(),
        0 <= n,
        ids.population() + n <= u32::MAX,
    ensures
        ids.alloc_many(n) == ids.alloc_n(n),
        forall|e: Entity| #[trigger] ids.batch(n).contains(e) == ids.alloc_list(n).contains(e),
    decreases n,
{
    if n > 0 {
        law_column_batch_ids(ids, n - 1);
        let before = ids.alloc_many(n - 1);
        assert(before.alloc_one().generations =~= ids.alloc_many(n).generations);
        assert(before.alloc_one().pending =~= ids.alloc_many(n).pending);
    } else {
        assert(ids.alloc_many(n).generations =~= ids.generations);
        assert(ids.alloc_many(n).pending =~= ids.pending);
    }
    ids.lemma_alloc_many(n);
    ids.lemma_alloc_n(n);
    assert forall|e: Entity| #[trigger] ids.batch(n).contains(e) == ids.alloc_list(n).contains(
        e,
    ) by {
        if ids.batch(n).contains(e) {
            let k = ids.batch(n).index_of(e);
            assert(!ids.contains(ids.batch(n)[k]));
            assert(ids.alloc_many(n).contains(e));
            assert(ids.alloc_n(n).contains(e));
        }
        if ids.alloc_list(n).contains(e) {
            let k = ids.alloc_list(n).index_of(e);
            assert(!ids.contains(ids.alloc_list(n)[k]));
            assert(ids.alloc_n(n).contains(e));
            assert(ids.alloc_many(n).contains(e));
        }
    }
}

/// Looking up the same types again adds no archetype, so that a batch of entities with the same
/// types adds the archetypes that creating them one after another adds.
pub proof fn law_batch_types(layout: Seq<Set<u64>>, types: Set<u64>, n: int)
    requires
        n > 0,
    ensures
        with_all_types(layout, Seq::new(n as nat, |i: int| types)) == with_types(layout, types),
    decreases n,
{
    let list = Seq::new(n as nat, |i: int| types);
    let init = Seq::new((n - 1) as nat, |i: int| types);
    assert(list.drop_last() =~= init);
    if n > 1 {
        law_batch_types(layout, types, n - 1);
        let once = with_types(layout, types);
        assert(once.contains(types)) by {
            if !layout.contains(types) {
                assert(once[layout.len() as int] == types);
            }
        }
    } else {
        assert(with_all_types(layout, init) == layout);
    }
}

/// The generation of the archetypes, one less than their number, changes exactly when the
/// archetypes do.
pub proof fn law_generation(layout: Seq<Set<u64>>, types: Set<u64>)
    ensures
        with_types(layout, types).len() == layout.len() <==> with_types(layout, types) == layout,
        with_types(layout, types).len() >= layout.len(),
        with_types(layout, types).take(layout.len() as int) == layout,
        with_types(layout, types).contains(types),
{
    assert(with_types(layout, types).take(layout.len() as int) =~= layout);
    if !layout.contains(types) {
        assert(with_types(layout, types)[layout.len() as int] == types);
    }
}

/// Looking up types, once or many times, keeps the archetypes that there were, in their order.
pub proof fn law_archetypes_kept(layout: Seq<Set<u64>>, types: Set<u64>, list: Seq<Set<u64>>)
    ensures
        layout.is_prefix_of(with_types(layout, types)),
        layout.is_prefix_of(with_all_types(layout, list)),
    decreases list.len(),
{
    if list.len() > 0 {
        law_archetypes_kept(layout, types, list.drop_last());
        assert(with_all_types(layout, list).take(layout.len() as int) =~= layout);
    }
}

/// Where one list of archetypes continues another and is no longer, they are the same.
pub proof fn law_same_length(before: Seq<Set<u64>>, after: Seq<Set<u64>>)
    requires
        before.is_prefix_of(after),
        before.len() == after.len(),
    ensures
        before == after,
{
    assert(before =~= after);
}

/// What a list holds, a longer one holds too.
proof fn lemma_prefix_contains(before: Seq<Set<u64>>, after: Seq<Set<u64>>, types: Set<u64>)
    requires
        before.is_prefix_of(after),
        before.contains(types),
    ensures
        after.contains(types),
{
    let k = before.index_of(types);
    assert(after.subrange(0, before.len() as int)[k] == types);
    assert(after[k] == types);
}

/// Whatever operations follow each other, the archetypes that there were stay, in their order and
/// with their types; and where there are as many afterwards, so that the generation is the same,
/// none was added.
pub proof fn law_run<C>(m: Model<C>, steps: Seq<Step<C>>)
    ensures
        m.layout.is_prefix_of(m.run(steps).layout),
        m.run(steps).layout.len() == m.layout.len() ==> m.run(steps).layout == m.layout,
    decreases steps.len(),
{
    if steps.len() > 0 {
        let before = m.run(steps.drop_last());
        let after = m.run(steps);
        law_run(m, steps.drop_last());
        assert(before.layout.is_prefix_of(after.layout)) by {
            match steps.last() {
                Step::Spawn(components) => {
                    law_archetypes_kept(before.layout, components.dom(), Seq::empty());
                },
                Step::SpawnAt(_, components) => {
                    law_archetypes_kept(before.layout, components.dom(), Seq::empty());
                },
                Step::SpawnBatch(types, _) => {
                    law_archetypes_kept(before.layout, types, Seq::empty());
                },
                Step::SpawnColumnBatch(types, _) => {
                    law_archetypes_kept(before.layout, types, Seq::empty());
                },
                Step::SpawnColumnBatchAt(_, types, _) => {
                    law_archetypes_kept(before.layout, types, Seq::empty());
                },
                Step::Reserve(types) => {
                    law_archetypes_kept(before.layout, types, Seq::empty());
                },
                Step::Insert(e, components) => {
                    law_archetypes_kept(
                        before.layout,
                        before.view[e].dom().union(components.dom()),
                        Seq::empty(),
                    );
                },
                Step::Remove(e, types) => {
                    law_archetypes_kept(
                        before.layout,
                        before.view[e].dom().difference(type_ids(types).to_set()),
                        Seq::empty(),
                    );
                },
                Step::Extend(rows) => {
                    law_archetypes_kept(before.layout, Set::empty(), row_types(rows));
                },
                _ => {},
            }
        }
        assert(after.layout.take(m.layout.len() as int) =~= m.layout) by {
            assert forall|i: int| 0 <= i < m.layout.len() implies after.layout[i]
                == #[trigger] m.layout[i] by {
                assert(before.layout.subrange(0, m.layout.len() as int)[i] == m.layout[i]);
                assert(after.layout.subrange(0, before.layout.len() as int)[i] == before.layout[i]);
            }
        }
    }
    if m.run(steps).layout.len() == m.layout.len() {
        law_same_length(m.layout, m.run(steps).layout);
    }
}

/// Adding a list of bundles is creating an entity for each of them in turn.
pub proof fn law_extend<C>(m: Model<C>, rows: Seq<Map<u64, C>>)
    requires
        m.ids.wf(),
        m.ids.population() + rows.len() <= u32::MAX,
    ensures
        m.extend(rows) == m.spawn_each(rows),
    decreases rows.len(),
{
    let n = rows.len() as int;
    if n > 0 {
        let init = rows.drop_last();
        let row = rows.last();
        let start = m.ids.flushed();
        let before = m.spawn_each(init);
        let list = start.alloc_list(n - 1);
        let more = start.alloc_list(n);
        law_extend(m, init);
        m.ids.lemma_flushed();
        start.lemma_alloc_n(n - 1);
        start.lemma_alloc_n(n);
        start.alloc_n(n - 1).lemma_flushed_again();
        assert(before.ids.flushed() == start.alloc_n(n - 1));
        if n == 1 {
            assert(with_entities(m.view, list, init) =~= m.view);
            assert(row_types(init) =~= Seq::empty());
        }
        assert(more =~= list.push(before.next()));
        assert(rows =~= init.push(row));
        if list.contains(before.next()) {
            let k = list.index_of(before.next());
            assert(more[k] == more[n - 1]);
        }
        lemma_with_entities_push(m.view, list, init, before.next(), row);
        assert(row_types(rows).drop_last() =~= row_types(init));
        assert(row_types(rows).last() == row.dom());
    }
}

/// A batch of entities with the same types has the effect of creating them one after another: the
/// same handles, which all differ, with the same components, the same other entities and the same
/// number of entities.
pub proof fn law_spawn_batch<C>(m: Model<C>, types: Set<u64>, rows: Seq<Map<u64, C>>, i: int)
    requires
        m.wf(),
        m.ids.population() + rows.len() <= u32::MAX,
        forall|k: int| 0 <= k < rows.len() ==> (#[trigger] rows[k]).dom() == types,
        rows.len() > 0 || m.ids.is_flushed(),
    ensures
        ({
            let list = m.ids.flushed().alloc_list(rows.len() as int);
            &&& m.spawn_batch(types, rows).view == m.spawn_each(rows).view
            &&& m.spawn_batch(types, rows).ids == m.spawn_each(rows).ids
            &&& rows.len() > 0 ==> m.spawn_batch(types, rows).layout == m.spawn_each(rows).layout
            &&& list.no_duplicates()
            &&& 0 <= i < rows.len() ==> {
                &&& list[i] == m.spawn_each(rows.take(i)).next()
                &&& !m.view.contains_key(list[i])
                &&& m.spawn_batch(types, rows).view.contains_key(list[i])
                &&& m.spawn_batch(types, rows).view[list[i]] == rows[i]
            }
        }),
{
    let n = rows.len() as int;
    let start = m.ids.flushed();
    let list = start.alloc_list(n);
    law_extend(m, rows);
    m.ids.lemma_flushed();
    start.lemma_alloc_n(n);
    if n == 0 {
        m.ids.lemma_flushed_again();
        assert(with_entities(m.view, list, rows) =~= m.view);
    } else {
        law_batch_types(m.layout, types, n);
        assert(row_types(rows) =~= Seq::new(n as nat, |k: int| types));
    }
    if 0 <= i < n {
        law_extend(m, rows.take(i));
        start.lemma_alloc_n(i);
        start.alloc_n(i).lemma_flushed_again();
        assert(!start.contains(list[i]));
        law_batch_then_get(m.view, list, rows, i, list[i]);
    }
}

/// Making room for entities changes no entity and makes the reserved ones real; an archetype with
/// exactly the given types is there afterwards, so that neither creating such entities nor making
/// room again adds one.
pub proof fn law_reserve<C>(
    m: Model<C>,
    types: Set<u64>,
    rows: Seq<Map<u64, C>>,
    e: Entity,
)
    requires
        m.wf(),
        forall|k: int| 0 <= k < rows.len() ==> (#[trigger] rows[k]).dom() == types,
    ensures
        m.reserve(types).view == m.view,
        !m.reserve(types).ids.reserved(e),
        m.ids.reserved(e) ==> m.reserve(types).view.contains_key(e) && m.reserve(types).view[e]
            == Map::<u64, C>::empty(),
        m.reserve(types).layout.contains(types),
        m.reserve(types).reserve(types) == m.reserve(types),
        m.reserve(types).spawn_each(rows).layout == m.reserve(types).layout,
    decreases rows.len(),
{
    m.ids.lemma_flushed();
    m.ids.flushed().lemma_flushed_again();
    law_generation(m.layout, types);
    if rows.len() > 0 {
        let init = rows.drop_last();
        assert forall|k: int| 0 <= k < init.len() implies (#[trigger] init[k]).dom() == types by {
            assert(init[k] == rows[k]);
        }
        law_reserve(m, types, init, e);
        assert(rows.last() == rows[rows.len() - 1]);
    }
}

/// Reserved handles are new and differ. Each is live at once, without components, and the next
/// operation that adds components to an entity or destroys one makes them all real before it acts.
pub proof fn law_reserve_entities<C>(
    m: Model<C>,
    n: int,
    i: int,
    e: Entity,
    components: Map<u64, C>,
)
    requires
        m.wf(),
        0 <= i < n,
        m.ids.population() + n <= u32::MAX,
    ensures
        ({
            let list = m.ids.reserve_list(n);
            let h = list[i];
            let after = m.reserve_entities(n);
            &&& list.len() == n
            &&& list.no_duplicates()
            &&& !m.view.contains_key(h)
            &&& after.view.contains_key(h)
            &&& after.view[h] == Map::<u64, C>::empty()
            &&& after.ids.reserved(h)
            &&& after.insert(e, components).view.contains_key(h)
            &&& !after.insert(e, components).ids.reserved(h)
            &&& h != e ==> after.insert(e, components).view[h] == Map::<u64, C>::empty()
            &&& h == e ==> after.insert(e, components).view[h] == components
            &&& !after.despawn(e).ids.reserved(h)
            &&& after.despawn(e).view.contains_key(h) == (h != e)
            &&& h != e ==> after.despawn(e).view[h] == Map::<u64, C>::empty()
        }),
{
    let list = m.ids.reserve_list(n);
    let h = list[i];
    let after = m.reserve_entities(n);
    m.ids.lemma_reserve(n);
    after.ids.lemma_flushed();
    assert(list.contains(h));
    assert(!m.ids.contains(list[i]) && after.ids.reserved(list[i]));
    law_batch_then_get(m.view, list, empties::<C>(n), i, h);
    assert(Map::<u64, C>::empty().union_prefer_right(components) =~= components);
    assert(!after.ids.flushed().reserved(h));
    if after.view.contains_key(e) {
        assert(after.ids.contains(e)) by {
            if list.contains(e) {
                let k = list.index_of(e);
                assert(after.ids.reserved(list[k]));
            }
        }
        after.ids.flushed().lemma_release(e);
        lemma_none_reserved(after.ids.flushed().release(e.id), h);
    }
}

/// Where everything was made real, no handle is reserved.
proof fn lemma_none_reserved(ids: IdState, e: Entity)
    requires
        ids.is_flushed(),
    ensures
        !ids.reserved(e),
{
    assert(ids.reserved_ids() =~= Seq::empty());
}

/// A reserved entity whose id is not among the handles of a batch becomes a real one without
/// components when the batch is created, and iteration yields it once.
pub proof fn law_column_batch_at_reserved<C>(
    before: World<C>,
    after: World<C>,
    handles: Seq<Entity>,
    types: Set<u64>,
    rows: Seq<Map<u64, C>>,
    e: Entity,
)
    requires
        before.wf(),
        after.wf(),
        handles.len() == rows.len(),
        entity_ids(handles).no_duplicates(),
        after.model() == before.model().spawn_column_batch_at(handles, types, rows),
        before.ids().reserved(e),
        !entity_ids(handles).contains(e.id),
    ensures
        after@.contains_key(e),
        after@[e] == Map::<u64, C>::empty(),
        !after.ids().reserved(e),
        exists|i: int|
            0 <= i < after.listing().len() && #[trigger] after.listing()[i] == (
                e,
                Map::<u64, C>::empty(),
            ),
        forall|i: int, j: int|
            #![trigger after.listing()[i], after.listing()[j]]
            0 <= i < after.listing().len() && 0 <= j < after.listing().len()
                && after.listing()[i].0 == e && after.listing()[j].0 == e ==> i == j,
{
    let ids = before.ids();
    before.lemma_entities();
    after.lemma_entities();
    after.lemma_listing();
    ids.lemma_flushed();
    assert(after.model().view == after@ && after.model().ids == after.ids());
    ids.flushed().lemma_alloc_all_at(handles);
    lemma_none_reserved(after.ids(), e);
    assert(!handles.contains(e)) by {
        if handles.contains(e) {
            let k = handles.index_of(e);
            assert(entity_ids(handles)[k] == e.id);
        }
    }
    assert(before@.contains_key(e));
    assert(after@.contains_key(e));
    let i = choose|i: int| 0 <= i < after.listing().len() && (#[trigger] after.listing()[i]).0 == e;
    assert(after.listing()[i] == (e, Map::<u64, C>::empty()));
    assert forall|j: int, k: int|
        #![trigger after.listing()[j], after.listing()[k]]
        0 <= j < after.listing().len() && 0 <= k < after.listing().len() && after.listing()[j].0
            == e && after.listing()[k].0 == e implies j == k by {
        if j < k {
            assert(after.listing()[j].0 != after.listing()[k].0);
        } else if k < j {
            assert(after.listing()[k].0 != after.listing()[j].0);
        }
    }
}

/// The handles still to come after `k` steps.
pub open spec fn advanced_by(list: Seq<Entity>, k: int) -> Seq<Entity>
    decreases k,
{
    if k <= 0 {
        list
    } else {
        advanced(advanced_by(list, k - 1))
    }
}

/// The iterator over a batch of `n` entities counts down by one with each step: after `k` steps
/// `n - k` handles are to come, in order, and after `n` steps none.
pub proof fn law_batch_countdown(ids: IdState, n: int, k: int)
    requires
        ids.wf(),
        0 <= n,
        0 <= k,
        ids.population() + n <= u32::MAX,
    ensures
        ({
            let list = ids.flushed().batch(n);
            &&& list.len() == n
            &&& k <= n ==> advanced_by(list, k) == list.skip(k)
            &&& k <= n ==> advanced_by(list, k).len() == n - k
            &&& k < n ==> advanced_by(list, k)[0] == list[k]
            &&& k >= n ==> advanced_by(list, k).len() == 0
        }),
    decreases k,
{
    let list = ids.flushed().batch(n);
    ids.lemma_flushed();
    ids.flushed().lemma_alloc_many(n);
    assert(list.len() == n);
    if k > 0 {
        law_batch_countdown(ids, n, k - 1);
        if k <= n {
            assert(list.skip(k - 1).skip(1) =~= list.skip(k));
        }
    } else {
        assert(list.skip(0) =~= list);
    }
}

/// The components of the listed entities.
pub open spec fn listed_rows<C>(list: Seq<(Entity, Map<u64, C>)>) -> Seq<Map<u64, C>> {
    list.map_values(|p: (Entity, Map<u64, C>)| p.1)
}

/// A world that is made of a list of bundles is a new world in which an entity was created for
/// each of them: it has as many entities, and their components are those of the bundles.
pub proof fn law_from_iter<C>(world: World<C>, rows: Seq<Map<u64, C>>)
    requires
        world.wf(),
        rows.len() <= u32::MAX,
        world.model() == Model::<C>::initial().extend(rows),
    ensures
        world.model() == Model::<C>::initial().spawn_each(rows),
        world.ids().count() == rows.len(),
        listed_rows(world.listing()).to_multiset() == rows.to_multiset(),
{
    let n = rows.len() as int;
    let start = IdState::initial();
    let handles = start.alloc_list(n);
    let list = world.listing();
    law_extend(Model::<C>::initial(), rows);
    start.lemma_flushed_again();
    start.lemma_alloc_n(n);
    assert(world.model().view == world@ && world.model().ids == world.ids());
    world.lemma_entities();
    world.lemma_listing();
    world.lemma_listing_len();
    assert(world.ids() == start.alloc_n(n)) by {
        if n == 0 {
            assert(start.alloc_n(0) == start);
        }
    }
    assert(world@ =~= with_entities(Map::empty(), handles, rows));
    assert forall|i: int| 0 <= i < list.len() implies handles.contains((#[trigger] list[i]).0)
        && list[i].1 == rows[handles.index_of(list[i].0)] by {}
    assert forall|k: int| 0 <= k < handles.len() implies is_listed(
        list,
        #[trigger] handles[k],
    ) by {
        let e = handles[k];
        assert(handles.contains(e));
        lemma_none_reserved(world.ids(), e);
        assert(world@.contains_key(e));
    }
    lemma_rearranged(list, handles, rows);
}

/// An entity is listed.
spec fn is_listed<C>(list: Seq<(Entity, Map<u64, C>)>, e: Entity) -> bool {
    exists|i: int| 0 <= i < list.len() && (#[trigger] list[i]).0 == e
}

/// Entities that are listed in another order have the same components all in all.
proof fn lemma_rearranged<C>(
    list: Seq<(Entity, Map<u64, C>)>,
    handles: Seq<Entity>,
    rows: Seq<Map<u64, C>>,
)
    requires
        handles.len() == rows.len(),
        handles.no_duplicates(),
        forall|i: int, j: int|
            0 <= i < j < list.len() ==> (#[trigger] list[i]).0 != (#[trigger] list[j]).0,
        forall|i: int|
            0 <= i < list.len() ==> handles.contains((#[trigger] list[i]).0) && list[i].1
                == rows[handles.index_of(list[i].0)],
        forall|k: int| 0 <= k < handles.len() ==> is_listed(list, #[trigger] handles[k]),
    ensures
        listed_rows(list).to_multiset() == rows.to_multiset(),
    decreases handles.len(),
{
    broadcast use vstd::seq_lib::group_to_multiset_ensures;

    if handles.len() == 0 {
        if list.len() > 0 {
            assert(handles.contains(list[0].0));
        }
        assert(listed_rows(list) =~= rows);
    } else {
        let n = handles.len() - 1;
        let h = handles[n];
        assert(is_listed(list, handles[n]));
        let j = choose|j: int| 0 <= j < list.len() && (#[trigger] list[j]).0 == h;
        let rest = list.remove(j);
        let init = handles.drop_last();
        assert(handles.index_of(h) == n) by {
            assert(handles.contains(h));
            assert(handles[handles.index_of(h)] == h);
        }
        assert forall|i: int| 0 <= i < rest.len() implies #[trigger] rest[i] == list[if i < j {
            i
        } else {
            i + 1
        }] by {}
        assert forall|i: int| 0 <= i < rest.len() implies init.contains((#[trigger] rest[i]).0)
            && rest[i].1 == rows.drop_last()[init.index_of(rest[i].0)] by {
            let from = if i < j {
                i
            } else {
                i + 1
            };
            let e = rest[i].0;
            assert(list[from].0 == e);
            assert(e != h);
            let k = handles.index_of(e);
            assert(handles[k] == e);
            assert(init[k] == e);
            let k2 = init.index_of(e);
            assert(init[k2] == e);
            assert(handles[k2] == e);
        }
        assert forall|k: int| 0 <= k < init.len() implies is_listed(rest, #[trigger] init[k]) by {
            assert(init[k] == handles[k]);
            assert(is_listed(list, handles[k]));
            let i = choose|i: int| 0 <= i < list.len() && (#[trigger] list[i]).0 == handles[k];
            assert(i != j);
            let to = if i < j {
                i
            } else {
                i - 1
            };
            assert(rest[to] == list[i]);
        }
        assert(init.no_duplicates());
        assert forall|a: int, b: int| 0 <= a < b < rest.len() implies (#[trigger] rest[a]).0 != (
        #[trigger] rest[b]).0 by {
            let a0 = if a < j { a } else { a + 1 };
            let b0 = if b < j { b } else { b + 1 };
            assert(list[a0].0 != list[b0].0);
        }
        lemma_rearranged(rest, init, rows.drop_last());
        assert(listed_rows(rest) =~= listed_rows(list).remove(j));
        assert(listed_rows(list)[j] == rows[n]);
        assert(rows =~= rows.drop_last().push(rows[n]));
        assert(listed_rows(rest).to_multiset() =~= listed_rows(list).to_multiset().remove(rows[n]));
        assert(listed_rows(list).contains(rows[n]));
        assert(rows.to_multiset() =~= rows.drop_last().to_multiset().insert(rows[n]));
        assert(listed_rows(list).to_multiset() =~= rows.to_multiset());
    }
}

impl<C> World<C> {
    /// A query yields every entity that exists and satisfies it exactly once, with the components
    /// that it asks for, and nothing else.
    pub proof fn law_query(&self, query: Query)
        requires
            self.wf(),
        ensures
            forall|i: int|
                #![trigger answers(query, self.listing())[i]]
                0 <= i < answers(query, self.listing()).len() ==> {
                    let (e, item) = answers(query, self.listing())[i];
                    &&& self@.contains_key(e)
                    &&& !self.ids().reserved(e)
                    &&& satisfied(query, self@[e].dom())
                    &&& item == answer(query, self@[e])
                },
            forall|e: Entity| #[trigger]
                self@.contains_key(e) && !self.ids().reserved(e) && satisfied(query, self@[e].dom())
                    ==> exists|i: int|
                    0 <= i < answers(query, self.listing()).len() && (#[trigger] answers(
                        query,
                        self.listing(),
                    )[i]).0 == e,
            forall|i: int, j: int|
                0 <= i < j < answers(query, self.listing()).len() ==> (#[trigger] answers(
                    query,
                    self.listing(),
                )[i]).0 != (#[trigger] answers(query, self.listing())[j]).0,
    {
        let list = self.listing();
        let found = answers(query, list);
        self.lemma_listing();
        assert forall|i: int|
            #![trigger found[i]]
            0 <= i < found.len() implies {
            let (e, item) = found[i];
            &&& self@.contains_key(e)
            &&& !self.ids().reserved(e)
            &&& satisfied(query, self@[e].dom())
            &&& item == answer(query, self@[e])
        } by {
            let j = lemma_answer_from(query, list, i);
            assert(self@[list[j].0] == list[j].1);
        }
        assert forall|e: Entity| #[trigger]
            self@.contains_key(e) && !self.ids().reserved(e) && satisfied(
                query,
                self@[e].dom(),
            ) implies exists|i: int| 0 <= i < found.len() && (#[trigger] found[i]).0 == e by {
            let j = choose|j: int| 0 <= j < list.len() && (#[trigger] list[j]).0 == e;
            let i = lemma_answered(query, list, j);
            assert(found[i].0 == e);
        }
        lemma_answers_distinct(query, list);
    }
}

/// Where no entity is listed twice, none answers twice.
proof fn lemma_answers_distinct<C>(query: Query, list: Seq<(Entity, Map<u64, C>)>)
    requires
        forall|i: int, j: int|
            0 <= i < j < list.len() ==> (#[trigger] list[i]).0 != (#[trigger] list[j]).0,
    ensures
        forall|i: int, j: int|
            0 <= i < j < answers(query, list).len() ==> (#[trigger] answers(query, list)[i]).0 != (
            #[trigger] answers(query, list)[j]).0,
    decreases list.len(),
{
    if list.len() > 0 {
        let rest = list.skip(1);
        let found = answers(query, list);
        let later = answers(query, rest);
        assert forall|i: int, j: int| 0 <= i < j < rest.len() implies (#[trigger] rest[i]).0 != (
        #[trigger] rest[j]).0 by {
            assert(rest[i] == list[i + 1] && rest[j] == list[j + 1]);
        }
        lemma_answers_distinct(query, rest);
        if satisfied(query, list[0].1.dom()) {
            assert forall|i: int, j: int| 0 <= i < j < found.len() implies (#[trigger] found[i]).0
                != (#[trigger] found[j]).0 by {
                assert(found[j] == later[j - 1]);
                if i > 0 {
                    assert(found[i] == later[i - 1]);
                } else {
                    let k = lemma_answer_from(query, rest, j - 1);
                    assert(rest[k] == list[k + 1]);
                }
            }
        }
    }
}

} // verus!
