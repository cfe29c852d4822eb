//! Creating many entities at once.
use crate::archetype::{Archetype, Table};
use crate::bundle::Bundle;
use crate::column_batch::ColumnBatch;
use crate::entities::{entities_at, entity_ids, Entities, Entity, IdState, Location};
use crate::links::{at, components_at, lemma_fill, lemma_new_table, lemma_table_room, linked};
use crate::type_index::index_entry;
use crate::types::{
    distinct_types, lemma_sorted_unique, lemma_zip_map_dom, sorted_type_ids, strictly_sorted,
    type_ids, Component, TypeInfo,
};
use crate::world::{
    empties, lemma_pushed, lemma_same_types, lemma_with_entities_again, lemma_with_entities_push,
    with_entities, with_types, without_id, without_ids, World,
};
use vstd::prelude::*;
use vstd::slice::slice_to_vec;

verus! {

/// The archetypes after one with these types was looked up, and added without rows if there was
/// none.
spec fn with_table<C>(tables: Seq<Table<C>>, types: Seq<u64>) -> Seq<Table<C>> {
    if exists|a: int| 0 <= a < tables.len() && (#[trigger] tables[a]).types == types {
        tables
    } else {
        tables.push(Table::empty(types))
    }
}

impl<C: Component> World<C> {
    /// Stores the rows of an archetype
    ///
    /// Returns archetype ID and starting location index. The locations of the entities should be
    /// written immediately.
    fn insert_archetype(&mut self, archetype: Archetype<C>, holes: Ghost<Set<u32>>) -> (r: (
        u32,
        u32,
    ))
        requires
            old(self).inv(holes@, None),
            archetype.wf(),
            old(self).accepts(archetype@.types.to_set()),
            forall|a: int|
                #![trigger old(self).tables()[a]]
                0 <= a < old(self).tables().len() && old(self).tables()[a].types
                    == archetype@.types ==> old(self).tables()[a].ids.len() + archetype@.ids.len()
                    <= u32::MAX,
        ensures
            final(self).entities == old(self).entities,
            final(self).stored(),
            final(self).layout() == with_types(old(self).layout(), archetype@.types.to_set()),
            ({
                let tables = with_table(old(self).tables(), archetype@.types);
                &&& linked(
                    old(self).entities.ids().pending,
                    old(self).entities.locations(),
                    tables,
                    holes@,
                    None,
                )
                &&& (r.0 as int) < tables.len()
                &&& tables[r.0 as int].types == archetype@.types
                &&& r.1 == tables[r.0 as int].ids.len()
                &&& final(self).tables() == tables.update(
                    r.0 as int,
                    tables[r.0 as int].append(archetype@),
                )
                &&& forall|i: int|
                    components_at(old(self).entities.locations(), tables, i)
                        == #[trigger] components_at(
                        old(self).entities.locations(),
                        old(self).tables(),
                        i,
                    )
            }),
    {
        let ghost before = *self;
        let ghost added = archetype@;
        let ghost tables = self.tables();
        let ghost middle = with_table(tables, added.types);
        proof {
            archetype.lemma_table();
            self.lemma_known(added.types);
        }
        let ids = slice_to_vec(archetype.types());
        let x = self.archetypes.len() as u32;
        let id = index_entry(&mut self.index, ids, x);
        if id == x {
            // Brand new archetype
            self.archetypes.push(archetype);
            self.archetype_generation = self.archetype_generation + 1;
            proof {
                assert(middle == tables.push(Table::empty(added.types))) by {
                    assert forall|a: int| 0 <= a < tables.len() implies (#[trigger] tables[a]).types
                        != added.types by {}
                }
                let table = Table::<C>::empty(added.types);
                lemma_new_table(
                    before.entities.ids().pending,
                    before.entities.locations(),
                    tables,
                    holes@,
                    table,
                );
                assert(table.append(added).ids =~= added.ids);
                assert(table.append(added).rows =~= added.rows);
                assert(self.tables() =~= tables.push(added));
                assert(middle.update(x as int, table.append(added)) =~= self.tables());
                assert(self.archetypes@.drop_last() =~= before.archetypes@);
                lemma_pushed(before, *self, added);
            }
            (id, 0)
        } else {
            // Duplicate of existing archetype
            assert(tables[id as int] == self.archetypes@[id as int]@);
            assert(middle == tables);
            let existing: &mut Archetype<C> = &mut self.archetypes[id as usize];
            let base = existing.len();
            existing.merge(archetype);
            proof {
                assert(self.tables() =~= tables.update(id as int, tables[id as int].append(added)));
                lemma_same_types(before, *self);
            }
            (id, base)
        }
    }

    /// Stores the rows of an archetype for entities that have no rows
    fn place_rows(&mut self, archetype: Archetype<C>, ids: &[u32], holes: Ghost<Set<u32>>)
        requires
            old(self).inv(holes@, None),
            archetype.wf(),
            archetype@.ids.len() == ids@.len(),
            old(self).accepts(archetype@.types.to_set()),
            ids@.no_duplicates(),
            forall|k: int|
                #![trigger ids@[k]]
                0 <= k < ids@.len() ==> (ids@[k] as int) < old(self).ids().generations.len()
                    && holes@.contains(ids@[k]) && !old(self).ids().pending.contains(ids@[k]),
        ensures
            final(self).inv(holes@.difference(ids@.to_set()), None),
            final(self).ids() == old(self).ids(),
            final(self)@ == with_entities(
                old(self)@,
                entities_at(old(self).ids(), ids@),
                archetype@.rows,
            ),
            final(self).layout() == with_types(old(self).layout(), archetype@.types.to_set()),
    {
        let ghost before = *self;
        let ghost state = self.entities.ids();
        let ghost locations = self.entities.locations();
        // Fix up entity IDs
        let mut archetype = archetype;
        let ghost given = archetype@;
        assert(given.ids =~= ids@.take(0) + given.ids.skip(0));
        for i in 0..ids.len()
            invariant
                archetype.wf(),
                given.ids.len() == ids@.len(),
                archetype@.types == given.types,
                archetype@.rows == given.rows,
                archetype@.ids == ids@.take(i as int) + given.ids.skip(i as int),
        {
            archetype.set_entity_id(i, ids[i]);
            assert(archetype@.ids =~= ids@.take(i + 1) + given.ids.skip(i + 1));
        }
        let ghost added = archetype@;
        proof {
            assert(added.ids =~= ids@);
            archetype.lemma_table();
            assert forall|a: int|
                #![trigger before.tables()[a]]
                0 <= a < before.tables().len() implies before.tables()[a].ids.len()
                + added.ids.len() <= u32::MAX by {
                lemma_table_room(state.pending, locations, before.tables(), holes@, a, ids@);
            }
        }
        // Store component data
        let (archetype_id, base) = self.insert_archetype(archetype, holes);
        let ghost tables = with_table(before.tables(), added.types);
        let ghost stored = self.tables();
        for i in 0..ids.len()
            invariant
                self.stored(),
                self.tables() == stored,
                self.layout() == with_types(before.layout(), added.types.to_set()),
                self.entities.ids() == state,
                state.generations.len() == locations.len(),
                self.entities.locations().len() == locations.len(),
                base + ids@.len() <= u32::MAX,
                ids@.no_duplicates(),
                forall|k: int|
                    #![trigger ids@[k]]
                    0 <= k < ids@.len() ==> (ids@[k] as int) < state.generations.len(),
                forall|k: int|
                    #![trigger ids@[k]]
                    0 <= k < i ==> self.entities.locations()[ids@[k] as int] == at(
                        archetype_id as int,
                        base + k,
                    ),
                forall|x: int|
                    #![trigger self.entities.locations()[x]]
                    0 <= x < locations.len() && !ids@.contains(x as u32)
                        ==> self.entities.locations()[x] == locations[x],
        {
            let ghost so_far = *self;
            let location = Location { archetype: archetype_id, index: base + i as u32 };
            self.entities.set_location(ids[i], location);
            proof {
                assert(ids@.contains(ids@[i as int]));
                assert(self.tables() =~= so_far.tables());
                assert(self.layout() == so_far.layout());
            }
        }
        proof {
            lemma_fill(
                state.pending,
                locations,
                tables,
                holes@,
                archetype_id as int,
                added,
                self.entities.locations(),
            );
            let handles = entities_at(state, ids@);
            let want = with_entities(before@, handles, given.rows);
            let after = self.entities.locations();
            assert forall|e: Entity| self.ids().contains(e) == want.contains_key(e) by {
                if handles.contains(e) {
                    let k = handles.index_of(e);
                    assert(handles[k].id == ids@[k]);
                    lemma_not_pending(state, ids@[k]);
                }
            }
            assert forall|e: Entity| want.contains_key(e) implies #[trigger] self@[e] == want[e] by {
                if handles.contains(e) {
                    let k = handles.index_of(e);
                    assert(added.ids[k] == e.id);
                } else {
                    if ids@.contains(e.id) {
                        let k = ids@.index_of(e.id);
                        assert(handles[k] == e);
                    }
                    assert(components_at(locations, tables, e.id as int) == components_at(
                        after,
                        stored,
                        e.id as int,
                    ));
                    assert(components_at(locations, before.tables(), e.id as int)
                        == components_at(locations, tables, e.id as int));
                }
            }
            assert(self@ =~= want);
        }
    }

    /// Ensure `additional` entities with exactly these components can be spawned without
    /// reallocating
    pub fn reserve(&mut self, types: &[TypeInfo], additional: u32)
        requires
            old(self).wf(),
            distinct_types(types@),
            old(self).accepts(type_ids(types@).to_set()),
        ensures
            final(self).wf(),
            final(self).ids() == old(self).ids().flushed(),
            final(self)@ == old(self)@,
            final(self).layout() == with_types(old(self).layout(), type_ids(types@).to_set()),
            final(self).model() == old(self).model().reserve(type_ids(types@).to_set()),
    {
        self.reserve_inner(types, additional);
    }

    /// Makes room for `additional` entities
    ///
    /// Returns the archetype they will live in.
    fn reserve_inner(&mut self, types: &[TypeInfo], additional: u32) -> (r: u32)
        requires
            old(self).wf(),
            distinct_types(types@),
            old(self).accepts(type_ids(types@).to_set()),
        ensures
            final(self).wf(),
            final(self).ids() == old(self).ids().flushed(),
            final(self)@ == old(self)@,
            final(self).layout() == with_types(old(self).layout(), type_ids(types@).to_set()),
            (r as int) < final(self).tables().len(),
            strictly_sorted(final(self).tables()[r as int].types),
            final(self).tables()[r as int].types.to_set() == type_ids(types@).to_set(),
    {
        self.flush();
        let ghost before = *self;
        proof {
            old(self).ids().lemma_flushed();
        }
        self.entities.reserve(additional);
        let ids = sorted_type_ids(types);
        assert(self.tables() == before.tables());
        assert(self@ == before@);
        let archetype_id = self.archetype_with(ids, Ghost(Set::empty()));
        let ghost middle = *self;
        assert(self.tables()[archetype_id as int] == self.archetypes@[archetype_id as int]@);
        let archetype: &mut Archetype<C> = &mut self.archetypes[archetype_id as usize];
        archetype.reserve(additional);
        assert(self.tables() =~= middle.tables());
        archetype_id
    }

    /// Creates an entity in a given archetype
    fn spawn_one(&mut self, archetype_id: u32, components: Bundle<C>) -> (r: Entity)
        requires
            old(self).wf(),
            old(self).ids().is_flushed(),
            old(self).has_room(1),
            (archetype_id as int) < old(self).tables().len(),
            components.wf(),
            components.ids() == old(self).tables()[archetype_id as int].types,
        ensures
            final(self).wf(),
            r == old(self).ids().next(),
            final(self).ids() == old(self).ids().alloc_one(),
            final(self)@ == old(self)@.insert(r, components@),
            final(self).layout() == old(self).layout(),
            final(self).tables().len() == old(self).tables().len(),
            forall|a: int|
                0 <= a < old(self).tables().len() ==> (#[trigger] final(self).tables()[a]).types
                    == old(self).tables()[a].types,
    {
        let entity = self.open_one();
        let ghost holes = set![entity.id];
        self.add_row(archetype_id, entity.id, components, Ghost(holes));
        proof {
            assert(holes.remove(entity.id) =~= Set::empty());
            assert(self@ =~= old(self)@.insert(entity, components@));
        }
        entity
    }

    /// Efficiently spawn a large number of entities with the same components
    ///
    /// Faster than calling `spawn` repeatedly with the same components. All entities are there when
    /// this returns; the iterator hands out their IDs.
    pub fn spawn_batch(&mut self, types: &[TypeInfo], iter: Vec<Bundle<C>>) -> (r: SpawnBatchIter)
        requires
            old(self).wf(),
            distinct_types(types@),
            forall|i: int|
                #![trigger iter@[i]]
                0 <= i < iter@.len() ==> iter@[i].wf() && iter@[i]@.dom() == type_ids(
                    types@,
                ).to_set(),
            old(self).has_room(iter@.len() as int),
            old(self).accepts(type_ids(types@).to_set()),
        ensures
            final(self).wf(),
            r.wf(),
            r.remaining() == old(self).ids().flushed().alloc_list(iter@.len() as int),
            final(self).ids() == old(self).ids().flushed().alloc_n(iter@.len() as int),
            final(self)@ == with_entities(
                old(self)@,
                old(self).ids().flushed().alloc_list(iter@.len() as int),
                iter@.map_values(|b: Bundle<C>| b@),
            ),
            final(self).layout() == with_types(old(self).layout(), type_ids(types@).to_set()),
            final(self).model() == old(self).model().spawn_batch(
                type_ids(types@).to_set(),
                iter@.map_values(|b: Bundle<C>| b@),
            ),
            r.remaining().len() == iter@.len(),
            r.remaining().no_duplicates(),
            forall|i: int|
                #![trigger r.remaining()[i]]
                0 <= i < iter@.len() ==> {
                    &&& !old(self)@.contains_key(r.remaining()[i])
                    &&& final(self)@.contains_key(r.remaining()[i])
                    &&& final(self)@[r.remaining()[i]] == iter@[i]@
                },
            forall|e: Entity| #[trigger]
                old(self)@.contains_key(e) ==> final(self)@.contains_key(e) && final(self)@[e]
                    == old(self)@[e],
            forall|e: Entity| #[trigger]
                final(self)@.contains_key(e) ==> old(self)@.contains_key(e)
                    || r.remaining().contains(e),
    {
        let ghost n = iter@.len() as int;
        let ghost rows = iter@.map_values(|b: Bundle<C>| b@);
        let ghost bundles = iter@;
        proof {
            old(self).ids().lemma_flushed();
            assert(old(self).ids().population() >= 0) by {
                assert(old(self).entities.wf());
            }
        }
        let archetype_id = self.reserve_inner(types, iter.len() as u32);
        let ghost before = *self;
        let ghost state = before.ids();
        let ghost own = before.tables()[archetype_id as int].types;
        let mut entities: Vec<Entity> = Vec::new();
        proof {
            assert(state.alloc_list(0) =~= Seq::empty());
            assert(before@ =~= with_entities(before@, state.alloc_list(0), rows.take(0)));
        }
        for components in it: iter
            invariant
                it.seq() == bundles,
                n == bundles.len(),
                rows == bundles.map_values(|b: Bundle<C>| b@),
                forall|i: int|
                    #![trigger bundles[i]]
                    0 <= i < n ==> bundles[i].wf() && bundles[i]@.dom() == own.to_set(),
                strictly_sorted(own),
                state.wf(),
                state.is_flushed(),
                state.population() + n <= u32::MAX,
                self.wf(),
                self.ids() == state.alloc_n(it.index() as int),
                self@ == with_entities(
                    before@,
                    state.alloc_list(it.index() as int),
                    rows.take(it.index() as int),
                ),
                self.layout() == before.layout(),
                (archetype_id as int) < self.tables().len(),
                self.tables()[archetype_id as int].types == own,
                entities@ == state.alloc_list(it.index() as int),
        {
            let ghost i = it.index() as int;
            proof {
                assert(components == bundles[i]);
                state.lemma_alloc_n(i);
                state.lemma_alloc_n(i + 1);
                lemma_zip_map_dom(components.ids(), components.cells());
                lemma_sorted_unique(components.ids(), own);
            }
            let entity = self.spawn_one(archetype_id, components);
            entities.push(entity);
            proof {
                let list = state.alloc_list(i);
                let more = state.alloc_list(i + 1);
                assert(more =~= list.push(entity));
                assert(rows.take(i + 1) =~= rows.take(i).push(components@));
                if list.contains(entity) {
                    let k = list.index_of(entity);
                    assert(more[k] == more[i]);
                }
                lemma_with_entities_push(before@, list, rows.take(i), entity, components@);
            }
        }
        let r = SpawnBatchIter { entities, index: 0 };
        proof {
            assert(rows.take(n) =~= rows);
            assert(r.remaining() =~= state.alloc_list(n));
            state.lemma_alloc_n(n);
            lemma_listed(before@, state.alloc_list(n), rows);
        }
        r
    }

    /// Super-efficiently spawn the contents of a [`ColumnBatch`]
    ///
    /// The fastest, but most specialized, way to spawn large numbers of entities. Useful for high
    /// performance deserialization.
    pub fn spawn_column_batch(&mut self, batch: ColumnBatch<C>) -> (r: SpawnColumnBatchIter<'_>)
        requires
            old(self).wf(),
            batch.wf(),
            old(self).has_room(batch@.len() as int),
            old(self).accepts(batch.types()),
        ensures
            final(self).wf(),
            r.wf(),
            r.remaining() == old(self).ids().flushed().batch(batch@.len() as int),
            final(self).ids() == old(self).ids().flushed().alloc_many(batch@.len() as int),
            final(self)@ == with_entities(
                old(self)@,
                old(self).ids().flushed().batch(batch@.len() as int),
                batch@,
            ),
            final(self).layout() == with_types(old(self).layout(), batch.types()),
            final(self).model() == old(self).model().spawn_column_batch(batch.types(), batch@),
            r.remaining().len() == batch@.len(),
            r.remaining().no_duplicates(),
            forall|i: int|
                #![trigger r.remaining()[i]]
                0 <= i < batch@.len() ==> {
                    &&& !old(self)@.contains_key(r.remaining()[i])
                    &&& final(self)@.contains_key(r.remaining()[i])
                    &&& final(self)@[r.remaining()[i]] == batch@[i]
                },
            forall|e: Entity| #[trigger]
                old(self)@.contains_key(e) ==> final(self)@.contains_key(e) && final(self)@[e]
                    == old(self)@[e],
            forall|e: Entity| #[trigger]
                final(self)@.contains_key(e) ==> old(self)@.contains_key(e)
                    || r.remaining().contains(e),
    {
        self.flush();
        let ghost before = *self;
        let ghost n = batch@.len() as int;
        let entity_count = batch.len();
        let archetype = batch.into_archetype();
        proof {
            archetype.lemma_table();
            old(self).ids().lemma_flushed();
            before.ids().lemma_alloc_many(n);
        }
        let ids = self.open_many(entity_count);
        let ghost holes = ids@.to_set();
        let ghost handles = before.ids().batch(n);
        proof {
            assert(entities_at(self.ids(), ids@) =~= handles);
            assert forall|k: int|
                #![trigger ids@[k]]
                0 <= k < ids@.len() implies holes.contains(ids@[k]) by {}
        }
        self.place_rows(archetype, ids.as_slice(), Ghost(holes));
        proof {
            assert(holes.difference(holes) =~= Set::empty());
            lemma_with_entities_again(old(self)@, handles, empties::<C>(n), batch@);
            lemma_listed(old(self)@, handles, batch@);
        }
        // Return iterator over new IDs
        let r = SpawnColumnBatchIter { ids, index: 0, entities: &self.entities };
        assert(r.remaining() =~= handles);
        r
    }

    /// Hybrid of `spawn_column_batch` and `spawn_at`
    pub fn spawn_column_batch_at(&mut self, handles: &[Entity], batch: ColumnBatch<C>)
        requires
            old(self).wf(),
            batch.wf(),
            handles@.len() == batch@.len(),
            entity_ids(handles@).no_duplicates(),
            old(self).ids().flushed().alloc_all_at(handles@).population() <= u32::MAX,
            old(self).accepts(batch.types()),
        ensures
            final(self).wf(),
            final(self).ids() == old(self).ids().flushed().alloc_all_at(handles@),
            final(self)@ == with_entities(
                without_ids(old(self)@, entity_ids(handles@).to_set()),
                handles@,
                batch@,
            ),
            final(self).layout() == with_types(old(self).layout(), batch.types()),
            final(self).model() == old(self).model().spawn_column_batch_at(
                handles@,
                batch.types(),
                batch@,
            ),
            forall|i: int|
                #![trigger handles@[i]]
                0 <= i < handles@.len() ==> final(self)@.contains_key(handles@[i])
                    && final(self)@[handles@[i]] == batch@[i],
            forall|e: Entity|
                (forall|i: int| 0 <= i < handles@.len() ==> (#[trigger] handles@[i]).id != e.id)
                    ==> #[trigger] final(self)@.contains_key(e) == old(self)@.contains_key(e),
            forall|e: Entity|
                (forall|i: int| 0 <= i < handles@.len() ==> (#[trigger] handles@[i]).id != e.id)
                    && old(self)@.contains_key(e) ==> #[trigger] final(self)@[e] == old(self)@[e],
            forall|e: Entity, i: int|
                #![trigger final(self)@.contains_key(e), handles@[i]]
                0 <= i < handles@.len() && handles@[i].id == e.id && final(self)@.contains_key(e)
                    ==> e == handles@[i],
    {
        self.flush();
        let ghost before = *self;
        let ghost state = before.ids();
        let ghost ids_of = entity_ids(handles@);
        proof {
            old(self).ids().lemma_flushed();
            assert(entity_ids(handles@.take(0)).to_set() =~= Set::empty());
            assert(before@ =~= with_entities(
                without_ids(before@, entity_ids(handles@.take(0)).to_set()),
                handles@.take(0),
                empties::<C>(0),
            ));
        }
        let mut ids: Vec<u32> = Vec::new();
        // Drop components of entities that will be replaced
        for i in 0..handles.len()
            invariant
                ids_of == entity_ids(handles@),
                ids_of.no_duplicates(),
                ids@ == ids_of.take(i as int),
                state.wf(),
                state.is_flushed(),
                state.alloc_all_at(handles@).population() <= u32::MAX,
                self.inv(entity_ids(handles@.take(i as int)).to_set(), None),
                self.ids() == state.alloc_all_at(handles@.take(i as int)),
                self@ == with_entities(
                    without_ids(before@, entity_ids(handles@.take(i as int)).to_set()),
                    handles@.take(i as int),
                    empties(i as int),
                ),
                self.layout() == before.layout(),
                forall|k: int|
                    #![trigger ids_of[k]]
                    0 <= k < i ==> (ids_of[k] as int) < self.ids().generations.len(),
        {
            let ghost so_far = *self;
            let handle = handles[i];
            let ghost list = handles@.take(i as int);
            let ghost more = handles@.take(i + 1);
            let ghost holes = entity_ids(list).to_set();
            proof {
                assert(more.drop_last() =~= list);
                assert(more.last() == handle);
                assert(ids_of[i as int] == handle.id);
                assert(entity_ids(list) =~= ids_of.take(i as int));
                assert(entity_ids(more) =~= ids_of.take(i + 1));
                state.lemma_alloc_all_at_grows(handles@, i as int);
                state.lemma_alloc_all_at_grows(handles@, i + 1);
                assert forall|id: u32| #[trigger] holes.contains(id) implies id
                    < self.ids().generations.len() by {
                    let k = entity_ids(list).index_of(id);
                    assert(ids_of[k] == id);
                }
                if holes.contains(handle.id) {
                    let k = entity_ids(list).index_of(handle.id);
                    assert(ids_of[k] == ids_of[i as int]);
                }
            }
            self.open_at(handle, Ghost(holes));
            ids.push(handle.id);
            proof {
                so_far.ids().lemma_alloc_at(handle);
                lemma_replace_step(before@, handles@, i as int);
                assert(ids@ =~= ids_of.take(i + 1));
            }
        }
        let archetype = batch.into_archetype();
        let ghost holes = ids_of.to_set();
        let ghost n = handles@.len() as int;
        proof {
            archetype.lemma_table();
            assert(handles@.take(n) =~= handles@);
            assert(ids@ =~= ids_of);
            state.lemma_alloc_all_at(handles@);
            assert forall|k: int| 0 <= k < n implies #[trigger] handles@[k] == self.ids().entity_at(
                ids_of[k],
            ) && !self.ids().pending.contains(ids_of[k]) by {
                assert(self.ids().contains(handles@[k]));
                assert(self.ids().free() =~= self.ids().pending);
            }
            assert(entities_at(self.ids(), ids@) =~= handles@);
            assert forall|k: int|
                #![trigger ids@[k]]
                0 <= k < ids@.len() implies (ids@[k] as int) < self.ids().generations.len()
                && holes.contains(ids@[k]) && !self.ids().pending.contains(ids@[k]) by {
                assert(ids_of[k] == handles@[k].id);
            }
        }
        // Store components
        self.place_rows(archetype, ids.as_slice(), Ghost(holes));
        proof {
            assert(holes.difference(holes) =~= Set::empty());
            lemma_with_entities_again(
                without_ids(before@, holes),
                handles@,
                empties::<C>(n),
                batch@,
            );
            let rest = without_ids(before@, holes);
            assert forall|i: int, j: int|
                0 <= i < handles@.len() && 0 <= j < handles@.len() && i != j implies handles@[i]
                != handles@[j] by {
                assert(ids_of[i] != ids_of[j]);
            }
            lemma_listed(rest, handles@, batch@);
            assert forall|e: Entity| #[trigger] ids_of.contains(e.id) == exists|i: int|
                0 <= i < handles@.len() && (#[trigger] handles@[i]).id == e.id by {
                if ids_of.contains(e.id) {
                    assert(handles@[ids_of.index_of(e.id)].id == e.id);
                }
                if exists|i: int| 0 <= i < handles@.len() && (#[trigger] handles@[i]).id == e.id {
                    let i = choose|i: int|
                        0 <= i < handles@.len() && (#[trigger] handles@[i]).id == e.id;
                    assert(ids_of[i] == e.id);
                }
            }
            assert forall|e: Entity| #[trigger] handles@.contains(e) implies ids_of.contains(
                e.id,
            ) by {
                assert(ids_of[handles@.index_of(e)] == e.id);
            }
            assert forall|e: Entity, i: int|
                #![trigger self@.contains_key(e), handles@[i]]
                0 <= i < handles@.len() && handles@[i].id == e.id && self@.contains_key(e) implies e
                == handles@[i] by {
                assert(ids_of[i] == e.id);
                assert(handles@.contains(e));
                let k = handles@.index_of(e);
                assert(ids_of[k] == ids_of[i]);
            }
        }
    }
}

/// What a listed entity has.
proof fn lemma_listed<C>(
    entities: Map<Entity, Map<u64, C>>,
    handles: Seq<Entity>,
    rows: Seq<Map<u64, C>>,
)
    requires
        handles.no_duplicates(),
        handles.len() == rows.len(),
    ensures
        forall|i: int|
            #![trigger handles[i]]
            0 <= i < handles.len() ==> with_entities(entities, handles, rows).contains_key(
                handles[i],
            ) && with_entities(entities, handles, rows)[handles[i]] == rows[i],
{
    assert forall|i: int|
        #![trigger handles[i]]
        0 <= i < handles.len() implies with_entities(entities, handles, rows).contains_key(
        handles[i],
    ) && with_entities(entities, handles, rows)[handles[i]] == rows[i] by {
        assert(handles.contains(handles[i]));
        let k = handles.index_of(handles[i]);
        assert(handles[k] == handles[i]);
    }
}

/// An id that is not pending belongs to an entity.
proof fn lemma_not_pending(state: IdState, id: u32)
    requires
        !state.pending.contains(id),
        state.cursor <= state.pending.len(),
        (id as int) < state.generations.len(),
    ensures
        state.contains(state.entity_at(id)),
{
    if state.free().contains(id) {
        let k = state.free().index_of(id);
        assert(state.pending[k] == id);
    }
}

/// One more entity is replaced by one without components.
proof fn lemma_replace_step<C>(
    entities: Map<Entity, Map<u64, C>>,
    handles: Seq<Entity>,
    i: int,
)
    requires
        0 <= i < handles.len(),
        entity_ids(handles).no_duplicates(),
    ensures
        entity_ids(handles.take(i + 1)).to_set() == entity_ids(handles.take(i)).to_set().insert(
            handles[i].id,
        ),
        without_id(
            with_entities(
                without_ids(entities, entity_ids(handles.take(i)).to_set()),
                handles.take(i),
                empties::<C>(i),
            ),
            handles[i].id,
        ).insert(handles[i], Map::empty()) == with_entities(
            without_ids(entities, entity_ids(handles.take(i + 1)).to_set()),
            handles.take(i + 1),
            empties::<C>(i + 1),
        ),
{
    let list = handles.take(i);
    let more = handles.take(i + 1);
    let ids = entity_ids(list);
    let ids2 = entity_ids(more);
    let all = entity_ids(handles);
    assert forall|x: u32| #[trigger] ids2.contains(x) == (ids.contains(x) || x == handles[i].id) by {
        if ids.contains(x) {
            assert(ids2[ids.index_of(x)] == x);
        }
        assert(ids2[i] == handles[i].id);
        if ids2.contains(x) {
            let k = ids2.index_of(x);
            if k < i {
                assert(ids[k] == x);
            }
        }
    }
    assert(ids2.to_set() =~= ids.to_set().insert(handles[i].id));
    assert forall|e: Entity| #[trigger] more.contains(e) == (list.contains(e) || e
        == handles[i]) by {
        if list.contains(e) {
            assert(more[list.index_of(e)] == e);
        }
        assert(more[i] == handles[i]);
        if more.contains(e) {
            let k = more.index_of(e);
            if k < i {
                assert(list[k] == e);
            }
        }
    }
    assert forall|e: Entity| #[trigger] list.contains(e) implies e.id != handles[i].id by {
        let k = list.index_of(e);
        assert(all[k] == e.id);
        assert(all[i] == handles[i].id);
    }
    let a = without_id(
        with_entities(without_ids(entities, ids.to_set()), list, empties::<C>(i)),
        handles[i].id,
    ).insert(handles[i], Map::empty());
    let b = with_entities(without_ids(entities, ids2.to_set()), more, empties::<C>(i + 1));
    assert(a =~= b);
}

/// The handles still to come after one step.
pub open spec fn advanced(list: Seq<Entity>) -> Seq<Entity> {
    if list.len() > 0 {
        list.skip(1)
    } else {
        list
    }
}

/// Entity IDs created by `World::spawn_batch`
pub struct SpawnBatchIter {
    entities: Vec<Entity>,
    index: usize,
}

impl SpawnBatchIter {
    pub closed spec fn wf(&self) -> bool {
        self.index <= self.entities@.len()
    }

    /// The handles still to come.
    pub closed spec fn remaining(&self) -> Seq<Entity> {
        self.entities@.skip(self.index as int)
    }

    /// The next handle
    pub fn next(&mut self) -> (r: Option<Entity>)
        requires
            old(self).wf(),
        ensures
            final(self).wf(),
            r == (if old(self).remaining().len() > 0 {
                Some(old(self).remaining()[0])
            } else {
                None
            }),
            final(self).remaining() == advanced(old(self).remaining()),
            final(self).remaining() == (if old(self).remaining().len() > 0 {
                old(self).remaining().skip(1)
            } else {
                old(self).remaining()
            }),
    {
        if self.index == self.entities.len() {
            return None;
        }
        let ghost before = *self;
        let entity = self.entities[self.index];
        self.index = self.index + 1;
        assert(self.remaining() =~= before.remaining().skip(1));
        Some(entity)
    }

    /// The number of handles still to come
    pub fn len(&self) -> (r: usize)
        requires
            self.wf(),
        ensures
            r == self.remaining().len(),
    {
        self.entities.len() - self.index
    }

    /// The bounds on the number of handles still to come
    pub fn size_hint(&self) -> (r: (usize, Option<usize>))
        requires
            self.wf(),
        ensures
            r.0 == self.remaining().len(),
            r.1 == Some(r.0),
    {
        (self.len(), Some(self.len()))
    }
}

/// Iterator over [`Entity`]s spawned by [`World::spawn_column_batch()`]
pub struct SpawnColumnBatchIter<'a> {
    ids: Vec<u32>,
    index: usize,
    entities: &'a Entities,
}

impl<'a> SpawnColumnBatchIter<'a> {
    pub closed spec fn wf(&self) -> bool {
        self.index <= self.ids@.len()
    }

    /// The handles still to come.
    pub closed spec fn remaining(&self) -> Seq<Entity> {
        entities_at(self.entities.ids(), self.ids@.skip(self.index as int))
    }

    /// The next handle
    pub fn next(&mut self) -> (r: Option<Entity>)
        requires
            old(self).wf(),
        ensures
            final(self).wf(),
            r == (if old(self).remaining().len() > 0 {
                Some(old(self).remaining()[0])
            } else {
                None
            }),
            final(self).remaining() == advanced(old(self).remaining()),
            final(self).remaining() == (if old(self).remaining().len() > 0 {
                old(self).remaining().skip(1)
            } else {
                old(self).remaining()
            }),
    {
        if self.index == self.ids.len() {
            return None;
        }
        let ghost before = *self;
        let id = self.ids[self.index];
        self.index = self.index + 1;
        assert(self.remaining() =~= before.remaining().skip(1));
        Some(self.entities.resolve_unknown_gen(id))
    }

    /// The number of handles still to come
    pub fn len(&self) -> (r: usize)
        requires
            self.wf(),
        ensures
            r == self.remaining().len(),
    {
        self.ids.len() - self.index
    }

    /// The bounds on the number of handles still to come
    pub fn size_hint(&self) -> (r: (usize, Option<usize>))
        requires
            self.wf(),
        ensures
            r.0 == self.remaining().len(),
            r.1 == Some(r.0),
    {
        (self.len(), Some(self.len()))
    }
}

} // verus!
