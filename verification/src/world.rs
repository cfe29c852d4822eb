//! The world: entities and their components.
mod access;
pub mod batch;
mod edit;
pub mod iter;
pub mod search;
mod spawn;
pub mod state;

use crate::archetype::{Archetype, Table};
use crate::bundle::Bundle;
use crate::entities::{nowhere, nowheres, Entities, Entity, IdState, Location};
use crate::links::{
    at, components_at, lemma_detach, lemma_fill, lemma_new_table, lemma_relabel, lemma_rewrite,
    lemma_table_room, lemma_unlink, linked, row_exists, tables_wf, vacant,
};
use crate::model::Model;
use crate::type_index::{index_entry, index_get, index_insert, index_map, index_new, TypeIndex};
use crate::types::{lemma_sorted_unique, lemma_zip_map_dom, strictly_sorted, Component};
use vstd::prelude::*;

verus! {

/// An unordered collection of entities, each having any number of distinctly typed components
///
/// Similar to `HashMap<Entity, Vec<C>>` where each `Vec` never contains two components of the
/// same type, but far more efficient to traverse.
///
/// The components of entities who have the same set of component types are stored in contiguous
/// runs, allowing for extremely fast, cache-friendly iteration.
///
/// There is a maximum number of unique entity IDs, which means that there is a maximum number of
/// live entities. When old entities are despawned, their IDs will be reused on a future entity,
/// and old `Entity` values with that ID will be invalidated.
///
/// ### Collisions
///
/// If an entity is despawned and its `Entity` handle is preserved over the course of billions of
/// following spawns and despawns, that handle may, in rare circumstances, collide with a
/// newly-allocated `Entity` handle. Very long-lived applications should therefore limit the period
/// over which they may retain handles of despawned entities.
pub struct World<C> {
    entities: Entities,
    index: TypeIndex,
    archetypes: Vec<Archetype<C>>,
    archetype_generation: u64,
}

/// The index holds each archetype under its types, and nothing else.
pub open spec fn index_wf<C>(index: Map<Seq<u64>, u32>, tables: Seq<Table<C>>) -> bool {
    &&& forall|a: int|
        #![trigger tables[a]]
        0 <= a < tables.len() ==> index.contains_key(tables[a].types) && index[tables[a].types] == a
    &&& forall|k: Seq<u64>| #[trigger]
        index.contains_key(k) ==> (index[k] as int) < tables.len() && tables[index[k] as int].types
            == k
}

/// What the entities of an allocator have.
pub open spec fn contents<C>(
    ids: IdState,
    locations: Seq<Location>,
    tables: Seq<Table<C>>,
) -> Map<Entity, Map<u64, C>> {
    Map::new(|e: Entity| ids.contains(e), |e: Entity| components_at(locations, tables, e.id as int))
}

/// The type sets of archetypes after one was looked up, and added if there was none.
pub open spec fn with_types(layout: Seq<Set<u64>>, types: Set<u64>) -> Seq<Set<u64>> {
    if layout.contains(types) {
        layout
    } else {
        layout.push(types)
    }
}

/// Entities without the one that has this id.
pub open spec fn without_id<C>(
    entities: Map<Entity, Map<u64, C>>,
    id: u32,
) -> Map<Entity, Map<u64, C>> {
    Map::new(|e: Entity| entities.contains_key(e) && e.id != id, |e: Entity| entities[e])
}

/// Entities without those that have one of these ids.
pub open spec fn without_ids<C>(
    entities: Map<Entity, Map<u64, C>>,
    ids: Set<u32>,
) -> Map<Entity, Map<u64, C>> {
    Map::new(|e: Entity| entities.contains_key(e) && !ids.contains(e.id), |e: Entity| entities[e])
}

/// Entities together with the listed ones, which have the listed components.
pub open spec fn with_entities<C>(
    entities: Map<Entity, Map<u64, C>>,
    handles: Seq<Entity>,
    rows: Seq<Map<u64, C>>,
) -> Map<Entity, Map<u64, C>> {
    Map::new(
        |e: Entity| entities.contains_key(e) || handles.contains(e),
        |e: Entity|
            if handles.contains(e) {
                rows[handles.index_of(e)]
            } else {
                entities[e]
            },
    )
}

/// `n` times no components.
pub open spec fn empties<C>(n: int) -> Seq<Map<u64, C>> {
    Seq::new(n as nat, |i: int| Map::empty())
}

/// One more listed entity.
pub(crate) proof fn lemma_with_entities_push<C>(
    entities: Map<Entity, Map<u64, C>>,
    handles: Seq<Entity>,
    rows: Seq<Map<u64, C>>,
    handle: Entity,
    row: Map<u64, C>,
)
    requires
        handles.no_duplicates(),
        handles.len() == rows.len(),
        !handles.contains(handle),
    ensures
        with_entities(entities, handles.push(handle), rows.push(row)) == with_entities(
            entities,
            handles,
            rows,
        ).insert(handle, row),
        handles.push(handle).no_duplicates(),
{
    let more = handles.push(handle);
    let a = with_entities(entities, more, rows.push(row));
    let b = with_entities(entities, handles, rows).insert(handle, row);
    let n = handles.len() as int;
    assert(more.no_duplicates()) by {
        assert forall|i: int, j: int| 0 <= i < j < more.len() implies more[i] != more[j] by {
            assert(more[i] == handles[i]);
            assert(handles.contains(handles[i]));
            if j < n {
                assert(more[j] == handles[j]);
            }
        }
    }
    assert forall|e: Entity| #[trigger] more.contains(e) == (handles.contains(e) || e == handle) by {
        if handles.contains(e) {
            assert(more[handles.index_of(e)] == e);
        }
        assert(more[n] == handle);
        if more.contains(e) {
            let k = more.index_of(e);
            if k < n {
                assert(handles[k] == e);
            }
        }
    }
    assert forall|e: Entity| b.contains_key(e) implies #[trigger] a[e] == b[e] by {
        if more.contains(e) {
            let k = more.index_of(e);
            assert(more[k] == e);
            if k < n {
                assert(handles[k] == e);
                assert(handles.index_of(e) == k);
            }
        }
    }
    assert(a =~= b);
}

/// Components that are listed last are the ones that count.
proof fn lemma_with_entities_again<C>(
    entities: Map<Entity, Map<u64, C>>,
    handles: Seq<Entity>,
    rows: Seq<Map<u64, C>>,
    rows2: Seq<Map<u64, C>>,
)
    ensures
        with_entities(with_entities(entities, handles, rows), handles, rows2) == with_entities(
            entities,
            handles,
            rows2,
        ),
{
    assert(with_entities(with_entities(entities, handles, rows), handles, rows2) =~= with_entities(
        entities,
        handles,
        rows2,
    ));
}

/// Where the contents come from does not matter.
proof fn lemma_contents_eq<C>(
    ids: IdState,
    locations: Seq<Location>,
    tables: Seq<Table<C>>,
    ids2: IdState,
    locations2: Seq<Location>,
    tables2: Seq<Table<C>>,
)
    requires
        forall|e: Entity| #[trigger] ids2.contains(e) == ids.contains(e),
        forall|i: int|
            components_at(locations2, tables2, i) == #[trigger] components_at(
                locations,
                tables,
                i,
            ),
    ensures
        contents(ids2, locations2, tables2) == contents(ids, locations, tables),
{
    let a = contents(ids, locations, tables);
    let b = contents(ids2, locations2, tables2);
    assert forall|e: Entity| a.contains_key(e) implies #[trigger] b[e] == a[e] by {
        assert(components_at(locations, tables, e.id as int) == components_at(
            locations2,
            tables2,
            e.id as int,
        ));
    }
    assert(b =~= a);
}

impl<C> View for World<C> {
    type V = Map<Entity, Map<u64, C>>;

    /// The entities that exist or are reserved, each with its components by type.
    closed spec fn view(&self) -> Map<Entity, Map<u64, C>> {
        contents(self.entities.ids(), self.entities.locations(), self.tables())
    }
}

impl<C> World<C> {
    /// Which ids are in use.
    pub closed spec fn ids(&self) -> IdState {
        self.entities.ids()
    }

    /// The archetypes, as values.
    pub closed spec fn tables(&self) -> Seq<Table<C>> {
        self.archetypes@.map_values(|a: Archetype<C>| a@)
    }

    /// The component types of each archetype.
    pub open spec fn layout(&self) -> Seq<Set<u64>> {
        self.tables().map_values(|t: Table<C>| t.types.to_set())
    }

    /// The number of entities stays within the range of `u32` when `n` are added.
    pub open spec fn has_room(&self, n: int) -> bool {
        self.ids().population() + n <= u32::MAX
    }

    /// The number of archetypes stays within the range of `u32` when one with these types is
    /// looked up, and added if there is none.
    pub open spec fn accepts(&self, types: Set<u64>) -> bool {
        with_types(self.layout(), types).len() <= u32::MAX
    }

    /// The archetypes and their index are in order.
    closed spec fn stored(&self) -> bool {
        &&& self.entities.wf()
        &&& 1 <= self.archetypes@.len() <= u32::MAX
        &&& forall|a: int|
            0 <= a < self.archetypes@.len() ==> (#[trigger] self.archetypes@[a]).wf()
        &&& self.archetypes@[0]@.types.len() == 0
        &&& index_wf(index_map(self.index), self.tables())
        &&& self.archetype_generation == self.archetypes@.len() - 1
    }

    /// What holds between two steps of an operation.
    closed spec fn inv(&self, holes: Set<u32>, stray: Option<Location>) -> bool {
        &&& self.stored()
        &&& linked(
            self.entities.ids().pending,
            self.entities.locations(),
            self.tables(),
            holes,
            stray,
        )
    }

    /// Every entity has its row and every row its entity; every archetype is indexed, and no two
    /// have the same types.
    pub closed spec fn wf(&self) -> bool {
        self.inv(Set::empty(), None)
    }

    /// The number of archetypes fits `u32`.
    pub(crate) proof fn lemma_layout_len(&self)
        requires
            self.wf(),
        ensures
            1 <= self.layout().len() <= u32::MAX,
    {
    }

    /// The world holds the entities that exist or are reserved; no two of them share an id.
    pub proof fn lemma_entities(&self)
        requires
            self.wf(),
        ensures
            self.ids().wf(),
            forall|e: Entity| #[trigger] self@.contains_key(e) == self.ids().contains(e),
            forall|e: Entity| #[trigger]
                self.ids().reserved(e) ==> self@.contains_key(e) && self@[e] == Map::<
                    u64,
                    C,
                >::empty(),
            forall|a: Entity, b: Entity|
                #![trigger self@.contains_key(a), self@.contains_key(b)]
                self@.contains_key(a) && self@.contains_key(b) && a.id == b.id ==> a == b,
    {
        assert forall|e: Entity| #[trigger] self.ids().reserved(e) implies self@.contains_key(e)
            && self@[e] == Map::<u64, C>::empty() by {
            self.lemma_reserved_empty(e);
        }
    }

    /// No two archetypes have the same types and none lists a type twice, the first has none, and
    /// every entity that exists is in exactly one row, in the archetype that has exactly the types
    /// of its components.
    pub proof fn lemma_archetypes(&self)
        requires
            self.wf(),
        ensures
            self.layout().no_duplicates(),
            self.layout().len() > 0,
            self.layout()[0] == Set::<u64>::empty(),
            forall|e: Entity| #[trigger]
                self@.contains_key(e) && !self.ids().reserved(e) ==> exists|a: int, r: int|
                    0 <= a < self.tables().len() && 0 <= r < self.tables()[a].ids.len()
                        && #[trigger] self.tables()[a].ids[r] == e.id && self.tables()[a].rows[r]
                        == self@[e] && self.layout()[a] == self@[e].dom(),
            forall|a: int, r: int, b: int, k: int|
                #![trigger self.tables()[a].ids[r], self.tables()[b].ids[k]]
                0 <= a < self.tables().len() && 0 <= r < self.tables()[a].ids.len() && 0 <= b
                    < self.tables().len() && 0 <= k < self.tables()[b].ids.len()
                    && self.tables()[a].ids[r] == self.tables()[b].ids[k] ==> a == b && r == k,
            forall|a: int|
                0 <= a < self.tables().len() ==> strictly_sorted(
                    (#[trigger] self.tables()[a]).types,
                ),
    {
        let tables = self.tables();
        let index = index_map(self.index);
        let ids = self.entities.ids();
        assert(self.layout().no_duplicates()) by {
            assert forall|a: int, b: int|
                0 <= a < tables.len() && 0 <= b < tables.len() && a != b implies self.layout()[a]
                != self.layout()[b] by {
                self.lemma_layout(a);
                self.lemma_layout(b);
                if self.layout()[a] == self.layout()[b] {
                    lemma_sorted_unique(tables[a].types, tables[b].types);
                    assert(index[tables[a].types] == a);
                    assert(index[tables[b].types] == b);
                }
            }
        }
        assert(tables[0] == self.archetypes@[0]@);
        assert(self.layout()[0] =~= Set::<u64>::empty());
        assert forall|a: int, r: int, b: int, k: int|
            #![trigger tables[a].ids[r], tables[b].ids[k]]
            0 <= a < tables.len() && 0 <= r < tables[a].ids.len() && 0 <= b < tables.len() && 0 <= k
                < tables[b].ids.len() && tables[a].ids[r] == tables[b].ids[k] implies a == b && r
            == k by {
            assert(tables[a].wf() && tables[b].wf());
            assert(self.entities.locations()[tables[a].ids[r] as int] == at(a, r));
            assert(self.entities.locations()[tables[b].ids[k] as int] == at(b, k));
        }
        assert forall|e: Entity| #[trigger]
            self@.contains_key(e) && !self.ids().reserved(e) implies exists|a: int, r: int|
            0 <= a < tables.len() && 0 <= r < tables[a].ids.len() && #[trigger] tables[a].ids[r]
                == e.id && tables[a].rows[r] == self@[e] && self.layout()[a] == self@[e].dom() by {
            let l = self.entities.locations()[e.id as int];
            assert(!ids.pending.contains(e.id)) by {
                if ids.pending.contains(e.id) {
                    let k = ids.pending.index_of(e.id);
                    assert(ids.pending[k] == e.id);
                    if k < ids.free_len() {
                        assert(ids.free()[k] == e.id);
                    } else {
                        assert(ids.reserved_ids()[k - ids.free_len()] == e.id);
                    }
                }
            }
            assert(!vacant(ids.pending, Set::empty(), e.id as int));
            assert(row_exists(tables, l));
            self.lemma_located();
            assert(l != nowhere());
            self.lemma_row_of(e);
            let a = l.archetype as int;
            let r = l.index as int;
            assert(tables[a].ids[r] == e.id);
        }
    }

    /// Without holes, an id has a row exactly when it is not pending.
    proof fn lemma_located(&self)
        requires
            self.wf(),
        ensures
            self.entities.located(Set::empty()),
    {
        let pending = self.entities.ids().pending;
        let locations = self.entities.locations();
        assert forall|i: int| 0 <= i < locations.len() implies {
            let empty = pending.contains(i as u32) || Set::<u32>::empty().contains(i as u32);
            if empty {
                #[trigger] locations[i] == nowhere()
            } else {
                locations[i].index != u32::MAX
            }
        } by {
            assert(vacant(pending, Set::empty(), i) == pending.contains(i as u32));
            if !pending.contains(i as u32) {
                assert(row_exists(self.tables(), locations[i]));
                assert(self.tables()[locations[i].archetype as int].wf());
            }
        }
    }

    /// A reserved entity has no components.
    proof fn lemma_reserved_empty(&self, e: Entity)
        requires
            self.wf(),
            self.ids().reserved(e),
        ensures
            self@[e] == Map::<u64, C>::empty(),
    {
        let ids = self.entities.ids();
        self.lemma_located();
        if (e.id as int) < ids.generations.len() {
            let k = ids.reserved_ids().index_of(e.id);
            assert(ids.pending[ids.free_len() + k] == e.id);
            assert(self.entities.locations()[e.id as int] == nowhere());
        }
    }

    /// What the layout says of one archetype.
    proof fn lemma_layout(&self, a: int)
        requires
            tables_wf(self.tables()),
            0 <= a < self.tables().len(),
        ensures
            self.layout()[a] == self.tables()[a].types.to_set(),
            strictly_sorted(self.tables()[a].types),
    {
        assert(self.tables()[a].wf());
    }

    /// Where an entity that is not reserved is stored.
    proof fn lemma_row_of(&self, entity: Entity)
        requires
            self.wf(),
            self.ids().contains(entity),
            self.ids().is_flushed() || ((entity.id as int) < self.entities.locations().len()
                && self.entities.locations()[entity.id as int] != nowhere()),
        ensures
            (entity.id as int) < self.entities.locations().len(),
            !self.entities.ids().pending.contains(entity.id),
            row_exists(self.tables(), self.entities.locations()[entity.id as int]),
            ({
                let l = self.entities.locations()[entity.id as int];
                let table = self.tables()[l.archetype as int];
                &&& table.wf()
                &&& table.ids[l.index as int] == entity.id
                &&& self@[entity] == table.rows[l.index as int]
                &&& self@[entity].dom() == table.types.to_set()
            }),
    {
        let ids = self.entities.ids();
        let l = self.entities.locations()[entity.id as int];
        if ids.is_flushed() {
            assert(ids.free() =~= ids.pending);
        }
        assert(!vacant(ids.pending, Set::empty(), entity.id as int));
        assert(row_exists(self.tables(), l));
        let table = self.tables()[l.archetype as int];
        assert(table.wf());
        assert(table.rows[l.index as int].dom() == table.types.to_set());
    }

    /// An entity that is reserved, or whose archetype is the one without types, has no
    /// components.
    proof fn lemma_no_components(&self, entity: Entity)
        requires
            self.wf(),
            self.ids().contains(entity),
            (entity.id as int) < self.entities.locations().len()
                ==> self.entities.locations()[entity.id as int].archetype == 0,
        ensures
            self@[entity] == Map::<u64, C>::empty(),
    {
        let locations = self.entities.locations();
        if (entity.id as int) < locations.len() && locations[entity.id as int] != nowhere() {
            self.lemma_row_of(entity);
            assert(self.tables()[0] == self.archetypes@[0]@);
            assert(self@[entity].dom() =~= Set::<u64>::empty());
        }
        assert(self@[entity] =~= Map::<u64, C>::empty());
    }

    /// A listing is indexed exactly when an archetype has these types.
    proof fn lemma_known(&self, types: Seq<u64>)
        requires
            index_wf(index_map(self.index), self.tables()),
            tables_wf(self.tables()),
            strictly_sorted(types),
        ensures
            index_map(self.index).contains_key(types) == self.layout().contains(types.to_set()),
    {
        let tables = self.tables();
        if index_map(self.index).contains_key(types) {
            let a = index_map(self.index)[types] as int;
            assert(tables[a].types == types);
            assert(self.layout()[a] == types.to_set());
        }
        if self.layout().contains(types.to_set()) {
            let a = self.layout().index_of(types.to_set());
            assert(self.layout()[a] == tables[a].types.to_set());
            assert(tables[a].wf());
            lemma_sorted_unique(tables[a].types, types);
        }
    }
}

/// What adding an archetype keeps.
proof fn lemma_pushed<C>(before: World<C>, after: World<C>, table: Table<C>)
    requires
        before.stored(),
        tables_wf(before.tables()),
        before.accepts(table.types.to_set()),
        strictly_sorted(table.types),
        !index_map(before.index).contains_key(table.types),
        after.entities == before.entities,
        after.archetypes@.len() == before.archetypes@.len() + 1,
        after.archetypes@.drop_last() == before.archetypes@,
        after.archetypes@.last().wf(),
        after.archetypes@.last()@ == table,
        index_map(after.index) == index_map(before.index).insert(
            table.types,
            before.archetypes@.len() as u32,
        ),
        after.archetype_generation == before.archetype_generation + 1,
    ensures
        after.stored(),
        after.tables() == before.tables().push(table),
        after.layout() == with_types(before.layout(), table.types.to_set()),
{
    let types = table.types;
    let tables = before.tables();
    let n = tables.len() as int;
    before.lemma_known(types);
    assert(after.tables() =~= tables.push(table)) by {
        assert forall|a: int| 0 <= a < n implies #[trigger] after.tables()[a] == tables[a] by {
            assert(after.archetypes@.drop_last()[a] == after.archetypes@[a]);
        }
    }
    assert forall|a: int| 0 <= a < after.archetypes@.len() implies (
    #[trigger] after.archetypes@[a]).wf() by {
        if a < n {
            assert(after.archetypes@.drop_last()[a] == after.archetypes@[a]);
            assert(before.archetypes@[a].wf());
        }
    }
    assert(after.archetypes@[0] == after.archetypes@.drop_last()[0]);
    assert(after.layout() =~= before.layout().push(types.to_set()));
    assert(index_wf(index_map(after.index), after.tables())) by {
        let index = index_map(before.index);
        assert forall|a: int|
            #![trigger after.tables()[a]]
            0 <= a < after.tables().len() implies index_map(after.index).contains_key(
            after.tables()[a].types,
        ) && index_map(after.index)[after.tables()[a].types] == a by {
            if a < n {
                assert(after.tables()[a] == tables[a]);
                assert(index.contains_key(tables[a].types));
            }
        }
        assert forall|k: Seq<u64>| #[trigger] index_map(after.index).contains_key(k) implies (
        index_map(after.index)[k] as int) < after.tables().len()
            && after.tables()[index_map(after.index)[k] as int].types == k by {
            if k != types {
                assert(index.contains_key(k));
            }
        }
    }
}

/// What adding an archetype without rows keeps.
proof fn lemma_added<C>(before: World<C>, after: World<C>, types: Seq<u64>, holes: Set<u32>)
    requires
        before.inv(holes, None),
        before.accepts(types.to_set()),
        strictly_sorted(types),
        !index_map(before.index).contains_key(types),
        after.entities == before.entities,
        after.archetypes@.len() == before.archetypes@.len() + 1,
        after.archetypes@.drop_last() == before.archetypes@,
        after.archetypes@.last().wf(),
        after.archetypes@.last()@ == Table::<C>::empty(types),
        index_map(after.index) == index_map(before.index).insert(
            types,
            before.archetypes@.len() as u32,
        ),
        after.archetype_generation == before.archetype_generation + 1,
    ensures
        after.inv(holes, None),
        after@ == before@,
        after.tables() == before.tables().push(Table::<C>::empty(types)),
        after.layout() == with_types(before.layout(), types.to_set()),
{
    let table = Table::<C>::empty(types);
    let locations = before.entities.locations();
    lemma_pushed(before, after, table);
    before.lemma_known(types);
    after.archetypes@.last().lemma_table();
    lemma_new_table(before.entities.ids().pending, locations, before.tables(), holes, table);
    lemma_contents_eq(
        before.entities.ids(),
        locations,
        before.tables(),
        after.entities.ids(),
        locations,
        after.tables(),
    );
}

impl<C: Component> World<C> {
    /// Create an empty world
    pub fn new() -> (r: Self)
        ensures
            r.wf(),
            r@ == Map::<Entity, Map<u64, C>>::empty(),
            r.ids() == IdState::initial(),
            r.layout() == seq![Set::<u64>::empty()],
            r.model() == Model::<C>::initial(),
    {
        // `flush` assumes archetype 0 always exists, representing entities with no components.
        let mut archetypes: Vec<Archetype<C>> = Vec::new();
        archetypes.push(Archetype::new(Vec::new()));
        let mut index = index_new();
        index_insert(&mut index, Vec::new(), 0);
        let r = World { entities: Entities::new(), index, archetypes, archetype_generation: 0 };
        proof {
            let tables = r.tables();
            assert(tables[0] == Table::<C>::empty(Seq::empty()));
            assert(tables[0].types =~= Seq::empty());
            assert(r.entities.locations() =~= Seq::empty());
            assert(r.entities.ids().pending =~= Seq::empty());
            r.archetypes@[0].lemma_table();
            assert(r@ =~= Map::<Entity, Map<u64, C>>::empty());
            assert(r.layout()[0] =~= Set::<u64>::empty());
            assert(r.layout() =~= seq![Set::<u64>::empty()]);
        }
        r
    }

    /// The archetype with these types
    ///
    /// Adds it if there is none.
    fn archetype_with(&mut self, types: Vec<u64>, holes: Ghost<Set<u32>>) -> (r: u32)
        requires
            old(self).inv(holes@, None),
            old(self).accepts(types@.to_set()),
            strictly_sorted(types@),
        ensures
            final(self).inv(holes@, None),
            final(self).entities == old(self).entities,
            final(self)@ == old(self)@,
            (r as int) < final(self).tables().len(),
            final(self).tables()[r as int].types == types@,
            final(self).layout() == with_types(old(self).layout(), types@.to_set()),
    {
        proof {
            self.lemma_known(types@);
        }
        match index_get(&self.index, types.as_slice()) {
            Some(x) => x,
            None => {
                let ghost before = *self;
                let x = self.archetypes.len() as u32;
                let key = types.clone();
                assert(key@ =~= types@);
                self.archetypes.push(Archetype::new(types));
                index_insert(&mut self.index, key, x);
                self.archetype_generation = self.archetype_generation + 1;
                proof {
                    assert(self.archetypes@.drop_last() =~= before.archetypes@);
                    lemma_added(before, *self, types@, holes@);
                }
                x
            },
        }
    }

    /// The archetype with these types, looked up and added in one step
    fn archetype_entry(&mut self, types: Vec<u64>, holes: Ghost<Set<u32>>) -> (r: u32)
        requires
            old(self).inv(holes@, None),
            old(self).accepts(types@.to_set()),
            strictly_sorted(types@),
        ensures
            final(self).inv(holes@, None),
            final(self).entities == old(self).entities,
            final(self)@ == old(self)@,
            (r as int) < final(self).tables().len(),
            final(self).tables()[r as int].types == types@,
            final(self).layout() == with_types(old(self).layout(), types@.to_set()),
            final(self).tables().len() >= old(self).tables().len(),
            forall|a: int|
                0 <= a < old(self).tables().len() ==> #[trigger] final(self).tables()[a] == old(
                    self,
                ).tables()[a],
    {
        let ghost before = *self;
        proof {
            self.lemma_known(types@);
        }
        let x = self.archetypes.len() as u32;
        let key = types.clone();
        assert(key@ =~= types@);
        let target = index_entry(&mut self.index, key, x);
        if target == x {
            self.archetypes.push(Archetype::new(types));
            self.archetype_generation = self.archetype_generation + 1;
            proof {
                assert(self.archetypes@.drop_last() =~= before.archetypes@);
                lemma_added(before, *self, types@, holes@);
            }
        }
        target
    }

    /// Gives an id that has no row a row of archetype `a`
    fn add_row(&mut self, a: u32, id: u32, row: Bundle<C>, holes: Ghost<Set<u32>>) -> (r: u32)
        requires
            old(self).inv(holes@, None),
            holes@.contains(id),
            (id as int) < old(self).ids().generations.len(),
            !old(self).ids().pending.contains(id),
            (a as int) < old(self).tables().len(),
            row.wf(),
            row.ids() == old(self).tables()[a as int].types,
        ensures
            final(self).inv(holes@.remove(id), None),
            final(self).ids() == old(self).ids(),
            final(self)@ == old(self)@.insert(old(self).ids().entity_at(id), row@),
            final(self).layout() == old(self).layout(),
            final(self).tables().len() == old(self).tables().len(),
            forall|b: int|
                0 <= b < old(self).tables().len() ==> (#[trigger] final(self).tables()[b]).types
                    == old(self).tables()[b].types,
            r == old(self).tables()[a as int].ids.len(),
    {
        let ghost before = *self;
        let ghost pending = before.entities.ids().pending;
        let ghost locations = before.entities.locations();
        let ghost tables = before.tables();
        let ghost added = Table { types: row.ids(), ids: seq![id], rows: seq![row@] };
        proof {
            lemma_table_room(pending, locations, tables, holes@, a as int, seq![id]);
            assert(tables[a as int] == self.archetypes@[a as int]@);
        }
        let archetype: &mut Archetype<C> = &mut self.archetypes[a as usize];
        let index = archetype.allocate(id, row);
        self.entities.set_location(id, Location { archetype: a, index });
        proof {
            let after = tables.update(a as int, tables[a as int].append(added));
            assert(self.tables() =~= after) by {
                assert(tables[a as int].push(id, row@).ids =~= tables[a as int].append(added).ids);
                assert(tables[a as int].push(id, row@).rows =~= tables[a as int].append(added).rows);
            }
            self.archetypes@[a as int].lemma_table();
            assert(added.ids.to_set() =~= set![id]) by {
                assert(added.ids[0] == id);
            }
            assert(holes@.difference(added.ids.to_set()) =~= holes@.remove(id));
            assert(added.ids.contains(id)) by {
                assert(added.ids[0] == id);
            }
            lemma_fill(
                pending,
                locations,
                tables,
                holes@,
                a as int,
                added,
                self.entities.locations(),
            );
            lemma_same_types(before, *self);
            let e = before.ids().entity_at(id);
            assert(added.ids[0] == id);
            assert(before.ids().contains(e)) by {
                if before.ids().free().contains(id) {
                    let k = before.ids().free().index_of(id);
                    assert(pending[k] == id);
                }
            }
            assert forall|other: Entity| before.ids().contains(other) implies #[trigger] self@[other]
                == before@.insert(e, row@)[other] by {
                if other.id == id {
                    before.ids().lemma_ids_unique(e, other);
                } else {
                    assert(!added.ids.contains(other.id));
                    assert(components_at(locations, tables, other.id as int) == components_at(
                        self.entities.locations(),
                        after,
                        other.id as int,
                    ));
                }
            }
            assert(self@ =~= before@.insert(e, row@));
        }
        index
    }

    /// Takes out the stray row; the last row of its archetype takes its place
    fn take_row(&mut self, l: Location, holes: Ghost<Set<u32>>) -> (r: Bundle<C>)
        requires
            old(self).inv(holes@, Some(l)),
            row_exists(old(self).tables(), l),
        ensures
            final(self).inv(holes@, None),
            final(self).ids() == old(self).ids(),
            final(self)@ == old(self)@,
            final(self).layout() == old(self).layout(),
            r.wf(),
            r@ == old(self).tables()[l.archetype as int].rows[l.index as int],
            r.ids() == old(self).tables()[l.archetype as int].types,
    {
        let ghost before = *self;
        let ghost pending = before.entities.ids().pending;
        let ghost locations = before.entities.locations();
        let ghost tables = before.tables();
        assert(tables[l.archetype as int] == self.archetypes@[l.archetype as int]@);
        let archetype: &mut Archetype<C> = &mut self.archetypes[l.archetype as usize];
        let (row, moved) = archetype.move_to(l.index);
        let ghost locations2 = if l.index == tables[l.archetype as int].ids.len() - 1 {
            locations
        } else {
            locations.update(tables[l.archetype as int].ids.last() as int, l)
        };
        proof {
            lemma_unlink(pending, locations, tables, holes@, l, locations2);
        }
        if let Some(moved) = moved {
            self.entities.set_location(
                moved,
                Location { archetype: l.archetype, index: l.index },
            );
        }
        proof {
            let after = tables.update(
                l.archetype as int,
                tables[l.archetype as int].swap_remove(l.index as int),
            );
            assert(self.tables() =~= after);
            lemma_same_types(before, *self);
            lemma_contents_eq(
                before.entities.ids(),
                locations,
                tables,
                self.entities.ids(),
                self.entities.locations(),
                after,
            );
        }
        row
    }

    /// Allocates an entity, which gets no row yet
    fn open_one(&mut self) -> (r: Entity)
        requires
            old(self).wf(),
            old(self).ids().is_flushed(),
            old(self).has_room(1),
        ensures
            final(self).inv(set![r.id], None),
            r == old(self).ids().next(),
            final(self).ids() == old(self).ids().alloc_one(),
            final(self)@ == old(self)@.insert(r, Map::empty()),
            final(self).tables() == old(self).tables(),
            (r.id as int) < final(self).ids().generations.len(),
            !final(self).ids().pending.contains(r.id),
            r == final(self).ids().entity_at(r.id),
    {
        let ghost before = *self;
        let ghost ids = self.entities.ids();
        let ghost locations = self.entities.locations();
        let r = self.entities.alloc_one();
        proof {
            ids.lemma_alloc_one();
            let after = ids.alloc_one();
            let n = locations_added(ids);
            assert(self.entities.locations() =~= locations + nowheres(n));
            assert forall|i: int| 0 <= i < locations.len() implies vacant(
                after.pending,
                set![r.id],
                i,
            ) == #[trigger] vacant(ids.pending, Set::empty(), i) by {
                if ids.pending.len() > 0 {
                    lemma_drop_last_contains(ids.pending, i as u32);
                }
            }
            lemma_relabel(
                ids.pending,
                locations,
                before.tables(),
                Set::empty(),
                n,
                after.pending,
                set![r.id],
            );
            assert(self.tables() == before.tables());
            if ids.pending.len() > 0 {
                lemma_drop_last_contains(ids.pending, r.id);
                assert(ids.pending[ids.pending.len() - 1] < ids.generations.len());
            }
            assert(vacant(after.pending, set![r.id], r.id as int));
            assert(self.entities.locations()[r.id as int] == nowhere());
            assert forall|e: Entity| before@.insert(r, Map::empty()).contains_key(e) implies
                #[trigger] self@[e] == before@.insert(r, Map::<u64, C>::empty())[e] by {
                assert(components_at(locations, before.tables(), e.id as int) == components_at(
                    self.entities.locations(),
                    self.tables(),
                    e.id as int,
                ));
            }
            assert(self@ =~= before@.insert(r, Map::empty()));
        }
        r
    }

    /// Allocates a given handle, which gets no row yet
    ///
    /// An entity with the same id goes.
    fn open_at(&mut self, handle: Entity, holes: Ghost<Set<u32>>)
        requires
            old(self).inv(holes@, None),
            old(self).ids().is_flushed(),
            old(self).ids().alloc_at(handle).population() <= u32::MAX,
            !holes@.contains(handle.id),
            forall|id: u32| #[trigger]
                holes@.contains(id) ==> id < old(self).ids().generations.len(),
        ensures
            final(self).inv(holes@.insert(handle.id), None),
            final(self).ids() == old(self).ids().alloc_at(handle),
            final(self)@ == without_id(old(self)@, handle.id).insert(handle, Map::empty()),
            final(self).layout() == old(self).layout(),
            (handle.id as int) < final(self).ids().generations.len(),
            !final(self).ids().pending.contains(handle.id),
            handle == final(self).ids().entity_at(handle.id),
    {
        let ghost before = *self;
        let ghost ids = self.entities.ids();
        let ghost locations = self.entities.locations();
        let ghost tables = self.tables();
        let ghost after = ids.alloc_at(handle);
        let ghost holes2 = holes@.insert(handle.id);
        let loc = self.entities.alloc_at(handle);
        assert(self.tables() == tables);
        let ghost locations2 = self.entities.locations();
        proof {
            ids.lemma_alloc_at(handle);
            if ids.holds(handle.id) {
                assert forall|i: int| 0 <= i < locations.len() implies #[trigger] vacant(
                    after.pending,
                    holes2,
                    i,
                ) == (vacant(ids.pending, holes@, i) || i == handle.id) by {}
                lemma_detach(
                    ids.pending,
                    locations,
                    tables,
                    holes@,
                    handle.id,
                    after.pending,
                    holes2,
                );
            } else {
                let n = if handle.id < locations.len() {
                    0
                } else {
                    handle.id + 1 - locations.len()
                };
                assert(locations2 =~= locations + nowheres(n));
                assert forall|i: int| 0 <= i < locations.len() implies vacant(
                    after.pending,
                    holes2,
                    i,
                ) == #[trigger] vacant(ids.pending, holes@, i) by {
                    let x = i as u32;
                    assert(after.pending.contains(x) == (x != handle.id && (ids.pending.contains(x)
                        || ids.generations.len() <= x < handle.id)));
                }
                assert forall|i: int| locations.len() <= i < locations.len() + n implies
                    #[trigger] vacant(after.pending, holes2, i) by {
                    let x = i as u32;
                    assert(after.pending.contains(x) == (x != handle.id && (ids.pending.contains(x)
                        || ids.generations.len() <= x < handle.id)));
                }
                lemma_relabel(
                    ids.pending,
                    locations,
                    tables,
                    holes@,
                    n,
                    after.pending,
                    holes2,
                );
            }
            assert(vacant(after.pending, holes2, handle.id as int));
            assert(locations2[handle.id as int] == nowhere());
            let want = without_id(before@, handle.id).insert(handle, Map::empty());
            assert forall|e: Entity| want.contains_key(e) implies #[trigger] self@[e] == want[e] by {
                assert(components_at(locations, tables, e.id as int) == components_at(
                    locations2,
                    tables,
                    e.id as int,
                ) || e.id == handle.id);
            }
            assert(self@ =~= want);
        }
        if let Some(loc) = loc {
            let _ = self.take_row(loc, Ghost(holes2));
        }
    }

    /// Allocates `n` entities, which get no rows yet
    fn open_many(&mut self, n: u32) -> (r: Vec<u32>)
        requires
            old(self).wf(),
            old(self).ids().is_flushed(),
            old(self).has_room(n as int),
        ensures
            final(self).inv(r@.to_set(), None),
            r@ == old(self).ids().batch_ids(n as int),
            final(self).ids() == old(self).ids().alloc_many(n as int),
            final(self)@ == with_entities(
                old(self)@,
                old(self).ids().batch(n as int),
                empties(n as int),
            ),
            final(self).layout() == old(self).layout(),
    {
        let ghost before = *self;
        let ghost ids = self.entities.ids();
        let ghost locations = self.entities.locations();
        let r = self.entities.alloc_many(n);
        proof {
            ids.lemma_alloc_many(n as int);
            let after = ids.alloc_many(n as int);
            let fresh = n - ids.recycled(n as int);
            let holes = r@.to_set();
            assert forall|i: int| 0 <= i < locations.len() implies vacant(after.pending, holes, i)
                == #[trigger] vacant(ids.pending, Set::empty(), i) by {
                let x = i as u32;
                assert(after.pending.contains(x) == (ids.pending.contains(x) && !r@.contains(x)));
                if r@.contains(x) {
                    let k = r@.index_of(x);
                    assert(!ids.holds(r@[k]));
                }
            }
            assert forall|i: int| locations.len() <= i < locations.len() + fresh implies
                #[trigger] vacant(after.pending, holes, i) by {
                let k = i - locations.len() + ids.recycled(n as int);
                assert(r@[k] == i as u32);
            }
            lemma_relabel(
                ids.pending,
                locations,
                before.tables(),
                Set::empty(),
                fresh,
                after.pending,
                holes,
            );
            assert(self.tables() == before.tables());
            let batch = ids.batch(n as int);
            let want = with_entities(before@, batch, empties::<C>(n as int));
            assert forall|e: Entity| want.contains_key(e) implies #[trigger] self@[e] == want[e] by {
                if batch.contains(e) {
                    let k = batch.index_of(e);
                    assert(batch[k].id == r@[k]);
                    assert(holes.contains(e.id));
                    assert(vacant(after.pending, holes, e.id as int));
                    assert(self.entities.locations()[e.id as int] == nowhere());
                } else {
                    assert(components_at(locations, before.tables(), e.id as int)
                        == components_at(
                        self.entities.locations(),
                        before.tables(),
                        e.id as int,
                    ));
                }
            }
            assert(self@ =~= want);
        }
        r
    }

    /// Convert all reserved entities into empty entities that can be iterated and accessed
    ///
    /// Invoked implicitly by `spawn`, `despawn`, `insert`, and `remove`.
    pub fn flush(&mut self)
        requires
            old(self).wf(),
        ensures
            final(self).wf(),
            final(self)@ == old(self)@,
            final(self).ids() == old(self).ids().flushed(),
            final(self).layout() == old(self).layout(),
            final(self).model() == old(self).model().flush(),
    {
        let ghost before = *self;
        let ghost ids = before.entities.ids();
        let ghost todo = ids.flush_ids();
        let list = self.entities.flush();
        proof {
            ids.lemma_flushed();
            lemma_flush_holes(ids);
            lemma_relabel(
                ids.pending,
                before.entities.locations(),
                before.tables(),
                Set::empty(),
                ids.fresh(),
                ids.flushed().pending,
                todo.to_set(),
            );
            assert(self.tables() == before.tables());
            lemma_contents_eq(
                ids,
                before.entities.locations(),
                before.tables(),
                self.entities.ids(),
                self.entities.locations(),
                self.tables(),
            );
            assert(todo.skip(0) =~= todo);
        }
        let mut i: usize = 0;
        while i < list.len()
            invariant
                i <= list@.len(),
                list@ == todo,
                todo.no_duplicates(),
                forall|k: int|
                    #![trigger todo[k]]
                    0 <= k < todo.len() ==> (todo[k] as int) < ids.flushed().generations.len()
                        && !ids.flushed().pending.contains(todo[k]),
                self.inv(todo.skip(i as int).to_set(), None),
                self@ == before@,
                self.entities.ids() == ids.flushed(),
                self.layout() == before.layout(),
            decreases list@.len() - i,
        {
            let ghost holes = todo.skip(i as int).to_set();
            let ghost now = *self;
            let id = list[i];
            let row = Bundle::new();
            proof {
                assert(todo.skip(i as int)[0] == id);
                assert(holes.contains(id));
                assert(row.ids() =~= self.tables()[0].types) by {
                    if row.ids().len() > 0 {
                        lemma_zip_map_dom(row.ids(), row.cells());
                        assert(row.ids().to_set().contains(row.ids()[0]));
                    }
                }
                assert(vacant(ids.flushed().pending, holes, id as int));
            }
            self.add_row(0, id, row, Ghost(holes));
            proof {
                let e = ids.flushed().entity_at(id);
                assert(now@.insert(e, row@) =~= now@) by {
                    assert(now.entities.locations()[id as int] == nowhere());
                    assert(now.ids().contains(e)) by {
                        if now.ids().free().contains(id) {
                            let k = now.ids().free().index_of(id);
                            assert(now.ids().pending[k] == id);
                        }
                    }
                }
                assert(holes.remove(id) =~= todo.skip(i + 1).to_set()) by {
                    lemma_skip_set(todo, i as int);
                }
            }
            i = i + 1;
        }
        assert(todo.skip(i as int).to_set() =~= Set::empty());
    }
}

/// Where entities are while one is between two rows.
spec fn lifted_locations<C>(world: World<C>, entity: Entity, loc: Location) -> Seq<Location> {
    let locations = world.entities.locations().update(entity.id as int, nowhere());
    let ids = world.tables()[loc.archetype as int].ids;
    if loc.index == ids.len() - 1 {
        locations
    } else {
        locations.update(ids.last() as int, loc)
    }
}

/// What taking an entity out of its row does.
proof fn lemma_lifted<C>(before: World<C>, entity: Entity, loc: Location)
    requires
        before.wf(),
        before.ids().is_flushed(),
        before.ids().contains(entity),
        loc == before.entities.locations()[entity.id as int],
    ensures
        (entity.id as int) < before.entities.locations().len(),
        !before.ids().pending.contains(entity.id),
        row_exists(before.tables(), loc),
        loc.index < before.tables()[loc.archetype as int].ids.len() - 1 ==> {
            let last = before.tables()[loc.archetype as int].ids.last();
            &&& last != entity.id
            &&& (last as int) < before.entities.locations().len()
        },
        ({
            let a = loc.archetype as int;
            let tables = before.tables();
            let after = tables.update(a, tables[a].swap_remove(loc.index as int));
            let locations = lifted_locations(before, entity, loc);
            &&& linked(before.ids().pending, locations, after, set![entity.id], None)
            &&& forall|i: int|
                i != entity.id ==> components_at(locations, after, i) == #[trigger] components_at(
                    before.entities.locations(),
                    tables,
                    i,
                )
            &&& forall|t: int|
                #![trigger tables[t]]
                0 <= t < tables.len() && t != a ==> tables[t].ids.len() < u32::MAX
        }),
{
    let ids = before.entities.ids();
    let locations = before.entities.locations();
    let tables = before.tables();
    let a = loc.archetype as int;
    let holes = set![entity.id];
    let nowhere_yet = locations.update(entity.id as int, nowhere());
    let lifted = lifted_locations(before, entity, loc);
    let after = tables.update(a, tables[a].swap_remove(loc.index as int));
    before.lemma_row_of(entity);
    assert forall|i: int| 0 <= i < locations.len() implies #[trigger] vacant(ids.pending, holes, i)
        == (vacant(ids.pending, Set::empty(), i) || i == entity.id) by {}
    assert(!vacant(ids.pending, Set::empty(), entity.id as int));
    lemma_detach(ids.pending, locations, tables, Set::empty(), entity.id, ids.pending, holes);
    lemma_unlink(ids.pending, nowhere_yet, tables, holes, loc, lifted);
    assert forall|i: int| i != entity.id implies components_at(lifted, after, i)
        == #[trigger] components_at(locations, tables, i) by {
        assert(components_at(nowhere_yet, tables, i) == components_at(locations, tables, i));
    }
    assert forall|t: int|
        #![trigger tables[t]]
        0 <= t < tables.len() && t != a implies tables[t].ids.len() < u32::MAX by {
        assert(after[t] == tables[t]);
        lemma_table_room(ids.pending, lifted, after, holes, t, seq![entity.id]);
    }
}

/// What giving an entity a row of another archetype does.
proof fn lemma_moved<C>(
    before: World<C>,
    after: World<C>,
    entity: Entity,
    loc: Location,
    target: Location,
    row: Map<u64, C>,
)
    requires
        before.wf(),
        before.ids().is_flushed(),
        before.ids().contains(entity),
        loc == before.entities.locations()[entity.id as int],
        target.archetype != loc.archetype,
        (target.archetype as int) < before.tables().len(),
        target.index == before.tables()[target.archetype as int].ids.len(),
        after.entities.wf(),
        after.entities.ids() == before.entities.ids(),
        after.entities.locations() == lifted_locations(before, entity, loc).update(
            entity.id as int,
            target,
        ),
        after.index == before.index,
        after.archetype_generation == before.archetype_generation,
        after.archetypes@.len() == before.archetypes@.len(),
        forall|a: int|
            0 <= a < before.archetypes@.len() && a != loc.archetype && a != target.archetype
                ==> after.archetypes@[a] == before.archetypes@[a],
        after.archetypes@[loc.archetype as int].wf(),
        after.archetypes@[loc.archetype as int]@
            == before.tables()[loc.archetype as int].swap_remove(loc.index as int),
        after.archetypes@[target.archetype as int].wf(),
        after.archetypes@[target.archetype as int]@
            == before.tables()[target.archetype as int].push(entity.id, row),
    ensures
        after.wf(),
        after@ == before@.insert(entity, row),
        after.layout() == before.layout(),
{
    let ids = before.entities.ids();
    let locations = before.entities.locations();
    let tables = before.tables();
    let a = loc.archetype as int;
    let t = target.archetype as int;
    let holes = set![entity.id];
    let lifted = lifted_locations(before, entity, loc);
    let middle = tables.update(a, tables[a].swap_remove(loc.index as int));
    let added = Table { types: tables[t].types, ids: seq![entity.id], rows: seq![row] };
    lemma_lifted(before, entity, loc);
    assert(tables[t].push(entity.id, row).ids =~= tables[t].append(added).ids);
    assert(tables[t].push(entity.id, row).rows =~= tables[t].append(added).rows);
    assert(after.tables() =~= middle.update(t, middle[t].append(added)));
    after.archetypes@[t].lemma_table();
    assert(added.ids[0] == entity.id);
    assert(added.ids.contains(entity.id));
    assert(added.ids.to_set() =~= holes);
    assert(holes.difference(added.ids.to_set()) =~= Set::empty());
    lemma_fill(ids.pending, lifted, middle, holes, t, added, after.entities.locations());
    assert forall|b: int|
        #![trigger after.tables()[b]]
        0 <= b < after.tables().len() implies after.tables()[b].types == tables[b].types by {}
    lemma_same_types(before, after);
    let want = before@.insert(entity, row);
    assert forall|e: Entity| want.contains_key(e) implies #[trigger] after@[e] == want[e] by {
        if e.id == entity.id {
            ids.lemma_ids_unique(e, entity);
            assert(added.ids[0] == e.id);
        } else {
            assert(!added.ids.contains(e.id));
            assert(components_at(lifted, middle, e.id as int) == components_at(
                locations,
                tables,
                e.id as int,
            ));
            assert(components_at(after.entities.locations(), after.tables(), e.id as int)
                == components_at(lifted, middle, e.id as int));
        }
    }
    assert(after@ =~= want);
}

/// What replacing the components of one row does.
proof fn lemma_rewritten<C>(
    before: World<C>,
    after: World<C>,
    entity: Entity,
    loc: Location,
    row: Map<u64, C>,
)
    requires
        before.wf(),
        before.ids().contains(entity),
        before.ids().is_flushed() || ((entity.id as int) < before.entities.locations().len()
            && before.entities.locations()[entity.id as int] != nowhere()),
        loc == before.entities.locations()[entity.id as int],
        row.dom() == before@[entity].dom(),
        after.entities == before.entities,
        after.index == before.index,
        after.archetype_generation == before.archetype_generation,
        after.archetypes@.len() == before.archetypes@.len(),
        forall|a: int|
            0 <= a < before.archetypes@.len() && a != loc.archetype ==> after.archetypes@[a]
                == before.archetypes@[a],
        after.archetypes@[loc.archetype as int].wf(),
        after.archetypes@[loc.archetype as int]@ == before.tables()[loc.archetype as int].write(
            loc.index as int,
            row,
        ),
    ensures
        after.wf(),
        after@ == before@.insert(entity, row),
        after.layout() == before.layout(),
{
    let ids = before.entities.ids();
    let locations = before.entities.locations();
    let tables = before.tables();
    before.lemma_row_of(entity);
    lemma_rewrite(ids.pending, locations, tables, Set::empty(), loc, row);
    let a = loc.archetype as int;
    assert(after.tables() =~= tables.update(a, tables[a].write(loc.index as int, row)));
    lemma_same_types(before, after);
    let want = before@.insert(entity, row);
    assert forall|e: Entity| want.contains_key(e) implies #[trigger] after@[e] == want[e] by {
        if e.id == entity.id {
            ids.lemma_ids_unique(e, entity);
        } else {
            assert(components_at(locations, tables, e.id as int) == components_at(
                locations,
                after.tables(),
                e.id as int,
            ));
        }
    }
    assert(after@ =~= want);
}

/// The number of ids that allocating one entity adds.
spec fn locations_added(ids: IdState) -> int {
    if ids.pending.len() > 0 {
        0
    } else {
        1
    }
}

/// What a list holds besides its last element.
proof fn lemma_drop_last_contains(list: Seq<u32>, x: u32)
    requires
        list.no_duplicates(),
        list.len() > 0,
    ensures
        list.drop_last().contains(x) == (list.contains(x) && x != list.last()),
{
    if list.drop_last().contains(x) {
        let k = list.drop_last().index_of(x);
        assert(list[k] == x);
    }
    if list.contains(x) && x != list.last() {
        let k = list.index_of(x);
        assert(list.drop_last()[k] == x);
    }
}

/// What a list holds after an element was added.
proof fn lemma_push_contains(list: Seq<u32>, last: u32, x: u32)
    ensures
        list.push(last).contains(x) == (list.contains(x) || x == last),
{
    if list.push(last).contains(x) {
        let k = list.push(last).index_of(x);
        assert(list.push(last)[k] == x);
        if k < list.len() {
            assert(list[k] == x);
        }
    }
    if list.contains(x) {
        let k = list.index_of(x);
        assert(list.push(last)[k] == x);
    }
    assert(list.push(last)[list.len() as int] == last);
}

/// The set of a list without its first element.
proof fn lemma_skip_set(list: Seq<u32>, i: int)
    requires
        list.no_duplicates(),
        0 <= i < list.len(),
    ensures
        list.skip(i + 1).to_set() == list.skip(i).to_set().remove(list[i]),
{
    let a = list.skip(i);
    let b = list.skip(i + 1);
    assert forall|x: u32| b.to_set().contains(x) == a.to_set().remove(list[i]).contains(x) by {
        if b.contains(x) {
            let k = b.index_of(x);
            assert(b[k] == list[i + 1 + k]);
            assert(a[k + 1] == x);
        }
        if a.contains(x) && x != list[i] {
            let k = a.index_of(x);
            assert(a[k] == list[i + k]);
            assert(b[k - 1] == x);
        }
    }
    assert(b.to_set() =~= a.to_set().remove(list[i]));
}

/// The ids that become entities when an allocator is flushed.
proof fn lemma_flush_holes(ids: IdState)
    requires
        ids.wf(),
    ensures
        ids.flush_ids().no_duplicates(),
        forall|k: int|
            #![trigger ids.flush_ids()[k]]
            0 <= k < ids.flush_ids().len() ==> (ids.flush_ids()[k] as int)
                < ids.flushed().generations.len() && !ids.flushed().pending.contains(
                ids.flush_ids()[k],
            ),
        forall|i: int|
            0 <= i < ids.generations.len() ==> vacant(
                ids.flushed().pending,
                ids.flush_ids().to_set(),
                i,
            ) == #[trigger] vacant(ids.pending, Set::empty(), i),
        forall|i: int|
            ids.generations.len() <= i < ids.generations.len() + ids.fresh() ==> #[trigger] vacant(
                ids.flushed().pending,
                ids.flush_ids().to_set(),
                i,
            ),
{
    let list = ids.flush_ids();
    let n = ids.fresh();
    let len = ids.generations.len() as int;
    let after = ids.flushed();
    assert(n > 0 ==> len + n <= u32::MAX);
    assert forall|k: int| 0 <= k < list.len() implies #[trigger] list[k] == (if k < n {
        (len + k) as u32
    } else {
        ids.pending[ids.free_len() + k - n]
    }) by {}
    assert(list.no_duplicates()) by {
        assert forall|i: int, j: int| 0 <= i < j < list.len() implies list[i] != list[j] by {
            if j >= n {
                assert(ids.pending[ids.free_len() + j - n] < len);
            }
        }
    }
    assert forall|k: int| 0 <= k < list.len() implies (#[trigger] list[k] as int)
        < after.generations.len() && !after.pending.contains(list[k]) by {
        if k >= n {
            assert(ids.pending[ids.free_len() + k - n] < len);
        }
        if after.pending.contains(list[k]) {
            let m = after.pending.index_of(list[k]);
            assert(ids.pending[m] == list[k]);
            assert(ids.pending[m] < len);
        }
    }
    assert forall|i: int| 0 <= i < len implies vacant(after.pending, list.to_set(), i)
        == #[trigger] vacant(ids.pending, Set::empty(), i) by {
        let id = i as u32;
        if after.pending.contains(id) {
            let m = after.pending.index_of(id);
            assert(ids.pending[m] == id);
        }
        if list.contains(id) {
            let k = list.index_of(id);
            assert(list[k] == id);
            assert(ids.pending.contains(id));
        }
        if ids.pending.contains(id) {
            let m = ids.pending.index_of(id);
            assert(ids.pending[m] == id);
            if m < ids.free_len() {
                assert(after.pending[m] == id);
            } else {
                assert(list[m - ids.free_len() + n] == id);
            }
        }
    }
    assert forall|i: int| len <= i < len + n implies #[trigger] vacant(
        after.pending,
        list.to_set(),
        i,
    ) by {
        assert(list[i - len] == i as u32);
    }
}

/// Where the archetypes keep their types, the index still holds.
proof fn lemma_same_types<C>(before: World<C>, after: World<C>)
    requires
        index_wf(index_map(before.index), before.tables()),
        index_map(after.index) == index_map(before.index),
        after.tables().len() == before.tables().len(),
        forall|a: int|
            #![trigger after.tables()[a]]
            0 <= a < after.tables().len() ==> after.tables()[a].types == before.tables()[a].types,
    ensures
        index_wf(index_map(after.index), after.tables()),
        after.layout() == before.layout(),
{
    assert forall|a: int|
        #![trigger after.tables()[a]]
        0 <= a < after.tables().len() implies index_map(after.index).contains_key(
        after.tables()[a].types,
    ) && index_map(after.index)[after.tables()[a].types] == a by {
        assert(after.tables()[a].types == before.tables()[a].types);
    }
    assert forall|k: Seq<u64>| #[trigger] index_map(after.index).contains_key(k) implies (
    index_map(after.index)[k] as int) < after.tables().len() && after.tables()[index_map(
        after.index,
    )[k] as int].types == k by {
        let a = index_map(before.index)[k] as int;
        assert(after.tables()[a].types == before.tables()[a].types);
    }
    assert(after.layout() =~= before.layout());
}

/// Determines freshness of information derived from `World::archetypes`
#[derive(Debug, Copy, Clone, Eq, PartialEq, Structural)]
pub struct ArchetypesGeneration(u64);

impl ArchetypesGeneration {
    /// A generation is its number.
    pub(crate) proof fn lemma_value(a: ArchetypesGeneration, b: ArchetypesGeneration)
        ensures
            a == b <==> a@ == b@,
    {
    }
}

impl View for ArchetypesGeneration {
    type V = u64;

    closed spec fn view(&self) -> u64 {
        self.0
    }
}

/// Two different elements, for writing
fn index2<T>(x: &mut [T], i: usize, j: usize) -> (r: (&mut T, &mut T))
    requires
        i != j,
        i < old(x)@.len(),
        j < old(x)@.len(),
    ensures
        *r.0 == old(x)@[i as int],
        *r.1 == old(x)@[j as int],
        final(x)@ == old(x)@.update(i as int, *final(r.0)).update(j as int, *final(r.1)),
{
    if i < j {
        let (head, tail) = x.split_at_mut(j);
        (&mut head[i], &mut tail[0])
    } else {
        let (head, tail) = x.split_at_mut(i);
        (&mut tail[0], &mut head[j])
    }
}

} // verus!
