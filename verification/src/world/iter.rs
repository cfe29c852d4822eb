//! Iterating over all entities.
use crate::archetype::{Archetype, Table};
use crate::entities::{nowhere, Entities, Entity};
use crate::entity_ref::EntityRef;
use crate::links::{at, row_exists, vacant};
use crate::types::Component;
use crate::world::World;
use vstd::prelude::*;

verus! {

/// The entities of an archetype with their components, row by row.
pub open spec fn table_listing<C>(table: Table<C>, generations: Seq<u32>) -> Seq<
    (Entity, Map<u64, C>),
> {
    Seq::new(
        table.ids.len(),
        |r: int|
            (
                Entity { generation: generations[table.ids[r] as int], id: table.ids[r] },
                table.rows[r],
            ),
    )
}

/// The entities of all archetypes with their components, archetype by archetype.
pub open spec fn listing<C>(tables: Seq<Table<C>>, generations: Seq<u32>) -> Seq<
    (Entity, Map<u64, C>),
>
    decreases tables.len(),
{
    if tables.len() == 0 {
        Seq::empty()
    } else {
        table_listing(tables[0], generations) + listing(tables.skip(1), generations)
    }
}

/// The archetypes as values.
pub open spec fn table_views<C>(archetypes: Seq<Archetype<C>>) -> Seq<Table<C>> {
    archetypes.map_values(|a: Archetype<C>| a@)
}

/// Every row holds an id that was allocated.
pub open spec fn ids_known<C>(archetype: Archetype<C>, generations: Seq<u32>) -> bool {
    &&& archetype.wf()
    &&& forall|r: int|
        0 <= r < archetype@.ids.len() ==> (#[trigger] archetype@.ids[r] as int) < generations.len()
}

/// Iterator over all of a world's entities
pub struct Iter<'a, C> {
    archetypes: &'a [Archetype<C>],
    next_archetype: usize,
    entities: &'a Entities,
    current: Option<&'a Archetype<C>>,
    index: u32,
}

impl<'a, C> Iter<'a, C> {
    pub closed spec fn wf(&self) -> bool {
        &&& self.next_archetype <= self.archetypes@.len()
        &&& forall|a: int|
            0 <= a < self.archetypes@.len() ==> ids_known(
                #[trigger] self.archetypes@[a],
                self.entities.ids().generations,
            )
        &&& self.current matches Some(current) ==> ids_known(
            *current,
            self.entities.ids().generations,
        ) && self.index <= current@.ids.len()
    }

    /// The entities still to come, with their components.
    pub closed spec fn remaining(&self) -> Seq<(Entity, Map<u64, C>)> {
        let generations = self.entities.ids().generations;
        let rest = listing(
            table_views(self.archetypes@).skip(self.next_archetype as int),
            generations,
        );
        match self.current {
            Some(current) => table_listing(current@, generations).skip(self.index as int) + rest,
            None => rest,
        }
    }

    /// The number of entities in the world.
    pub closed spec fn total(&self) -> u32 {
        self.entities.count()
    }

    pub fn new(archetypes: &'a [Archetype<C>], entities: &'a Entities) -> (r: Self)
        requires
            forall|a: int|
                0 <= a < archetypes@.len() ==> ids_known(
                    #[trigger] archetypes@[a],
                    entities.ids().generations,
                ),
        ensures
            r.wf(),
            r.remaining() == listing(table_views(archetypes@), entities.ids().generations),
            r.total() == entities.count(),
    {
        let r = Iter { archetypes, next_archetype: 0, entities, current: None, index: 0 };
        assert(table_views(archetypes@).skip(0) =~= table_views(archetypes@));
        r
    }

    /// The next entity
    pub fn next(&mut self) -> (r: Option<(Entity, EntityRef<'a, C>)>)
        requires
            old(self).wf(),
        ensures
            final(self).wf(),
            final(self).total() == old(self).total(),
            match r {
                Some((entity, components)) => {
                    &&& old(self).remaining().len() > 0
                    &&& components.wf()
                    &&& old(self).remaining()[0] == (entity, components@)
                    &&& final(self).remaining() == old(self).remaining().skip(1)
                },
                None => {
                    &&& old(self).remaining().len() == 0
                    &&& final(self).remaining().len() == 0
                },
            },
    {
        let ghost before = *self;
        let ghost generations = self.entities.ids().generations;
        loop
            invariant
                before == *old(self),
                self.wf(),
                self.archetypes == before.archetypes,
                self.entities == before.entities,
                generations == self.entities.ids().generations,
                self.remaining() == before.remaining(),
            decreases
                    self.archetypes@.len() - self.next_archetype,
                    (if self.current is Some {
                        1int
                    } else {
                        0
                    }),
        {
            let ghost so_far = *self;
            let ghost tables = table_views(self.archetypes@);
            let ghost k = self.next_archetype as int;
            match self.current {
                None => {
                    if self.next_archetype == self.archetypes.len() {
                        return None;
                    }
                    self.current = Some(&self.archetypes[self.next_archetype]);
                    self.next_archetype = self.next_archetype + 1;
                    self.index = 0;
                    proof {
                        assert(tables.skip(k)[0] == tables[k]);
                        assert(tables.skip(k).skip(1) =~= tables.skip(k + 1));
                        let first = table_listing(tables[k], generations);
                        assert(first.skip(0) =~= first);
                    }
                },
                Some(current) => {
                    if self.index == current.len() {
                        self.current = None;
                        proof {
                            let list = table_listing(current@, generations);
                            assert(list.skip(list.len() as int) =~= Seq::empty());
                            assert(self.remaining() =~= so_far.remaining());
                        }
                        continue;
                    }
                    let index = self.index;
                    self.index = self.index + 1;
                    let id = current.entity_id(index);
                    proof {
                        let list = table_listing(current@, generations);
                        assert(list.skip(index as int).skip(1) =~= list.skip(index + 1));
                        assert(self.remaining() =~= so_far.remaining().skip(1));
                        current.lemma_table();
                    }
                    let generation = self.entities.generation(id);
                    return Some((Entity { generation, id }, EntityRef::new(current, index)));
                },
            }
        }
    }

    /// The number of entities in the world
    pub fn len(&self) -> (r: usize)
        ensures
            r == self.total(),
    {
        self.entities.len() as usize
    }

    /// The number of entities in the world, as lower and upper bound
    pub fn size_hint(&self) -> (r: (usize, Option<usize>))
        ensures
            r.0 == self.total(),
            r.1 == Some(r.0),
    {
        (self.len(), Some(self.len()))
    }
}

impl<C> World<C> {
    /// The entities that exist, with their components, in the order of iteration.
    pub open spec fn listing(&self) -> Seq<(Entity, Map<u64, C>)> {
        listing(self.tables(), self.ids().generations)
    }
}

impl<C: Component> World<C> {
    /// Iterate over all entities in the world
    ///
    /// Entities are yielded in arbitrary order. Prefer `World::query` for better performance when
    /// components will be accessed in predictable patterns.
    pub fn iter(&self) -> (r: Iter<'_, C>)
        requires
            self.wf(),
        ensures
            r.wf(),
            r.remaining() == self.listing(),
            r.total() == self.ids().count(),
    {
        proof {
            assert forall|a: int| 0 <= a < self.archetypes@.len() implies ids_known(
                #[trigger] self.archetypes@[a],
                self.entities.ids().generations,
            ) by {
                assert(self.tables()[a] == self.archetypes@[a]@);
            }
            assert(table_views(self.archetypes@) =~= self.tables());
        }
        Iter::new(self.archetypes.as_slice(), &self.entities)
    }
}

/// The number of rows before archetype `a`.
spec fn offset<C>(tables: Seq<Table<C>>, a: int) -> int
    decreases a,
{
    if a <= 0 {
        0
    } else {
        tables[0].ids.len() + offset(tables.skip(1), a - 1)
    }
}

/// The number of rows of all archetypes.
pub open spec fn row_total<C>(tables: Seq<Table<C>>) -> int
    decreases tables.len(),
{
    if tables.len() == 0 {
        0
    } else {
        tables[0].ids.len() + row_total(tables.skip(1))
    }
}

/// The listing has one element for each row.
proof fn lemma_row_total<C>(tables: Seq<Table<C>>, generations: Seq<u32>)
    ensures
        listing(tables, generations).len() == row_total(tables),
    decreases tables.len(),
{
    if tables.len() > 0 {
        lemma_row_total(tables.skip(1), generations);
    }
}

/// Where the rows of an archetype stand in the listing.
proof fn lemma_offset<C>(tables: Seq<Table<C>>, generations: Seq<u32>, a: int, r: int)
    requires
        0 <= a < tables.len(),
        0 <= r < tables[a].ids.len(),
    ensures
        0 <= offset(tables, a),
        offset(tables, a) + r < listing(tables, generations).len(),
        listing(tables, generations)[offset(tables, a) + r] == table_listing(
            tables[a],
            generations,
        )[r],
    decreases a,
{
    if a > 0 {
        assert(tables.skip(1)[a - 1] == tables[a]);
        lemma_offset(tables.skip(1), generations, a - 1, r);
    }
}

/// Every position of the listing is that of a row.
proof fn lemma_position<C>(tables: Seq<Table<C>>, generations: Seq<u32>, i: int) -> (r: (int, int))
    requires
        0 <= i < listing(tables, generations).len(),
    ensures
        0 <= r.0 < tables.len(),
        0 <= r.1 < tables[r.0].ids.len(),
        i == offset(tables, r.0) + r.1,
    decreases tables.len(),
{
    let n = tables[0].ids.len();
    if i < n {
        (0, i)
    } else {
        let (a, k) = lemma_position(tables.skip(1), generations, i - n);
        assert(tables.skip(1)[a] == tables[a + 1]);
        (a + 1, k)
    }
}

/// The listing of archetypes has one element for each of their rows.
pub proof fn law_listing_len<C>(tables: Seq<Table<C>>, generations: Seq<u32>)
    ensures
        listing(tables, generations).len() == row_total(tables),
{
    lemma_row_total(tables, generations);
}

/// Every row of an archetype is listed, with the generation of its id.
pub proof fn law_row_listed<C>(tables: Seq<Table<C>>, generations: Seq<u32>, a: int, r: int)
    requires
        0 <= a < tables.len(),
        0 <= r < tables[a].ids.len(),
    ensures
        exists|i: int|
            0 <= i < listing(tables, generations).len() && (#[trigger] listing(
                tables,
                generations,
            )[i]).0.id == tables[a].ids[r] && listing(tables, generations)[i].0.generation
                == generations[tables[a].ids[r] as int] && listing(tables, generations)[i].1
                == tables[a].rows[r],
{
    lemma_offset(tables, generations, a, r);
    let i = offset(tables, a) + r;
    assert(listing(tables, generations)[i].0.id == tables[a].ids[r]);
}

/// Every element of a listing is a row of an archetype, with the generation of its id.
pub proof fn law_listed_row<C>(tables: Seq<Table<C>>, generations: Seq<u32>, i: int)
    requires
        0 <= i < listing(tables, generations).len(),
    ensures
        exists|a: int, r: int|
            0 <= a < tables.len() && 0 <= r < tables[a].ids.len() && #[trigger] tables[a].ids[r]
                == listing(tables, generations)[i].0.id && tables[a].rows[r] == listing(
                tables,
                generations,
            )[i].1,
        listing(tables, generations)[i].0.generation == generations[listing(
            tables,
            generations,
        )[i].0.id as int],
{
    let (a, r) = lemma_position(tables, generations, i);
    lemma_offset(tables, generations, a, r);
    assert(tables[a].ids[r] == listing(tables, generations)[i].0.id);
}

/// The number of rows is the sum over the archetypes; archetypes are viewed one by one.
pub proof fn law_row_total<C>(
    tables: Seq<Table<C>>,
    table: Table<C>,
    archetypes: Seq<Archetype<C>>,
    generations: Seq<u32>,
)
    ensures
        row_total(Seq::<Table<C>>::empty()) == 0,
        row_total(seq![table] + tables) == table.ids.len() + row_total(tables),
        table_views(archetypes).len() == archetypes.len(),
        forall|a: int|
            #![trigger archetypes[a]]
            0 <= a < archetypes.len() ==> table_views(archetypes)[a] == archetypes[a]@ && (
            ids_known(archetypes[a], generations) <==> archetypes[a].wf() && forall|r: int|
                0 <= r < archetypes[a]@.ids.len() ==> (#[trigger] archetypes[a]@.ids[r] as int)
                    < generations.len()),
{
    assert((seq![table] + tables).skip(1) =~= tables);
}

impl<C> World<C> {
    /// Iteration yields every entity that exists exactly once, with its components, and nothing
    /// else.
    pub proof fn lemma_listing(&self)
        requires
            self.wf(),
        ensures
            forall|i: int|
                #![trigger self.listing()[i]]
                0 <= i < self.listing().len() ==> {
                    &&& self@.contains_key(self.listing()[i].0)
                    &&& !self.ids().reserved(self.listing()[i].0)
                    &&& self@[self.listing()[i].0] == self.listing()[i].1
                },
            forall|e: Entity|
                #[trigger] self@.contains_key(e) && !self.ids().reserved(e) ==> exists|i: int|
                    0 <= i < self.listing().len() && (#[trigger] self.listing()[i]).0 == e,
            forall|i: int, j: int|
                0 <= i < j < self.listing().len() ==> (#[trigger] self.listing()[i]).0 != (
                #[trigger] self.listing()[j]).0,
    {
        let tables = self.tables();
        let ids = self.entities.ids();
        let locations = self.entities.locations();
        let list = self.listing();
        assert forall|i: int|
            #![trigger list[i]]
            0 <= i < list.len() implies {
            &&& self@.contains_key(list[i].0)
            &&& !ids.reserved(list[i].0)
            &&& self@[list[i].0] == list[i].1
        } by {
            let (a, r) = lemma_position(tables, ids.generations, i);
            lemma_offset(tables, ids.generations, a, r);
            let e = list[i].0;
            assert(tables[a].wf());
            assert(tables[a].ids[r] == e.id);
            assert(locations[e.id as int] == at(a, r));
            assert(at(a, r) != nowhere());
            assert(!vacant(ids.pending, Set::empty(), e.id as int));
            if ids.free().contains(e.id) {
                assert(ids.pending[ids.free().index_of(e.id)] == e.id);
            }
            if ids.reserved_ids().contains(e.id) {
                assert(ids.pending[ids.free_len() + ids.reserved_ids().index_of(e.id)] == e.id);
            }
        }
        assert forall|e: Entity| #[trigger]
            self@.contains_key(e) && !ids.reserved(e) implies exists|i: int|
            0 <= i < list.len() && (#[trigger] list[i]).0 == e by {
            let l = locations[e.id as int];
            assert(!ids.pending.contains(e.id)) by {
                if ids.pending.contains(e.id) {
                    let k = ids.pending.index_of(e.id);
                    assert(ids.pending[k] == e.id);
                    if k < ids.free_len() {
                        assert(ids.free()[k] == e.id);
                    } else {
                        assert(ids.reserved_ids()[k - ids.free_len()] == e.id);
                    }
                }
            }
            assert(!vacant(ids.pending, Set::empty(), e.id as int));
            assert(row_exists(tables, l));
            lemma_offset(tables, ids.generations, l.archetype as int, l.index as int);
            let i = offset(tables, l.archetype as int) + l.index;
            assert(list[i].0 == e);
        }
        assert forall|i: int, j: int| 0 <= i < j < list.len() implies (#[trigger] list[i]).0 != (
        #[trigger] list[j]).0 by {
            let (a, r) = lemma_position(tables, ids.generations, i);
            let (b, k) = lemma_position(tables, ids.generations, j);
            lemma_offset(tables, ids.generations, a, r);
            lemma_offset(tables, ids.generations, b, k);
            assert(tables[a].wf() && tables[b].wf());
            assert(locations[tables[a].ids[r] as int] == at(a, r));
            assert(locations[tables[b].ids[k] as int] == at(b, k));
        }
    }

    /// The number of live entities is the number of entities that iteration yields, and the number
    /// of rows of all archetypes.
    pub proof fn lemma_listing_len(&self)
        requires
            self.wf(),
        ensures
            self.listing().len() == self.ids().count(),
            row_total(self.tables()) == self.ids().count(),
    {
        lemma_row_total(self.tables(), self.ids().generations);
        self.lemma_listing();
        let ids = self.entities.ids();
        let list = self.listing();
        let n = ids.generations.len() as int;
        let listed = Seq::new(list.len(), |i: int| list[i].0.id);
        let all = listed + ids.pending;
        assert forall|i: int| 0 <= i < list.len() implies (#[trigger] listed[i] as int) < n
            && !ids.pending.contains(listed[i]) by {
            let e = list[i].0;
            assert(ids.contains(e));
            let (a, r) = lemma_position(self.tables(), ids.generations, i);
            lemma_offset(self.tables(), ids.generations, a, r);
            assert(self.tables()[a].wf());
            assert(self.tables()[a].ids[r] == e.id);
            assert(at(a, r) != nowhere());
            assert(!vacant(ids.pending, Set::empty(), e.id as int));
        }
        assert(all.no_duplicates()) by {
            assert forall|i: int, j: int| 0 <= i < j < all.len() implies all[i] != all[j] by {
                if i < list.len() {
                    assert(all[i] == listed[i]);
                    if j < list.len() {
                        assert(all[j] == listed[j]);
                        assert(ids.contains(list[i].0) && ids.contains(list[j].0));
                        if listed[i] == listed[j] {
                            ids.lemma_ids_unique(list[i].0, list[j].0);
                        }
                    } else {
                        assert(all[j] == ids.pending[j - list.len()]);
                        assert(ids.pending.contains(all[j]));
                    }
                } else {
                    assert(all[i] == ids.pending[i - list.len()]);
                    assert(all[j] == ids.pending[j - list.len()]);
                }
            }
        }
        let ints = all.map_values(|id: u32| id as int);
        assert(ints.no_duplicates()) by {
            assert forall|i: int, j: int|
                0 <= i < ints.len() && 0 <= j < ints.len() && i != j implies ints[i] != ints[j] by {
                assert(all[i] != all[j]);
            }
        }
        ints.unique_seq_to_set();
        vstd::set_lib::lemma_int_range(0, n);
        assert(ints.to_set() =~= vstd::set_lib::set_int_range(0, n)) by {
            assert forall|x: int| ints.to_set().contains(x) == (0 <= x < n) by {
                if ints.contains(x) {
                    let k = ints.index_of(x);
                    if k < list.len() {
                        assert(all[k] == listed[k]);
                    } else {
                        assert(all[k] == ids.pending[k - list.len()]);
                    }
                }
                if 0 <= x < n {
                    let id = x as u32;
                    if ids.pending.contains(id) {
                        let k = ids.pending.index_of(id);
                        assert(all[list.len() + k] == id);
                        assert(ints[list.len() + k] == x);
                    } else {
                        let e = ids.entity_at(id);
                        if ids.free().contains(id) {
                            assert(ids.pending[ids.free().index_of(id)] == id);
                        }
                        if ids.reserved_ids().contains(id) {
                            assert(ids.pending[ids.free_len() + ids.reserved_ids().index_of(id)]
                                == id);
                        }
                        assert(self@.contains_key(e) && !ids.reserved(e));
                        let i = choose|i: int|
                            0 <= i < list.len() && (#[trigger] list[i]).0 == e;
                        assert(all[i] == listed[i]);
                        assert(ints[i] == x);
                    }
                }
            }
        }
    }
}

} // verus!
