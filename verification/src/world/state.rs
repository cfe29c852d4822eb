//! The world as a whole: its size, its archetypes, and reserving, adding and dropping entities.
use crate::archetype::{Archetype, Table};
use crate::bundle::Bundle;
use crate::entities::{Entity, IdState};
use crate::model::{row_types, Model};
use crate::types::Component;
use crate::world::{
    empties, lemma_same_types, lemma_with_entities_push, with_entities, with_types,
    ArchetypesGeneration, World,
};
use vstd::prelude::*;

verus! {

/// The type sets of archetypes after each of the listed ones was looked up, and added if there
/// was none.
pub open spec fn with_all_types(layout: Seq<Set<u64>>, list: Seq<Set<u64>>) -> Seq<Set<u64>>
    decreases list.len(),
{
    if list.len() == 0 {
        layout
    } else {
        with_types(with_all_types(layout, list.drop_last()), list.last())
    }
}

/// The type set of each bundle.
pub open spec fn bundle_types<C>(list: Seq<Bundle<C>>) -> Seq<Set<u64>> {
    list.map_values(|b: Bundle<C>| b@.dom())
}

/// The components of each bundle.
pub open spec fn bundle_rows<C>(list: Seq<Bundle<C>>) -> Seq<Map<u64, C>> {
    list.map_values(|b: Bundle<C>| b@)
}

/// Archetypes are only ever added.
proof fn lemma_with_all_types_grows(layout: Seq<Set<u64>>, list: Seq<Set<u64>>, k: int)
    requires
        0 <= k <= list.len(),
    ensures
        with_all_types(layout, list.take(k)).len() <= with_all_types(layout, list).len(),
    decreases list.len(),
{
    if k < list.len() {
        lemma_with_all_types_grows(layout, list.drop_last(), k);
        assert(list.drop_last().take(k) =~= list.take(k));
    } else {
        assert(list.take(k) =~= list);
    }
}

impl<C: Component> World<C> {
    /// Allocate many entity IDs
    ///
    /// Unlike `spawn`, this does not immediately create the entities. Reserved entities are not
    /// visible to queries or world iteration, but can be otherwise operated on freely. Operations
    /// such as `insert` or `despawn` will cause all outstanding reserved entities to become real
    /// entities before proceeding. This can also be done explicitly by calling `flush`.
    ///
    /// Useful for reserving an ID that will later have components attached to it with `insert`.
    pub fn reserve_entities(&mut self, count: u32) -> (r: Vec<Entity>)
        requires
            old(self).wf(),
            old(self).has_room(count as int),
        ensures
            final(self).wf(),
            r@ == old(self).ids().reserve_list(count as int),
            final(self).ids() == old(self).ids().reserve(count as int),
            final(self)@ == with_entities(
                old(self)@,
                old(self).ids().reserve_list(count as int),
                empties(count as int),
            ),
            final(self).layout() == old(self).layout(),
            final(self).listing() == old(self).listing(),
            final(self).model() == old(self).model().reserve_entities(count as int),
    {
        let ghost before = *self;
        let r = self.entities.reserve_entities(count);
        proof {
            lemma_reserved(before, *self, count as int);
        }
        r
    }

    /// Allocate an entity ID
    ///
    /// See `reserve_entities`.
    pub fn reserve_entity(&mut self) -> (r: Entity)
        requires
            old(self).wf(),
            old(self).has_room(1),
        ensures
            final(self).wf(),
            seq![r] == old(self).ids().reserve_list(1),
            final(self).ids() == old(self).ids().reserve(1),
            final(self)@ == old(self)@.insert(r, Map::empty()),
            final(self).layout() == old(self).layout(),
            final(self).listing() == old(self).listing(),
            final(self).model() == old(self).model().reserve_entities(1),
    {
        let ghost before = *self;
        let r = self.entities.reserve_entity();
        proof {
            let list = before.ids().reserve_list(1);
            lemma_reserved(before, *self, 1);
            assert(list[0] == r);
            assert(self@ =~= before@.insert(r, Map::empty()));
        }
        r
    }

    /// Despawn all entities
    ///
    /// Preserves allocated storage for reuse.
    pub fn clear(&mut self)
        requires
            old(self).wf(),
        ensures
            final(self).wf(),
            final(self)@ == Map::<Entity, Map<u64, C>>::empty(),
            final(self).ids() == IdState::initial(),
            final(self).layout() == old(self).layout(),
            final(self).model() == old(self).model().clear(),
    {
        let ghost before = *self;
        let mut a: usize = 0;
        while a < self.archetypes.len()
            invariant
                a <= self.archetypes@.len(),
                self.archetypes@.len() == before.archetypes@.len(),
                before.stored(),
                self.entities == before.entities,
                self.index == before.index,
                self.archetype_generation == before.archetype_generation,
                forall|b: int|
                    0 <= b < a ==> (#[trigger] self.archetypes@[b]).wf() && self.archetypes@[b]@
                        == Table::<C>::empty(before.archetypes@[b]@.types),
                forall|b: int|
                    a <= b < self.archetypes@.len() ==> #[trigger] self.archetypes@[b]
                        == before.archetypes@[b],
            decreases self.archetypes@.len() - a,
        {
            assert(before.archetypes@[a as int].wf());
            let archetype: &mut Archetype<C> = &mut self.archetypes[a];
            archetype.clear();
            a = a + 1;
        }
        self.entities.clear();
        proof {
            lemma_same_types(before, *self);
            assert(self.entities.locations().len() == 0);
            assert forall|b: int| 0 <= b < self.tables().len() implies (
            #[trigger] self.tables()[b]).wf() by {
                self.archetypes@[b].lemma_table();
            }
            assert(self@ =~= Map::<Entity, Map<u64, C>>::empty());
        }
    }

    /// Inspect the archetypes that entities are organized into
    ///
    /// Useful for planning queries in advance, and for efficient serialization.
    pub fn archetypes(&self) -> (r: &[Archetype<C>])
        requires
            self.wf(),
        ensures
            r@.map_values(|a: Archetype<C>| a@) == self.tables(),
            forall|a: int| 0 <= a < r@.len() ==> (#[trigger] r@[a]).wf(),
            r@.len() == self.layout().len(),
            forall|a: int|
                #![trigger r@[a]]
                0 <= a < r@.len() ==> r@[a]@ == self.tables()[a] && self.layout()[a]
                    == r@[a]@.types.to_set(),
    {
        self.archetypes.as_slice()
    }

    /// Returns a distinct value after `archetypes` is changed
    ///
    /// Store the current value after deriving information from `archetypes`, then check whether the
    /// value returned by this function differs before attempting an operation that relies on its
    /// correctness. Useful for determining whether e.g. a query execution plan is still correct.
    ///
    /// The generation may be, but is not necessarily, changed as a result of adding or removing any
    /// entity or component.
    pub fn archetypes_generation(&self) -> (r: ArchetypesGeneration)
        requires
            self.wf(),
        ensures
            r@ == self.layout().len() - 1,
    {
        ArchetypesGeneration(self.archetype_generation)
    }

    /// How many more entities the world can hold
    pub fn room(&self) -> (r: u32)
        requires
            self.wf(),
        ensures
            r == u32::MAX - self.ids().population(),
    {
        self.entities.room()
    }

    /// Number of currently live entities
    pub fn len(&self) -> (r: u32)
        requires
            self.wf(),
        ensures
            r == self.ids().count(),
    {
        self.entities.len()
    }

    /// Whether no entities are live
    pub fn is_empty(&self) -> (r: bool)
        requires
            self.wf(),
        ensures
            r == (self.ids().count() == 0),
    {
        self.len() == 0
    }

    /// Spawns an entity for each bundle
    pub fn extend(&mut self, iter: Vec<Bundle<C>>)
        requires
            old(self).wf(),
            forall|i: int| 0 <= i < iter@.len() ==> (#[trigger] iter@[i]).wf(),
            old(self).has_room(iter@.len() as int),
            with_all_types(old(self).layout(), bundle_types(iter@)).len() <= u32::MAX,
        ensures
            final(self).wf(),
            final(self).ids() == (if iter@.len() == 0 {
                old(self).ids()
            } else {
                old(self).ids().flushed().alloc_n(iter@.len() as int)
            }),
            final(self)@ == with_entities(
                old(self)@,
                old(self).ids().flushed().alloc_list(iter@.len() as int),
                bundle_rows(iter@),
            ),
            final(self).layout() == with_all_types(old(self).layout(), bundle_types(iter@)),
            final(self).model() == old(self).model().extend(bundle_rows(iter@)),
            ({
                let list = old(self).ids().flushed().alloc_list(iter@.len() as int);
                &&& list.len() == iter@.len()
                &&& list.no_duplicates()
                &&& forall|i: int|
                    #![trigger iter@[i]]
                    0 <= i < iter@.len() ==> final(self)@.contains_key(list[i])
                        && final(self)@[list[i]] == iter@[i]@
                &&& forall|e: Entity| #[trigger]
                    final(self)@.contains_key(e) ==> old(self)@.contains_key(e) || list.contains(e)
            }),
            forall|e: Entity| #[trigger]
                old(self)@.contains_key(e) ==> final(self)@.contains_key(e) && final(self)@[e]
                    == old(self)@[e],
    {
        let ghost before = *self;
        let ghost bundles = iter@;
        let ghost n = iter@.len() as int;
        let ghost state = before.ids().flushed();
        let ghost rows = bundle_rows(bundles);
        let ghost types = bundle_types(bundles);
        proof {
            before.ids().lemma_flushed();
            assert(state.alloc_list(0) =~= Seq::empty());
            assert(before@ =~= with_entities(before@, state.alloc_list(0), rows.take(0)));
            assert(types.take(0) =~= Seq::empty());
        }
        for x in it: iter
            invariant
                it.seq() == bundles,
                n == bundles.len(),
                rows == bundle_rows(bundles),
                types == bundle_types(bundles),
                forall|i: int| 0 <= i < n ==> (#[trigger] bundles[i]).wf(),
                before.wf(),
                state == before.ids().flushed(),
                state.wf(),
                state.is_flushed(),
                state.population() + n <= u32::MAX,
                with_all_types(before.layout(), types).len() <= u32::MAX,
                self.wf(),
                self.ids() == (if it.index() == 0 {
                    before.ids()
                } else {
                    state.alloc_n(it.index() as int)
                }),
                self@ == with_entities(
                    before@,
                    state.alloc_list(it.index() as int),
                    rows.take(it.index() as int),
                ),
                self.layout() == with_all_types(before.layout(), types.take(it.index() as int)),
        {
            let ghost i = it.index() as int;
            let ghost list = state.alloc_list(i);
            let ghost more = state.alloc_list(i + 1);
            proof {
                assert(x == bundles[i]);
                state.lemma_alloc_n(i);
                state.lemma_alloc_n(i + 1);
                assert(types.take(i + 1).drop_last() =~= types.take(i));
                assert(types.take(i + 1).last() == x@.dom());
                lemma_with_all_types_grows(before.layout(), types, i + 1);
                self.ids().lemma_flushed();
                if i > 0 {
                    self.ids().lemma_flushed_again();
                }
                before.ids().lemma_flushed();
            }
            let entity = self.spawn(x);
            proof {
                assert(more =~= list.push(entity));
                assert(rows.take(i + 1) =~= rows.take(i).push(x@));
                if list.contains(entity) {
                    let k = list.index_of(entity);
                    assert(more[k] == more[i]);
                }
                lemma_with_entities_push(before@, list, rows.take(i), entity, x@);
            }
        }
        proof {
            assert(rows.take(n) =~= rows);
            assert(types.take(n) =~= types);
            assert(types =~= row_types(rows));
            state.lemma_alloc_n(n);
            let list = state.alloc_list(n);
            assert forall|i: int|
                #![trigger bundles[i]]
                0 <= i < n implies with_entities(before@, list, rows).contains_key(list[i])
                && with_entities(before@, list, rows)[list[i]] == bundles[i]@ by {
                assert(list.contains(list[i]));
                let k = list.index_of(list[i]);
                assert(list[k] == list[i]);
            }
            assert forall|e: Entity| #[trigger] before@.contains_key(e) implies !list.contains(
                e,
            ) by {
                if list.contains(e) {
                    let k = list.index_of(e);
                    assert(!state.contains(list[k]));
                }
            }
            if n == 0 {
                assert(with_entities(before@, state.alloc_list(0), rows) =~= before@);
            }
        }
    }

    /// A world with an entity for each bundle
    pub fn from_iter(iter: Vec<Bundle<C>>) -> (r: Self)
        requires
            forall|i: int| 0 <= i < iter@.len() ==> (#[trigger] iter@[i]).wf(),
            iter@.len() <= u32::MAX,
            with_all_types(seq![Set::empty()], bundle_types(iter@)).len() <= u32::MAX,
        ensures
            r.wf(),
            r.ids() == IdState::initial().alloc_n(iter@.len() as int),
            r@ == with_entities(
                Map::empty(),
                IdState::initial().alloc_list(iter@.len() as int),
                bundle_rows(iter@),
            ),
            r.layout() == with_all_types(seq![Set::empty()], bundle_types(iter@)),
            r.model() == Model::<C>::initial().extend(bundle_rows(iter@)),
            ({
                let list = IdState::initial().alloc_list(iter@.len() as int);
                &&& list.len() == iter@.len()
                &&& list.no_duplicates()
                &&& forall|i: int|
                    #![trigger iter@[i]]
                    0 <= i < iter@.len() ==> r@.contains_key(list[i]) && r@[list[i]] == iter@[i]@
                &&& forall|e: Entity| #[trigger]
                    r@.contains_key(e) ==> list.contains(e)
            }),
    {
        let mut world = World::new();
        proof {
            IdState::initial().lemma_flushed_again();
        }
        world.extend(iter);
        world
    }
}

impl<C: Component> Default for World<C> {
    fn default() -> (r: Self)
        ensures
            r.wf(),
            r@ == Map::<Entity, Map<u64, C>>::empty(),
            r.ids() == IdState::initial(),
            r.layout() == seq![Set::<u64>::empty()],
    {
        World::new()
    }
}

/// What reserving entities does.
proof fn lemma_reserved<C>(before: World<C>, after: World<C>, n: int)
    requires
        before.wf(),
        0 <= n,
        before.has_room(n),
        after.entities.wf(),
        after.entities.ids() == before.entities.ids().reserve(n),
        after.entities.locations() == before.entities.locations(),
        after.index == before.index,
        after.archetypes == before.archetypes,
        after.archetype_generation == before.archetype_generation,
    ensures
        after.wf(),
        after@ == with_entities(
            before@,
            before.ids().reserve_list(n),
            empties(n),
        ),
        after.layout() == before.layout(),
{
    let ids = before.entities.ids();
    let list = ids.reserve_list(n);
    ids.lemma_reserve(n);
    let want = with_entities(before@, list, empties::<C>(n));
    before.lemma_located();
    after.lemma_located();
    assert forall|e: Entity| want.contains_key(e) implies #[trigger] after@[e] == want[e] by {
        if list.contains(e) {
            let k = list.index_of(e);
            assert(ids.reserve(n).reserved(list[k]));
            after.lemma_reserved_empty(e);
        }
    }
    assert(after@ =~= want);
}

} // verus!
