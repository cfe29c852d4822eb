//! Queries on worlds.
use crate::archetype::Archetype;
use crate::entities::{Entities, Entity, NoSuchEntity};
use crate::entity_ref::EntityRef;
use crate::error::QueryOneError;
use crate::query::{
    answer, answers, dynamic, fetched, lemma_answer_from, lemma_answers_add, lemma_fetched,
    lemma_no_answers, lemma_selected, satisfied, selected, DynamicQueryTypes, Query, QueryItem,
    QueryItemMut,
};
use crate::types::{type_ids, Component};
use crate::world::iter::{ids_known, listing, table_listing, table_views};
use crate::world::{lemma_rewritten, World};
use vstd::prelude::*;

verus! {

/// A borrow of a world sufficient to execute a query
pub struct QueryBorrow<'w, C> {
    archetypes: &'w [Archetype<C>],
    entities: &'w Entities,
    query: Query,
}

impl<'w, C> QueryBorrow<'w, C> {
    pub closed spec fn wf(&self) -> bool {
        forall|a: int|
            0 <= a < self.archetypes@.len() ==> ids_known(
                #[trigger] self.archetypes@[a],
                self.entities.ids().generations,
            )
    }

    /// What is looked for.
    pub closed spec fn query(&self) -> Query {
        self.query
    }

    /// What iteration yields.
    pub closed spec fn results(&self) -> Seq<(Entity, Map<u64, C>)> {
        answers(
            self.query,
            listing(table_views(self.archetypes@), self.entities.ids().generations),
        )
    }

    /// Execute the query
    pub fn iter(&self) -> (r: QueryIter<'_, C>)
        requires
            self.wf(),
        ensures
            r.wf(),
            r.remaining() == self.results(),
    {
        assert(table_views(self.archetypes@).skip(0) =~= table_views(self.archetypes@));
        QueryIter {
            archetypes: self.archetypes,
            next_archetype: 0,
            entities: self.entities,
            current: None,
            index: 0,
            query: &self.query,
        }
    }
}

/// Iterator over the entities that satisfy a query
pub struct QueryIter<'q, C> {
    archetypes: &'q [Archetype<C>],
    next_archetype: usize,
    entities: &'q Entities,
    current: Option<&'q Archetype<C>>,
    index: u32,
    query: &'q Query,
}

impl<'q, C> QueryIter<'q, C> {
    pub closed spec fn wf(&self) -> bool {
        &&& self.next_archetype <= self.archetypes@.len()
        &&& forall|a: int|
            0 <= a < self.archetypes@.len() ==> ids_known(
                #[trigger] self.archetypes@[a],
                self.entities.ids().generations,
            )
        &&& self.current matches Some(current) ==> {
            &&& ids_known(*current, self.entities.ids().generations)
            &&& self.index <= current@.ids.len()
            &&& satisfied(*self.query, current@.types.to_set())
        }
    }

    /// The entities still to come, with what the query fetches.
    pub closed spec fn remaining(&self) -> Seq<(Entity, Map<u64, C>)> {
        let generations = self.entities.ids().generations;
        let rest = answers(
            *self.query,
            listing(table_views(self.archetypes@).skip(self.next_archetype as int), generations),
        );
        match self.current {
            Some(current) => answers(
                *self.query,
                table_listing(current@, generations).skip(self.index as int),
            ) + rest,
            None => rest,
        }
    }

    /// The next entity
    pub fn next(&mut self) -> (r: Option<(Entity, QueryItem<'q, C>)>)
        requires
            old(self).wf(),
        ensures
            final(self).wf(),
            match r {
                Some((entity, item)) => {
                    &&& old(self).remaining().len() > 0
                    &&& item.wf()
                    &&& old(self).remaining()[0] == (entity, item@)
                    &&& final(self).remaining() == old(self).remaining().skip(1)
                },
                None => {
                    &&& old(self).remaining().len() == 0
                    &&& final(self).remaining().len() == 0
                },
            },
    {
        let ghost before = *self;
        let ghost generations = self.entities.ids().generations;
        let ghost tables = table_views(self.archetypes@);
        loop
            invariant
                before == *old(self),
                self.wf(),
                self.archetypes == before.archetypes,
                self.entities == before.entities,
                self.query == before.query,
                generations == self.entities.ids().generations,
                tables == table_views(self.archetypes@),
                self.remaining() == before.remaining(),
            decreases
                    self.archetypes@.len() - self.next_archetype,
                    (if self.current is Some {
                        1int
                    } else {
                        0
                    }),
        {
            let ghost so_far = *self;
            let ghost k = self.next_archetype as int;
            match self.current {
                None => {
                    if self.next_archetype == self.archetypes.len() {
                        return None;
                    }
                    let archetype = &self.archetypes[self.next_archetype];
                    self.next_archetype = self.next_archetype + 1;
                    let ghost first = table_listing(tables[k], generations);
                    let ghost rest = listing(tables.skip(k + 1), generations);
                    proof {
                        archetype.lemma_table();
                        assert(tables[k] == archetype@);
                        assert(tables.skip(k)[0] == tables[k]);
                        assert(tables.skip(k).skip(1) =~= tables.skip(k + 1));
                        lemma_answers_add(*self.query, first, rest);
                        assert(first.skip(0) =~= first);
                    }
                    if self.query.satisfied(archetype.types()) {
                        self.current = Some(archetype);
                        self.index = 0;
                    } else {
                        proof {
                            assert forall|i: int| 0 <= i < first.len() implies !satisfied(
                                *self.query,
                                (#[trigger] first[i]).1.dom(),
                            ) by {
                                assert(archetype@.rows[i].dom() == archetype@.types.to_set());
                            }
                            lemma_no_answers(*self.query, first);
                            assert(self.remaining() =~= so_far.remaining());
                        }
                    }
                },
                Some(current) => {
                    let ghost list = table_listing(current@, generations);
                    if self.index == current.len() {
                        self.current = None;
                        proof {
                            assert(list.skip(list.len() as int).len() == 0);
                            assert(self.remaining() =~= so_far.remaining());
                        }
                        continue;
                    }
                    let index = self.index;
                    self.index = self.index + 1;
                    let id = current.entity_id(index);
                    let generation = self.entities.generation(id);
                    proof {
                        current.lemma_table();
                        assert(current@.rows[index as int].dom() == current@.types.to_set());
                        assert(list.skip(index as int)[0] == list[index as int]);
                        assert(list.skip(index as int).skip(1) =~= list.skip(index + 1));
                        assert(self.remaining() =~= so_far.remaining().skip(1));
                    }
                    match EntityRef::new(current, index).fetch(self.query) {
                        Some(item) => {
                            return Some((Entity { generation, id }, item));
                        },
                        None => {
                            assert(false);
                        },
                    }
                },
            }
        }
    }
}

/// A borrow of a world sufficient to execute a query on a single entity
pub struct QueryOne<'a, C> {
    entity: EntityRef<'a, C>,
    query: Query,
}

impl<'a, C> QueryOne<'a, C> {
    pub closed spec fn wf(&self) -> bool {
        self.entity.wf()
    }

    /// The components of the entity.
    pub closed spec fn components(&self) -> Map<u64, C> {
        self.entity@
    }

    /// What is looked for.
    pub closed spec fn query(&self) -> Query {
        self.query
    }

    /// Get the query result, or `None` if the entity does not satisfy the query
    pub fn get(&self) -> (r: Option<QueryItem<'a, C>>)
        requires
            self.wf(),
        ensures
            r is Some <==> satisfied(self.query(), self.components().dom()),
            r matches Some(item) ==> item.wf() && item@ == answer(self.query(), self.components()),
    {
        self.entity.fetch(&self.query)
    }
}

/// Iterator over the entities of a uniquely borrowed world that satisfy a query
///
/// The world itself can be used through `world` between two steps. An entity that no longer
/// satisfies the query when its turn comes is skipped.
pub struct QueryMut<'w, C> {
    pub world: &'w mut World<C>,
    pub plan: QueryPlan,
}

/// A query, the entities that satisfy it, and how many of them were visited.
pub struct QueryPlan {
    query: Query,
    entities: Vec<Entity>,
    index: usize,
}

impl QueryPlan {
    pub closed spec fn wf(&self) -> bool {
        self.index <= self.entities@.len()
    }
}

/// Whether an entity satisfies a query.
pub open spec fn matched<C>(world: Map<Entity, Map<u64, C>>, query: Query, e: Entity) -> bool {
    world.contains_key(e) && satisfied(query, world[e].dom())
}

/// The entity at position `k` of a list is the first that satisfies a query.
pub open spec fn first_matched<C>(
    world: Map<Entity, Map<u64, C>>,
    query: Query,
    list: Seq<Entity>,
    k: int,
) -> bool {
    &&& 0 <= k < list.len()
    &&& matched(world, query, list[k])
    &&& forall|i: int| 0 <= i < k ==> !matched(world, query, #[trigger] list[i])
}

/// The entities of a listing.
pub open spec fn handles<C>(list: Seq<(Entity, Map<u64, C>)>) -> Seq<Entity> {
    list.map_values(|p: (Entity, Map<u64, C>)| p.0)
}

impl<'w, C: Component> QueryMut<'w, C> {
    /// What is looked for.
    pub closed spec fn query(&self) -> Query {
        self.plan.query
    }

    /// The entities still to come.
    pub closed spec fn remaining(&self) -> Seq<Entity> {
        self.plan.entities@.skip(self.plan.index as int)
    }

    pub open spec fn wf(&self) -> bool {
        &&& self.world.wf()
        &&& self.plan.wf()
    }

    /// The next entity that satisfies the query
    fn next_entity(&mut self) -> (r: Option<Entity>)
        requires
            old(self).wf(),
        ensures
            final(self).plan.wf(),
            final(self).query() == old(self).query(),
            *final(self).world == *old(self).world,
            *final(final(self).world) == *final(old(self).world),
            match r {
                Some(entity) => exists|k: int| #[trigger]
                    first_matched(
                        old(self).world@,
                        old(self).query(),
                        old(self).remaining(),
                        k,
                    ) && entity == old(self).remaining()[k] && final(self).remaining()
                        == old(self).remaining().skip(k + 1),
                None => {
                    &&& forall|i: int|
                        0 <= i < old(self).remaining().len() ==> !matched(
                            old(self).world@,
                            old(self).query(),
                            #[trigger] old(self).remaining()[i],
                        )
                    &&& final(self).remaining().len() == 0
                },
            },
    {
        let start: usize = self.plan.index;
        let ghost all = self.remaining();
        while self.plan.index < self.plan.entities.len()
            invariant
                old(self).wf(),
                all == old(self).remaining(),
                start == old(self).plan.index,
                start <= self.plan.index <= self.plan.entities@.len(),
                self.plan.entities == old(self).plan.entities,
                self.plan.query == old(self).plan.query,
                *self.world == *old(self).world,
                *final(self.world) == *final(old(self).world),
                forall|i: int|
                    0 <= i < self.plan.index - start ==> !matched(
                        old(self).world@,
                        old(self).query(),
                        #[trigger] all[i],
                    ),
            decreases self.plan.entities@.len() - self.plan.index,
        {
            let entity = self.plan.entities[self.plan.index];
            let ghost k = self.plan.index - start;
            assert(all[k] == entity);
            self.plan.index = self.plan.index + 1;
            if let Ok(found) = self.world.entity(entity) {
                if self.plan.query.satisfied(found.types()) {
                    proof {
                        assert(first_matched(old(self).world@, old(self).query(), all, k));
                        assert(self.remaining() =~= all.skip(k + 1));
                    }
                    return Some(entity);
                }
            }
        }
        None
    }

    /// The next entity
    pub fn next(&mut self) -> (r: Option<(Entity, QueryItemMut<'_, C>)>)
        requires
            old(self).wf(),
        ensures
            final(self).wf(),
            final(self).query() == old(self).query(),
            final(self).world.ids() == old(self).world.ids(),
            final(self).world.layout() == old(self).world.layout(),
            *final(final(self).world) == *final(old(self).world),
            match r {
                Some((entity, item)) => {
                    &&& exists|k: int| #[trigger]
                        first_matched(
                            old(self).world@,
                            old(self).query(),
                            old(self).remaining(),
                            k,
                        ) && entity == old(self).remaining()[k] && final(self).remaining()
                            == old(self).remaining().skip(k + 1)
                    &&& item.wf()
                    &&& item.types@.to_set() == fetched(
                        old(self).query(),
                        old(self).world@[entity].dom(),
                    )
                    &&& forall|k: int|
                        #![trigger item.values@[k]]
                        0 <= k < item.types@.len() ==> *item.values@[k]
                            == old(self).world@[entity][item.types@[k]] && *final(item.values@[k])
                            == final(self).world@[entity][item.types@[k]]
                    &&& final(self).world@ == old(self).world@.insert(
                        entity,
                        final(self).world@[entity],
                    )
                    &&& final(self).world.model() == old(self).world.model().write(
                        entity,
                        final(self).world@[entity],
                    )
                    &&& final(self).world@[entity].dom() == old(self).world@[entity].dom()
                    &&& forall|t: u64|
                        old(self).world@[entity].contains_key(t) && !item.types@.contains(t)
                            ==> #[trigger] final(self).world@[entity][t]
                            == old(self).world@[entity][t]
                },
                None => {
                    &&& forall|i: int|
                        0 <= i < old(self).remaining().len() ==> !matched(
                            old(self).world@,
                            old(self).query(),
                            #[trigger] old(self).remaining()[i],
                        )
                    &&& final(self).remaining().len() == 0
                    &&& final(self).world@ == old(self).world@
                    &&& final(self).world.model() == old(self).world.model()
                },
            },
    {
        match self.next_entity() {
            Some(entity) => match self.world.query_one_mut(entity, &self.plan.query) {
                Ok(item) => Some((entity, item)),
                Err(_) => {
                    assert(false);
                    None
                },
            },
            None => None,
        }
    }
}

/// A borrow of a world sufficient to execute a dynamic query
pub struct DynamicQuery<'q, C> {
    borrow: QueryBorrow<'q, C>,
}

impl<'q, C> DynamicQuery<'q, C> {
    pub closed spec fn wf(&self) -> bool {
        self.borrow.wf()
    }

    /// What iteration yields.
    pub closed spec fn results(&self) -> Seq<(Entity, Map<u64, C>)> {
        self.borrow.results()
    }

    /// Execute the query
    pub fn iter(&self) -> (r: QueryIter<'_, C>)
        requires
            self.wf(),
        ensures
            r.wf(),
            r.remaining() == self.results(),
    {
        self.borrow.iter()
    }
}

impl<C: Component> World<C> {
    /// Efficiently iterate over all entities that have certain components
    ///
    /// Calling `iter` on the returned value and then `next` yields each entity that satisfies the
    /// query together with the components that were asked for. Entities which do not have a
    /// component type referenced outside of an `Optional` will be skipped.
    ///
    /// Entities are yielded in arbitrary order.
    pub fn query(&self, query: Query) -> (r: QueryBorrow<'_, C>)
        requires
            self.wf(),
        ensures
            r.wf(),
            r.query() == query,
            r.results() == answers(query, self.listing()),
    {
        proof {
            assert forall|a: int| 0 <= a < self.archetypes@.len() implies ids_known(
                #[trigger] self.archetypes@[a],
                self.entities.ids().generations,
            ) by {
                assert(self.tables()[a] == self.archetypes@[a]@);
            }
            assert(table_views(self.archetypes@) =~= self.tables());
        }
        QueryBorrow { archetypes: self.archetypes.as_slice(), entities: &self.entities, query }
    }

    /// Query a uniquely borrowed world
    ///
    /// Like `query`, but the components can be written.
    pub fn query_mut(&mut self, query: Query) -> (r: QueryMut<'_, C>)
        requires
            old(self).wf(),
        ensures
            r.wf(),
            r.query() == query,
            r.remaining() == handles(answers(query, old(self).listing())),
            r.remaining().len() == answers(query, old(self).listing()).len(),
            forall|i: int|
                #![trigger r.remaining()[i]]
                0 <= i < r.remaining().len() ==> r.remaining()[i] == answers(
                    query,
                    old(self).listing(),
                )[i].0,
            forall|i: int|
                0 <= i < r.remaining().len() ==> matched(
                    old(self)@,
                    query,
                    #[trigger] r.remaining()[i],
                ),
            *r.world == *old(self),
            *final(self) == *final(r.world),
    {
        let ghost all = answers(query, self.listing());
        let ghost asked = query;
        let borrow = self.query(query);
        let mut entities: Vec<Entity> = Vec::new();
        let mut iter = borrow.iter();
        assert(all.skip(0) =~= all);
        loop
            invariant
                borrow.query() == asked,
                iter.wf(),
                entities@.len() <= all.len(),
                iter.remaining() == all.skip(entities@.len() as int),
                entities@ == handles(all.take(entities@.len() as int)),
            ensures
                entities@ == handles(all),
            decreases all.len() - entities@.len(),
        {
            let ghost n = entities@.len() as int;
            match iter.next() {
                Some((entity, _)) => {
                    entities.push(entity);
                    proof {
                        assert(all.skip(n)[0] == all[n]);
                        assert(all.skip(n).skip(1) =~= all.skip(n + 1));
                        assert(entities@ =~= handles(all.take(n + 1)));
                    }
                },
                None => {
                    assert(all.take(n) =~= all);
                    break;
                },
            }
        }
        let query = borrow.query;
        proof {
            self.lemma_listing();
            assert forall|i: int| 0 <= i < entities@.len() implies matched(
                self@,
                query,
                #[trigger] entities@[i],
            ) by {
                let j = lemma_answer_from(query, self.listing(), i);
                assert(entities@[i] == self.listing()[j].0);
            }
            assert(entities@.skip(0) =~= entities@);
        }
        QueryMut { world: self, plan: QueryPlan { query, entities, index: 0 } }
    }

    /// Perform a dynamic query.
    pub fn query_dynamic<'q>(&'q self, types: DynamicQueryTypes<'q>) -> (r: DynamicQuery<'q, C>)
        requires
            self.wf(),
        ensures
            r.wf(),
            r.results() == selected(type_ids(types.types@).to_set(), self.listing()),
    {
        let query = dynamic(types);
        proof {
            lemma_selected(query, type_ids(types.types@).to_set(), self.listing());
        }
        DynamicQuery { borrow: self.query(query) }
    }

    /// Prepare a query against a single entity
    ///
    /// Call `get` on the resulting `QueryOne` to actually execute the query.
    ///
    /// Handy for accessing multiple components simultaneously.
    pub fn query_one(&self, entity: Entity, query: Query) -> (r: Result<
        QueryOne<'_, C>,
        NoSuchEntity,
    >)
        requires
            self.wf(),
        ensures
            r is Ok <==> self@.contains_key(entity),
            r matches Ok(one) ==> {
                &&& one.wf()
                &&& one.query() == query
                &&& one.components() == self@[entity]
            },
    {
        match self.entity(entity) {
            Ok(entity) => Ok(QueryOne { entity, query }),
            Err(e) => Err(e),
        }
    }

    /// Query a single entity in a uniquely borrow world
    ///
    /// Like `query_one`, but the components can be written. Note that, unlike `query_one`, on
    /// success this returns the query's results directly.
    pub fn query_one_mut(&mut self, entity: Entity, query: &Query) -> (r: Result<
        QueryItemMut<'_, C>,
        QueryOneError,
    >)
        requires
            old(self).wf(),
        ensures
            final(self).wf(),
            final(self).ids() == old(self).ids(),
            final(self).layout() == old(self).layout(),
            match r {
                Ok(item) => {
                    &&& old(self)@.contains_key(entity)
                    &&& satisfied(*query, old(self)@[entity].dom())
                    &&& item.wf()
                    &&& item.types@.to_set() == fetched(*query, old(self)@[entity].dom())
                    &&& forall|k: int|
                        #![trigger item.values@[k]]
                        0 <= k < item.types@.len() ==> *item.values@[k]
                            == old(self)@[entity][item.types@[k]] && *final(item.values@[k])
                            == final(self)@[entity][item.types@[k]]
                    &&& final(self)@ == old(self)@.insert(entity, final(self)@[entity])
                    &&& final(self)@[entity].dom() == old(self)@[entity].dom()
                    &&& forall|t: u64|
                        old(self)@[entity].contains_key(t) && !item.types@.contains(t)
                            ==> #[trigger] final(self)@[entity][t] == old(self)@[entity][t]
                },
                Err(QueryOneError::NoSuchEntity) => {
                    &&& !old(self)@.contains_key(entity)
                    &&& final(self)@ == old(self)@
                },
                Err(QueryOneError::Unsatisfied) => {
                    &&& old(self)@.contains_key(entity)
                    &&& !satisfied(*query, old(self)@[entity].dom())
                    &&& final(self)@ == old(self)@
                },
            },
            r is Ok ==> final(self).model() == old(self).model().write(
                entity,
                final(self)@[entity],
            ),
            r is Err ==> final(self).model() == old(self).model(),
    {
        let ghost before = *self;
        proof {
            self.lemma_located();
        }
        let loc = match self.entities.get(entity) {
            Err(e) => {
                return Err(QueryOneError::from(e));
            },
            Ok(loc) => loc,
        };
        if loc.archetype == 0 {
            proof {
                self.lemma_no_components(entity);
                assert(self.tables()[0] == self.archetypes@[0]@);
                assert(self.archetypes@[0]@.types.to_set() =~= Set::<u64>::empty());
                assert(self@[entity].dom() =~= Set::<u64>::empty());
            }
            if !query.satisfied(self.archetypes[0].types()) {
                return Err(QueryOneError::Unsatisfied);
            }
            let types: Vec<u64> = Vec::new();
            proof {
                lemma_fetched(*query, self@[entity].dom());
                assert(types@.to_set() =~= fetched(*query, self@[entity].dom()));
                assert(self@ =~= before@.insert(entity, self@[entity]));
            }
            return Ok(QueryItemMut { types, values: Vec::new() });
        }
        proof {
            self.lemma_row_of(entity);
            assert(self.tables()[loc.archetype as int] == self.archetypes@[loc.archetype as int]@);
        }
        let own = self.archetypes[loc.archetype as usize].types();
        if !query.satisfied(own) {
            return Err(QueryOneError::Unsatisfied);
        }
        let types = query.fetched(own);
        proof {
            lemma_fetched(*query, self@[entity].dom());
        }
        let archetype: &mut Archetype<C> = &mut self.archetypes[loc.archetype as usize];
        let values = archetype.row_mut(types.as_slice(), loc.index);
        proof {
            let after = after_borrow(*self);
            let row = after.archetypes@[loc.archetype as int]@.rows[loc.index as int];
            lemma_rewritten(before, after, entity, loc, row);
        }
        Ok(QueryItemMut { types, values })
    }
}

} // verus!
