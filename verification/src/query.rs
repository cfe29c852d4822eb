//! What to look for in entities.
use crate::entities::Entity;
use crate::types::{
    lemma_sorted_no_duplicates, sort_distinct, strictly_sorted, type_ids, TypeInfo,
};
use vstd::prelude::*;

verus! {

/// A collection of component types to fetch from a world
///
/// A query is a component type, a tuple of queries, or an optional query. Entities which do not
/// have a component type referenced outside of an `Optional` do not satisfy it.
pub enum Query {
    /// A component that the entity must have
    Component(TypeInfo),
    /// All of several queries
    Tuple(Vec<Query>),
    /// A query that is answered where it is satisfied
    Optional(Box<Query>),
}

/// Whether an entity with these component types satisfies the query.
pub open spec fn satisfied(query: Query, types: Set<u64>) -> bool
    decreases query,
{
    match query {
        Query::Component(ty) => types.contains(ty.id),
        Query::Tuple(parts) => all_satisfied(parts@, types),
        Query::Optional(_) => true,
    }
}

/// Whether all of the queries are satisfied.
pub open spec fn all_satisfied(parts: Seq<Query>, types: Set<u64>) -> bool
    decreases parts,
{
    if parts.len() == 0 {
        true
    } else {
        all_satisfied(parts.drop_last(), types) && satisfied(parts.last(), types)
    }
}

/// The component types that a satisfied query fetches from an entity with these types.
pub open spec fn fetched(query: Query, types: Set<u64>) -> Set<u64>
    decreases query,
{
    match query {
        Query::Component(ty) => set![ty.id],
        Query::Tuple(parts) => all_fetched(parts@, types),
        Query::Optional(inner) => if satisfied(*inner, types) {
            fetched(*inner, types)
        } else {
            Set::empty()
        },
    }
}

/// The component types that satisfied queries fetch.
pub open spec fn all_fetched(parts: Seq<Query>, types: Set<u64>) -> Set<u64>
    decreases parts,
{
    if parts.len() == 0 {
        Set::empty()
    } else {
        all_fetched(parts.drop_last(), types).union(fetched(parts.last(), types))
    }
}

/// What a query fetches from an entity with these components.
pub open spec fn answer<C>(query: Query, row: Map<u64, C>) -> Map<u64, C> {
    row.restrict(fetched(query, row.dom()))
}

/// What a query fetches from each of the listed entities that satisfies it.
pub open spec fn answers<C>(query: Query, list: Seq<(Entity, Map<u64, C>)>) -> Seq<
    (Entity, Map<u64, C>),
>
    decreases list.len(),
{
    if list.len() == 0 {
        Seq::empty()
    } else {
        let rest = answers(query, list.skip(1));
        if satisfied(query, list[0].1.dom()) {
            seq![(list[0].0, answer(query, list[0].1))] + rest
        } else {
            rest
        }
    }
}

/// The listed entities that have all of these component types, with these components.
pub open spec fn selected<C>(types: Set<u64>, list: Seq<(Entity, Map<u64, C>)>) -> Seq<
    (Entity, Map<u64, C>),
>
    decreases list.len(),
{
    if list.len() == 0 {
        Seq::empty()
    } else {
        let rest = selected(types, list.skip(1));
        if types.subset_of(list[0].1.dom()) {
            seq![(list[0].0, list[0].1.restrict(types))] + rest
        } else {
            rest
        }
    }
}

/// A query for all of some component types selects the entities that have them.
pub proof fn lemma_selected<C>(query: Query, types: Set<u64>, list: Seq<(Entity, Map<u64, C>)>)
    requires
        forall|own: Set<u64>| #[trigger] satisfied(query, own) == types.subset_of(own),
        forall|own: Set<u64>| #[trigger] fetched(query, own) == types,
    ensures
        answers(query, list) == selected(types, list),
    decreases list.len(),
{
    if list.len() > 0 {
        lemma_selected(query, types, list.skip(1));
    }
}

/// The answers to two lists are those to the first and then those to the second.
pub(crate) proof fn lemma_answers_add<C>(
    query: Query,
    a: Seq<(Entity, Map<u64, C>)>,
    b: Seq<(Entity, Map<u64, C>)>,
)
    ensures
        answers(query, a + b) == answers(query, a) + answers(query, b),
    decreases a.len(),
{
    if a.len() == 0 {
        assert(a + b =~= b);
        assert(answers(query, a) + answers(query, b) =~= answers(query, b));
    } else {
        lemma_answers_add(query, a.skip(1), b);
        assert((a + b).skip(1) =~= a.skip(1) + b);
        assert(answers(query, a + b) =~= answers(query, a) + answers(query, b));
    }
}

/// Entities that do not satisfy a query do not answer it.
pub(crate) proof fn lemma_no_answers<C>(query: Query, list: Seq<(Entity, Map<u64, C>)>)
    requires
        forall|i: int| 0 <= i < list.len() ==> !satisfied(query, (#[trigger] list[i]).1.dom()),
    ensures
        answers(query, list).len() == 0,
    decreases list.len(),
{
    if list.len() > 0 {
        assert forall|i: int| 0 <= i < list.skip(1).len() implies !satisfied(
            query,
            (#[trigger] list.skip(1)[i]).1.dom(),
        ) by {
            assert(list.skip(1)[i] == list[i + 1]);
        }
        lemma_no_answers(query, list.skip(1));
    }
}

/// Every answer comes from a listed entity that satisfies the query.
pub proof fn lemma_answer_from<C>(query: Query, list: Seq<(Entity, Map<u64, C>)>, i: int) -> (j:
    int)
    requires
        0 <= i < answers(query, list).len(),
    ensures
        0 <= j < list.len(),
        i <= j,
        satisfied(query, list[j].1.dom()),
        answers(query, list)[i] == (list[j].0, answer(query, list[j].1)),
    decreases list.len(),
{
    if satisfied(query, list[0].1.dom()) && i == 0 {
        0
    } else {
        let before = if satisfied(query, list[0].1.dom()) {
            i - 1
        } else {
            i
        };
        let j = lemma_answer_from(query, list.skip(1), before);
        assert(list.skip(1)[j] == list[j + 1]);
        j + 1
    }
}

/// Every listed entity that satisfies the query answers it.
pub proof fn lemma_answered<C>(query: Query, list: Seq<(Entity, Map<u64, C>)>, j: int) -> (i: int)
    requires
        0 <= j < list.len(),
        satisfied(query, list[j].1.dom()),
    ensures
        0 <= i < answers(query, list).len(),
        answers(query, list)[i] == (list[j].0, answer(query, list[j].1)),
    decreases list.len(),
{
    if j == 0 {
        0
    } else {
        assert(list.skip(1)[j - 1] == list[j]);
        let i = lemma_answered(query, list.skip(1), j - 1);
        if satisfied(query, list[0].1.dom()) {
            i + 1
        } else {
            i
        }
    }
}

/// A satisfied query fetches only what the entity has.
pub proof fn lemma_fetched(query: Query, types: Set<u64>)
    requires
        satisfied(query, types),
    ensures
        fetched(query, types).subset_of(types),
    decreases query,
{
    match query {
        Query::Component(_) => {},
        Query::Tuple(parts) => {
            lemma_all_fetched(parts@, types);
        },
        Query::Optional(inner) => {
            if satisfied(*inner, types) {
                lemma_fetched(*inner, types);
            }
        },
    }
}

proof fn lemma_all_fetched(parts: Seq<Query>, types: Set<u64>)
    requires
        all_satisfied(parts, types),
    ensures
        all_fetched(parts, types).subset_of(types),
    decreases parts,
{
    if parts.len() > 0 {
        lemma_all_fetched(parts.drop_last(), types);
        lemma_fetched(parts.last(), types);
    }
}

/// The first position of an id in a list
fn position(ids: &[u64], id: u64) -> (r: Option<usize>)
    ensures
        match r {
            Some(i) => i < ids@.len() && ids@[i as int] == id && ids@.contains(id) && (
            ids@.no_duplicates() || strictly_sorted(ids@) ==> ids@.index_of(id) == i),
            None => !ids@.contains(id),
        },
{
    for i in 0..ids.len()
        invariant
            forall|k: int| 0 <= k < i ==> ids@[k] != id,
    {
        if ids[i] == id {
            proof {
                assert(ids@.contains(id));
                if strictly_sorted(ids@) {
                    lemma_sorted_no_duplicates(ids@);
                }
                let k = ids@.index_of(id);
                assert(ids@[k] == id);
            }
            return Some(i);
        }
    }
    None
}

impl Query {
    /// Whether an entity with these component types satisfies the query
    pub fn satisfied(&self, types: &[u64]) -> (r: bool)
        ensures
            r == satisfied(*self, types@.to_set()),
        decreases self,
    {
        match self {
            Query::Component(ty) => {
                let r = position(types, ty.id).is_some();
                assert(r == types@.to_set().contains(ty.id));
                r
            },
            Query::Tuple(parts) => {
                let mut i: usize = 0;
                assert(parts@.take(0) =~= Seq::empty());
                while i < parts.len()
                    invariant
                        *self == Query::Tuple(*parts),
                        i <= parts@.len(),
                        all_satisfied(parts@.take(i as int), types@.to_set()),
                    decreases parts@.len() - i,
                {
                    assert(parts@.take(i + 1).drop_last() =~= parts@.take(i as int));
                    assert(decreases_to!(*self => (*self)->Tuple_0@));
                    assert(decreases_to!(parts@ => parts@[i as int]));
                    if !parts[i].satisfied(types) {
                        proof {
                            lemma_unsatisfied(parts@, types@.to_set(), i as int);
                        }
                        return false;
                    }
                    i = i + 1;
                }
                assert(parts@.take(i as int) =~= parts@);
                true
            },
            Query::Optional(_) => true,
        }
    }

    /// Lists the component types that the query fetches from an entity with these types
    fn list_fetched(&self, types: &[u64], out: &mut Vec<u64>)
        requires
            old(out)@.no_duplicates(),
        ensures
            final(out)@.no_duplicates(),
            final(out)@.to_set() == old(out)@.to_set().union(fetched(*self, types@.to_set())),
        decreases self,
    {
        match self {
            Query::Component(ty) => {
                let ghost before = out@;
                if position(out.as_slice(), ty.id).is_none() {
                    out.push(ty.id);
                    proof {
                        broadcast use vstd::seq_lib::group_seq_properties;

                        assert(out@.to_set() =~= before.to_set().insert(ty.id));
                    }
                } else {
                    assert(before.to_set().contains(ty.id));
                }
                assert(out@.to_set() =~= before.to_set().union(set![ty.id]));
            },
            Query::Tuple(parts) => {
                let ghost before = out@;
                let mut i: usize = 0;
                assert(parts@.take(0) =~= Seq::empty());
                assert(before.to_set() =~= before.to_set().union(
                    all_fetched(parts@.take(0), types@.to_set()),
                ));
                while i < parts.len()
                    invariant
                        *self == Query::Tuple(*parts),
                        i <= parts@.len(),
                        out@.no_duplicates(),
                        out@.to_set() == before.to_set().union(
                            all_fetched(parts@.take(i as int), types@.to_set()),
                        ),
                    decreases parts@.len() - i,
                {
                    assert(parts@.take(i + 1).drop_last() =~= parts@.take(i as int));
                    assert(decreases_to!(*self => (*self)->Tuple_0@));
                    assert(decreases_to!(parts@ => parts@[i as int]));
                    parts[i].list_fetched(types, out);
                    i = i + 1;
                    assert(out@.to_set() =~= before.to_set().union(
                        all_fetched(parts@.take(i as int), types@.to_set()),
                    ));
                }
                assert(parts@.take(i as int) =~= parts@);
            },
            Query::Optional(inner) => {
                let ghost before = out@;
                if inner.satisfied(types) {
                    inner.list_fetched(types, out);
                } else {
                    assert(before.to_set() =~= before.to_set().union(Set::empty()));
                }
            },
        }
    }

    /// The component types that the query fetches from an entity with these types, in ascending
    /// order
    pub(crate) fn fetched(&self, types: &[u64]) -> (r: Vec<u64>)
        ensures
            strictly_sorted(r@),
            r@.to_set() == fetched(*self, types@.to_set()),
    {
        let mut out: Vec<u64> = Vec::new();
        self.list_fetched(types, &mut out);
        assert(Seq::<u64>::empty().to_set().union(fetched(*self, types@.to_set())) =~= fetched(
            *self,
            types@.to_set(),
        ));
        sort_distinct(&mut out);
        out
    }
}

/// The components that a query fetched from one entity.
pub struct QueryItem<'a, C> {
    types: Vec<u64>,
    values: Vec<&'a C>,
}

impl<'a, C> View for QueryItem<'a, C> {
    type V = Map<u64, C>;

    closed spec fn view(&self) -> Map<u64, C> {
        Map::new(
            |t: u64| self.types@.contains(t),
            |t: u64| *self.values@[self.types@.index_of(t)],
        )
    }
}

impl<'a, C> QueryItem<'a, C> {
    pub closed spec fn wf(&self) -> bool {
        &&& strictly_sorted(self.types@)
        &&& self.types@.len() == self.values@.len()
    }

    /// The item with these types and components
    pub(crate) fn new(types: Vec<u64>, values: Vec<&'a C>, row: Ghost<Map<u64, C>>) -> (r: Self)
        requires
            strictly_sorted(types@),
            types@.len() == values@.len(),
            types@.to_set().subset_of(row@.dom()),
            forall|k: int| 0 <= k < types@.len() ==> *(#[trigger] values@[k]) == row@[types@[k]],
        ensures
            r.wf(),
            r@ == row@.restrict(types@.to_set()),
    {
        let r = QueryItem { types, values };
        proof {
            assert forall|t: u64| r@.contains_key(t) implies #[trigger] r@[t] == row@.restrict(
                types@.to_set(),
            )[t] by {
                let k = types@.index_of(t);
                assert(types@[k] == t);
                assert(*values@[k] == row@[types@[k]]);
            }
            assert forall|t: u64| #[trigger] r@.contains_key(t) == row@.restrict(
                types@.to_set(),
            ).contains_key(t) by {
                if types@.contains(t) {
                    assert(types@.to_set().contains(t));
                }
            }
            assert(r@ =~= row@.restrict(types@.to_set()));
        }
        r
    }

    /// Borrow the component of type `ty`, if it was fetched
    pub fn get(&self, ty: TypeInfo) -> (r: Option<&'a C>)
        requires
            self.wf(),
        ensures
            match r {
                Some(x) => self@.contains_key(ty.id) && *x == self@[ty.id],
                None => !self@.contains_key(ty.id),
            },
    {
        match position(self.types.as_slice(), ty.id) {
            Some(k) => Some(self.values[k]),
            None => None,
        }
    }
}

/// The components that a query fetched from one entity, for writing.
pub struct QueryItemMut<'a, C> {
    /// The numbers of the component types, in ascending order
    pub types: Vec<u64>,
    /// The components, in the order of `types`
    pub values: Vec<&'a mut C>,
}

impl<'a, C> QueryItemMut<'a, C> {
    pub open spec fn wf(&self) -> bool {
        &&& strictly_sorted(self.types@)
        &&& self.types@.len() == self.values@.len()
    }

    /// Borrow the component of type `ty`, if it was fetched
    pub fn get(&self, ty: TypeInfo) -> (r: Option<&C>)
        requires
            self.wf(),
        ensures
            match r {
                Some(x) => self.types@.contains(ty.id) && *x
                    == *self.values@[self.types@.index_of(ty.id)],
                None => !self.types@.contains(ty.id),
            },
    {
        match position(self.types.as_slice(), ty.id) {
            Some(k) => Some(&*self.values[k]),
            None => None,
        }
    }

    /// Uniquely borrow the component of type `ty`, if it was fetched
    pub fn get_mut(&mut self, ty: TypeInfo) -> (r: Option<&mut C>)
        requires
            old(self).wf(),
        ensures
            final(self).wf(),
            final(self).types@ == old(self).types@,
            forall|k: int|
                0 <= k < old(self).values@.len() ==> *final(#[trigger] final(self).values@[k])
                    == *final(old(self).values@[k]),
            match r {
                Some(x) => {
                    let at = old(self).types@.index_of(ty.id);
                    &&& old(self).types@.contains(ty.id)
                    &&& *x == *old(self).values@[at]
                    &&& *final(self).values@[at] == *final(x)
                    &&& forall|k: int|
                        0 <= k < old(self).values@.len() && k != at
                            ==> *(#[trigger] final(self).values@[k]) == *old(self).values@[k]
                },
                None => {
                    &&& !old(self).types@.contains(ty.id)
                    &&& final(self).values@ == old(self).values@
                },
            },
    {
        match position(self.types.as_slice(), ty.id) {
            Some(k) => {
                let cell: &mut &'a mut C = &mut self.values[k];
                Some(&mut **cell)
            },
            None => None,
        }
    }
}

/// Component types that a dynamic query looks for.
#[derive(Copy, Clone)]
pub struct DynamicQueryTypes<'q> {
    /// The components that an entity must have to be found
    pub types: &'q [TypeInfo],
}

/// The query for all of the listed component types
pub(crate) fn dynamic(types: DynamicQueryTypes<'_>) -> (r: Query)
    ensures
        forall|own: Set<u64>| #[trigger]
            satisfied(r, own) == type_ids(types.types@).to_set().subset_of(own),
        forall|own: Set<u64>| #[trigger] fetched(r, own) == type_ids(types.types@).to_set(),
{
    let list = types.types;
    let mut parts: Vec<Query> = Vec::new();
    for i in 0..list.len()
        invariant
            list@ == types.types@,
            parts@.len() == i,
            forall|k: int|
                0 <= k < i ==> #[trigger] parts@[k] == Query::Component(list@[k]),
    {
        parts.push(Query::Component(list[i]));
    }
    proof {
        let r = Query::Tuple(parts);
        assert forall|own: Set<u64>| #[trigger]
            satisfied(r, own) == type_ids(list@).to_set().subset_of(own) by {
            lemma_component_list(parts@, list@, own);
        }
        assert forall|own: Set<u64>| #[trigger] fetched(r, own) == type_ids(list@).to_set() by {
            lemma_component_list(parts@, list@, own);
        }
    }
    Query::Tuple(parts)
}

proof fn lemma_component_list(parts: Seq<Query>, list: Seq<TypeInfo>, own: Set<u64>)
    requires
        parts.len() == list.len(),
        forall|k: int| 0 <= k < parts.len() ==> #[trigger] parts[k] == Query::Component(list[k]),
    ensures
        all_satisfied(parts, own) == type_ids(list).to_set().subset_of(own),
        all_fetched(parts, own) == type_ids(list).to_set(),
    decreases parts.len(),
{
    if parts.len() == 0 {
        assert(type_ids(list).to_set() =~= Set::empty());
    } else {
        let n = list.len() - 1;
        lemma_component_list(parts.drop_last(), list.drop_last(), own);
        assert(parts.last() == Query::Component(list[n]));
        assert(satisfied(parts.last(), own) == own.contains(list[n].id));
        assert(fetched(parts.last(), own) == set![list[n].id]);
        let a = type_ids(list.drop_last());
        let b = type_ids(list);
        assert(b =~= a.push(list[n].id));
        assert(b.to_set() =~= a.to_set().union(set![list[n].id])) by {
            broadcast use vstd::seq_lib::group_seq_properties;

        }
    }
}

/// Where one query is not satisfied, not all are.
proof fn lemma_unsatisfied(parts: Seq<Query>, types: Set<u64>, i: int)
    requires
        0 <= i < parts.len(),
        !satisfied(parts[i], types),
    ensures
        !all_satisfied(parts, types),
    decreases parts.len(),
{
    if i < parts.len() - 1 {
        assert(parts.drop_last()[i] == parts[i]);
        lemma_unsatisfied(parts.drop_last(), types, i);
    }
}

} // verus!
