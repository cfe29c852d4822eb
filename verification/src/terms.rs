//! What the terms mean that the contracts are stated in.
use crate::bundle::Bundle;
use crate::column_batch::{batch_row, complete};
use crate::entities::{Entity, NoSuchEntity};
use crate::error::{ComponentError, MissingComponent, QueryOneError};
use crate::laws::{advanced_by, listed_rows, spawned_at};
use crate::model::{row_types, Model, Step};
use crate::query::{
    all_fetched, all_satisfied, answer, fetched, lemma_fetched, satisfied, selected, Query,
};
use crate::types::{
    distinct_types, first_missing, has_all, strictly_sorted, type_ids, zip_map, TypeInfo,
};
use crate::world::batch::advanced;
use crate::world::search::{first_matched, handles, matched};
use crate::world::state::{bundle_rows, bundle_types, with_all_types};
use crate::world::{
    empties, with_entities, with_types, without_id, without_ids, ArchetypesGeneration, World,
};
use vstd::prelude::*;
use vstd::std_specs::convert::FromSpec;

verus! {

/// The numbers of listed types stand in the order of the list.
pub proof fn law_type_ids(types: Seq<TypeInfo>)
    ensures
        type_ids(types).len() == types.len(),
        forall|i: int|
            #![trigger types[i]]
            #![trigger type_ids(types)[i]]
            0 <= i < types.len() ==> type_ids(types)[i] == types[i].id,
{
}

/// Types are distinct exactly when no two of them have the same number.
pub proof fn law_distinct_types(types: Seq<TypeInfo>)
    ensures
        distinct_types(types) <==> forall|i: int, j: int|
            0 <= i < j < types.len() ==> (#[trigger] types[i]).id != (#[trigger] types[j]).id,
{
    let ids = type_ids(types);
    if distinct_types(types) {
        assert forall|i: int, j: int| 0 <= i < j < types.len() implies (#[trigger] types[i]).id != (
        #[trigger] types[j]).id by {
            assert(ids[i] != ids[j]);
        }
    }
    if forall|i: int, j: int|
        0 <= i < j < types.len() ==> (#[trigger] types[i]).id != (#[trigger] types[j]).id {
        assert forall|i: int, j: int|
            0 <= i < ids.len() && 0 <= j < ids.len() && i != j implies ids[i] != ids[j] by {
            if i < j {
                assert(types[i].id != types[j].id);
            } else {
                assert(types[j].id != types[i].id);
            }
        }
    }
}

/// All listed types are present exactly when each of them is; where not, the first missing one is
/// the one before which all are present.
pub proof fn law_missing(types: Seq<TypeInfo>, present: Set<u64>, k: int)
    ensures
        has_all(types, present) <==> forall|i: int|
            0 <= i < types.len() ==> present.contains((#[trigger] types[i]).id),
        first_missing(types, present, k) <==> 0 <= k < types.len() && !present.contains(types[k].id)
            && forall|i: int| 0 <= i < k ==> present.contains((#[trigger] types[i]).id),
        has_all(types, present) <==> !(exists|i: int| #[trigger] first_missing(types, present, i)),
{
    if 0 <= k < types.len() {
        if first_missing(types, present, k) {
            assert forall|i: int| 0 <= i < k implies present.contains((#[trigger] types[i]).id) by {
                assert(types.take(k)[i] == types[i]);
            }
        }
        if forall|i: int| 0 <= i < k ==> present.contains((#[trigger] types[i]).id) {
            assert(has_all(types.take(k), present));
        }
    }
    if has_all(types, present) {
        assert forall|i: int| !(#[trigger] first_missing(types, present, i)) by {
            if 0 <= i < types.len() {
                assert(present.contains(types[i].id));
            }
        }
    } else {
        lemma_some_missing(types, present, types.len() as int);
    }
}

/// Among types that are not all present there is a first missing one.
proof fn lemma_some_missing(types: Seq<TypeInfo>, present: Set<u64>, n: int)
    requires
        0 <= n <= types.len(),
        !has_all(types.take(n), present) || !has_all(types, present) && n == types.len(),
    ensures
        exists|i: int| #[trigger] first_missing(types, present, i),
    decreases n,
{
    if n == types.len() {
        assert(types.take(n) =~= types);
    }
    assert(n > 0);
    if has_all(types.take(n - 1), present) {
        assert(!present.contains(types[n - 1].id)) by {
            if present.contains(types[n - 1].id) {
                assert forall|i: int| 0 <= i < n implies present.contains(
                    (#[trigger] types.take(n)[i]).id,
                ) by {
                    if i < n - 1 {
                        assert(types.take(n - 1)[i] == types.take(n)[i]);
                    }
                }
            }
        }
        assert(first_missing(types, present, n - 1));
    } else {
        lemma_some_missing(types, present, n - 1);
    }
}

/// A list is sorted exactly when each element is below all that follow it.
pub proof fn law_sorted(ids: Seq<u64>)
    ensures
        strictly_sorted(ids) <==> forall|i: int, j: int| 0 <= i < j < ids.len() ==> ids[i] < ids[j],
{
}

/// A map that is zipped of two lists takes each element of the first to the one at the same place
/// of the second, and nothing else to anything.
pub proof fn law_zip_map<C>(ids: Seq<u64>, values: Seq<C>)
    requires
        ids.no_duplicates(),
        ids.len() == values.len(),
    ensures
        forall|t: u64| #[trigger] zip_map(ids, values).contains_key(t) <==> ids.contains(t),
        forall|i: int|
            #![trigger ids[i]]
            0 <= i < ids.len() ==> zip_map(ids, values)[ids[i]] == values[i],
{
    assert forall|i: int|
        #![trigger ids[i]]
        0 <= i < ids.len() implies zip_map(ids, values)[ids[i]] == values[i] by {
        assert(ids.contains(ids[i]));
        assert(ids[ids.index_of(ids[i])] == ids[i]);
    }
}

/// A query for one component is satisfied where it is present, and fetches it alone.
pub proof fn law_query_component(ty: TypeInfo, types: Set<u64>)
    ensures
        satisfied(Query::Component(ty), types) <==> types.contains(ty.id),
        forall|t: u64| #[trigger] fetched(Query::Component(ty), types).contains(t) <==> t == ty.id,
{
}

/// A tuple of queries is satisfied exactly when each of its parts is, and fetches what any of its
/// parts fetches.
pub proof fn law_query_tuple(parts: Vec<Query>, types: Set<u64>)
    ensures
        satisfied(Query::Tuple(parts), types) <==> forall|i: int|
            0 <= i < parts@.len() ==> satisfied(#[trigger] parts@[i], types),
        forall|t: u64| #[trigger]
            fetched(Query::Tuple(parts), types).contains(t) <==> exists|i: int|
                0 <= i < parts@.len() && fetched(#[trigger] parts@[i], types).contains(t),
{
    let query = Query::Tuple(parts);
    assert(satisfied(query, types) == all_satisfied(parts@, types));
    assert(fetched(query, types) == all_fetched(parts@, types));
    lemma_parts(parts@, types);
}

proof fn lemma_parts(parts: Seq<Query>, types: Set<u64>)
    ensures
        all_satisfied(parts, types) <==> forall|i: int|
            0 <= i < parts.len() ==> satisfied(#[trigger] parts[i], types),
        forall|t: u64| #[trigger]
            all_fetched(parts, types).contains(t) <==> exists|i: int|
                0 <= i < parts.len() && fetched(#[trigger] parts[i], types).contains(t),
    decreases parts.len(),
{
    if parts.len() > 0 {
        let init = parts.drop_last();
        let n = parts.len() - 1;
        lemma_parts(init, types);
        assert(all_satisfied(parts, types) == (all_satisfied(init, types) && satisfied(
            parts[n],
            types,
        )));
        if all_satisfied(parts, types) {
            assert forall|i: int| 0 <= i < parts.len() implies satisfied(
                #[trigger] parts[i],
                types,
            ) by {
                if i < n {
                    assert(init[i] == parts[i]);
                }
            }
        }
        if forall|i: int| 0 <= i < parts.len() ==> satisfied(#[trigger] parts[i], types) {
            assert forall|i: int| 0 <= i < init.len() implies satisfied(
                #[trigger] init[i],
                types,
            ) by {
                assert(init[i] == parts[i]);
            }
            assert(satisfied(parts[n], types));
        }
        assert forall|t: u64| #[trigger] all_fetched(parts, types).contains(t) <==> exists|i: int|
            0 <= i < parts.len() && fetched(#[trigger] parts[i], types).contains(t) by {
            assert(all_fetched(parts, types).contains(t) == (all_fetched(init, types).contains(t)
                || fetched(parts[n], types).contains(t)));
            if all_fetched(init, types).contains(t) {
                let i = choose|i: int|
                    0 <= i < init.len() && fetched(#[trigger] init[i], types).contains(t);
                assert(parts[i] == init[i]);
            }
            if exists|i: int|
                0 <= i < parts.len() && fetched(#[trigger] parts[i], types).contains(t) {
                let i = choose|i: int|
                    0 <= i < parts.len() && fetched(#[trigger] parts[i], types).contains(t);
                if i < n {
                    assert(init[i] == parts[i]);
                }
            }
        }
    }
}

/// An optional query is always satisfied. It fetches what the query in it fetches where that is
/// satisfied, and nothing elsewhere.
pub proof fn law_query_optional(inner: Box<Query>, types: Set<u64>, t: u64)
    ensures
        satisfied(Query::Optional(inner), types),
        fetched(Query::Optional(inner), types).contains(t) <==> satisfied(*inner, types) && fetched(
            *inner,
            types,
        ).contains(t),
{
}

/// A tuple of components is satisfied by the entities that have all of them, and fetches each.
pub proof fn law_query_components(parts: Vec<Query>, list: Seq<TypeInfo>, types: Set<u64>)
    requires
        parts@.len() == list.len(),
        forall|i: int| 0 <= i < list.len() ==> #[trigger] parts@[i] == Query::Component(list[i]),
    ensures
        satisfied(Query::Tuple(parts), types) <==> forall|i: int|
            0 <= i < list.len() ==> types.contains((#[trigger] list[i]).id),
        forall|t: u64| #[trigger]
            fetched(Query::Tuple(parts), types).contains(t) <==> exists|i: int|
                0 <= i < list.len() && (#[trigger] list[i]).id == t,
{
    law_query_tuple(parts, types);
    assert forall|i: int| 0 <= i < list.len() implies satisfied(#[trigger] parts@[i], types)
        == types.contains(list[i].id) && forall|t: u64| #[trigger]
        fetched(parts@[i], types).contains(t) <==> t == list[i].id by {
        law_query_component(list[i], types);
    }
    if satisfied(Query::Tuple(parts), types) {
        assert forall|i: int| 0 <= i < list.len() implies types.contains(
            (#[trigger] list[i]).id,
        ) by {
            assert(satisfied(parts@[i], types));
        }
    }
    assert forall|t: u64| #[trigger]
        fetched(Query::Tuple(parts), types).contains(t) <==> exists|i: int|
        0 <= i < list.len() && (#[trigger] list[i]).id == t by {
        if fetched(Query::Tuple(parts), types).contains(t) {
            let i = choose|i: int|
                0 <= i < parts@.len() && fetched(#[trigger] parts@[i], types).contains(t);
            assert(list[i].id == t);
        }
        if exists|i: int| 0 <= i < list.len() && (#[trigger] list[i]).id == t {
            let i = choose|i: int| 0 <= i < list.len() && (#[trigger] list[i]).id == t;
            assert(fetched(parts@[i], types).contains(t));
        }
    }
}

/// The answer of an entity that satisfies a query is what the query fetches, with the entity's
/// values.
pub proof fn law_answer<C>(query: Query, row: Map<u64, C>, t: u64)
    requires
        satisfied(query, row.dom()),
    ensures
        answer(query, row).contains_key(t) <==> fetched(query, row.dom()).contains(t),
        fetched(query, row.dom()).contains(t) ==> row.contains_key(t) && answer(query, row)[t]
            == row[t],
{
    lemma_fetched(query, row.dom());
}

impl<C> World<C> {
    /// A dynamic query yields every entity that exists and has all of the listed component types
    /// exactly once, with exactly the listed components, and nothing else.
    pub proof fn law_query_dynamic(&self, types: Seq<TypeInfo>)
        requires
            self.wf(),
        ensures
            ({
                let found = selected(type_ids(types).to_set(), self.listing());
                &&& forall|i: int|
                    #![trigger found[i]]
                    0 <= i < found.len() ==> {
                        let (e, item) = found[i];
                        &&& self@.contains_key(e)
                        &&& !self.ids().reserved(e)
                        &&& forall|k: int|
                            #![trigger types[k]]
                            0 <= k < types.len() ==> self@[e].contains_key(types[k].id)
                                && item.contains_key(types[k].id) && item[types[k].id]
                                == self@[e][types[k].id]
                        &&& forall|t: u64| #[trigger]
                            item.contains_key(t) ==> exists|k: int|
                                0 <= k < types.len() && (#[trigger] types[k]).id == t
                    }
                &&& forall|e: Entity| #[trigger]
                    self@.contains_key(e) && !self.ids().reserved(e) && (forall|k: int|
                        0 <= k < types.len() ==> self@[e].contains_key((#[trigger] types[k]).id))
                        ==> exists|i: int|
                        0 <= i < found.len() && (#[trigger] found[i]).0 == e
                &&& forall|i: int, j: int|
                    0 <= i < j < found.len() ==> (#[trigger] found[i]).0 != (
                    #[trigger] found[j]).0
            }),
    {
        let ids = type_ids(types);
        let want = ids.to_set();
        let list = self.listing();
        let found = selected(want, list);
        self.lemma_listing();
        lemma_selected_distinct(want, list);
        assert forall|t: u64| #[trigger] want.contains(t) <==> exists|k: int|
            0 <= k < types.len() && (#[trigger] types[k]).id == t by {
            if want.contains(t) {
                assert(types[ids.index_of(t)].id == t);
            }
            if exists|k: int| 0 <= k < types.len() && (#[trigger] types[k]).id == t {
                let k = choose|k: int| 0 <= k < types.len() && (#[trigger] types[k]).id == t;
                assert(ids[k] == t);
            }
        }
        assert forall|i: int|
            #![trigger found[i]]
            0 <= i < found.len() implies {
            let (e, item) = found[i];
            &&& self@.contains_key(e)
            &&& !self.ids().reserved(e)
            &&& forall|k: int|
                #![trigger types[k]]
                0 <= k < types.len() ==> self@[e].contains_key(types[k].id) && item.contains_key(
                    types[k].id,
                ) && item[types[k].id] == self@[e][types[k].id]
            &&& forall|t: u64| #[trigger]
                item.contains_key(t) ==> exists|k: int|
                    0 <= k < types.len() && (#[trigger] types[k]).id == t
        } by {
            let (e, item) = found[i];
            let j = lemma_selected_from(want, list, i);
            assert(self@[list[j].0] == list[j].1);
            assert forall|k: int|
                #![trigger types[k]]
                0 <= k < types.len() implies self@[e].contains_key(types[k].id)
                && item.contains_key(types[k].id) && item[types[k].id] == self@[e][types[k].id] by {
                assert(want.contains(types[k].id));
                assert(list[j].1.dom().contains(types[k].id));
            }
            assert forall|t: u64| #[trigger] item.contains_key(t) implies exists|k: int|
                0 <= k < types.len() && (#[trigger] types[k]).id == t by {
                assert(want.contains(t));
            }
        }
        assert forall|e: Entity| #[trigger]
            self@.contains_key(e) && !self.ids().reserved(e) && (forall|k: int|
                0 <= k < types.len() ==> self@[e].contains_key(
                    (#[trigger] types[k]).id,
                )) implies exists|i: int| 0 <= i < found.len() && (#[trigger] found[i]).0 == e by {
            let j = choose|j: int| 0 <= j < list.len() && (#[trigger] list[j]).0 == e;
            assert(self@[e] == list[j].1);
            assert(want.subset_of(list[j].1.dom())) by {
                assert forall|t: u64| want.contains(t) implies list[j].1.dom().contains(t) by {
                    let k = choose|k: int| 0 <= k < types.len() && (#[trigger] types[k]).id == t;
                    assert(self@[e].contains_key(types[k].id));
                }
            }
            let i = lemma_selected_at(want, list, j);
            assert(found[i].0 == e);
        }
    }

    /// The number of entities, live or reserved, is that of the handles in the world. There is room
    /// for more as long as their number fits `u32`, and for an archetype where it is there already
    /// or their number fits `u32` with it.
    pub proof fn law_room(&self, n: int, types: Set<u64>)
        requires
            self.wf(),
        ensures
            self@.dom().finite(),
            self@.dom().len() == self.ids().population(),
            self.has_room(n) <==> self@.dom().len() + n <= u32::MAX,
            self.accepts(types) <==> self.layout().contains(types) || self.layout().len()
                < u32::MAX,
    {
        self.lemma_entities();
        self.lemma_layout_len();
        self.ids().law_population();
        assert(self@.dom() =~= Set::new(|e: Entity| self.ids().contains(e)));
    }

    /// The types of each archetype.
    pub proof fn law_layout(&self)
        ensures
            self.layout().len() == self.tables().len(),
            forall|a: int|
                #![trigger self.tables()[a]]
                #![trigger self.layout()[a]]
                0 <= a < self.tables().len() ==> self.layout()[a]
                    == self.tables()[a].types.to_set(),
            self.model().view == self@,
            self.model().ids == self.ids(),
            self.model().layout == self.layout(),
    {
    }
}

/// Every selected entity is a listed one that has the types.
proof fn lemma_selected_from<C>(types: Set<u64>, list: Seq<(Entity, Map<u64, C>)>, i: int) -> (j:
    int)
    requires
        0 <= i < selected(types, list).len(),
    ensures
        0 <= j < list.len(),
        types.subset_of(list[j].1.dom()),
        selected(types, list)[i] == (list[j].0, list[j].1.restrict(types)),
    decreases list.len(),
{
    let first = types.subset_of(list[0].1.dom());
    if first && i == 0 {
        0
    } else {
        let before = if first {
            i - 1
        } else {
            i
        };
        let j = lemma_selected_from(types, list.skip(1), before);
        assert(list.skip(1)[j] == list[j + 1]);
        j + 1
    }
}

/// Every listed entity that has the types is selected.
proof fn lemma_selected_at<C>(types: Set<u64>, list: Seq<(Entity, Map<u64, C>)>, j: int) -> (i: int)
    requires
        0 <= j < list.len(),
        types.subset_of(list[j].1.dom()),
    ensures
        0 <= i < selected(types, list).len(),
        selected(types, list)[i] == (list[j].0, list[j].1.restrict(types)),
    decreases list.len(),
{
    if j == 0 {
        0
    } else {
        assert(list.skip(1)[j - 1] == list[j]);
        let i = lemma_selected_at(types, list.skip(1), j - 1);
        if types.subset_of(list[0].1.dom()) {
            i + 1
        } else {
            i
        }
    }
}

/// Where no entity is listed twice, none is selected twice.
proof fn lemma_selected_distinct<C>(types: Set<u64>, list: Seq<(Entity, Map<u64, C>)>)
    requires
        forall|i: int, j: int|
            0 <= i < j < list.len() ==> (#[trigger] list[i]).0 != (#[trigger] list[j]).0,
    ensures
        forall|i: int, j: int|
            0 <= i < j < selected(types, list).len() ==> (#[trigger] selected(types, list)[i]).0
                != (#[trigger] selected(types, list)[j]).0,
    decreases list.len(),
{
    if list.len() > 0 {
        let rest = list.skip(1);
        let found = selected(types, list);
        let later = selected(types, rest);
        assert forall|i: int, j: int| 0 <= i < j < rest.len() implies (#[trigger] rest[i]).0 != (
        #[trigger] rest[j]).0 by {
            assert(rest[i] == list[i + 1] && rest[j] == list[j + 1]);
        }
        lemma_selected_distinct(types, rest);
        if types.subset_of(list[0].1.dom()) {
            assert forall|i: int, j: int| 0 <= i < j < found.len() implies (#[trigger] found[i]).0
                != (#[trigger] found[j]).0 by {
                assert(found[j] == later[j - 1]);
                if i > 0 {
                    assert(found[i] == later[i - 1]);
                } else {
                    let k = lemma_selected_from(types, rest, j - 1);
                    assert(rest[k] == list[k + 1]);
                }
            }
        }
    }
}

/// The entities of a listing, in order.
pub proof fn law_handles<C>(list: Seq<(Entity, Map<u64, C>)>)
    ensures
        handles(list).len() == list.len(),
        listed_rows(list).len() == list.len(),
        forall|i: int|
            #![trigger list[i]]
            #![trigger handles(list)[i]]
            #![trigger listed_rows(list)[i]]
            0 <= i < list.len() ==> handles(list)[i] == list[i].0 && listed_rows(list)[i]
                == list[i].1,
{
}

/// An entity matches where it is live and satisfies the query; the first match of a list is the one
/// before which there is none.
pub proof fn law_first_matched<C>(
    world: Map<Entity, Map<u64, C>>,
    query: Query,
    list: Seq<Entity>,
    k: int,
    e: Entity,
)
    ensures
        matched(world, query, e) <==> world.contains_key(e) && satisfied(query, world[e].dom()),
        first_matched(world, query, list, k) <==> 0 <= k < list.len() && world.contains_key(list[k])
            && satisfied(query, world[list[k]].dom()) && forall|i: int|
            0 <= i < k ==> !(world.contains_key(#[trigger] list[i]) && satisfied(
                query,
                world[list[i]].dom(),
            )),
{
    if first_matched(world, query, list, k) {
        assert forall|i: int| 0 <= i < k implies !(world.contains_key(#[trigger] list[i])
            && satisfied(query, world[list[i]].dom())) by {
            assert(!matched(world, query, list[i]));
        }
    }
}

/// The components and the types of listed bundles, in order.
pub proof fn law_bundles<C>(list: Seq<Bundle<C>>, rows: Seq<Map<u64, C>>)
    ensures
        bundle_rows(list).len() == list.len(),
        bundle_types(list).len() == list.len(),
        forall|i: int|
            #![trigger list[i]]
            #![trigger bundle_rows(list)[i]]
            #![trigger bundle_types(list)[i]]
            0 <= i < list.len() ==> bundle_rows(list)[i] == list[i]@ && bundle_types(list)[i]
                == list[i]@.dom(),
        row_types(rows).len() == rows.len(),
        forall|i: int|
            #![trigger rows[i]]
            #![trigger row_types(rows)[i]]
            0 <= i < rows.len() ==> row_types(rows)[i] == rows[i].dom(),
{
}

/// Columns are complete where each has a component for every entity; a row has the components at
/// its place of each column.
pub proof fn law_columns<C>(columns: Map<u64, Vec<C>>, size: int, r: int)
    ensures
        complete(columns, size) <==> forall|t: u64| #[trigger]
            columns.contains_key(t) ==> columns[t]@.len() == size,
        batch_row(columns, r).dom() == columns.dom(),
        forall|t: u64|
            columns.contains_key(t) ==> #[trigger] batch_row(columns, r)[t] == columns[t]@[r],
{
    assert(batch_row(columns, r).dom() =~= columns.dom());
}

/// Looking up types changes nothing where an archetype has them, and adds one with exactly these
/// types at the end where none has. Many lookups are one after another.
pub proof fn law_lookups(
    layout: Seq<Set<u64>>,
    types: Set<u64>,
    list: Seq<Set<u64>>,
    a: int,
)
    ensures
        layout.contains(types) ==> with_types(layout, types) == layout,
        !layout.contains(types) ==> with_types(layout, types).len() == layout.len() + 1
            && with_types(layout, types)[layout.len() as int] == types,
        0 <= a < layout.len() ==> with_types(layout, types)[a] == layout[a],
        with_all_types(layout, Seq::empty()) == layout,
        with_all_types(layout, list.push(types)) == with_types(with_all_types(layout, list), types),
{
    assert(list.push(types).drop_last() =~= list);
}

/// Leaving entities out by their ids leaves the others as they were.
pub proof fn law_without<C>(
    world: Map<Entity, Map<u64, C>>,
    id: u32,
    ids: Set<u32>,
    e: Entity,
)
    ensures
        without_id(world, id).contains_key(e) <==> world.contains_key(e) && e.id != id,
        world.contains_key(e) && e.id != id ==> without_id(world, id)[e] == world[e],
        without_ids(world, ids).contains_key(e) <==> world.contains_key(e) && !ids.contains(e.id),
        world.contains_key(e) && !ids.contains(e.id) ==> without_ids(world, ids)[e] == world[e],
{
}

/// Entities together with listed ones: each listed one has its row, the others are as they were.
pub proof fn law_with_entities<C>(
    world: Map<Entity, Map<u64, C>>,
    list: Seq<Entity>,
    rows: Seq<Map<u64, C>>,
    e: Entity,
    n: int,
)
    requires
        list.no_duplicates(),
        list.len() == rows.len(),
        0 <= n,
    ensures
        with_entities(world, list, rows).contains_key(e) <==> world.contains_key(e)
            || list.contains(e),
        forall|i: int|
            #![trigger list[i]]
            0 <= i < list.len() ==> with_entities(world, list, rows)[list[i]] == rows[i],
        world.contains_key(e) && !list.contains(e) ==> with_entities(world, list, rows)[e]
            == world[e],
        empties::<C>(n).len() == n,
        forall|i: int| 0 <= i < n ==> #[trigger] empties::<C>(n)[i] == Map::<u64, C>::empty(),
{
    assert forall|i: int|
        #![trigger list[i]]
        0 <= i < list.len() implies with_entities(world, list, rows)[list[i]] == rows[i] by {
        assert(list.contains(list[i]));
        assert(list[list.index_of(list[i])] == list[i]);
    }
}

/// Two generations are the same exactly when they stand for the same number.
pub proof fn law_generation_value(a: ArchetypesGeneration, b: ArchetypesGeneration)
    ensures
        a == b <==> a@ == b@,
{
    ArchetypesGeneration::lemma_value(a, b);
}

/// A step of an iterator over handles takes the first; many steps are one after another.
pub proof fn law_advanced(list: Seq<Entity>, k: int)
    requires
        0 <= k,
    ensures
        list.len() > 0 ==> advanced(list).len() == list.len() - 1,
        forall|i: int|
            0 <= i < list.len() - 1 ==> #[trigger] advanced(list)[i] == list[i + 1],
        list.len() == 0 ==> advanced(list) == list,
        advanced_by(list, 0) == list,
        advanced_by(list, k + 1) == advanced(advanced_by(list, k)),
{
}

/// What happens one after another happens one at a time, in order.
pub proof fn law_in_turn<C>(
    m: Model<C>,
    rows: Seq<Map<u64, C>>,
    row: Map<u64, C>,
    steps: Seq<Step<C>>,
    step: Step<C>,
    list: Seq<Entity>,
    handle: Entity,
)
    ensures
        m.spawn_each(Seq::empty()) == m,
        m.spawn_each(rows.push(row)) == m.spawn_each(rows).spawn(row),
        m.run(Seq::empty()) == m,
        m.run(steps.push(step)) == m.run(steps).apply(step),
        spawned_at(m.view, Seq::empty(), Seq::empty()) == m.view,
        spawned_at(m.view, list.push(handle), rows.push(row)) == without_id(
            spawned_at(m.view, list, rows),
            handle.id,
        ).insert(handle, row),
{
    assert(rows.push(row).drop_last() =~= rows);
    assert(steps.push(step).drop_last() =~= steps);
    assert(list.push(handle).drop_last() =~= list);
}

/// A step does what its operation does.
pub proof fn law_apply<C>(m: Model<C>, step: Step<C>)
    ensures
        match step {
            Step::Flush => m.apply(step) == m.flush(),
            Step::Spawn(c) => m.apply(step) == m.spawn(c),
            Step::SpawnAt(h, c) => m.apply(step) == m.spawn_at(h, c),
            Step::SpawnBatch(t, rows) => m.apply(step) == m.spawn_batch(t, rows),
            Step::SpawnColumnBatch(t, rows) => m.apply(step) == m.spawn_column_batch(t, rows),
            Step::SpawnColumnBatchAt(hs, t, rows) => m.apply(step) == m.spawn_column_batch_at(
                hs,
                t,
                rows,
            ),
            Step::ReserveEntities(n) => m.apply(step) == m.reserve_entities(n),
            Step::Despawn(e) => m.apply(step) == m.despawn(e),
            Step::Reserve(t) => m.apply(step) == m.reserve(t),
            Step::Clear => m.apply(step) == m.clear(),
            Step::Insert(e, c) => m.apply(step) == m.insert(e, c),
            Step::Remove(e, types) => m.apply(step) == m.remove(e, types),
            Step::Write(e, row) => m.apply(step) == m.write(e, row),
            Step::Extend(rows) => m.apply(step) == m.extend(rows),
        },
{
}

/// What an error becomes when it is converted.
pub proof fn law_conversions(missing: MissingComponent)
    ensures
        <ComponentError as FromSpec<NoSuchEntity>>::obeys_from_spec(),
        <ComponentError as FromSpec<NoSuchEntity>>::from_spec(NoSuchEntity)
            == ComponentError::NoSuchEntity,
        <ComponentError as FromSpec<MissingComponent>>::obeys_from_spec(),
        <ComponentError as FromSpec<MissingComponent>>::from_spec(missing)
            == ComponentError::MissingComponent(missing),
        <QueryOneError as FromSpec<NoSuchEntity>>::obeys_from_spec(),
        <QueryOneError as FromSpec<NoSuchEntity>>::from_spec(NoSuchEntity)
            == QueryOneError::NoSuchEntity,
{
}

} // verus!
