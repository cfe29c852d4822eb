//! Component types, and maps from component types to values.
use crate::type_index::sort_ids;
use vstd::prelude::*;

verus! {

/// Types that can be components, implemented automatically for all `Send + Sync + 'static` types
///
/// This is just a convenient shorthand for `Send + Sync + 'static`, and never needs to be
/// implemented manually.
pub trait Component: Send + Sync + 'static {

}

impl<T: Send + Sync + 'static> Component for T {

}

/// A type of component: its number, which no other type has, and its name, for messages.
#[derive(Copy, Clone, Debug)]
pub struct TypeInfo {
    pub id: u64,
    pub name: &'static str,
}

/// The numbers of the listed types, in order.
pub open spec fn type_ids(types: Seq<TypeInfo>) -> Seq<u64> {
    types.map_values(|t: TypeInfo| t.id)
}

/// No type is listed twice.
pub open spec fn distinct_types(types: Seq<TypeInfo>) -> bool {
    type_ids(types).no_duplicates()
}

/// All listed types are in the set.
pub open spec fn has_all(types: Seq<TypeInfo>, present: Set<u64>) -> bool {
    forall|i: int| 0 <= i < types.len() ==> present.contains((#[trigger] types[i]).id)
}

/// The type at position `i` is the first of the listed ones that is not in the set.
pub open spec fn first_missing(types: Seq<TypeInfo>, present: Set<u64>, i: int) -> bool {
    &&& 0 <= i < types.len()
    &&& !present.contains(types[i].id)
    &&& has_all(types.take(i), present)
}

/// In ascending order, with nothing twice.
pub open spec fn strictly_sorted(ids: Seq<u64>) -> bool {
    forall|i: int, j: int| 0 <= i < j < ids.len() ==> ids[i] < ids[j]
}

/// The map that takes `ids[i]` to `values[i]`.
pub open spec fn zip_map<C>(ids: Seq<u64>, values: Seq<C>) -> Map<u64, C> {
    Map::new(|t: u64| ids.contains(t), |t: u64| values[ids.index_of(t)])
}

pub(crate) proof fn lemma_sorted_no_duplicates(ids: Seq<u64>)
    requires
        strictly_sorted(ids),
    ensures
        ids.no_duplicates(),
{
    assert forall|i: int, j: int| 0 <= i < ids.len() && 0 <= j < ids.len() && i != j implies ids[i]
        != ids[j] by {
        if i < j {
            assert(ids[i] < ids[j]);
        } else {
            assert(ids[j] < ids[i]);
        }
    }
}

/// What `zip_map` holds at a listed position.
pub(crate) proof fn lemma_zip_map_at<C>(ids: Seq<u64>, values: Seq<C>, i: int)
    requires
        ids.no_duplicates(),
        0 <= i < ids.len(),
    ensures
        zip_map(ids, values).contains_key(ids[i]),
        zip_map(ids, values)[ids[i]] == values[i],
        ids.index_of(ids[i]) == i,
{
    let k = ids.index_of(ids[i]);
    assert(ids.contains(ids[i]));
    assert(0 <= k < ids.len() && ids[k] == ids[i]);
}

pub(crate) proof fn lemma_zip_map_dom<C>(ids: Seq<u64>, values: Seq<C>)
    ensures
        zip_map(ids, values).dom() == ids.to_set(),
{
    assert(zip_map(ids, values).dom() =~= ids.to_set());
}

/// What `zip_map` holds from a position on.
pub(crate) proof fn lemma_zip_map_tail<C>(ids: Seq<u64>, values: Seq<C>, n: int)
    requires
        ids.no_duplicates(),
        ids.len() == values.len(),
        0 <= n < ids.len(),
    ensures
        zip_map(ids.skip(n), values.skip(n)) == zip_map(ids.skip(n + 1), values.skip(n + 1)).insert(
            ids[n],
            values[n],
        ),
        !ids.skip(n + 1).contains(ids[n]),
{
    let a = ids.skip(n);
    let b = ids.skip(n + 1);
    let va = values.skip(n);
    let vb = values.skip(n + 1);
    assert(a.no_duplicates());
    assert(b.no_duplicates());
    assert forall|t: u64| #[trigger] a.contains(t) == (b.contains(t) || t == ids[n]) by {
        if a.contains(t) {
            let k = a.index_of(t);
            assert(a[k] == t);
            if k > 0 {
                assert(b[k - 1] == t);
            }
        }
        if b.contains(t) {
            let k = b.index_of(t);
            assert(a[k + 1] == t);
        }
        assert(a[0] == ids[n]);
    }
    if b.contains(ids[n]) {
        let k = b.index_of(ids[n]);
        assert(ids[n + 1 + k] == ids[n]);
    }
    let want = zip_map(b, vb).insert(ids[n], values[n]);
    assert forall|t: u64| #[trigger] a.contains(t) implies zip_map(a, va)[t] == want[t] by {
        let k = a.index_of(t);
        assert(a[k] == t);
        if k > 0 {
            assert(b[k - 1] == t);
            lemma_zip_map_at(b, vb, k - 1);
        }
    }
    assert(zip_map(a, va) =~= want);
}

/// The set of a list that is one element longer.
pub(crate) proof fn lemma_take_set(list: Seq<u64>, i: int)
    requires
        list.no_duplicates(),
        0 <= i < list.len(),
    ensures
        list.take(i + 1).to_set() == list.take(i).to_set().insert(list[i]),
        !list.take(i).to_set().contains(list[i]),
{
    let a = list.take(i);
    let b = list.take(i + 1);
    assert forall|x: u64| b.to_set().contains(x) == a.to_set().insert(list[i]).contains(x) by {
        if b.contains(x) {
            let k = b.index_of(x);
            if k < i {
                assert(a[k] == x);
            }
        }
        if a.contains(x) {
            assert(b[a.index_of(x)] == x);
        }
        assert(b[i] == list[i]);
    }
    assert(b.to_set() =~= a.to_set().insert(list[i]));
    if a.contains(list[i]) {
        assert(list[a.index_of(list[i])] == list[i]);
    }
}

/// A set of ids has one listing in ascending order.
pub(crate) proof fn lemma_sorted_unique(a: Seq<u64>, b: Seq<u64>)
    requires
        strictly_sorted(a),
        strictly_sorted(b),
        a.to_set() == b.to_set(),
    ensures
        a == b,
    decreases a.len(),
{
    if a.len() == 0 {
        if b.len() > 0 {
            assert(b.to_set().contains(b[0]));
            assert(a.contains(b[0]));
        }
        assert(a =~= b);
    } else {
        assert(a.to_set().contains(a.last()));
        assert(b.contains(a.last()));
        assert(b.len() > 0);
        assert(b.to_set().contains(b.last()));
        assert(a.contains(b.last()));
        let i = b.index_of(a.last());
        let j = a.index_of(b.last());
        assert(a.last() == b.last()) by {
            if i < b.len() - 1 {
                assert(b[i] < b[b.len() - 1]);
            }
            if j < a.len() - 1 {
                assert(a[j] < a[a.len() - 1]);
            }
        }
        let a1 = a.drop_last();
        let b1 = b.drop_last();
        assert(a1.to_set() =~= b1.to_set()) by {
            assert forall|t: u64| a1.to_set().contains(t) == b1.to_set().contains(t) by {
                if a1.contains(t) {
                    let k = a1.index_of(t);
                    assert(a[k] == t && a[k] < a.last());
                    assert(a.to_set().contains(t));
                    assert(b.contains(t));
                    let m = b.index_of(t);
                    assert(b1[m] == t);
                }
                if b1.contains(t) {
                    let k = b1.index_of(t);
                    assert(b[k] == t && b[k] < b.last());
                    assert(b.to_set().contains(t));
                    assert(a.contains(t));
                    let m = a.index_of(t);
                    assert(a1[m] == t);
                }
            }
        }
        lemma_sorted_unique(a1, b1);
        assert(a =~= a1.push(a.last()));
        assert(b =~= b1.push(b.last()));
    }
}

/// The numbers of the listed types, in order.
pub(crate) fn type_id_list(types: &[TypeInfo]) -> (r: Vec<u64>)
    ensures
        r@ == type_ids(types@),
{
    let mut ids: Vec<u64> = Vec::new();
    for i in 0..types.len()
        invariant
            ids@ == type_ids(types@).take(i as int),
    {
        ids.push(types[i].id);
        assert(ids@ =~= type_ids(types@).take(i + 1));
    }
    assert(ids@ =~= type_ids(types@));
    ids
}

/// The numbers of the listed types, in ascending order.
pub(crate) fn sorted_type_ids(types: &[TypeInfo]) -> (r: Vec<u64>)
    requires
        distinct_types(types@),
    ensures
        strictly_sorted(r@),
        r@.to_set() == type_ids(types@).to_set(),
{
    let mut ids = type_id_list(types);
    sort_distinct(&mut ids);
    ids
}

/// Sorts a list in which nothing occurs twice.
pub(crate) fn sort_distinct(ids: &mut Vec<u64>)
    requires
        old(ids)@.no_duplicates(),
    ensures
        strictly_sorted(final(ids)@),
        final(ids)@.to_set() == old(ids)@.to_set(),
{
    let ghost before = ids@;
    sort_ids(ids);
    proof {
        broadcast use vstd::seq_lib::group_to_multiset_ensures;

        before.lemma_multiset_has_no_duplicates();
        ids@.lemma_multiset_has_no_duplicates_conv();
        assert(ids@.to_set() =~= before.to_set()) by {
            assert forall|t: u64| ids@.to_set().contains(t) == before.to_set().contains(t) by {
                assert(ids@.contains(t) <==> ids@.to_multiset().count(t) > 0);
                assert(before.contains(t) <==> before.to_multiset().count(t) > 0);
            }
        }
    }
}

} // verus!
