//! The hash tables of the store: archetypes by their component types, and sets of component types.
//!
//! Both tables come from `hashbrown`. Everything that is said of them here is stated over
//! [`index_map`] and [`id_set`], the names of what a table holds.
use hashbrown::{HashMap, HashSet};
use vstd::prelude::*;

verus! {

/// `hashbrown`'s hash map, as an opaque type.
#[verifier::external_type_specification]
#[verifier::external_body]
#[verifier::reject_recursive_types(K)]
#[verifier::reject_recursive_types(V)]
#[verifier::reject_recursive_types(S)]
pub struct ExHashMap<K, V, S>(HashMap<K, V, S>);

/// `hashbrown`'s hash set, as an opaque type.
#[verifier::external_type_specification]
#[verifier::external_body]
#[verifier::reject_recursive_types(T)]
#[verifier::reject_recursive_types(S)]
pub struct ExHashSet<T, S>(HashSet<T, S>);

/// The hasher state that both tables carry, as an opaque type.
#[verifier::external_type_specification]
#[verifier::external_body]
pub struct ExDefaultHashBuilder(hashbrown::hash_map::DefaultHashBuilder);

/// An index of archetypes by their component types.
pub type TypeIndex = HashMap<Box<[u64]>, u32>;

/// A set of component types.
pub type IdSet = HashSet<u64>;

/// What an archetype index holds: for each list of component types, the archetype that has them.
pub uninterp spec fn index_map(index: TypeIndex) -> Map<Seq<u64>, u32>;

/// What a set of component types holds.
pub uninterp spec fn id_set(set: IdSet) -> Set<u64>;

/// `HashMap::default`: a map without entries.
#[verifier::external_body]
pub(crate) fn index_new() -> (r: TypeIndex)
    ensures
        index_map(r).dom() == Set::<Seq<u64>>::empty(),
{
    HashMap::default()
}

/// `HashMap::get`: the value stored under a key that equals `ids`, if there is one.
#[verifier::external_body]
pub(crate) fn index_get(index: &TypeIndex, ids: &[u64]) -> (r: Option<u32>)
    ensures
        r == (if index_map(*index).contains_key(ids@) {
            Some(index_map(*index)[ids@])
        } else {
            None
        }),
{
    index.get(ids).copied()
}

/// `HashMap::insert`: stores `value` under `ids`, in place of what was stored there.
#[verifier::external_body]
pub(crate) fn index_insert(index: &mut TypeIndex, ids: Vec<u64>, value: u32)
    ensures
        index_map(*final(index)) == index_map(*old(index)).insert(ids@, value),
{
    index.insert(ids.into_boxed_slice(), value);
}

/// `HashMap::entry`, completed by `Entry::or_insert`: the value stored under `ids`, after
/// storing `default` there if nothing was.
#[verifier::external_body]
pub(crate) fn index_entry(index: &mut TypeIndex, ids: Vec<u64>, default: u32) -> (r: u32)
    ensures
        r == (if index_map(*old(index)).contains_key(ids@) {
            index_map(*old(index))[ids@]
        } else {
            default
        }),
        index_map(*final(index)) == (if index_map(*old(index)).contains_key(ids@) {
            index_map(*old(index))
        } else {
            index_map(*old(index)).insert(ids@, default)
        }),
{
    *index.entry(ids.into_boxed_slice()).or_insert(default)
}

/// `HashSet::from_iter`: the set of the listed ids.
#[verifier::external_body]
pub(crate) fn id_set_from(ids: Vec<u64>) -> (r: IdSet)
    ensures
        id_set(r) == ids@.to_set(),
{
    HashSet::from_iter(ids)
}

/// `HashSet::contains`: whether an element equal to `id` is in the set.
#[verifier::external_body]
pub(crate) fn id_set_contains(set: &IdSet, id: u64) -> (r: bool)
    ensures
        r == id_set(*set).contains(id),
{
    set.contains(&id)
}

/// The slice method `sort` of std: `ids` in ascending order.
#[verifier::external_body]
pub(crate) fn sort_ids(ids: &mut Vec<u64>)
    ensures
        final(ids)@.to_multiset() == old(ids)@.to_multiset(),
        forall|i: int, j: int| 0 <= i <= j < final(ids)@.len() ==> final(ids)@[i] <= final(ids)@[j],
{
    ids.sort()
}

} // verus!
