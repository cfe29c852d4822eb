//! Collections of components, at most one of each type, that are attached to an entity together.
use crate::types::{
    lemma_sorted_no_duplicates, lemma_zip_map_at, lemma_zip_map_tail, strictly_sorted, zip_map,
    TypeInfo,
};
use vstd::prelude::*;

verus! {

/// Components for one entity, by their type.
pub struct Bundle<C> {
    types: Vec<u64>,
    values: Vec<C>,
}

impl<C> View for Bundle<C> {
    type V = Map<u64, C>;

    closed spec fn view(&self) -> Map<u64, C> {
        zip_map(self.types@, self.values@)
    }
}

impl<C> Bundle<C> {
    /// The types, in ascending order.
    pub closed spec fn ids(&self) -> Seq<u64> {
        self.types@
    }

    /// The components, in the order of `ids`.
    pub closed spec fn cells(&self) -> Seq<C> {
        self.values@
    }

    pub open spec fn wf(&self) -> bool {
        &&& strictly_sorted(self.ids())
        &&& self.ids().len() == self.cells().len()
        &&& self@ == zip_map(self.ids(), self.cells())
    }

    /// A bundle without components
    pub fn new() -> (r: Self)
        ensures
            r.wf(),
            r@ == Map::<u64, C>::empty(),
    {
        let r = Bundle { types: Vec::new(), values: Vec::new() };
        assert(r@ =~= Map::<u64, C>::empty());
        r
    }

    /// The bundle with the given types and components
    pub(crate) fn from_parts(types: Vec<u64>, values: Vec<C>) -> (r: Self)
        requires
            strictly_sorted(types@),
            types@.len() == values@.len(),
        ensures
            r.wf(),
            r.ids() == types@,
            r.cells() == values@,
            r@ == zip_map(types@, values@),
    {
        Bundle { types, values }
    }

    /// The types and the components
    pub(crate) fn into_parts(self) -> (r: (Vec<u64>, Vec<C>))
        ensures
            r.0@ == self.ids(),
            r.1@ == self.cells(),
    {
        (self.types, self.values)
    }

    /// The numbers of the types, in ascending order
    pub(crate) fn type_ids(&self) -> (r: &Vec<u64>)
        ensures
            r@ == self.ids(),
    {
        &self.types
    }

    /// The position of the first type that is not below `id`
    fn position(&self, id: u64) -> (r: usize)
        requires
            self.wf(),
        ensures
            r <= self.types@.len(),
            forall|k: int| 0 <= k < r ==> self.types@[k] < id,
            forall|k: int| r <= k < self.types@.len() ==> self.types@[k] >= id,
    {
        let mut i: usize = 0;
        while i < self.types.len() && self.types[i] < id
            invariant
                self.wf(),
                i <= self.types@.len(),
                forall|k: int| 0 <= k < i ==> self.types@[k] < id,
            decreases self.types@.len() - i,
        {
            i = i + 1;
        }
        assert forall|k: int| i <= k < self.types@.len() implies self.types@[k] >= id by {
            if k > i {
                assert(self.ids()[i as int] < self.ids()[k]);
            }
        }
        i
    }

    /// Adds a component
    ///
    /// If the bundle already has a component of this type, it is dropped and replaced.
    pub fn add(&mut self, ty: TypeInfo, value: C)
        requires
            old(self).wf(),
        ensures
            final(self).wf(),
            final(self)@ == old(self)@.insert(ty.id, value),
    {
        self.put(ty.id, value);
    }

    /// Adds or replaces the component of type `id`
    pub(crate) fn put(&mut self, id: u64, value: C)
        requires
            old(self).wf(),
        ensures
            final(self).wf(),
            final(self)@ == old(self)@.insert(id, value),
    {
        let ghost types = self.types@;
        let ghost values = self.values@;
        let i = self.position(id);
        proof {
            lemma_sorted_no_duplicates(types);
        }
        if i < self.types.len() && self.types[i] == id {
            self.values[i] = value;
            proof {
                lemma_zip_map_at(types, values, i as int);
                assert(zip_map(types, self.values@) =~= zip_map(types, values).insert(id, value));
            }
        } else {
            self.types.insert(i, id);
            self.values.insert(i, value);
            proof {
                let after = self.types@;
                assert(strictly_sorted(after)) by {
                    assert forall|a: int, b: int| 0 <= a < b < after.len() implies after[a]
                        < after[b] by {
                        let a0 = if a < i { a } else { a - 1 };
                        let b0 = if b < i { b } else { b - 1 };
                        if a != i && b != i {
                            assert(types[a0] < types[b0]);
                        }
                    }
                }
                lemma_sorted_no_duplicates(after);
                let want = zip_map(types, values).insert(id, value);
                assert forall|t: u64| after.contains(t) == (types.contains(t) || t == id) by {
                    if after.contains(t) {
                        let k = after.index_of(t);
                        assert(after[k] == t);
                        if k < i {
                            assert(types[k] == t);
                        } else if k > i {
                            assert(types[k - 1] == t);
                        }
                    }
                    if types.contains(t) {
                        let k = types.index_of(t);
                        assert(types[k] == t);
                        if k < i {
                            assert(after[k] == t);
                        } else {
                            assert(after[k + 1] == t);
                        }
                    }
                    assert(after[i as int] == id);
                }
                assert forall|t: u64| #[trigger] after.contains(t) implies zip_map(
                    after,
                    self.values@,
                )[t] == want[t] by {
                    let k = after.index_of(t);
                    assert(after[k] == t);
                    if k < i {
                        lemma_zip_map_at(types, values, k);
                        assert(types[k] == t);
                    } else if k > i {
                        lemma_zip_map_at(types, values, k - 1);
                        assert(types[k - 1] == t);
                    }
                }
                assert(zip_map(after, self.values@) =~= want);
            }
        }
    }

    /// Takes out the component of type `id`
    pub(crate) fn take(&mut self, id: u64) -> (r: C)
        requires
            old(self).wf(),
            old(self)@.contains_key(id),
        ensures
            final(self).wf(),
            r == old(self)@[id],
            final(self)@ == old(self)@.remove(id),
    {
        let ghost types = self.types@;
        let ghost values = self.values@;
        let i = self.position(id);
        proof {
            lemma_sorted_no_duplicates(types);
            assert(types.contains(id));
            let k = types.index_of(id);
            assert(types[k] == id);
            lemma_zip_map_at(types, values, i as int);
        }
        self.types.remove(i);
        let r = self.values.remove(i);
        proof {
            let after = self.types@;
            assert(strictly_sorted(after)) by {
                assert forall|a: int, b: int| 0 <= a < b < after.len() implies after[a]
                    < after[b] by {
                    let a0 = if a < i { a } else { a + 1 };
                    let b0 = if b < i { b } else { b + 1 };
                    assert(types[a0] < types[b0]);
                }
            }
            lemma_sorted_no_duplicates(after);
            let want = zip_map(types, values).remove(id);
            assert forall|t: u64| after.contains(t) == (types.contains(t) && t != id) by {
                if after.contains(t) {
                    let k = after.index_of(t);
                    assert(after[k] == t);
                    if k < i {
                        assert(types[k] == t);
                    } else {
                        assert(types[k + 1] == t);
                    }
                }
                if types.contains(t) && t != id {
                    let k = types.index_of(t);
                    assert(types[k] == t);
                    if k < i {
                        assert(after[k] == t);
                    } else {
                        assert(after[k - 1] == t);
                    }
                }
            }
            assert forall|t: u64| #[trigger] after.contains(t) implies zip_map(
                after,
                self.values@,
            )[t] == want[t] by {
                let k = after.index_of(t);
                assert(after[k] == t);
                if k < i {
                    lemma_zip_map_at(types, values, k);
                    assert(types[k] == t);
                } else {
                    lemma_zip_map_at(types, values, k + 1);
                    assert(types[k + 1] == t);
                }
            }
            assert(zip_map(after, self.values@) =~= want);
        }
        r
    }

    /// Adds or replaces all components of `other`
    pub(crate) fn extend(&mut self, other: Bundle<C>)
        requires
            old(self).wf(),
            other.wf(),
        ensures
            final(self).wf(),
            final(self)@ == old(self)@.union_prefer_right(other@),
    {
        let ghost types = other.ids();
        let ghost cells = other.cells();
        let ghost before = self@;
        proof {
            lemma_sorted_no_duplicates(types);
        }
        let (mut ids, mut values) = other.into_parts();
        assert(ids@ =~= types.take(types.len() as int));
        assert(values@ =~= cells.take(types.len() as int));
        assert(before =~= before.union_prefer_right(
            zip_map(types.skip(types.len() as int), cells.skip(types.len() as int)),
        ));
        loop
            invariant
                self.wf(),
                types.no_duplicates(),
                types.len() == cells.len(),
                ids@.len() == values@.len(),
                ids@.len() <= types.len(),
                ids@ == types.take(ids@.len() as int),
                values@ == cells.take(ids@.len() as int),
                self@ == before.union_prefer_right(
                    zip_map(types.skip(ids@.len() as int), cells.skip(ids@.len() as int)),
                ),
            ensures
                ids@.len() == 0,
            decreases ids@.len(),
        {
            let ghost n = ids@.len() as int;
            match ids.pop() {
                Some(id) => {
                    match values.pop() {
                        Some(value) => {
                            self.put(id, value);
                            proof {
                                assert(ids@ =~= types.take(n - 1));
                                assert(values@ =~= cells.take(n - 1));
                                lemma_zip_map_tail(types, cells, n - 1);
                                assert(self@ =~= before.union_prefer_right(
                                    zip_map(types.skip(n - 1), cells.skip(n - 1)),
                                ));
                            }
                        },
                        None => {},
                    }
                },
                None => {
                    break;
                },
            }
        }
        assert(types.skip(0) =~= types);
        assert(cells.skip(0) =~= cells);
    }
}

} // verus!
