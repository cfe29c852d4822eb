//! Tables of entities that have the same component types.
use crate::bundle::Bundle;
use crate::column_batch::{batch_row, complete};
use crate::types::{
    lemma_sorted_no_duplicates, lemma_zip_map_at, lemma_zip_map_dom, lemma_zip_map_tail,
    strictly_sorted, zip_map, TypeInfo,
};
use vstd::prelude::*;

verus! {

/// An archetype as a value: its component types in ascending order and, row by row, an entity's
/// id and its components.
pub struct Table<C> {
    pub types: Seq<u64>,
    pub ids: Seq<u32>,
    pub rows: Seq<Map<u64, C>>,
}

impl<C> Table<C> {
    pub open spec fn wf(self) -> bool {
        &&& strictly_sorted(self.types)
        &&& self.ids.len() == self.rows.len()
        &&& self.ids.len() <= u32::MAX
        &&& forall|r: int|
            0 <= r < self.rows.len() ==> (#[trigger] self.rows[r]).dom() == self.types.to_set()
    }

    /// Without rows.
    pub open spec fn empty(types: Seq<u64>) -> Table<C> {
        Table { types, ids: Seq::empty(), rows: Seq::empty() }
    }

    /// With one more row.
    pub open spec fn push(self, id: u32, row: Map<u64, C>) -> Table<C> {
        Table { types: self.types, ids: self.ids.push(id), rows: self.rows.push(row) }
    }

    /// With the rows of `other` after its own.
    pub open spec fn append(self, other: Table<C>) -> Table<C> {
        Table { types: self.types, ids: self.ids + other.ids, rows: self.rows + other.rows }
    }

    /// Without row `index`, whose place the last row takes.
    pub open spec fn swap_remove(self, index: int) -> Table<C> {
        Table {
            types: self.types,
            ids: self.ids.update(index, self.ids.last()).drop_last(),
            rows: self.rows.update(index, self.rows.last()).drop_last(),
        }
    }

    /// With other components in row `index`.
    pub open spec fn write(self, index: int, row: Map<u64, C>) -> Table<C> {
        Table { types: self.types, ids: self.ids, rows: self.rows.update(index, row) }
    }

    /// With a component of row `index` replaced.
    pub open spec fn put(self, index: int, ty: u64, value: C) -> Table<C> {
        self.write(index, self.rows[index].insert(ty, value))
    }
}

/// The cells of row `r`, column by column.
pub open spec fn row_cells<C>(columns: Seq<Vec<C>>, r: int) -> Seq<C> {
    Seq::new(columns.len(), |c: int| columns[c]@[r])
}

/// A collection of entities having the same component types
///
/// Accessible through `World::archetypes`.
pub struct Archetype<C> {
    types: Vec<u64>,
    entities: Vec<u32>,
    columns: Vec<Vec<C>>,
}

impl<C> View for Archetype<C> {
    type V = Table<C>;

    closed spec fn view(&self) -> Table<C> {
        Table {
            types: self.types@,
            ids: self.entities@,
            rows: Seq::new(
                self.entities@.len(),
                |r: int| zip_map(self.types@, row_cells(self.columns@, r)),
            ),
        }
    }
}

impl<C> Archetype<C> {
    pub closed spec fn wf(&self) -> bool {
        &&& strictly_sorted(self.types@)
        &&& self.entities@.len() <= u32::MAX
        &&& self.columns@.len() == self.types@.len()
        &&& forall|c: int|
            0 <= c < self.columns@.len() ==> (#[trigger] self.columns@[c])@.len()
                == self.entities@.len()
    }

    /// A well-formed archetype is a well-formed table.
    pub(crate) proof fn lemma_table(&self)
        requires
            self.wf(),
        ensures
            self@.wf(),
    {
        assert forall|r: int| 0 <= r < self@.rows.len() implies (#[trigger] self@.rows[r]).dom()
            == self@.types.to_set() by {
            lemma_zip_map_dom(self.types@, row_cells(self.columns@, r));
        }
    }

    /// An archetype without rows
    pub(crate) fn new(types: Vec<u64>) -> (r: Self)
        requires
            strictly_sorted(types@),
        ensures
            r.wf(),
            r@ == Table::<C>::empty(types@),
    {
        let mut columns: Vec<Vec<C>> = Vec::new();
        for i in 0..types.len()
            invariant
                columns@.len() == i,
                forall|c: int| 0 <= c < columns@.len() ==> (#[trigger] columns@[c])@.len() == 0,
        {
            columns.push(Vec::new());
        }
        let r = Archetype { types, entities: Vec::new(), columns };
        assert(r@.rows =~= Seq::empty());
        assert(r@.ids =~= Seq::empty());
        r
    }

    /// The archetype with these columns, if each has `size` components
    ///
    /// The ids of its entities should be written immediately.
    pub(crate) fn from_columns(size: u32, columns: Bundle<Vec<C>>) -> (r: Option<Self>)
        requires
            columns.wf(),
        ensures
            r is Some <==> complete(columns@, size as int),
            r matches Some(archetype) ==> {
                &&& archetype.wf()
                &&& archetype@.types.to_set() == columns@.dom()
                &&& archetype@.rows == Seq::new(size as nat, |i: int| batch_row(columns@, i))
            },
    {
        let ghost map = columns@;
        let ghost ids = columns.ids();
        let ghost cells = columns.cells();
        proof {
            lemma_sorted_no_duplicates(ids);
            lemma_zip_map_dom(ids, cells);
        }
        let (types, values) = columns.into_parts();
        for i in 0..values.len()
            invariant
                values@ == cells,
                columns@ == map,
                map == zip_map(ids, cells),
                ids.no_duplicates(),
                ids.len() == cells.len(),
                forall|k: int| 0 <= k < i ==> (#[trigger] cells[k])@.len() == size,
        {
            let column = &values[i];
            if column.len() != size as usize {
                proof {
                    lemma_zip_map_at(ids, cells, i as int);
                }
                return None;
            }
        }
        let mut entities: Vec<u32> = Vec::new();
        for i in 0..size
            invariant
                entities@.len() == i,
        {
            entities.push(0);
        }
        let r = Archetype { types, entities, columns: values };
        proof {
            assert forall|t: u64| #[trigger] map.contains_key(t) implies map[t]@.len() == size by {
                let k = ids.index_of(t);
                assert(ids[k] == t);
                assert(cells[k]@.len() == size);
            }
            assert forall|i: int| 0 <= i < size implies #[trigger] r@.rows[i] == batch_row(
                map,
                i,
            ) by {
                assert(r@.rows[i] =~= batch_row(map, i));
            }
            assert(r@.rows =~= Seq::new(size as nat, |i: int| batch_row(map, i)));
        }
        Some(r)
    }

    /// Number of entities in this archetype
    pub fn len(&self) -> (r: u32)
        requires
            self.wf(),
        ensures
            r == self@.ids.len(),
    {
        self.entities.len() as u32
    }

    /// The numbers of the component types, in ascending order
    pub fn types(&self) -> (r: &[u64])
        ensures
            r@ == self@.types,
    {
        self.types.as_slice()
    }

    /// Whether this archetype contains components of this type
    pub fn has(&self, ty: TypeInfo) -> (r: bool)
        requires
            self.wf(),
        ensures
            r == self@.types.contains(ty.id),
    {
        self.has_id(ty.id)
    }

    /// Whether this archetype contains components of the type `id`
    pub(crate) fn has_id(&self, id: u64) -> (r: bool)
        requires
            self.wf(),
        ensures
            r == self@.types.contains(id),
    {
        self.column(id).is_some()
    }

    /// The id of the entity in row `index`
    pub(crate) fn entity_id(&self, index: u32) -> (r: u32)
        requires
            index < self@.ids.len(),
        ensures
            r == self@.ids[index as int],
    {
        self.entities[index as usize]
    }

    /// The column of the type `id`
    fn column(&self, id: u64) -> (r: Option<usize>)
        requires
            self.wf(),
        ensures
            match r {
                Some(c) => c < self.types@.len() && self.types@[c as int] == id
                    && self.types@.contains(id) && self.types@.index_of(id) == c,
                None => !self.types@.contains(id),
            },
    {
        let mut c: usize = 0;
        while c < self.types.len()
            invariant
                self.wf(),
                c <= self.types@.len(),
                forall|k: int| 0 <= k < c ==> self.types@[k] != id,
            decreases self.types@.len() - c,
        {
            if self.types[c] == id {
                proof {
                    lemma_sorted_no_duplicates(self.types@);
                    lemma_zip_map_at(self.types@, self.types@, c as int);
                }
                return Some(c);
            }
            c = c + 1;
        }
        None
    }

    /// The component of type `id` in row `index`
    pub(crate) fn get(&self, id: u64, index: u32) -> (r: Option<&C>)
        requires
            self.wf(),
            index < self@.ids.len(),
        ensures
            match r {
                Some(x) => self@.rows[index as int].contains_key(id) && *x
                    == self@.rows[index as int][id],
                None => !self@.rows[index as int].contains_key(id),
            },
    {
        match self.column(id) {
            Some(c) => {
                let column = &self.columns[c];
                Some(&column[index as usize])
            },
            None => None,
        }
    }

    /// The component of type `id` in row `index`, for writing
    pub(crate) fn get_mut(&mut self, id: u64, index: u32) -> (r: Option<&mut C>)
        requires
            old(self).wf(),
            index < old(self)@.ids.len(),
        ensures
            final(self).wf(),
            match r {
                Some(x) => old(self)@.rows[index as int].contains_key(id) && *x
                    == old(self)@.rows[index as int][id] && final(self)@ == old(self)@.put(
                    index as int,
                    id,
                    *final(x),
                ),
                None => !old(self)@.rows[index as int].contains_key(id) && *final(self) == *old(
                    self,
                ),
            },
    {
        match self.column(id) {
            Some(c) => {
                let ghost before = *self;
                let column: &mut Vec<C> = &mut self.columns[c];
                let cell: &mut C = &mut column[index as usize];
                proof {
                    let after = after_borrow(*self);
                    assert(after.columns@[c as int]@ == before.columns@[c as int]@.update(
                        index as int,
                        *final(cell),
                    ));
                    lemma_cell_update(before, after, c as int, index as int, *final(cell));
                }
                Some(cell)
            },
            None => None,
        }
    }

    /// The components of the listed types in row `index`, for writing
    pub(crate) fn row_mut(&mut self, wanted: &[u64], index: u32) -> (r: Vec<&mut C>)
        requires
            old(self).wf(),
            index < old(self)@.ids.len(),
            strictly_sorted(wanted@),
            wanted@.to_set().subset_of(old(self)@.types.to_set()),
        ensures
            final(self).wf(),
            final(self)@ == old(self)@.write(index as int, final(self)@.rows[index as int]),
            final(self)@.rows[index as int].dom() == old(self)@.rows[index as int].dom(),
            r@.len() == wanted@.len(),
            forall|k: int|
                #![trigger r@[k]]
                #![trigger wanted@[k]]
                0 <= k < wanted@.len() ==> *r@[k] == old(self)@.rows[index as int][wanted@[k]]
                    && *final(r@[k]) == final(self)@.rows[index as int][wanted@[k]],
            forall|t: u64|
                old(self)@.types.contains(t) && !wanted@.contains(t)
                    ==> #[trigger] final(self)@.rows[index as int][t] == old(
                    self,
                )@.rows[index as int][t],
    {
        let ghost before = *self;
        proof {
            self.lemma_table();
            assert(among(self.types@, wanted@, self.types@.len() as int, wanted@.len() as int)) by {
                let n = self.types@.len() as int;
                assert(self.types@.take(n) =~= self.types@);
                assert forall|k: int| 0 <= k < wanted@.len() implies self.types@.take(n).contains(
                    #[trigger] wanted@[k],
                ) by {
                    assert(wanted@.to_set().contains(wanted@[k]));
                    assert(self.types@.to_set().contains(wanted@[k]));
                }
            }
            assert(wanted@.take(wanted@.len() as int) =~= wanted@);
        }
        let types = &self.types;
        let columns: &mut [Vec<C>] = self.columns.as_mut_slice();
        let r = cells_mut(columns, types.as_slice(), wanted, wanted.len(), index as usize);
        proof {
            let after = after_borrow(*self);
            assert forall|c: int|
                #![trigger after.columns@[c]]
                0 <= c < before.columns@.len() implies after.columns@[c]@.len()
                == before.columns@[c]@.len() && forall|r: int|
                0 <= r < before.columns@[c]@.len() && r != index
                    ==> #[trigger] after.columns@[c]@[r] == before.columns@[c]@[r] by {
                if wanted@.contains(before.types@[c]) {
                    let k = wanted@.index_of(before.types@[c]);
                    assert(wanted@[k] == before.types@[c]);
                }
            }
            lemma_cells_written(before, after, wanted@, index as int);
            assert forall|k: int| 0 <= k < wanted@.len() implies *r@[k]
                == before@.rows[index as int][#[trigger] wanted@[k]] && *final(r@[k])
                == after@.rows[index as int][wanted@[k]] by {
                assert(before.types@.contains(wanted@[k])) by {
                    assert(wanted@.to_set().contains(wanted@[k]));
                    assert(before.types@.to_set().contains(wanted@[k]));
                }
                let c = before.types@.index_of(wanted@[k]);
                assert(before.types@[c] == wanted@[k]);
                lemma_sorted_no_duplicates(before.types@);
                lemma_zip_map_at(before.types@, row_cells(before.columns@, index as int), c);
                assert(before.columns@[c]@.len() == before.entities@.len());
                assert(after.columns@[c]@ == before.columns@[c]@.update(
                    index as int,
                    *final(r@[k]),
                ));
            }
        }
        r
    }

    /// Replaces the component of type `id` in row `index`
    pub(crate) fn put(&mut self, id: u64, value: C, index: u32)
        requires
            old(self).wf(),
            index < old(self)@.ids.len(),
            old(self)@.types.contains(id),
        ensures
            final(self).wf(),
            final(self)@ == old(self)@.put(index as int, id, value),
    {
        proof {
            self.lemma_table();
        }
        match self.get_mut(id, index) {
            Some(cell) => {
                *cell = value;
            },
            None => {},
        }
    }

    /// Replaces the components of row `index` that have a type of `components`
    pub(crate) fn put_row(&mut self, components: Bundle<C>, index: u32)
        requires
            old(self).wf(),
            index < old(self)@.ids.len(),
            components.wf(),
            components@.dom().subset_of(old(self)@.types.to_set()),
        ensures
            final(self).wf(),
            final(self)@ == old(self)@.write(
                index as int,
                old(self)@.rows[index as int].union_prefer_right(components@),
            ),
    {
        let ghost before = self@;
        let ghost row = before.rows[index as int];
        let ghost types = components.ids();
        let ghost cells = components.cells();
        proof {
            self.lemma_table();
            lemma_sorted_no_duplicates(types);
            lemma_zip_map_dom(types, cells);
            assert(types.take(types.len() as int) =~= types);
            assert(cells.take(types.len() as int) =~= cells);
            assert(zip_map(types.skip(types.len() as int), cells.skip(types.len() as int))
                =~= Map::empty());
            assert(row.union_prefer_right(Map::empty()) =~= row);
            assert(before.rows.update(index as int, row) =~= before.rows);
        }
        let (mut ids, mut values) = components.into_parts();
        loop
            invariant
                self.wf(),
                types.no_duplicates(),
                types.len() == cells.len(),
                ids@.len() == values@.len(),
                ids@.len() <= types.len(),
                ids@ == types.take(ids@.len() as int),
                values@ == cells.take(ids@.len() as int),
                types.to_set().subset_of(before.types.to_set()),
                index < before.ids.len(),
                before.rows.len() == before.ids.len(),
                row == before.rows[index as int],
                self@ == before.write(
                    index as int,
                    row.union_prefer_right(
                        zip_map(types.skip(ids@.len() as int), cells.skip(ids@.len() as int)),
                    ),
                ),
            ensures
                ids@.len() == 0,
            decreases ids@.len(),
        {
            let ghost n = ids@.len() as int;
            match ids.pop() {
                Some(id) => {
                    match values.pop() {
                        Some(value) => {
                            let ghost tail = zip_map(types.skip(n), cells.skip(n));
                            proof {
                                assert(types[n - 1] == id);
                                assert(types.to_set().contains(id));
                                assert(before.types.to_set().contains(id));
                            }
                            self.put(id, value, index);
                            proof {
                                assert(ids@ =~= types.take(n - 1));
                                assert(values@ =~= cells.take(n - 1));
                                lemma_zip_map_tail(types, cells, n - 1);
                                assert(row.union_prefer_right(tail).insert(id, value)
                                    =~= row.union_prefer_right(tail.insert(id, value)));
                                assert(self@.rows =~= before.rows.update(
                                    index as int,
                                    row.union_prefer_right(tail.insert(id, value)),
                                ));
                            }
                        },
                        None => {},
                    }
                },
                None => {
                    break;
                },
            }
        }
        assert(types.skip(0) =~= types);
        assert(cells.skip(0) =~= cells);
    }

    /// Adds a row
    ///
    /// Returns its index.
    pub(crate) fn allocate(&mut self, id: u32, row: Bundle<C>) -> (r: u32)
        requires
            old(self).wf(),
            old(self)@.ids.len() < u32::MAX,
            row.wf(),
            row.ids() == old(self)@.types,
        ensures
            final(self).wf(),
            final(self)@ == old(self)@.push(id, row@),
            r == old(self)@.ids.len(),
    {
        let ghost before = *self;
        let ghost cells = row.cells();
        let (_, mut values) = row.into_parts();
        let index = self.entities.len() as u32;
        self.entities.push(id);
        let mut c: usize = self.columns.len();
        assert(values@ =~= cells.take(c as int));
        while c > 0
            invariant
                c <= self.columns@.len(),
                self.columns@.len() == before.columns@.len(),
                cells.len() == before.columns@.len(),
                values@ == cells.take(c as int),
                before.wf(),
                self.types == before.types,
                self.entities@ == before.entities@.push(id),
                forall|k: int|
                    0 <= k < c ==> #[trigger] self.columns@[k] == before.columns@[k],
                forall|k: int|
                    c <= k < self.columns@.len() ==> (#[trigger] self.columns@[k])@
                        == before.columns@[k]@.push(cells[k]),
            decreases c,
        {
            match values.pop() {
                Some(value) => {
                    c = c - 1;
                    assert(value == cells[c as int]);
                    assert(values@ =~= cells.take(c as int));
                    let column: &mut Vec<C> = &mut self.columns[c];
                    column.push(value);
                },
                None => {
                    assert(false);
                },
            }
        }
        proof {
            assert forall|k: int| 0 <= k < self.columns@.len() implies (
            #[trigger] self.columns@[k])@.len() == self.entities@.len() by {
                assert(before.columns@[k]@.len() == before.entities@.len());
            }
            let want = before@.push(id, row@);
            assert forall|r: int| 0 <= r < self.entities@.len() implies #[trigger] self@.rows[r]
                == want.rows[r] by {
                if r < before.entities@.len() {
                    assert(row_cells(self.columns@, r) =~= row_cells(before.columns@, r)) by {
                        assert forall|k: int| 0 <= k < self.columns@.len() implies #[trigger] row_cells(
                        self.columns@, r)[k] == row_cells(before.columns@, r)[k] by {
                            assert(before.columns@[k]@.len() == before.entities@.len());
                            assert(self.columns@[k]@ == before.columns@[k]@.push(cells[k]));
                        }
                    }
                } else {
                    assert(row_cells(self.columns@, r) =~= cells) by {
                        assert forall|k: int| 0 <= k < self.columns@.len() implies #[trigger] row_cells(
                        self.columns@, r)[k] == cells[k] by {
                            assert(before.columns@[k]@.len() == before.entities@.len());
                            assert(self.columns@[k]@ == before.columns@[k]@.push(cells[k]));
                        }
                    }
                }
            }
            assert(self@.rows =~= want.rows);
        }
        index
    }

    /// Takes row `index` out; the last row takes its place
    ///
    /// Returns the components, and the id of the entity moved into `index`, if any.
    pub(crate) fn move_to(&mut self, index: u32) -> (r: (Bundle<C>, Option<u32>))
        requires
            old(self).wf(),
            index < old(self)@.ids.len(),
        ensures
            final(self).wf(),
            final(self)@ == old(self)@.swap_remove(index as int),
            r.0.wf(),
            r.0@ == old(self)@.rows[index as int],
            r.0.ids() == old(self)@.types,
            r.1 == (if index == old(self)@.ids.len() - 1 {
                None
            } else {
                Some(old(self)@.ids.last())
            }),
    {
        let ghost before = *self;
        let last: usize = self.entities.len() - 1;
        let mut values: Vec<C> = Vec::new();
        let mut c: usize = 0;
        while c < self.columns.len()
            invariant
                c <= self.columns@.len(),
                self.columns@.len() == before.columns@.len(),
                before.wf(),
                index < before.entities@.len(),
                self.types == before.types,
                self.entities == before.entities,
                values@ == row_cells(before.columns@, index as int).take(c as int),
                forall|k: int|
                    c <= k < self.columns@.len() ==> #[trigger] self.columns@[k]
                        == before.columns@[k],
                forall|k: int|
                    0 <= k < c ==> (#[trigger] self.columns@[k])@ == before.columns@[k]@.update(
                        index as int,
                        before.columns@[k]@.last(),
                    ).drop_last(),
            decreases self.columns@.len() - c,
        {
            assert(self.columns@[c as int] == before.columns@[c as int]);
            assert(before.columns@[c as int]@.len() == before.entities@.len());
            let column: &mut Vec<C> = &mut self.columns[c];
            let value = column.swap_remove(index as usize);
            values.push(value);
            c = c + 1;
            assert(values@ =~= row_cells(before.columns@, index as int).take(c as int));
        }
        assert(values@ =~= row_cells(before.columns@, index as int));
        let moved: Option<u32> = if index as usize == last {
            None
        } else {
            Some(self.entities[last])
        };
        self.entities.swap_remove(index as usize);
        let types = self.types.clone();
        assert(types@ =~= self.types@);
        proof {
            assert forall|k: int| 0 <= k < self.columns@.len() implies (
            #[trigger] self.columns@[k])@.len() == self.entities@.len() by {
                assert(before.columns@[k]@.len() == before.entities@.len());
            }
            let want = before@.swap_remove(index as int);
            assert forall|r: int| 0 <= r < self.entities@.len() implies #[trigger] self@.rows[r]
                == want.rows[r] by {
                let from = if r == index { last as int } else { r };
                assert(row_cells(self.columns@, r) =~= row_cells(before.columns@, from)) by {
                    assert forall|k: int| 0 <= k < self.columns@.len() implies #[trigger] row_cells(
                    self.columns@, r)[k] == row_cells(before.columns@, from)[k] by {
                        assert(before.columns@[k]@.len() == before.entities@.len());
                        assert(self.columns@[k]@ == before.columns@[k]@.update(
                            index as int,
                            before.columns@[k]@.last(),
                        ).drop_last());
                    }
                }
            }
            assert(self@.rows =~= want.rows);
        }
        (Bundle::from_parts(types, values), moved)
    }

    /// Writes the id of the entity in row `index`
    pub(crate) fn set_entity_id(&mut self, index: usize, id: u32)
        requires
            old(self).wf(),
            index < old(self)@.ids.len(),
        ensures
            final(self).wf(),
            final(self)@.types == old(self)@.types,
            final(self)@.ids == old(self)@.ids.update(index as int, id),
            final(self)@.rows == old(self)@.rows,
    {
        let ghost before = *self;
        self.entities[index] = id;
        assert(self@.rows =~= before@.rows);
    }

    /// Appends the rows of another archetype that has the same types
    pub(crate) fn merge(&mut self, other: Archetype<C>)
        requires
            old(self).wf(),
            other.wf(),
            other@.types == old(self)@.types,
            old(self)@.ids.len() + other@.ids.len() <= u32::MAX,
        ensures
            final(self).wf(),
            final(self)@ == old(self)@.append(other@),
    {
        let ghost before = *self;
        let mut rest = other;
        self.entities.append(&mut rest.entities);
        let mut c: usize = self.columns.len();
        while c > 0
            invariant
                c <= self.columns@.len(),
                self.columns@.len() == before.columns@.len(),
                rest.columns@ == other.columns@.take(c as int),
                other.columns@.len() == before.columns@.len(),
                self.types == before.types,
                self.entities@ == before.entities@ + other.entities@,
                forall|k: int|
                    0 <= k < c ==> #[trigger] self.columns@[k] == before.columns@[k],
                forall|k: int|
                    c <= k < self.columns@.len() ==> (#[trigger] self.columns@[k])@
                        == before.columns@[k]@ + other.columns@[k]@,
            decreases c,
        {
            match rest.columns.pop() {
                Some(from) => {
                    let mut from = from;
                    c = c - 1;
                    assert(rest.columns@ =~= other.columns@.take(c as int));
                    let column: &mut Vec<C> = &mut self.columns[c];
                    column.append(&mut from);
                },
                None => {
                    assert(false);
                },
            }
        }
        proof {
            assert forall|k: int| 0 <= k < self.columns@.len() implies (
            #[trigger] self.columns@[k])@.len() == self.entities@.len() by {
                assert(before.columns@[k]@.len() == before.entities@.len());
                assert(other.columns@[k]@.len() == other.entities@.len());
            }
            let want = before@.append(other@);
            assert forall|r: int| 0 <= r < self.entities@.len() implies #[trigger] self@.rows[r]
                == want.rows[r] by {
                let cells = if r < before.entities@.len() {
                    row_cells(before.columns@, r)
                } else {
                    row_cells(other.columns@, r - before.entities@.len())
                };
                assert(row_cells(self.columns@, r) =~= cells) by {
                    assert forall|k: int| 0 <= k < self.columns@.len() implies #[trigger] row_cells(
                    self.columns@, r)[k] == cells[k] by {
                        assert(before.columns@[k]@.len() == before.entities@.len());
                        assert(other.columns@[k]@.len() == other.entities@.len());
                        assert(self.columns@[k]@ == before.columns@[k]@ + other.columns@[k]@);
                    }
                }
            }
            assert(self@.rows =~= want.rows);
        }
    }

    /// Drops all rows
    pub(crate) fn clear(&mut self)
        requires
            old(self).wf(),
        ensures
            final(self).wf(),
            final(self)@ == Table::<C>::empty(old(self)@.types),
    {
        let ghost before = *self;
        self.entities.clear();
        let mut c: usize = 0;
        while c < self.columns.len()
            invariant
                c <= self.columns@.len(),
                self.columns@.len() == before.columns@.len(),
                self.types == before.types,
                self.entities@.len() == 0,
                forall|k: int| 0 <= k < c ==> (#[trigger] self.columns@[k])@.len() == 0,
            decreases self.columns@.len() - c,
        {
            let column: &mut Vec<C> = &mut self.columns[c];
            column.clear();
            c = c + 1;
        }
        assert(self@.rows =~= Seq::empty());
        assert(self@.ids =~= Seq::empty());
    }

    /// Makes room for `additional` more rows
    ///
    /// What the archetype holds does not change. The storage that the columns set aside is up to
    /// the allocator, and the contract leaves it open.
    pub(crate) fn reserve(&mut self, additional: u32)
        requires
            old(self).wf(),
        ensures
            final(self).wf(),
            final(self)@ == old(self)@,
    {
        let ghost before = *self;
        self.entities.reserve(additional as usize);
        let mut c: usize = 0;
        while c < self.columns.len()
            invariant
                c <= self.columns@.len(),
                self.columns@.len() == before.columns@.len(),
                self.types == before.types,
                self.entities@ == before.entities@,
                forall|k: int|
                    0 <= k < self.columns@.len() ==> (#[trigger] self.columns@[k])@
                        == before.columns@[k]@,
            decreases self.columns@.len() - c,
        {
            let column: &mut Vec<C> = &mut self.columns[c];
            column.reserve(additional as usize);
            c = c + 1;
        }
        proof {
            assert forall|k: int| 0 <= k < self.columns@.len() implies (
            #[trigger] self.columns@[k])@.len() == self.entities@.len() by {
                assert(before.columns@[k]@.len() == before.entities@.len());
            }
            assert forall|r: int| 0 <= r < self.entities@.len() implies #[trigger] self@.rows[r]
                == before@.rows[r] by {
                assert(row_cells(self.columns@, r) =~= row_cells(before.columns@, r));
            }
            assert(self@.rows =~= before@.rows);
        }
    }
}

/// The first `m` wanted types are among those of the first `n` columns.
spec fn among(types: Seq<u64>, wanted: Seq<u64>, n: int, m: int) -> bool {
    &&& strictly_sorted(types)
    &&& strictly_sorted(wanted)
    &&& 0 <= n <= types.len()
    &&& 0 <= m <= wanted.len()
    &&& forall|k: int| 0 <= k < m ==> types.take(n).contains(#[trigger] wanted[k])
}

/// Leaving out the last column.
proof fn lemma_among(types: Seq<u64>, wanted: Seq<u64>, n: int, m: int)
    requires
        among(types, wanted, n, m),
    ensures
        n == 0 ==> m == 0,
        n > 0 && m > 0 && wanted[m - 1] == types[n - 1] ==> among(types, wanted, n - 1, m - 1),
        n > 0 && !(m > 0 && wanted[m - 1] == types[n - 1]) ==> among(types, wanted, n - 1, m) && (
        forall|k: int| 0 <= k < m ==> #[trigger] wanted[k] != types[n - 1]),
{
    if m > 0 {
        assert(types.take(n).contains(wanted[m - 1]));
    }
    if n > 0 {
        let d = types.take(n).index_of(wanted[m - 1]);
        let rest = if m > 0 && wanted[m - 1] == types[n - 1] {
            m - 1
        } else {
            m
        };
        assert forall|k: int| 0 <= k < rest implies types.take(n - 1).contains(
            #[trigger] wanted[k],
        ) && wanted[k] != types[n - 1] by {
            assert(types.take(n).contains(wanted[k]));
            let c = types.take(n).index_of(wanted[k]);
            assert(types[c] == wanted[k]);
            assert(types[d] == wanted[m - 1]);
            if c == n - 1 {
                assert(k < m - 1);
                assert(wanted[k] < wanted[m - 1]);
                if d < n - 1 {
                    assert(types[d] < types[n - 1]);
                }
            }
            assert(types.take(n - 1)[c] == wanted[k]);
        }
    }
}

/// One cell of each column whose type is wanted
fn cells_mut<'a, C>(
    columns: &'a mut [Vec<C>],
    types: &[u64],
    wanted: &[u64],
    m: usize,
    row: usize,
) -> (r: Vec<&'a mut C>)
    requires
        among(types@, wanted@, old(columns)@.len() as int, m as int),
        forall|c: int| 0 <= c < old(columns)@.len() ==> row < (#[trigger] old(columns)@[c])@.len(),
    ensures
        r@.len() == m,
        final(columns)@.len() == old(columns)@.len(),
        forall|k: int, c: int|
            #![trigger wanted@[k], old(columns)@[c]]
            0 <= k < m && 0 <= c < old(columns)@.len() && types@[c] == wanted@[k] ==> *r@[k]
                == old(columns)@[c]@[row as int],
        forall|k: int, c: int|
            #![trigger wanted@[k], final(columns)@[c]]
            0 <= k < m && 0 <= c < old(columns)@.len() && types@[c] == wanted@[k]
                ==> final(columns)@[c]@ == old(columns)@[c]@.update(row as int, *final(r@[k])),
        forall|c: int|
            0 <= c < old(columns)@.len() && !wanted@.take(m as int).contains(types@[c])
                ==> #[trigger] final(columns)@[c] == old(columns)@[c],
    decreases old(columns)@.len(),
{
    let n: usize = columns.len();
    proof {
        lemma_among(types@, wanted@, n as int, m as int);
    }
    if n == 0 {
        return Vec::new();
    }
    let ghost before = columns@;
    let (head, tail) = columns.split_at_mut(n - 1);
    proof {
        assert forall|c: int| 0 <= c < head@.len() implies row < (#[trigger] head@[c])@.len() by {
            assert(head@[c] == before[c]);
        }
        assert(tail@[0] == before[n - 1]);
    }
    if m > 0 && wanted[m - 1] == types[n - 1] {
        let ghost h = head@;
        let mut r = cells_mut(head, types, wanted, m - 1, row);
        let ghost part = r@;
        let last: &mut Vec<C> = &mut tail[0];
        let x: &mut C = &mut last[row];
        r.push(x);
        proof {
            assert forall|k: int, c: int|
                #![trigger wanted@[k], before[c]]
                0 <= k < m && 0 <= c < n && types@[c] == wanted@[k] implies *r@[k]
                == before[c]@[row as int] by {
                if c < n - 1 {
                    assert(types@[c] < types@[n - 1]);
                    assert(k < m - 1);
                    assert(h[c] == before[c]);
                    assert(r@[k] == part[k]);
                } else if k < m - 1 {
                    assert(wanted@[k] < wanted@[m - 1]);
                }
            }
            assert forall|c: int|
                0 <= c < n - 1 && !wanted@.take(m as int).contains(types@[c]) implies !wanted@.take(
                m - 1,
            ).contains(#[trigger] types@[c]) by {
                if wanted@.take(m - 1).contains(types@[c]) {
                    let k = wanted@.take(m - 1).index_of(types@[c]);
                    assert(wanted@.take(m as int)[k] == types@[c]);
                }
            }
            assert(wanted@.take(m as int)[m - 1] == types@[n - 1]);
        }
        r
    } else {
        let ghost h = head@;
        let r = cells_mut(head, types, wanted, m, row);
        proof {
            assert forall|k: int, c: int|
                #![trigger wanted@[k], before[c]]
                0 <= k < m && 0 <= c < n && types@[c] == wanted@[k] implies *r@[k]
                == before[c]@[row as int] by {
                assert(c < n - 1);
                assert(h[c] == before[c]);
            }
        }
        r
    }
}

/// Writing some cells of one row leaves the other ones alone.
proof fn lemma_cells_written<C>(
    before: Archetype<C>,
    after: Archetype<C>,
    wanted: Seq<u64>,
    index: int,
)
    requires
        before.wf(),
        after.types == before.types,
        after.entities == before.entities,
        after.columns@.len() == before.columns@.len(),
        0 <= index < before.entities@.len(),
        forall|c: int|
            #![trigger after.columns@[c]]
            0 <= c < before.columns@.len() ==> after.columns@[c]@.len()
                == before.columns@[c]@.len() && forall|r: int|
                0 <= r < before.columns@[c]@.len() && r != index
                    ==> #[trigger] after.columns@[c]@[r] == before.columns@[c]@[r],
        forall|c: int|
            0 <= c < before.columns@.len() && !wanted.contains(before.types@[c])
                ==> #[trigger] after.columns@[c] == before.columns@[c],
    ensures
        after.wf(),
        after@ == before@.write(index, after@.rows[index]),
        after@.rows[index].dom() == before@.rows[index].dom(),
        forall|c: int|
            #![trigger before.types@[c]]
            0 <= c < before.types@.len() ==> after@.rows[index][before.types@[c]]
                == after.columns@[c]@[index],
        forall|t: u64|
            before.types@.contains(t) && !wanted.contains(t)
                ==> #[trigger] after@.rows[index][t] == before@.rows[index][t],
{
    let types = before.types@;
    lemma_sorted_no_duplicates(types);
    assert forall|k: int| 0 <= k < after.columns@.len() implies (#[trigger] after.columns@[k])@.len()
        == after.entities@.len() by {
        assert(before.columns@[k]@.len() == before.entities@.len());
    }
    assert forall|r: int| 0 <= r < before.entities@.len() && r != index implies
        #[trigger] after@.rows[r] == before@.rows[r] by {
        assert(row_cells(after.columns@, r) =~= row_cells(before.columns@, r)) by {
            assert forall|c: int| 0 <= c < after.columns@.len() implies #[trigger] row_cells(
                after.columns@,
                r,
            )[c] == row_cells(before.columns@, r)[c] by {
                assert(before.columns@[c]@.len() == before.entities@.len());
                assert(after.columns@[c]@[r] == before.columns@[c]@[r]);
            }
        }
    }
    assert(after@.rows =~= before@.rows.update(index, after@.rows[index]));
    lemma_zip_map_dom(types, row_cells(after.columns@, index));
    lemma_zip_map_dom(types, row_cells(before.columns@, index));
    assert forall|c: int|
        #![trigger before.types@[c]]
        0 <= c < types.len() implies after@.rows[index][types[c]] == after.columns@[c]@[index] by {
        lemma_zip_map_at(types, row_cells(after.columns@, index), c);
    }
    assert forall|t: u64| types.contains(t) && !wanted.contains(t) implies
        #[trigger] after@.rows[index][t] == before@.rows[index][t] by {
        let c = types.index_of(t);
        assert(types[c] == t);
        lemma_zip_map_at(types, row_cells(after.columns@, index), c);
        lemma_zip_map_at(types, row_cells(before.columns@, index), c);
        assert(after.columns@[c] == before.columns@[c]);
    }
}

/// Writing one cell replaces one component of one row.
proof fn lemma_cell_update<C>(
    before: Archetype<C>,
    after: Archetype<C>,
    c: int,
    index: int,
    value: C,
)
    requires
        before.wf(),
        after.types == before.types,
        after.entities == before.entities,
        after.columns@.len() == before.columns@.len(),
        0 <= c < before.columns@.len(),
        0 <= index < before.entities@.len(),
        forall|k: int|
            0 <= k < before.columns@.len() && k != c ==> after.columns@[k] == before.columns@[k],
        after.columns@[c]@ == before.columns@[c]@.update(index, value),
    ensures
        after.wf(),
        after@ == before@.put(index, before.types@[c], value),
{
    let types = before.types@;
    lemma_sorted_no_duplicates(types);
    assert forall|k: int| 0 <= k < after.columns@.len() implies (#[trigger] after.columns@[k])@.len()
        == after.entities@.len() by {
        assert(before.columns@[k]@.len() == before.entities@.len());
    }
    assert forall|r: int| 0 <= r < before.entities@.len() implies #[trigger] after@.rows[r]
        == before@.put(index, types[c], value).rows[r] by {
        let a = row_cells(after.columns@, r);
        let b = row_cells(before.columns@, r);
        if r == index {
            assert(a =~= b.update(c, value));
            assert forall|t: u64| types.contains(t) implies #[trigger] zip_map(types, a)[t]
                == zip_map(types, b).insert(types[c], value)[t] by {
                let k = types.index_of(t);
                assert(types[k] == t);
            }
            lemma_zip_map_at(types, a, c);
            assert(zip_map(types, a) =~= zip_map(types, b).insert(types[c], value));
        } else {
            assert(a =~= b);
        }
    }
    assert(after@.rows =~= before@.put(index, types[c], value).rows);
}

} // verus!
