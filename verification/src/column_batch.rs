//! Component data for many entities, column by column.
use crate::archetype::Archetype;
use crate::bundle::Bundle;
use vstd::prelude::*;

verus! {

/// A collection of component types with one component of each for every entity
///
/// See `World::spawn_column_batch`.
pub struct ColumnBatch<C>(Archetype<C>);

/// Error indicating that a column does not have one component for each entity
#[derive(Copy, Clone, Debug, PartialEq, Eq, Structural)]
pub struct BatchIncomplete;

/// Every column has `size` components.
pub open spec fn complete<C>(columns: Map<u64, Vec<C>>, size: int) -> bool {
    forall|t: u64| #[trigger] columns.contains_key(t) ==> columns[t]@.len() == size
}

/// Row `r` of the columns.
pub open spec fn batch_row<C>(columns: Map<u64, Vec<C>>, r: int) -> Map<u64, C> {
    columns.map_values(|column: Vec<C>| column@[r])
}

impl<C> View for ColumnBatch<C> {
    type V = Seq<Map<u64, C>>;

    /// The components of each entity.
    closed spec fn view(&self) -> Seq<Map<u64, C>> {
        self.0@.rows
    }
}

impl<C> ColumnBatch<C> {
    /// The component types that each entity has.
    pub closed spec fn types(&self) -> Set<u64> {
        self.0@.types.to_set()
    }

    pub closed spec fn wf(&self) -> bool {
        self.0.wf()
    }

    /// The batch of `size` entities whose components are given by type
    pub fn new(size: u32, columns: Bundle<Vec<C>>) -> (r: Result<Self, BatchIncomplete>)
        requires
            columns.wf(),
        ensures
            r is Ok <==> complete(columns@, size as int),
            r is Ok <==> forall|t: u64| #[trigger]
                columns@.contains_key(t) ==> columns@[t]@.len() == size,
            r matches Ok(batch) ==> {
                &&& batch@.len() == size
                &&& forall|i: int|
                    0 <= i < size ==> (#[trigger] batch@[i]).dom() == columns@.dom()
                &&& forall|i: int, t: u64|
                    0 <= i < size && columns@.contains_key(t) ==> #[trigger] batch@[i][t]
                        == columns@[t]@[i]
                &&& batch.wf()
                &&& batch.types() == columns@.dom()
                &&& batch@ == Seq::new(size as nat, |i: int| batch_row(columns@, i))
            },
    {
        match Archetype::from_columns(size, columns) {
            Some(archetype) => {
                let batch = ColumnBatch(archetype);
                proof {
                    assert forall|i: int| 0 <= i < size implies (#[trigger] batch@[i]).dom()
                        == columns@.dom() by {
                        assert(batch_row(columns@, i).dom() =~= columns@.dom());
                    }
                }
                Ok(batch)
            },
            None => Err(BatchIncomplete),
        }
    }

    /// Number of entities
    pub fn len(&self) -> (r: u32)
        requires
            self.wf(),
        ensures
            r == self@.len(),
    {
        proof {
            self.0.lemma_table();
        }
        self.0.len()
    }

    /// The rows as an archetype
    pub(crate) fn into_archetype(self) -> (r: Archetype<C>)
        requires
            self.wf(),
        ensures
            r.wf(),
            r@.rows == self@,
            r@.types.to_set() == self.types(),
    {
        self.0
    }
}

} // verus!
