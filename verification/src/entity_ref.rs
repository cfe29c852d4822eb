//! Handles to entities with any component types.
use crate::archetype::Archetype;
use crate::query::{answer, lemma_fetched, satisfied, Query, QueryItem};
use crate::types::TypeInfo;
use vstd::prelude::*;

verus! {

/// Handle to an entity with any component types
pub struct EntityRef<'a, C> {
    archetype: Option<&'a Archetype<C>>,
    index: u32,
}

impl<'a, C> View for EntityRef<'a, C> {
    type V = Map<u64, C>;

    /// The components of the entity.
    closed spec fn view(&self) -> Map<u64, C> {
        match self.archetype {
            Some(archetype) => archetype@.rows[self.index as int],
            None => Map::empty(),
        }
    }
}

impl<'a, C> EntityRef<'a, C> {
    pub closed spec fn wf(&self) -> bool {
        self.archetype matches Some(archetype) ==> archetype.wf() && self.index
            < archetype@.ids.len()
    }

    /// An entity with no components
    pub(crate) fn empty() -> (r: Self)
        ensures
            r.wf(),
            r@ == Map::<u64, C>::empty(),
    {
        EntityRef { archetype: None, index: 0 }
    }

    /// The entity in row `index` of an archetype
    pub(crate) fn new(archetype: &'a Archetype<C>, index: u32) -> (r: Self)
        requires
            archetype.wf(),
            index < archetype@.ids.len(),
        ensures
            r.wf(),
            r@ == archetype@.rows[index as int],
    {
        EntityRef { archetype: Some(archetype), index }
    }

    /// The numbers of the entity's component types, in ascending order
    pub(crate) fn types(&self) -> (r: &'a [u64])
        requires
            self.wf(),
        ensures
            r@.to_set() == self@.dom(),
    {
        match self.archetype {
            Some(archetype) => {
                proof {
                    archetype.lemma_table();
                    assert(archetype@.rows[self.index as int].dom() == archetype@.types.to_set());
                }
                archetype.types()
            },
            None => {
                let none: &'a [u64] = &[];
                assert(none@.to_set() =~= Set::<u64>::empty());
                none
            },
        }
    }

    /// The components that a query fetches, if the entity satisfies it
    pub(crate) fn fetch(&self, query: &Query) -> (r: Option<QueryItem<'a, C>>)
        requires
            self.wf(),
        ensures
            r is Some <==> satisfied(*query, self@.dom()),
            r matches Some(item) ==> item.wf() && item@ == answer(*query, self@),
    {
        let own = self.types();
        if !query.satisfied(own) {
            return None;
        }
        let types = query.fetched(own);
        let mut values: Vec<&'a C> = Vec::new();
        proof {
            lemma_fetched(*query, self@.dom());
        }
        for i in 0..types.len()
            invariant
                self.wf(),
                values@.len() == i,
                types@.to_set().subset_of(self@.dom()),
                forall|k: int| 0 <= k < i ==> *(#[trigger] values@[k]) == self@[types@[k]],
        {
            let id = types[i];
            assert(types@.to_set().contains(id));
            match self.get_id(id) {
                Some(x) => {
                    values.push(x);
                },
                None => {
                    assert(false);
                },
            }
        }
        Some(QueryItem::new(types, values, Ghost(self@)))
    }

    /// Borrow the component of type `ty`, if it exists
    pub fn get(&self, ty: TypeInfo) -> (r: Option<&'a C>)
        requires
            self.wf(),
        ensures
            match r {
                Some(x) => self@.contains_key(ty.id) && *x == self@[ty.id],
                None => !self@.contains_key(ty.id),
            },
    {
        self.get_id(ty.id)
    }

    /// Borrow the component of type `id`, if it exists
    fn get_id(&self, id: u64) -> (r: Option<&'a C>)
        requires
            self.wf(),
        ensures
            match r {
                Some(x) => self@.contains_key(id) && *x == self@[id],
                None => !self@.contains_key(id),
            },
    {
        match self.archetype {
            Some(archetype) => archetype.get(id, self.index),
            None => None,
        }
    }

    /// Determine whether this entity would have a component of type `ty`
    pub fn has(&self, ty: TypeInfo) -> (r: bool)
        requires
            self.wf(),
        ensures
            r == self@.contains_key(ty.id),
    {
        self.get(ty).is_some()
    }
}

} // verus!
