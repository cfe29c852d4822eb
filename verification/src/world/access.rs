//! Reading entities and their components, and writing components in place.
use crate::archetype::Archetype;
use crate::entities::{Entity, NoSuchEntity};
use crate::entity_ref::EntityRef;
use crate::error::{ComponentError, MissingComponent};
use crate::types::{Component, TypeInfo};
use crate::world::{lemma_rewritten, World};
use vstd::prelude::*;

verus! {

impl<C: Component> World<C> {
    /// Whether `entity` still exists
    pub fn contains(&self, entity: Entity) -> (r: bool)
        requires
            self.wf(),
        ensures
            r == self@.contains_key(entity),
    {
        proof {
            self.lemma_located();
        }
        self.entities.contains(entity)
    }

    /// Access an entity regardless of its component types
    pub fn entity(&self, entity: Entity) -> (r: Result<EntityRef<'_, C>, NoSuchEntity>)
        requires
            self.wf(),
        ensures
            r is Ok <==> self@.contains_key(entity),
            r matches Ok(x) ==> x.wf() && x@ == self@[entity],
    {
        proof {
            self.lemma_located();
        }
        let loc = match self.entities.get(entity) {
            Err(e) => {
                return Err(e);
            },
            Ok(loc) => loc,
        };
        if loc.archetype == 0 {
            proof {
                self.lemma_no_components(entity);
            }
            return Ok(EntityRef::empty());
        }
        proof {
            self.lemma_row_of(entity);
            assert(self.tables()[loc.archetype as int] == self.archetypes@[loc.archetype as int]@);
        }
        Ok(EntityRef::new(&self.archetypes[loc.archetype as usize], loc.index))
    }

    /// Borrow the component of type `ty` of `entity`
    pub fn get(&self, entity: Entity, ty: TypeInfo) -> (r: Result<&C, ComponentError>)
        requires
            self.wf(),
        ensures
            match r {
                Ok(x) => self@.contains_key(entity) && self@[entity].contains_key(ty.id) && *x
                    == self@[entity][ty.id],
                Err(ComponentError::NoSuchEntity) => !self@.contains_key(entity),
                Err(ComponentError::MissingComponent(missing)) => self@.contains_key(entity)
                    && !self@[entity].contains_key(ty.id) && missing == MissingComponent(ty.name),
            },
    {
        proof {
            self.lemma_located();
        }
        let loc = match self.entities.get(entity) {
            Err(e) => {
                return Err(ComponentError::from(e));
            },
            Ok(loc) => loc,
        };
        if loc.archetype == 0 {
            proof {
                self.lemma_no_components(entity);
            }
            return Err(ComponentError::from(MissingComponent::new(ty)));
        }
        proof {
            self.lemma_row_of(entity);
            assert(self.tables()[loc.archetype as int] == self.archetypes@[loc.archetype as int]@);
        }
        match self.archetypes[loc.archetype as usize].get(ty.id, loc.index) {
            Some(x) => Ok(x),
            None => Err(ComponentError::from(MissingComponent::new(ty))),
        }
    }

    /// Uniquely borrow the component of type `ty` of `entity`
    pub fn get_mut(&mut self, entity: Entity, ty: TypeInfo) -> (r: Result<&mut C, ComponentError>)
        requires
            old(self).wf(),
        ensures
            final(self).wf(),
            final(self).ids() == old(self).ids(),
            final(self).layout() == old(self).layout(),
            match r {
                Ok(x) => {
                    &&& old(self)@.contains_key(entity)
                    &&& old(self)@[entity].contains_key(ty.id)
                    &&& *x == old(self)@[entity][ty.id]
                    &&& final(self)@ == old(self)@.insert(
                        entity,
                        old(self)@[entity].insert(ty.id, *final(x)),
                    )
                },
                Err(ComponentError::NoSuchEntity) => {
                    &&& !old(self)@.contains_key(entity)
                    &&& final(self)@ == old(self)@
                },
                Err(ComponentError::MissingComponent(missing)) => {
                    &&& old(self)@.contains_key(entity)
                    &&& !old(self)@[entity].contains_key(ty.id)
                    &&& missing == MissingComponent(ty.name)
                    &&& final(self)@ == old(self)@
                },
            },
            r is Ok ==> final(self).model() == old(self).model().write(
                entity,
                final(self)@[entity],
            ),
            r is Err ==> final(self).model() == old(self).model(),
    {
        proof {
            self.lemma_located();
        }
        let loc = match self.entities.get(entity) {
            Err(e) => {
                return Err(ComponentError::from(e));
            },
            Ok(loc) => loc,
        };
        if loc.archetype == 0 {
            proof {
                self.lemma_no_components(entity);
            }
            return Err(ComponentError::from(MissingComponent::new(ty)));
        }
        let ghost before = *self;
        proof {
            self.lemma_row_of(entity);
            assert(self.tables()[loc.archetype as int] == self.archetypes@[loc.archetype as int]@);
        }
        if !self.archetypes[loc.archetype as usize].has(ty) {
            return Err(ComponentError::from(MissingComponent::new(ty)));
        }
        let archetype: &mut Archetype<C> = &mut self.archetypes[loc.archetype as usize];
        match archetype.get_mut(ty.id, loc.index) {
            Some(x) => {
                proof {
                    let after = after_borrow(*self);
                    let row = before@[entity].insert(ty.id, *final(x));
                    assert(row.dom() =~= before@[entity].dom());
                    lemma_rewritten(before, after, entity, loc, row);
                }
                Ok(x)
            },
            None => {
                assert(false);
                Err(ComponentError::NoSuchEntity)
            },
        }
    }

    /// Borrow the component of type `ty` of `entity`
    ///
    /// Does what `get` does.
    pub fn get_unchecked(&self, entity: Entity, ty: TypeInfo) -> (r: Result<&C, ComponentError>)
        requires
            self.wf(),
        ensures
            match r {
                Ok(x) => self@.contains_key(entity) && self@[entity].contains_key(ty.id) && *x
                    == self@[entity][ty.id],
                Err(ComponentError::NoSuchEntity) => !self@.contains_key(entity),
                Err(ComponentError::MissingComponent(missing)) => self@.contains_key(entity)
                    && !self@[entity].contains_key(ty.id) && missing == MissingComponent(ty.name),
            },
    {
        self.get(entity, ty)
    }

    /// Uniquely borrow the component of type `ty` of `entity`
    ///
    /// Does what `get_mut` does.
    pub fn get_unchecked_mut(&mut self, entity: Entity, ty: TypeInfo) -> (r: Result<
        &mut C,
        ComponentError,
    >)
        requires
            old(self).wf(),
        ensures
            final(self).wf(),
            final(self).ids() == old(self).ids(),
            final(self).layout() == old(self).layout(),
            match r {
                Ok(x) => {
                    &&& old(self)@.contains_key(entity)
                    &&& old(self)@[entity].contains_key(ty.id)
                    &&& *x == old(self)@[entity][ty.id]
                    &&& final(self)@ == old(self)@.insert(
                        entity,
                        old(self)@[entity].insert(ty.id, *final(x)),
                    )
                },
                Err(ComponentError::NoSuchEntity) => {
                    &&& !old(self)@.contains_key(entity)
                    &&& final(self)@ == old(self)@
                },
                Err(ComponentError::MissingComponent(missing)) => {
                    &&& old(self)@.contains_key(entity)
                    &&& !old(self)@[entity].contains_key(ty.id)
                    &&& missing == MissingComponent(ty.name)
                    &&& final(self)@ == old(self)@
                },
            },
            r is Ok ==> final(self).model() == old(self).model().write(
                entity,
                final(self)@[entity],
            ),
            r is Err ==> final(self).model() == old(self).model(),
    {
        self.get_mut(entity, ty)
    }

    /// Given an id obtained from `Entity::id`, reconstruct the still-live `Entity`.
    pub fn find_entity_from_id(&self, id: u32) -> (r: Entity)
        requires
            self.wf(),
            exists|e: Entity| #[trigger] self@.contains_key(e) && e.id == id,
        ensures
            self@.contains_key(r),
            r.id == id,
    {
        let ghost e = choose|e: Entity| #[trigger] self@.contains_key(e) && e.id == id;
        assert(self.entities.ids().contains(e));
        assert(self.entities.ids().entity_at(id) == e);
        self.entities.resolve_unknown_gen(id)
    }
}

} // verus!
