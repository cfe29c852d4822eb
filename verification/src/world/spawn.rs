//! Creating and destroying entities.
use crate::bundle::Bundle;
use crate::entities::{Entity, NoSuchEntity};
use crate::links::{components_at, lemma_detach, vacant};
use crate::types::{lemma_zip_map_dom, Component};
use crate::world::{lemma_push_contains, with_types, without_id, World};
use vstd::prelude::*;

verus! {

impl<C: Component> World<C> {
    /// Puts the components of an entity that has no row where they belong
    fn spawn_inner(&mut self, entity: Entity, components: Bundle<C>, holes: Ghost<Set<u32>>)
        requires
            old(self).inv(holes@, None),
            holes@.contains(entity.id),
            (entity.id as int) < old(self).ids().generations.len(),
            !old(self).ids().pending.contains(entity.id),
            entity == old(self).ids().entity_at(entity.id),
            old(self).accepts(components@.dom()),
            components.wf(),
        ensures
            final(self).inv(holes@.remove(entity.id), None),
            final(self).ids() == old(self).ids(),
            final(self)@ == old(self)@.insert(entity, components@),
            final(self).layout() == with_types(old(self).layout(), components@.dom()),
    {
        let types = components.type_ids().clone();
        proof {
            assert(types@ =~= components.ids());
            lemma_zip_map_dom(components.ids(), components.cells());
        }
        let archetype_id = self.archetype_with(types, holes);
        self.add_row(archetype_id, entity.id, components, holes);
    }

    /// Create an entity with certain components
    ///
    /// Returns the ID of the newly created entity.
    pub fn spawn(&mut self, components: Bundle<C>) -> (r: Entity)
        requires
            old(self).wf(),
            old(self).has_room(1),
            old(self).accepts(components@.dom()),
            components.wf(),
        ensures
            final(self).wf(),
            r == old(self).ids().flushed().next(),
            !old(self)@.contains_key(r),
            final(self).ids() == old(self).ids().flushed().alloc_one(),
            final(self)@ == old(self)@.insert(r, components@),
            final(self).layout() == with_types(old(self).layout(), components@.dom()),
            final(self).model() == old(self).model().spawn(components@),
    {
        // Ensure all entity allocations are accounted for so `self.entities` can realloc if
        // necessary
        self.flush();
        proof {
            old(self).ids().lemma_flushed();
            old(self).ids().flushed().lemma_alloc_one();
        }
        let entity = self.open_one();
        let ghost holes = set![entity.id];
        self.spawn_inner(entity, components, Ghost(holes));
        proof {
            assert(holes.remove(entity.id) =~= Set::empty());
            assert(self@ =~= old(self)@.insert(entity, components@));
        }
        entity
    }

    /// Create an entity with certain components and a specific `Entity` handle.
    ///
    /// See `spawn`.
    ///
    /// Despawns any existing entity with the same `Entity::id`.
    ///
    /// Useful for easy handle-preserving deserialization. Be cautious resurrecting old `Entity`
    /// handles in already-populated worlds as it vastly increases the likelihood of collisions.
    pub fn spawn_at(&mut self, handle: Entity, components: Bundle<C>)
        requires
            old(self).wf(),
            old(self).ids().flushed().alloc_at(handle).population() <= u32::MAX,
            old(self).accepts(components@.dom()),
            components.wf(),
        ensures
            final(self).wf(),
            final(self).ids() == old(self).ids().flushed().alloc_at(handle),
            final(self)@ == without_id(old(self)@, handle.id).insert(handle, components@),
            final(self).layout() == with_types(old(self).layout(), components@.dom()),
            final(self).model() == old(self).model().spawn_at(handle, components@),
    {
        // Ensure all entity allocations are accounted for so `self.entities` can realloc if
        // necessary
        self.flush();
        proof {
            old(self).ids().lemma_flushed();
        }
        self.open_at(handle, Ghost(Set::empty()));
        let ghost holes = Set::<u32>::empty().insert(handle.id);
        self.spawn_inner(handle, components, Ghost(holes));
        proof {
            assert(holes.remove(handle.id) =~= Set::empty());
            assert(self@ =~= without_id(old(self)@, handle.id).insert(handle, components@));
        }
    }

    /// Destroy an entity and all its components
    pub fn despawn(&mut self, entity: Entity) -> (r: Result<(), NoSuchEntity>)
        requires
            old(self).wf(),
        ensures
            final(self).wf(),
            r == (if old(self)@.contains_key(entity) {
                Ok(())
            } else {
                Err(NoSuchEntity)
            }),
            final(self)@ == old(self)@.remove(entity),
            final(self).ids() == (if r is Ok {
                old(self).ids().flushed().release(entity.id)
            } else {
                old(self).ids().flushed()
            }),
            final(self).layout() == old(self).layout(),
            final(self).model() == old(self).model().despawn(entity),
    {
        self.flush();
        let ghost before = *self;
        let ghost ids = self.entities.ids();
        let ghost locations = self.entities.locations();
        let ghost tables = self.tables();
        proof {
            old(self).ids().lemma_flushed();
            self.lemma_located();
        }
        match self.entities.free(entity) {
            Err(e) => {
                assert(self@ =~= old(self)@.remove(entity));
                Err(e)
            },
            Ok(loc) => {
                proof {
                    ids.lemma_release(entity);
                    let after = ids.release(entity.id);
                    assert forall|i: int| 0 <= i < locations.len() implies #[trigger] vacant(
                        after.pending,
                        Set::empty(),
                        i,
                    ) == (vacant(ids.pending, Set::empty(), i) || i == entity.id) by {
                        lemma_push_contains(ids.pending, entity.id, i as u32);
                    }
                    lemma_detach(
                        ids.pending,
                        locations,
                        tables,
                        Set::empty(),
                        entity.id,
                        after.pending,
                        Set::empty(),
                    );
                    assert(self.tables() == tables);
                    assert forall|e: Entity| before@.remove(entity).contains_key(e) implies
                        #[trigger] self@[e] == before@.remove(entity)[e] by {
                        if e.id == entity.id {
                            ids.lemma_ids_unique(e, entity);
                        }
                        assert(components_at(locations, tables, e.id as int) == components_at(
                            self.entities.locations(),
                            tables,
                            e.id as int,
                        ));
                    }
                    assert(self@ =~= before@.remove(entity));
                }
                let _ = self.take_row(loc, Ghost(Set::empty()));
                Ok(())
            },
        }
    }
}

} // verus!
