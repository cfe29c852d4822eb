//! Adding components to entities and removing them.
use crate::archetype::Archetype;
use crate::bundle::Bundle;
use crate::entities::{Entity, Location, NoSuchEntity};
use crate::error::{ComponentError, MissingComponent};
use crate::type_index::{id_set, id_set_contains, id_set_from, IdSet};
use crate::types::{
    distinct_types, first_missing, has_all, lemma_sorted_no_duplicates, lemma_sorted_unique,
    lemma_take_set, lemma_zip_map_dom, sort_distinct, strictly_sorted, type_id_list, type_ids,
    Component, TypeInfo,
};
use crate::world::{
    index2, lemma_lifted, lemma_moved, lemma_rewritten, lifted_locations, with_types, World,
};
use vstd::prelude::*;
use vstd::slice::slice_to_vec;

verus! {

/// The types of an archetype together with those of a bundle, in ascending order
fn merged_types<C>(archetype: &Archetype<C>, components: &Bundle<C>) -> (r: Vec<u64>)
    requires
        archetype.wf(),
        components.wf(),
    ensures
        strictly_sorted(r@),
        r@.to_set() == archetype@.types.to_set().union(components.ids().to_set()),
{
    let ghost own = archetype@.types;
    let ghost more = components.ids();
    let mut info: Vec<u64> = slice_to_vec(archetype.types());
    assert(info@ =~= own);
    proof {
        archetype.lemma_table();
        lemma_sorted_no_duplicates(own);
        lemma_sorted_no_duplicates(more);
        assert(info@.to_set() =~= own.to_set().union(more.take(0).to_set()));
    }
    let types = components.type_ids();
    for i in 0..types.len()
        invariant
            archetype.wf(),
            types@ == more,
            more.no_duplicates(),
            archetype@.types == own,
            info@.no_duplicates(),
            info@.to_set() == own.to_set().union(more.take(i as int).to_set()),
    {
        let ty = types[i];
        let ghost so_far = info@;
        proof {
            lemma_take_set(more, i as int);
            assert(so_far.contains(ty) == own.contains(ty)) by {
                assert(so_far.to_set().contains(ty) == so_far.contains(ty));
                assert(own.to_set().contains(ty) == own.contains(ty));
            }
        }
        if !archetype.has_id(ty) {
            info.push(ty);
            proof {
                assert(info@.to_set() =~= so_far.to_set().insert(ty)) by {
                    assert forall|t: u64| info@.contains(t) == (so_far.contains(t) || t == ty) by {
                        if so_far.contains(t) {
                            assert(info@[so_far.index_of(t)] == t);
                        }
                        assert(info@[so_far.len() as int] == ty);
                        if info@.contains(t) {
                            let k = info@.index_of(t);
                            if k < so_far.len() {
                                assert(so_far[k] == t);
                            }
                        }
                    }
                }
            }
        } else {
            assert(own.to_set().contains(ty));
        }
        assert(info@.to_set() =~= own.to_set().union(more.take(i + 1).to_set()));
    }
    assert(more.take(more.len() as int) =~= more);
    sort_distinct(&mut info);
    info
}

/// The types of an archetype that are not in a set, in ascending order
fn kept_types<C>(archetype: &Archetype<C>, removed: &IdSet) -> (r: Vec<u64>)
    requires
        archetype.wf(),
    ensures
        strictly_sorted(r@),
        r@.to_set() == archetype@.types.to_set().difference(id_set(*removed)),
{
    let ghost own = archetype@.types;
    let ghost gone = id_set(*removed);
    let types = archetype.types();
    let mut info: Vec<u64> = Vec::new();
    proof {
        archetype.lemma_table();
        lemma_sorted_no_duplicates(own);
        assert(info@.to_set() =~= own.take(0).to_set().difference(gone));
    }
    for i in 0..types.len()
        invariant
            types@ == own,
            strictly_sorted(own),
            own.no_duplicates(),
            gone == id_set(*removed),
            strictly_sorted(info@),
            info@.to_set() == own.take(i as int).to_set().difference(gone),
    {
        let ty = types[i];
        let ghost so_far = info@;
        proof {
            lemma_take_set(own, i as int);
        }
        if !id_set_contains(removed, ty) {
            info.push(ty);
            proof {
                assert forall|k: int| 0 <= k < so_far.len() implies so_far[k] < ty by {
                    assert(so_far.to_set().contains(so_far[k]));
                    let m = own.take(i as int).index_of(so_far[k]);
                    assert(own[m] == so_far[k]);
                }
                assert(info@.to_set() =~= so_far.to_set().insert(ty)) by {
                    broadcast use vstd::seq_lib::group_seq_properties;

                }
            }
        }
        assert(info@.to_set() =~= own.take(i + 1).to_set().difference(gone));
    }
    assert(own.take(own.len() as int) =~= own);
    info
}

/// The position of the first listed type that an archetype lacks
fn find_missing<C>(archetype: &Archetype<C>, types: &[TypeInfo]) -> (r: Option<usize>)
    requires
        archetype.wf(),
    ensures
        match r {
            Some(i) => first_missing(types@, archetype@.types.to_set(), i as int),
            None => has_all(types@, archetype@.types.to_set()),
        },
{
    for i in 0..types.len()
        invariant
            archetype.wf(),
            has_all(types@.take(i as int), archetype@.types.to_set()),
    {
        let found = archetype.has(types[i]);
        assert(found == archetype@.types.to_set().contains(types@[i as int].id));
        if !found {
            return Some(i);
        }
        assert(has_all(types@.take(i + 1), archetype@.types.to_set())) by {
            assert forall|k: int| 0 <= k < i + 1 implies archetype@.types.to_set().contains(
                (#[trigger] types@.take(i + 1)[k]).id,
            ) by {
                if k < i {
                    assert(types@.take(i as int)[k] == types@[k]);
                }
            }
        }
    }
    assert(types@.take(types@.len() as int) =~= types@);
    None
}

/// A type is in the set of the listed ones exactly when it is listed.
proof fn lemma_listed_types(types: Seq<TypeInfo>)
    ensures
        forall|t: u64| #[trigger]
            type_ids(types).to_set().contains(t) <==> !(forall|i: int|
                0 <= i < types.len() ==> (#[trigger] types[i]).id != t),
{
    assert forall|t: u64| #[trigger] type_ids(types).to_set().contains(t) <==> !(forall|i: int|
        0 <= i < types.len() ==> (#[trigger] types[i]).id != t) by {
        if type_ids(types).contains(t) {
            let i = type_ids(types).index_of(t);
            assert(types[i].id == t);
        }
        if !(forall|i: int| 0 <= i < types.len() ==> (#[trigger] types[i]).id != t) {
            let i = choose|i: int| 0 <= i < types.len() && (#[trigger] types[i]).id == t;
            assert(type_ids(types)[i] == t);
        }
    }
}

/// Takes the components of the listed types out of a bundle, in order
fn take_all<C>(row: &mut Bundle<C>, types: &[TypeInfo]) -> (r: Vec<C>)
    requires
        old(row).wf(),
        distinct_types(types@),
        has_all(types@, old(row)@.dom()),
    ensures
        final(row).wf(),
        final(row)@ == old(row)@.remove_keys(type_ids(types@).to_set()),
        r@ == type_ids(types@).map_values(|t: u64| old(row)@[t]),
{
    let ghost before = row@;
    let ghost ids = type_ids(types@);
    let mut values: Vec<C> = Vec::new();
    assert(before =~= before.remove_keys(ids.take(0).to_set()));
    for i in 0..types.len()
        invariant
            row.wf(),
            ids == type_ids(types@),
            ids.no_duplicates(),
            has_all(types@, before.dom()),
            row@ == before.remove_keys(ids.take(i as int).to_set()),
            values@ == ids.map_values(|t: u64| before[t]).take(i as int),
    {
        let ty = types[i].id;
        proof {
            lemma_take_set(ids, i as int);
            assert(before.dom().contains(types@[i as int].id));
        }
        let value = row.take(ty);
        values.push(value);
        proof {
            assert(row@ =~= before.remove_keys(ids.take(i + 1).to_set()));
            assert(values@ =~= ids.map_values(|t: u64| before[t]).take(i + 1));
        }
    }
    proof {
        assert(ids.take(ids.len() as int) =~= ids);
        assert(values@ =~= ids.map_values(|t: u64| before[t]));
    }
    values
}

impl<C: Component> World<C> {
    /// Add `components` to `entity`
    ///
    /// Computational cost is proportional to the number of components `entity` has. If an entity
    /// already has a component of a certain type, it is dropped and replaced.
    ///
    /// When inserting a single component, see `insert_one` for convenience.
    pub fn insert(&mut self, entity: Entity, components: Bundle<C>) -> (r: Result<
        (),
        NoSuchEntity,
    >)
        requires
            old(self).wf(),
            components.wf(),
            old(self)@.contains_key(entity) ==> old(self).accepts(
                old(self)@[entity].dom().union(components@.dom()),
            ),
        ensures
            final(self).wf(),
            r == (if old(self)@.contains_key(entity) {
                Ok(())
            } else {
                Err(NoSuchEntity)
            }),
            final(self).ids() == old(self).ids().flushed(),
            final(self)@ == (if r is Ok {
                old(self)@.insert(entity, old(self)@[entity].union_prefer_right(components@))
            } else {
                old(self)@
            }),
            final(self).layout() == (if r is Ok {
                with_types(
                    old(self).layout(),
                    old(self)@[entity].dom().union(components@.dom()),
                )
            } else {
                old(self).layout()
            }),
            final(self).model() == old(self).model().insert(entity, components@),
    {
        self.flush();
        let ghost before = *self;
        let ghost ids = self.entities.ids();
        let ghost tables = self.tables();
        proof {
            old(self).ids().lemma_flushed();
            self.lemma_located();
        }
        let loc = match self.entities.get(entity) {
            Err(e) => {
                return Err(e);
            },
            Ok(loc) => loc,
        };
        proof {
            self.lemma_row_of(entity);
            assert(self.tables()[loc.archetype as int] == self.archetypes@[loc.archetype as int]@);
            lemma_zip_map_dom(components.ids(), components.cells());
        }
        // Assemble the types of the final entity
        let info = merged_types(&self.archetypes[loc.archetype as usize], &components);
        let ghost goal = info@;
        assert(info@.to_set() =~= before@[entity].dom().union(components@.dom()));
        // Find the archetype it'll live in
        let target = self.archetype_entry(info, Ghost(Set::empty()));
        let ghost middle = *self;
        assert(middle.tables()[loc.archetype as int] == tables[loc.archetype as int]);
        if target == loc.archetype {
            // Update components in the current archetype
            let archetype: &mut Archetype<C> = &mut self.archetypes[loc.archetype as usize];
            archetype.put_row(components, loc.index);
            proof {
                let row = before@[entity].union_prefer_right(components@);
                assert(tables[loc.archetype as int].types == goal);
                assert(row.dom() =~= goal.to_set());
                lemma_rewritten(middle, *self, entity, loc, row);
            }
            return Ok(());
        }
        // Move into a new archetype
        proof {
            lemma_lifted(middle, entity, loc);
            assert(middle.tables()[target as int] == middle.archetypes@[target as int]@);
        }
        let (source_arch, target_arch) = index2(
            self.archetypes.as_mut_slice(),
            loc.archetype as usize,
            target as usize,
        );
        let (row, moved) = source_arch.move_to(loc.index);
        let mut row = row;
        row.extend(components);
        let ghost cells = row@;
        proof {
            lemma_zip_map_dom(row.ids(), row.cells());
            assert(row@.dom() =~= goal.to_set());
            lemma_sorted_unique(row.ids(), goal);
        }
        let target_index = target_arch.allocate(entity.id, row);
        if let Some(moved) = moved {
            self.entities.set_location(moved, loc);
        }
        let place = Location { archetype: target, index: target_index };
        self.entities.set_location(entity.id, place);
        proof {
            assert(self.entities.locations() =~= lifted_locations(middle, entity, loc).update(
                entity.id as int,
                place,
            ));
            lemma_moved(middle, *self, entity, loc, place, cells);
        }
        Ok(())
    }

    /// Add `component` to `entity`
    ///
    /// See `insert`.
    pub fn insert_one(&mut self, entity: Entity, ty: TypeInfo, component: C) -> (r: Result<
        (),
        NoSuchEntity,
    >)
        requires
            old(self).wf(),
            old(self)@.contains_key(entity) ==> old(self).accepts(
                old(self)@[entity].dom().insert(ty.id),
            ),
        ensures
            final(self).wf(),
            r == (if old(self)@.contains_key(entity) {
                Ok(())
            } else {
                Err(NoSuchEntity)
            }),
            final(self).ids() == old(self).ids().flushed(),
            final(self)@ == (if r is Ok {
                old(self)@.insert(entity, old(self)@[entity].insert(ty.id, component))
            } else {
                old(self)@
            }),
            final(self).layout() == (if r is Ok {
                with_types(old(self).layout(), old(self)@[entity].dom().insert(ty.id))
            } else {
                old(self).layout()
            }),
            final(self).model() == old(self).model().insert(entity, map![ty.id => component]),
    {
        let mut components: Bundle<C> = Bundle::new();
        components.add(ty, component);
        proof {
            let row = self@[entity];
            assert(row.dom().union(components@.dom()) =~= row.dom().insert(ty.id));
            assert(row.union_prefer_right(components@) =~= row.insert(ty.id, component));
        }
        self.insert(entity, components)
    }

    /// Remove components from `entity`
    ///
    /// Computational cost is proportional to the number of components `entity` has. The entity
    /// itself is not removed, even if no components remain; use `despawn` for that. If any of
    /// the listed components is not present in `entity`, no components are removed and an error
    /// is returned.
    ///
    /// When removing a single component, see `remove_one` for convenience.
    pub fn remove(&mut self, entity: Entity, types: &[TypeInfo]) -> (r: Result<
        Vec<C>,
        ComponentError,
    >)
        requires
            old(self).wf(),
            distinct_types(types@),
            old(self)@.contains_key(entity) ==> old(self).accepts(
                old(self)@[entity].dom().difference(type_ids(types@).to_set()),
            ),
        ensures
            final(self).wf(),
            match r {
                Ok(values) => {
                    &&& old(self)@.contains_key(entity)
                    &&& has_all(types@, old(self)@[entity].dom())
                    &&& values@ == type_ids(types@).map_values(|t: u64| old(self)@[entity][t])
                    &&& values@.len() == types@.len()
                    &&& forall|i: int|
                        #![trigger types@[i]]
                        0 <= i < types@.len() ==> old(self)@[entity].contains_key(types@[i].id)
                            && values@[i] == old(self)@[entity][types@[i].id]
                    &&& final(self)@.contains_key(entity)
                    &&& forall|t: u64| #[trigger]
                        final(self)@[entity].contains_key(t) <==> old(self)@[entity].contains_key(t)
                            && forall|i: int|
                            0 <= i < types@.len() ==> (#[trigger] types@[i]).id != t
                    &&& forall|t: u64|
                        final(self)@[entity].contains_key(t) ==> #[trigger] final(self)@[entity][t]
                            == old(self)@[entity][t]
                },
                Err(ComponentError::NoSuchEntity) => !old(self)@.contains_key(entity),
                Err(ComponentError::MissingComponent(missing)) => {
                    &&& old(self)@.contains_key(entity)
                    &&& exists|i: int| #[trigger]
                        first_missing(types@, old(self)@[entity].dom(), i) && missing
                            == MissingComponent(types@[i].name)
                    &&& exists|i: int|
                        0 <= i < types@.len() && missing.0 == (#[trigger] types@[i]).name
                            && !old(self)@[entity].contains_key(types@[i].id) && forall|k: int|
                            0 <= k < i ==> old(self)@[entity].contains_key(
                                (#[trigger] types@[k]).id,
                            )
                },
            },
            final(self).ids() == old(self).ids().flushed(),
            final(self)@ == (if r is Ok {
                old(self)@.insert(
                    entity,
                    old(self)@[entity].remove_keys(type_ids(types@).to_set()),
                )
            } else {
                old(self)@
            }),
            final(self).layout() == (if old(self)@.contains_key(entity) {
                with_types(
                    old(self).layout(),
                    old(self)@[entity].dom().difference(type_ids(types@).to_set()),
                )
            } else {
                old(self).layout()
            }),
            final(self).model() == old(self).model().remove(entity, types@),
    {
        self.flush();
        let ghost before = *self;
        let ghost ids = self.entities.ids();
        let ghost tables = self.tables();
        proof {
            old(self).ids().lemma_flushed();
            self.lemma_located();
        }
        let loc = match self.entities.get(entity) {
            Err(e) => {
                return Err(ComponentError::from(e));
            },
            Ok(loc) => loc,
        };
        let ghost own = tables[loc.archetype as int].types;
        proof {
            self.lemma_row_of(entity);
            assert(self.tables()[loc.archetype as int] == self.archetypes@[loc.archetype as int]@);
        }
        let removed = id_set_from(type_id_list(types));
        let info = kept_types(&self.archetypes[loc.archetype as usize], &removed);
        let ghost goal = info@;
        let target = self.archetype_entry(info, Ghost(Set::empty()));
        let ghost middle = *self;
        assert(middle.tables()[loc.archetype as int] == tables[loc.archetype as int]);
        assert(self.tables()[loc.archetype as int] == self.archetypes@[loc.archetype as int]@);
        match find_missing(&self.archetypes[loc.archetype as usize], types) {
            Some(i) => {
                proof {
                    assert forall|k: int| 0 <= k < i implies before@[entity].contains_key(
                        (#[trigger] types@[k]).id,
                    ) by {
                        assert(types@.take(i as int)[k] == types@[k]);
                    }
                }
                return Err(ComponentError::from(MissingComponent::new(types[i])));
            },
            None => {},
        }
        // If we actually removed any components, the entity needs to be moved into a new archetype
        if loc.archetype == target {
            proof {
                if types@.len() > 0 {
                    assert(own.to_set().contains(types@[0].id));
                    assert(type_ids(types@)[0] == types@[0].id);
                    assert(type_ids(types@).to_set().contains(types@[0].id));
                }
                let row = before@[entity];
                assert(row.remove_keys(type_ids(types@).to_set()) =~= row);
                assert(self@ =~= before@.insert(entity, row));
                assert(Seq::<C>::empty() =~= type_ids(types@).map_values(
                    |t: u64| before@[entity][t],
                ));
                lemma_listed_types(types@);
            }
            return Ok(Vec::new());
        }
        proof {
            middle.lemma_row_of(entity);
            lemma_lifted(middle, entity, loc);
            assert(middle.tables()[target as int] == middle.archetypes@[target as int]@);
        }
        let (source_arch, target_arch) = index2(
            self.archetypes.as_mut_slice(),
            loc.archetype as usize,
            target as usize,
        );
        let (row, moved) = source_arch.move_to(loc.index);
        // Only move the components present in the target archetype, i.e. the non-removed ones.
        let mut row = row;
        let values = take_all(&mut row, types);
        let ghost cells = row@;
        proof {
            lemma_zip_map_dom(row.ids(), row.cells());
            assert(row@.dom() =~= goal.to_set());
            lemma_sorted_unique(row.ids(), goal);
        }
        let target_index = target_arch.allocate(entity.id, row);
        if let Some(moved) = moved {
            self.entities.set_location(moved, loc);
        }
        let place = Location { archetype: target, index: target_index };
        self.entities.set_location(entity.id, place);
        proof {
            assert(self.entities.locations() =~= lifted_locations(middle, entity, loc).update(
                entity.id as int,
                place,
            ));
            lemma_moved(middle, *self, entity, loc, place, cells);
            lemma_listed_types(types@);
            assert forall|i: int|
                #![trigger types@[i]]
                0 <= i < types@.len() implies before@[entity].contains_key(types@[i].id)
                && values@[i] == before@[entity][types@[i].id] by {
                assert(type_ids(types@)[i] == types@[i].id);
                assert(own.to_set().contains(types@[i].id));
            }
        }
        Ok(values)
    }

    /// Remove the component of one type from `entity`
    ///
    /// See `remove`.
    pub fn remove_one(&mut self, entity: Entity, ty: TypeInfo) -> (r: Result<C, ComponentError>)
        requires
            old(self).wf(),
            old(self)@.contains_key(entity) ==> old(self).accepts(
                old(self)@[entity].dom().remove(ty.id),
            ),
        ensures
            final(self).wf(),
            match r {
                Ok(value) => {
                    &&& old(self)@.contains_key(entity)
                    &&& old(self)@[entity].contains_key(ty.id)
                    &&& value == old(self)@[entity][ty.id]
                },
                Err(ComponentError::NoSuchEntity) => !old(self)@.contains_key(entity),
                Err(ComponentError::MissingComponent(missing)) => {
                    &&& old(self)@.contains_key(entity)
                    &&& !old(self)@[entity].contains_key(ty.id)
                    &&& missing == MissingComponent(ty.name)
                },
            },
            final(self).ids() == old(self).ids().flushed(),
            final(self)@ == (if r is Ok {
                old(self)@.insert(entity, old(self)@[entity].remove(ty.id))
            } else {
                old(self)@
            }),
            final(self).layout() == (if old(self)@.contains_key(entity) {
                with_types(old(self).layout(), old(self)@[entity].dom().remove(ty.id))
            } else {
                old(self).layout()
            }),
            final(self).model() == old(self).model().remove(entity, seq![ty]),
    {
        let types = [ty];
        proof {
            let list = type_ids(types@);
            let row = self@[entity];
            assert(list =~= seq![ty.id]);
            assert(list.to_set() =~= set![ty.id]) by {
                assert(list[0] == ty.id);
            }
            assert(row.dom().difference(list.to_set()) =~= row.dom().remove(ty.id));
            assert(row.remove_keys(list.to_set()) =~= row.remove(ty.id));
            assert(types@[0] == ty);
            assert(types@ =~= seq![ty]);
        }
        match self.remove(entity, &types) {
            Ok(mut values) => {
                assert(values@.len() == 1);
                Ok(values.swap_remove(0))
            },
            Err(e) => Err(e),
        }
    }
}

} // verus!
