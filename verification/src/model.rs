//! A world as a value, and what each operation makes of it.
use crate::entities::{entity_ids, Entity, IdState};
use crate::types::{has_all, type_ids, TypeInfo};
use crate::world::state::with_all_types;
use crate::world::{empties, with_entities, with_types, without_id, without_ids, World};
use vstd::prelude::*;

verus! {

/// A world as a value: the components of its entities, which ids are in use, and the types of its
/// archetypes.
#[verifier::ext_equal]
pub struct Model<C> {
    pub view: Map<Entity, Map<u64, C>>,
    pub ids: IdState,
    pub layout: Seq<Set<u64>>,
}

/// The type set of each row.
pub open spec fn row_types<C>(rows: Seq<Map<u64, C>>) -> Seq<Set<u64>> {
    rows.map_values(|row: Map<u64, C>| row.dom())
}

impl<C> Model<C> {
    /// What holds of every well-formed world.
    pub open spec fn wf(self) -> bool {
        &&& self.ids.wf()
        &&& forall|e: Entity| #[trigger] self.view.contains_key(e) == self.ids.contains(e)
        &&& forall|e: Entity| #[trigger]
            self.ids.reserved(e) ==> self.view[e] == Map::<u64, C>::empty()
        &&& self.layout.no_duplicates()
        &&& self.layout.len() > 0
        &&& self.layout[0] == Set::<u64>::empty()
        &&& forall|e: Entity| #[trigger]
            self.view.contains_key(e) ==> self.layout.contains(self.view[e].dom())
    }

    /// A new world.
    pub open spec fn initial() -> Model<C> {
        Model { view: Map::empty(), ids: IdState::initial(), layout: seq![Set::empty()] }
    }

    /// After `World::flush`.
    pub open spec fn flush(self) -> Model<C> {
        Model { view: self.view, ids: self.ids.flushed(), layout: self.layout }
    }

    /// The handle that `World::spawn` gives.
    pub open spec fn next(self) -> Entity {
        self.ids.flushed().next()
    }

    /// After `World::spawn`.
    pub open spec fn spawn(self, components: Map<u64, C>) -> Model<C> {
        Model {
            view: self.view.insert(self.next(), components),
            ids: self.ids.flushed().alloc_one(),
            layout: with_types(self.layout, components.dom()),
        }
    }

    /// After `World::spawn` of each of the listed rows in turn.
    pub open spec fn spawn_each(self, rows: Seq<Map<u64, C>>) -> Model<C>
        decreases rows.len(),
    {
        if rows.len() == 0 {
            self
        } else {
            self.spawn_each(rows.drop_last()).spawn(rows.last())
        }
    }

    /// After `World::spawn_at`.
    pub open spec fn spawn_at(self, handle: Entity, components: Map<u64, C>) -> Model<C> {
        Model {
            view: without_id(self.view, handle.id).insert(handle, components),
            ids: self.ids.flushed().alloc_at(handle),
            layout: with_types(self.layout, components.dom()),
        }
    }

    /// After `World::spawn_batch`.
    pub open spec fn spawn_batch(self, types: Set<u64>, rows: Seq<Map<u64, C>>) -> Model<C> {
        Model {
            view: with_entities(
                self.view,
                self.ids.flushed().alloc_list(rows.len() as int),
                rows,
            ),
            ids: self.ids.flushed().alloc_n(rows.len() as int),
            layout: with_types(self.layout, types),
        }
    }

    /// After `World::spawn_column_batch`.
    pub open spec fn spawn_column_batch(self, types: Set<u64>, rows: Seq<Map<u64, C>>) -> Model<
        C,
    > {
        Model {
            view: with_entities(self.view, self.ids.flushed().batch(rows.len() as int), rows),
            ids: self.ids.flushed().alloc_many(rows.len() as int),
            layout: with_types(self.layout, types),
        }
    }

    /// After `World::spawn_column_batch_at`.
    pub open spec fn spawn_column_batch_at(
        self,
        handles: Seq<Entity>,
        types: Set<u64>,
        rows: Seq<Map<u64, C>>,
    ) -> Model<C> {
        Model {
            view: with_entities(
                without_ids(self.view, entity_ids(handles).to_set()),
                handles,
                rows,
            ),
            ids: self.ids.flushed().alloc_all_at(handles),
            layout: with_types(self.layout, types),
        }
    }

    /// After `World::reserve_entities`.
    pub open spec fn reserve_entities(self, n: int) -> Model<C> {
        Model {
            view: with_entities(self.view, self.ids.reserve_list(n), empties(n)),
            ids: self.ids.reserve(n),
            layout: self.layout,
        }
    }

    /// After `World::despawn`.
    pub open spec fn despawn(self, e: Entity) -> Model<C> {
        if self.view.contains_key(e) {
            Model {
                view: self.view.remove(e),
                ids: self.ids.flushed().release(e.id),
                layout: self.layout,
            }
        } else {
            self.flush()
        }
    }

    /// After `World::reserve`.
    pub open spec fn reserve(self, types: Set<u64>) -> Model<C> {
        Model {
            view: self.view,
            ids: self.ids.flushed(),
            layout: with_types(self.layout, types),
        }
    }

    /// After `World::clear`.
    pub open spec fn clear(self) -> Model<C> {
        Model { view: Map::empty(), ids: IdState::initial(), layout: self.layout }
    }

    /// After `World::insert`.
    pub open spec fn insert(self, e: Entity, components: Map<u64, C>) -> Model<C> {
        if self.view.contains_key(e) {
            Model {
                view: self.view.insert(e, self.view[e].union_prefer_right(components)),
                ids: self.ids.flushed(),
                layout: with_types(self.layout, self.view[e].dom().union(components.dom())),
            }
        } else {
            self.flush()
        }
    }

    /// After `World::remove`.
    pub open spec fn remove(self, e: Entity, types: Seq<TypeInfo>) -> Model<C> {
        let gone = type_ids(types).to_set();
        if self.view.contains_key(e) {
            Model {
                view: if has_all(types, self.view[e].dom()) {
                    self.view.insert(e, self.view[e].remove_keys(gone))
                } else {
                    self.view
                },
                ids: self.ids.flushed(),
                layout: with_types(self.layout, self.view[e].dom().difference(gone)),
            }
        } else {
            self.flush()
        }
    }

    /// After components of an entity were written in place.
    pub open spec fn write(self, e: Entity, row: Map<u64, C>) -> Model<C> {
        Model { view: self.view.insert(e, row), ids: self.ids, layout: self.layout }
    }

    /// After `World::extend`.
    pub open spec fn extend(self, rows: Seq<Map<u64, C>>) -> Model<C> {
        if rows.len() == 0 {
            self
        } else {
            Model {
                view: with_entities(
                    self.view,
                    self.ids.flushed().alloc_list(rows.len() as int),
                    rows,
                ),
                ids: self.ids.flushed().alloc_n(rows.len() as int),
                layout: with_all_types(self.layout, row_types(rows)),
            }
        }
    }

    /// After one operation.
    pub open spec fn apply(self, step: Step<C>) -> Model<C> {
        match step {
            Step::Flush => self.flush(),
            Step::Spawn(components) => self.spawn(components),
            Step::SpawnAt(handle, components) => self.spawn_at(handle, components),
            Step::SpawnBatch(types, rows) => self.spawn_batch(types, rows),
            Step::SpawnColumnBatch(types, rows) => self.spawn_column_batch(types, rows),
            Step::SpawnColumnBatchAt(handles, types, rows) => self.spawn_column_batch_at(
                handles,
                types,
                rows,
            ),
            Step::ReserveEntities(n) => self.reserve_entities(n),
            Step::Despawn(e) => self.despawn(e),
            Step::Reserve(types) => self.reserve(types),
            Step::Clear => self.clear(),
            Step::Insert(e, components) => self.insert(e, components),
            Step::Remove(e, types) => self.remove(e, types),
            Step::Write(e, row) => self.write(e, row),
            Step::Extend(rows) => self.extend(rows),
        }
    }

    /// After the listed operations, in order.
    pub open spec fn run(self, steps: Seq<Step<C>>) -> Model<C>
        decreases steps.len(),
    {
        if steps.len() == 0 {
            self
        } else {
            self.run(steps.drop_last()).apply(steps.last())
        }
    }
}

/// An operation that changes a world, with what it is given.
///
/// `Write` stands for the operations that hand out components for writing: `World::get_mut`,
/// `World::get_unchecked_mut`, `World::query_one_mut` and `QueryMut::next`.
pub enum Step<C> {
    Flush,
    Spawn(Map<u64, C>),
    SpawnAt(Entity, Map<u64, C>),
    SpawnBatch(Set<u64>, Seq<Map<u64, C>>),
    SpawnColumnBatch(Set<u64>, Seq<Map<u64, C>>),
    SpawnColumnBatchAt(Seq<Entity>, Set<u64>, Seq<Map<u64, C>>),
    ReserveEntities(int),
    Despawn(Entity),
    Reserve(Set<u64>),
    Clear,
    Insert(Entity, Map<u64, C>),
    Remove(Entity, Seq<TypeInfo>),
    Write(Entity, Map<u64, C>),
    Extend(Seq<Map<u64, C>>),
}

impl<C> World<C> {
    /// The world as a value.
    pub open spec fn model(&self) -> Model<C> {
        Model { view: self@, ids: self.ids(), layout: self.layout() }
    }

    /// The value of a well-formed world.
    pub proof fn lemma_model(&self)
        requires
            self.wf(),
        ensures
            self.model().wf(),
    {
        self.lemma_entities();
        self.lemma_archetypes();
        let model = self.model();
        assert forall|e: Entity| #[trigger] model.view.contains_key(e) implies model.layout.contains(
            model.view[e].dom(),
        ) by {
            if self.ids().reserved(e) {
                assert(model.view[e].dom() =~= Set::<u64>::empty());
                assert(model.layout[0] == model.view[e].dom());
            } else {
                let (a, r) = choose|a: int, r: int|
                    0 <= a < self.tables().len() && 0 <= r < self.tables()[a].ids.len()
                        && #[trigger] self.tables()[a].ids[r] == e.id && self.tables()[a].rows[r]
                        == self@[e] && self.layout()[a] == self@[e].dom();
                assert(model.layout[a] == model.view[e].dom());
            }
        }
    }
}

} // verus!
