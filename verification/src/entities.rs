//! Entity handles, and the allocator that hands them out and remembers where each entity is stored.
use vstd::prelude::*;

verus! {

/// Lightweight unique ID of an entity
///
/// Ids are reused once an entity is gone; the generation tells its successive holders apart.
#[derive(Copy, Clone, Debug, PartialEq, Eq, Structural, PartialOrd, Ord, Hash)]
pub struct Entity {
    pub generation: u32,
    pub id: u32,
}

impl Entity {
    /// Extract a transiently unique identifier
    ///
    /// No two simultaneously-live entities share the same ID, but dead entities' IDs may collide
    /// with both live and dead entities.
    pub fn id(self) -> (r: u32)
        ensures
            r == self.id,
    {
        self.id
    }
}

/// Error indicating that no entity with a particular ID exists
#[derive(Copy, Clone, Debug, PartialEq, Eq, Structural, Hash)]
pub struct NoSuchEntity;

/// Where the components of an entity are stored: an archetype, and a row of it.
#[derive(Copy, Clone, Debug, PartialEq, Eq, Structural)]
pub struct Location {
    pub archetype: u32,
    pub index: u32,
}

/// The location of an id that has no row.
pub open spec fn nowhere() -> Location {
    Location { archetype: 0, index: u32::MAX }
}

/// What is known of one id.
#[derive(Copy, Clone, Debug)]
pub struct EntityMeta {
    pub generation: u32,
    pub location: Location,
}

impl EntityMeta {
    fn empty() -> (r: EntityMeta)
        ensures
            r.generation == 0,
            r.location == nowhere(),
    {
        EntityMeta { generation: 0, location: Location { archetype: 0, index: u32::MAX } }
    }
}

/// The generation that follows `generation` when an id is freed.
pub open spec fn next_generation(generation: u32) -> u32 {
    if generation == u32::MAX {
        0
    } else {
        (generation + 1) as u32
    }
}

/// `n` times generation zero.
pub open spec fn zeros(n: int) -> Seq<u32> {
    Seq::new(n as nat, |i: int| 0u32)
}

/// `n` times no location.
pub open spec fn nowheres(n: int) -> Seq<Location> {
    Seq::new(n as nat, |i: int| nowhere())
}

/// The ids from `start` up to but not including `end`.
pub open spec fn id_range(start: int, end: int) -> Seq<u32> {
    Seq::new((end - start) as nat, |i: int| (start + i) as u32)
}

/// The ids of the listed entities.
pub open spec fn entity_ids(handles: Seq<Entity>) -> Seq<u32> {
    handles.map_values(|e: Entity| e.id)
}

/// Which ids are in use, as a value.
///
/// `generations` has one element for each id that was ever allocated. `pending` lists ids that
/// hold no entity: the first `cursor` of them are free, the others are reserved. Where `cursor`
/// is negative no id is free, and `-cursor` ids beyond the end of `generations` are reserved too.
pub struct IdState {
    pub generations: Seq<u32>,
    pub pending: Seq<u32>,
    pub cursor: int,
}

impl IdState {
    pub open spec fn wf(self) -> bool {
        &&& self.generations.len() <= 0x1_0000_0000
        &&& self.pending.no_duplicates()
        &&& forall|i: int|
            0 <= i < self.pending.len() ==> (#[trigger] self.pending[i] as int)
                < self.generations.len()
        &&& self.cursor <= self.pending.len()
        &&& self.population() <= u32::MAX
    }

    /// The allocator of an empty world.
    pub open spec fn initial() -> IdState {
        IdState { generations: Seq::empty(), pending: Seq::empty(), cursor: 0 }
    }

    /// The number of entities that exist or are reserved.
    pub open spec fn population(self) -> int {
        self.generations.len() - self.cursor
    }

    /// The number of entities that exist.
    pub open spec fn count(self) -> int {
        self.generations.len() - self.pending.len()
    }

    pub open spec fn free_len(self) -> int {
        if self.cursor > 0 {
            self.cursor
        } else {
            0
        }
    }

    /// The ids that may be handed out again; the last one goes first.
    pub open spec fn free(self) -> Seq<u32> {
        self.pending.take(self.free_len())
    }

    /// The previously used ids that are reserved.
    pub open spec fn reserved_ids(self) -> Seq<u32> {
        self.pending.skip(self.free_len())
    }

    /// The number of reserved ids that were never used before.
    pub open spec fn fresh(self) -> int {
        if self.cursor < 0 {
            -self.cursor
        } else {
            0
        }
    }

    /// Whether `e` exists or is reserved.
    pub open spec fn contains(self, e: Entity) -> bool {
        if (e.id as int) < self.generations.len() {
            &&& self.generations[e.id as int] == e.generation
            &&& !self.free().contains(e.id)
        } else {
            &&& e.generation == 0
            &&& (e.id as int) < self.population()
        }
    }

    /// Whether `e` is reserved and does not exist yet.
    pub open spec fn reserved(self, e: Entity) -> bool {
        &&& self.contains(e)
        &&& (e.id as int) < self.generations.len() ==> self.reserved_ids().contains(e.id)
    }

    /// Nothing is reserved.
    pub open spec fn is_flushed(self) -> bool {
        self.cursor == self.pending.len()
    }

    /// After the reserved entities have been made to exist.
    pub open spec fn flushed(self) -> IdState {
        IdState {
            generations: self.generations + zeros(self.fresh()),
            pending: self.free(),
            cursor: self.free_len(),
        }
    }

    /// The ids that `flushed` gives an entity.
    pub open spec fn flush_ids(self) -> Seq<u32> {
        id_range(self.generations.len() as int, self.generations.len() + self.fresh())
            + self.reserved_ids()
    }

    /// The entity that is allocated next, where nothing is reserved.
    pub open spec fn next(self) -> Entity {
        if self.pending.len() > 0 {
            Entity {
                generation: self.generations[self.pending.last() as int],
                id: self.pending.last(),
            }
        } else {
            Entity { generation: 0, id: self.generations.len() as u32 }
        }
    }

    /// After `next` has been allocated.
    pub open spec fn alloc_one(self) -> IdState {
        if self.pending.len() > 0 {
            IdState {
                generations: self.generations,
                pending: self.pending.drop_last(),
                cursor: self.pending.len() - 1,
            }
        } else {
            IdState { generations: self.generations.push(0), pending: self.pending, cursor: 0 }
        }
    }

    /// After `n` entities have been allocated one after another.
    pub open spec fn alloc_n(self, n: int) -> IdState
        decreases n,
    {
        if n <= 0 {
            self
        } else {
            self.alloc_n(n - 1).alloc_one()
        }
    }

    /// The handles of `n` entities that are allocated one after another.
    pub open spec fn alloc_list(self, n: int) -> Seq<Entity> {
        Seq::new(n as nat, |i: int| self.alloc_n(i).next())
    }

    /// How many of `n` entities get an id that was used before, in a batch.
    pub open spec fn recycled(self, n: int) -> int {
        if n < self.pending.len() {
            n
        } else {
            self.pending.len() as int
        }
    }

    /// The ids that a batch of `n` entities gets.
    pub open spec fn batch_ids(self, n: int) -> Seq<u32> {
        self.pending.skip(self.pending.len() - self.recycled(n)) + id_range(
            self.generations.len() as int,
            self.generations.len() + n - self.recycled(n),
        )
    }

    /// After a batch of `n` entities has been allocated.
    pub open spec fn alloc_many(self, n: int) -> IdState {
        IdState {
            generations: self.generations + zeros(n - self.recycled(n)),
            pending: self.pending.take(self.pending.len() - self.recycled(n)),
            cursor: self.pending.len() - self.recycled(n),
        }
    }

    /// Whether an entity with this id exists, where nothing is reserved.
    pub open spec fn holds(self, id: u32) -> bool {
        (id as int) < self.generations.len() && !self.pending.contains(id)
    }

    /// After the handle `e` has been allocated, in place of the entity with its id if there is one.
    pub open spec fn alloc_at(self, e: Entity) -> IdState {
        let n = self.generations.len() as int;
        if e.id >= n {
            IdState {
                generations: (self.generations + zeros(e.id - n)).push(e.generation),
                pending: self.pending + id_range(n, e.id as int),
                cursor: self.pending.len() + (e.id - n),
            }
        } else if self.pending.contains(e.id) {
            IdState {
                generations: self.generations.update(e.id as int, e.generation),
                pending: self.pending.update(
                    self.pending.index_of(e.id),
                    self.pending.last(),
                ).drop_last(),
                cursor: self.pending.len() - 1,
            }
        } else {
            IdState {
                generations: self.generations.update(e.id as int, e.generation),
                pending: self.pending,
                cursor: self.cursor,
            }
        }
    }

    /// After the listed handles have been allocated, in order.
    pub open spec fn alloc_all_at(self, handles: Seq<Entity>) -> IdState
        decreases handles.len(),
    {
        if handles.len() == 0 {
            self
        } else {
            self.alloc_all_at(handles.drop_last()).alloc_at(handles.last())
        }
    }

    /// After the entity with this id has been freed.
    pub open spec fn release(self, id: u32) -> IdState {
        IdState {
            generations: self.generations.update(
                id as int,
                next_generation(self.generations[id as int]),
            ),
            pending: self.pending.push(id),
            cursor: self.pending.len() as int + 1,
        }
    }

    /// After `n` more entities have been reserved.
    pub open spec fn reserve(self, n: int) -> IdState {
        IdState { generations: self.generations, pending: self.pending, cursor: self.cursor - n }
    }

    /// The handles of the entities that `reserve(n)` adds.
    pub open spec fn reserve_list(self, n: int) -> Seq<Entity> {
        let after = self.reserve(n);
        let recycled = self.pending.subrange(after.free_len(), self.free_len());
        let start = self.generations.len() + self.fresh();
        recycled.map_values(
            |id: u32| Entity { generation: self.generations[id as int], id },
        ) + id_range(start, self.generations.len() + after.fresh()).map_values(
            |id: u32| Entity { generation: 0, id },
        )
    }

    /// The entity that has this id.
    pub open spec fn entity_at(self, id: u32) -> Entity {
        Entity {
            generation: if (id as int) < self.generations.len() {
                self.generations[id as int]
            } else {
                0
            },
            id,
        }
    }
}

/// The entities that have the listed ids.
pub open spec fn entities_at(state: IdState, ids: Seq<u32>) -> Seq<Entity> {
    ids.map_values(|id: u32| state.entity_at(id))
}

impl IdState {
    /// The handles of a batch of `n` entities.
    pub open spec fn batch(self, n: int) -> Seq<Entity> {
        entities_at(self.alloc_many(n), self.batch_ids(n))
    }

    /// No two entities share an id.
    pub proof fn lemma_ids_unique(self, a: Entity, b: Entity)
        requires
            self.contains(a),
            self.contains(b),
            a.id == b.id,
        ensures
            a == b,
    {
    }

    /// Making the reserved entities exist changes no handle.
    pub proof fn lemma_flushed(self)
        requires
            self.wf(),
        ensures
            self.flushed().wf(),
            self.flushed().is_flushed(),
            self.flushed().population() == self.population(),
            forall|e: Entity| #[trigger] self.flushed().contains(e) == self.contains(e),
            forall|e: Entity| !(#[trigger] self.flushed().reserved(e)),
    {
        let after = self.flushed();
        assert(after.free() =~= self.free());
        assert forall|i: int| 0 <= i < after.pending.len() implies (#[trigger] after.pending[i] as int)
            < after.generations.len() by {
            assert(after.pending[i] == self.pending[i]);
        }
        assert(after.reserved_ids() =~= Seq::empty());
        assert forall|e: Entity| #[trigger] after.contains(e) == self.contains(e) by {
            if self.generations.len() <= e.id < after.generations.len() {
                if self.free().contains(e.id) {
                    let k = self.free().index_of(e.id);
                    assert(self.pending[k] == e.id);
                }
            }
        }
    }

    /// An allocated handle is new, and no other one comes or goes.
    pub proof fn lemma_alloc_one(self)
        requires
            self.wf(),
            self.is_flushed(),
            self.population() < u32::MAX,
        ensures
            self.alloc_one().wf(),
            self.alloc_one().is_flushed(),
            self.alloc_one().population() == self.population() + 1,
            !self.contains(self.next()),
            !self.holds(self.next().id),
            forall|e: Entity|
                #[trigger] self.alloc_one().contains(e) == (self.contains(e) || e == self.next()),
    {
        let after = self.alloc_one();
        assert(self.free() =~= self.pending);
        assert(after.free() =~= after.pending);
        if self.pending.len() > 0 {
            let last = self.pending.last();
            assert(self.pending.contains(last));
            assert(self.pending[self.pending.len() - 1] < self.generations.len());
            assert forall|e: Entity| #[trigger]
                after.contains(e) == (self.contains(e) || e == self.next()) by {
                assert(self.pending.contains(e.id) == (after.pending.contains(e.id) || e.id
                    == last)) by {
                    if self.pending.contains(e.id) {
                        let k = self.pending.index_of(e.id);
                        assert(self.pending[k] == e.id);
                        if k < self.pending.len() - 1 {
                            assert(after.pending[k] == e.id);
                        }
                    }
                    if after.pending.contains(e.id) {
                        let k = after.pending.index_of(e.id);
                        assert(self.pending[k] == e.id);
                    }
                }
                if after.pending.contains(last) {
                    let k = after.pending.index_of(last);
                    assert(self.pending[k] == last);
                }
            }
            assert forall|i: int| 0 <= i < after.pending.len() implies (
            #[trigger] after.pending[i] as int) < after.generations.len() by {
                assert(after.pending[i] == self.pending[i]);
            }
        }
    }

    /// Where nothing is reserved, there is nothing to make exist.
    pub proof fn lemma_flushed_again(self)
        requires
            self.is_flushed(),
        ensures
            self.flushed() == self,
    {
        assert(self.flushed().generations =~= self.generations);
        assert(self.flushed().pending =~= self.pending);
    }

    /// Handles that are allocated one after another are new and differ, and no other one comes
    /// or goes.
    pub proof fn lemma_alloc_n(self, n: int)
        requires
            self.wf(),
            self.is_flushed(),
            0 <= n,
            self.population() + n <= u32::MAX,
        ensures
            self.alloc_n(n).wf(),
            self.alloc_n(n).is_flushed(),
            self.alloc_n(n).population() == self.population() + n,
            self.alloc_list(n).no_duplicates(),
            forall|k: int|
                #![trigger self.alloc_list(n)[k]]
                0 <= k < n ==> !self.contains(self.alloc_list(n)[k]),
            forall|e: Entity|
                #[trigger] self.alloc_n(n).contains(e) == (self.contains(e) || self.alloc_list(
                    n,
                ).contains(e)),
        decreases n,
    {
        let list = self.alloc_list(n);
        if n > 0 {
            self.lemma_alloc_n(n - 1);
            self.alloc_n(n - 1).lemma_alloc_one();
            let before = self.alloc_list(n - 1);
            let next = self.alloc_n(n - 1).next();
            assert(list =~= before.push(next));
            assert(!before.contains(next));
            assert(list.no_duplicates()) by {
                assert forall|i: int, j: int| 0 <= i < j < list.len() implies list[i] != list[j] by {
                    assert(list[i] == before[i]);
                    if j < n - 1 {
                        assert(list[j] == before[j]);
                    } else {
                        assert(before.contains(list[i]));
                    }
                }
            }
            assert forall|k: int| 0 <= k < n implies !self.contains(#[trigger] list[k]) by {
                if k < n - 1 {
                    assert(list[k] == before[k]);
                }
            }
            assert forall|e: Entity| #[trigger] list.contains(e) == (before.contains(e) || e
                == next) by {
                if before.contains(e) {
                    assert(list[before.index_of(e)] == e);
                }
                assert(list[n - 1] == next);
                if list.contains(e) {
                    let k = list.index_of(e);
                    if k < n - 1 {
                        assert(before[k] == e);
                    }
                }
            }
        }
    }

    /// The handles of a batch are new and differ, and no other one comes or goes.
    pub proof fn lemma_alloc_many(self, n: int)
        requires
            self.wf(),
            self.is_flushed(),
            0 <= n,
            self.population() + n <= u32::MAX,
        ensures
            self.alloc_many(n).wf(),
            self.alloc_many(n).is_flushed(),
            self.alloc_many(n).population() == self.population() + n,
            self.batch_ids(n).len() == n,
            self.batch_ids(n).no_duplicates(),
            forall|k: int|
                #![trigger self.batch_ids(n)[k]]
                0 <= k < n ==> self.batch_ids(n)[k] < self.alloc_many(n).generations.len()
                    && !self.holds(self.batch_ids(n)[k]) && !self.alloc_many(n).pending.contains(
                    self.batch_ids(n)[k],
                ),
            forall|k: int|
                #![trigger self.batch(n)[k]]
                0 <= k < n ==> !self.contains(self.batch(n)[k]),
            forall|e: Entity|
                #[trigger] self.alloc_many(n).contains(e) == (self.contains(e) || self.batch(
                    n,
                ).contains(e)),
            forall|id: u32|
                #![trigger self.alloc_many(n).pending.contains(id)]
                self.alloc_many(n).pending.contains(id) == (self.pending.contains(id)
                    && !self.batch_ids(n).contains(id)),
    {
        let after = self.alloc_many(n);
        let r = self.recycled(n);
        let cut = self.pending.len() - r;
        let ids = self.batch_ids(n);
        let len = self.generations.len() as int;
        assert(self.free() =~= self.pending);
        assert(after.free() =~= after.pending);
        assert forall|i: int| 0 <= i < after.pending.len() implies (#[trigger] after.pending[i] as int)
            < after.generations.len() by {
            assert(after.pending[i] == self.pending[i]);
        }
        assert forall|k: int| 0 <= k < ids.len() implies (#[trigger] ids[k]) == (if k < r {
            self.pending[cut + k]
        } else {
            (len + k - r) as u32
        }) by {}
        assert(n > r ==> len + n - r <= u32::MAX);
        assert(ids.no_duplicates()) by {
            assert forall|i: int, j: int| 0 <= i < j < ids.len() implies ids[i] != ids[j] by {
                if i < r {
                    assert(self.pending[cut + i] < self.generations.len());
                }
            }
        }
        assert forall|k: int| 0 <= k < n implies (#[trigger] ids[k]) < after.generations.len()
            && !self.holds(ids[k]) && !after.pending.contains(ids[k]) by {
            if k < r {
                assert(self.pending[cut + k] < self.generations.len());
                assert(self.pending.contains(ids[k]));
            }
            if after.pending.contains(ids[k]) {
                let m = after.pending.index_of(ids[k]);
                assert(self.pending[m] == ids[k]);
                assert(self.pending[m] < self.generations.len());
            }
        }
        assert forall|id: u32| #[trigger] after.pending.contains(id) == (self.pending.contains(id)
            && !ids.contains(id)) by {
            if after.pending.contains(id) {
                let m = after.pending.index_of(id);
                assert(self.pending[m] == id);
                if ids.contains(id) {
                    let k = ids.index_of(id);
                    assert(!after.pending.contains(ids[k]));
                }
            }
            if self.pending.contains(id) && !ids.contains(id) {
                let m = self.pending.index_of(id);
                assert(self.pending[m] == id);
                if m >= cut {
                    assert(ids[m - cut] == id);
                }
                assert(after.pending[m] == id);
            }
        }
        let batch = self.batch(n);
        assert forall|k: int| 0 <= k < n implies !self.contains(#[trigger] batch[k]) by {
            assert(batch[k].id == ids[k]);
            if k >= r {
                assert(ids[k] >= len);
                assert(self.population() <= len);
            } else {
                assert(self.pending.contains(ids[k]));
            }
        }
        assert forall|e: Entity| #[trigger]
            after.contains(e) == (self.contains(e) || batch.contains(e)) by {
            if batch.contains(e) {
                let k = batch.index_of(e);
                assert(batch[k] == e);
                assert(ids[k] == e.id);
            }
            if after.contains(e) && !self.contains(e) {
                assert(e.id < after.generations.len());
                if e.id < len {
                    assert(self.pending.contains(e.id));
                    assert(!after.pending.contains(e.id));
                    assert(ids.contains(e.id));
                    let k = ids.index_of(e.id);
                    assert(batch[k] == e);
                } else {
                    let k = e.id - len + r;
                    assert(ids[k] == e.id);
                    assert(batch[k] == e);
                }
            }
        }
    }

    /// A handle that is allocated as given replaces the one that has its id.
    pub proof fn lemma_alloc_at(self, e: Entity)
        requires
            self.wf(),
            self.is_flushed(),
            self.alloc_at(e).population() <= u32::MAX,
        ensures
            self.alloc_at(e).wf(),
            self.alloc_at(e).is_flushed(),
            self.alloc_at(e).population() == self.population() + (if self.holds(e.id) {
                0int
            } else {
                1
            }),
            (e.id as int) < self.alloc_at(e).generations.len(),
            forall|id: u32|
                #![trigger self.alloc_at(e).pending.contains(id)]
                self.alloc_at(e).pending.contains(id) == (id != e.id && (self.pending.contains(id)
                    || self.generations.len() <= id < e.id)),
            forall|other: Entity|
                #[trigger] self.alloc_at(e).contains(other) == (other == e || (other.id != e.id
                    && self.contains(other))),
    {
        let after = self.alloc_at(e);
        let n = self.generations.len() as int;
        assert(self.free() =~= self.pending);
        if e.id >= n {
            assert forall|id: u32| #[trigger] after.pending.contains(id) == (id != e.id && (
            self.pending.contains(id) || n <= id < e.id)) by {
                if after.pending.contains(id) {
                    let k = after.pending.index_of(id);
                    assert(after.pending[k] == id);
                    if k < self.pending.len() {
                        assert(self.pending[k] == id);
                        assert(self.pending[k] < n);
                    }
                }
                if self.pending.contains(id) {
                    let k = self.pending.index_of(id);
                    assert(self.pending[k] == id);
                    assert(after.pending[k] == id);
                    assert(self.pending[k] < n);
                }
                if n <= id < e.id {
                    assert(after.pending[self.pending.len() + id - n] == id);
                }
            }
            assert(after.pending.no_duplicates()) by {
                assert forall|i: int, j: int| 0 <= i < j < after.pending.len() implies
                    after.pending[i] != after.pending[j] by {
                    if i < self.pending.len() {
                        assert(self.pending[i] < n);
                    }
                }
            }
            assert forall|i: int| 0 <= i < after.pending.len() implies (
            #[trigger] after.pending[i] as int) < after.generations.len() by {
                if i < self.pending.len() {
                    assert(self.pending[i] < n);
                }
            }
        } else if self.pending.contains(e.id) {
            let at = self.pending.index_of(e.id);
            let last = self.pending.len() - 1;
            assert(self.pending[at] == e.id);
            assert forall|i: int| 0 <= i < after.pending.len() implies #[trigger] after.pending[i]
                == (if i == at { self.pending[last] } else { self.pending[i] }) by {}
            assert forall|id: u32| #[trigger] after.pending.contains(id) == (id != e.id
                && self.pending.contains(id)) by {
                if after.pending.contains(id) {
                    let k = after.pending.index_of(id);
                    assert(after.pending[k] == id);
                    let from = if k == at { last } else { k };
                    assert(self.pending[from] == id);
                }
                if self.pending.contains(id) && id != e.id {
                    let k = self.pending.index_of(id);
                    assert(self.pending[k] == id);
                    let to = if k == last { at } else { k };
                    assert(after.pending[to] == id);
                }
            }
            assert forall|i: int| 0 <= i < after.pending.len() implies (
            #[trigger] after.pending[i] as int) < after.generations.len() by {
                assert(self.pending[i] < n);
                assert(self.pending[last] < n);
            }
        }
        assert(after.free() =~= after.pending);
        assert forall|other: Entity| #[trigger]
            after.contains(other) == (other == e || (other.id != e.id && self.contains(other))) by {
            assert(after.pending.contains(other.id) == (other.id != e.id && (self.pending.contains(
                other.id,
            ) || n <= other.id < e.id)));
        }
    }

    /// Allocating a handle never takes away from the number of entities.
    pub(crate) proof fn lemma_alloc_at_grows(self, e: Entity)
        ensures
            self.is_flushed() ==> self.alloc_at(e).population() >= self.population(),
            self.is_flushed() ==> self.alloc_at(e).is_flushed(),
    {
        if self.pending.contains(e.id) {
            assert(self.pending.len() > 0);
        }
    }

    /// The number of entities while handles are allocated one after another.
    pub(crate) proof fn lemma_alloc_all_at_grows(self, handles: Seq<Entity>, k: int)
        requires
            self.is_flushed(),
            0 <= k <= handles.len(),
        ensures
            self.alloc_all_at(handles.take(k)).is_flushed(),
            self.alloc_all_at(handles.take(k)).population() <= self.alloc_all_at(
                handles,
            ).population(),
        decreases handles.len(),
    {
        if k < handles.len() {
            let init = handles.drop_last();
            self.lemma_alloc_all_at_grows(init, k);
            assert(init.take(k) =~= handles.take(k));
            self.lemma_alloc_all_at_grows(init, init.len() as int);
            assert(init.take(init.len() as int) =~= init);
            self.alloc_all_at(init).lemma_alloc_at_grows(handles.last());
        } else {
            assert(handles.take(k) =~= handles);
            if handles.len() > 0 {
                let init = handles.drop_last();
                self.lemma_alloc_all_at_grows(init, init.len() as int);
                assert(init.take(init.len() as int) =~= init);
                self.alloc_all_at(init).lemma_alloc_at_grows(handles.last());
            }
        }
    }

    /// Handles that are allocated as given replace the ones that have their ids.
    pub proof fn lemma_alloc_all_at(self, handles: Seq<Entity>)
        requires
            self.wf(),
            self.is_flushed(),
            entity_ids(handles).no_duplicates(),
            self.alloc_all_at(handles).population() <= u32::MAX,
        ensures
            self.alloc_all_at(handles).wf(),
            self.alloc_all_at(handles).is_flushed(),
            forall|e: Entity|
                #[trigger] self.alloc_all_at(handles).contains(e) == (handles.contains(e) || (
                self.contains(e) && !entity_ids(handles).contains(e.id))),
        decreases handles.len(),
    {
        let ids = entity_ids(handles);
        if handles.len() > 0 {
            let init = handles.drop_last();
            let init_ids = entity_ids(init);
            let last = handles.last();
            let n = handles.len() - 1;
            assert(ids =~= init_ids.push(last.id));
            assert(init_ids.no_duplicates()) by {
                assert forall|i: int, j: int|
                    0 <= i < init_ids.len() && 0 <= j < init_ids.len() && i != j implies init_ids[i]
                    != init_ids[j] by {
                    assert(ids[i] == init_ids[i] && ids[j] == init_ids[j]);
                }
            }
            self.lemma_alloc_all_at_grows(handles, n);
            assert(handles.take(n) =~= init);
            self.lemma_alloc_all_at(init);
            self.alloc_all_at(init).lemma_alloc_at(last);
            assert forall|e: Entity| #[trigger] self.alloc_all_at(handles).contains(e) == (
            handles.contains(e) || (self.contains(e) && !ids.contains(e.id))) by {
                assert(handles.contains(e) == (init.contains(e) || e == last)) by {
                    if init.contains(e) {
                        assert(handles[init.index_of(e)] == e);
                    }
                    assert(handles[n] == last);
                    if handles.contains(e) {
                        let k = handles.index_of(e);
                        if k < n {
                            assert(init[k] == e);
                        }
                    }
                }
                assert(ids.contains(e.id) == (init_ids.contains(e.id) || e.id == last.id)) by {
                    if init_ids.contains(e.id) {
                        assert(ids[init_ids.index_of(e.id)] == e.id);
                    }
                    assert(ids[n] == last.id);
                    if ids.contains(e.id) {
                        let k = ids.index_of(e.id);
                        if k < n {
                            assert(init_ids[k] == e.id);
                        }
                    }
                }
                if init.contains(e) {
                    let k = init.index_of(e);
                    assert(ids[k] == e.id);
                    assert(ids[n] == last.id);
                }
            }
        }
    }

    /// A freed handle is gone, and no other one comes or goes.
    pub proof fn lemma_release(self, e: Entity)
        requires
            self.wf(),
            self.is_flushed(),
            self.contains(e),
        ensures
            self.release(e.id).wf(),
            self.release(e.id).is_flushed(),
            self.release(e.id).population() == self.population() - 1,
            self.holds(e.id),
            forall|other: Entity|
                #[trigger] self.release(e.id).contains(other) == (other != e && self.contains(
                    other,
                )),
    {
        let after = self.release(e.id);
        assert(self.free() =~= self.pending);
        assert(after.free() =~= after.pending);
        assert forall|i: int| 0 <= i < after.pending.len() implies (#[trigger] after.pending[i] as int)
            < after.generations.len() by {
            if i < self.pending.len() {
                assert(self.pending[i] < self.generations.len());
            }
        }
        assert forall|other: Entity| #[trigger]
            after.contains(other) == (other != e && self.contains(other)) by {
            assert(after.pending.contains(other.id) == (self.pending.contains(other.id) || other.id
                == e.id)) by {
                if self.pending.contains(other.id) {
                    let k = self.pending.index_of(other.id);
                    assert(after.pending[k] == other.id);
                }
                assert(after.pending[self.pending.len() as int] == e.id);
                if after.pending.contains(other.id) {
                    let k = after.pending.index_of(other.id);
                    assert(after.pending[k] == other.id);
                    if k < self.pending.len() {
                        assert(self.pending[k] == other.id);
                    }
                }
            }
        }
    }

    /// Reserved handles are new and differ, and no other one comes or goes.
    pub proof fn lemma_reserve(self, n: int)
        requires
            self.wf(),
            0 <= n,
            self.population() + n <= u32::MAX,
        ensures
            self.reserve(n).wf(),
            self.reserve(n).population() == self.population() + n,
            self.reserve_list(n).len() == n,
            self.reserve_list(n).no_duplicates(),
            forall|k: int|
                #![trigger self.reserve_list(n)[k]]
                0 <= k < n ==> !self.contains(self.reserve_list(n)[k]) && self.reserve(n).reserved(
                    self.reserve_list(n)[k],
                ),
            forall|e: Entity|
                #[trigger] self.reserve(n).contains(e) == (self.contains(e) || self.reserve_list(
                    n,
                ).contains(e)),
    {
        let after = self.reserve(n);
        let list = self.reserve_list(n);
        let lo = after.free_len();
        let hi = self.free_len();
        let len = self.generations.len() as int;
        let r = hi - lo;
        assert(list.len() == n);
        assert forall|k: int| 0 <= k < n implies #[trigger] list[k] == (if k < r {
            Entity {
                generation: self.generations[self.pending[lo + k] as int],
                id: self.pending[lo + k],
            }
        } else {
            Entity { generation: 0, id: (len + self.fresh() + k - r) as u32 }
        }) by {}
        assert(n > r ==> len + self.fresh() + n - r <= u32::MAX);
        assert(list.no_duplicates()) by {
            assert forall|i: int, j: int| 0 <= i < j < list.len() implies list[i] != list[j] by {
                if i < r {
                    assert(self.pending[lo + i] < len);
                }
            }
        }
        assert forall|k: int| 0 <= k < n implies !self.contains(#[trigger] list[k])
            && after.reserved(list[k]) by {
            if k < r {
                assert(self.pending[lo + k] < len);
                assert(self.free()[lo + k] == self.pending[lo + k]);
                assert(!after.free().contains(list[k].id)) by {
                    if after.free().contains(list[k].id) {
                        let m = after.free().index_of(list[k].id);
                        assert(self.pending[m] == list[k].id);
                    }
                }
                assert(after.reserved_ids()[k] == list[k].id);
            }
        }
        assert forall|e: Entity| #[trigger]
            after.contains(e) == (self.contains(e) || list.contains(e)) by {
            if list.contains(e) {
                let k = list.index_of(e);
                assert(after.reserved(list[k]));
            }
            if self.contains(e) {
                if after.free().contains(e.id) {
                    let m = after.free().index_of(e.id);
                    assert(self.free()[m] == e.id);
                }
            }
            if after.contains(e) && !self.contains(e) {
                if e.id < len {
                    assert(self.free().contains(e.id));
                    let m = self.free().index_of(e.id);
                    assert(self.pending[m] == e.id);
                    if m < lo {
                        assert(after.free()[m] == e.id);
                    }
                    assert(list[m - lo] == e);
                } else {
                    let k = e.id - len - self.fresh() + r;
                    assert(list[k] == e);
                }
            }
        }
    }
}

impl IdState {
    /// A new allocator knows no handle.
    pub proof fn law_initial(e: Entity)
        ensures
            IdState::initial().wf(),
            IdState::initial().is_flushed(),
            !IdState::initial().contains(e),
            !IdState::initial().reserved(e),
            IdState::initial().population() == 0,
            IdState::initial().count() == 0,
            IdState::initial().generations.len() == 0,
    {
    }

    /// A live handle has the generation of its id. An id that was never used has none.
    pub proof fn law_live_generation(self, e: Entity)
        requires
            self.wf(),
            self.contains(e),
        ensures
            (e.id as int) < self.generations.len() ==> e.generation
                == self.generations[e.id as int],
            (e.id as int) >= self.generations.len() ==> e.generation == 0 && self.reserved(e),
    {
    }

    /// An entity has an id exactly when some live handle has it.
    pub proof fn law_holds(self, id: u32)
        requires
            self.wf(),
            self.is_flushed(),
        ensures
            self.holds(id) <==> exists|e: Entity| #[trigger] self.contains(e) && e.id == id,
    {
        assert(self.free() =~= self.pending);
        if self.holds(id) {
            assert(self.contains(self.entity_at(id)));
        }
        if exists|e: Entity| #[trigger] self.contains(e) && e.id == id {
            let e = choose|e: Entity| #[trigger] self.contains(e) && e.id == id;
            assert((e.id as int) < self.generations.len());
        }
    }

    /// Nothing is outstanding exactly when no handle is reserved.
    pub proof fn law_is_flushed(self)
        requires
            self.wf(),
        ensures
            self.is_flushed() <==> forall|e: Entity| !(#[trigger] self.reserved(e)),
    {
        if self.is_flushed() {
            assert(self.reserved_ids() =~= Seq::empty());
        } else if self.cursor < 0 {
            let e = Entity { generation: 0, id: self.generations.len() as u32 };
            assert(self.population() <= u32::MAX);
            assert(self.reserved(e));
        } else {
            let id = self.pending[self.cursor];
            let e = self.entity_at(id);
            assert(self.reserved_ids()[0] == id);
            assert(!self.free().contains(id)) by {
                if self.free().contains(id) {
                    let k = self.free().index_of(id);
                    assert(self.pending[k] == id);
                }
            }
            assert(self.reserved(e));
        }
    }

    /// After creating, replacing or destroying entities nothing is reserved; reserving adds the
    /// new handles to the reserved ones.
    pub proof fn law_reserved(self, e: Entity, n: int, handle: Entity)
        requires
            self.wf(),
            0 <= n,
            self.population() + n <= u32::MAX,
        ensures
            !self.flushed().reserved(e),
            self.population() < u32::MAX ==> !self.flushed().alloc_one().reserved(e),
            !self.flushed().alloc_n(n).reserved(e),
            !self.flushed().alloc_many(n).reserved(e),
            !self.flushed().alloc_at(handle).reserved(e),
            !self.flushed().release(handle.id).reserved(e),
            self.reserve(n).reserved(e) <==> self.reserved(e) || self.reserve_list(n).contains(e),
    {
        let start = self.flushed();
        self.lemma_flushed();
        start.lemma_alloc_n(n);
        start.lemma_alloc_many(n);
        start.lemma_alloc_at_grows(handle);
        lemma_none_outstanding(start.alloc_n(n), e);
        lemma_none_outstanding(start.alloc_many(n), e);
        lemma_none_outstanding(start.alloc_at(handle), e);
        lemma_none_outstanding(start.release(handle.id), e);
        if self.population() < u32::MAX {
            start.lemma_alloc_one();
            lemma_none_outstanding(start.alloc_one(), e);
        }
        let after = self.reserve(n);
        let list = self.reserve_list(n);
        self.lemma_reserve(n);
        if list.contains(e) {
            let k = list.index_of(e);
            assert(after.reserved(list[k]));
        }
        if self.reserved(e) {
            assert(after.contains(e));
            if (e.id as int) < self.generations.len() {
                let k = self.reserved_ids().index_of(e.id);
                let at = self.free_len() + k;
                assert(self.pending[at] == e.id);
                assert(after.reserved_ids()[at - after.free_len()] == e.id);
            }
        }
        if after.reserved(e) && !list.contains(e) {
            assert(self.contains(e));
            if (e.id as int) < self.generations.len() {
                let k = after.reserved_ids().index_of(e.id);
                let at = after.free_len() + k;
                assert(self.pending[at] == e.id);
                if at < self.free_len() {
                    assert(self.free()[at] == e.id);
                }
                assert(self.reserved_ids()[at - self.free_len()] == e.id);
            }
        }
    }

    /// Creating an entity uses an id that was used before wherever there is one, leaves the
    /// generation of every id alone, and starts new ids at generation zero.
    pub proof fn law_spawn_ids(self, id: int)
        requires
            self.wf(),
            self.is_flushed(),
            self.population() < u32::MAX,
        ensures
            self.population() < self.generations.len() ==> self.alloc_one().generations.len()
                == self.generations.len(),
            self.population() >= self.generations.len() ==> self.alloc_one().generations.len()
                == self.generations.len() + 1,
            (self.next().id as int) < self.alloc_one().generations.len(),
            self.next().generation == self.alloc_one().generations[self.next().id as int],
            0 <= id < self.generations.len() ==> self.alloc_one().generations[id]
                == self.generations[id],
            self.generations.len() <= id < self.alloc_one().generations.len()
                ==> self.alloc_one().generations[id] == 0,
    {
        if self.pending.len() > 0 {
            assert(self.pending[self.pending.len() - 1] < self.generations.len());
        }
    }

    /// Making reserved entities exist leaves the generation of every id alone and starts new ids
    /// at generation zero.
    pub proof fn law_flush_ids(self, id: int)
        requires
            self.wf(),
        ensures
            self.population() <= self.generations.len() ==> self.flushed().generations.len()
                == self.generations.len(),
            self.population() > self.generations.len() ==> self.flushed().generations.len()
                == self.population(),
            0 <= id < self.generations.len() ==> self.flushed().generations[id]
                == self.generations[id],
            self.generations.len() <= id < self.flushed().generations.len()
                ==> self.flushed().generations[id] == 0,
    {
    }

    /// Reserving changes the generation of no id.
    pub proof fn law_reserve_ids(self, n: int)
        ensures
            self.reserve(n).generations == self.generations,
            self.reserve(n).population() == self.population() + n,
    {
    }

    /// Destroying an entity steps the generation of its id, by one and around, and leaves the other
    /// ids alone.
    pub proof fn law_despawn_ids(self, e: Entity, id: int)
        requires
            self.wf(),
            self.is_flushed(),
            self.contains(e),
        ensures
            self.release(e.id).generations.len() == self.generations.len(),
            self.release(e.id).generations[e.id as int] as int == (e.generation + 1)
                % 0x1_0000_0000,
            0 <= id < self.generations.len() && id != e.id ==> self.release(e.id).generations[id]
                == self.generations[id],
    {
    }

    /// The id that was freed last is used first: creating an entity after one was destroyed leaves
    /// the ids that follow as they would have been.
    pub proof fn law_last_freed_first(self, e: Entity)
        requires
            self.wf(),
            self.is_flushed(),
            self.contains(e),
        ensures
            self.release(e.id).next().id == e.id,
            self.release(e.id).alloc_one().next() == self.next(),
            self.release(e.id).alloc_one().population() == self.population(),
    {
        assert(self.free() =~= self.pending);
        let again = self.release(e.id).alloc_one();
        assert(again.pending =~= self.pending);
        if self.pending.len() > 0 {
            let id = self.pending[self.pending.len() - 1];
            assert(id < self.generations.len());
            assert(self.pending.contains(id));
            assert(id != e.id);
        }
    }

    /// Creating an entity with a given handle gives its id the handle's generation, leaves the
    /// generation of the ids that were used alone, and starts the other new ids at zero. It needs
    /// room for one more entity unless its id is held.
    pub proof fn law_spawn_at_ids(self, e: Entity, id: int)
        requires
            self.is_flushed(),
        ensures
            self.alloc_at(e).is_flushed(),
            self.alloc_at(e).population() == self.population() + (if self.holds(e.id) {
                0int
            } else {
                1
            }),
            (e.id as int) < self.generations.len() ==> self.alloc_at(e).generations.len()
                == self.generations.len(),
            (e.id as int) >= self.generations.len() ==> self.alloc_at(e).generations.len() == e.id
                + 1,
            self.alloc_at(e).generations[e.id as int] == e.generation,
            0 <= id < self.generations.len() && id != e.id ==> self.alloc_at(e).generations[id]
                == self.generations[id],
            self.generations.len() <= id < e.id ==> self.alloc_at(e).generations[id] == 0,
    {
        if self.pending.contains(e.id) {
            assert(self.pending.len() > 0);
        }
    }

    /// Entities that are created one after another, with or without given handles, are created one
    /// at a time, in order.
    pub proof fn law_one_by_one(self, n: int, i: int, handles: Seq<Entity>, handle: Entity)
        requires
            0 <= n,
        ensures
            self.alloc_n(0) == self,
            self.alloc_n(n + 1) == self.alloc_n(n).alloc_one(),
            self.alloc_list(n).len() == n,
            0 <= i < n ==> self.alloc_list(n)[i] == self.alloc_n(i).next(),
            self.alloc_all_at(Seq::empty()) == self,
            self.alloc_all_at(handles.push(handle)) == self.alloc_all_at(handles).alloc_at(handle),
    {
        assert(handles.push(handle).drop_last() =~= handles);
    }

    /// The handles of a batch all differ.
    pub proof fn law_batch(self, n: int)
        requires
            self.wf(),
            self.is_flushed(),
            0 <= n,
            self.population() + n <= u32::MAX,
        ensures
            self.batch(n).len() == n,
            self.batch(n).no_duplicates(),
    {
        self.lemma_alloc_many(n);
        let ids = self.batch_ids(n);
        assert forall|i: int, j: int|
            0 <= i < n && 0 <= j < n && i != j implies self.batch(n)[i] != self.batch(n)[j] by {
            assert(self.batch(n)[i].id == ids[i] && self.batch(n)[j].id == ids[j]);
        }
    }

    /// The population is the number of live handles.
    pub proof fn law_population(self)
        requires
            self.wf(),
        ensures
            Set::new(|e: Entity| self.contains(e)).finite(),
            Set::new(|e: Entity| self.contains(e)).len() == self.population(),
    {
        let n = self.generations.len() + self.fresh();
        let free = self.free();
        let gone = free.map_values(|id: u32| id as int);
        let all = vstd::set_lib::set_int_range(0, n);
        let used = all.difference(gone.to_set());
        let live = Set::new(|e: Entity| self.contains(e));
        let f = |x: int| self.entity_at(x as u32);
        vstd::set_lib::lemma_int_range(0, n);
        assert forall|i: int| 0 <= i < free.len() implies (#[trigger] free[i] as int)
            < self.generations.len() by {
            assert(free[i] == self.pending[i]);
        }
        assert(gone.no_duplicates()) by {
            assert forall|i: int, j: int|
                0 <= i < gone.len() && 0 <= j < gone.len() && i != j implies gone[i] != gone[j] by {
                assert(self.pending[i] != self.pending[j]);
            }
        }
        gone.unique_seq_to_set();
        assert(gone.to_set().subset_of(all)) by {
            assert forall|x: int| gone.to_set().contains(x) implies all.contains(x) by {
                let k = gone.index_of(x);
                assert(free[k] as int == x);
            }
        }
        assert(used.len() == n - gone.len()) by {
            vstd::set_lib::lemma_set_disjoint_lens(used, gone.to_set());
            assert(used + gone.to_set() =~= all);
        }
        assert(n <= 0x1_0000_0000);
        assert forall|x: int, y: int|
            used.contains(x) && used.contains(y) && #[trigger] f(x) == #[trigger] f(y) implies x
            == y by {
            assert(f(x).id == x as u32 && f(y).id == y as u32);
        }
        assert(used.map(f) =~= live) by {
            assert forall|e: Entity| used.map(f).contains(e) == live.contains(e) by {
                if used.map(f).contains(e) {
                    let x = choose|x: int| used.contains(x) && f(x) == e;
                    let id = x as u32;
                    assert(e.id == id);
                    if free.contains(id) {
                        let k = free.index_of(id);
                        assert(gone[k] == x);
                        assert(gone.contains(x));
                    }
                }
                if live.contains(e) {
                    let x = e.id as int;
                    if gone.to_set().contains(x) {
                        let k = gone.index_of(x);
                        assert(free[k] == e.id);
                        assert(free.contains(e.id));
                    }
                    assert(used.contains(x));
                    assert(f(x) == e);
                }
            }
        }
        vstd::set_lib::lemma_map_size(used, live, f);
    }
}

/// Where nothing is outstanding no handle is reserved.
proof fn lemma_none_outstanding(ids: IdState, e: Entity)
    requires
        ids.is_flushed(),
    ensures
        !ids.reserved(e),
{
    assert(ids.reserved_ids() =~= Seq::empty());
}

/// The generation of an id steps by one each time, from the last to the first, so that no handle
/// comes back before every other generation was used.
pub proof fn law_next_generation(g: u32)
    ensures
        next_generation(g) as int == (g + 1) % 0x1_0000_0000,
        next_generation(g) != g,
{
}

/// The ids of the listed handles, in order.
pub proof fn law_entity_ids(handles: Seq<Entity>)
    ensures
        entity_ids(handles).len() == handles.len(),
        forall|i: int|
            #![trigger handles[i]]
            0 <= i < handles.len() ==> entity_ids(handles)[i] == handles[i].id,
{
}

/// A list of ids below `n` in which nothing occurs twice has at most `n` elements.
pub(crate) proof fn lemma_id_count(n: int, ids: Seq<u32>)
    requires
        0 <= n,
        ids.no_duplicates(),
        forall|i: int| 0 <= i < ids.len() ==> (#[trigger] ids[i] as int) < n,
    ensures
        ids.len() <= n,
{
    let all = ids.map_values(|id: u32| id as int);
    assert(all.no_duplicates());
    all.unique_seq_to_set();
    vstd::set_lib::lemma_int_range(0, n);
    assert(all.to_set().subset_of(vstd::set_lib::set_int_range(0, n)));
    vstd::set_lib::lemma_len_subset(all.to_set(), vstd::set_lib::set_int_range(0, n));
}

/// Where an id below `n` is not listed, fewer than `n` are.
pub(crate) proof fn lemma_room(n: int, ids: Seq<u32>, id: u32)
    requires
        id < n,
        ids.no_duplicates(),
        !ids.contains(id),
        forall|i: int| 0 <= i < ids.len() ==> (#[trigger] ids[i] as int) < n,
    ensures
        ids.len() < n,
{
    let more = ids.push(id);
    assert(more.no_duplicates());
    lemma_id_count(n, more);
}

/// Appends the ids from `start` up to but not including `end`.
fn push_range(v: &mut Vec<u32>, start: u32, end: u32)
    requires
        start <= end,
    ensures
        final(v)@ == old(v)@ + id_range(start as int, end as int),
{
    let ghost before = v@;
    assert(before =~= before + id_range(start as int, start as int));
    for id in start..end
        invariant
            start <= end,
            v@ == before + id_range(start as int, id as int),
    {
        v.push(id);
        assert(v@ =~= before + id_range(start as int, id + 1));
    }
}

/// The allocator.
pub struct Entities {
    meta: Vec<EntityMeta>,
    pending: Vec<u32>,
    free_cursor: i64,
    len: u32,
}

impl Entities {
    /// Which ids are in use.
    pub closed spec fn ids(&self) -> IdState {
        IdState {
            generations: self.meta@.map_values(|m: EntityMeta| m.generation),
            pending: self.pending@,
            cursor: self.free_cursor as int,
        }
    }

    /// Where the entity of each id is stored.
    pub closed spec fn locations(&self) -> Seq<Location> {
        self.meta@.map_values(|m: EntityMeta| m.location)
    }

    /// The number of entities that exist.
    pub closed spec fn count(&self) -> u32 {
        self.len
    }

    pub open spec fn wf(&self) -> bool {
        &&& self.ids().wf()
        &&& self.locations().len() == self.ids().generations.len()
        &&& self.count() == self.ids().generations.len() - self.ids().pending.len()
    }

    /// An id has no row exactly when it is pending or in `holes`.
    pub open spec fn located(&self, holes: Set<u32>) -> bool {
        forall|i: int|
            0 <= i < self.locations().len() ==> {
                let empty = self.ids().pending.contains(i as u32) || holes.contains(i as u32);
                if empty {
                    #[trigger] self.locations()[i] == nowhere()
                } else {
                    self.locations()[i].index != u32::MAX
                }
            }
    }

    pub(crate) fn new() -> (r: Entities)
        ensures
            r.wf(),
            r.ids() == IdState::initial(),
    {
        let r = Entities { meta: Vec::new(), pending: Vec::new(), free_cursor: 0, len: 0 };
        assert(r.ids().generations =~= Seq::empty());
        r
    }

    /// Reserve entity IDs
    pub(crate) fn reserve_entities(&mut self, count: u32) -> (r: Vec<Entity>)
        requires
            old(self).wf(),
            old(self).ids().population() + count <= u32::MAX,
        ensures
            final(self).wf(),
            final(self).ids() == old(self).ids().reserve(count as int),
            final(self).locations() == old(self).locations(),
            r@ == old(self).ids().reserve_list(count as int),
    {
        let ghost ids = self.ids();
        let range_end: i64 = self.free_cursor;
        assert(range_end <= self.pending.len());
        let range_start: i64 = range_end - count as i64;
        self.free_cursor = range_start;
        let mut r: Vec<Entity> = Vec::new();
        let first: usize = if range_start > 0 {
            range_start as usize
        } else {
            0
        };
        let last: usize = if range_end > 0 {
            range_end as usize
        } else {
            0
        };
        let ghost recycled = ids.pending.subrange(first as int, last as int).map_values(
            |id: u32| Entity { generation: ids.generations[id as int], id },
        );
        for i in first..last
            invariant
                first <= last <= self.pending@.len(),
                self.pending@ == ids.pending,
                ids.wf(),
                self.meta@.map_values(|m: EntityMeta| m.generation) == ids.generations,
                recycled == ids.pending.subrange(first as int, last as int).map_values(
                    |id: u32| Entity { generation: ids.generations[id as int], id },
                ),
                r@ == recycled.take(i - first),
        {
            let id = self.pending[i];
            assert(ids.pending[i as int] < ids.generations.len());
            assert(self.meta@.len() == ids.generations.len());
            r.push(Entity { generation: self.meta[id as usize].generation, id });
            assert(ids.generations[id as int] == self.meta@[id as int].generation);
            assert(r@ =~= recycled.take(i - first + 1));
        }
        assert(r@ =~= recycled);
        assert(self.meta@.len() == ids.generations.len());
        let base: i64 = self.meta.len() as i64;
        let new_id_start: i64 = if range_end < 0 {
            base - range_end
        } else {
            base
        };
        let new_id_end: i64 = if range_start < 0 {
            base - range_start
        } else {
            base
        };
        let ghost news = id_range(new_id_start as int, new_id_end as int).map_values(
            |id: u32| Entity { generation: 0, id },
        );
        let mut id: i64 = new_id_start;
        while id < new_id_end
            invariant
                0 <= new_id_start <= id <= new_id_end,
                new_id_start < new_id_end ==> new_id_end <= u32::MAX,
                news == id_range(new_id_start as int, new_id_end as int).map_values(
                    |id: u32| Entity { generation: 0, id },
                ),
                r@ == recycled + news.take(id - new_id_start),
            decreases new_id_end - id,
        {
            r.push(Entity { generation: 0, id: id as u32 });
            assert(r@ =~= recycled + news.take(id - new_id_start + 1));
            id = id + 1;
        }
        assert(r@ =~= recycled + news);
        r
    }

    /// Reserve one entity ID
    ///
    /// Equivalent to the first of `self.reserve_entities(1)`, but more efficient.
    pub(crate) fn reserve_entity(&mut self) -> (r: Entity)
        requires
            old(self).wf(),
            old(self).ids().population() < u32::MAX,
        ensures
            final(self).wf(),
            final(self).ids() == old(self).ids().reserve(1),
            final(self).locations() == old(self).locations(),
            seq![r] == old(self).ids().reserve_list(1),
    {
        let ghost ids = self.ids();
        let n: i64 = self.free_cursor;
        self.free_cursor = n - 1;
        if n > 0 {
            let id = self.pending[(n - 1) as usize];
            assert(ids.pending[n - 1] < ids.generations.len());
            let r = Entity { generation: self.meta[id as usize].generation, id };
            assert(seq![r] =~= ids.reserve_list(1));
            r
        } else {
            let r = Entity { generation: 0, id: (self.meta.len() as i64 - n) as u32 };
            assert(seq![r] =~= ids.reserve_list(1));
            r
        }
    }

    /// Allocate an entity ID directly
    ///
    /// Location should be written immediately.
    pub(crate) fn alloc_one(&mut self) -> (r: Entity)
        requires
            old(self).wf(),
            old(self).ids().is_flushed(),
            old(self).ids().population() < u32::MAX,
        ensures
            final(self).wf(),
            r == old(self).ids().next(),
            final(self).ids() == old(self).ids().alloc_one(),
            final(self).locations() == (if old(self).ids().pending.len() > 0 {
                old(self).locations()
            } else {
                old(self).locations().push(nowhere())
            }),
    {
        let ghost ids = self.ids();
        let ghost locations = self.locations();
        self.len = self.len + 1;
        match self.pending.pop() {
            Some(id) => {
                self.free_cursor = self.pending.len() as i64;
                proof {
                    assert(ids.pending[ids.pending.len() - 1] < ids.generations.len());
                    assert(self.ids().pending =~= ids.pending.drop_last());
                    assert(self.ids().generations =~= ids.generations);
                    assert(self.ids() == ids.alloc_one());
                }
                Entity { generation: self.meta[id as usize].generation, id }
            },
            None => {
                let id = self.meta.len() as u32;
                self.meta.push(EntityMeta::empty());
                proof {
                    assert(self.ids().generations =~= ids.generations.push(0));
                    assert(self.locations() =~= locations.push(nowhere()));
                }
                Entity { generation: 0, id }
            },
        }
    }

    /// Adds ids that hold no entity, up to but not including `end`
    fn grow(&mut self, end: u32)
        requires
            old(self).meta@.len() <= end,
        ensures
            final(self).meta@.len() == end,
            final(self).ids().generations == old(self).ids().generations + zeros(
                end - old(self).meta@.len(),
            ),
            final(self).locations() == old(self).locations() + nowheres(
                end - old(self).meta@.len(),
            ),
            final(self).pending == old(self).pending,
            final(self).free_cursor == old(self).free_cursor,
            final(self).len == old(self).len,
    {
        let ghost generations = self.ids().generations;
        let ghost locations = self.locations();
        let ghost base = self.meta@.len() as int;
        assert(generations =~= generations + zeros(0));
        assert(locations =~= locations + nowheres(0));
        while self.meta.len() < end as usize
            invariant
                base <= self.meta@.len() <= end,
                generations.len() == base,
                locations.len() == base,
                self.ids().generations == generations + zeros(self.meta@.len() - base),
                self.locations() == locations + nowheres(self.meta@.len() - base),
                self.pending == old(self).pending,
                self.free_cursor == old(self).free_cursor,
                self.len == old(self).len,
            decreases end - self.meta@.len(),
        {
            let ghost n = self.meta@.len() - base;
            let ghost before = self.ids().generations;
            let ghost places = self.locations();
            self.meta.push(EntityMeta::empty());
            proof {
                assert(self.ids().generations =~= before.push(0));
                assert(self.locations() =~= places.push(nowhere()));
                assert(zeros(n + 1) =~= zeros(n).push(0));
                assert(nowheres(n + 1) =~= nowheres(n).push(nowhere()));
                assert(self.ids().generations =~= generations + zeros(n + 1));
                assert(self.locations() =~= locations + nowheres(n + 1));
            }
        }
    }

    /// Allocate many entity IDs
    ///
    /// Locations should be written immediately.
    pub(crate) fn alloc_many(&mut self, n: u32) -> (r: Vec<u32>)
        requires
            old(self).wf(),
            old(self).ids().is_flushed(),
            old(self).ids().population() + n <= u32::MAX,
        ensures
            final(self).wf(),
            r@ == old(self).ids().batch_ids(n as int),
            final(self).ids() == old(self).ids().alloc_many(n as int),
            final(self).locations() == old(self).locations() + nowheres(
                n - old(self).ids().recycled(n as int),
            ),
    {
        let ghost ids = self.ids();
        let ghost locations = self.locations();
        let recycled: usize = if (n as usize) < self.pending.len() {
            n as usize
        } else {
            self.pending.len()
        };
        let fresh: u32 = n - recycled as u32;
        let pending_end: usize = self.pending.len() - recycled;
        let mut r: Vec<u32> = self.pending.split_off(pending_end);
        self.free_cursor = self.pending.len() as i64;
        assert(r@ =~= ids.pending.skip(pending_end as int));
        let start: usize = self.meta.len();
        assert(start == ids.generations.len());
        if fresh > 0 {
            self.grow(start as u32 + fresh);
            push_range(&mut r, start as u32, start as u32 + fresh);
        }
        assert(r@ =~= ids.batch_ids(n as int));
        self.len = self.len + n;
        proof {
            assert(self.ids().pending =~= ids.alloc_many(n as int).pending);
            assert(self.ids() == ids.alloc_many(n as int));
            assert forall|k: int| 0 <= k < self.ids().pending.len() implies (
            #[trigger] self.ids().pending[k] as int) < self.ids().generations.len() by {
                assert(self.ids().pending[k] == ids.pending[k]);
            }
        }
        r
    }

    /// Allocate a specific entity ID, overwriting its generation
    ///
    /// Returns the location of the entity currently using the given ID, if any. Location should
    /// be written immediately.
    pub(crate) fn alloc_at(&mut self, entity: Entity) -> (r: Option<Location>)
        requires
            old(self).wf(),
            old(self).ids().is_flushed(),
            old(self).ids().alloc_at(entity).population() <= u32::MAX,
        ensures
            final(self).wf(),
            final(self).ids() == old(self).ids().alloc_at(entity),
            r == (if old(self).ids().holds(entity.id) {
                Some(old(self).locations()[entity.id as int])
            } else {
                None
            }),
            final(self).locations() == (if old(self).ids().holds(entity.id) {
                old(self).locations().update(entity.id as int, nowhere())
            } else if entity.id < old(self).locations().len() {
                old(self).locations()
            } else {
                old(self).locations() + nowheres(entity.id + 1 - old(self).locations().len())
            }),
    {
        let ghost ids = self.ids();
        let ghost locations = self.locations();
        let ghost after = ids.alloc_at(entity);
        if entity.id as usize >= self.meta.len() {
            let ghost base = ids.generations.len() as int;
            let start: usize = self.meta.len();
            assert(start == base);
            self.grow(entity.id);
            push_range(&mut self.pending, start as u32, entity.id);
            let ghost places = self.locations();
            self.free_cursor = self.pending.len() as i64;
            self.meta.push(
                EntityMeta {
                    generation: entity.generation,
                    location: Location { archetype: 0, index: u32::MAX },
                },
            );
            self.len = self.len + 1;
            proof {
                assert(self.ids().generations =~= after.generations);
                assert(self.ids().pending =~= after.pending);
                assert(self.ids() == after);
                assert(self.locations() =~= places.push(nowhere()));
                assert(places.push(nowhere()) =~= locations + nowheres(entity.id + 1 - base));
                assert(after.pending.no_duplicates());
            }
            return None;
        }
        let position = self.find_pending(entity.id);
        let meta = self.meta[entity.id as usize];
        match position {
            Some(index) => {
                self.pending.swap_remove(index);
                self.free_cursor = self.pending.len() as i64;
                self.len = self.len + 1;
                self.meta[entity.id as usize] = EntityMeta {
                    generation: entity.generation,
                    location: meta.location,
                };
                proof {
                    assert(ids.pending.contains(entity.id));
                    assert(self.ids().generations =~= after.generations);
                    assert(self.ids().pending =~= after.pending);
                    assert(self.locations() =~= locations);
                    assert forall|k: int| 0 <= k < after.pending.len() implies (
                    #[trigger] after.pending[k] as int) < after.generations.len() by {
                        assert(ids.pending[k] < ids.generations.len());
                        assert(ids.pending[ids.pending.len() - 1] < ids.generations.len());
                    }
                }
                None
            },
            None => {
                self.meta[entity.id as usize] = EntityMeta {
                    generation: entity.generation,
                    location: Location { archetype: 0, index: u32::MAX },
                };
                proof {
                    assert(self.ids().generations =~= after.generations);
                    assert(self.locations() =~= locations.update(entity.id as int, nowhere()));
                }
                Some(meta.location)
            },
        }
    }

    /// The position of an id in the list of pending ids
    fn find_pending(&self, id: u32) -> (r: Option<usize>)
        requires
            self.wf(),
        ensures
            match r {
                Some(i) => i < self.pending@.len() && self.pending@[i as int] == id
                    && self.pending@.contains(id) && self.pending@.index_of(id) == i,
                None => !self.pending@.contains(id),
            },
    {
        let mut i: usize = 0;
        while i < self.pending.len()
            invariant
                self.wf(),
                i <= self.pending@.len(),
                forall|k: int| 0 <= k < i ==> self.pending@[k] != id,
            decreases self.pending@.len() - i,
        {
            if self.pending[i] == id {
                proof {
                    assert(self.ids().pending.no_duplicates());
                    assert(self.pending@.contains(id));
                    let j = self.pending@.index_of(id);
                    assert(self.pending@[j] == id);
                }
                return Some(i);
            }
            i = i + 1;
        }
        None
    }

    /// Destroy an entity, allowing its id to be reused
    ///
    /// Returns where the entity was stored.
    pub(crate) fn free(&mut self, entity: Entity) -> (r: Result<Location, NoSuchEntity>)
        requires
            old(self).wf(),
            old(self).ids().is_flushed(),
            old(self).located(Set::empty()),
        ensures
            final(self).wf(),
            r == (if old(self).ids().contains(entity) {
                Ok(old(self).locations()[entity.id as int])
            } else {
                Err(NoSuchEntity)
            }),
            r is Err ==> *final(self) == *old(self),
            r is Ok ==> final(self).ids() == old(self).ids().release(entity.id),
            r is Ok ==> final(self).locations() == old(self).locations().update(
                entity.id as int,
                nowhere(),
            ),
    {
        let ghost ids = self.ids();
        let ghost locations = self.locations();
        if !self.contains(entity) {
            return Err(NoSuchEntity);
        }
        assert(ids.pending =~= ids.free());
        let meta = self.meta[entity.id as usize];
        assert(ids.generations[entity.id as int] == meta.generation);
        let generation = if meta.generation == u32::MAX {
            0
        } else {
            meta.generation + 1
        };
        self.meta[entity.id as usize] = EntityMeta {
            generation,
            location: Location { archetype: 0, index: u32::MAX },
        };
        proof {
            lemma_room(ids.generations.len() as int, ids.pending, entity.id);
        }
        self.pending.push(entity.id);
        self.free_cursor = self.pending.len() as i64;
        self.len = self.len - 1;
        proof {
            let after = ids.release(entity.id);
            assert(self.ids().generations =~= after.generations);
            assert(self.ids().pending =~= after.pending);
            assert(self.locations() =~= locations.update(entity.id as int, nowhere()));
        }
        Ok(meta.location)
    }

    /// Ensure at least `additional` allocations can succeed without reallocating
    ///
    /// Which ids are in use does not change. The storage that is set aside is up to the allocator,
    /// and the contract leaves it open.
    pub(crate) fn reserve(&mut self, additional: u32)
        requires
            old(self).wf(),
            old(self).ids().is_flushed(),
        ensures
            final(self).wf(),
            final(self).ids() == old(self).ids(),
            final(self).locations() == old(self).locations(),
    {
        let shortfall: i64 = additional as i64 - self.free_cursor;
        if shortfall > 0 {
            self.meta.reserve(shortfall as usize);
        }
    }

    /// Whether `entity` exists or is reserved
    pub(crate) fn contains(&self, entity: Entity) -> (r: bool)
        requires
            self.wf(),
            self.located(Set::empty()),
        ensures
            r == self.ids().contains(entity),
    {
        let ghost ids = self.ids();
        if (entity.id as usize) < self.meta.len() {
            let meta = self.meta[entity.id as usize];
            assert(ids.generations[entity.id as int] == meta.generation);
            assert(self.locations()[entity.id as int] == meta.location);
            if meta.generation != entity.generation {
                return false;
            }
            if meta.location.index != u32::MAX {
                assert(!ids.free().contains(entity.id));
                return true;
            }
            let start: usize = if self.free_cursor > 0 {
                self.free_cursor as usize
            } else {
                0
            };
            match self.find_pending(entity.id) {
                Some(i) => {
                    proof {
                        if i < start {
                            assert(ids.free()[i as int] == entity.id);
                        } else {
                            assert(!ids.free().contains(entity.id)) by {
                                if ids.free().contains(entity.id) {
                                    let k = ids.free().index_of(entity.id);
                                    assert(ids.pending[k] == entity.id);
                                    assert(ids.pending[i as int] == entity.id);
                                }
                            }
                        }
                    }
                    i >= start
                },
                None => false,
            }
        } else {
            // Check if this could have been obtained from `reserve_entity`
            entity.generation == 0 && (entity.id as i64) < self.meta.len() as i64 - self.free_cursor
        }
    }

    /// The location of an entity; `nowhere` for a reserved one
    pub(crate) fn get(&self, entity: Entity) -> (r: Result<Location, NoSuchEntity>)
        requires
            self.wf(),
            self.located(Set::empty()),
        ensures
            r is Ok <==> self.ids().contains(entity),
            r matches Ok(location) ==> location == (if entity.id < self.locations().len() {
                self.locations()[entity.id as int]
            } else {
                nowhere()
            }),
    {
        if !self.contains(entity) {
            return Err(NoSuchEntity);
        }
        if (entity.id as usize) < self.meta.len() {
            Ok(self.meta[entity.id as usize].location)
        } else {
            Ok(Location { archetype: 0, index: u32::MAX })
        }
    }

    /// Write the location of the entity with this id
    pub(crate) fn set_location(&mut self, id: u32, location: Location)
        requires
            old(self).wf(),
            id < old(self).locations().len(),
        ensures
            final(self).wf(),
            final(self).ids() == old(self).ids(),
            final(self).locations() == old(self).locations().update(id as int, location),
    {
        let ghost ids = self.ids();
        let ghost locations = self.locations();
        let generation = self.meta[id as usize].generation;
        self.meta[id as usize] = EntityMeta { generation, location };
        assert(self.ids().generations =~= ids.generations);
        assert(self.locations() =~= locations.update(id as int, location));
    }

    /// The generation of an id that was allocated
    pub(crate) fn generation(&self, id: u32) -> (r: u32)
        requires
            id < self.ids().generations.len(),
        ensures
            r == self.ids().generations[id as int],
    {
        self.meta[id as usize].generation
    }

    /// The entity that has this id
    pub(crate) fn resolve_unknown_gen(&self, id: u32) -> (r: Entity)
        ensures
            r == self.ids().entity_at(id),
    {
        if (id as usize) < self.meta.len() {
            Entity { generation: self.meta[id as usize].generation, id }
        } else {
            Entity { generation: 0, id }
        }
    }

    /// Forget all entities
    pub(crate) fn clear(&mut self)
        ensures
            final(self).wf(),
            final(self).ids() == IdState::initial(),
    {
        self.meta.clear();
        self.pending.clear();
        self.free_cursor = 0;
        self.len = 0;
        assert(self.ids().generations =~= Seq::empty());
    }

    /// Allocates space for the reserved entities
    ///
    /// Returns their ids. Their locations should be written immediately.
    pub(crate) fn flush(&mut self) -> (r: Vec<u32>)
        requires
            old(self).wf(),
        ensures
            final(self).wf(),
            final(self).ids() == old(self).ids().flushed(),
            r@ == old(self).ids().flush_ids(),
            final(self).locations() == old(self).locations() + nowheres(old(self).ids().fresh()),
    {
        let ghost ids = self.ids();
        let ghost locations = self.locations();
        let ghost base = ids.generations.len() as int;
        let mut r: Vec<u32> = Vec::new();
        let fresh: u32 = if self.free_cursor < 0 {
            (-self.free_cursor) as u32
        } else {
            0
        };
        let keep: usize = if self.free_cursor > 0 {
            assert(self.free_cursor <= self.pending.len());
            self.free_cursor as usize
        } else {
            0
        };
        let start: usize = self.meta.len();
        assert(start == ids.generations.len());
        if fresh > 0 {
            self.grow(start as u32 + fresh);
            push_range(&mut r, start as u32, start as u32 + fresh);
        }
        assert(r@ =~= id_range(base, base + fresh));
        let mut reserved: Vec<u32> = self.pending.split_off(keep);
        self.free_cursor = keep as i64;
        let reserved_len: u32 = reserved.len() as u32;
        self.len = self.len + fresh + reserved_len;
        r.append(&mut reserved);
        proof {
            let after = ids.flushed();
            assert(self.ids().pending =~= after.pending);
            assert(self.ids() == after);
            assert(r@ =~= ids.flush_ids());
            assert forall|k: int| 0 <= k < after.pending.len() implies (
            #[trigger] after.pending[k] as int) < after.generations.len() by {
                assert(after.pending[k] == ids.pending[k]);
            }
        }
        r
    }

    /// How many more entities there can be
    pub(crate) fn room(&self) -> (r: u32)
        requires
            self.wf(),
        ensures
            r == u32::MAX - self.ids().population(),
    {
        assert(self.meta@.len() == self.ids().generations.len());
        assert(self.pending@.len() == self.ids().pending.len());
        proof {
            lemma_id_count(self.ids().generations.len() as int, self.ids().pending);
        }
        (u32::MAX as i64 - (self.meta.len() as i64 - self.free_cursor)) as u32
    }

    /// Number of entities that exist
    pub(crate) fn len(&self) -> (r: u32)
        ensures
            r == self.count(),
    {
        self.len
    }
}

} // verus!
