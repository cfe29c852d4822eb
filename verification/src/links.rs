//! How ids and rows point at each other.
//!
//! Each id that holds an entity knows its row, and each row knows its id. Between two steps of an
//! operation some ids may lack their row (`holes`), and one row may lack its id (`stray`).
use crate::archetype::Table;
use crate::entities::{lemma_id_count, nowhere, nowheres, Location};
use vstd::prelude::*;

verus! {

/// Row `r` of archetype `a`.
pub open spec fn at(a: int, r: int) -> Location {
    Location { archetype: a as u32, index: r as u32 }
}

pub open spec fn row_exists<C>(tables: Seq<Table<C>>, location: Location) -> bool {
    &&& (location.archetype as int) < tables.len()
    &&& (location.index as int) < tables[location.archetype as int].ids.len()
}

/// The id has no row.
pub open spec fn vacant(pending: Seq<u32>, holes: Set<u32>, id: int) -> bool {
    pending.contains(id as u32) || holes.contains(id as u32)
}

pub open spec fn tables_wf<C>(tables: Seq<Table<C>>) -> bool {
    &&& tables.len() <= u32::MAX
    &&& forall|a: int| 0 <= a < tables.len() ==> (#[trigger] tables[a]).wf()
}

/// Every row but the stray one is the place of the id it holds.
pub open spec fn rows_linked<C>(
    locations: Seq<Location>,
    tables: Seq<Table<C>>,
    stray: Option<Location>,
) -> bool {
    forall|a: int, r: int|
        #![trigger tables[a].ids[r]]
        0 <= a < tables.len() && 0 <= r < tables[a].ids.len() && stray != Some(at(a, r)) ==> {
            &&& (tables[a].ids[r] as int) < locations.len()
            &&& locations[tables[a].ids[r] as int] == at(a, r)
        }
}

/// Every id that is not vacant has a row that holds it.
pub open spec fn ids_linked<C>(
    pending: Seq<u32>,
    locations: Seq<Location>,
    tables: Seq<Table<C>>,
    holes: Set<u32>,
    stray: Option<Location>,
) -> bool {
    forall|i: int|
        #![trigger locations[i]]
        0 <= i < locations.len() ==> if vacant(pending, holes, i) {
            locations[i] == nowhere()
        } else {
            &&& row_exists(tables, locations[i])
            &&& tables[locations[i].archetype as int].ids[locations[i].index as int] == i
            &&& stray != Some(locations[i])
        }
}

pub open spec fn linked<C>(
    pending: Seq<u32>,
    locations: Seq<Location>,
    tables: Seq<Table<C>>,
    holes: Set<u32>,
    stray: Option<Location>,
) -> bool {
    &&& locations.len() <= 0x1_0000_0000
    &&& tables_wf(tables)
    &&& rows_linked(locations, tables, stray)
    &&& ids_linked(pending, locations, tables, holes, stray)
}

/// The components of the entity with this id; none where it has no row.
pub open spec fn components_at<C>(
    locations: Seq<Location>,
    tables: Seq<Table<C>>,
    id: int,
) -> Map<u64, C> {
    if 0 <= id < locations.len() && locations[id].index != u32::MAX {
        tables[locations[id].archetype as int].rows[locations[id].index as int]
    } else {
        Map::empty()
    }
}

/// The same ids have no row, whichever way they are listed; more ids without a row may follow.
pub(crate) proof fn lemma_relabel<C>(
    pending: Seq<u32>,
    locations: Seq<Location>,
    tables: Seq<Table<C>>,
    holes: Set<u32>,
    n: int,
    pending2: Seq<u32>,
    holes2: Set<u32>,
)
    requires
        linked(pending, locations, tables, holes, None),
        0 <= n,
        locations.len() + n <= 0x1_0000_0000,
        forall|i: int|
            0 <= i < locations.len() ==> vacant(pending2, holes2, i) == #[trigger] vacant(
                pending,
                holes,
                i,
            ),
        forall|i: int|
            locations.len() <= i < locations.len() + n ==> #[trigger] vacant(pending2, holes2, i),
    ensures
        linked(pending2, locations + nowheres(n), tables, holes2, None),
        forall|i: int|
            components_at(locations + nowheres(n), tables, i) == #[trigger] components_at(
                locations,
                tables,
                i,
            ),
{
    let after = locations + nowheres(n);
    assert forall|i: int| 0 <= i < after.len() implies if vacant(pending2, holes2, i) {
        #[trigger] after[i] == nowhere()
    } else {
        &&& row_exists(tables, after[i])
        &&& tables[after[i].archetype as int].ids[after[i].index as int] == i
    } by {
        if i < locations.len() {
            assert(after[i] == locations[i]);
            assert(vacant(pending2, holes2, i) == vacant(pending, holes, i));
        } else {
            assert(vacant(pending2, holes2, i));
        }
    }
    assert forall|a: int, r: int|
        #![trigger tables[a].ids[r]]
        0 <= a < tables.len() && 0 <= r < tables[a].ids.len() implies {
        &&& (tables[a].ids[r] as int) < after.len()
        &&& after[tables[a].ids[r] as int] == at(a, r)
    } by {
        assert((tables[a].ids[r] as int) < locations.len());
    }
}

/// One more archetype, without rows.
pub(crate) proof fn lemma_new_table<C>(
    pending: Seq<u32>,
    locations: Seq<Location>,
    tables: Seq<Table<C>>,
    holes: Set<u32>,
    table: Table<C>,
)
    requires
        linked(pending, locations, tables, holes, None),
        tables.len() < u32::MAX,
        table.wf(),
        table.ids.len() == 0,
    ensures
        linked(pending, locations, tables.push(table), holes, None),
        forall|i: int|
            components_at(locations, tables.push(table), i) == #[trigger] components_at(
                locations,
                tables,
                i,
            ),
{
    let after = tables.push(table);
    assert forall|a: int| 0 <= a < after.len() implies (#[trigger] after[a]).wf() by {
        if a < tables.len() {
            assert(after[a] == tables[a]);
        }
    }
    assert forall|a: int, r: int|
        #![trigger after[a].ids[r]]
        0 <= a < after.len() && 0 <= r < after[a].ids.len() implies {
        &&& (after[a].ids[r] as int) < locations.len()
        &&& locations[after[a].ids[r] as int] == at(a, r)
    } by {
        assert(after[a] == tables[a]);
        assert((tables[a].ids[r] as int) < locations.len());
    }
    assert forall|i: int| components_at(locations, after, i) == #[trigger] components_at(
        locations,
        tables,
        i,
    ) by {
        if 0 <= i < locations.len() {
            assert(vacant(pending, holes, i) || row_exists(tables, locations[i]));
        }
    }
}

/// Rows for ids that have none.
pub(crate) proof fn lemma_fill<C>(
    pending: Seq<u32>,
    locations: Seq<Location>,
    tables: Seq<Table<C>>,
    holes: Set<u32>,
    a: int,
    added: Table<C>,
    locations2: Seq<Location>,
)
    requires
        linked(pending, locations, tables, holes, None),
        0 <= a < tables.len(),
        tables[a].append(added).wf(),
        added.ids.len() == added.rows.len(),
        added.ids.no_duplicates(),
        forall|k: int|
            #![trigger added.ids[k]]
            0 <= k < added.ids.len() ==> (added.ids[k] as int) < locations.len() && holes.contains(
                added.ids[k],
            ) && !pending.contains(added.ids[k]),
        locations2.len() == locations.len(),
        forall|k: int|
            #![trigger added.ids[k]]
            0 <= k < added.ids.len() ==> locations2[added.ids[k] as int] == at(
                a,
                tables[a].ids.len() + k,
            ),
        forall|i: int|
            #![trigger locations2[i]]
            0 <= i < locations.len() && !added.ids.contains(i as u32) ==> locations2[i]
                == locations[i],
    ensures
        linked(
            pending,
            locations2,
            tables.update(a, tables[a].append(added)),
            holes.difference(added.ids.to_set()),
            None,
        ),
        forall|k: int|
            #![trigger added.ids[k]]
            0 <= k < added.ids.len() ==> components_at(
                locations2,
                tables.update(a, tables[a].append(added)),
                added.ids[k] as int,
            ) == added.rows[k],
        forall|i: int|
            !added.ids.contains(i as u32) ==> components_at(
                locations2,
                tables.update(a, tables[a].append(added)),
                i,
            ) == #[trigger] components_at(locations, tables, i),
{
    let table = tables[a].append(added);
    let after = tables.update(a, table);
    let base = tables[a].ids.len() as int;
    let rest = holes.difference(added.ids.to_set());
    assert(table.ids.len() == base + added.ids.len());
    assert forall|b: int| 0 <= b < after.len() implies (#[trigger] after[b]).wf() by {
        if b != a {
            assert(after[b] == tables[b]);
        }
    }
    assert forall|b: int, r: int|
        #![trigger after[b].ids[r]]
        0 <= b < after.len() && 0 <= r < after[b].ids.len() implies {
        &&& (after[b].ids[r] as int) < locations2.len()
        &&& locations2[after[b].ids[r] as int] == at(b, r)
    } by {
        if b == a && r >= base {
            let k = r - base;
            assert(after[b].ids[r] == added.ids[k]);
        } else {
            assert(after[b].ids[r] == tables[b].ids[r]);
            let id = tables[b].ids[r];
            assert((id as int) < locations.len() && locations[id as int] == at(b, r));
            assert(tables[b].wf());
            assert(!vacant(pending, holes, id as int)) by {
                assert(r < u32::MAX);
                assert(at(b, r).index == r);
            }
            if added.ids.contains(id) {
                let k = added.ids.index_of(id);
                assert(added.ids[k] == id);
            }
            assert(locations2[id as int] == locations[id as int]);
        }
    }
    assert forall|i: int| 0 <= i < locations2.len() implies if vacant(pending, rest, i) {
        #[trigger] locations2[i] == nowhere()
    } else {
        &&& row_exists(after, locations2[i])
        &&& after[locations2[i].archetype as int].ids[locations2[i].index as int] == i
    } by {
        if added.ids.contains(i as u32) {
            let k = added.ids.index_of(i as u32);
            assert(added.ids[k] == i as u32);
            assert(locations2[i] == at(a, base + k));
            assert(table.ids[base + k] == added.ids[k]);
        } else {
            assert(locations2[i] == locations[i]);
            assert(vacant(pending, rest, i) == vacant(pending, holes, i));
            if !vacant(pending, holes, i) {
                let l = locations[i];
                assert(row_exists(tables, l));
                assert(after[l.archetype as int].ids[l.index as int]
                    == tables[l.archetype as int].ids[l.index as int]);
            }
        }
    }
    assert forall|k: int|
        #![trigger added.ids[k]]
        0 <= k < added.ids.len() implies components_at(locations2, after, added.ids[k] as int)
        == added.rows[k] by {
        assert(table.rows[base + k] == added.rows[k]) by {
            assert(tables[a].wf());
        }
        assert(locations2[added.ids[k] as int] == at(a, base + k));
        assert(base + k < u32::MAX);
    }
    assert forall|i: int| !added.ids.contains(i as u32) implies components_at(locations2, after, i)
        == #[trigger] components_at(locations, tables, i) by {
        if 0 <= i < locations.len() {
            assert(locations2[i] == locations[i]);
            if !vacant(pending, holes, i) {
                assert(row_exists(tables, locations[i]));
                assert(tables[locations[i].archetype as int].wf());
            }
        }
    }
}

/// An id gives up its row, which is then stray.
pub(crate) proof fn lemma_detach<C>(
    pending: Seq<u32>,
    locations: Seq<Location>,
    tables: Seq<Table<C>>,
    holes: Set<u32>,
    id: u32,
    pending2: Seq<u32>,
    holes2: Set<u32>,
)
    requires
        linked(pending, locations, tables, holes, None),
        (id as int) < locations.len(),
        !vacant(pending, holes, id as int),
        forall|i: int|
            0 <= i < locations.len() ==> #[trigger] vacant(pending2, holes2, i) == (vacant(
                pending,
                holes,
                i,
            ) || i == id),
    ensures
        row_exists(tables, locations[id as int]),
        linked(
            pending2,
            locations.update(id as int, nowhere()),
            tables,
            holes2,
            Some(locations[id as int]),
        ),
        forall|i: int|
            i != id ==> components_at(locations.update(id as int, nowhere()), tables, i)
                == #[trigger] components_at(locations, tables, i),
{
    let l = locations[id as int];
    let after = locations.update(id as int, nowhere());
    assert(row_exists(tables, l));
    assert(tables[l.archetype as int].ids[l.index as int] == id);
    assert forall|a: int, r: int|
        #![trigger tables[a].ids[r]]
        0 <= a < tables.len() && 0 <= r < tables[a].ids.len() && Some(l) != Some(at(a, r)) implies {
        &&& (tables[a].ids[r] as int) < after.len()
        &&& after[tables[a].ids[r] as int] == at(a, r)
    } by {
        let other = tables[a].ids[r];
        assert((other as int) < locations.len() && locations[other as int] == at(a, r));
        assert(other != id);
    }
    assert forall|i: int| 0 <= i < after.len() implies if vacant(pending2, holes2, i) {
        #[trigger] after[i] == nowhere()
    } else {
        &&& row_exists(tables, after[i])
        &&& tables[after[i].archetype as int].ids[after[i].index as int] == i
        &&& Some(l) != Some(after[i])
    } by {
        assert(vacant(pending2, holes2, i) == (vacant(pending, holes, i) || i == id));
        if i != id {
            assert(after[i] == locations[i]);
        }
    }
}

/// The stray row goes; the last row of its archetype takes its place.
pub(crate) proof fn lemma_unlink<C>(
    pending: Seq<u32>,
    locations: Seq<Location>,
    tables: Seq<Table<C>>,
    holes: Set<u32>,
    l: Location,
    locations2: Seq<Location>,
)
    requires
        linked(pending, locations, tables, holes, Some(l)),
        row_exists(tables, l),
        locations2 == (if l.index == tables[l.archetype as int].ids.len() - 1 {
            locations
        } else {
            locations.update(tables[l.archetype as int].ids.last() as int, l)
        }),
    ensures
        l.index < tables[l.archetype as int].ids.len() - 1 ==> {
            let last = tables[l.archetype as int].ids.last() as int;
            last < locations.len() && locations[last] == at(
                l.archetype as int,
                tables[l.archetype as int].ids.len() - 1,
            )
        },
        linked(
            pending,
            locations2,
            tables.update(
                l.archetype as int,
                tables[l.archetype as int].swap_remove(l.index as int),
            ),
            holes,
            None,
        ),
        forall|i: int|
            components_at(
                locations2,
                tables.update(
                    l.archetype as int,
                    tables[l.archetype as int].swap_remove(l.index as int),
                ),
                i,
            ) == #[trigger] components_at(locations, tables, i),
{
    let a = l.archetype as int;
    let r = l.index as int;
    let table = tables[a].swap_remove(r);
    let after = tables.update(a, table);
    let last = tables[a].ids.len() - 1;
    let moved = tables[a].ids[last];
    assert(tables[a].wf());
    assert(l == at(a, r));
    if r < last {
        assert(at(a, last) != l);
        assert((moved as int) < locations.len() && locations[moved as int] == at(a, last));
    }
    assert(table.wf()) by {
        assert forall|k: int| 0 <= k < table.rows.len() implies (#[trigger] table.rows[k]).dom()
            == table.types.to_set() by {
            if k == r {
                assert(table.rows[k] == tables[a].rows[last]);
            } else {
                assert(table.rows[k] == tables[a].rows[k]);
            }
        }
    }
    assert forall|b: int| 0 <= b < after.len() implies (#[trigger] after[b]).wf() by {
        if b != a {
            assert(after[b] == tables[b]);
        }
    }
    assert forall|b: int, k: int|
        #![trigger after[b].ids[k]]
        0 <= b < after.len() && 0 <= k < after[b].ids.len() implies {
        &&& (after[b].ids[k] as int) < locations2.len()
        &&& locations2[after[b].ids[k] as int] == at(b, k)
    } by {
        if b == a && k == r {
            assert(after[b].ids[k] == moved);
        } else {
            assert(after[b].ids[k] == tables[b].ids[k]);
            assert(at(b, k) != l);
            let id = tables[b].ids[k];
            assert((id as int) < locations.len() && locations[id as int] == at(b, k));
            if r < last {
                assert(id != moved) by {
                    assert(at(b, k) != at(a, last));
                }
            }
        }
    }
    assert forall|i: int| 0 <= i < locations2.len() implies if vacant(pending, holes, i) {
        #[trigger] locations2[i] == nowhere()
    } else {
        &&& row_exists(after, locations2[i])
        &&& after[locations2[i].archetype as int].ids[locations2[i].index as int] == i
    } by {
        if r < last && i == moved {
            assert(locations[i] == at(a, last));
            assert(locations[i] != nowhere());
            assert(locations2[i] == l);
        } else {
            assert(locations2[i] == locations[i]);
            if !vacant(pending, holes, i) {
                let m = locations[i];
                assert(row_exists(tables, m));
                assert(m != l);
                assert(tables[m.archetype as int].ids[m.index as int] == i);
                if m.archetype == a {
                    assert(m.index != r);
                    if m.index == last {
                        assert(i == moved);
                    }
                }
            }
        }
    }
    assert forall|i: int| components_at(locations2, after, i) == #[trigger] components_at(
        locations,
        tables,
        i,
    ) by {
        if 0 <= i < locations.len() {
            if r < last && i == moved {
                assert(locations[i] == at(a, last));
                assert(table.rows[r] == tables[a].rows[last]);
            } else {
                assert(locations2[i] == locations[i]);
                if !vacant(pending, holes, i) {
                    let m = locations[i];
                    assert(row_exists(tables, m));
                    assert(m != l);
                    assert(tables[m.archetype as int].ids[m.index as int] == i);
                    assert(m == at(m.archetype as int, m.index as int));
                    if m.archetype == a {
                        assert(m.index != r);
                        if m.index == last {
                            assert(i == moved);
                        }
                        assert(table.rows[m.index as int] == tables[a].rows[m.index as int]);
                    }
                }
            }
        }
    }
}

/// The components of one row are replaced.
pub(crate) proof fn lemma_rewrite<C>(
    pending: Seq<u32>,
    locations: Seq<Location>,
    tables: Seq<Table<C>>,
    holes: Set<u32>,
    l: Location,
    row: Map<u64, C>,
)
    requires
        linked(pending, locations, tables, holes, None),
        row_exists(tables, l),
        row.dom() == tables[l.archetype as int].types.to_set(),
    ensures
        linked(
            pending,
            locations,
            tables.update(
                l.archetype as int,
                tables[l.archetype as int].write(l.index as int, row),
            ),
            holes,
            None,
        ),
        forall|i: int|
            components_at(
                locations,
                tables.update(
                    l.archetype as int,
                    tables[l.archetype as int].write(l.index as int, row),
                ),
                i,
            ) == (if i == tables[l.archetype as int].ids[l.index as int] {
                row
            } else {
                #[trigger] components_at(locations, tables, i)
            }),
{
    let a = l.archetype as int;
    let r = l.index as int;
    let table = tables[a].write(r, row);
    let after = tables.update(a, table);
    let id = tables[a].ids[r] as int;
    assert(tables[a].wf());
    assert(l == at(a, r));
    assert(id < locations.len() && locations[id] == at(a, r));
    assert(table.wf()) by {
        assert forall|k: int| 0 <= k < table.rows.len() implies (#[trigger] table.rows[k]).dom()
            == table.types.to_set() by {
            if k != r {
                assert(table.rows[k] == tables[a].rows[k]);
            }
        }
    }
    assert forall|b: int| 0 <= b < after.len() implies (#[trigger] after[b]).wf() by {
        if b != a {
            assert(after[b] == tables[b]);
        }
    }
    assert forall|b: int, k: int|
        #![trigger after[b].ids[k]]
        0 <= b < after.len() && 0 <= k < after[b].ids.len() implies {
        &&& (after[b].ids[k] as int) < locations.len()
        &&& locations[after[b].ids[k] as int] == at(b, k)
    } by {
        assert(after[b].ids[k] == tables[b].ids[k]);
    }
    assert forall|i: int| components_at(locations, after, i) == (if i == id {
        row
    } else {
        #[trigger] components_at(locations, tables, i)
    }) by {
        if 0 <= i < locations.len() && !vacant(pending, holes, i) {
            let m = locations[i];
            assert(row_exists(tables, m));
            assert(tables[m.archetype as int].ids[m.index as int] == i);
            assert(tables[m.archetype as int].wf());
        }
    }
}

/// The ids of an archetype, the pending ones and the holes all differ.
pub(crate) proof fn lemma_table_room<C>(
    pending: Seq<u32>,
    locations: Seq<Location>,
    tables: Seq<Table<C>>,
    holes: Set<u32>,
    a: int,
    more: Seq<u32>,
)
    requires
        linked(pending, locations, tables, holes, None),
        0 <= a < tables.len(),
        pending.no_duplicates(),
        forall|i: int| 0 <= i < pending.len() ==> (#[trigger] pending[i] as int) < locations.len(),
        more.no_duplicates(),
        forall|i: int|
            #![trigger more[i]]
            0 <= i < more.len() ==> (more[i] as int) < locations.len() && holes.contains(more[i])
                && !pending.contains(more[i]),
    ensures
        tables[a].ids.len() + pending.len() + more.len() <= locations.len(),
{
    let ids = tables[a].ids;
    let all = ids + pending + more;
    assert(tables[a].wf());
    assert forall|r: int| 0 <= r < ids.len() implies (#[trigger] ids[r] as int) < locations.len()
        && locations[ids[r] as int] == at(a, r) && !vacant(pending, holes, ids[r] as int) by {
        let id = tables[a].ids[r];
        assert((id as int) < locations.len() && locations[id as int] == at(a, r));
        assert(at(a, r).index == r);
    }
    assert(all.no_duplicates()) by {
        assert forall|i: int, j: int| 0 <= i < j < all.len() implies all[i] != all[j] by {
            if i < ids.len() {
                assert(all[i] == ids[i]);
                if j < ids.len() {
                    assert(all[j] == ids[j]);
                } else if j < ids.len() + pending.len() {
                    assert(all[j] == pending[j - ids.len()]);
                    assert(pending.contains(all[j]));
                } else {
                    assert(all[j] == more[j - ids.len() - pending.len()]);
                }
            } else if i < ids.len() + pending.len() {
                assert(all[i] == pending[i - ids.len()]);
                assert(pending.contains(all[i]));
                if j < ids.len() + pending.len() {
                    assert(all[j] == pending[j - ids.len()]);
                } else {
                    assert(all[j] == more[j - ids.len() - pending.len()]);
                }
            }
        }
    }
    assert forall|i: int| 0 <= i < all.len() implies (#[trigger] all[i] as int)
        < locations.len() by {
        if i < ids.len() {
            assert(all[i] == ids[i]);
        } else if i < ids.len() + pending.len() {
            assert(all[i] == pending[i - ids.len()]);
        } else {
            assert(all[i] == more[i - ids.len() - pending.len()]);
        }
    }
    lemma_id_count(locations.len() as int, all);
}

} // verus!
