//! In-memory model of the normalized relational store the engine reads:
//! one row set per table, disambiguated by entity id and row index, plus
//! the root entity table, the model registry and the entity-model join.

use vstd::prelude::*;

use crate::entity::Entity;
use crate::types::TypeMapping;

verus! {

/// One stored row: the owning entity, the disambiguating row index and
/// the named scalar columns in column order.
pub struct StoredRow {
    pub entity_id: String,
    pub idx: u64,
    pub data: Vec<(String, String)>,
}

/// One storage table: its name and its rows in storage order (rows of
/// list fields are stored in ascending `idx` order).
pub struct Table {
    pub name: String,
    pub rows: Vec<StoredRow>,
}

/// A registered model: its id (the hash of its name), its name (which
/// names its root table) and its schema.
pub struct Model {
    pub id: String,
    pub name: String,
    pub mapping: TypeMapping,
}

/// The store: the per-model tables, the root entity table in event order,
/// the model registry and the entity-model join.
pub struct Store {
    pub tables: Vec<Table>,
    pub entities: Vec<Entity>,
    pub models: Vec<Model>,
    pub entity_models: Vec<(String, String)>,
}

/// The first table of that name, if any.
pub open spec fn find_table(ts: Seq<Table>, name: Seq<char>) -> Option<Table>
    decreases ts.len(),
{
    if ts.len() == 0 {
        None
    } else if ts[0].name@ == name {
        Some(ts[0])
    } else {
        find_table(ts.drop_first(), name)
    }
}

pub open spec fn row_matches(r: StoredRow, eid: Seq<char>, idx: Option<u64>) -> bool {
    r.entity_id@ == eid && match idx {
        Option::None => true,
        Option::Some(v) => r.idx == v,
    }
}

/// The rows owned by `eid` (and, when given, carrying row index `idx`),
/// in storage order.
pub open spec fn sel_rows(rows: Seq<StoredRow>, eid: Seq<char>, idx: Option<u64>) -> Seq<
    StoredRow,
>
    decreases rows.len(),
{
    if rows.len() == 0 {
        Seq::empty()
    } else if row_matches(rows.last(), eid, idx) {
        sel_rows(rows.drop_last(), eid, idx).push(rows.last())
    } else {
        sel_rows(rows.drop_last(), eid, idx)
    }
}

/// The first value stored under column `name`, if any.
pub open spec fn col_of(data: Seq<(String, String)>, name: Seq<char>) -> Option<Seq<char>>
    decreases data.len(),
{
    if data.len() == 0 {
        None
    } else if data[0].0@ == name {
        Some(data[0].1@)
    } else {
        col_of(data.drop_first(), name)
    }
}

/// Index of the first table of that name.
pub fn find_table_index(store: &Store, name: &String) -> (r: Option<usize>)
    ensures
        match r {
            Option::Some(k) => k < store.tables@.len() && find_table(store.tables@, name@)
                == Option::Some(store.tables@[k as int]),
            Option::None => find_table(store.tables@, name@) is None,
        },
{
    let n = store.tables.len();
    let mut j: usize = 0;
    proof {
        assert(store.tables@.skip(0) =~= store.tables@);
    }
    while j < n
        invariant
            0 <= j <= n,
            n == store.tables@.len(),
            find_table(store.tables@, name@) == find_table(store.tables@.skip(j as int), name@),
        decreases n - j,
    {
        if store.tables[j].name.eq(name) {
            proof {
                assert(store.tables@.skip(j as int)[0] == store.tables@[j as int]);
            }
            return Some(j);
        }
        proof {
            assert(store.tables@.skip(j as int).drop_first() =~= store.tables@.skip(j + 1));
            assert(store.tables@.skip(j as int)[0] == store.tables@[j as int]);
        }
        j += 1;
    }
    proof {
        assert(store.tables@.skip(n as int).len() == 0);
    }
    None
}

fn row_matches_exec(r: &StoredRow, eid: &String, idx: Option<u64>) -> (b: bool)
    ensures
        b == row_matches(*r, eid@, idx),
{
    if !r.entity_id.eq(eid) {
        return false;
    }
    match idx {
        Option::None => true,
        Option::Some(v) => r.idx == v,
    }
}

/// Indices into `t.rows` of the rows owned by `eid` (filtered by `idx`
/// when given), in storage order.
pub fn select_rows(t: &Table, eid: &String, idx: Option<u64>) -> (out: Vec<usize>)
    ensures
        out@.len() == sel_rows(t.rows@, eid@, idx).len(),
        forall|k: int| #![trigger out@[k]] 0 <= k < out@.len() ==> out@[k] < t.rows@.len(),
        forall|k: int|
            0 <= k < out@.len() ==> t.rows@[out@[k] as int] == #[trigger] sel_rows(
                t.rows@,
                eid@,
                idx,
            )[k],
{
    let n = t.rows.len();
    let mut out: Vec<usize> = Vec::new();
    let mut j: usize = 0;
    proof {
        assert(t.rows@.take(0) =~= Seq::<StoredRow>::empty());
    }
    while j < n
        invariant
            0 <= j <= n,
            n == t.rows@.len(),
            out@.len() == sel_rows(t.rows@.take(j as int), eid@, idx).len(),
            forall|k: int| #![trigger out@[k]] 0 <= k < out@.len() ==> out@[k] < j,
            forall|k: int|
                0 <= k < out@.len() ==> t.rows@[out@[k] as int] == #[trigger] sel_rows(
                    t.rows@.take(j as int),
                    eid@,
                    idx,
                )[k],
        decreases n - j,
    {
        let ghost pre = t.rows@.take(j as int);
        let ghost cur = t.rows@.take(j + 1);
        proof {
            assert(cur.drop_last() =~= pre);
            assert(cur.last() == t.rows@[j as int]);
        }
        let ghost prev = out@;
        if row_matches_exec(&t.rows[j], eid, idx) {
            out.push(j);
            proof {
                assert(sel_rows(cur, eid@, idx) =~= sel_rows(pre, eid@, idx).push(
                    t.rows@[j as int],
                ));
                assert forall|k: int| 0 <= k < out@.len() implies t.rows@[out@[k] as int]
                    == #[trigger] sel_rows(cur, eid@, idx)[k] by {
                    if k < prev.len() {
                        assert(out@[k] == prev[k]);
                        assert(sel_rows(cur, eid@, idx)[k] == sel_rows(pre, eid@, idx)[k]);
                    } else {
                        assert(out@[k] == j);
                    }
                }
            }
        } else {
            proof {
                assert(sel_rows(cur, eid@, idx) =~= sel_rows(pre, eid@, idx));
                assert forall|k: int| 0 <= k < out@.len() implies t.rows@[out@[k] as int]
                    == #[trigger] sel_rows(cur, eid@, idx)[k] by {
                    assert(t.rows@[out@[k] as int] == sel_rows(
                        t.rows@.take(j as int),
                        eid@,
                        idx,
                    )[k]);
                }
            }
        }
        j += 1;
    }
    proof {
        assert(j == n);
        assert(t.rows@.take(n as int) =~= t.rows@);
        assert forall|k: int| 0 <= k < out@.len() implies t.rows@[out@[k] as int]
            == #[trigger] sel_rows(t.rows@, eid@, idx)[k] by {
            assert(t.rows@[out@[k] as int] == sel_rows(t.rows@.take(j as int), eid@, idx)[k]);
        }
    }
    out
}

/// The first value stored under column `name` of a row, if any.
pub fn column_value(row: &StoredRow, name: &String) -> (r: Option<String>)
    ensures
        match r {
            Option::Some(v) => col_of(row.data@, name@) == Option::Some(v@),
            Option::None => col_of(row.data@, name@) is None,
        },
{
    let n = row.data.len();
    let mut j: usize = 0;
    proof {
        assert(row.data@.skip(0) =~= row.data@);
    }
    while j < n
        invariant
            0 <= j <= n,
            n == row.data@.len(),
            col_of(row.data@, name@) == col_of(row.data@.skip(j as int), name@),
        decreases n - j,
    {
        proof {
            assert(row.data@.skip(j as int)[0] == row.data@[j as int]);
        }
        if row.data[j].0.eq(name) {
            return Some(row.data[j].1.clone());
        }
        proof {
            assert(row.data@.skip(j as int).drop_first() =~= row.data@.skip(j + 1));
        }
        j += 1;
    }
    proof {
        assert(row.data@.skip(n as int).len() == 0);
    }
    None
}

} // verus!
