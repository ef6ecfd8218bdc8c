//! The reconstruction engine: the recursive procedure that, given an
//! entity id, a schema path, an optional row index and a type mapping,
//! rebuilds a hierarchical value from the normalized store.  The spec
//! functions here are the engine's mathematical definition; the executable
//! functions are proved to return exactly what they define.

use vstd::prelude::*;
use vstd::string::StringExecFns;

use crate::Error;
use crate::naming::{path_view, table_name, table_name_spec};
use crate::store::{
    col_of, column_value, find_table, find_table_index, sel_rows, select_rows, Store, StoredRow,
    Table,
};
use crate::types::{
    fields_view, lemma_fields_view_len, lemma_map_size_element, lemma_mapping_view_len,
    lemma_values_view_len, map_size, mapping_view, td_size, td_view, value_view, values_view,
    SpecTypeData, SpecValue, TypeData, Value,
};

verus! {

/// Synthetic field name that wraps each element of a list table row.
pub open spec fn data_field_name() -> Seq<char> {
    "data"@
}

/// Field name whose presence marks a union variant stored as a scalar.
pub open spec fn value_field_name() -> Seq<char> {
    "value"@
}

/// Column that stores a union's scalar variant on the owning table.
pub open spec fn external_col_name(f: Seq<char>) -> Seq<char> {
    "external_"@ + f
}

/// A child query is pinned to the parent's row position only when the
/// parent row set has more than one row.
pub open spec fn child_idx(total: int, pos: int) -> Option<u64> {
    if total > 1 {
        Some(pos as u64)
    } else {
        None
    }
}

pub open spec fn mapping_has_field(m: Seq<(Seq<char>, SpecTypeData)>, name: Seq<char>) -> bool {
    exists|k: int| 0 <= k < m.len() && m[k].0 == name
}

/// The first value bound to `name` in an object's fields, if any.
pub open spec fn field_of(fields: Seq<(Seq<char>, SpecValue)>, name: Seq<char>) -> Option<
    SpecValue,
>
    decreases fields.len(),
{
    if fields.len() == 0 {
        None
    } else if fields[0].0 == name {
        Some(fields[0].1)
    } else {
        field_of(fields.drop_first(), name)
    }
}

/// What reconstruction yields for one entity at one schema path: Null when
/// no row is stored, the single assembled object when one row is, and the
/// ordered list of assembled objects when several are.
pub open spec fn spec_value(
    store: Store,
    path: Seq<Seq<char>>,
    eid: Seq<char>,
    idx: Option<u64>,
    mapping: Seq<(Seq<char>, SpecTypeData)>,
) -> Result<SpecValue, Error>
    decreases map_size(mapping), 4nat, 0nat,
{
    match find_table(store.tables@, table_name_spec(path)) {
        None => Err(Error::Query),
        Some(t) => {
            let rows = sel_rows(t.rows@, eid, idx);
            if rows.len() == 0 {
                Ok(SpecValue::Null)
            } else {
                match spec_rows(store, path, eid, mapping, rows, rows.len() as int) {
                    Err(e) => Err(e),
                    Ok(objs) => if rows.len() > 1 {
                        Ok(SpecValue::List(objs))
                    } else {
                        Ok(objs[0])
                    },
                }
            }
        },
    }
}

/// The assembled objects for a prefix `rows` of a row set of `total` rows,
/// in row order; the leftmost failure wins.
pub open spec fn spec_rows(
    store: Store,
    path: Seq<Seq<char>>,
    eid: Seq<char>,
    mapping: Seq<(Seq<char>, SpecTypeData)>,
    rows: Seq<StoredRow>,
    total: int,
) -> Result<Seq<SpecValue>, Error>
    decreases map_size(mapping), 3nat, rows.len(),
{
    if rows.len() == 0 {
        Ok(Seq::empty())
    } else {
        match spec_rows(store, path, eid, mapping, rows.drop_last(), total) {
            Err(e) => Err(e),
            Ok(pre) => match spec_obj(
                store,
                path,
                eid,
                total,
                rows.len() - 1,
                rows.last(),
                mapping,
            ) {
                Err(e) => Err(e),
                Ok(fields) => Ok(pre.push(SpecValue::Object(fields))),
            },
        }
    }
}

/// The assembled field values of one row, for a prefix `sub` of the
/// mapping, one entry per mapping entry in declaration order.
pub open spec fn spec_obj(
    store: Store,
    path: Seq<Seq<char>>,
    eid: Seq<char>,
    total: int,
    pos: int,
    row: StoredRow,
    sub: Seq<(Seq<char>, SpecTypeData)>,
) -> Result<Seq<(Seq<char>, SpecValue)>, Error>
    decreases map_size(sub), 2nat, 0nat,
{
    if sub.len() == 0 {
        Ok(Seq::empty())
    } else {
        match spec_obj(store, path, eid, total, pos, row, sub.drop_last()) {
            Err(e) => Err(e),
            Ok(pre) => match spec_field(
                store,
                path,
                eid,
                total,
                pos,
                row,
                sub.last().0,
                sub.last().1,
            ) {
                Err(e) => Err(e),
                Ok(v) => Ok(pre.push((sub.last().0, v))),
            },
        }
    }
}

/// One field's value: a scalar column projection, a recursive sub-record,
/// an unwrapped list, or one slot per union variant.
pub open spec fn spec_field(
    store: Store,
    path: Seq<Seq<char>>,
    eid: Seq<char>,
    total: int,
    pos: int,
    row: StoredRow,
    fname: Seq<char>,
    td: SpecTypeData,
) -> Result<SpecValue, Error>
    decreases td_size(td), 0nat, 0nat,
    via spec_field_decreases
{
    match td {
        SpecTypeData::Simple(_) => match col_of(row.data@, fname) {
            Some(v) => Ok(SpecValue::Scalar(v)),
            None => Err(Error::DataIntegrity),
        },
        SpecTypeData::Nested(_, m) => spec_value(
            store,
            path.push(fname),
            eid,
            child_idx(total, pos),
            m,
        ),
        SpecTypeData::List(inner) => match spec_value(
            store,
            path.push(fname),
            eid,
            None,
            seq![(data_field_name(), *inner)],
        ) {
            Err(e) => Err(e),
            Ok(v) => match unwrap_list(v) {
                Err(e) => Err(e),
                Ok(items) => Ok(SpecValue::List(items)),
            },
        },
        SpecTypeData::Union(_, vs) => match spec_variants(store, path, eid, total, pos, fname, vs) {
            Err(e) => Err(e),
            Ok(slots) => Ok(SpecValue::List(slots)),
        },
    }
}

#[via_fn]
proof fn spec_field_decreases(
    store: Store,
    path: Seq<Seq<char>>,
    eid: Seq<char>,
    total: int,
    pos: int,
    row: StoredRow,
    fname: Seq<char>,
    td: SpecTypeData,
) {
    match td {
        SpecTypeData::List(inner) => {
            let single = seq![(data_field_name(), *inner)];
            assert(single.drop_last() =~= Seq::<(Seq<char>, SpecTypeData)>::empty());
            assert(map_size(single.drop_last()) == 0);
            assert(map_size(single) == 1 + td_size(*inner));
        },
        _ => {},
    }
}

/// One slot per declared variant, in declaration order: a variant whose
/// payload is a lone scalar is read from the owning table's prefixed
/// column; every other variant is reconstructed from its own path.
pub open spec fn spec_variants(
    store: Store,
    path: Seq<Seq<char>>,
    eid: Seq<char>,
    total: int,
    pos: int,
    fname: Seq<char>,
    vs: Seq<(Seq<char>, SpecTypeData)>,
) -> Result<Seq<SpecValue>, Error>
    decreases map_size(vs), 1nat, 0nat,
{
    if vs.len() == 0 {
        Ok(Seq::empty())
    } else {
        match spec_variants(store, path, eid, total, pos, fname, vs.drop_last()) {
            Err(e) => Err(e),
            Ok(pre) => match spec_variant(
                store,
                path,
                eid,
                total,
                pos,
                fname,
                vs.last().0,
                vs.last().1,
            ) {
                Err(e) => Err(e),
                Ok(v) => Ok(pre.push(v)),
            },
        }
    }
}

/// One union variant's slot.  A variant whose payload is anything but a
/// sub-record is a schema/storage drift and never silently coerced.
pub open spec fn spec_variant(
    store: Store,
    path: Seq<Seq<char>>,
    eid: Seq<char>,
    total: int,
    pos: int,
    fname: Seq<char>,
    vname: Seq<char>,
    vtd: SpecTypeData,
) -> Result<SpecValue, Error>
    decreases td_size(vtd), 0nat, 0nat,
{
    match vtd {
        SpecTypeData::Nested(_, vm) => {
            if mapping_has_field(vm, value_field_name()) {
                scalar_variant_value(store, path, eid, fname)
            } else {
                spec_value(store, path.push(fname).push(vname), eid, child_idx(total, pos), vm)
            }
        },
        _ => Err(Error::DataIntegrity),
    }
}

/// A scalar union variant read back from the owning table: the prefixed
/// column of the entity's first row, wrapped as a one-field object.
pub open spec fn scalar_variant_value(
    store: Store,
    path: Seq<Seq<char>>,
    eid: Seq<char>,
    fname: Seq<char>,
) -> Result<SpecValue, Error> {
    match find_table(store.tables@, table_name_spec(path)) {
        None => Err(Error::Query),
        Some(t) => {
            let rows = sel_rows(t.rows@, eid, None);
            if rows.len() == 0 {
                Err(Error::DataIntegrity)
            } else {
                match col_of(rows[0].data@, external_col_name(fname)) {
                    Some(v) => Ok(
                        SpecValue::Object(seq![(value_field_name(), SpecValue::Scalar(v))]),
                    ),
                    None => Err(Error::DataIntegrity),
                }
            }
        },
    }
}

/// Elements of a reconstructed list value: each stored row wraps one
/// element under the synthetic `data` field; a row of any other shape is
/// a schema/storage drift.
pub open spec fn unwrap_list(v: SpecValue) -> Result<Seq<SpecValue>, Error> {
    match v {
        SpecValue::Null => Ok(Seq::empty()),
        SpecValue::Object(fields) => match field_of(fields, data_field_name()) {
            Some(x) => Ok(seq![x]),
            None => Err(Error::DataIntegrity),
        },
        SpecValue::List(items) => unwrap_items(items),
        SpecValue::Scalar(_) => Err(Error::DataIntegrity),
    }
}

pub open spec fn unwrap_items(items: Seq<SpecValue>) -> Result<Seq<SpecValue>, Error>
    decreases items.len(),
{
    if items.len() == 0 {
        Ok(Seq::empty())
    } else {
        match items[0] {
            SpecValue::Object(fields) => match field_of(fields, data_field_name()) {
                Some(x) => match unwrap_items(items.drop_first()) {
                    Err(e) => Err(e),
                    Ok(rest) => Ok(seq![x] + rest),
                },
                None => Err(Error::DataIntegrity),
            },
            _ => Err(Error::DataIntegrity),
        }
    }
}

/// The engine's result as a model value.
pub open spec fn res_view(r: Result<Value, Error>) -> Result<SpecValue, Error> {
    match r {
        Ok(v) => Ok(value_view(v)),
        Err(e) => Err(e),
    }
}

/// Reconstructing the same entity twice with no intervening writes
/// produces identical output: the engine's result is a function of the
/// store, the path, the entity id, the row index and the mapping alone.
pub proof fn lemma_reconstruction_idempotent(
    r1: Result<Value, Error>,
    r2: Result<Value, Error>,
    store: Store,
    path: Seq<Seq<char>>,
    eid: Seq<char>,
    idx: Option<u64>,
    mapping: Seq<(Seq<char>, SpecTypeData)>,
)
    requires
        res_view(r1) == spec_value(store, path, eid, idx, mapping),
        res_view(r2) == spec_value(store, path, eid, idx, mapping),
    ensures
        res_view(r1) == res_view(r2),
{
}

/// An assembled object binds exactly the mapping's field names, in
/// declaration order.
pub proof fn lemma_spec_obj_names(
    store: Store,
    path: Seq<Seq<char>>,
    eid: Seq<char>,
    total: int,
    pos: int,
    row: StoredRow,
    sub: Seq<(Seq<char>, SpecTypeData)>,
    fields: Seq<(Seq<char>, SpecValue)>,
)
    requires
        spec_obj(store, path, eid, total, pos, row, sub) == Ok::<
            Seq<(Seq<char>, SpecValue)>,
            Error,
        >(fields),
    ensures
        fields.len() == sub.len(),
        forall|k: int| 0 <= k < sub.len() ==> (#[trigger] fields[k]).0 == sub[k].0,
    decreases sub.len(),
{
    if sub.len() > 0 {
        let pre = spec_obj(store, path, eid, total, pos, row, sub.drop_last());
        lemma_spec_obj_names(store, path, eid, total, pos, row, sub.drop_last(), pre.unwrap());
        assert(forall|k: int|
            0 <= k < sub.len() - 1 ==> #[trigger] sub.drop_last()[k] == sub[k]);
    }
}

/// The engine assembles one object per fetched row, in row order.
pub proof fn lemma_spec_rows_shape(
    store: Store,
    path: Seq<Seq<char>>,
    eid: Seq<char>,
    mapping: Seq<(Seq<char>, SpecTypeData)>,
    rows: Seq<StoredRow>,
    total: int,
    objs: Seq<SpecValue>,
)
    requires
        spec_rows(store, path, eid, mapping, rows, total) == Ok::<Seq<SpecValue>, Error>(objs),
    ensures
        objs.len() == rows.len(),
        forall|k: int| 0 <= k < objs.len() ==> (#[trigger] objs[k]) is Object,
        forall|k: int|
            0 <= k < objs.len() ==> spec_obj(
                store,
                path,
                eid,
                total,
                k,
                rows[k],
                mapping,
            ) == Ok::<Seq<(Seq<char>, SpecValue)>, Error>((#[trigger] objs[k])->Object_0),
    decreases rows.len(),
{
    if rows.len() > 0 {
        let pre = spec_rows(store, path, eid, mapping, rows.drop_last(), total);
        lemma_spec_rows_shape(store, path, eid, mapping, rows.drop_last(), total, pre.unwrap());
        assert(forall|k: int|
            0 <= k < rows.len() - 1 ==> #[trigger] rows.drop_last()[k] == rows[k]);
    }
}

/// Round-trip shape: reconstruction over N stored rows yields Null for
/// N = 0, a single object whose fields are exactly the mapping's for
/// N = 1, and an ordered list of N such objects for N > 1.
pub proof fn lemma_reconstruction_shape(
    store: Store,
    path: Seq<Seq<char>>,
    eid: Seq<char>,
    idx: Option<u64>,
    mapping: Seq<(Seq<char>, SpecTypeData)>,
    t: Table,
    v: SpecValue,
)
    requires
        find_table(store.tables@, table_name_spec(path)) == Some(t),
        spec_value(store, path, eid, idx, mapping) == Ok::<SpecValue, Error>(v),
    ensures
        sel_rows(t.rows@, eid, idx).len() == 0 ==> v is Null,
        sel_rows(t.rows@, eid, idx).len() == 1 ==> v is Object && v->Object_0.len()
            == mapping.len() && forall|k: int|
            0 <= k < mapping.len() ==> (#[trigger] v->Object_0[k]).0 == mapping[k].0,
        sel_rows(t.rows@, eid, idx).len() > 1 ==> v is List && v->List_0.len() == sel_rows(
            t.rows@,
            eid,
            idx,
        ).len() && forall|k: int| 0 <= k < v->List_0.len() ==> (#[trigger] v->List_0[k]) is Object,
{
    let rows = sel_rows(t.rows@, eid, idx);
    if rows.len() > 0 {
        let objs = spec_rows(store, path, eid, mapping, rows, rows.len() as int);
        lemma_spec_rows_shape(store, path, eid, mapping, rows, rows.len() as int, objs.unwrap());
        if rows.len() == 1 {
            lemma_spec_obj_names(
                store,
                path,
                eid,
                rows.len() as int,
                0,
                rows[0],
                mapping,
                v->Object_0,
            );
        }
    }
}

/// Rows that all wrap an element under the synthetic `data` field unwrap
/// to one element per row, in row order.
proof fn lemma_unwrap_items_len(items: Seq<SpecValue>)
    requires
        forall|k: int| 0 <= k < items.len() ==> (#[trigger] items[k]) is Object,
        forall|k: int|
            0 <= k < items.len() ==> field_of(
                (#[trigger] items[k])->Object_0,
                data_field_name(),
            ) is Some,
    ensures
        unwrap_items(items) is Ok,
        unwrap_items(items).unwrap().len() == items.len(),
    decreases items.len(),
{
    if items.len() > 0 {
        assert(items[0] is Object);
        lemma_unwrap_items_len(items.drop_first());
        assert(forall|k: int|
            0 <= k < items.len() - 1 ==> #[trigger] items.drop_first()[k] == items[k + 1]);
    }
}

/// A list field with k stored rows (ordered by row index) reconstructs
/// to an ordered sequence of exactly k elements, for every k >= 0.
pub proof fn lemma_list_field_length(
    store: Store,
    path: Seq<Seq<char>>,
    eid: Seq<char>,
    total: int,
    pos: int,
    row: StoredRow,
    fname: Seq<char>,
    inner: Box<SpecTypeData>,
    t: Table,
    v: SpecValue,
)
    requires
        find_table(store.tables@, table_name_spec(path.push(fname))) == Some(t),
        spec_field(store, path, eid, total, pos, row, fname, SpecTypeData::List(inner)) == Ok::<
            SpecValue,
            Error,
        >(v),
    ensures
        v is List,
        v->List_0.len() == sel_rows(t.rows@, eid, None).len(),
{
    let single = seq![(data_field_name(), *inner)];
    let w = spec_value(store, path.push(fname), eid, None, single);
    let rows = sel_rows(t.rows@, eid, None);
    if rows.len() > 0 {
        let objs = spec_rows(store, path.push(fname), eid, single, rows, rows.len() as int);
        lemma_spec_rows_shape(
            store,
            path.push(fname),
            eid,
            single,
            rows,
            rows.len() as int,
            objs.unwrap(),
        );
        assert forall|k: int| 0 <= k < rows.len() implies field_of(
            (#[trigger] objs.unwrap()[k])->Object_0,
            data_field_name(),
        ) is Some by {
            lemma_spec_obj_names(
                store,
                path.push(fname),
                eid,
                rows.len() as int,
                k,
                rows[k],
                single,
                objs.unwrap()[k]->Object_0,
            );
            assert(objs.unwrap()[k]->Object_0[0].0 == data_field_name());
        }
        if rows.len() == 1 {
            assert(w.unwrap() == objs.unwrap()[0]);
            assert(unwrap_list(w.unwrap()) is Ok);
        } else {
            lemma_unwrap_items_len(objs.unwrap());
        }
    }
}

/// The slots of every variant after an assembled prefix, one per
/// variant, each exactly the variant's own reconstruction.
pub proof fn lemma_spec_variants_shape(
    store: Store,
    path: Seq<Seq<char>>,
    eid: Seq<char>,
    total: int,
    pos: int,
    fname: Seq<char>,
    vs: Seq<(Seq<char>, SpecTypeData)>,
    slots: Seq<SpecValue>,
)
    requires
        spec_variants(store, path, eid, total, pos, fname, vs) == Ok::<Seq<SpecValue>, Error>(
            slots,
        ),
    ensures
        slots.len() == vs.len(),
        forall|k: int|
            0 <= k < vs.len() ==> spec_variant(
                store,
                path,
                eid,
                total,
                pos,
                fname,
                (#[trigger] vs[k]).0,
                vs[k].1,
            ) == Ok::<SpecValue, Error>(slots[k]),
    decreases vs.len(),
{
    if vs.len() > 0 {
        let pre = spec_variants(store, path, eid, total, pos, fname, vs.drop_last());
        lemma_spec_variants_shape(store, path, eid, total, pos, fname, vs.drop_last(), pre.unwrap());
        assert forall|k: int| 0 <= k < vs.len() implies spec_variant(
            store,
            path,
            eid,
            total,
            pos,
            fname,
            (#[trigger] vs[k]).0,
            vs[k].1,
        ) == Ok::<SpecValue, Error>(slots[k]) by {
            if k < vs.len() - 1 {
                assert(vs.drop_last()[k] == vs[k]);
                assert(spec_variant(
                    store,
                    path,
                    eid,
                    total,
                    pos,
                    fname,
                    vs.drop_last()[k].0,
                    vs.drop_last()[k].1,
                ) == Ok::<SpecValue, Error>(pre.unwrap()[k]));
                assert(slots[k] == pre.unwrap()[k]);
            } else {
                assert(vs.last() == vs[k]);
            }
        }
    }
}

/// A union field reconstructs to an ordered sequence with one slot per
/// declared variant, in declaration order, each slot the variant's own
/// reconstruction (its value where populated, Null where its storage is
/// empty); no single variant is selected.
pub proof fn lemma_union_field_slots(
    store: Store,
    path: Seq<Seq<char>>,
    eid: Seq<char>,
    total: int,
    pos: int,
    row: StoredRow,
    fname: Seq<char>,
    uname: Seq<char>,
    vs: Seq<(Seq<char>, SpecTypeData)>,
    v: SpecValue,
)
    requires
        spec_field(store, path, eid, total, pos, row, fname, SpecTypeData::Union(uname, vs))
            == Ok::<SpecValue, Error>(v),
    ensures
        v is List,
        v->List_0.len() == vs.len(),
        forall|k: int|
            0 <= k < vs.len() ==> spec_variant(
                store,
                path,
                eid,
                total,
                pos,
                fname,
                (#[trigger] vs[k]).0,
                vs[k].1,
            ) == Ok::<SpecValue, Error>(v->List_0[k]),
{
    lemma_spec_variants_shape(store, path, eid, total, pos, fname, vs, v->List_0);
}

proof fn lemma_field_of_skip(fields: Seq<(Seq<char>, SpecValue)>, name: Seq<char>, k: int)
    requires
        0 <= k <= fields.len(),
        forall|l: int| 0 <= l < k ==> (#[trigger] fields[l]).0 != name,
    ensures
        field_of(fields, name) == field_of(fields.skip(k), name),
    decreases k,
{
    if k > 0 {
        lemma_field_of_skip(fields, name, k - 1);
        assert(fields.skip(k - 1)[0] == fields[k - 1]);
        assert(fields.skip(k - 1).drop_first() =~= fields.skip(k));
    } else {
        assert(fields.skip(0) =~= fields);
    }
}

/// The value bound to `name` in an object's fields, moved out; a missing
/// binding is a schema/storage drift.
#[verifier::loop_isolation(false)]
fn take_field(fields: Vec<(String, Value)>, name: &String) -> (r: Result<Value, Error>)
    ensures
        match r {
            Ok(x) => field_of(fields_view(fields@), name@) == Some(value_view(x)),
            Err(e) => e == Error::DataIntegrity && field_of(fields_view(fields@), name@) is None,
        },
{
    let ghost fv = fields_view(fields@);
    proof {
        lemma_fields_view_len(fields@);
    }
    let n = fields.len();
    let mut j: usize = 0;
    while j < n
        invariant
            0 <= j <= n,
            forall|l: int| 0 <= l < j ==> (#[trigger] fv[l]).0 != name@,
        decreases n - j,
    {
        if fields[j].0.eq(name) {
            proof {
                assert(fv[j as int].0 == name@);
                lemma_field_of_skip(fv, name@, j as int);
                assert(fv.skip(j as int)[0] == fv[j as int]);
            }
            let mut fields = fields;
            let pair = fields.remove(j);
            return Ok(pair.1);
        }
        proof {
            assert(fv[j as int].0 == fields@[j as int].0@);
        }
        j += 1;
    }
    proof {
        lemma_field_of_skip(fv, name@, n as int);
        assert(fv.skip(n as int).len() == 0);
    }
    Err(Error::DataIntegrity)
}

/// Elements of a reconstructed list value, unwrapped from their synthetic
/// `data` wrappers.
#[verifier::loop_isolation(false)]
fn unwrap_list_exec(v: Value) -> (r: Result<Vec<Value>, Error>)
    ensures
        match r {
            Ok(items) => unwrap_list(value_view(v)) == Ok::<Seq<SpecValue>, Error>(
                values_view(items@),
            ),
            Err(e) => unwrap_list(value_view(v)) == Err::<Seq<SpecValue>, Error>(e),
        },
{
    match v {
        Value::Null => {
            let out: Vec<Value> = Vec::new();
            proof {
                assert(values_view(out@) =~= Seq::<SpecValue>::empty());
            }
            Ok(out)
        },
        Value::Scalar(_) => Err(Error::DataIntegrity),
        Value::Object(fields) => {
            let dname = String::from_str("data");
            match take_field(fields, &dname) {
                Ok(x) => {
                    let mut out: Vec<Value> = Vec::new();
                    out.push(x);
                    proof {
                        assert(out@.drop_last() =~= Seq::<Value>::empty());
                        assert(values_view(Seq::<Value>::empty()) == Seq::<SpecValue>::empty());
                        assert(values_view(out@) == values_view(Seq::<Value>::empty()).push(
                            value_view(out@.last()),
                        ));
                        assert(values_view(out@) =~= seq![value_view(out@.last())]);
                    }
                    Ok(out)
                },
                Err(e) => Err(e),
            }
        },
        Value::List(items) => {
            let mut items = items;
            let ghost orig = values_view(items@);
            let mut out: Vec<Value> = Vec::new();
            proof {
                assert(values_view(out@) =~= Seq::<SpecValue>::empty());
                assert(values_view(out@) + orig =~= orig);
            }
            while items.len() > 0
                invariant
                    unwrap_items(orig) == (match unwrap_items(values_view(items@)) {
                        Ok(rest) => Ok::<Seq<SpecValue>, Error>(values_view(out@) + rest),
                        Err(e) => Err(e),
                    }),
                decreases items@.len(),
            {
                let ghost before = items@;
                let it = items.remove(0);
                proof {
                    lemma_values_view_len(before);
                    lemma_values_view_len(items@);
                    assert(before.drop_first() =~= items@);
                    assert forall|l: int| 0 <= l < values_view(items@).len() implies #[trigger]
                    values_view(items@)[l] == values_view(before).drop_first()[l] by {
                        assert(values_view(items@)[l] == value_view(items@[l]));
                        assert(values_view(before)[l + 1] == value_view(before[l + 1]));
                    }
                    assert(values_view(items@) =~= values_view(before).drop_first());
                    assert(values_view(before)[0] == value_view(it));
                }
                match it {
                    Value::Object(fields) => {
                        let dname = String::from_str("data");
                        match take_field(fields, &dname) {
                            Ok(x) => {
                                let ghost outb = out@;
                                out.push(x);
                                proof {
                                    assert(out@.drop_last() =~= outb);
                                    assert(values_view(out@) == values_view(outb).push(
                                        value_view(x),
                                    ));
                                    assert forall|rest: Seq<SpecValue>|
                                        values_view(outb) + (seq![value_view(x)] + rest)
                                            =~= values_view(out@) + rest by {}
                                }
                            },
                            Err(_) => {
                                return Err(Error::DataIntegrity);
                            },
                        }
                    },
                    _ => {
                        return Err(Error::DataIntegrity);
                    },
                }
            }
            proof {
                assert(values_view(items@) =~= Seq::<SpecValue>::empty());
                assert(values_view(out@) + Seq::<SpecValue>::empty() =~= values_view(out@));
            }
            Ok(out)
        },
    }
}

/// Whether a mapping declares a field of that name.
#[verifier::loop_isolation(false)]
fn mapping_has_field_exec(m: &Vec<(String, TypeData)>, name: &String) -> (b: bool)
    ensures
        b == mapping_has_field(mapping_view(m@), name@),
{
    proof {
        lemma_mapping_view_len(m@);
    }
    let n = m.len();
    let mut j: usize = 0;
    while j < n
        invariant
            0 <= j <= n,
            forall|l: int| 0 <= l < j ==> (#[trigger] mapping_view(m@)[l]).0 != name@,
        decreases n - j,
    {
        if m[j].0.eq(name) {
            proof {
                assert(mapping_view(m@)[j as int].0 == name@);
            }
            return true;
        }
        proof {
            assert(mapping_view(m@)[j as int].0 == m@[j as int].0@);
        }
        j += 1;
    }
    proof {
        assert(!mapping_has_field(mapping_view(m@), name@));
    }
    false
}

/// The parent path extended by one segment.
#[verifier::loop_isolation(false)]
fn push_path(path: &Vec<String>, seg: &String) -> (r: Vec<String>)
    ensures
        path_view(r@) == path_view(path@).push(seg@),
{
    let mut r: Vec<String> = Vec::new();
    let n = path.len();
    let mut k: usize = 0;
    while k < n
        invariant
            0 <= k <= n,
            r@.len() == k,
            forall|l: int| 0 <= l < k ==> (#[trigger] r@[l])@ == path@[l]@,
        decreases n - k,
    {
        r.push(path[k].clone());
        k += 1;
    }
    r.push(seg.clone());
    proof {
        assert forall|l: int| 0 <= l < r@.len() implies #[trigger] path_view(r@)[l] == path_view(
            path@,
        ).push(seg@)[l] by {
            assert(path_view(r@)[l] == r@[l]@);
            if l < n {
                assert(path_view(path@)[l] == path@[l]@);
            }
        }
        assert(path_view(r@) =~= path_view(path@).push(seg@));
    }
    r
}

/// A deep copy of one field shape, equal to the original in the model.
fn clone_td(t: &TypeData) -> (r: TypeData)
    ensures
        td_view(r) == td_view(*t),
    decreases td_size(td_view(*t)), 0nat,
{
    match t {
        TypeData::Simple(k) => TypeData::Simple(k.clone()),
        TypeData::Nested(n, m) => TypeData::Nested(n.clone(), clone_mapping(m)),
        TypeData::List(inner) => TypeData::List(Box::new(clone_td(&**inner))),
        TypeData::Union(n, vs) => TypeData::Union(n.clone(), clone_mapping(vs)),
    }
}

/// A deep copy of a mapping, equal to the original in the model.
#[verifier::loop_isolation(false)]
fn clone_mapping(m: &Vec<(String, TypeData)>) -> (r: Vec<(String, TypeData)>)
    ensures
        mapping_view(r@) == mapping_view(m@),
    decreases map_size(mapping_view(m@)), 1nat,
{
    proof {
        lemma_mapping_view_len(m@);
    }
    let n = m.len();
    let mut r: Vec<(String, TypeData)> = Vec::new();
    proof {
        assert(mapping_view(r@) =~= mapping_view(m@.take(0)));
    }
    let mut k: usize = 0;
    while k < n
        invariant
            0 <= k <= n,
            r@.len() == k,
            mapping_view(r@) == mapping_view(m@.take(k as int)),
        decreases n - k,
    {
        proof {
            lemma_map_size_element(mapping_view(m@), k as int);
            assert(mapping_view(m@)[k as int] == (m@[k as int].0@, td_view(m@[k as int].1)));
        }
        let ghost rb = r@;
        r.push((m[k].0.clone(), clone_td(&m[k].1)));
        proof {
            assert(r@.drop_last() =~= rb);
            assert(m@.take(k + 1).drop_last() =~= m@.take(k as int));
            assert(m@.take(k + 1).last() == m@[k as int]);
            assert(mapping_view(r@) == mapping_view(m@.take(k + 1)));
        }
        k += 1;
    }
    proof {
        assert(m@.take(n as int) =~= m@);
    }
    r
}

/// The synthetic one-field mapping that a list's element rows are read
/// through.
fn singleton_data_mapping(inner: &TypeData) -> (r: Vec<(String, TypeData)>)
    ensures
        mapping_view(r@) == seq![(data_field_name(), td_view(*inner))],
{
    let mut r: Vec<(String, TypeData)> = Vec::new();
    r.push((String::from_str("data"), clone_td(inner)));
    proof {
        assert(r@.drop_last() =~= Seq::<(String, TypeData)>::empty());
        assert(mapping_view(Seq::<(String, TypeData)>::empty()) == Seq::<(
            Seq<char>,
            SpecTypeData,
        )>::empty());
        assert(mapping_view(r@) == mapping_view(Seq::<(String, TypeData)>::empty()).push(
            (r@.last().0@, td_view(r@.last().1)),
        ));
        assert(mapping_view(r@) =~= seq![(data_field_name(), td_view(*inner))]);
    }
    r
}

proof fn lemma_spec_rows_err_extends(
    store: Store,
    path: Seq<Seq<char>>,
    eid: Seq<char>,
    mapping: Seq<(Seq<char>, SpecTypeData)>,
    rows: Seq<StoredRow>,
    total: int,
    k: int,
    m: int,
)
    requires
        0 <= k <= m <= rows.len(),
        spec_rows(store, path, eid, mapping, rows.take(k), total) is Err,
    ensures
        spec_rows(store, path, eid, mapping, rows.take(m), total) == spec_rows(
            store,
            path,
            eid,
            mapping,
            rows.take(k),
            total,
        ),
    decreases m - k,
{
    if m > k {
        lemma_spec_rows_err_extends(store, path, eid, mapping, rows, total, k, m - 1);
        assert(rows.take(m).drop_last() =~= rows.take(m - 1));
    }
}

proof fn lemma_spec_obj_err_extends(
    store: Store,
    path: Seq<Seq<char>>,
    eid: Seq<char>,
    total: int,
    pos: int,
    row: StoredRow,
    sub: Seq<(Seq<char>, SpecTypeData)>,
    k: int,
    m: int,
)
    requires
        0 <= k <= m <= sub.len(),
        spec_obj(store, path, eid, total, pos, row, sub.take(k)) is Err,
    ensures
        spec_obj(store, path, eid, total, pos, row, sub.take(m)) == spec_obj(
            store,
            path,
            eid,
            total,
            pos,
            row,
            sub.take(k),
        ),
    decreases m - k,
{
    if m > k {
        lemma_spec_obj_err_extends(store, path, eid, total, pos, row, sub, k, m - 1);
        assert(sub.take(m).drop_last() =~= sub.take(m - 1));
    }
}

proof fn lemma_spec_variants_err_extends(
    store: Store,
    path: Seq<Seq<char>>,
    eid: Seq<char>,
    total: int,
    pos: int,
    fname: Seq<char>,
    vs: Seq<(Seq<char>, SpecTypeData)>,
    k: int,
    m: int,
)
    requires
        0 <= k <= m <= vs.len(),
        spec_variants(store, path, eid, total, pos, fname, vs.take(k)) is Err,
    ensures
        spec_variants(store, path, eid, total, pos, fname, vs.take(m)) == spec_variants(
            store,
            path,
            eid,
            total,
            pos,
            fname,
            vs.take(k),
        ),
    decreases m - k,
{
    if m > k {
        lemma_spec_variants_err_extends(store, path, eid, total, pos, fname, vs, k, m - 1);
        assert(vs.take(m).drop_last() =~= vs.take(m - 1));
    }
}

/// A scalar union variant read back from the owning table's prefixed
/// column, wrapped as a one-field object.
#[verifier::loop_isolation(false)]
fn scalar_variant_exec(store: &Store, path: &Vec<String>, entity_id: &String, fname: &String) -> (r:
    Result<Value, Error>)
    requires
        path@.len() >= 1,
    ensures
        (match r {
            Ok(v) => Ok::<SpecValue, Error>(value_view(v)),
            Err(e) => Err(e),
        }) == scalar_variant_value(*store, path_view(path@), entity_id@, fname@),
{
    let tname = table_name(path);
    let ti = match find_table_index(store, &tname) {
        Some(k) => k,
        None => {
            return Err(Error::Query);
        },
    };
    let t = &store.tables[ti];
    let ghost sel = sel_rows(t.rows@, entity_id@, None);
    let row_idxs = select_rows(t, entity_id, None);
    if row_idxs.len() == 0 {
        return Err(Error::DataIntegrity);
    }
    let row = &t.rows[row_idxs[0]];
    proof {
        assert(*row == sel[0]);
    }
    let mut ext = String::from_str("external_");
    ext.append(fname.as_str());
    proof {
        assert(ext@ == external_col_name(fname@));
    }
    match column_value(row, &ext) {
        Some(v) => {
            let mut fields: Vec<(String, Value)> = Vec::new();
            fields.push((String::from_str("value"), Value::Scalar(v)));
            proof {
                assert(fields@.drop_last() =~= Seq::<(String, Value)>::empty());
                assert(fields_view(Seq::<(String, Value)>::empty()) == Seq::<(
                    Seq<char>,
                    SpecValue,
                )>::empty());
                assert(fields_view(fields@) == fields_view(Seq::<(String, Value)>::empty()).push(
                    (fields@.last().0@, value_view(fields@.last().1)),
                ));
                assert(fields_view(fields@) =~= seq![
                    (value_field_name(), SpecValue::Scalar(v@)),
                ]);
            }
            Ok(Value::Object(fields))
        },
        None => Err(Error::DataIntegrity),
    }
}

/// One slot per declared union variant, in declaration order.
#[verifier::loop_isolation(false)]
fn build_union(
    store: &Store,
    path: &Vec<String>,
    entity_id: &String,
    total: usize,
    pos: usize,
    fname: &String,
    vs: &Vec<(String, TypeData)>,
) -> (r: Result<Vec<Value>, Error>)
    requires
        path@.len() >= 1,
    ensures
        (match r {
            Ok(slots) => Ok::<Seq<SpecValue>, Error>(values_view(slots@)),
            Err(e) => Err(e),
        }) == spec_variants(
            *store,
            path_view(path@),
            entity_id@,
            total as int,
            pos as int,
            fname@,
            mapping_view(vs@),
        ),
    decreases map_size(mapping_view(vs@)), 0nat,
{
    let ghost pv = path_view(path@);
    let ghost vsv = mapping_view(vs@);
    proof {
        lemma_mapping_view_len(vs@);
    }
    let n = vs.len();
    let mut slots: Vec<Value> = Vec::new();
    proof {
        assert(vsv.take(0) =~= Seq::<(Seq<char>, SpecTypeData)>::empty());
        assert(values_view(slots@) =~= Seq::<SpecValue>::empty());
    }
    let mut vi: usize = 0;
    while vi < n
        invariant
            0 <= vi <= n,
            spec_variants(
                *store,
                pv,
                entity_id@,
                total as int,
                pos as int,
                fname@,
                vsv.take(vi as int),
            ) == Ok::<Seq<SpecValue>, Error>(values_view(slots@)),
        decreases n - vi,
    {
        let ghost cur = vsv.take(vi + 1);
        proof {
            assert(cur.drop_last() =~= vsv.take(vi as int));
            assert(cur.last() == vsv[vi as int]);
            assert(vsv[vi as int] == (vs@[vi as int].0@, td_view(vs@[vi as int].1)));
            lemma_map_size_element(vsv, vi as int);
        }
        let vname = &vs[vi].0;
        let vres: Result<Value, Error> = match &vs[vi].1 {
            TypeData::Nested(_, vm) => {
                let valname = String::from_str("value");
                if mapping_has_field_exec(vm, &valname) {
                    scalar_variant_exec(store, path, entity_id, fname)
                } else {
                    let vpath0 = push_path(path, fname);
                    let vpath = push_path(&vpath0, vname);
                    let cidx: Option<u64> = if total > 1 {
                        Some(pos as u64)
                    } else {
                        None
                    };
                    proof {
                        assert(td_size(vsv[vi as int].1) == 1 + map_size(mapping_view(vm@)));
                        assert(cidx == child_idx(total as int, pos as int));
                        assert(path_view(vpath@) == pv.push(fname@).push(vname@));
                    }
                    model_data_recursive_query(store, &vpath, entity_id, cidx, vm)
                }
            },
            _ => {
                proof {
                    assert(spec_variant(
                        *store,
                        pv,
                        entity_id@,
                        total as int,
                        pos as int,
                        fname@,
                        vsv[vi as int].0,
                        vsv[vi as int].1,
                    ) == Err::<SpecValue, Error>(Error::DataIntegrity));
                    assert(spec_variants(
                        *store,
                        pv,
                        entity_id@,
                        total as int,
                        pos as int,
                        fname@,
                        cur,
                    ) == Err::<Seq<SpecValue>, Error>(Error::DataIntegrity));
                    lemma_spec_variants_err_extends(
                        *store,
                        pv,
                        entity_id@,
                        total as int,
                        pos as int,
                        fname@,
                        vsv,
                        vi + 1,
                        n as int,
                    );
                    assert(vsv.take(n as int) =~= vsv);
                }
                return Err(Error::DataIntegrity);
            },
        };
        proof {
            assert(spec_variant(
                *store,
                pv,
                entity_id@,
                total as int,
                pos as int,
                fname@,
                vsv[vi as int].0,
                vsv[vi as int].1,
            ) == (match vres {
                Ok(v) => Ok::<SpecValue, Error>(value_view(v)),
                Err(e) => Err(e),
            }));
        }
        match vres {
            Ok(v) => {
                let ghost sb = slots@;
                slots.push(v);
                proof {
                    assert(slots@.drop_last() =~= sb);
                    assert(values_view(slots@) == values_view(sb).push(
                        value_view(slots@.last()),
                    ));
                    assert(spec_variants(
                        *store,
                        pv,
                        entity_id@,
                        total as int,
                        pos as int,
                        fname@,
                        cur,
                    ) == Ok::<Seq<SpecValue>, Error>(values_view(slots@)));
                }
            },
            Err(e) => {
                proof {
                    assert(spec_variants(
                        *store,
                        pv,
                        entity_id@,
                        total as int,
                        pos as int,
                        fname@,
                        cur,
                    ) == Err::<Seq<SpecValue>, Error>(e));
                    lemma_spec_variants_err_extends(
                        *store,
                        pv,
                        entity_id@,
                        total as int,
                        pos as int,
                        fname@,
                        vsv,
                        vi + 1,
                        n as int,
                    );
                    assert(vsv.take(n as int) =~= vsv);
                }
                return Err(e);
            },
        }
        vi += 1;
    }
    proof {
        assert(vsv.take(n as int) =~= vsv);
    }
    Ok(slots)
}

/// One row's assembled object: one entry per mapping entry, in
/// declaration order.
#[verifier::loop_isolation(false)]
fn build_object(
    store: &Store,
    path: &Vec<String>,
    entity_id: &String,
    total: usize,
    pos: usize,
    row: &StoredRow,
    mapping: &Vec<(String, TypeData)>,
) -> (r: Result<Vec<(String, Value)>, Error>)
    requires
        path@.len() >= 1,
    ensures
        (match r {
            Ok(fields) => Ok::<Seq<(Seq<char>, SpecValue)>, Error>(fields_view(fields@)),
            Err(e) => Err(e),
        }) == spec_obj(
            *store,
            path_view(path@),
            entity_id@,
            total as int,
            pos as int,
            *row,
            mapping_view(mapping@),
        ),
    decreases map_size(mapping_view(mapping@)), 1nat,
{
    let ghost pv = path_view(path@);
    let ghost mv = mapping_view(mapping@);
    proof {
        lemma_mapping_view_len(mapping@);
    }
    let n = mapping.len();
    let mut fields: Vec<(String, Value)> = Vec::new();
    proof {
        assert(mv.take(0) =~= Seq::<(Seq<char>, SpecTypeData)>::empty());
        assert(fields_view(fields@) =~= Seq::<(Seq<char>, SpecValue)>::empty());
    }
    let mut f: usize = 0;
    while f < n
        invariant
            0 <= f <= n,
            spec_obj(*store, pv, entity_id@, total as int, pos as int, *row, mv.take(f as int))
                == Ok::<Seq<(Seq<char>, SpecValue)>, Error>(fields_view(fields@)),
        decreases n - f,
    {
        let ghost cur = mv.take(f + 1);
        proof {
            assert(cur.drop_last() =~= mv.take(f as int));
            assert(cur.last() == mv[f as int]);
            assert(mv[f as int] == (mapping@[f as int].0@, td_view(mapping@[f as int].1)));
            lemma_map_size_element(mv, f as int);
        }
        let fname = &mapping[f].0;
        let fres: Result<Value, Error> = match &mapping[f].1 {
            TypeData::Simple(_) => {
                match column_value(row, fname) {
                    Some(v) => Ok(Value::Scalar(v)),
                    None => Err(Error::DataIntegrity),
                }
            },
            TypeData::Nested(_, m) => {
                let child = push_path(path, fname);
                let cidx: Option<u64> = if total > 1 {
                    Some(pos as u64)
                } else {
                    None
                };
                proof {
                    assert(td_size(mv[f as int].1) == 1 + map_size(mapping_view(m@)));
                    assert(cidx == child_idx(total as int, pos as int));
                }
                model_data_recursive_query(store, &child, entity_id, cidx, m)
            },
            TypeData::List(inner) => {
                let child = push_path(path, fname);
                let single = singleton_data_mapping(&**inner);
                proof {
                    let sm = mapping_view(single@);
                    assert(sm.drop_last() =~= Seq::<(Seq<char>, SpecTypeData)>::empty());
                    assert(map_size(sm.drop_last()) == 0);
                    assert(map_size(sm) == 1 + td_size(td_view(**inner)));
                    assert(td_size(mv[f as int].1) == 2 + td_size(td_view(**inner)));
                }
                match model_data_recursive_query(store, &child, entity_id, None, &single) {
                    Ok(v) => match unwrap_list_exec(v) {
                        Ok(items) => Ok(Value::List(items)),
                        Err(e) => Err(e),
                    },
                    Err(e) => Err(e),
                }
            },
            TypeData::Union(_, vs) => {
                proof {
                    assert(td_size(mv[f as int].1) == 1 + map_size(mapping_view(vs@)));
                }
                match build_union(store, path, entity_id, total, pos, fname, vs) {
                    Ok(slots) => Ok(Value::List(slots)),
                    Err(e) => Err(e),
                }
            },
        };
        proof {
            assert(spec_field(
                *store,
                pv,
                entity_id@,
                total as int,
                pos as int,
                *row,
                mv[f as int].0,
                mv[f as int].1,
            ) == (match fres {
                Ok(v) => Ok::<SpecValue, Error>(value_view(v)),
                Err(e) => Err(e),
            }));
        }
        match fres {
            Ok(v) => {
                let ghost fb = fields@;
                fields.push((fname.clone(), v));
                proof {
                    assert(fields@.drop_last() =~= fb);
                    assert(fields_view(fields@) == fields_view(fb).push(
                        (fields@.last().0@, value_view(fields@.last().1)),
                    ));
                    assert(fields@.last().0@ == mv[f as int].0);
                    assert(spec_obj(
                        *store,
                        pv,
                        entity_id@,
                        total as int,
                        pos as int,
                        *row,
                        cur,
                    ) == Ok::<Seq<(Seq<char>, SpecValue)>, Error>(fields_view(fields@)));
                }
            },
            Err(e) => {
                proof {
                    assert(spec_obj(
                        *store,
                        pv,
                        entity_id@,
                        total as int,
                        pos as int,
                        *row,
                        cur,
                    ) == Err::<Seq<(Seq<char>, SpecValue)>, Error>(e));
                    lemma_spec_obj_err_extends(
                        *store,
                        pv,
                        entity_id@,
                        total as int,
                        pos as int,
                        *row,
                        mv,
                        f + 1,
                        n as int,
                    );
                    assert(mv.take(n as int) =~= mv);
                }
                return Err(e);
            },
        }
        f += 1;
    }
    proof {
        assert(mv.take(n as int) =~= mv);
    }
    Ok(fields)
}

/// The reconstruction engine.  Derives the table for `path`, fetches the
/// rows owned by `entity_id` (pinned to `idx` when given), and assembles
/// one object per row by walking `type_mapping`: Null when no row is
/// stored, the single object when one row is, and the ordered list of
/// objects when several are.  Its result is exactly `spec_value`.
#[verifier::loop_isolation(false)]
pub fn model_data_recursive_query(
    store: &Store,
    path: &Vec<String>,
    entity_id: &String,
    idx: Option<u64>,
    type_mapping: &Vec<(String, TypeData)>,
) -> (res: Result<Value, Error>)
    requires
        path@.len() >= 1,
    ensures
        (match res {
            Ok(v) => Ok::<SpecValue, Error>(value_view(v)),
            Err(e) => Err(e),
        }) == spec_value(*store, path_view(path@), entity_id@, idx, mapping_view(type_mapping@)),
    decreases map_size(mapping_view(type_mapping@)), 2nat,
{
    let ghost pv = path_view(path@);
    let ghost mv = mapping_view(type_mapping@);
    let tname = table_name(path);
    let ti = match find_table_index(store, &tname) {
        Some(k) => k,
        None => {
            return Err(Error::Query);
        },
    };
    let t = &store.tables[ti];
    let ghost sel = sel_rows(t.rows@, entity_id@, idx);
    let row_idxs = select_rows(t, entity_id, idx);
    let n_rows = row_idxs.len();
    if n_rows == 0 {
        return Ok(Value::Null);
    }
    let mut objs: Vec<Value> = Vec::new();
    proof {
        assert(sel.take(0) =~= Seq::<StoredRow>::empty());
        assert(values_view(objs@) =~= Seq::<SpecValue>::empty());
    }
    let mut pos: usize = 0;
    while pos < n_rows
        invariant
            0 <= pos <= n_rows,
            objs@.len() == pos,
            spec_rows(*store, pv, entity_id@, mv, sel.take(pos as int), sel.len() as int)
                == Ok::<Seq<SpecValue>, Error>(values_view(objs@)),
        decreases n_rows - pos,
    {
        let ghost cur = sel.take(pos + 1);
        proof {
            assert(cur.drop_last() =~= sel.take(pos as int));
            assert(cur.last() == sel[pos as int]);
        }
        let row = &t.rows[row_idxs[pos]];
        proof {
            assert(*row == sel[pos as int]);
        }
        match build_object(store, path, entity_id, n_rows, pos, row, type_mapping) {
            Ok(fields) => {
                let ghost ob = objs@;
                objs.push(Value::Object(fields));
                proof {
                    assert(objs@.drop_last() =~= ob);
                    assert(values_view(objs@) == values_view(ob).push(
                        value_view(objs@.last()),
                    ));
                    assert(spec_rows(*store, pv, entity_id@, mv, cur, sel.len() as int)
                        == Ok::<Seq<SpecValue>, Error>(values_view(objs@)));
                }
            },
            Err(e) => {
                proof {
                    assert(spec_rows(*store, pv, entity_id@, mv, cur, sel.len() as int)
                        == Err::<Seq<SpecValue>, Error>(e));
                    lemma_spec_rows_err_extends(
                        *store,
                        pv,
                        entity_id@,
                        mv,
                        sel,
                        sel.len() as int,
                        pos + 1,
                        sel.len() as int,
                    );
                    assert(sel.take(sel.len() as int) =~= sel);
                }
                return Err(e);
            },
        }
        pos += 1;
    }
    proof {
        assert(sel.take(n_rows as int) =~= sel);
        lemma_values_view_len(objs@);
    }
    if n_rows > 1 {
        Ok(Value::List(objs))
    } else {
        let mut objs = objs;
        let ghost full = objs@;
        let single = objs.pop().unwrap();
        proof {
            assert(single == full[0]);
            assert(values_view(full)[0] == value_view(full[0]));
        }
        Ok(single)
    }
}

} // verus!
