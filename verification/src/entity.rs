//! The root entity record, its schema, and its projection to a value
//! mapping: the id, the split key components, the event ordering column
//! and the three timestamps rendered in the fixed textual format.

use vstd::prelude::*;
use vstd::string::StrSliceExecFns;
use vstd::string::StringExecFns;

use crate::naming::path_view;
use crate::types::{
    fields_view, lemma_values_view_len, mapping_view, SpecValue, TypeData, TypeMapping, Value,
    ValueMapping,
};

verus! {

/// Latest timestamp the fixed textual format can render (end of year 9999).
pub const MAX_TIMESTAMP: i64 = 253402300799;

/// One row of the root entity table.  `keys` holds the identity-defining
/// key components as one `/`-delimited string; the timestamps are seconds
/// since the Unix epoch.
pub struct Entity {
    pub id: String,
    pub keys: String,
    pub event_id: String,
    pub created_at: i64,
    pub updated_at: i64,
    pub executed_at: i64,
}

/// Mathematical model of `Entity`.
pub struct SpecEntity {
    pub id: Seq<char>,
    pub keys: Seq<char>,
    pub event_id: Seq<char>,
    pub created_at: int,
    pub updated_at: int,
    pub executed_at: int,
}

pub open spec fn entity_view(e: Entity) -> SpecEntity {
    SpecEntity {
        id: e.id@,
        keys: e.keys@,
        event_id: e.event_id@,
        created_at: e.created_at as int,
        updated_at: e.updated_at as int,
        executed_at: e.executed_at as int,
    }
}

/// A deep copy of an entity row, equal to the original in the model.
pub fn clone_entity(e: &Entity) -> (r: Entity)
    ensures
        entity_view(r) == entity_view(*e),
{
    Entity {
        id: e.id.clone(),
        keys: e.keys.clone(),
        event_id: e.event_id.clone(),
        created_at: e.created_at,
        updated_at: e.updated_at,
        executed_at: e.executed_at,
    }
}

/// Character position of the first `sep` in `s` (or `s.len()` if none).
pub open spec fn first_sep(s: Seq<char>, sep: char) -> nat
    decreases s.len(),
{
    if s.len() == 0 {
        0
    } else if s[0] == sep {
        0
    } else {
        1 + first_sep(s.skip(1), sep)
    }
}

pub proof fn lemma_first_sep(s: Seq<char>, sep: char)
    ensures
        first_sep(s, sep) <= s.len(),
        first_sep(s, sep) < s.len() ==> s[first_sep(s, sep) as int] == sep,
        forall|j: int| 0 <= j < first_sep(s, sep) ==> s[j] != sep,
    decreases s.len(),
{
    if s.len() > 0 && s[0] != sep {
        lemma_first_sep(s.skip(1), sep);
        assert forall|j: int| 0 <= j < first_sep(s, sep) implies s[j] != sep by {
            if j > 0 {
                assert(s.skip(1)[j - 1] != sep);
                assert(s.skip(1)[j - 1] == s[j]);
            }
        }
    }
}

proof fn lemma_first_sep_is(t: Seq<char>, sep: char, m: int)
    requires
        0 <= m <= t.len(),
        forall|l: int| 0 <= l < m ==> t[l] != sep,
        m < t.len() ==> t[m] == sep,
    ensures
        first_sep(t, sep) == m,
    decreases m,
{
    if m > 0 {
        assert(t[0] != sep);
        lemma_first_sep_is(t.skip(1), sep, m - 1);
        assert(forall|j: int| 0 <= j < t.len() - 1 ==> #[trigger] t.skip(1)[j] == t[j + 1]);
    }
}

/// The non-empty `sep`-separated components of `s`, in order.
pub open spec fn split_nonempty(s: Seq<char>, sep: char) -> Seq<Seq<char>>
    decreases s.len(),
    via split_nonempty_decreases
{
    if s.len() == 0 {
        Seq::empty()
    } else if s[0] == sep {
        split_nonempty(s.skip(1), sep)
    } else {
        seq![s.take(first_sep(s, sep) as int)] + split_nonempty(
            s.skip(first_sep(s, sep) as int),
            sep,
        )
    }
}

#[via_fn]
proof fn split_nonempty_decreases(s: Seq<char>, sep: char) {
    if s.len() > 0 && s[0] != sep {
        lemma_first_sep(s, sep);
    }
}

/// The non-empty `/`-separated components of `s`, in order.
#[verifier::loop_isolation(false)]
pub fn split_keys(s: &str) -> (r: Vec<String>)
    ensures
        path_view(r@) == split_nonempty(s@, '/'),
{
    let n = s.unicode_len();
    let mut r: Vec<String> = Vec::new();
    let mut i: usize = 0;
    proof {
        assert(s@.skip(0) =~= s@);
        assert(path_view(r@) =~= Seq::<Seq<char>>::empty());
        assert(path_view(r@) + split_nonempty(s@, '/') =~= split_nonempty(s@, '/'));
    }
    while i < n
        invariant
            0 <= i <= n,
            split_nonempty(s@, '/') == path_view(r@) + split_nonempty(s@.skip(i as int), '/'),
        decreases n - i,
    {
        let c = s.get_char(i);
        if c == '/' {
            proof {
                assert(s@.skip(i as int)[0] == s@[i as int]);
                assert(s@.skip(i as int).skip(1) =~= s@.skip(i + 1));
            }
            i += 1;
        } else {
            let mut j: usize = i + 1;
            while j < n && s.get_char(j) != '/'
                invariant
                    i < j <= n,
                    forall|l: int| i < l < j ==> s@[l] != '/',
                decreases n - j,
            {
                j += 1;
            }
            let tok = String::from_str(s.substring_char(i, j));
            let ghost rb = r@;
            r.push(tok);
            proof {
                let rest = s@.skip(i as int);
                assert(forall|l: int|
                    0 <= l < rest.len() ==> #[trigger] rest[l] == s@[l + i]);
                lemma_first_sep_is(rest, '/', j - i);
                assert(rest.take(j - i) =~= s@.subrange(i as int, j as int));
                assert(rest.skip(j - i) =~= s@.skip(j as int));
                assert(split_nonempty(rest, '/') == seq![s@.subrange(i as int, j as int)]
                    + split_nonempty(s@.skip(j as int), '/'));
                assert forall|l: int| 0 <= l < r@.len() implies #[trigger] path_view(r@)[l] == (
                path_view(rb).push(s@.subrange(i as int, j as int)))[l] by {
                    assert(path_view(r@)[l] == r@[l]@);
                    if l < rb.len() {
                        assert(path_view(rb)[l] == rb[l]@);
                    }
                }
                assert(path_view(r@) =~= path_view(rb).push(s@.subrange(i as int, j as int)));
                assert((path_view(rb) + (seq![s@.subrange(i as int, j as int)] + split_nonempty(
                    s@.skip(j as int),
                    '/',
                ))) =~= (path_view(r@) + split_nonempty(s@.skip(j as int), '/')));
            }
            i = j;
        }
    }
    proof {
        assert(s@.skip(n as int) =~= Seq::<char>::empty());
        assert(split_nonempty(Seq::<char>::empty(), '/') =~= Seq::<Seq<char>>::empty());
        assert(path_view(r@) + Seq::<Seq<char>>::empty() =~= path_view(r@));
    }
    r
}

/// Fixed textual date-time format for rendering timestamps.
pub const DATETIME_FORMAT: &'static str = "%Y-%m-%dT%H:%M:%SZ";

/// The text that the fixed date-time format renders for a seconds-since-
/// epoch value; a function of the seconds value alone.
pub uninterp spec fn datetime_text_of(secs: int) -> Seq<char>;

/// Relies on chrono's `DateTime::<Utc>::from_timestamp` and `format`: for
/// an in-range seconds value the timestamp is `Some`, and rendering it
/// with the fixed format yields text that depends on the seconds value
/// alone.
#[verifier::external_body]
fn format_datetime(secs: i64) -> (r: String)
    requires
        0 <= secs <= MAX_TIMESTAMP,
    ensures
        r@ == datetime_text_of(secs as int),
{
    let dt = chrono::DateTime::<chrono::Utc>::from_timestamp(secs, 0).unwrap();
    dt.format(DATETIME_FORMAT).to_string()
}

/// One scalar slot per key component.
pub open spec fn scalars_of(ss: Seq<Seq<char>>) -> Seq<SpecValue> {
    ss.map(|i: int, x: Seq<char>| SpecValue::Scalar(x))
}

/// The value mapping a well-formed entity row projects to.
pub open spec fn entity_value_mapping(e: SpecEntity) -> Seq<(Seq<char>, SpecValue)> {
    seq![
        ("id"@, SpecValue::Scalar(e.id)),
        ("keys"@, SpecValue::List(scalars_of(split_nonempty(e.keys, '/')))),
        ("eventId"@, SpecValue::Scalar(e.event_id)),
        ("createdAt"@, SpecValue::Scalar(datetime_text_of(e.created_at))),
        ("updatedAt"@, SpecValue::Scalar(datetime_text_of(e.updated_at))),
        ("executedAt"@, SpecValue::Scalar(datetime_text_of(e.executed_at))),
    ]
}

/// The root entity object type: a stable type name, its schema, and the
/// projection of an entity row to scalar fields.
pub struct EntityObject;

impl EntityObject {
    /// Query field names of the root entity type: the single-item and the
    /// paginated fetch.
    pub fn name(&self) -> (r: (&'static str, &'static str))
        ensures
            r.0@ == "entity"@,
            r.1@ == "entities"@,
    {
        ("entity", "entities")
    }

    /// Exposed type name of the root entity type.
    pub fn type_label(&self) -> (r: &'static str)
        ensures
            r@ == "Entity"@,
    {
        "Entity"
    }

    /// Relation fields resolved through the reconstruction engine rather
    /// than by row projection.
    pub fn related_fields(&self) -> (r: Vec<String>)
        ensures
            path_view(r@) == seq!["models"@],
    {
        let mut r: Vec<String> = Vec::new();
        r.push(String::from_str("models"));
        proof {
            assert(path_view(r@) =~= seq!["models"@]);
        }
        r
    }

    /// Schema of the root entity type, in declaration order.
    pub fn type_mapping(&self) -> (r: TypeMapping)
        ensures
            mapping_view(r@) == seq![
                ("id"@, crate::types::SpecTypeData::Simple("ID"@)),
                ("keys"@, crate::types::SpecTypeData::Simple("[String]"@)),
                ("eventId"@, crate::types::SpecTypeData::Simple("String"@)),
                ("createdAt"@, crate::types::SpecTypeData::Simple("DateTime"@)),
                ("updatedAt"@, crate::types::SpecTypeData::Simple("DateTime"@)),
                ("executedAt"@, crate::types::SpecTypeData::Simple("DateTime"@)),
            ],
    {
        let mut r: TypeMapping = Vec::new();
        r.push((String::from_str("id"), TypeData::Simple(String::from_str("ID"))));
        r.push((String::from_str("keys"), TypeData::Simple(String::from_str("[String]"))));
        r.push((String::from_str("eventId"), TypeData::Simple(String::from_str("String"))));
        r.push((String::from_str("createdAt"), TypeData::Simple(String::from_str("DateTime"))));
        r.push((String::from_str("updatedAt"), TypeData::Simple(String::from_str("DateTime"))));
        r.push((String::from_str("executedAt"), TypeData::Simple(String::from_str("DateTime"))));
        proof {
            reveal_with_fuel(mapping_view, 8);
            assert(mapping_view(r@) =~= seq![
                ("id"@, crate::types::SpecTypeData::Simple("ID"@)),
                ("keys"@, crate::types::SpecTypeData::Simple("[String]"@)),
                ("eventId"@, crate::types::SpecTypeData::Simple("String"@)),
                ("createdAt"@, crate::types::SpecTypeData::Simple("DateTime"@)),
                ("updatedAt"@, crate::types::SpecTypeData::Simple("DateTime"@)),
                ("executedAt"@, crate::types::SpecTypeData::Simple("DateTime"@)),
            ]);
        }
        r
    }

    /// Projection of one entity row to its scalar fields: the id, the
    /// split key components, the event id and the rendered timestamps.
    pub fn value_mapping(entity: Entity) -> (r: ValueMapping)
        requires
            0 <= entity.created_at <= MAX_TIMESTAMP,
            0 <= entity.updated_at <= MAX_TIMESTAMP,
            0 <= entity.executed_at <= MAX_TIMESTAMP,
        ensures
            fields_view(r@) == entity_value_mapping(entity_view(entity)),
    {
        let parts = split_keys(entity.keys.as_str());
        let mut keys: Vec<Value> = Vec::new();
        let n = parts.len();
        let mut k: usize = 0;
        while k < n
            invariant
                0 <= k <= n,
                n == parts@.len(),
                keys@.len() == k,
                forall|l: int|
                    0 <= l < k ==> #[trigger] crate::types::values_view(keys@)[l]
                        == SpecValue::Scalar(parts@[l]@),
            decreases n - k,
        {
            let ghost kb = keys@;
            keys.push(Value::Scalar(parts[k].clone()));
            proof {
                lemma_values_view_len(keys@);
                lemma_values_view_len(kb);
                assert(keys@.drop_last() =~= kb);
                assert forall|l: int| 0 <= l < k + 1 implies #[trigger] crate::types::values_view(
                    keys@,
                )[l] == SpecValue::Scalar(parts@[l]@) by {
                    assert(crate::types::values_view(keys@)[l] == crate::types::value_view(
                        keys@[l],
                    ));
                }
            }
            k += 1;
        }
        proof {
            lemma_values_view_len(keys@);
            assert forall|l: int| 0 <= l < n implies #[trigger] crate::types::values_view(
                keys@,
            )[l] == scalars_of(split_nonempty(entity.keys@, '/'))[l] by {
                assert(crate::types::values_view(keys@)[l] == SpecValue::Scalar(parts@[l]@));
                assert(path_view(parts@)[l] == parts@[l]@);
            }
            assert(crate::types::values_view(keys@) =~= scalars_of(
                split_nonempty(entity.keys@, '/'),
            ));
        }
        let created = format_datetime(entity.created_at);
        let updated = format_datetime(entity.updated_at);
        let executed = format_datetime(entity.executed_at);
        let mut r: ValueMapping = Vec::new();
        r.push((String::from_str("id"), Value::Scalar(entity.id)));
        r.push((String::from_str("keys"), Value::List(keys)));
        r.push((String::from_str("eventId"), Value::Scalar(entity.event_id)));
        r.push((String::from_str("createdAt"), Value::Scalar(created)));
        r.push((String::from_str("updatedAt"), Value::Scalar(updated)));
        r.push((String::from_str("executedAt"), Value::Scalar(executed)));
        proof {
            reveal_with_fuel(fields_view, 8);
            assert(fields_view(r@) =~= entity_value_mapping(entity_view(entity)));
        }
        r
    }
}

} // verus!
