//! The schema model (an ordered field-name-to-shape mapping) and the
//! hierarchical value tree the reconstruction engine produces, with their
//! mathematical models.

use vstd::prelude::*;

verus! {

/// Shape of one schema field: a leaf column, a sub-record stored in its own
/// table, an ordered list stored as indexed rows, or a tagged union over
/// named variants.
#[derive(Debug)]
pub enum TypeData {
    Simple(String),
    Nested(String, Vec<(String, TypeData)>),
    List(Box<TypeData>),
    Union(String, Vec<(String, TypeData)>),
}

/// Ordered mapping from field name to field shape for one record level.
pub type TypeMapping = Vec<(String, TypeData)>;

/// A reconstructed hierarchical value.
#[derive(Debug, PartialEq)]
pub enum Value {
    Null,
    Scalar(String),
    List(Vec<Value>),
    Object(Vec<(String, Value)>),
}

/// Ordered field-name-to-value pairs of one reconstructed object.
pub type ValueMapping = Vec<(String, Value)>;

/// Mathematical model of `TypeData`.
pub enum SpecTypeData {
    Simple(Seq<char>),
    Nested(Seq<char>, Seq<(Seq<char>, SpecTypeData)>),
    List(Box<SpecTypeData>),
    Union(Seq<char>, Seq<(Seq<char>, SpecTypeData)>),
}

/// Mathematical model of `Value`.
pub enum SpecValue {
    Null,
    Scalar(Seq<char>),
    List(Seq<SpecValue>),
    Object(Seq<(Seq<char>, SpecValue)>),
}

pub open spec fn td_view(t: TypeData) -> SpecTypeData
    decreases t,
{
    match t {
        TypeData::Simple(k) => SpecTypeData::Simple(k@),
        TypeData::Nested(n, m) => SpecTypeData::Nested(n@, mapping_view(m@)),
        TypeData::List(inner) => SpecTypeData::List(Box::new(td_view(*inner))),
        TypeData::Union(n, vs) => SpecTypeData::Union(n@, mapping_view(vs@)),
    }
}

pub open spec fn mapping_view(m: Seq<(String, TypeData)>) -> Seq<(Seq<char>, SpecTypeData)>
    decreases m,
{
    if m.len() == 0 {
        Seq::empty()
    } else {
        mapping_view(m.drop_last()).push((m.last().0@, td_view(m.last().1)))
    }
}

pub open spec fn value_view(v: Value) -> SpecValue
    decreases v,
{
    match v {
        Value::Null => SpecValue::Null,
        Value::Scalar(s) => SpecValue::Scalar(s@),
        Value::List(items) => SpecValue::List(values_view(items@)),
        Value::Object(fields) => SpecValue::Object(fields_view(fields@)),
    }
}

pub open spec fn values_view(s: Seq<Value>) -> Seq<SpecValue>
    decreases s,
{
    if s.len() == 0 {
        Seq::empty()
    } else {
        values_view(s.drop_last()).push(value_view(s.last()))
    }
}

pub open spec fn fields_view(s: Seq<(String, Value)>) -> Seq<(Seq<char>, SpecValue)>
    decreases s,
{
    if s.len() == 0 {
        Seq::empty()
    } else {
        fields_view(s.drop_last()).push((s.last().0@, value_view(s.last().1)))
    }
}

/// Size of one field shape; the engine's recursion measure.
pub open spec fn td_size(t: SpecTypeData) -> nat
    decreases t,
{
    match t {
        SpecTypeData::Simple(_) => 1,
        SpecTypeData::Nested(_, m) => 1 + map_size(m),
        SpecTypeData::List(inner) => 2 + td_size(*inner),
        SpecTypeData::Union(_, vs) => 1 + map_size(vs),
    }
}

/// Combined size of all shapes of a mapping.
pub open spec fn map_size(m: Seq<(Seq<char>, SpecTypeData)>) -> nat
    decreases m,
{
    if m.len() == 0 {
        0
    } else {
        map_size(m.drop_last()) + 1 + td_size(m.last().1)
    }
}

pub proof fn lemma_map_size_element(m: Seq<(Seq<char>, SpecTypeData)>, k: int)
    requires
        0 <= k < m.len(),
    ensures
        td_size(m[k].1) < map_size(m),
    decreases m.len(),
{
    if k < m.len() - 1 {
        lemma_map_size_element(m.drop_last(), k);
        assert(m.drop_last()[k] == m[k]);
    }
}

pub proof fn lemma_mapping_view_len(m: Seq<(String, TypeData)>)
    ensures
        mapping_view(m).len() == m.len(),
        forall|k: int|
            0 <= k < m.len() ==> #[trigger] mapping_view(m)[k] == (m[k].0@, td_view(m[k].1)),
    decreases m.len(),
{
    if m.len() > 0 {
        lemma_mapping_view_len(m.drop_last());
        assert(forall|k: int|
            0 <= k < m.len() - 1 ==> #[trigger] m.drop_last()[k] == m[k]);
    }
}

pub proof fn lemma_values_view_len(s: Seq<Value>)
    ensures
        values_view(s).len() == s.len(),
        forall|k: int| 0 <= k < s.len() ==> #[trigger] values_view(s)[k] == value_view(s[k]),
    decreases s.len(),
{
    if s.len() > 0 {
        lemma_values_view_len(s.drop_last());
        assert(forall|k: int|
            0 <= k < s.len() - 1 ==> #[trigger] s.drop_last()[k] == s[k]);
    }
}

pub proof fn lemma_fields_view_len(s: Seq<(String, Value)>)
    ensures
        fields_view(s).len() == s.len(),
        forall|k: int|
            0 <= k < s.len() ==> #[trigger] fields_view(s)[k] == (s[k].0@, value_view(s[k].1)),
    decreases s.len(),
{
    if s.len() > 0 {
        lemma_fields_view_len(s.drop_last());
        assert(forall|k: int|
            0 <= k < s.len() - 1 ==> #[trigger] s.drop_last()[k] == s[k]);
    }
}

} // verus!
