use torii_graphql::engine::model_data_recursive_query;
use torii_graphql::schema::models_for_entity;
use torii_graphql::store::{Model, Store, StoredRow, Table};
use torii_graphql::types::{TypeData, Value};
use torii_graphql::Error;

fn s(x: &str) -> String {
    x.to_string()
}

fn row(entity_id: &str, idx: u64, cols: Vec<(&str, &str)>) -> StoredRow {
    StoredRow {
        entity_id: s(entity_id),
        idx,
        data: cols.into_iter().map(|(k, v)| (s(k), s(v))).collect(),
    }
}

fn empty_store() -> Store {
    Store { tables: Vec::new(), entities: Vec::new(), models: Vec::new(), entity_models: Vec::new() }
}

fn scalar(v: &str) -> Value {
    Value::Scalar(s(v))
}

fn object(fields: Vec<(&str, Value)>) -> Value {
    Value::Object(fields.into_iter().map(|(k, v)| (s(k), v)).collect())
}

/// Scenario: entity "0x1" has model "Position" with scalar fields x=1 and
/// y=2 and no other models; its models relation yields exactly one object
/// {x:1, y:2} typed "Position".
#[test]
fn single_model_scalar_fields() {
    let mut store = empty_store();
    store.tables.push(Table {
        name: s("Position"),
        rows: vec![row("0x1", 0, vec![("x", "1"), ("y", "2")])],
    });
    store.models.push(Model {
        id: s("0x7abc"),
        name: s("Position"),
        mapping: vec![
            (s("x"), TypeData::Simple(s("u32"))),
            (s("y"), TypeData::Simple(s("u32"))),
        ],
    });
    store.entity_models.push((s("0x1"), s("0x7abc")));

    let models = models_for_entity(&store, &s("0x1")).unwrap();
    assert_eq!(models.len(), 1);
    assert_eq!(models[0].0, s("Position"));
    assert_eq!(models[0].1, object(vec![("x", scalar("1")), ("y", scalar("2"))]));
}

/// Scenario: model "Inventory" has a list field "items" with three scalar
/// entries [5,6,7] stored as three rows with idx 0,1,2 in its auxiliary
/// table; reconstruction yields items = [5,6,7] in storage order.
#[test]
fn list_field_three_elements() {
    let mut store = empty_store();
    store.tables.push(Table {
        name: s("Inventory"),
        rows: vec![row("0x1", 0, vec![])],
    });
    store.tables.push(Table {
        name: s("Inventory$items"),
        rows: vec![
            row("0x1", 0, vec![("data", "5")]),
            row("0x1", 1, vec![("data", "6")]),
            row("0x1", 2, vec![("data", "7")]),
        ],
    });
    let mapping = vec![(s("items"), TypeData::List(Box::new(TypeData::Simple(s("u32")))))];

    let v = model_data_recursive_query(&store, &vec![s("Inventory")], &s("0x1"), None, &mapping)
        .unwrap();
    assert_eq!(
        v,
        object(vec![("items", Value::List(vec![scalar("5"), scalar("6"), scalar("7")]))])
    );
}

/// A list field with no stored rows reconstructs to an empty ordered
/// sequence, and one with a single row to a one-element sequence.
#[test]
fn list_field_zero_and_one_element() {
    let mut store = empty_store();
    store.tables.push(Table { name: s("Inventory"), rows: vec![row("0x1", 0, vec![])] });
    store.tables.push(Table {
        name: s("Inventory$items"),
        rows: vec![row("0x1", 0, vec![("data", "9")])],
    });
    store.tables.push(Table { name: s("Inventory$tags"), rows: vec![] });
    let mapping = vec![
        (s("items"), TypeData::List(Box::new(TypeData::Simple(s("u32"))))),
        (s("tags"), TypeData::List(Box::new(TypeData::Simple(s("felt252"))))),
    ];

    let v = model_data_recursive_query(&store, &vec![s("Inventory")], &s("0x1"), None, &mapping)
        .unwrap();
    assert_eq!(
        v,
        object(vec![
            ("items", Value::List(vec![scalar("9")])),
            ("tags", Value::List(vec![])),
        ])
    );
}

fn game_store() -> (Store, Vec<(String, TypeData)>) {
    let mut store = empty_store();
    store.tables.push(Table {
        name: s("Game"),
        rows: vec![row("0x1", 0, vec![("score", "10"), ("external_choice", "left")])],
    });
    store.tables.push(Table {
        name: s("Game$meta"),
        rows: vec![row("0x1", 0, vec![("round", "3")])],
    });
    store.tables.push(Table {
        name: s("Game$items"),
        rows: vec![
            row("0x1", 0, vec![("data", "a")]),
            row("0x1", 1, vec![("data", "b")]),
        ],
    });
    store.tables.push(Table { name: s("Game$choice$B"), rows: vec![] });
    let mapping = vec![
        (s("score"), TypeData::Simple(s("u32"))),
        (
            s("meta"),
            TypeData::Nested(s("Meta"), vec![(s("round"), TypeData::Simple(s("u8")))]),
        ),
        (s("items"), TypeData::List(Box::new(TypeData::Simple(s("felt252"))))),
        (
            s("choice"),
            TypeData::Union(
                s("Choice"),
                vec![
                    (
                        s("A"),
                        TypeData::Nested(s("A"), vec![(s("value"), TypeData::Simple(s("u8")))]),
                    ),
                    (
                        s("B"),
                        TypeData::Nested(s("B"), vec![(s("b1"), TypeData::Simple(s("u8")))]),
                    ),
                ],
            ),
        ),
    ];
    (store, mapping)
}

/// A schema with a nested field, a list field and a union field round-trips
/// through the engine into a value tree of exactly that shape; a union
/// field yields one slot per declared variant, the populated scalar variant
/// first and Null for the variant whose storage is empty.
#[test]
fn nested_list_union_round_trip() {
    let (store, mapping) = game_store();
    let v = model_data_recursive_query(&store, &vec![s("Game")], &s("0x1"), None, &mapping)
        .unwrap();
    assert_eq!(
        v,
        object(vec![
            ("score", scalar("10")),
            ("meta", object(vec![("round", scalar("3"))])),
            ("items", Value::List(vec![scalar("a"), scalar("b")])),
            (
                "choice",
                Value::List(vec![object(vec![("value", scalar("left"))]), Value::Null]),
            ),
        ])
    );
}

/// No stored rows reconstruct to Null.
#[test]
fn no_rows_yields_null() {
    let (store, mapping) = game_store();
    let v = model_data_recursive_query(&store, &vec![s("Game")], &s("0x9"), None, &mapping)
        .unwrap();
    assert_eq!(v, Value::Null);
}

/// Reconstructing the same entity twice with no intervening writes
/// produces identical output.
#[test]
fn reconstruction_is_idempotent() {
    let (store, mapping) = game_store();
    let a = model_data_recursive_query(&store, &vec![s("Game")], &s("0x1"), None, &mapping);
    let b = model_data_recursive_query(&store, &vec![s("Game")], &s("0x1"), None, &mapping);
    assert_eq!(a, b);
}

/// Multiple rows of one table reconstruct to an ordered list of objects.
#[test]
fn multiple_rows_yield_list() {
    let mut store = empty_store();
    store.tables.push(Table {
        name: s("Moves"),
        rows: vec![
            row("0x1", 0, vec![("d", "n")]),
            row("0x1", 1, vec![("d", "w")]),
        ],
    });
    let mapping = vec![(s("d"), TypeData::Simple(s("u8")))];
    let v = model_data_recursive_query(&store, &vec![s("Moves")], &s("0x1"), None, &mapping)
        .unwrap();
    assert_eq!(
        v,
        Value::List(vec![
            object(vec![("d", scalar("n"))]),
            object(vec![("d", scalar("w"))]),
        ])
    );
}

/// A row index pins the fetched row when given.
#[test]
fn index_filters_rows() {
    let mut store = empty_store();
    store.tables.push(Table {
        name: s("Moves"),
        rows: vec![
            row("0x1", 0, vec![("d", "n")]),
            row("0x1", 1, vec![("d", "w")]),
        ],
    });
    let mapping = vec![(s("d"), TypeData::Simple(s("u8")))];
    let v = model_data_recursive_query(&store, &vec![s("Moves")], &s("0x1"), Some(1), &mapping)
        .unwrap();
    assert_eq!(v, object(vec![("d", scalar("w"))]));
}

/// A missing table is a storage-side query failure.
#[test]
fn missing_table_is_query_error() {
    let store = empty_store();
    let mapping = vec![(s("x"), TypeData::Simple(s("u32")))];
    let r = model_data_recursive_query(&store, &vec![s("Nowhere")], &s("0x1"), None, &mapping);
    assert_eq!(r, Err(Error::Query));
}

/// A row that lacks a declared scalar column is a schema/storage drift,
/// reported as a data-integrity failure and never silently coerced.
#[test]
fn missing_column_is_data_integrity_error() {
    let mut store = empty_store();
    store.tables.push(Table { name: s("Position"), rows: vec![row("0x1", 0, vec![("x", "1")])] });
    let mapping = vec![
        (s("x"), TypeData::Simple(s("u32"))),
        (s("y"), TypeData::Simple(s("u32"))),
    ];
    let r = model_data_recursive_query(&store, &vec![s("Position")], &s("0x1"), None, &mapping);
    assert_eq!(r, Err(Error::DataIntegrity));
}

/// A union variant whose payload is not a sub-record is a schema drift.
#[test]
fn malformed_union_variant_is_data_integrity_error() {
    let mut store = empty_store();
    store.tables.push(Table { name: s("Game"), rows: vec![row("0x1", 0, vec![])] });
    let mapping = vec![(
        s("choice"),
        TypeData::Union(s("Choice"), vec![(s("A"), TypeData::Simple(s("u8")))]),
    )];
    let r = model_data_recursive_query(&store, &vec![s("Game")], &s("0x1"), None, &mapping);
    assert_eq!(r, Err(Error::DataIntegrity));
}

/// The table of a sub-path strips the root model's name prefix: a nested
/// field whose segment carries the `<root>_` prefix is read from the table
/// named without it.
#[test]
fn table_name_strips_root_prefix() {
    let mut store = empty_store();
    store.tables.push(Table { name: s("Game"), rows: vec![row("0x1", 0, vec![])] });
    // path ["Game", "Game_meta"] joins to "Game$Game_meta"; the prefix
    // "Game_" is removed, so the rows live in "Game$meta".
    store.tables.push(Table {
        name: s("Game$meta"),
        rows: vec![row("0x1", 0, vec![("round", "3")])],
    });
    let mapping = vec![(
        s("Game_meta"),
        TypeData::Nested(s("Meta"), vec![(s("round"), TypeData::Simple(s("u8")))]),
    )];
    let v = model_data_recursive_query(&store, &vec![s("Game")], &s("0x1"), None, &mapping)
        .unwrap();
    assert_eq!(v, object(vec![("Game_meta", object(vec![("round", scalar("3"))]))]));
}

/// When the parent row set has more than one row, each child query is
/// pinned to the parent row's position; with a single parent row no index
/// is passed.
#[test]
fn nested_rows_follow_parent_index() {
    let mut store = empty_store();
    store.tables.push(Table {
        name: s("Moves"),
        rows: vec![
            row("0x1", 0, vec![("n", "first")]),
            row("0x1", 1, vec![("n", "second")]),
        ],
    });
    store.tables.push(Table {
        name: s("Moves$at"),
        rows: vec![
            row("0x1", 0, vec![("x", "10")]),
            row("0x1", 1, vec![("x", "20")]),
        ],
    });
    let mapping = vec![
        (s("n"), TypeData::Simple(s("felt252"))),
        (s("at"), TypeData::Nested(s("At"), vec![(s("x"), TypeData::Simple(s("u32")))])),
    ];
    let v = model_data_recursive_query(&store, &vec![s("Moves")], &s("0x1"), None, &mapping)
        .unwrap();
    assert_eq!(
        v,
        Value::List(vec![
            object(vec![("n", scalar("first")), ("at", object(vec![("x", scalar("10"))]))]),
            object(vec![("n", scalar("second")), ("at", object(vec![("x", scalar("20"))]))]),
        ])
    );
}

/// A union variant whose payload is a full sub-record is reconstructed
/// from its own path, while the other variant's empty storage yields Null.
#[test]
fn union_nested_variant_populated() {
    let mut store = empty_store();
    store.tables.push(Table { name: s("Game"), rows: vec![row("0x1", 0, vec![])] });
    store.tables.push(Table { name: s("Game$choice$A"), rows: vec![] });
    store.tables.push(Table {
        name: s("Game$choice$B"),
        rows: vec![row("0x1", 0, vec![("b1", "7")])],
    });
    let mapping = vec![(
        s("choice"),
        TypeData::Union(
            s("Choice"),
            vec![
                (s("A"), TypeData::Nested(s("A"), vec![(s("a1"), TypeData::Simple(s("u8")))])),
                (s("B"), TypeData::Nested(s("B"), vec![(s("b1"), TypeData::Simple(s("u8")))])),
            ],
        ),
    )];
    let v = model_data_recursive_query(&store, &vec![s("Game")], &s("0x1"), None, &mapping)
        .unwrap();
    assert_eq!(
        v,
        object(vec![(
            "choice",
            Value::List(vec![Value::Null, object(vec![("b1", scalar("7"))])]),
        )])
    );
}

/// An attached model id that the registry does not resolve is skipped by
/// the join, as the storage join would skip it.
#[test]
fn unresolved_model_id_is_skipped() {
    let mut store = empty_store();
    store.entity_models.push((s("0x1"), s("0xdead")));
    let models = models_for_entity(&store, &s("0x1")).unwrap();
    assert_eq!(models.len(), 0);
}
