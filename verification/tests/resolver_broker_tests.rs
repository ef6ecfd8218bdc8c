use torii_graphql::broker::Broker;
use torii_graphql::entity::{split_keys, Entity, EntityObject};
use torii_graphql::resolver::{resolve_many, resolve_one};
use torii_graphql::store::Store;
use torii_graphql::types::Value;
use torii_graphql::Error;

fn s(x: &str) -> String {
    x.to_string()
}

fn entity(id: &str, keys: &str, event_id: &str) -> Entity {
    Entity {
        id: s(id),
        keys: s(keys),
        event_id: s(event_id),
        created_at: 0,
        updated_at: 0,
        executed_at: 0,
    }
}

fn store_with_entities(es: Vec<Entity>) -> Store {
    Store { tables: Vec::new(), entities: es, models: Vec::new(), entity_models: Vec::new() }
}

fn field<'a>(vm: &'a [(String, Value)], name: &str) -> &'a Value {
    &vm.iter().find(|(k, _)| k == name).unwrap().1
}

fn push_id(seen: &mut Vec<String>, vm: &[(String, Value)]) {
    match field(vm, "id") {
        Value::Scalar(x) => seen.push(x.clone()),
        other => panic!("id is not a scalar: {other:?}"),
    }
}

/// The value mapping renders the id, the split keys and the timestamps in
/// the fixed textual date-time format.
#[test]
fn value_mapping_renders_fields() {
    let mut e = entity("0x1", "0xa/0xb", "ev1");
    e.created_at = 0;
    e.updated_at = 1431648000;
    e.executed_at = 253402300799;
    let vm = EntityObject::value_mapping(e);
    assert_eq!(field(&vm, "id"), &Value::Scalar(s("0x1")));
    assert_eq!(
        field(&vm, "keys"),
        &Value::List(vec![Value::Scalar(s("0xa")), Value::Scalar(s("0xb"))])
    );
    assert_eq!(field(&vm, "eventId"), &Value::Scalar(s("ev1")));
    assert_eq!(field(&vm, "createdAt"), &Value::Scalar(s("1970-01-01T00:00:00Z")));
    assert_eq!(field(&vm, "updatedAt"), &Value::Scalar(s("2015-05-15T00:00:00Z")));
    assert_eq!(field(&vm, "executedAt"), &Value::Scalar(s("9999-12-31T23:59:59Z")));
}

/// Key splitting keeps non-empty components only.
#[test]
fn split_keys_drops_empty_components() {
    assert_eq!(split_keys("a/b/c"), vec![s("a"), s("b"), s("c")]);
    assert_eq!(split_keys("/a//b/"), vec![s("a"), s("b")]);
    assert_eq!(split_keys(""), Vec::<String>::new());
    assert_eq!(split_keys("///"), Vec::<String>::new());
}

/// Fetching one entity by id yields its object, and an absent id nothing.
#[test]
fn resolve_one_by_id() {
    let store = store_with_entities(vec![entity("0x1", "0x1", "e1"), entity("0x2", "0x2", "e2")]);
    let vm = resolve_one(&store, &s("0x2")).unwrap();
    assert_eq!(field(&vm, "id"), &Value::Scalar(s("0x2")));
    assert!(resolve_one(&store, &s("0x9")).is_none());
}

/// Scenario: a paginated fetch with page size 2 over 5 matching rows
/// returns exactly 2 items per page with a correct has-next flag, and a
/// cursor from one page resumes at the next row with no duplication or
/// omission.
#[test]
fn pagination_pages_of_two_over_five() {
    let store = store_with_entities(vec![
        entity("0x1", "k", "e1"),
        entity("0x2", "k", "e2"),
        entity("0x3", "k", "e3"),
        entity("0x4", "k", "e4"),
        entity("0x5", "k", "e5"),
    ]);
    let mut seen: Vec<String> = Vec::new();

    let p1 = resolve_many(&store, &None, Some(2), &None).unwrap();
    assert_eq!(p1.items.len(), 2);
    assert!(p1.has_next_page);
    assert_eq!(p1.end_cursor, Some(s("e2")));
    for vm in &p1.items {
        push_id(&mut seen, vm);
    }

    let p2 = resolve_many(&store, &None, Some(2), &p1.end_cursor).unwrap();
    assert_eq!(p2.items.len(), 2);
    assert!(p2.has_next_page);
    assert_eq!(p2.end_cursor, Some(s("e4")));
    for vm in &p2.items {
        push_id(&mut seen, vm);
    }

    let p3 = resolve_many(&store, &None, Some(2), &p2.end_cursor).unwrap();
    assert_eq!(p3.items.len(), 1);
    assert!(!p3.has_next_page);
    assert_eq!(p3.end_cursor, Some(s("e5")));
    for vm in &p3.items {
        push_id(&mut seen, vm);
    }

    assert_eq!(seen, vec![s("0x1"), s("0x2"), s("0x3"), s("0x4"), s("0x5")]);
}

/// A cursor that denotes no matching row is an invalid client argument.
#[test]
fn unknown_cursor_is_argument_error() {
    let store = store_with_entities(vec![entity("0x1", "k", "e1")]);
    let r = resolve_many(&store, &None, Some(2), &Some(s("nope")));
    assert!(matches!(r, Err(Error::Argument)));
}

/// The keys filter keeps only entities whose key components start with
/// the filter's components.
#[test]
fn keys_filter_is_prefix_match() {
    let store = store_with_entities(vec![
        entity("0x1", "a/b", "e1"),
        entity("0x2", "a/c", "e2"),
        entity("0x3", "a/b/c", "e3"),
    ]);
    let filter = Some(vec![s("a"), s("b")]);
    let p = resolve_many(&store, &filter, None, &None).unwrap();
    assert_eq!(p.items.len(), 2);
    assert_eq!(field(&p.items[0], "id"), &Value::Scalar(s("0x1")));
    assert_eq!(field(&p.items[1], "id"), &Value::Scalar(s("0x3")));
    assert!(!p.has_next_page);
}

/// An omitted page size falls back to the default.
#[test]
fn default_page_size_applies() {
    let mut es = Vec::new();
    for i in 0..12 {
        es.push(entity(&format!("0x{i}"), "k", &format!("e{i:02}")));
    }
    let store = store_with_entities(es);
    let p = resolve_many(&store, &None, None, &None).unwrap();
    assert_eq!(p.items.len(), 10);
    assert!(p.has_next_page);
}

/// Scenario: a subscription with filter id = X receives only events whose
/// entity id equals X; one with no filter receives every event published
/// while it is active, and none after it closes.
#[test]
fn subscription_filtering_and_close() {
    let mut broker = Broker::new();
    let filtered = broker.subscribe(Some(s("0x1")));
    let open = broker.subscribe(None);

    broker.publish(&entity("0x1", "k", "e1"));
    broker.publish(&entity("0x2", "k", "e2"));

    let f = &broker.subs[filtered as usize];
    assert_eq!(f.received.len(), 1);
    assert_eq!(f.received[0].id, s("0x1"));

    let o = &broker.subs[open as usize];
    assert_eq!(o.received.len(), 2);
    assert_eq!(o.received[0].id, s("0x1"));
    assert_eq!(o.received[1].id, s("0x2"));

    broker.close(open);
    broker.publish(&entity("0x1", "k", "e3"));
    assert_eq!(broker.subs[open as usize].received.len(), 2);
    assert_eq!(broker.subs[filtered as usize].received.len(), 2);
}

/// A subscription only sees events published while it is active: there is
/// no replay of history at subscribe time.
#[test]
fn no_replay_before_subscription() {
    let mut broker = Broker::new();
    broker.publish(&entity("0x1", "k", "e1"));
    let late = broker.subscribe(None);
    assert_eq!(broker.subs[late as usize].received.len(), 0);
    broker.publish(&entity("0x1", "k", "e2"));
    assert_eq!(broker.subs[late as usize].received.len(), 1);
    assert_eq!(broker.subs[late as usize].received[0].event_id, s("e2"));
}

/// The root entity schema exposes its names and related fields.
#[test]
fn entity_object_descriptors() {
    let o = EntityObject;
    assert_eq!(o.name(), ("entity", "entities"));
    assert_eq!(o.type_label(), "Entity");
    assert_eq!(o.related_fields(), vec![s("models")]);
    let tm = o.type_mapping();
    let names: Vec<&str> = tm.iter().map(|(k, _)| k.as_str()).collect();
    assert_eq!(names, vec!["id", "keys", "eventId", "createdAt", "updatedAt", "executedAt"]);
}
