use tier::checks::{apply_wildcard_bindings, bind_required_paths, collect_matching_values, wildcard_bindings};
use tier::config::ConfigMetadata;
use tier::json::{canonicalize_runtime_path, get_value_at_path, insert_path, take_value_at_path, value_kind, JsonValue};
use tier::merge::merge_values;
use tier::rules::{json_to_string, values_equal};

fn s(text: &str) -> JsonValue {
    JsonValue::String(text.to_string())
}

fn num(text: &str) -> JsonValue {
    JsonValue::Number(text.to_string())
}

fn obj(entries: Vec<(&str, JsonValue)>) -> JsonValue {
    JsonValue::Object(entries.into_iter().map(|(k, v)| (k.to_string(), v)).collect())
}

fn segs(path: &str) -> Vec<String> {
    path.split('.').map(|p| p.to_string()).collect()
}

#[test]
fn insert_then_read_gives_value_back() {
    let mut root = obj(vec![]);
    insert_path(&mut root, &segs("server.port"), num("8080")).unwrap();
    assert_eq!(json_to_string(&root), r#"{"server":{"port":8080}}"#);
    let read = get_value_at_path(&root, "server.port").unwrap();
    assert!(values_equal(read, &num("8080")));
}

#[test]
fn insert_pads_arrays_with_null() {
    let mut root = obj(vec![]);
    insert_path(&mut root, &segs("items.2"), s("x")).unwrap();
    assert_eq!(json_to_string(&root), r#"{"items":[null,null,"x"]}"#);
}

#[test]
fn insert_through_scalar_conflicts() {
    let mut root = obj(vec![("a", num("1"))]);
    let r = insert_path(&mut root, &segs("a.b"), num("2"));
    assert!(r.is_err());
    assert_eq!(json_to_string(&root), r#"{"a":1}"#);
}

#[test]
fn failed_insert_keeps_containers_made_on_the_way() {
    let mut root = obj(vec![]);
    let r = insert_path(&mut root, &vec!["a".to_string(), String::new()], num("2"));
    assert_eq!(r, Err("configuration path contains an empty segment".to_string()));
    assert_eq!(json_to_string(&root), r#"{"a":{}}"#);
}

#[test]
fn take_removes_the_value() {
    let mut root = obj(vec![("a", obj(vec![("b", num("1")), ("c", num("2"))]))]);
    let taken = take_value_at_path(&mut root, "a.b").unwrap();
    assert!(values_equal(&taken, &num("1")));
    assert_eq!(json_to_string(&root), r#"{"a":{"c":2}}"#);
    assert!(take_value_at_path(&mut root, "a.zzz").is_none());
}

#[test]
fn missing_paths_read_as_none() {
    let root = obj(vec![("a", JsonValue::Array(vec![num("1")]))]);
    assert!(get_value_at_path(&root, "a.1").is_none());
    assert!(get_value_at_path(&root, "a.0").is_some());
    assert!(get_value_at_path(&root, "b").is_none());
}

#[test]
fn kinds_are_named() {
    assert_eq!(value_kind(&JsonValue::Null), "null");
    assert_eq!(value_kind(&JsonValue::Bool(true)), "bool");
    assert_eq!(value_kind(&num("1")), "number");
    assert_eq!(value_kind(&s("x")), "string");
    assert_eq!(value_kind(&JsonValue::Array(vec![])), "array");
    assert_eq!(value_kind(&obj(vec![])), "object");
}

#[test]
fn json_text_escapes_strings() {
    let v = obj(vec![("k", s("a\"b\\c\n"))]);
    assert_eq!(json_to_string(&v), r#"{"k":"a\"b\\c\n"}"#);
    assert_eq!(json_to_string(&JsonValue::Array(vec![JsonValue::Null, JsonValue::Bool(false)])), "[null,false]");
}

#[test]
fn runtime_path_is_stable() {
    let root = obj(vec![("a", obj(vec![("b", num("1"))]))]);
    let once = canonicalize_runtime_path(&root, "a..b");
    assert_eq!(canonicalize_runtime_path(&root, &once), once);
}

#[test]
fn merge_overlay_scalar_wins() {
    let metadata = ConfigMetadata::new();
    let mut target = obj(vec![("host", s("a")), ("port", num("80"))]);
    merge_values(&mut target, obj(vec![("port", num("8080"))]), "", &metadata, &vec![], &vec![]);
    assert_eq!(json_to_string(&target), r#"{"host":"a","port":8080}"#);
}

#[test]
fn merge_recurses_into_objects() {
    let metadata = ConfigMetadata::new();
    let mut target = obj(vec![("db", obj(vec![("pool", num("5")), ("url", s("x"))]))]);
    let overlay = obj(vec![("db", obj(vec![("pool", num("9"))])), ("new", JsonValue::Bool(true))]);
    merge_values(&mut target, overlay, "", &metadata, &vec![], &vec![]);
    assert_eq!(json_to_string(&target), r#"{"db":{"pool":9,"url":"x"},"new":true}"#);
}

#[test]
fn merge_replaces_arrays_by_default() {
    let metadata = ConfigMetadata::new();
    let mut target = obj(vec![("xs", JsonValue::Array(vec![num("1"), num("2")]))]);
    merge_values(&mut target, obj(vec![("xs", JsonValue::Array(vec![num("3")]))]), "", &metadata, &vec![], &vec![]);
    assert_eq!(json_to_string(&target), r#"{"xs":[3]}"#);
}

#[test]
fn merge_patches_indexed_arrays_in_place() {
    let metadata = ConfigMetadata::new();
    let mut target = obj(vec![("xs", JsonValue::Array(vec![num("1"), num("2")]))]);
    let overlay = obj(vec![("xs", JsonValue::Array(vec![JsonValue::Null, num("7")]))]);
    merge_values(&mut target, overlay, "", &metadata, &vec!["xs".to_string()], &vec![]);
    assert_eq!(json_to_string(&target), r#"{"xs":[1,7]}"#);
}

#[test]
fn merge_with_empty_overlay_keeps_target() {
    let metadata = ConfigMetadata::new();
    let mut target = obj(vec![("a", num("1"))]);
    merge_values(&mut target, obj(vec![]), "", &metadata, &vec![], &vec![]);
    assert_eq!(json_to_string(&target), r#"{"a":1}"#);
}

#[test]
fn wildcards_bind_and_apply() {
    let bound = wildcard_bindings("users.*.name", "users.4.name").unwrap();
    assert_eq!(bound, vec!["4".to_string()]);
    assert!(wildcard_bindings("users.*.name", "users.4.age").is_none());
    assert_eq!(apply_wildcard_bindings("users.*.email", &bound), "users.4.email");
}

#[test]
fn bindings_round_trip_example() {
    let bound = wildcard_bindings("a.*.b.*", "a.1.b.x").unwrap();
    assert_eq!(apply_wildcard_bindings("a.*.b.*", &bound), "a.1.b.x");
}

#[test]
fn required_paths_follow_the_trigger() {
    let required = vec!["users.*.email".to_string(), "admin".to_string()];
    let bound = bind_required_paths("users.*.name", "users.2.name", &required).unwrap();
    assert_eq!(bound, vec!["users.2.email".to_string(), "admin".to_string()]);
}

#[test]
fn matching_values_walk_wildcards() {
    let root = obj(vec![(
        "users",
        JsonValue::Array(vec![obj(vec![("name", s("a"))]), obj(vec![("name", s("b"))])]),
    )]);
    let found = collect_matching_values(&root, "users.*.name");
    assert_eq!(found.len(), 2);
    assert_eq!(found[0].0, "users.0.name");
    assert_eq!(found[1].0, "users.1.name");
    assert!(values_equal(&found[1].1, &s("b")));
}
