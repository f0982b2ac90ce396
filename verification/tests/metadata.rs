use tier::config::{ConfigMetadata, FieldMetadata};
use tier::json::JsonValue;
use tier::merge::merge_values;
use tier::metadata::{EnvDecoder, MergeStrategy};
use tier::rules::json_to_string;
use tier::sources::SourceKind;

fn num(text: &str) -> JsonValue {
    JsonValue::Number(text.to_string())
}

fn obj(entries: Vec<(&str, JsonValue)>) -> JsonValue {
    JsonValue::Object(entries.into_iter().map(|(k, v)| (k.to_string(), v)).collect())
}

#[test]
fn new_field_normalizes_its_path() {
    let f = FieldMetadata::new("servers[0].port");
    assert_eq!(f.path, "servers.0.port");
    assert!(f.aliases.is_empty());
    assert!(!f.secret);
    assert_eq!(f.merge, MergeStrategy::Merge);
    assert!(!f.merge_explicit);
}

#[test]
fn builders_set_declarations() {
    let f = FieldMetadata::new("db.password")
        .secret()
        .env("DB_PASSWORD")
        .env_decoder(EnvDecoder::Csv)
        .doc("the password")
        .example("hunter2")
        .deprecated("use db.secret")
        .defaulted()
        .merge_strategy(MergeStrategy::Replace)
        .alias("database.password")
        .allow_sources(vec![SourceKind::Environment, SourceKind::File, SourceKind::Environment])
        .deny_sources(vec![SourceKind::Arguments]);
    assert!(f.secret);
    assert_eq!(f.env.as_deref(), Some("DB_PASSWORD"));
    assert_eq!(f.env_decode, Some(EnvDecoder::Csv));
    assert_eq!(f.doc.as_deref(), Some("the password"));
    assert_eq!(f.example.as_deref(), Some("hunter2"));
    assert_eq!(f.deprecated.as_deref(), Some("use db.secret"));
    assert!(f.has_default);
    assert_eq!(f.merge, MergeStrategy::Replace);
    assert!(f.merge_explicit);
    assert_eq!(f.aliases, vec!["database.password".to_string()]);
    assert_eq!(f.allowed_sources, Some(vec![SourceKind::File, SourceKind::Environment]));
    assert_eq!(f.denied_sources, Some(vec![SourceKind::Arguments]));
}

#[test]
fn duplicate_fields_merge_in_order() {
    let metadata = ConfigMetadata::from_fields(vec![
        FieldMetadata::new("b").doc("first").alias("z"),
        FieldMetadata::new("a").secret(),
        FieldMetadata::new("b").doc("second").alias("y").alias("b"),
    ]);
    let fields = metadata.fields();
    assert_eq!(fields.len(), 2);
    assert_eq!(fields[0].path, "a");
    assert_eq!(fields[1].path, "b");
    assert_eq!(fields[1].doc.as_deref(), Some("second"));
    assert_eq!(fields[1].aliases, vec!["y".to_string(), "z".to_string()]);
}

#[test]
fn push_merges_flags() {
    let mut metadata = ConfigMetadata::new();
    metadata.push(FieldMetadata::new("port").merge_strategy(MergeStrategy::Append));
    metadata.push(FieldMetadata::new("port").secret());
    let fields = metadata.fields();
    assert_eq!(fields.len(), 1);
    assert!(fields[0].secret);
    assert_eq!(fields[0].merge, MergeStrategy::Append);
    assert!(fields[0].merge_explicit);
}

#[test]
fn extend_fields_adds_several() {
    let mut metadata = ConfigMetadata::new();
    metadata.extend_fields(vec![FieldMetadata::new("x"), FieldMetadata::new("y").secret()]);
    assert_eq!(metadata.secret_paths(), vec!["y".to_string()]);
}

#[test]
fn merge_strategies_list_explicit_ones() {
    let metadata = ConfigMetadata::from_fields(vec![
        FieldMetadata::new("a").merge_strategy(MergeStrategy::Replace),
        FieldMetadata::new("b"),
    ]);
    let strategies = metadata.merge_strategies();
    assert_eq!(strategies.get("a"), Some(&MergeStrategy::Replace));
    assert_eq!(strategies.get("b"), None);
}

#[test]
fn field_lookup_uses_aliases_and_wildcards() {
    let metadata = ConfigMetadata::from_fields(vec![
        FieldMetadata::new("server.port").alias("listen.port"),
        FieldMetadata::new("users.*.name"),
    ]);
    assert_eq!(metadata.field("listen.port").map(|f| f.path.clone()), Some("server.port".to_string()));
    assert_eq!(metadata.field("users.3.name").map(|f| f.path.clone()), Some("users.*.name".to_string()));
    assert!(metadata.field("unknown").is_none());
}

#[test]
fn alias_overrides_map_alias_to_path() {
    let metadata = ConfigMetadata::from_fields(vec![FieldMetadata::new("server.port").alias("listen.port")]);
    let aliases = metadata.alias_overrides().ok().unwrap();
    assert_eq!(aliases.get("listen.port").map(|s| s.as_str()), Some("server.port"));
}

#[test]
fn append_strategy_concatenates_arrays() {
    let metadata = ConfigMetadata::from_fields(vec![FieldMetadata::new("xs").merge_strategy(MergeStrategy::Append)]);
    assert_eq!(metadata.merge_strategy_for("xs"), Some(MergeStrategy::Append));
    let mut target = obj(vec![("xs", JsonValue::Array(vec![num("1")]))]);
    merge_values(&mut target, obj(vec![("xs", JsonValue::Array(vec![num("2")]))]), "", &metadata, &vec![], &vec![]);
    assert_eq!(json_to_string(&target), r#"{"xs":[1,2]}"#);
}

#[test]
fn replace_strategy_replaces_objects() {
    let metadata = ConfigMetadata::from_fields(vec![FieldMetadata::new("db").merge_strategy(MergeStrategy::Replace)]);
    let mut target = obj(vec![("db", obj(vec![("a", num("1")), ("b", num("2"))]))]);
    merge_values(&mut target, obj(vec![("db", obj(vec![("a", num("3"))]))]), "", &metadata, &vec![], &vec![]);
    assert_eq!(json_to_string(&target), r#"{"db":{"a":3}}"#);
}
