use tier::args::parse_args;
use tier::assemble::assemble_layers;
use tier::config::{ConfigMetadata, FieldMetadata};
use tier::error::ConfigError;
use tier::json::JsonValue;
use tier::metadata::MergeStrategy;
use tier::migrate::apply_config_migrations;
use tier::parse::parse_file_value;
use tier::patch::PatchLayerBuilder;
use tier::rules::json_to_string;
use tier::sources::{ArgsSource, ConfigMigration, FileFormat, SourceKind};

fn num(text: &str) -> JsonValue {
    JsonValue::Number(text.to_string())
}

fn obj(entries: Vec<(&str, JsonValue)>) -> JsonValue {
    JsonValue::Object(entries.into_iter().map(|(k, v)| (k.to_string(), v)).collect())
}

fn patch(kind: SourceKind, name: &str, path: &str, value: JsonValue) -> tier::args::Layer {
    let mut b = PatchLayerBuilder::new(kind, name);
    b.insert_value(path, value).unwrap();
    b.finish()
}

#[test]
fn json_files_parse_into_values() {
    let v = parse_file_value("a.json", r#"{"b": [1, true, null], "a": {"x": "y"}}"#, FileFormat::Json).unwrap();
    assert_eq!(json_to_string(&v), r#"{"a":{"x":"y"},"b":[1,true,null]}"#);
}

#[test]
fn json_parse_errors_carry_location() {
    match parse_file_value("a.json", "{\n  \"a\": }", FileFormat::Json) {
        Err(ConfigError::ParseFile { path, format, location, .. }) => {
            assert_eq!(path, "a.json");
            assert_eq!(format, FileFormat::Json);
            let loc = location.unwrap();
            assert_eq!(loc.line, 2);
        }
        _ => panic!("expected a parse error"),
    }
}

#[test]
fn toml_files_parse_into_values() {
    let v = parse_file_value("a.toml", "[server]\nport = 8080\nhost = \"h\"\n", FileFormat::Toml).unwrap();
    assert_eq!(json_to_string(&v), r#"{"server":{"host":"h","port":8080}}"#);
}

#[test]
fn toml_errors_carry_location() {
    match parse_file_value("a.toml", "a = \n", FileFormat::Toml) {
        Err(ConfigError::ParseFile { location, .. }) => assert!(location.is_some()),
        _ => panic!("expected a parse error"),
    }
}

#[test]
fn yaml_files_parse_into_values() {
    let v = parse_file_value("a.yaml", "server:\n  port: 8080\nlist:\n  - a\n", FileFormat::Yaml).unwrap();
    assert_eq!(json_to_string(&v), r#"{"list":["a"],"server":{"port":8080}}"#);
}

#[test]
fn later_layers_win() {
    let metadata = ConfigMetadata::new();
    let defaults = obj(vec![("port", num("80"))]);
    let file = patch(SourceKind::File, "a.toml", "port", num("81"));
    let env = patch(SourceKind::Environment, "APP_PORT", "port", num("82"));
    let args = patch(SourceKind::Arguments, "arguments", "port", num("83"));
    let v = assemble_layers(defaults, vec![file], vec![], vec![env], Some(args), vec![], &metadata).unwrap();
    assert_eq!(json_to_string(&v), r#"{"port":83}"#);
}

#[test]
fn env_wins_over_files() {
    let metadata = ConfigMetadata::new();
    let defaults = obj(vec![]);
    let file = patch(SourceKind::File, "a.toml", "port", num("81"));
    let env = patch(SourceKind::Environment, "APP_PORT", "port", num("82"));
    let v = assemble_layers(defaults, vec![file], vec![], vec![env], None, vec![], &metadata).unwrap();
    assert_eq!(json_to_string(&v), r#"{"port":82}"#);
}

#[test]
fn defaults_must_be_an_object() {
    let metadata = ConfigMetadata::new();
    match assemble_layers(num("1"), vec![], vec![], vec![], None, vec![], &metadata) {
        Err(ConfigError::RootMustBeObject { actual }) => assert_eq!(actual, "number"),
        _ => panic!("expected a root error"),
    }
}

#[test]
fn sparse_layer_stops_assembly() {
    let metadata = ConfigMetadata::new();
    let defaults = obj(vec![("xs", JsonValue::Array(vec![num("1")]))]);
    let layer = patch(SourceKind::Custom, "custom", "xs[3]", num("9"));
    match assemble_layers(defaults, vec![], vec![layer], vec![], None, vec![], &metadata) {
        Err(ConfigError::MetadataInvalid { path, message }) => {
            assert_eq!(path, "xs.3");
            assert_eq!(message, "sparse array override at `xs`: index 3 requires index 1 to be set first");
        }
        _ => panic!("expected a sparse error"),
    }
}

#[test]
fn metadata_strategy_applies_during_assembly() {
    let metadata = ConfigMetadata::from_fields(vec![FieldMetadata::new("xs").merge_strategy(MergeStrategy::Append)]);
    let defaults = obj(vec![("xs", JsonValue::Array(vec![num("1")]))]);
    let source = ArgsSource::from_args(vec!["--set=xs=[2]".to_string()]);
    let layer = parse_args(source).unwrap().layer;
    let v = assemble_layers(defaults, vec![], vec![], vec![], layer, vec![], &metadata).unwrap();
    assert_eq!(json_to_string(&v), r#"{"xs":[1,2]}"#);
}

#[test]
fn unsupported_version_leaves_value_unchanged() {
    let mut merged = obj(vec![("old", num("5")), ("version", num("3"))]);
    let migrations = vec![ConfigMigration::rename("old", "new", 2)];
    match apply_config_migrations(&mut merged, "version", 2, &migrations) {
        Err(ConfigError::UnsupportedConfigVersion { path, found, supported }) => {
            assert_eq!(path, "version");
            assert_eq!((found, supported), (3, 2));
        }
        _ => panic!("expected an unsupported version"),
    }
    assert_eq!(json_to_string(&merged), r#"{"old":5,"version":3}"#);
}

#[test]
fn migration_records_the_rename() {
    let mut merged = obj(vec![("old", num("5")), ("version", num("1"))]);
    let applied = apply_config_migrations(&mut merged, "version", 2, &vec![ConfigMigration::rename("old", "new", 2)]).unwrap();
    assert_eq!(json_to_string(&merged), r#"{"new":5,"version":2}"#);
    assert_eq!(applied[0].from_path, "old");
    assert_eq!(applied[0].to_path.as_deref(), Some("new"));
    assert!(applied[0].note.is_none());
}

#[test]
fn pushing_two_fields_gives_two() {
    let mut m = ConfigMetadata::new();
    m.push(FieldMetadata::new("no_proxy"));
    m.push(FieldMetadata::new("labels"));
    assert_eq!(m.fields().len(), 2);
    m.push(FieldMetadata::new("labels").secret());
    assert_eq!(m.fields().len(), 2);
    assert_eq!(m.secret_paths(), vec!["labels".to_string()]);
}
