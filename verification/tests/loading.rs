use tier::args::{parse_args, Layer};
use tier::config::{ConfigMetadata, FieldMetadata};
use tier::envlayer::env_layer;
use tier::error::ConfigError;
use tier::json::JsonValue;
use tier::load::{load_value, validate_declared};
use tier::metadata::EnvDecoder;
use tier::rules::{json_to_string, ValidationCheck};
use tier::sources::{ArgsSource, ConfigMigration, EnvSource, SourceKind};
use tier::valuelayer::layer_from_value;
use tier::readiness::{index_too_large, layer_is_ready};

fn num(text: &str) -> JsonValue {
    JsonValue::Number(text.to_string())
}

fn text(t: &str) -> JsonValue {
    JsonValue::String(t.to_string())
}

fn obj(entries: Vec<(&str, JsonValue)>) -> JsonValue {
    JsonValue::Object(entries.into_iter().map(|(k, v)| (k.to_string(), v)).collect())
}

fn vars(pairs: &[(&str, &str)]) -> Vec<(String, String)> {
    pairs.iter().map(|(k, v)| (k.to_string(), v.to_string())).collect()
}

fn build_env(source: &EnvSource, layers: &Vec<Layer>, metadata: &ConfigMetadata) -> Result<Option<Layer>, ConfigError> {
    let plan = source.env_assignments(&metadata.env_overrides()?)?;
    let pieces: Vec<Vec<String>> = plan.iter().map(|_| Vec::new()).collect();
    let customs: Vec<Option<Result<JsonValue, String>>> = plan.iter().map(|_| None).collect();
    env_layer(&plan, layers, metadata, &customs, &pieces)
}

#[test]
fn env_layer_writes_prefixed_variables() {
    let source = EnvSource::prefixed("APP", vars(&[("APP__SERVER__PORT", "8080"), ("OTHER", "x")]));
    let layer = build_env(&source, &Vec::new(), &ConfigMetadata::new()).unwrap().unwrap();
    assert_eq!(json_to_string(&layer.value), r#"{"server":{"port":"8080"}}"#);
    assert_eq!(layer.trace.kind, SourceKind::Environment);
    assert!(layer.coercible_string_paths.get("server.port").is_some());
    assert_eq!(layer.entries.get("server.port").unwrap().name, "APP__SERVER__PORT");
    assert_eq!(layer.entries.get("server").unwrap().name, "APP__SERVER__PORT");
}

#[test]
fn env_layer_is_none_when_nothing_is_written() {
    let source = EnvSource::prefixed("APP", vars(&[("OTHER", "x")]));
    assert!(build_env(&source, &Vec::new(), &ConfigMetadata::new()).unwrap().is_none());
}

#[test]
fn env_fallback_yields_to_a_set_path() {
    let source = EnvSource::from_pairs(vars(&[("A_FALLBACK", "1"), ("B", "2")])).with_fallback("A_FALLBACK", "b");
    let layer = build_env(&source, &Vec::new(), &ConfigMetadata::new()).unwrap().unwrap();
    assert_eq!(json_to_string(&layer.value), r#"{"b":"2"}"#);
    assert_eq!(layer.entries.get("b").unwrap().name, "B");
}

#[test]
fn env_fallback_fills_an_unset_path() {
    let source = EnvSource::from_pairs(vars(&[("A_FALLBACK", "1")])).with_fallback("A_FALLBACK", "b");
    let layer = build_env(&source, &Vec::new(), &ConfigMetadata::new()).unwrap().unwrap();
    assert_eq!(json_to_string(&layer.value), r#"{"b":"1"}"#);
}

#[test]
fn env_variables_on_overlapping_paths_conflict() {
    let source = EnvSource::from_pairs(vars(&[("DB", "x"), ("DB__HOST", "h")]));
    match build_env(&source, &Vec::new(), &ConfigMetadata::new()) {
        Err(ConfigError::InvalidEnv { name, path, message }) => {
            assert_eq!(name, "DB__HOST");
            assert_eq!(path, "db.host");
            assert_eq!(
                message,
                "conflicting environment variables `DB` and `DB__HOST` target overlapping configuration paths `db` and `db.host`"
            );
        }
        _ => panic!("expected a conflict"),
    }
}

#[test]
fn env_decoder_comes_from_field_metadata() {
    let metadata = ConfigMetadata::from_fields(vec![FieldMetadata::new("tags").env_decoder(EnvDecoder::Csv)]);
    let source = EnvSource::from_pairs(vars(&[("TAGS", "a,b")]));
    let layer = build_env(&source, &Vec::new(), &metadata).unwrap().unwrap();
    assert_eq!(json_to_string(&layer.value), r#"{"tags":["a","b"]}"#);
}

#[test]
fn explicit_env_name_beats_derived_path() {
    let metadata = ConfigMetadata::from_fields(vec![FieldMetadata::new("database.url").env("DB_URL")]);
    let source = EnvSource::from_pairs(vars(&[("DB_URL", "postgres://x")]));
    let layer = build_env(&source, &Vec::new(), &metadata).unwrap().unwrap();
    assert_eq!(json_to_string(&layer.value), r#"{"database":{"url":"postgres://x"}}"#);
}

#[test]
fn conflicting_explicit_env_names_are_refused() {
    let metadata = ConfigMetadata::from_fields(vec![
        FieldMetadata::new("a").env("SAME"),
        FieldMetadata::new("b").env("SAME"),
    ]);
    match metadata.env_overrides() {
        Err(ConfigError::MetadataConflict { kind, name, first_path, second_path }) => {
            assert_eq!(kind, "environment variable");
            assert_eq!(name, "SAME");
            assert_eq!(first_path, "a");
            assert_eq!(second_path, "b");
        }
        _ => panic!("expected a conflict"),
    }
    assert!(metadata.validate_paths().is_err());
}

#[test]
fn value_layer_traces_every_path() {
    let layer = layer_from_value(SourceKind::File, "f.json", obj(vec![("a", obj(vec![("b", JsonValue::Array(vec![num("1")]))]))])).unwrap();
    assert_eq!(layer.entries.len(), 3);
    assert_eq!(layer.entries.get("a.b.0").unwrap().name, "f.json");
    assert!(layer_from_value(SourceKind::File, "f.json", num("1")).is_err());
}

#[test]
fn load_order_is_files_then_env_then_args() {
    let metadata = ConfigMetadata::new();
    let defaults = obj(vec![("host", text("d")), ("mode", text("d")), ("port", num("1"))]);
    let file = layer_from_value(SourceKind::File, "f.json", obj(vec![("host", text("f")), ("mode", text("f")), ("port", num("2"))])).unwrap();
    let env_source = EnvSource::from_pairs(vars(&[("PORT", "3"), ("MODE", "e")]));
    let env = build_env(&env_source, &Vec::new(), &metadata).unwrap().unwrap();
    let args = parse_args(ArgsSource::from_args(vec!["--set".to_string(), "port=4".to_string()])).unwrap();
    let value = load_value(defaults, vec![file], Vec::new(), vec![env], args.layer, &metadata, None, &Vec::new()).unwrap();
    assert_eq!(json_to_string(&value), r#"{"host":"f","mode":"e","port":"4"}"#);
}

#[test]
fn migrations_need_a_version() {
    let metadata = ConfigMetadata::new();
    let r = load_value(obj(vec![]), Vec::new(), Vec::new(), Vec::new(), None, &metadata, None, &vec![ConfigMigration::rename("a", "b", 2)]);
    match r {
        Err(ConfigError::MetadataInvalid { path, message }) => {
            assert_eq!(path, "");
            assert_eq!(message, "configuration migrations require ConfigLoader::config_version(...) to be set");
        }
        _ => panic!("expected a refusal"),
    }
}

#[test]
fn load_migrates_to_the_supported_version() {
    let metadata = ConfigMetadata::new();
    let defaults = obj(vec![("old", num("5")), ("version", num("1"))]);
    let value = load_value(defaults, Vec::new(), Vec::new(), Vec::new(), None, &metadata,
        Some(("version".to_string(), 2)), &vec![ConfigMigration::rename("old", "new", 2)]).unwrap();
    assert_eq!(json_to_string(&value), r#"{"new":5,"version":2}"#);
}

#[test]
fn load_checks_metadata_first() {
    let metadata = ConfigMetadata::from_fields(vec![FieldMetadata::new("").secret()]);
    let r = load_value(num("1"), Vec::new(), Vec::new(), Vec::new(), None, &metadata, None, &Vec::new());
    match r {
        Err(ConfigError::MetadataInvalid { message, .. }) => assert_eq!(message, "secret metadata cannot target the root path"),
        _ => panic!("expected the metadata refusal"),
    }
}

#[test]
fn declared_checks_refuse_the_value() {
    let mut metadata = ConfigMetadata::new();
    metadata.push_check(ValidationCheck::RequiredWith { path: "tls.cert".to_string(), requires: vec!["tls.key".to_string()] });
    let value = obj(vec![("tls", obj(vec![("cert", text("c"))]))]);
    match validate_declared(&value, &metadata, &Vec::new()) {
        Err(ConfigError::DeclaredValidation { errors }) => assert_eq!(errors.len(), 1),
        _ => panic!("expected a validation failure"),
    }
    let ok = obj(vec![("tls", obj(vec![("cert", text("c")), ("key", text("k"))]))]);
    assert!(validate_declared(&ok, &metadata, &Vec::new()).is_ok());
}

#[test]
fn layers_are_checked_for_machine_limits() {

    assert!(index_too_large("a[99999999999999999999999]"));
    assert!(!index_too_large("a[3].b"));
    let layer = layer_from_value(SourceKind::File, "f.json", obj(vec![("a", num("1"))])).unwrap();
    assert!(layer_is_ready(&layer));
}
