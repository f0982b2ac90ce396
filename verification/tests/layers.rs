use tier::args::parse_args;
use tier::error::{format_missing_paths, offset_to_line_column, ConfigError};
use tier::files::{infer_format, resolve_profile_path};
use tier::json::JsonValue;
use tier::metadata::EnvDecoder;
use tier::migrate::{apply_config_migrations, read_config_version};
use tier::overrides::{claim_env_path, coerce_retry_scalars, decode_env_override_value, ensure_path_safe_keys, retry_scalar_value};
use tier::patch::{claim_patch_path, PatchLayerBuilder};
use tier::rules::json_to_string;
use tier::sources::{ArgsSource, ConfigMigration, FileFormat, SourceKind, SourceTrace};
use tier::sparse::{sparse_indexed_array_error, validate_indexed_array_paths};
use tier::strmap::StrMap;

fn num(text: &str) -> JsonValue {
    JsonValue::Number(text.to_string())
}

fn s(text: &str) -> JsonValue {
    JsonValue::String(text.to_string())
}

fn obj(entries: Vec<(&str, JsonValue)>) -> JsonValue {
    JsonValue::Object(entries.into_iter().map(|(k, v)| (k.to_string(), v)).collect())
}

#[test]
fn patch_builder_collects_values() {
    let mut builder = PatchLayerBuilder::new(SourceKind::Custom, "patch");
    builder.insert_value("server.port", num("8080")).unwrap();
    builder.insert_value("server.host", s("localhost")).unwrap();
    let layer = builder.finish();
    assert_eq!(json_to_string(&layer.value), r#"{"server":{"host":"localhost","port":8080}}"#);
    assert!(layer.entries.get("server.port").is_some());
    assert!(layer.entries.get("server.host").is_some());
}

#[test]
fn patch_builder_refuses_overlaps() {
    let mut builder = PatchLayerBuilder::new(SourceKind::Custom, "patch");
    builder.insert_value("server", obj(vec![])).unwrap();
    match builder.insert_value("server.port", num("1")) {
        Err(ConfigError::InvalidPatch { name, path, message }) => {
            assert_eq!(name, "patch");
            assert_eq!(path, "server.port");
            assert_eq!(message, "conflicting patch paths `server` and `server.port` overlap");
        }
        _ => panic!("expected an overlap error"),
    }
}

#[test]
fn claiming_twice_is_a_duplicate() {
    let mut claimed = StrMap::new();
    claim_patch_path("layer", "a.b", &mut claimed).unwrap();
    match claim_patch_path("layer", "a.b", &mut claimed) {
        Err(ConfigError::InvalidPatch { message, .. }) => assert_eq!(message, "duplicate patch path `a.b`"),
        _ => panic!("expected a duplicate error"),
    }
    assert!(claim_patch_path("layer", "a.c", &mut claimed).is_ok());
}

#[test]
fn indexed_patch_grows_array_without_holes() {
    let mut builder = PatchLayerBuilder::new(SourceKind::Custom, "patch");
    builder.insert_value("items[0]", s("a")).unwrap();
    builder.insert_value("items[1]", s("b")).unwrap();
    let layer = builder.finish();
    let base = obj(vec![]);
    assert!(validate_indexed_array_paths(&base, &layer).is_ok());
}

#[test]
fn indexed_patch_with_hole_is_refused() {
    let mut builder = PatchLayerBuilder::new(SourceKind::Custom, "patch");
    builder.insert_value("items[0]", s("a")).unwrap();
    builder.insert_value("items[2]", s("c")).unwrap();
    let layer = builder.finish();
    let base = obj(vec![]);
    match validate_indexed_array_paths(&base, &layer) {
        Err(ConfigError::MetadataInvalid { path, message }) => {
            assert_eq!(path, "items.2");
            assert_eq!(message, "sparse array override at `items`: index 2 requires index 1 to be set first");
        }
        _ => panic!("expected a sparse array error"),
    }
}

#[test]
fn base_array_length_fills_the_hole() {
    let mut builder = PatchLayerBuilder::new(SourceKind::Custom, "patch");
    builder.insert_value("items[2]", s("c")).unwrap();
    let layer = builder.finish();
    let base = obj(vec![("items", JsonValue::Array(vec![s("a"), s("b")]))]);
    assert!(validate_indexed_array_paths(&base, &layer).is_ok());
}

#[test]
fn sparse_error_blames_argument_entry() {
    let mut builder = PatchLayerBuilder::new(SourceKind::Arguments, "--set items.3=x");
    builder.insert_value("items[3]", s("x")).unwrap();
    let layer = builder.finish();
    match sparse_indexed_array_error(&layer, "items", 3, 0) {
        ConfigError::InvalidArg { arg, message } => {
            assert_eq!(arg, "--set items.3=x");
            assert_eq!(message, "sparse array override at `items`: index 3 requires index 0 to be set first");
        }
        _ => panic!("expected an argument error"),
    }
}

#[test]
fn args_set_builds_layer() {
    let source = ArgsSource::from_args(vec![
        "app".to_string(),
        "--set".to_string(),
        "server.port=8080".to_string(),
        "--profile".to_string(),
        "prod".to_string(),
    ]);
    let parsed = parse_args(source).unwrap();
    assert_eq!(parsed.profile.as_deref(), Some("prod"));
    let layer = parsed.layer.unwrap();
    assert_eq!(json_to_string(&layer.value), r#"{"server":{"port":"8080"}}"#);
    assert!(layer.coercible_string_paths.get("server.port").is_some());
    assert!(layer.entries.get("server.port").is_some());
}

#[test]
fn args_json_text_is_read_from_the_table() {
    let source = ArgsSource::from_args(vec!["--set=tags=[\"a\"]".to_string()]);
    let parsed = parse_args(source).unwrap();
    let layer = parsed.layer.unwrap();
    assert_eq!(json_to_string(&layer.value), r#"{"tags":["a"]}"#);
    assert!(layer.direct_array_paths.get("tags").is_some());
}

#[test]
fn args_missing_value_is_refused() {
    let source = ArgsSource::from_args(vec!["app".to_string(), "--profile".to_string()]);
    match parse_args(source) {
        Err(ConfigError::MissingArgValue { flag }) => assert_eq!(flag, "--profile"),
        _ => panic!("expected a missing value error"),
    }
}

#[test]
fn env_decoders_split_values() {
    let csv = decode_env_override_value("a, b,c", EnvDecoder::Csv, &vec![]).unwrap();
    assert_eq!(json_to_string(&csv), r#"["a","b","c"]"#);
    let ws = decode_env_override_value(" a  b ", EnvDecoder::Whitespace, &vec![]).unwrap();
    assert_eq!(json_to_string(&ws), r#"["a","b"]"#);
    let kv = decode_env_override_value("a=1,b=2", EnvDecoder::KeyValueMap, &vec![]).unwrap();
    assert_eq!(json_to_string(&kv), r#"{"a":"1","b":"2"}"#);
    assert!(decode_env_override_value("a", EnvDecoder::KeyValueMap, &vec![]).is_err());
}

#[test]
fn scalar_retry_reads_json_scalars() {
    assert_eq!(json_to_string(&retry_scalar_value(" 42 ").unwrap()), "42");
    assert_eq!(json_to_string(&retry_scalar_value("true").unwrap()), "true");
    assert!(retry_scalar_value("hello").is_none());
}

#[test]
fn coercion_turns_marked_strings_into_scalars() {
    let mut paths = StrMap::new();
    paths.insert("port".to_string(), ());
    let value = obj(vec![("name", s("7")), ("port", s("8080"))]);
    let coerced = coerce_retry_scalars(&value, "", &paths);
    assert_eq!(json_to_string(&coerced), r#"{"name":"7","port":8080}"#);
}

#[test]
fn keys_with_dots_are_refused() {
    let value = obj(vec![("a.b", num("1"))]);
    match ensure_path_safe_keys(&value, "") {
        Err(ConfigError::InvalidPathKey { path, key, message }) => {
            assert_eq!(path, "");
            assert_eq!(key, "a.b");
            assert_eq!(message, "`.` is reserved as the configuration path separator");
        }
        _ => panic!("expected a key error"),
    }
    assert!(ensure_path_safe_keys(&obj(vec![("ok", num("1"))]), "").is_ok());
}

#[test]
fn migrations_rename_in_order() {
    let mut merged = obj(vec![("old", num("1")), ("version", num("1"))]);
    let migrations = vec![ConfigMigration::rename("old", "new", 2)];
    let applied = apply_config_migrations(&mut merged, "version", 2, &migrations).unwrap();
    assert_eq!(applied.len(), 1);
    assert_eq!(applied[0].kind, "rename");
    assert_eq!(applied[0].from_version, 1);
    assert_eq!(applied[0].to_version, 2);
    assert_eq!(json_to_string(&merged), r#"{"new":1,"version":2}"#);
}

#[test]
fn newer_version_is_unsupported() {
    let mut merged = obj(vec![("version", num("5"))]);
    match apply_config_migrations(&mut merged, "version", 2, &vec![]) {
        Err(ConfigError::UnsupportedConfigVersion { found, supported, .. }) => {
            assert_eq!(found, 5);
            assert_eq!(supported, 2);
        }
        _ => panic!("expected an unsupported version"),
    }
}

#[test]
fn version_defaults_to_zero() {
    assert_eq!(read_config_version(&obj(vec![]), "version").ok(), Some(0));
    assert!(read_config_version(&obj(vec![("version", s("x"))]), "version").is_err());
}

#[test]
fn profile_placeholder_is_filled() {
    assert_eq!(resolve_profile_path("config/{profile}.toml", Some("prod")).ok(), Some("config/prod.toml".to_string()));
    match resolve_profile_path("config/{profile}.toml", None) {
        Err(ConfigError::MissingProfile { path }) => assert_eq!(path, "config/{profile}.toml"),
        _ => panic!("expected a missing profile"),
    }
}

#[test]
fn formats_follow_extensions() {
    assert!(matches!(infer_format("a.toml"), Ok(FileFormat::Toml)));
    assert!(matches!(infer_format("a.yml"), Ok(FileFormat::Yaml)));
    assert!(matches!(infer_format("a.JSON"), Ok(FileFormat::Json)));
    assert!(infer_format("a.txt").is_err());
}

#[test]
fn offsets_become_lines_and_columns() {
    let lc = offset_to_line_column("ab\ncd", 4);
    assert_eq!(lc.line, 2);
    assert_eq!(lc.column, 2);
    let start = offset_to_line_column("abc", 0);
    assert_eq!((start.line, start.column), (1, 1));
}

#[test]
fn missing_paths_are_listed() {
    let paths = vec!["a.toml".to_string(), "b.toml".to_string()];
    assert_eq!(format_missing_paths(&paths), "- a.toml\n- b.toml");
}

#[test]
fn trace_renders_kind_and_name() {
    let trace = SourceTrace::new(SourceKind::Environment, "APP_PORT");
    assert_eq!(trace.render(), "env(APP_PORT)");
}

#[test]
fn env_claims_refuse_other_variables() {
    let mut claimed = StrMap::new();
    claim_env_path("APP_DB", "db", &mut claimed).unwrap();
    assert!(claim_env_path("APP_DB", "db.url", &mut claimed).is_ok());
    match claim_env_path("APP_DB2", "db", &mut claimed) {
        Err(ConfigError::InvalidEnv { name, path, message }) => {
            assert_eq!(name, "APP_DB2");
            assert_eq!(path, "db");
            assert_eq!(message, "conflicting environment variables `APP_DB` and `APP_DB2` both target `db`");
        }
        _ => panic!("expected a conflict"),
    }
    match claim_env_path("OTHER", "db.url.host", &mut claimed) {
        Err(ConfigError::InvalidEnv { message, .. }) => assert_eq!(
            message,
            "conflicting environment variables `APP_DB` and `OTHER` target overlapping configuration paths `db` and `db.url.host`"
        ),
        _ => panic!("expected an overlap"),
    }
}
