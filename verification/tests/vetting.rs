use tier::config::{ConfigMetadata, FieldMetadata};
use tier::error::ConfigError;
use tier::rules::ValidationCheck;
use tier::metadata::{EnvDecoder, MergeStrategy};
use tier::sources::{EnvSource, SourceKind};
use tier::strmap::StrMap;

fn invalid(meta: &ConfigMetadata) -> (String, String) {
    match meta.validate_paths() {
        Err(ConfigError::MetadataInvalid { path, message }) => (path, message),
        other => panic!("expected invalid metadata, got {:?}", other.is_ok()),
    }
}

#[test]
fn plain_fields_pass_validation() {
    let meta = ConfigMetadata::from_fields(vec![
        FieldMetadata::new("server.port").alias("port").secret(),
        FieldMetadata::new("db.url").allow_sources(vec![SourceKind::File, SourceKind::Environment]),
    ]);
    assert!(meta.validate_paths().is_ok());
}

#[test]
fn root_alias_is_refused() {
    let meta = ConfigMetadata::from_fields(vec![FieldMetadata::new("").alias("legacy")]);
    assert_eq!(invalid(&meta), ("legacy".to_string(), "aliases cannot rewrite the root path".to_string()));
}

#[test]
fn root_merge_strategy_is_refused() {
    let meta = ConfigMetadata::from_fields(vec![FieldMetadata::new("").merge_strategy(MergeStrategy::Replace)]);
    assert_eq!(invalid(&meta), (String::new(), "merge strategies cannot target the root path".to_string()));
}

#[test]
fn root_secret_and_decoder_are_refused() {
    let meta = ConfigMetadata::from_fields(vec![FieldMetadata::new("").secret()]);
    assert_eq!(invalid(&meta).1, "secret metadata cannot target the root path");
    let meta = ConfigMetadata::from_fields(vec![FieldMetadata::new("").env_decoder(EnvDecoder::Csv)]);
    assert_eq!(invalid(&meta).1, "environment decoder paths cannot target the root path");
}

#[test]
fn empty_allow_list_is_refused() {
    let meta = ConfigMetadata::from_fields(vec![FieldMetadata::new("token").allow_sources(Vec::new())]);
    assert_eq!(invalid(&meta), ("token".to_string(), "source policies must allow at least one source kind".to_string()));
}

#[test]
fn allowed_and_denied_overlap_is_listed_in_kind_order() {
    let meta = ConfigMetadata::from_fields(vec![FieldMetadata::new("token")
        .allow_sources(vec![SourceKind::Arguments, SourceKind::File])
        .deny_sources(vec![SourceKind::Arguments, SourceKind::File, SourceKind::Environment])]);
    assert_eq!(
        invalid(&meta),
        ("token".to_string(), "source policies cannot both allow and deny the same source kinds: file, cli".to_string())
    );
}

fn vars(pairs: &[(&str, &str)]) -> Vec<(String, String)> {
    pairs.iter().map(|(k, v)| (k.to_string(), v.to_string())).collect()
}

#[test]
fn env_assignments_route_by_binding_declaration_then_name() {
    let source = EnvSource::prefixed("APP", vars(&[("APP__SERVER__PORT", "8080"), ("DB_HOST", "db"), ("OTHER", "x"), ("APP__Z", "1")]))
        .with_alias("DB_HOST", "database.host");
    let mut declared: StrMap<String> = StrMap::new();
    declared.insert("OTHER".to_string(), "other.value".to_string());
    let plan = source.env_assignments(&declared).ok().unwrap();
    let got: Vec<(String, String)> = plan.iter().map(|a| (a.name.clone(), a.path.clone())).collect();
    assert_eq!(
        got,
        vec![
            ("APP__SERVER__PORT".to_string(), "server.port".to_string()),
            ("APP__Z".to_string(), "z".to_string()),
            ("DB_HOST".to_string(), "database.host".to_string()),
            ("OTHER".to_string(), "other.value".to_string()),
        ]
    );
}

#[test]
fn env_assignments_put_fallbacks_last() {
    let source = EnvSource::from_pairs(vars(&[("A_FALLBACK", "1"), ("B", "2")])).with_fallback("A_FALLBACK", "b");
    let plan = source.env_assignments(&StrMap::new()).ok().unwrap();
    let got: Vec<(String, bool)> = plan.iter().map(|a| (a.name.clone(), a.fallback)).collect();
    assert_eq!(got, vec![("B".to_string(), false), ("A_FALLBACK".to_string(), true)]);
}

#[test]
fn env_assignments_refuse_conflicting_bindings() {
    let source = EnvSource::from_pairs(vars(&[("X", "1")])).with_alias("X", "a").with_alias("X", "b");
    match source.env_assignments(&StrMap::new()) {
        Err(ConfigError::InvalidEnv { name, path, message }) => {
            assert_eq!(name, "X");
            assert_eq!(path, "b");
            assert_eq!(message, "conflicting explicit env bindings target `a` and `b`");
        }
        _ => panic!("expected a binding conflict"),
    }
}

#[test]
fn fields_by_path_keys_each_field() {
    let meta = ConfigMetadata::from_fields(vec![
        FieldMetadata::new("server.port").secret(),
        FieldMetadata::new("db.url").alias("database.url"),
    ]);
    let by_path = meta.fields_by_path();
    assert_eq!(by_path.len(), 2);
    assert!(by_path.get("server.port").unwrap().secret);
    assert_eq!(by_path.get("db.url").unwrap().aliases, vec!["database.url".to_string()]);
    assert!(by_path.get("database.url").is_none());
}

#[test]
fn extend_merges_another_metadata_set() {
    let mut meta = ConfigMetadata::from_fields(vec![FieldMetadata::new("server.port")]);
    let other = ConfigMetadata::from_fields(vec![FieldMetadata::new("server.port").secret(), FieldMetadata::new("db.url")]);
    meta.extend(other);
    assert_eq!(meta.fields().len(), 2);
    assert!(meta.field("server.port").unwrap().secret);
}

fn strings(items: &[&str]) -> Vec<String> {
    items.iter().map(|s| s.to_string()).collect()
}

#[test]
fn push_check_normalizes_and_drops_repeats() {
    let mut meta = ConfigMetadata::new();
    meta.push_check(ValidationCheck::AtLeastOneOf { paths: strings(&["servers[0].host", "servers.0.host", "db.url"]) });
    meta.push_check(ValidationCheck::AtLeastOneOf { paths: strings(&["servers.0.host", "db.url"]) });
    meta.push_check(ValidationCheck::RequiredWith { path: "tls.cert".to_string(), requires: Vec::new() });
    let checks = meta.checks();
    assert_eq!(checks.len(), 1);
    match &checks[0] {
        ValidationCheck::AtLeastOneOf { paths } => assert_eq!(paths, &strings(&["servers.0.host", "db.url"])),
        _ => panic!("expected an at-least-one-of check"),
    }
}

#[test]
fn root_check_path_is_refused() {
    let mut meta = ConfigMetadata::from_fields(vec![FieldMetadata::new("tls.cert")]);
    meta.push_check(ValidationCheck::RequiredWith { path: String::new(), requires: strings(&["tls.key"]) });
    assert_eq!(
        invalid(&meta),
        (String::new(), "invalid metadata path: cross-field checks cannot use the root path".to_string())
    );
}

#[test]
fn push_keeps_checks() {
    let mut meta = ConfigMetadata::new();
    meta.push_check(ValidationCheck::MutuallyExclusive { paths: strings(&["a", "b"]) });
    meta.push(FieldMetadata::new("no_proxy"));
    meta.push(FieldMetadata::new("labels"));
    assert_eq!(meta.fields().len(), 2);
    assert_eq!(meta.checks().len(), 1);
}

#[test]
fn pushing_a_check_twice_keeps_one() {
    let mut meta = ConfigMetadata::new();
    let check = || ValidationCheck::RequiredWith { path: "tls.cert".to_string(), requires: strings(&["tls.key"]) };
    meta.push_check(check());
    meta.push_check(check());
    assert_eq!(meta.checks().len(), 1);
}

#[test]
fn check_builders_add_checks() {
    let meta = ConfigMetadata::new()
        .required_with("tls.cert".to_string(), strings(&["tls.key"]))
        .at_least_one_of(strings(&["a", "b"]))
        .exactly_one_of(strings(&["x", "y"]))
        .mutually_exclusive(strings(&["p", "q"]))
        .at_least_one_of(strings(&["a", "b"]));
    assert_eq!(meta.checks().len(), 4);
}
