use tier::docs::EnvDocOptions;
use tier::env::{normalize_env_prefix, path_for_env_var};
use tier::path::{
    is_secret_path, join_path, normalize_path, path_contains_secret, path_matches_pattern,
    path_overlaps_pattern, paths_overlap,
};
use tier::suggest::{best_path_suggestion, levenshtein, materialize_pattern_for_path};
use tier::strmap::StrMap;
use tier::syntax::{normalize_external_path, parse_patch_path, try_normalize_external_path};

#[test]
fn join_path_skips_empty_parent() {
    assert_eq!(join_path("", "port"), "port");
    assert_eq!(join_path("server", "port"), "server.port");
}

#[test]
fn normalize_path_drops_empty_segments() {
    assert_eq!(normalize_path("a..b."), "a.b");
    assert_eq!(normalize_path(""), "");
}

#[test]
fn normalize_path_is_idempotent_on_example() {
    let once = normalize_path(".a...b.c.");
    assert_eq!(normalize_path(&once), once);
}

#[test]
fn wildcard_pattern_matches_one_segment() {
    assert!(path_matches_pattern("users.0.name", "users.*.name"));
    assert!(!path_matches_pattern("users.0.name", "users.*"));
    assert!(path_matches_pattern("users.name", "users.name"));
}

#[test]
fn matching_ignores_empty_segments() {
    assert!(path_matches_pattern("users..0.name", "users.*.name"));
}

#[test]
fn overlap_is_symmetric() {
    assert!(paths_overlap("server", "server.port"));
    assert!(paths_overlap("server.port", "server"));
    assert!(!paths_overlap("server.port", "server.host"));
    assert!(path_overlaps_pattern("users.0", "users.*.name"));
}

#[test]
fn secrets_cover_descendants() {
    let secrets = vec!["db.password".to_string()];
    assert!(is_secret_path(&secrets, "db.password"));
    assert!(is_secret_path(&secrets, "db.password.inner"));
    assert!(!is_secret_path(&secrets, "db"));
    assert!(path_contains_secret(&secrets, "db"));
    assert!(!path_contains_secret(&secrets, "server"));
}

#[test]
fn levenshtein_exact_values() {
    assert_eq!(levenshtein("kitten", "sitting"), 3);
    assert_eq!(levenshtein("", "abc"), 3);
    assert_eq!(levenshtein("same", "same"), 0);
    assert_eq!(levenshtein("flaw", "lawn"), levenshtein("lawn", "flaw"));
}

#[test]
fn materialized_pattern_takes_actual_segments() {
    assert_eq!(materialize_pattern_for_path("users.*.name", "users.3.nmae"), "users.3.name");
}

#[test]
fn suggestion_picks_close_path() {
    let mut paths = StrMap::new();
    paths.insert("server.port".to_string(), "server.port".to_string());
    paths.insert("server.host".to_string(), "server.host".to_string());
    assert_eq!(best_path_suggestion("server.prot", &paths), Some("server.port".to_string()));
    assert_eq!(best_path_suggestion("completely.different.thing", &paths), None);
}

#[test]
fn env_prefix_loses_trailing_separators() {
    assert_eq!(normalize_env_prefix("APP__", "__"), "APP");
    assert_eq!(normalize_env_prefix("APP_", "__"), "APP");
    assert_eq!(normalize_env_prefix("APP_", "_"), "APP");
    assert_eq!(normalize_env_prefix("", "__"), "");
}

#[test]
fn env_var_maps_to_path() {
    let r = path_for_env_var("APP__SERVER__PORT", Some("APP"), "__", true);
    assert_eq!(r.ok(), Some(Some("server.port".to_string())));
    let flexible = path_for_env_var("APP_SERVER__PORT", Some("APP"), "__", true);
    assert_eq!(flexible.ok(), Some(Some("server.port".to_string())));
    let other = path_for_env_var("OTHER__PORT", Some("APP"), "__", true);
    assert_eq!(other.ok(), Some(None));
    let bare = path_for_env_var("APP", Some("APP"), "__", true);
    assert_eq!(bare.ok(), Some(None));
}

#[test]
fn env_var_with_reserved_syntax_is_refused() {
    match path_for_env_var("APP__A__B.C", Some("APP"), "__", true) {
        Err(e) => {
            assert_eq!(e.path, "a.b.c");
            assert_eq!(
                e.message,
                "environment variable segments must not contain reserved path syntax: `.` is reserved as the configuration path separator"
            );
        }
        Ok(_) => panic!("expected an error"),
    }
}

#[test]
fn env_doc_name_renders_placeholders() {
    let options = EnvDocOptions::prefixed("APP");
    assert_eq!(options.env_name("server.port"), "APP__SERVER__PORT");
    assert_eq!(options.env_name("users.*.name"), "APP__USERS__{item}__NAME");
    let plain = EnvDocOptions::new().preserve_case().separator("_");
    assert_eq!(plain.env_name("db.url"), "db_url");
}

#[test]
fn env_doc_name_reads_back_as_path() {
    let options = EnvDocOptions::prefixed("APP");
    let name = options.env_name("server.port");
    let back = path_for_env_var(&name, Some("APP"), "__", true);
    assert_eq!(back.ok(), Some(Some("server.port".to_string())));
}

#[test]
fn external_paths_accept_brackets() {
    assert_eq!(try_normalize_external_path("users[0].name"), Ok("users.0.name".to_string()));
    assert_eq!(try_normalize_external_path("."), Ok(String::new()));
    assert!(try_normalize_external_path("a..b").is_err());
    assert_eq!(normalize_external_path("a..b"), "a.b");
}

#[test]
fn external_normal_form_is_stable() {
    let once = normalize_external_path("servers[2].ports[0]");
    assert_eq!(once, "servers.2.ports.0");
    assert_eq!(normalize_external_path(&once), once);
}

#[test]
fn patch_paths_mark_bracket_indices() {
    let (segments, indices) = parse_patch_path("servers[1].port").unwrap();
    assert_eq!(segments, vec!["servers".to_string(), "1".to_string(), "port".to_string()]);
    assert_eq!(indices, vec![1]);
}
