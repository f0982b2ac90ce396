use tier::json::JsonValue;
use tier::rules::{
    json_to_string, validate_declared_checks, validate_declared_rule, DivisorProbe, RuleProbe,
    ValidationCheck, ValidationError, ValidationErrors, ValidationNumber, ValidationRule,
    ValidationValue,
};
use tier::strmap::StrMap;
use tier::validate::{is_valid_email, is_valid_hostname, is_valid_url, IpKind};

fn s(text: &str) -> JsonValue {
    JsonValue::String(text.to_string())
}

fn num(text: &str) -> JsonValue {
    JsonValue::Number(text.to_string())
}

fn obj(entries: Vec<(&str, JsonValue)>) -> JsonValue {
    JsonValue::Object(entries.into_iter().map(|(k, v)| (k.to_string(), v)).collect())
}

fn no_ips() -> StrMap<IpKind> {
    StrMap::new()
}

fn check(path: &str, actual: &JsonValue, rule: &ValidationRule, probe: &RuleProbe) -> Option<ValidationError> {
    validate_declared_rule(path, actual, rule, &vec![], probe, &no_ips())
}

#[test]
fn non_empty_rejects_empty_string() {
    let e = check("name", &s(""), &ValidationRule::NonEmpty, &RuleProbe::Unused).unwrap();
    assert_eq!(e.path, "name");
    assert_eq!(e.message, "must not be empty");
    assert_eq!(e.rule.as_deref(), Some("non_empty"));
    assert!(check("name", &s("x"), &ValidationRule::NonEmpty, &RuleProbe::Unused).is_none());
    assert!(check("n", &num("0"), &ValidationRule::NonEmpty, &RuleProbe::Unused).is_none());
}

#[test]
fn min_length_counts_characters() {
    let rule = ValidationRule::MinLength(3);
    let e = check("name", &s("ab"), &rule, &RuleProbe::Unused).unwrap();
    assert_eq!(e.message, "length must be >= 3");
    assert_eq!(json_to_string(e.expected.as_ref().unwrap()), "3");
    assert_eq!(json_to_string(e.actual.as_ref().unwrap()), "\"ab\"");
    assert!(check("name", &s("abc"), &rule, &RuleProbe::Unused).is_none());
    let wrong = check("name", &JsonValue::Bool(true), &rule, &RuleProbe::Unused).unwrap();
    assert_eq!(wrong.message, "must be a string, array, or object to apply length validation");
}

#[test]
fn max_items_on_arrays() {
    let rule = ValidationRule::MaxItems(1);
    let e = check("xs", &JsonValue::Array(vec![num("1"), num("2")]), &rule, &RuleProbe::Unused).unwrap();
    assert_eq!(e.rule.as_deref(), Some("max_items"));
    assert!(check("xs", &JsonValue::Array(vec![num("1")]), &rule, &RuleProbe::Unused).is_none());
}

#[test]
fn min_follows_the_float_comparison() {
    let rule = ValidationRule::Min(ValidationNumber::Finite("10".to_string()));
    let e = check("port", &num("5"), &rule, &RuleProbe::Compared(Some(false))).unwrap();
    assert_eq!(e.message, "must be >= 10");
    assert!(check("port", &num("50"), &rule, &RuleProbe::Compared(Some(true))).is_none());
}

#[test]
fn infinite_bound_is_reported() {
    let rule = ValidationRule::Max(ValidationNumber::Invalid("inf".to_string()));
    let e = check("port", &num("5"), &rule, &RuleProbe::Unused).unwrap();
    assert_eq!(e.message, "declared maximum must be finite, got inf");
}

#[test]
fn multiple_of_follows_the_probe() {
    let rule = ValidationRule::MultipleOf(ValidationNumber::Finite("4".to_string()));
    assert!(check("n", &num("8"), &rule, &RuleProbe::Divided(DivisorProbe::Usable(Some(true)))).is_none());
    assert!(check("n", &num("9"), &rule, &RuleProbe::Divided(DivisorProbe::Usable(Some(false)))).is_some());
}

#[test]
fn pattern_uses_the_regex() {
    let rule = ValidationRule::Pattern("^[a-z]+$".to_string());
    assert!(check("id", &s("abc"), &rule, &RuleProbe::Unused).is_none());
    let e = check("id", &s("ABC"), &rule, &RuleProbe::Unused).unwrap();
    assert_eq!(e.message, "must match pattern \"^[a-z]+$\"");
}

#[test]
fn invalid_pattern_is_reported() {
    let rule = ValidationRule::Pattern("(".to_string());
    let e = check("id", &s("abc"), &rule, &RuleProbe::Unused).unwrap();
    assert!(e.message.starts_with("declared pattern must be a valid regex: "));
}

#[test]
fn one_of_lists_the_choices() {
    let rule = ValidationRule::OneOf(vec![ValidationValue(s("a")), ValidationValue(s("b"))]);
    assert!(check("mode", &s("a"), &rule, &RuleProbe::Unused).is_none());
    let e = check("mode", &s("c"), &rule, &RuleProbe::Unused).unwrap();
    assert_eq!(e.message, "must be one of \"a\", \"b\"");
    assert_eq!(json_to_string(e.expected.as_ref().unwrap()), "[\"a\",\"b\"]");
}

#[test]
fn secret_values_are_redacted() {
    let secrets = vec!["db.password".to_string()];
    let e = validate_declared_rule(
        "db.password",
        &s("ab"),
        &ValidationRule::MinLength(8),
        &secrets,
        &RuleProbe::Unused,
        &no_ips(),
    )
    .unwrap();
    assert_eq!(json_to_string(e.actual.as_ref().unwrap()), "\"***redacted***\"");
}

#[test]
fn hostnames() {
    assert!(is_valid_hostname("example.com"));
    assert!(!is_valid_hostname("-bad.example"));
    assert!(!is_valid_hostname(""));
}

#[test]
fn emails_check_the_local_part() {
    let ips = no_ips();
    assert!(is_valid_email("user@example.com", &ips));
    assert!(!is_valid_email("a(b@example.com", &ips));
    assert!(!is_valid_email("no-at-sign", &ips));
    assert!(!is_valid_email("a..b@example.com", &ips));
}

#[test]
fn email_ip_literal_uses_the_table() {
    let mut ips = StrMap::new();
    ips.insert("127.0.0.1".to_string(), IpKind::V4);
    assert!(is_valid_email("user@[127.0.0.1]", &ips));
    assert!(!is_valid_email("user@[999.0.0.1]", &ips));
}

#[test]
fn urls() {
    let ips = no_ips();
    assert!(is_valid_url("https://example.com/path", &ips));
    assert!(!is_valid_url("not a url", &ips));
}

#[test]
fn at_least_one_of_reports_when_none_present() {
    let checks = vec![ValidationCheck::AtLeastOneOf { paths: vec!["a".to_string(), "b".to_string()] }];
    let errors = validate_declared_checks(&obj(vec![]), &checks, &vec![]);
    let list = errors.into_vec();
    assert_eq!(list.len(), 1);
    assert_eq!(list[0].message, "at least one of a, b must be configured");
    assert_eq!(list[0].rule.as_deref(), Some("at_least_one_of"));
    let fine = validate_declared_checks(&obj(vec![("a", num("1"))]), &checks, &vec![]);
    assert!(fine.is_empty());
}

#[test]
fn exactly_one_of_rejects_two() {
    let checks = vec![ValidationCheck::ExactlyOneOf { paths: vec!["a".to_string(), "b".to_string()] }];
    let value = obj(vec![("a", num("1")), ("b", num("2"))]);
    let errors = validate_declared_checks(&value, &checks, &vec![]);
    assert_eq!(errors.len(), 1);
    let one = obj(vec![("b", num("2"))]);
    assert!(validate_declared_checks(&one, &checks, &vec![]).is_empty());
}

#[test]
fn mutually_exclusive_allows_one() {
    let checks = vec![ValidationCheck::MutuallyExclusive { paths: vec!["a".to_string(), "b".to_string()] }];
    assert!(validate_declared_checks(&obj(vec![("a", num("1"))]), &checks, &vec![]).is_empty());
    let both = obj(vec![("a", num("1")), ("b", num("2"))]);
    let list = validate_declared_checks(&both, &checks, &vec![]).into_vec();
    assert_eq!(list[0].message, "a, b are mutually exclusive");
}

#[test]
fn required_with_names_missing_paths() {
    let checks = vec![ValidationCheck::RequiredWith {
        path: "tls.cert".to_string(),
        requires: vec!["tls.key".to_string()],
    }];
    let value = obj(vec![("tls", obj(vec![("cert", s("c"))]))]);
    let list = validate_declared_checks(&value, &checks, &vec![]).into_vec();
    assert_eq!(list.len(), 1);
    assert_eq!(list[0].message, "tls.cert requires tls.key");
}

#[test]
fn errors_collection_counts() {
    let mut errors = ValidationErrors::new();
    assert!(errors.is_empty());
    errors.push(ValidationError::new("a", "bad"));
    assert_eq!(errors.len(), 1);
    assert_eq!(errors.into_vec()[0].message, "bad");
}

#[test]
fn errors_iterate_in_order() {
    let mut errors = ValidationErrors::new();
    errors.push(ValidationError::new("a", "first"));
    errors.push(ValidationError::new("b", "second"));
    let seen: Vec<(String, String)> = errors.iter().map(|e| (e.path.clone(), e.message.clone())).collect();
    assert_eq!(seen, vec![("a".to_string(), "first".to_string()), ("b".to_string(), "second".to_string())]);
}

#[test]
fn absolute_path_rule_asks_the_platform() {
    assert!(check("dir", &s("/var/lib"), &ValidationRule::AbsolutePath, &RuleProbe::Unused).is_none());
    let e = check("dir", &s("relative/dir"), &ValidationRule::AbsolutePath, &RuleProbe::Unused).unwrap();
    assert_eq!(e.message, "must be an absolute filesystem path");
}
