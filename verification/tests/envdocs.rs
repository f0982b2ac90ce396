use tier::config::{ConfigMetadata, FieldMetadata};
use tier::docs::EnvDocOptions;
use tier::envdocs::{env_docs_for_schema, env_docs_markdown, env_docs_report};
use tier::parse::parse_file_value;
use tier::sources::FileFormat;

const SCHEMA: &str = r##"{
  "$defs": {"Db": {"properties": {"url": {"type": ["string", "null"]}}}},
  "properties": {
    "db": {"$ref": "#/$defs/Db"},
    "port": {"description": "Port", "type": "integer"},
    "token": {"type": "string", "writeOnly": true}
  },
  "required": ["port"]
}"##;

#[test]
fn env_docs_walk_the_schema() {
    let schema = parse_file_value("schema.json", SCHEMA, FileFormat::Json).unwrap();
    let rows = env_docs_for_schema(&schema, &ConfigMetadata::new(), &EnvDocOptions::new());
    let paths: Vec<&str> = rows.iter().map(|r| r.path.as_str()).collect();
    assert_eq!(paths, vec!["db.url", "port", "token"]);
    assert_eq!(rows[0].ty, "string | null");
    assert_eq!(rows[0].env, "DB__URL");
    assert!(!rows[0].required);
    assert!(rows[1].required);
    assert_eq!(rows[1].description.as_deref(), Some("Port"));
    assert!(rows[2].secret);
}

#[test]
fn env_docs_apply_field_metadata() {
    let schema = parse_file_value("schema.json", SCHEMA, FileFormat::Json).unwrap();
    let metadata = ConfigMetadata::from_fields(vec![FieldMetadata::new("port").env("APP_PORT").defaulted().doc("Listening port")]);
    let rows = env_docs_for_schema(&schema, &metadata, &EnvDocOptions::prefixed("APP"));
    assert_eq!(rows[1].env, "APP_PORT");
    assert!(!rows[1].required);
    assert!(rows[1].has_default);
    assert_eq!(rows[1].description.as_deref(), Some("Listening port"));
    assert_eq!(rows[2].env, "APP__TOKEN");
}

#[test]
fn env_docs_stop_at_a_reference_cycle() {
    let text = r##"{"$defs": {"Node": {"properties": {"next": {"$ref": "#/$defs/Node"}, "value": {"type": "string"}}}}, "$ref": "#/$defs/Node"}"##;
    let schema = parse_file_value("schema.json", text, FileFormat::Json).unwrap();
    let rows = env_docs_for_schema(&schema, &ConfigMetadata::new(), &EnvDocOptions::new());
    let paths: Vec<&str> = rows.iter().map(|r| r.path.as_str()).collect();
    assert_eq!(paths, vec!["value"]);
}

#[test]
fn env_docs_render_as_markdown() {

    let schema = parse_file_value("schema.json", SCHEMA, FileFormat::Json).unwrap();
    let metadata = ConfigMetadata::from_fields(vec![FieldMetadata::new("port").doc("a|b\nc")]);
    let rows = env_docs_for_schema(&schema, &metadata, &EnvDocOptions::new());
    let md = env_docs_markdown(&rows);
    let lines: Vec<&str> = md.lines().collect();
    assert_eq!(lines.len(), 5);
    assert!(lines[0].starts_with("| Path | Env | Type |"));
    assert_eq!(lines[3], "| `port` | `PORT` | `integer` | yes | no | `merge` | no |  |  |  |  | a\\|b c |");
    let report = env_docs_report(rows);
    assert_eq!(report.format_version, 1);
    assert_eq!(report.entries.len(), 3);
}
