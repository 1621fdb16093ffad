//! Tests of the key-per-line converter and of the front-end state.

use fmto::EnvConverter;
use fmto::FmtoApp;
use fmto::Value;

#[test]
fn env_parse_reads_trimmed_pairs() {
    let conv = EnvConverter;
    let config = conv.parse("  HOST = localhost \nPORT=8080\n").unwrap();
    assert_eq!(config.value.len(), 2);
    assert_eq!(config.value[0].key, "HOST");
    assert!(matches!(&config.value[0].value, Value::Str(s) if s == "localhost"));
    assert_eq!(config.value[1].key, "PORT");
    assert!(matches!(&config.value[1].value, Value::Str(s) if s == "8080"));
}

#[test]
fn env_parse_skips_blanks_comments_and_bare_lines() {
    let conv = EnvConverter;
    let config = conv.parse("\n# comment\n   \nnot a pair\nA=1\n").unwrap();
    assert_eq!(config.value.len(), 1);
    assert_eq!(config.value[0].key, "A");
}

#[test]
fn env_parse_splits_at_first_equals_and_last_write_wins() {
    let conv = EnvConverter;
    let config = conv.parse("A=x=y\nA=z\n").unwrap();
    assert_eq!(config.value.len(), 1);
    assert!(matches!(&config.value[0].value, Value::Str(s) if s == "z"));
}

#[test]
fn env_format_keeps_strings_and_drops_the_rest() {
    let conv = EnvConverter;
    let config = conv.parse("A=1\nB=2\n").unwrap();
    let mut config = config;
    config.value.push(fmto::Member {
        key: "C".to_string(),
        value: Value::Null,
    });
    let text = conv.format(&config).unwrap();
    assert_eq!(text, "A=1\nB=2\n");
}

#[test]
fn env_round_trips_through_its_own_text() {
    let conv = EnvConverter;
    let config = conv.parse("A=1\nB=two\n").unwrap();
    let text = conv.format(&config).unwrap();
    let back = conv.parse(&text).unwrap();
    assert_eq!(back.value.len(), 2);
    assert_eq!(back.value[0].key, "A");
    assert_eq!(back.value[1].key, "B");
}

#[test]
fn app_state_starts_with_three_formats() {
    let app = FmtoApp::new();
    assert!(app.input_path.is_none());
    assert!(app.output_dir.is_none());
    assert_eq!(app.selected_formats, vec!["json", "yaml", "toml"]);
    assert!(app.error.is_none());
}

#[test]
fn app_state_deselects_the_input_format() {
    let mut app = FmtoApp::new();
    app.set_input_file("config.yaml".to_string(), "yaml");
    assert_eq!(app.input_path.as_deref(), Some("config.yaml"));
    assert_eq!(app.selected_formats, vec!["json", "toml"]);
}

#[test]
fn app_state_keeps_formats_for_unknown_extension() {
    let mut app = FmtoApp::new();
    app.set_input_file("notes.txt".to_string(), "txt");
    assert_eq!(app.selected_formats, vec!["json", "yaml", "toml"]);
}

#[test]
fn app_state_records_output_dir() {
    let mut app = FmtoApp::new();
    app.set_output_dir("out".to_string());
    assert_eq!(app.output_dir.as_deref(), Some("out"));
}
