//! Tests of the core grammar: parsing, emission, and their round
//! trip on concrete documents.

use fmto::parse_hocon;
use fmto::format_hocon;
use fmto::value_eq;
use fmto::ConfigValue;
use fmto::ConvError;
use fmto::Member;
use fmto::Value;

fn num(v: &Value) -> f64 {
    match v {
        Value::Num(t) => t.parse::<f64>().unwrap(),
        _ => panic!("expected a number"),
    }
}

#[test]
fn empty_object_parses() {
    let config = parse_hocon("{}").unwrap();
    assert_eq!(config.value.len(), 0);
}

#[test]
fn empty_object_formats_as_bare_braces() {
    let config = ConfigValue { value: Vec::new() };
    assert_eq!(format_hocon(&config), "{\n}\n");
}

#[test]
fn flat_object_with_number_and_string() {
    let config = parse_hocon("{\"a\": 1, \"b\": \"x\"}").unwrap();
    assert_eq!(config.value.len(), 2);
    assert_eq!(config.value[0].key, "a");
    assert_eq!(num(&config.value[0].value), 1.0);
    assert!(matches!(&config.value[0].value, Value::Num(_)));
    assert_eq!(config.value[1].key, "b");
    assert!(matches!(&config.value[1].value, Value::Str(s) if s == "x"));
}

#[test]
fn unquoted_key_is_rejected() {
    let err = parse_hocon("{a: 1}").unwrap_err();
    assert!(matches!(err, ConvError::KeyMustBeString));
}

#[test]
fn nested_object_and_array() {
    let config = parse_hocon("{\"a\": {\"b\": [1, 2, 3]}}").unwrap();
    assert_eq!(config.value.len(), 1);
    assert_eq!(config.value[0].key, "a");
    let inner = match &config.value[0].value {
        Value::Obj(ms) => ms,
        _ => panic!("expected an object"),
    };
    assert_eq!(inner.len(), 1);
    assert_eq!(inner[0].key, "b");
    let arr = match &inner[0].value {
        Value::Arr(es) => es,
        _ => panic!("expected an array"),
    };
    assert_eq!(arr.len(), 3);
    assert_eq!(num(&arr[0]), 1.0);
    assert_eq!(num(&arr[1]), 2.0);
    assert_eq!(num(&arr[2]), 3.0);
}

#[test]
fn boolean_and_null_round_trip() {
    let first = parse_hocon("{\"x\": true, \"y\": null}").unwrap();
    let text = format_hocon(&first);
    let second = parse_hocon(&text).unwrap();
    assert_eq!(second.value.len(), 2);
    assert_eq!(second.value[0].key, "x");
    assert!(matches!(second.value[0].value, Value::Bool(true)));
    assert_eq!(second.value[1].key, "y");
    assert!(matches!(second.value[1].value, Value::Null));
}

#[test]
fn trailing_content_is_rejected() {
    let err = parse_hocon("{} extra").unwrap_err();
    assert!(matches!(err, ConvError::ParseIncomplete));
}

#[test]
fn scalar_root_is_rejected() {
    let err = parse_hocon("\"just a string\"").unwrap_err();
    assert!(matches!(err, ConvError::RootNotObject));
}

#[test]
fn array_root_is_rejected() {
    let err = parse_hocon("[1, 2]").unwrap_err();
    assert!(matches!(err, ConvError::RootNotObject));
}

#[test]
fn malformed_number_is_rejected() {
    let err = parse_hocon("{\"n\": 1.2.3}").unwrap_err();
    assert!(matches!(err, ConvError::InvalidNumber(t) if t == "1.2.3"));
}

#[test]
fn nested_document_round_trips() {
    let doc = ConfigValue {
        value: vec![
            Member { key: "name".to_string(), value: Value::Str("demo".to_string()) },
            Member { key: "port".to_string(), value: Value::Num("8080".to_string()) },
            Member { key: "ratio".to_string(), value: Value::Num("-0.25".to_string()) },
            Member { key: "debug".to_string(), value: Value::Bool(false) },
            Member { key: "extra".to_string(), value: Value::Null },
            Member {
                key: "servers".to_string(),
                value: Value::Arr(vec![
                    Value::Str("alpha".to_string()),
                    Value::Obj(vec![Member {
                        key: "depth".to_string(),
                        value: Value::Arr(vec![Value::Num("1".to_string()), Value::Null]),
                    }]),
                ]),
            },
        ],
    };
    let text = format_hocon(&doc);
    let back = parse_hocon(&text).unwrap();
    assert!(value_eq(
        &Value::Obj(doc.value),
        &Value::Obj(back.value),
    ));
}

#[test]
fn comments_and_separators_are_flexible() {
    let text = "# leading comment\n{\n  \"a\" = 1 # trailing comment\n  \"b\": 'single'\n}\n";
    let config = parse_hocon(text).unwrap();
    assert_eq!(config.value.len(), 2);
    assert_eq!(num(&config.value[0].value), 1.0);
    assert!(matches!(&config.value[1].value, Value::Str(s) if s == "single"));
}

#[test]
fn duplicate_keys_last_write_wins() {
    let config = parse_hocon("{\"a\": 1, \"a\": 2}").unwrap();
    assert_eq!(config.value.len(), 1);
    assert_eq!(num(&config.value[0].value), 2.0);
}

#[test]
fn unterminated_string_is_rejected() {
    let err = parse_hocon("{\"a\": \"oops}").unwrap_err();
    assert!(matches!(err, ConvError::UnterminatedString));
}

#[test]
fn invalid_character_is_rejected() {
    let err = parse_hocon("{\"a\": @}").unwrap_err();
    assert!(matches!(err, ConvError::InvalidChar('@')));
}

#[test]
fn invalid_boolean_word_is_rejected() {
    let err = parse_hocon("{\"a\": tru}").unwrap_err();
    assert!(matches!(err, ConvError::InvalidBoolean(t) if t == "tru"));
}

#[test]
fn invalid_null_word_is_rejected() {
    let err = parse_hocon("{\"a\": nil}").unwrap_err();
    assert!(matches!(err, ConvError::InvalidNull(t) if t == "nil"));
}

#[test]
fn reserved_keyword_is_no_value() {
    let text = format!("{{\"a\": {}{}}}", "inclu", "de");
    let err = parse_hocon(&text).unwrap_err();
    assert!(matches!(err, ConvError::InvalidValue));
}

#[test]
fn misspelled_reserved_keyword_is_rejected() {
    let err = parse_hocon("{\"a\": inc}").unwrap_err();
    assert!(matches!(err, ConvError::InvalidKeyword(t) if t == "inc"));
}

#[test]
fn missing_separator_is_rejected() {
    let err = parse_hocon("{\"a\" 1}").unwrap_err();
    assert!(matches!(err, ConvError::ExpectedSeparator));
}

#[test]
fn format_indents_two_spaces_per_level() {
    let doc = ConfigValue {
        value: vec![Member {
            key: "outer".to_string(),
            value: Value::Obj(vec![Member {
                key: "inner".to_string(),
                value: Value::Num("1".to_string()),
            }]),
        }],
    };
    let text = format_hocon(&doc);
    assert_eq!(text, "{\n  \"outer\" = {\n    \"inner\" = 1\n  }\n}\n");
}

#[test]
fn format_arrays_one_element_per_line_with_commas() {
    let doc = ConfigValue {
        value: vec![Member {
            key: "xs".to_string(),
            value: Value::Arr(vec![
                Value::Num("1".to_string()),
                Value::Num("2".to_string()),
            ]),
        }],
    };
    let text = format_hocon(&doc);
    assert_eq!(text, "{\n  \"xs\" = [\n    1,\n    2,\n  ]\n}\n");
}

#[test]
fn number_with_trailing_point_is_accepted() {
    let config = parse_hocon("{\"n\": 1.}").unwrap();
    assert_eq!(num(&config.value[0].value), 1.0);
}

#[test]
fn bare_minus_is_a_malformed_number() {
    let err = parse_hocon("{\"n\": -}").unwrap_err();
    assert!(matches!(err, ConvError::InvalidNumber(t) if t == "-"));
}

#[test]
fn negative_fraction_without_integer_part_parses() {
    let config = parse_hocon("{\"n\": -.5}").unwrap();
    assert_eq!(num(&config.value[0].value), -0.5);
}

#[test]
fn commas_between_members_are_optional() {
    let config = parse_hocon("{\"a\": 1\n\"b\": 2,}").unwrap();
    assert_eq!(config.value.len(), 2);
}

#[test]
fn empty_input_is_an_invalid_value() {
    let err = parse_hocon("").unwrap_err();
    assert!(matches!(err, ConvError::InvalidValue));
}

#[test]
fn error_descriptions_are_nonempty() {
    let err = parse_hocon("{\"a\": @}").unwrap_err();
    assert!(!err.describe().is_empty());
}
