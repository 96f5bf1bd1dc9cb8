use sysctl_schema::config::SysctlMap;
use sysctl_schema::types::{Schema, SchemaEntry, SchemaType, SysctlValue, ValidationError};
use sysctl_schema::validation::{long_line, validate_by_schema};

fn map_of(pairs: &[(&str, &str)]) -> SysctlMap {
    let mut m = SysctlMap::new();
    for (k, v) in pairs {
        m.insert(k.to_string(), SysctlValue { value: v.to_string(), ignore_error: false });
    }
    m
}

fn schema_of(entries: &[(&str, SchemaType)]) -> Schema {
    Schema {
        entries: entries
            .iter()
            .map(|(n, t)| SchemaEntry { name: n.to_string(), schema_type: *t })
            .collect(),
    }
}

fn key_name(e: &ValidationError) -> String {
    match e {
        ValidationError::MissingKey(k) => k.clone(),
        ValidationError::UnknownKey(k) => k.clone(),
        ValidationError::WrongType { key_name, .. } => key_name.clone(),
        ValidationError::TooLongLine(k) => k.clone(),
    }
}

fn sorted(mut errors: Vec<ValidationError>) -> Vec<ValidationError> {
    errors.sort_by_key(key_name);
    errors
}

#[test]
fn schema_type_from_str() {
    assert_eq!(SchemaType::from_str("true"), SchemaType::Boolean);
    assert_eq!(SchemaType::from_str("false"), SchemaType::Boolean);
    assert_eq!(SchemaType::from_str("42"), SchemaType::Number);
    assert_eq!(SchemaType::from_str("3.14"), SchemaType::Number);
    assert_eq!(SchemaType::from_str("hello"), SchemaType::String);
}

#[test]
fn inference_follows_float_syntax() {
    for s in ["inf", "-Infinity", "+NaN", "1e5", "1E-5", ".5", "5.", "-0", "007", "1.5e+3"] {
        assert_eq!(SchemaType::from_str(s), SchemaType::Number, "{}", s);
    }
    for s in ["", ".", "e5", "1e", "1.2.3", " 1", "1 ", "0x10", "True", "infinit", "3..14", "+-1"] {
        assert_eq!(SchemaType::from_str(s), SchemaType::String, "{}", s);
    }
    for s in ["inf", "1e5", ".5", "5.", "1.5e+3", "-2"] {
        assert_eq!(SchemaType::from_str(s), if s.parse::<f32>().is_ok() { SchemaType::Number } else { SchemaType::String });
    }
}

#[test]
fn keywords_name_the_types() {
    assert_eq!(SchemaType::String.keyword(), "string");
    assert_eq!(SchemaType::Boolean.keyword(), "bool");
    assert_eq!(SchemaType::Number.keyword(), "number");
}

#[test]
fn validate_by_schema_success() {
    let value = map_of(&[("key1", "value1"), ("key2", "false"), ("key3", "3.14")]);
    let schema = schema_of(&[
        ("key1", SchemaType::String),
        ("key2", SchemaType::Boolean),
        ("key3", SchemaType::Number),
    ]);
    assert!(validate_by_schema(&value, &schema).is_ok());
}

#[test]
fn validate_by_schema_error() {
    let value = map_of(&[("key1", "true"), ("key2", "true?"), ("key3", "3..14")]);
    let schema = schema_of(&[
        ("key1", SchemaType::String),
        ("key2", SchemaType::Boolean),
        ("key3", SchemaType::Number),
    ]);
    assert_eq!(
        validate_by_schema(&value, &schema).map_err(sorted),
        Err(vec![
            ValidationError::WrongType {
                key_name: "key2".to_string(),
                expect: SchemaType::Boolean,
                actual: SchemaType::String,
            },
            ValidationError::WrongType {
                key_name: "key3".to_string(),
                expect: SchemaType::Number,
                actual: SchemaType::String,
            },
        ])
    );
    // Checking missing keys
    assert_eq!(
        validate_by_schema(
            &map_of(&[("key1", "true")]),
            &schema_of(&[("key1", SchemaType::String), ("key2", SchemaType::Boolean)])
        ),
        Err(vec![ValidationError::MissingKey("key2".to_string())])
    );
    // Checking unknown keys
    assert_eq!(
        validate_by_schema(
            &map_of(&[("key1", "true"), ("key2", "true?")]),
            &schema_of(&[("key1", SchemaType::String)])
        ),
        Err(vec![ValidationError::UnknownKey("key2".to_string())])
    );
}

#[test]
fn boolean_value_passes() {
    let r = validate_by_schema(&map_of(&[("key1", "true")]), &schema_of(&[("key1", SchemaType::Boolean)]));
    assert_eq!(r, Ok(()));
}

#[test]
fn wrong_boolean_reported() {
    let r = validate_by_schema(&map_of(&[("key1", "true?")]), &schema_of(&[("key1", SchemaType::Boolean)]));
    assert_eq!(
        r,
        Err(vec![ValidationError::WrongType {
            key_name: "key1".to_string(),
            expect: SchemaType::Boolean,
            actual: SchemaType::String,
        }])
    );
}

#[test]
fn number_declared_boolean_given() {
    let r = validate_by_schema(&map_of(&[("n", "false")]), &schema_of(&[("n", SchemaType::Number)]));
    assert_eq!(
        r,
        Err(vec![ValidationError::WrongType {
            key_name: "n".to_string(),
            expect: SchemaType::Number,
            actual: SchemaType::Boolean,
        }])
    );
}

#[test]
fn missing_from_empty_configuration() {
    let r = validate_by_schema(&map_of(&[]), &schema_of(&[("key1", SchemaType::String)]));
    assert_eq!(r, Err(vec![ValidationError::MissingKey("key1".to_string())]));
}

#[test]
fn unknown_key_reported() {
    let r = validate_by_schema(&map_of(&[("key1", "x"), ("key2", "y")]), &schema_of(&[("key1", SchemaType::String)]));
    assert_eq!(r, Err(vec![ValidationError::UnknownKey("key2".to_string())]));
}

#[test]
fn errors_come_in_groups() {
    let r = validate_by_schema(
        &map_of(&[("u", "1"), ("b", "yes")]),
        &schema_of(&[("m", SchemaType::Number), ("b", SchemaType::Boolean), ("m", SchemaType::String)]),
    );
    assert_eq!(
        r,
        Err(vec![
            ValidationError::MissingKey("m".to_string()),
            ValidationError::UnknownKey("u".to_string()),
            ValidationError::WrongType {
                key_name: "b".to_string(),
                expect: SchemaType::Boolean,
                actual: SchemaType::String,
            },
        ])
    );
}

#[test]
fn first_declaration_counts() {
    let schema = schema_of(&[("k", SchemaType::Number), ("k", SchemaType::String)]);
    let r = validate_by_schema(&map_of(&[("k", "word")]), &schema);
    assert_eq!(
        r,
        Err(vec![ValidationError::WrongType {
            key_name: "k".to_string(),
            expect: SchemaType::Number,
            actual: SchemaType::String,
        }])
    );
}

#[test]
fn long_lines_of_strings() {
    let at_limit = "x".repeat(4096);
    let below = "x".repeat(4095);
    let schema = schema_of(&[("s", SchemaType::String)]);
    assert_eq!(
        validate_by_schema(&map_of(&[("s", &at_limit)]), &schema),
        Err(vec![ValidationError::TooLongLine("s".to_string())])
    );
    assert_eq!(validate_by_schema(&map_of(&[("s", &below)]), &schema), Ok(()));
    let two_lines = format!("{}\n{}", below, below);
    assert_eq!(validate_by_schema(&map_of(&[("s", &two_lines)]), &schema), Ok(()));
    assert!(long_line(&format!("a\n{}", at_limit)));
    assert!(!long_line(&format!("{}\r\n", below)));
    assert!(long_line(&format!("{}\r", below)));
    assert!(!long_line(""));
}
