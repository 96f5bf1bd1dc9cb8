use sysctl_schema::config::SysctlMap;
use sysctl_schema::lex::{colon, comment, equals, hyphen, skip0, token};
use sysctl_schema::schema::{parse_schema, schema_entry, schema_key, schema_type};
use sysctl_schema::sysctl::{parse_key, parse_key_value, parse_sysctl, parse_value};
use sysctl_schema::types::{SchemaEntry, SchemaType, SysctlValue};

fn value_of(value: &str, ignore_error: bool) -> SysctlValue {
    SysctlValue { value: value.to_string(), ignore_error }
}

fn assert_map(m: &SysctlMap, expected: &[(&str, &str, bool)]) {
    assert_eq!(m.len(), expected.len());
    for (k, v, ignore) in expected {
        assert_eq!(m.get(k), Some(&value_of(v, *ignore)));
    }
}

#[test]
fn test_comment() {
    assert_eq!(comment("# this is a comment\n"), Some(""));
    assert_eq!(comment("; this is a comment"), Some(""));
}

#[test]
fn test_skip0() {
    assert_eq!(skip0("   \n# a comment\n   \n"), "");
    assert_eq!(skip0("   # a comment"), "");
    assert_eq!(skip0("   "), "");
    assert_eq!(skip0("\n"), "");
}

#[test]
fn test_key() {
    assert_eq!(parse_key("key=value"), Some(("=value", "key")));
    assert_eq!(parse_key("-key=value"), Some(("=value", "-key")));
    assert_eq!(parse_key(" key=value"), Some(("=value", "key")));
    assert_eq!(parse_key("\tkey=value"), Some(("=value", "key")));
    assert_eq!(parse_key("key =value"), Some((" =value", "key")));
}

#[test]
fn test_value() {
    assert_eq!(parse_value("value\n"), ("\n", "value"));
    assert_eq!(parse_value("value "), ("", "value"));
    assert_eq!(parse_value(" value "), ("", "value"));
    assert_eq!(parse_value(" value\n"), ("\n", "value"));
}

#[test]
fn test_key_value() {
    assert_eq!(
        parse_key_value("-key = value\n"),
        Some(("\n", ("key".to_string(), value_of("value", true))))
    );
    assert_eq!(
        parse_key_value("key=value\n"),
        Some(("\n", ("key".to_string(), value_of("value", false))))
    );
    assert_eq!(
        parse_key_value("key = value \n"),
        Some(("\n", ("key".to_string(), value_of("value", false))))
    );
    assert_eq!(
        parse_key_value("-key=value"),
        Some(("", ("key".to_string(), value_of("value", true))))
    );
}

#[test]
fn test_parse_sysctl() {
    let input = "
            # comment
            key1 = value1
            -key2 = value2
            key3=value3
            key4 =    value4   
            # another comment
        ";
    let m = parse_sysctl(input).unwrap();
    assert_map(
        &m,
        &[
            ("key1", "value1", false),
            ("key2", "value2", true),
            ("key3", "value3", false),
            ("key4", "value4", false),
        ],
    );
}

#[test]
fn test_schema_key() {
    assert_eq!(schema_key("key: value"), Some((": value", "key")));
}

#[test]
fn test_schema_type() {
    assert_eq!(schema_type("string"), Some(("", SchemaType::String)));
    assert_eq!(schema_type("bool"), Some(("", SchemaType::Boolean)));
    assert_eq!(schema_type("number"), Some(("", SchemaType::Number)));
    assert!(schema_type("invalid").is_none());
}

fn entry(name: &str, schema_type: SchemaType) -> SchemaEntry {
    SchemaEntry { name: name.to_owned(), schema_type }
}

#[test]
fn test_schema_entry() {
    assert_eq!(schema_entry("key: string"), Some(("", entry("key", SchemaType::String))));
    assert_eq!(schema_entry("key : bool"), Some(("", entry("key", SchemaType::Boolean))));
    assert_eq!(schema_entry("key  :number"), Some(("", entry("key", SchemaType::Number))));
    assert!(schema_entry("key: invalid").is_none());
}

#[test]
fn test_parse_schema() {
    let s = parse_schema("key1: string key2: number key3: bool").unwrap();
    assert_eq!(
        s.entries,
        vec![
            entry("key1", SchemaType::String),
            entry("key2", SchemaType::Number),
            entry("key3", SchemaType::Boolean),
        ]
    );
    assert_eq!(parse_schema("").unwrap().entries, vec![]);
}

#[test]
fn tokens_skip_before_their_literal() {
    assert_eq!(hyphen("  -key"), Some("key"));
    assert_eq!(equals(" # c\n= v"), Some(" v"));
    assert_eq!(colon(":x"), Some("x"));
    assert_eq!(colon("x:"), None);
    assert_eq!(token("\n\tabc!", "abc"), Some("!"));
    assert_eq!(token("ab", "abc"), None);
}

#[test]
fn comment_needs_a_marker_and_a_line_end() {
    assert_eq!(comment("no comment"), None);
    assert_eq!(comment("# a\r\nrest"), Some("rest"));
    assert_eq!(comment("# a\rrest"), None);
    assert_eq!(skip0("  ; c\n  key"), "key");
}

#[test]
fn parse_sysctl_two_keys() {
    let m = parse_sysctl("key1 = value1\n-key2 = value2\n").unwrap();
    assert_map(&m, &[("key1", "value1", false), ("key2", "value2", true)]);
    assert_eq!(m.key_at(0), "key1");
    assert_eq!(m.value_at(1), &value_of("value2", true));
}

#[test]
fn parse_sysctl_later_key_wins() {
    let m = parse_sysctl("a = 1\nb = 2\na = 3\n").unwrap();
    assert_map(&m, &[("a", "3", false), ("b", "2", false)]);
    assert_eq!(m.key_at(0), "a");
}

#[test]
fn parse_sysctl_empty_and_failures() {
    assert_eq!(parse_sysctl("").unwrap().len(), 0);
    assert_eq!(parse_sysctl("   ").unwrap().len(), 0);
    assert_eq!(parse_sysctl("  \n# only a comment\n").unwrap().len(), 0);
    assert_eq!(parse_sysctl("a = 1\n  # c\n  ").unwrap().len(), 1);
    assert_eq!(parse_sysctl("a = 1\nnovalue\n").unwrap_err().rest, "novalue\n");
    assert_eq!(parse_sysctl("= 1\n").unwrap_err().rest, "= 1\n");
}

#[test]
fn parse_sysctl_value_keeps_inner_text() {
    let m = parse_sysctl("endpoint = localhost:3000 # not a comment\n").unwrap();
    assert_map(&m, &[("endpoint", "localhost:3000 # not a comment", false)]);
}

#[test]
fn parse_schema_two_entries() {
    let s = parse_schema("key1: string key2: number").unwrap();
    assert_eq!(s.entries, vec![entry("key1", SchemaType::String), entry("key2", SchemaType::Number)]);
}

#[test]
fn parse_schema_comments_and_failures() {
    let s = parse_schema("# types\nk: bool\n; end\n").unwrap();
    assert_eq!(s.entries, vec![entry("k", SchemaType::Boolean)]);
    assert_eq!(parse_schema("k: date").unwrap_err().rest, "k: date");
    assert_eq!(parse_schema("a: bool b").unwrap_err().rest, "b");
    assert_eq!(parse_schema("k: strings").unwrap_err().rest, "s");
}

#[test]
fn rendered_text_reads_back() {
    let first = parse_sysctl("a = 1\n-path = /var/log x\n# note\nflag=true\n").unwrap();
    let mut text = String::new();
    for i in 0..first.len() {
        let v = first.value_at(i);
        if v.ignore_error {
            text.push('-');
        }
        text.push_str(first.key_at(i));
        text.push('=');
        text.push_str(&v.value);
        text.push('\n');
    }
    assert_eq!(text, "a=1\n-path=/var/log x\nflag=true\n");
    let second = parse_sysctl(&text).unwrap();
    assert_map(&second, &[("a", "1", false), ("path", "/var/log x", true), ("flag", "true", false)]);
}

#[test]
fn value_stops_at_its_line_end() {
    let m = parse_sysctl("k =\nj = v\n").unwrap();
    assert_map(&m, &[("k", "", false), ("j", "v", false)]);
    let m = parse_sysctl("a = # kept\nb = ;also kept\n").unwrap();
    assert_map(&m, &[("a", "# kept", false), ("b", ";also kept", false)]);
    assert_eq!(parse_value("\nnext"), ("\nnext", ""));
}

#[test]
fn empty_values_read_back() {
    let text = "a=\nb=v\n--c=\n";
    let m = parse_sysctl(text).unwrap();
    assert_map(&m, &[("a", "", false), ("b", "v", false), ("-c", "", true)]);
}
