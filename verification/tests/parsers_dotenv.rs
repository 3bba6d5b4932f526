use dq_core::{Document, Format, FormatTag, Value, ValueMap};
use dq_core::parsers::dotenv::{DotEnv, quote_for_env};

#[test]
fn parse_simple_assignment() {
    let doc = DotEnv.parse(b"KEY=value\n").expect("parse");
    let Value::Object(m) = doc.value() else {
        panic!("expected map")
    };
    assert_eq!(m.get("KEY"), Some(&Value::String("value".into())));
}

#[test]
fn parse_export_prefix_strips_keyword() {
    let doc = DotEnv.parse(b"export PATH=/usr/bin\n").expect("parse");
    let Value::Object(m) = doc.value() else { panic!() };
    assert_eq!(m.get("PATH"), Some(&Value::String("/usr/bin".into())));
}

#[test]
fn parse_double_quoted_with_escapes() {
    let doc = DotEnv.parse(b"M=\"a\\nb\"\n").expect("parse");
    let Value::Object(m) = doc.value() else { panic!() };
    assert_eq!(m.get("M"), Some(&Value::String("a\nb".into())));
}

#[test]
fn write_quotes_value_with_whitespace() {
    let mut map = ValueMap::new();
    map.insert("M".to_string(), Value::String("hello world".into()));
    let doc = Document::value_only(Value::Object(map), FormatTag::DotEnv);
    let mut buf: Vec<u8> = Vec::new();
    DotEnv.write(&doc, &mut buf).expect("write");
    assert_eq!(String::from_utf8(buf).unwrap(), "M=\"hello world\"\n");
}

#[test]
fn write_quotes_value_with_unprintable_characters() {
    for c in ['\u{7f}', '\u{1}', '\u{85}', '\u{9f}'] {
        let plain = format!("a{c}b");
        assert_eq!(quote_for_env(&plain), format!("\"a{c}b\""), "{c:?}");
        let mut map = ValueMap::new();
        map.insert("K".to_string(), Value::String(plain));
        let value = Value::Object(map);
        let mut buf: Vec<u8> = Vec::new();
        DotEnv.write(&Document::value_only(value.clone(), FormatTag::DotEnv), &mut buf).expect("write");
        assert_eq!(DotEnv.parse(&buf).expect("parse").value(), &value);
    }
    assert_eq!(quote_for_env("a\u{a1}b"), "a\u{a1}b");
}
