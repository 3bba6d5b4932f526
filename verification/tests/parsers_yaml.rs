use dq_core::{Document, Format, Value};
use dq_core::parsers::tokens::NumberForms;
use dq_core::parsers::yaml::{parse_with_spans, parse_yaml_checked, Yaml};
use dq_core::parsers::yaml_literals::keep_float;

fn parse(s: &str) -> Document {
    Yaml.parse(s.as_bytes()).unwrap()
}

#[test]
fn parse_basic_mapping_preserves_order() {
    let doc = parse("z: 1\na: 2\nm: 3\n");
    let Value::Object(m) = doc.value() else { panic!() };
    let keys: Vec<&str> = m.entries.iter().map(|(k, _)| k.as_str()).collect();
    assert_eq!(keys, vec!["z", "a", "m"]);
}

#[test]
fn parse_multi_doc_yields_multi() {
    let doc = parse("---\na: 1\n---\nb: 2\n");
    let docs = doc
        .values()
        .unwrap_or_else(|| panic!("expected multi, got: {doc:?}"));
    assert_eq!(docs.len(), 2);
}

#[test]
fn parse_scalar_types() {
    let doc = parse("a: true\nb: 1\nc: 1.5\nd: ~\ne: hello\n");
    let Value::Object(m) = doc.value() else { panic!() };
    assert_eq!(m.get("a"), Some(&Value::Bool(true)));
    assert_eq!(m.get("b"), Some(&Value::Int(1)));
    assert_eq!(m.get("d"), Some(&Value::Null));
    assert_eq!(m.get("e"), Some(&Value::String("hello".into())));
}

#[test]
fn write_round_trip_basic_mapping() {
    let doc = parse("a: 1\nb: 2\n");
    let mut buf: Vec<u8> = Vec::new();
    Yaml.write(&doc, &mut buf).unwrap();
    let out = String::from_utf8(buf).unwrap();
    let again = Yaml.parse(out.as_bytes()).unwrap();
    assert_eq!(doc, again);
}

#[test]
fn checked_yaml_is_refused_where_a_key_is_empty() {
    let doc = parse_yaml_checked(b"a: 1\n").unwrap().unwrap();
    let Value::Object(m) = doc.value() else { panic!() };
    assert_eq!(m.get("a"), Some(&Value::Int(1)));
    assert!(parse_yaml_checked(b"a: [1\n").unwrap().is_err());
    assert!(parse_yaml_checked(b"\"\": 1\n").is_none());
}

const LONG: &str = "0.12345678901234567890123";

fn field<'a>(value: &'a Value, key: &str) -> &'a Value {
    let Value::Object(map) = value else { panic!("expected an object, got: {value:?}") };
    map.get(key).unwrap_or_else(|| panic!("no {key}"))
}

#[test]
fn a_float_that_64_bits_do_not_hold_keeps_its_literal() {
    let source = format!("a: {LONG}\nb: 0.1\nc: 1.50\nd: +.5e1\ne: [{LONG}]\nf: -0.0\n");
    for value in [
        parse(&source).value().clone(),
        parse_with_spans(source.as_bytes()).unwrap().0,
    ] {
        assert_eq!(field(&value, "a"), &Value::BigFloat(LONG.to_owned()));
        assert_eq!(field(&value, "b"), &Value::Float("0.1".to_owned()));
        assert_eq!(field(&value, "c"), &Value::Float("1.5".to_owned()));
        assert_eq!(field(&value, "d"), &Value::Float("5".to_owned()));
        assert_eq!(
            field(&value, "e"),
            &Value::Array(vec![Value::BigFloat(LONG.to_owned())])
        );
        assert_eq!(field(&value, "f"), &Value::Float("-0".to_owned()));
    }
    assert_eq!(parse(LONG).value(), &Value::BigFloat(LONG.to_owned()));
}

#[test]
fn an_aliased_literal_is_kept_too() {
    let source = format!("a: &x {LONG}\nb: *x\nc: &m {{f: {LONG}, g: [*x]}}\nd: *m\n");
    let doc = parse(&source);
    let long = Value::BigFloat(LONG.to_owned());
    assert_eq!(field(doc.value(), "a"), &long);
    assert_eq!(field(doc.value(), "b"), &long);
    for key in ["c", "d"] {
        let inner = field(doc.value(), key);
        assert_eq!(field(inner, "f"), &long);
        assert_eq!(field(inner, "g"), &Value::Array(vec![long.clone()]));
    }
}

#[test]
fn an_integer_beyond_128_bits_keeps_its_literal() {
    let digits = "1234567890".repeat(5);
    let doc = parse(&format!("a: {digits}\n"));
    assert_eq!(field(doc.value(), "a"), &Value::BigInt(digits));
    let doc = parse("a: 18446744073709551615\n");
    assert_eq!(field(doc.value(), "a"), &Value::BigInt("18446744073709551615".to_owned()));
}

#[test]
fn literals_of_a_stream_are_kept() {
    let doc = parse(&format!("---\n{LONG}\n---\nx: {LONG}\n"));
    let values = doc.values().expect("a stream");
    assert_eq!(values[0], Value::BigFloat(LONG.to_owned()));
    assert_eq!(field(&values[1], "x"), &Value::BigFloat(LONG.to_owned()));
}

#[test]
fn a_literal_is_kept_only_where_it_is_that_of_the_float() {
    let kept = |text: &str, literal: &str, real: Option<&str>| {
        let forms = NumberForms { whole: None, float: true, real: real.map(str::to_owned) };
        keep_float(&text.to_owned(), literal.to_owned(), forms)
    };
    let float = Value::Float("0.1".to_owned());
    assert_eq!(kept("0.1", "0.10", Some("0.1")), float);
    assert_eq!(kept("0.1", "0.1000000000000000001", Some("0.2")), float);
    assert_eq!(kept("0.1", "0.1000000000000000001", None), float);
    assert_eq!(kept("0.1", "words", Some("0.1")), float);
    assert_eq!(
        kept("0.1", "0.1000000000000000001", Some("0.1")),
        Value::BigFloat("0.1000000000000000001".to_owned())
    );
    assert_eq!(kept("10", "11", Some("10")), Value::BigInt("11".to_owned()));
}
