use dq_core::{Document, Error, Format, FormatTag, Pointer, Value, ValueMap, WriteOptions, parse_json_with_spans};
use dq_core::parsers::json::{IndentStyle, Json, detect_indent_style, write_laid_out};
use dq_core::parsers::json_write::{JsonInsertionRenderer, JsonScalarRenderer};
use dq_core::spans::SpanContext;
use dq_core::textual_edit::{InsertionRenderer, ScalarRenderer};

fn parse(s: &str) -> Document {
    Json.parse(s.as_bytes()).unwrap()
}

fn write(doc: &Document) -> String {
    let mut buf: Vec<u8> = Vec::new();
    Json.write(doc, &mut buf).unwrap();
    String::from_utf8(buf).unwrap()
}

fn write_compact(value: &Value, out: &mut Vec<u8>) -> Result<(), Error> {
    let opts = WriteOptions {
        indent: Some(0),
        ..WriteOptions::default()
    };
    write_laid_out(value, out, &opts)
}

#[test]
fn parse_basic_types() {
    let doc = parse(r#"{"a": 1, "b": "x", "c": true, "d": null}"#);
    let Value::Object(m) = doc.value() else {
        panic!("expected map");
    };
    assert_eq!(m.get("a"), Some(&Value::Int(1)));
    assert_eq!(m.get("b"), Some(&Value::String("x".into())));
    assert_eq!(m.get("c"), Some(&Value::Bool(true)));
    assert_eq!(m.get("d"), Some(&Value::Null));
}

#[test]
fn parse_preserves_key_order() {
    let doc = parse(r#"{"z": 1, "a": 2, "m": 3}"#);
    let Value::Object(m) = doc.value() else { panic!() };
    let keys: Vec<&str> = m.entries.iter().map(|(k, _)| k.as_str()).collect();
    assert_eq!(keys, vec!["z", "a", "m"]);
}

#[test]
fn parse_preserves_big_int_literal() {
    let big = "4722366482869645213696";
    let s = format!(r#"{{"id": {big}}}"#);
    let doc = parse(&s);
    let Value::Object(m) = doc.value() else { panic!() };
    assert_eq!(m.get("id"), Some(&Value::BigInt(big.to_owned())));
}

#[test]
fn write_pretty_is_two_space_indent() {
    let mut map = ValueMap::new();
    let arr = Value::Array(vec![Value::Int(1), Value::Int(2)]);
    map.insert("a".into(), arr);
    let doc = Document::single(Value::Object(map));
    let out = write(&doc);
    assert_eq!(out, "{\n  \"a\": [\n    1,\n    2\n  ]\n}");
}

#[test]
fn big_int_round_trip_byte_for_byte() {
    let big = "4722366482869645213696";
    let s = format!(r#"{{"id":{big}}}"#);
    let doc = parse(&s);
    let mut buf: Vec<u8> = Vec::new();
    assert!(
        !doc.is_multi(),
        "JSON parser must never produce a multi-document"
    );
    write_compact(doc.value(), &mut buf).unwrap();
    let out = String::from_utf8(buf).unwrap();
    assert!(out.contains(big), "expected literal preserved: got {out}");
}

#[test]
fn writer_rejects_non_finite_floats() {
    for bad in [f64::NAN, f64::INFINITY, f64::NEG_INFINITY] {
        let mut buf: Vec<u8> = Vec::new();
        let result = write_compact(&Value::Float(bad.to_string()), &mut buf);
        let err = result.expect_err("non-finite float must error");
        match err {
            Error::Format { format, .. } => assert_eq!(format, "json"),
            other => panic!("expected Format error, got {other:?}"),
        }
    }
}

#[test]
fn writer_accepts_finite_floats_round_trip() {
    let mut buf: Vec<u8> = Vec::new();
    write_compact(&Value::Float("3.5".to_owned()), &mut buf).unwrap();
    assert_eq!(String::from_utf8(buf).unwrap(), "3.5");

    let mut buf: Vec<u8> = Vec::new();
    write_compact(&Value::Float("2".to_owned()), &mut buf).unwrap();
    assert_eq!(String::from_utf8(buf).unwrap(), "2.0");
}

#[test]
fn parse_error_carries_line_col_and_snippet() {
    let input = "{\n  \"a\": 1,\n}";
    let err = Json.parse(input.as_bytes()).unwrap_err();
    let Error::Parse {
        line,
        col,
        span,
        snippet,
        ..
    } = err
    else {
        panic!("expected Parse error");
    };
    assert!(line >= 1, "line should be 1-based and non-zero");
    assert!(col >= 1, "col should be 1-based and non-zero");
    assert!(!snippet.is_empty(), "snippet should be populated");
    assert!(
        span.start <= input.len(),
        "span start must be in-bounds: got {span:?} for len={}",
        input.len()
    );
}

#[test]
fn parse_error_on_non_utf8_input_falls_back_gracefully() {
    let input: [u8; 4] = [0xFF, 0xFE, 0xFD, 0xFC];
    let err = Json.parse(&input).unwrap_err();
    let Error::Parse { span, snippet, .. } = err else {
        panic!("expected Parse error");
    };
    assert!(snippet.is_empty(), "snippet must be empty for non-UTF-8");
    assert_eq!(span, 0..0);
}

#[test]
fn json_parse_records_value_byte_range_for_int() {
    let bytes = b"{\"x\": 42}";
    let doc = Json.parse(bytes).expect("parse");
    let span = doc.spans().get("/x").expect("/x span");
    assert_eq!(&bytes[span.value_range.clone()], b"42");
    assert_eq!(span.context, SpanContext::BlockMapValue);
}

#[test]
fn json_parse_records_value_byte_range_for_string_including_quotes() {
    let bytes = b"{\"name\": \"dq\"}";
    let doc = Json.parse(bytes).expect("parse");
    let span = doc.spans().get("/name").expect("/name span");
    assert_eq!(&bytes[span.value_range.clone()], b"\"dq\"");
}

#[test]
fn parse_records_array_items_with_block_seq_context() {
    let bytes = b"{\"tags\": [\"rust\", \"cli\"]}";
    let doc = Json.parse(bytes).expect("parse");
    let span0 = doc.spans().get("/tags/0").expect("/tags/0");
    assert_eq!(&bytes[span0.value_range.clone()], b"\"rust\"");
    assert_eq!(span0.context, SpanContext::BlockSeqItem);
}

#[test]
fn parse_records_nested_object_pointers() {
    let bytes = b"{\"server\": {\"host\": \"localhost\", \"port\": 8080}}";
    let doc = Json.parse(bytes).expect("parse");
    let span_host = doc.spans().get("/server/host").expect("/server/host");
    assert_eq!(&bytes[span_host.value_range.clone()], b"\"localhost\"");
    let span_port = doc.spans().get("/server/port").expect("/server/port");
    assert_eq!(&bytes[span_port.value_range.clone()], b"8080");
}

#[test]
fn parse_jsonc_double_slash_returns_parse_error() {
    let bytes = b"{\n  // comment\n  \"a\": 1\n}";
    let err = Json.parse(bytes).expect_err("JSONC must error");
    match err {
        Error::Parse { message, .. } => assert!(
            message.contains("JSONC is not supported"),
            "diagnostic must mention JSONC; got: {message}",
        ),
        other => panic!("expected Parse error, got: {other:?}"),
    }
}

#[test]
fn parse_jsonc_block_comment_returns_parse_error() {
    let bytes = b"{ /* block */ \"a\": 1}";
    let err = Json.parse(bytes).expect_err("JSONC block must error");
    match err {
        Error::Parse { message, .. } => assert!(
            message.contains("JSONC is not supported"),
            "diagnostic must mention JSONC; got: {message}",
        ),
        other => panic!("expected Parse error, got: {other:?}"),
    }
}

#[test]
fn parse_with_spans_returns_write_aware_document() {
    let bytes = b"{\"a\": 1}";
    let doc = parse_json_with_spans(bytes).expect("parse_json_with_spans");
    assert_eq!(doc.original_bytes(), bytes);
    assert_eq!(doc.format(), FormatTag::Json);
    assert!(doc.spans().contains_key("/a"));
}

#[test]
fn json_scalar_renderer_renders_int() {
    let r = JsonScalarRenderer;
    let out = r.render_replacement(&Value::Int(42), SpanContext::BlockMapValue, b"1");
    assert_eq!(out, b"42");
}

#[test]
fn scalar_renderer_renders_string_with_quotes() {
    let r = JsonScalarRenderer;
    let out = r.render_replacement(
        &Value::String("hello".into()),
        SpanContext::BlockMapValue,
        b"\"old\"",
    );
    assert_eq!(out, b"\"hello\"");
}

#[test]
fn json_scalar_renderer_renders_bool() {
    let r = JsonScalarRenderer;
    let out = r.render_replacement(&Value::Bool(true), SpanContext::BlockMapValue, b"false");
    assert_eq!(out, b"true");
}

#[test]
fn scalar_renderer_renders_null() {
    let r = JsonScalarRenderer;
    let out = r.render_replacement(&Value::Null, SpanContext::BlockMapValue, b"42");
    assert_eq!(out, b"null");
}

#[test]
fn scalar_renderer_escapes_special_chars_in_string() {
    let r = JsonScalarRenderer;
    let out = r.render_replacement(
        &Value::String("a\"b\nc".into()),
        SpanContext::BlockMapValue,
        b"\"x\"",
    );
    assert_eq!(out, b"\"a\\\"b\\nc\"");
}

#[test]
fn json_scalar_renderer_renders_float_with_fractional() {
    let r = JsonScalarRenderer;
    let out = r.render_replacement(&Value::Float("1".to_owned()), SpanContext::BlockMapValue, b"0.5");
    assert_eq!(out, b"1.0");
}

#[test]
fn scalar_renderer_renders_big_int_literal() {
    let r = JsonScalarRenderer;
    let out = r.render_replacement(
        &Value::BigInt("4722366482869645213696".into()),
        SpanContext::BlockMapValue,
        b"0",
    );
    assert_eq!(out, b"4722366482869645213696");
}

#[test]
fn insertion_renderer_emits_indented_key_value_pair() {
    let r = JsonInsertionRenderer;
    let out = r.render_insertion(
        "name",
        &Value::String("dq".into()),
        0,
        SpanContext::BlockMapValue,
    );
    assert_eq!(out, b"\n  \"name\": \"dq\"");
}

#[test]
fn insertion_renderer_escapes_special_chars_in_keys() {
    let r = JsonInsertionRenderer;
    let out = r.render_insertion("with\"quote", &Value::Int(1), 0, SpanContext::BlockMapValue);
    assert_eq!(out, b"\n  \"with\\\"quote\": 1");
}

#[test]
fn json_document_set_at_replaces_int_byte_perfect() {
    let bytes = b"{\"a\": 1, \"b\": 2}";
    let mut doc = Json.parse(bytes).expect("parse");
    let pointer = Pointer::parse("/a").expect("pointer");
    doc.set_at(&pointer, Value::Int(99))
        .expect("set_at must succeed once JSON renderer is registered");
    assert_eq!(
        doc.original_bytes(),
        b"{\"a\": 99, \"b\": 2}",
        "set_at must splice exactly the value bytes",
    );
    match doc.value() {
        Value::Object(m) => assert_eq!(m.get("a"), Some(&Value::Int(99))),
        other => panic!("expected map, got: {other:?}"),
    }
}

#[test]
fn document_set_at_preserves_two_space_indent() {
    let bytes = b"{\n  \"x\": 1\n}";
    let mut doc = Json.parse(bytes).expect("parse");
    let pointer = Pointer::parse("/x").expect("pointer");
    doc.set_at(&pointer, Value::Int(42)).expect("set_at");
    assert_eq!(doc.original_bytes(), b"{\n  \"x\": 42\n}");
}

#[test]
fn document_set_at_preserves_four_space_indent() {
    let bytes = b"{\n    \"x\": 1\n}";
    let mut doc = Json.parse(bytes).expect("parse");
    let pointer = Pointer::parse("/x").expect("pointer");
    doc.set_at(&pointer, Value::Int(42)).expect("set_at");
    assert_eq!(doc.original_bytes(), b"{\n    \"x\": 42\n}");
}

#[test]
fn document_set_at_preserves_tab_indent() {
    let bytes = b"{\n\t\"x\": 1\n}";
    let mut doc = Json.parse(bytes).expect("parse");
    let pointer = Pointer::parse("/x").expect("pointer");
    doc.set_at(&pointer, Value::Int(42)).expect("set_at");
    assert_eq!(doc.original_bytes(), b"{\n\t\"x\": 42\n}");
}

#[test]
fn json_document_set_at_preserves_quote_style_for_strings() {
    let bytes = b"{\"title\": \"Hello\"}";
    let mut doc = Json.parse(bytes).expect("parse");
    let pointer = Pointer::parse("/title").expect("pointer");
    doc.set_at(&pointer, Value::String("Updated".into()))
        .expect("set_at");
    assert_eq!(doc.original_bytes(), b"{\"title\": \"Updated\"}");
}

#[test]
fn detect_indent_style_identifies_two_space() {
    assert_eq!(
        detect_indent_style(b"{\n  \"a\": 1\n}"),
        IndentStyle::TwoSpace
    );
}

#[test]
fn detect_indent_style_identifies_four_space() {
    assert_eq!(
        detect_indent_style(b"{\n    \"a\": 1\n}"),
        IndentStyle::FourSpace
    );
}

#[test]
fn detect_indent_style_identifies_tab() {
    assert_eq!(detect_indent_style(b"{\n\t\"a\": 1\n}"), IndentStyle::Tab);
}

#[test]
fn detect_indent_style_falls_back_to_two_space_when_no_indent() {
    assert_eq!(detect_indent_style(b"{\"a\": 1}"), IndentStyle::TwoSpace);
}

#[test]
fn parse_keeps_a_float_that_64_bits_cannot_hold() {
    let literal = "0.1234567890123456789012345";
    assert_eq!(parse(literal).value(), &Value::BigFloat(literal.to_owned()));
    for held in ["0.5", "-1.25", "1e2", "100.0", "1.50", "0.0", "-0.0", "2.5e-3", "123456.789"] {
        assert!(matches!(parse(held).value(), Value::Float(_)), "{held}");
    }
    for kept in ["1.00000000000000000001", "0.30000000000000000001", "-9007199254740993.5"] {
        assert_eq!(parse(kept).value(), &Value::BigFloat(kept.to_owned()), "{kept}");
    }
}
