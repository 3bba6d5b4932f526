use dq_core::{Document, Error, Format, FormatTag, Pointer, Value, ValueMap};
use dq_core::parsers::toml::Toml;
use dq_core::parsers::toml_render::{TomlInsertionRenderer, TomlScalarRenderer};
use dq_core::spans::SpanContext;
use dq_core::textual_edit::{InsertionRenderer, ScalarRenderer};

fn parse_doc(s: &str) -> Document {
    Toml.parse(s.as_bytes()).expect("parse")
}

#[test]
fn parse_simple_top_level_keys() {
    let doc = parse_doc("a = 1\nb = \"x\"\n");
    let Value::Object(m) = doc.value() else { panic!() };
    assert_eq!(m.get("a"), Some(&Value::Int(1)));
    assert_eq!(m.get("b"), Some(&Value::String("x".into())));
    assert!(doc.spans().contains_key("/a"));
    assert!(doc.spans().contains_key("/b"));
}

#[test]
fn toml_parse_records_value_byte_range_for_int() {
    let bytes = b"a = 1\n";
    let doc = Toml.parse(bytes).expect("parse");
    let span = doc.spans().get("/a").expect("/a span");
    let slice = &bytes[span.value_range.clone()];
    assert_eq!(
        slice, b"1",
        "value_range must cover exactly the literal `1`"
    );
    assert_eq!(span.context, SpanContext::BlockMapValue);
}

#[test]
fn toml_parse_records_value_byte_range_for_string_including_quotes() {
    let bytes = b"name = \"dq\"\n";
    let doc = Toml.parse(bytes).expect("parse");
    let span = doc.spans().get("/name").expect("/name span");
    let slice = &bytes[span.value_range.clone()];
    assert_eq!(
        slice, b"\"dq\"",
        "string value_range must include surrounding quotes",
    );
}

#[test]
fn parse_nested_tables_produce_nested_pointers() {
    let doc = parse_doc("[server]\nhost = \"localhost\"\n\n[server.tls]\ncert = \"x\"\n");
    let Value::Object(m) = doc.value() else { panic!() };
    let server = m.get("server").expect("server");
    let Value::Object(server_map) = server else {
        panic!("server is not a table")
    };
    assert!(server_map.contains_key("tls"));
    assert!(doc.spans().contains_key("/server/host"));
    assert!(doc.spans().contains_key("/server/tls/cert"));
}

#[test]
fn parse_arrays_of_tables_use_index_pointers() {
    let doc = parse_doc("[[products]]\nname = \"a\"\n\n[[products]]\nname = \"b\"\n");
    let Value::Object(m) = doc.value() else { panic!() };
    let Value::Array(items) = m.get("products").unwrap() else {
        panic!()
    };
    assert_eq!(items.len(), 2);
    assert!(doc.spans().contains_key("/products/0/name"));
    assert!(doc.spans().contains_key("/products/1/name"));
}

#[test]
fn parse_inline_array_elements_have_flow_context() {
    let doc = parse_doc("nums = [1, 2, 3]\n");
    assert!(doc.spans().contains_key("/nums/0"));
    let span = doc.spans().get("/nums/0").unwrap();
    assert_eq!(span.context, SpanContext::FlowSeqItem);
}

#[test]
fn parse_inline_table_values_have_flow_context() {
    let doc = parse_doc("point = { x = 1, y = 2 }\n");
    assert!(doc.spans().contains_key("/point/x"));
    let span = doc.spans().get("/point/x").unwrap();
    assert_eq!(span.context, SpanContext::FlowMapValue);
}

#[test]
fn parse_datetime_literals_become_strings_with_spans() {
    let bytes = b"when = 2024-01-02T03:04:05Z\n";
    let doc = Toml.parse(bytes).expect("parse");
    let Value::Object(m) = doc.value() else { panic!() };
    match m.get("when") {
        Some(Value::String(s)) => {
            assert!(s.contains("2024-01-02"), "got: {s:?}");
        }
        other => panic!("expected string, got: {other:?}"),
    }
    assert!(doc.spans().contains_key("/when"));
}

#[test]
fn parse_invalid_toml_returns_parse_error_with_position() {
    let err = Toml
        .parse(b"a = \n")
        .expect_err("incomplete value must error");
    match err {
        Error::Parse { line, .. } => {
            assert!(line >= 1, "Parse error must carry a line; got: {line}");
        }
        other => panic!("expected Parse, got: {other:?}"),
    }
}

#[test]
fn parse_invalid_utf8_returns_parse_error() {
    let bytes: &[u8] = &[0xFF, 0xFE, b'a', b' ', b'=', b' ', b'1'];
    let err = Toml.parse(bytes).expect_err("invalid UTF-8 must error");
    assert!(matches!(err, Error::Parse { .. }), "got: {err:?}");
}

#[test]
fn write_round_trip_preserves_source_bytes() {
    let bytes = b"# header\na = 1\nb = \"x\"\n";
    let doc = Toml.parse(bytes).expect("parse");
    let mut buf: Vec<u8> = Vec::new();
    Toml.write(&doc, &mut buf).expect("write");
    assert_eq!(buf, bytes);
}

#[test]
fn write_value_only_uses_serde_fallback() {
    let mut map = ValueMap::new();
    map.insert("a".into(), Value::Int(1));
    let doc = Document::single(Value::Object(map));
    let mut buf: Vec<u8> = Vec::new();
    Toml.write(&doc, &mut buf).expect("write");
    let again = Toml.parse(&buf).expect("re-parse");
    match again.value() {
        Value::Object(m) => assert_eq!(m.get("a"), Some(&Value::Int(1))),
        other => panic!("expected map, got: {other:?}"),
    }
}

#[test]
fn toml_write_rejects_multi_doc() {
    let multi = Document::multi(vec![Value::Int(1), Value::Int(2)]);
    let mut buf: Vec<u8> = Vec::new();
    let err = Toml.write(&multi, &mut buf).unwrap_err();
    assert_eq!(err.kind_name(), "format");
}

#[test]
fn toml_document_set_at_replaces_int_byte_perfect() {
    let bytes = b"a = 1\nb = 2\n";
    let mut doc = Toml.parse(bytes).expect("parse");
    let pointer = Pointer::parse("/a").expect("pointer");
    doc.set_at(&pointer, Value::Int(99))
        .expect("set_at must succeed once TOML renderer is registered");
    assert_eq!(
        doc.original_bytes(),
        b"a = 99\nb = 2\n",
        "set_at must splice exactly the value bytes; the rest is preserved",
    );
    match doc.value() {
        Value::Object(m) => assert_eq!(m.get("a"), Some(&Value::Int(99))),
        other => panic!("expected map, got: {other:?}"),
    }
}

#[test]
fn document_set_at_preserves_comments() {
    let bytes = b"# header\nport = 8080 # default\nname = \"dq\"\n";
    let mut doc = Toml.parse(bytes).expect("parse");
    let pointer = Pointer::parse("/port").expect("pointer");
    doc.set_at(&pointer, Value::Int(9090)).expect("set_at");
    assert_eq!(
        doc.original_bytes(),
        b"# header\nport = 9090 # default\nname = \"dq\"\n",
    );
}

#[test]
fn toml_document_set_at_preserves_quote_style_for_strings() {
    let bytes = b"title = \"Hello\"\n";
    let mut doc = Toml.parse(bytes).expect("parse");
    let pointer = Pointer::parse("/title").expect("pointer");
    doc.set_at(&pointer, Value::String("Updated".into()))
        .expect("set_at");
    assert_eq!(doc.original_bytes(), b"title = \"Updated\"\n");
}

#[test]
fn document_set_at_preserves_literal_quote_style() {
    let bytes = b"path = 'C:\\\\Users'\n";
    let mut doc = Toml.parse(bytes).expect("parse");
    let pointer = Pointer::parse("/path").expect("pointer");
    doc.set_at(&pointer, Value::String("D:\\Other".into()))
        .expect("set_at");
    assert_eq!(doc.original_bytes(), b"path = 'D:\\Other'\n");
}

#[test]
fn document_del_at_removes_full_line() {
    let bytes = b"a = 1\nb = 2\nc = 3\n";
    let mut doc = Toml.parse(bytes).expect("parse");
    let pointer = Pointer::parse("/b").expect("pointer");
    doc.del_at(&pointer).expect("del_at");
    assert_eq!(doc.original_bytes(), b"a = 1\nc = 3\n");
}

#[test]
fn toml_scalar_renderer_renders_int() {
    let r = TomlScalarRenderer;
    let out = r.render_replacement(&Value::Int(42), SpanContext::BlockMapValue, b"1");
    assert_eq!(out, b"42");
}

#[test]
fn toml_scalar_renderer_renders_bool() {
    let r = TomlScalarRenderer;
    let out = r.render_replacement(&Value::Bool(true), SpanContext::BlockMapValue, b"false");
    assert_eq!(out, b"true");
}

#[test]
fn scalar_renderer_renders_basic_string_keeping_double_quotes() {
    let r = TomlScalarRenderer;
    let out = r.render_replacement(
        &Value::String("hello".into()),
        SpanContext::BlockMapValue,
        b"\"old\"",
    );
    assert_eq!(out, b"\"hello\"");
}

#[test]
fn scalar_renderer_escapes_special_chars_in_basic_string() {
    let r = TomlScalarRenderer;
    let out = r.render_replacement(
        &Value::String("a\"b\nc".into()),
        SpanContext::BlockMapValue,
        b"\"x\"",
    );
    assert_eq!(out, b"\"a\\\"b\\nc\"");
}

#[test]
fn toml_scalar_renderer_renders_float_with_fractional() {
    let r = TomlScalarRenderer;
    let out = r.render_replacement(&Value::Float("1".to_owned()), SpanContext::BlockMapValue, b"0.5");
    assert_eq!(out, b"1.0");
}

#[test]
fn insertion_renderer_emits_simple_key_value_pair() {
    let r = TomlInsertionRenderer;
    let out = r.render_insertion(
        "name",
        &Value::String("dq".into()),
        0,
        SpanContext::BlockMapValue,
    );
    assert_eq!(out, b"name = \"dq\"\n");
}

#[test]
fn insertion_renderer_quotes_keys_with_special_chars() {
    let r = TomlInsertionRenderer;
    let out = r.render_insertion("with space", &Value::Int(1), 0, SpanContext::BlockMapValue);
    assert_eq!(out, b"\"with space\" = 1\n");
}

#[test]
fn write_refuses_a_text_with_too_many_quotes_in_a_row() {
    for quote in ["\"", "'"] {
        for (count, fits) in [(255, true), (256, false), (300, false)] {
            let mut map = ValueMap::new();
            map.insert("k".to_owned(), Value::String(quote.repeat(count)));
            let value = Value::Object(map);
            let doc = Document::value_only(value.clone(), FormatTag::Toml);
            let mut out: Vec<u8> = Vec::new();
            let outcome = Toml.write(&doc, &mut out);
            if fits {
                outcome.expect("write");
                assert_eq!(Toml.parse(&out).expect("parse").value(), &value);
            } else {
                match outcome {
                    Err(Error::Format { format, message }) => {
                        assert_eq!(format, "toml");
                        assert_eq!(message, "TOML writer cannot quote a text with 256 quotes in a row");
                    }
                    other => panic!("expected a format error, got {other:?}"),
                }
                assert!(out.is_empty());
            }
        }
    }
}

#[test]
fn write_takes_quotes_that_are_not_in_a_row_and_quotes_in_keys() {
    let mut map = ValueMap::new();
    map.insert("'".repeat(300), Value::String("'\"".repeat(300)));
    let value = Value::Object(map);
    let doc = Document::value_only(value.clone(), FormatTag::Toml);
    let mut out: Vec<u8> = Vec::new();
    Toml.write(&doc, &mut out).expect("write");
    assert_eq!(Toml.parse(&out).expect("parse").value(), &value);
}

#[test]
fn a_date_keeps_its_literal_text() {
    for literal in ["1979-05-27 07:32:00Z", "1979-05-27T07:32:00.500-08:00", "1979-05-27", "07:32:00"] {
        let doc = parse_doc(&format!("d = {literal}\ne = [{literal}]\n"));
        let Value::Object(m) = doc.value() else { panic!() };
        assert_eq!(m.get("d"), Some(&Value::String(literal.to_owned())));
        assert_eq!(m.get("e"), Some(&Value::Array(vec![Value::String(literal.to_owned())])));
    }
}

#[test]
fn a_literal_string_that_cannot_hold_the_text_becomes_a_basic_one() {
    let render = |s: &str| {
        let bytes = TomlScalarRenderer.render_replacement(
            &Value::String(s.to_owned()),
            SpanContext::BlockMapValue,
            b"'old'",
        );
        String::from_utf8(bytes).expect("UTF-8")
    };
    assert_eq!(render("a\tb \\ \"c\""), "'a\tb \\ \"c\"'");
    assert_eq!(render("a\rb"), "\"a\\rb\"");
    assert_eq!(render("a\u{1}b"), "\"a\\u0001b\"");
    assert_eq!(render("a\u{7f}b"), "\"a\\u007Fb\"");
    assert_eq!(render("it's"), "\"it's\"");
}
