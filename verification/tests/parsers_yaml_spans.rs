use dq_core::{
    Document, Error, FormatTag, PathErrorKind, Pointer, Provenance, Value, ValueMap,
    parse_yaml_with_spans,
};
use dq_core::ir::InlineBaseline;
use dq_core::parsers::yaml_render::{ScalarStyle, YamlInsertionRenderer, YamlScalarRenderer, detect_scalar_style};
use dq_core::spans::{SpanContext, SpanMap};
use dq_core::parsers::yaml_spans::start_to_col;
use dq_core::textual_edit::{InsertionRenderer, ScalarRenderer};
use dq_core::parsers::yaml::parse_with_spans;

fn assert_span(spans: &SpanMap, pointer: &str, bytes: &[u8], expected_value: &[u8]) {
    let span = spans.get(pointer).unwrap_or_else(|| {
        panic!(
            "missing span for {pointer}; have keys: {:?}",
            spans.keys().collect::<Vec<_>>()
        )
    });
    let slice = &bytes[span.value_range.clone()];
    assert_eq!(slice, expected_value, "value bytes mismatch at {pointer}");
}

#[test]
fn parse_with_spans_records_block_map_value() {
    let bytes = b"a: 1\n";
    let (value, spans) = parse_with_spans(bytes).expect("parse_with_spans");
    match &value {
        Value::Object(map) => assert_eq!(map.get("a"), Some(&Value::Int(1))),
        other => panic!("expected map, got: {other:?}"),
    }
    assert_span(&spans, "/a", bytes, b"1");
    let span = spans.get("/a").expect("/a span");
    assert_eq!(
        span.context,
        SpanContext::BlockMapValue,
        "single-line block mapping value must be tagged BlockMapValue",
    );
    assert_eq!(
        span.line_range,
        0..5,
        "line_range covers `a: 1\\n` entirely"
    );
}

#[test]
fn parse_with_spans_quoted_string_includes_quotes() {
    let bytes = b"title: \"Hello, dq\"\n";
    let (_, spans) = parse_with_spans(bytes).expect("parse");
    assert_span(&spans, "/title", bytes, b"\"Hello, dq\"");
}

#[test]
fn parse_with_spans_block_sequence_items() {
    let bytes = b"tags:\n  - rust\n  - cli\n";
    let (_, spans) = parse_with_spans(bytes).expect("parse");
    assert_span(&spans, "/tags/0", bytes, b"rust");
    assert_span(&spans, "/tags/1", bytes, b"cli");
    assert_eq!(
        spans.get("/tags/0").unwrap().context,
        SpanContext::BlockSeqItem
    );
    assert_eq!(
        spans.get("/tags/1").unwrap().context,
        SpanContext::BlockSeqItem
    );
}

#[test]
fn parse_with_spans_flow_mapping_uses_flow_context() {
    let bytes = b"data: {a: 1, b: 2}\n";
    let (_, spans) = parse_with_spans(bytes).expect("parse");
    assert_span(&spans, "/data/a", bytes, b"1");
    assert_span(&spans, "/data/b", bytes, b"2");
    assert_eq!(
        spans.get("/data/a").unwrap().context,
        SpanContext::FlowMapValue
    );
}

#[test]
fn parse_with_spans_flow_sequence_uses_flow_context() {
    let bytes = b"items: [1, 2, 3]\n";
    let (_, spans) = parse_with_spans(bytes).expect("parse");
    assert_span(&spans, "/items/0", bytes, b"1");
    assert_span(&spans, "/items/1", bytes, b"2");
    assert_eq!(
        spans.get("/items/0").unwrap().context,
        SpanContext::FlowSeqItem
    );
}

#[test]
fn parse_with_spans_multi_doc_namespaces_pointers() {
    let bytes = b"---\nname: a\n---\nname: b\n";
    let (_, spans) = parse_with_spans(bytes).expect("parse");
    assert!(
        spans.contains_key("/0/name"),
        "missing /0/name; have: {:?}",
        spans.keys().collect::<Vec<_>>()
    );
    assert!(
        spans.contains_key("/1/name"),
        "missing /1/name; have: {:?}",
        spans.keys().collect::<Vec<_>>()
    );
}

#[test]
fn parse_with_spans_invalid_utf8_returns_parse_error() {
    let bytes: &[u8] = &[0xFF, 0xFE, b'a', b':', b' ', b'1'];
    let err = parse_with_spans(bytes).expect_err("invalid UTF-8 must error");
    assert!(matches!(err, Error::Parse { .. }), "got: {err:?}");
}

#[test]
fn parse_with_spans_scan_error_carries_position() {
    let bytes = b"key: [a, b\n";
    let err = parse_with_spans(bytes).expect_err("unbalanced flow must error");
    match err {
        Error::Parse { line, .. } => {
            assert!(
                line >= 1,
                "Parse error must carry a non-zero line; got line={line}"
            );
        }
        other => panic!("expected Parse, got: {other:?}"),
    }
}

#[test]
fn parse_yaml_with_spans_returns_write_aware_document() {
    let bytes = b"a: 1\n";
    let doc = parse_yaml_with_spans(bytes).expect("parse_yaml_with_spans");
    assert_eq!(doc.original_bytes(), bytes);
    assert_eq!(doc.format(), FormatTag::Yaml);
    assert!(doc.spans().contains_key("/a"));
}

#[test]
fn detect_scalar_style_classifies_each_form() {
    assert_eq!(detect_scalar_style(b"plain"), ScalarStyle::Plain);
    assert_eq!(
        detect_scalar_style(b"\"quoted\""),
        ScalarStyle::DoubleQuoted
    );
    assert_eq!(detect_scalar_style(b"'quoted'"), ScalarStyle::SingleQuoted);
    assert_eq!(detect_scalar_style(b"|\n  text"), ScalarStyle::Literal);
    assert_eq!(detect_scalar_style(b"> folded"), ScalarStyle::Folded);
}

#[test]
fn renderer_replaces_int_with_int() {
    let r = YamlScalarRenderer;
    let out = r.render_replacement(&Value::Int(5), SpanContext::BlockMapValue, b"3");
    assert_eq!(out, b"5");
}

#[test]
fn renderer_replaces_bool_plain() {
    let r = YamlScalarRenderer;
    let out = r.render_replacement(&Value::Bool(true), SpanContext::BlockMapValue, b"false");
    assert_eq!(out, b"true");
}

#[test]
fn renderer_preserves_double_quoted_string_style() {
    let r = YamlScalarRenderer;
    let out = r.render_replacement(
        &Value::String("Updated".into()),
        SpanContext::BlockMapValue,
        b"\"Hello\"",
    );
    assert_eq!(out, b"\"Updated\"");
}

#[test]
fn renderer_preserves_single_quoted_string_style() {
    let r = YamlScalarRenderer;
    let out = r.render_replacement(
        &Value::String("Updated".into()),
        SpanContext::BlockMapValue,
        b"'Hello'",
    );
    assert_eq!(out, b"'Updated'");
}

#[test]
fn renderer_escapes_quote_in_double_quoted() {
    let r = YamlScalarRenderer;
    let out = r.render_replacement(
        &Value::String("a\"b".into()),
        SpanContext::BlockMapValue,
        b"\"x\"",
    );
    assert_eq!(out, b"\"a\\\"b\"");
}

#[test]
fn renderer_doubles_quote_in_single_quoted() {
    let r = YamlScalarRenderer;
    let out = r.render_replacement(
        &Value::String("it's".into()),
        SpanContext::BlockMapValue,
        b"'x'",
    );
    assert_eq!(out, b"'it''s'");
}

#[test]
fn renderer_upgrades_bare_to_quoted_for_unsafe_chars() {
    let r = YamlScalarRenderer;
    let out = r.render_replacement(
        &Value::String("a: b".into()),
        SpanContext::BlockMapValue,
        b"plain",
    );
    assert_eq!(out, b"\"a: b\"");
}

#[test]
fn renderer_preserves_bare_for_safe_strings() {
    let r = YamlScalarRenderer;
    let out = r.render_replacement(
        &Value::String("Hello".into()),
        SpanContext::BlockMapValue,
        b"World",
    );
    assert_eq!(out, b"Hello");
}

#[test]
fn renderer_quotes_yaml_keyword_strings() {
    let r = YamlScalarRenderer;
    let out = r.render_replacement(
        &Value::String("true".into()),
        SpanContext::BlockMapValue,
        b"x",
    );
    assert_eq!(out, b"\"true\"");
}

#[test]
fn renderer_renders_null() {
    let r = YamlScalarRenderer;
    let out = r.render_replacement(&Value::Null, SpanContext::BlockMapValue, b"x");
    assert_eq!(out, b"null");
}

#[test]
fn renderer_renders_float_with_fractional() {
    let r = YamlScalarRenderer;
    let out = r.render_replacement(&Value::Float("1".to_owned()), SpanContext::BlockMapValue, b"0.5");
    assert_eq!(out, b"1.0");
}

#[test]
fn renderer_downgrades_literal_block_to_double_quoted() {
    let r = YamlScalarRenderer;
    let out = r.render_replacement(
        &Value::String("new content".into()),
        SpanContext::BlockMapValue,
        b"|\n  old\n",
    );
    assert_eq!(out, b"\"new content\"");
}

#[test]
fn renderer_quotes_string_with_comma_in_flow_context() {
    let r = YamlScalarRenderer;
    let out = r.render_replacement(
        &Value::String("a,b".into()),
        SpanContext::FlowSeqItem,
        b"plain",
    );
    assert_eq!(out, b"\"a,b\"");
}

#[test]
fn insertion_renderer_produces_block_scalar_pair() {
    let r = YamlInsertionRenderer;
    let out = r.render_insertion(
        "name",
        &Value::String("dq".into()),
        3, // parent's children indent at column 3 (1-indexed) → 2 spaces
        SpanContext::BlockMapValue,
    );
    assert_eq!(out, b"\n  name: dq\n");
}

#[test]
fn insertion_renderer_renders_nested_map() {
    let r = YamlInsertionRenderer;
    let mut inner = ValueMap::new();
    inner.insert("type".into(), Value::String("RollingUpdate".into()));
    let out = r.render_insertion(
        "strategy",
        &Value::Object(inner),
        3,
        SpanContext::BlockMapValue,
    );
    assert_eq!(out, b"\n  strategy:\n    type: RollingUpdate\n");
}

#[test]
fn insertion_renderer_renders_array() {
    let r = YamlInsertionRenderer;
    let out = r.render_insertion(
        "tags",
        &Value::Array(vec![
            Value::String("rust".into()),
            Value::String("cli".into()),
        ]),
        3,
        SpanContext::BlockMapValue,
    );
    assert_eq!(out, b"\n  tags:\n    - rust\n    - cli\n");
}

#[test]
fn insertion_renderer_renders_empty_array_inline() {
    let r = YamlInsertionRenderer;
    let out = r.render_insertion(
        "tags",
        &Value::Array(Vec::new()),
        3,
        SpanContext::BlockMapValue,
    );
    assert_eq!(out, b"\n  tags: []\n");
}

#[test]
fn document_set_at_byte_perfect_replacement() {
    let bytes = b"a: 3\n";
    let mut doc = parse_yaml_with_spans(bytes).expect("parse");
    let pointer = Pointer::parse("/a").expect("pointer");
    doc.set_at(&pointer, Value::Int(5)).expect("set_at");
    assert_eq!(
        doc.original_bytes(),
        b"a: 5\n",
        "set_at must replace exactly the value bytes",
    );
    match doc.value() {
        Value::Object(m) => assert_eq!(m.get("a"), Some(&Value::Int(5))),
        other => panic!("expected map, got: {other:?}"),
    }
}

#[test]
fn document_set_at_preserves_comments_and_other_lines() {
    let bytes = b"# header\nport: 8080 # default\nname: dq\n";
    let mut doc = parse_yaml_with_spans(bytes).expect("parse");
    let pointer = Pointer::parse("/port").expect("pointer");
    doc.set_at(&pointer, Value::Int(9090)).expect("set_at");
    assert_eq!(
        doc.original_bytes(),
        b"# header\nport: 9090 # default\nname: dq\n",
        "set_at must only touch the value bytes; comments, whitespace, \
         and other lines must remain byte-identical",
    );
}

#[test]
fn document_set_at_preserves_quote_style() {
    let bytes = b"title: \"Hello\"\n";
    let mut doc = parse_yaml_with_spans(bytes).expect("parse");
    let pointer = Pointer::parse("/title").expect("pointer");
    doc.set_at(&pointer, Value::String("Updated".into()))
        .expect("set_at");
    assert_eq!(doc.original_bytes(), b"title: \"Updated\"\n");
}

fn inline_offset_for(doc: &Document, pointer_str: &str) -> Option<InlineBaseline> {
    let pointer = Pointer::parse(pointer_str).expect("pointer parses");
    match doc.as_ir().provenance_for(&pointer) {
        Some(Provenance::Original { inline_offset, .. }) => *inline_offset,
        other => panic!("expected Original for `{pointer_str}`, got: {other:?}"),
    }
}

#[test]
fn yaml_literal_block_scalar_carries_inline_offset() {
    let bytes = b"script: |\n  echo 1\n  echo 2\n";
    let doc = parse_yaml_with_spans(bytes).expect("parse");
    assert_eq!(
        inline_offset_for(&doc, "/script"),
        Some(InlineBaseline {
            byte_start: 0,
            line: 1,
            col: 1,
        }),
        "literal block scalar (`|`) MUST carry inline_offset = Some(0,1,1)",
    );
}

#[test]
fn yaml_folded_block_scalar_carries_inline_offset() {
    let bytes = b"description: >\n  multi-line\n  folded\n";
    let doc = parse_yaml_with_spans(bytes).expect("parse");
    assert_eq!(
        inline_offset_for(&doc, "/description"),
        Some(InlineBaseline {
            byte_start: 0,
            line: 1,
            col: 1,
        }),
        "folded block scalar (`>`) MUST carry inline_offset = Some(0,1,1)",
    );
}

#[test]
fn yaml_strip_chomping_block_scalar_carries_inline_offset() {
    for bytes in [
        &b"script: |-\n  one\n  two\n"[..],
        &b"script: >-\n  one\n  two\n"[..],
    ] {
        let doc = parse_yaml_with_spans(bytes).expect("parse");
        assert_eq!(
            inline_offset_for(&doc, "/script"),
            Some(InlineBaseline {
                byte_start: 0,
                line: 1,
                col: 1,
            }),
            "strip-chomping block scalar variant MUST carry inline_offset = Some(0,1,1) \
             for input: {:?}",
            std::str::from_utf8(bytes).unwrap_or("<non-utf8>"),
        );
    }
}

#[test]
fn yaml_plain_scalar_carries_no_inline_offset() {
    let bytes = b"name: foo\n";
    let doc = parse_yaml_with_spans(bytes).expect("parse");
    assert_eq!(
        inline_offset_for(&doc, "/name"),
        None,
        "plain scalar MUST NOT carry an inline-offset baseline",
    );
}

#[test]
fn yaml_double_quoted_scalar_carries_no_inline_offset() {
    let bytes = b"title: \"Hello\"\n";
    let doc = parse_yaml_with_spans(bytes).expect("parse");
    assert_eq!(
        inline_offset_for(&doc, "/title"),
        None,
        "double-quoted scalar MUST NOT carry an inline-offset baseline",
    );
}

#[test]
fn yaml_single_quoted_scalar_carries_no_inline_offset() {
    let bytes = b"name: 'foo'\n";
    let doc = parse_yaml_with_spans(bytes).expect("parse");
    assert_eq!(
        inline_offset_for(&doc, "/name"),
        None,
        "single-quoted scalar MUST NOT carry an inline-offset baseline",
    );
}

#[test]
fn yaml_inline_offset_lookup_via_ir_helper_matches_provenance() {
    let bytes = b"script: |\n  echo 1\n";
    let doc = parse_yaml_with_spans(bytes).expect("parse");
    let pointer = Pointer::parse("/script").expect("pointer");
    let helper = doc.as_ir().inline_offset_for(&pointer);
    let expected = InlineBaseline {
        byte_start: 0,
        line: 1,
        col: 1,
    };
    assert_eq!(helper, Some(&expected));
}

#[test]
fn yaml_block_scalar_inline_offset_in_nested_path() {
    let bytes = b"jobs:\n  build:\n    script: |\n      cargo test\n";
    let doc = parse_yaml_with_spans(bytes).expect("parse");
    assert_eq!(
        inline_offset_for(&doc, "/jobs/build/script"),
        Some(InlineBaseline {
            byte_start: 0,
            line: 1,
            col: 1,
        }),
        "block scalar inside nested mapping MUST still carry inline_offset",
    );
}

#[test]
fn columns_count_characters() {
    let bytes = "é: {}".as_bytes();
    assert_eq!(start_to_col(bytes, 4), 4);
    assert_eq!(start_to_col(b"e: {}", 3), 4);
    assert_eq!(start_to_col("a: 1\n漢字: {}".as_bytes(), 5 + 8), 5);
    assert_eq!(start_to_col(b"", 0), 1);
}

#[test]
fn plain_scalars_that_cannot_stay_plain_are_quoted() {
    let render = |s: &str| {
        let bytes = YamlScalarRenderer.render_replacement(
            &Value::String(s.to_owned()),
            SpanContext::BlockMapValue,
            b"old",
        );
        String::from_utf8(bytes).expect("UTF-8")
    };
    assert_eq!(render("a:b"), "a:b");
    assert_eq!(render("abc:"), "\"abc:\"");
    assert_eq!(render("a\u{7f}b"), "\"a\\x7fb\"");
    assert_eq!(render("a\u{85}b"), "\"a\\x85b\"");
    assert_eq!(render("a\u{1}b"), "\"a\\x01b\"");
    for text in ["abc:", "a\u{7f}b", "a\u{85}b", "a\u{1}b\u{9f}"] {
        let mut doc = parse_yaml_with_spans(b"k: old\n").expect("parse");
        doc.set_at(&Pointer::parse("/k").expect("pointer"), Value::String(text.to_owned())).expect("set");
        let (value, _) = parse_with_spans(doc.original_bytes()).expect("parse again");
        assert_eq!(&value, doc.value());
    }
}

fn assert_missing(doc: &mut Document, pointer: &str) {
    let before = doc.original_bytes().to_vec();
    match doc.set_at(&Pointer::parse(pointer).expect("pointer"), Value::Int(5)) {
        Err(Error::Path { kind, .. }) => assert_eq!(kind, PathErrorKind::MissingKey),
        other => panic!("expected Path/MissingKey at {pointer}, got: {other:?}"),
    }
    assert_eq!(doc.original_bytes(), &before[..]);
}

#[test]
fn an_alias_is_not_editable_and_what_follows_keeps_its_span() {
    let bytes = b"base: &x 1\na: *x\nb: 2\nc: 3\n";
    let (_, spans) = parse_with_spans(bytes).expect("parse");
    assert!(spans.get("/a").is_none());
    assert_span(&spans, "/base", bytes, b"1");
    assert_span(&spans, "/b", bytes, b"2");
    assert_span(&spans, "/c", bytes, b"3");
    assert_eq!(spans.len(), 3);
    let mut doc = parse_yaml_with_spans(bytes).expect("parse");
    assert_missing(&mut doc, "/a");
    doc.set_at(&Pointer::parse("/b").expect("pointer"), Value::Int(7)).expect("set");
    assert_eq!(doc.original_bytes(), b"base: &x 1\na: *x\nb: 7\nc: 3\n");
}

#[test]
fn an_alias_in_a_sequence_takes_its_position() {
    let bytes = b"top:\n  list:\n    - &x 1\n    - *x\n    - 3\n  tail: 4\n";
    let (_, spans) = parse_with_spans(bytes).expect("parse");
    assert_span(&spans, "/top/list/0", bytes, b"1");
    assert!(spans.get("/top/list/1").is_none());
    assert_span(&spans, "/top/list/2", bytes, b"3");
    assert_span(&spans, "/top/tail", bytes, b"4");
    assert_eq!(spans.len(), 3);
    let mut doc = parse_yaml_with_spans(bytes).expect("parse");
    assert_missing(&mut doc, "/top/list/1");
}

#[test]
fn what_stands_in_or_under_a_key_that_is_no_scalar_has_no_span() {
    let bytes = b"k: &x a\nm:\n  *x : 2\n  c: 3\n  ? [p, {q: r}]\n  : {s: 5}\n  d: 6\nz: 4\n";
    let (value, spans) = parse_with_spans(bytes).expect("parse");
    assert_span(&spans, "/k", bytes, b"a");
    assert_span(&spans, "/m/c", bytes, b"3");
    assert_span(&spans, "/m/d", bytes, b"6");
    assert_span(&spans, "/z", bytes, b"4");
    assert_eq!(spans.len(), 4);
    let Value::Object(map) = &value else { panic!() };
    let Some(Value::Object(inner)) = map.get("m") else { panic!() };
    assert_eq!(inner.get("a"), Some(&Value::Int(2)));
    let mut doc = parse_yaml_with_spans(bytes).expect("parse");
    assert_missing(&mut doc, "/m/a");
}

#[test]
fn every_path_of_a_stream_has_the_span_of_its_own_node() {
    let bytes = b"a: {b: [1, 2], c: {}}\n---\n- x\n- [y]\n- []\n";
    let (_, spans) = parse_with_spans(bytes).expect("parse");
    let expected: [(&str, &[u8]); 6] = [
        ("/0/a/b/0", b"1"),
        ("/0/a/b/1", b"2"),
        ("/0/a/c", b"{}"),
        ("/1/0", b"x"),
        ("/1/1/0", b"y"),
        ("/1/2", b"[]"),
    ];
    for (pointer, text) in expected {
        assert_span(&spans, pointer, bytes, text);
    }
    assert_eq!(spans.len(), expected.len());
}

fn set(source: &str, pointer: &str, value: Value) -> String {
    let mut doc = parse_yaml_with_spans(source.as_bytes()).expect("parse");
    doc.set_at(&Pointer::parse(pointer).expect("pointer"), value).expect("set");
    let (again, _) = parse_with_spans(doc.original_bytes()).expect("parse again");
    assert_eq!(&again, doc.value());
    String::from_utf8(doc.original_bytes().to_vec()).expect("UTF-8")
}

fn del(source: &str, pointer: &str) -> String {
    let mut doc = parse_yaml_with_spans(source.as_bytes()).expect("parse");
    doc.del_at(&Pointer::parse(pointer).expect("pointer")).expect("del");
    let (again, _) = parse_with_spans(doc.original_bytes()).expect("parse again");
    assert_eq!(&again, doc.value());
    String::from_utf8(doc.original_bytes().to_vec()).expect("UTF-8")
}

fn text(s: &str) -> Value {
    Value::String(s.to_owned())
}

#[test]
fn a_block_scalar_is_replaced_from_its_indicator_on() {
    assert_eq!(set("k: |\n  old\nn: 1\n", "/k", text("new")), "k: \"new\"\nn: 1\n");
    assert_eq!(
        set("a:\n  k: >-  # c\n\n    old\n    text\n\n  n: 1\n", "/a/k", text("new")),
        "a:\n  k: \"new\"\n\n  n: 1\n"
    );
    assert_eq!(set("- |2+\n    old\n- b\n", "/0", Value::Int(5)), "- 5\n- b\n");
    assert_eq!(set("k: |\n  | old", "/k", text("new")), "k: \"new\"");
    assert_eq!(set("k: |\nn: 1\n", "/k", text("new")), "k: \"new\"\nn: 1\n");
    assert_eq!(set("n: 1\nk: |+\n", "/k", text("new")), "n: 1\nk: \"new\"\n");
}

#[test]
fn a_block_scalar_is_deleted_with_all_its_lines_and_no_other() {
    assert_eq!(del("k: |\n  old\n  text\nn: 1\n", "/k"), "n: 1\n");
    assert_eq!(del("m: 0\nk: >\n  old\nn: 1\n", "/k"), "m: 0\nn: 1\n");
    assert_eq!(del("- |\n  t\n- b\n", "/0"), "- b\n");
}

#[test]
fn what_follows_a_quoted_scalar_in_its_line_stays() {
    assert_eq!(set("a: 'x' # note\nb: 1\n", "/a", text("y")), "a: 'y' # note\nb: 1\n");
    assert_eq!(set("a: \"x\\\" z\" # \"\n", "/a", text("y")), "a: \"y\" # \"\n");
    assert_eq!(set("a: 'it''s' # '\n", "/a", text("y")), "a: 'y' # '\n");
    assert_eq!(set("[\"x\" , 'y' ]\n", "/0", text("z")), "[\"z\" , 'y' ]\n");
}

#[test]
fn an_empty_collection_ends_at_its_bracket() {
    let bytes = b"a: {} # note\nb: [ ]  \nc: {d: {}  , e: [] }\n";
    let (_, spans) = parse_with_spans(bytes).expect("parse");
    assert_span(&spans, "/a", bytes, b"{}");
    assert_span(&spans, "/b", bytes, b"[ ]");
    assert_span(&spans, "/c/d", bytes, b"{}");
    assert_span(&spans, "/c/e", bytes, b"[]");
}

#[test]
fn a_value_that_is_left_out_is_written_behind_its_key() {
    assert_eq!(set("a:\nb: 1\n", "/a", Value::Int(5)), "a: 5\nb: 1\n");
    assert_eq!(set("a: # note\nb: 1\n", "/a", text("x")), "a: x # note\nb: 1\n");
    assert_eq!(set("{a: , b: 1}\n", "/a", Value::Int(5)), "{a: 5 , b: 1}\n");
    assert_eq!(set("-\n- b\n", "/0", Value::Int(5)), "- 5\n- b\n");
    assert_eq!(set("- \n- b\n", "/0", Value::Int(5)), "- 5 \n- b\n");
    assert_eq!(del("a:\nb: 1\n", "/a"), "b: 1\n");
    let mut doc = parse_yaml_with_spans(b"a:\nb: 1\n").expect("parse");
    let pointer = Pointer::parse("/a").expect("pointer");
    doc.set_at(&pointer, Value::Int(5)).expect("set");
    doc.set_at(&pointer, Value::Int(77)).expect("set again");
    assert_eq!(doc.original_bytes(), b"a: 77\nb: 1\n");
    let mut doc = parse_yaml_with_spans(b"a: !!str\nb: {c, d: 1}\n").expect("parse");
    assert_missing(&mut doc, "/a");
    assert_missing(&mut doc, "/b/c");
}

#[test]
fn a_null_that_is_written_is_replaced_where_it_stands() {
    assert_eq!(set("a: ~\nb: 1\n", "/a", Value::Int(5)), "a: 5\nb: 1\n");
    assert_eq!(set("a: ''\nb: 1\n", "/a", text("y")), "a: 'y'\nb: 1\n");
    assert_eq!(set("a: \"~\" # n\nb: 1\n", "/a", text("y")), "a: \"y\" # n\nb: 1\n");
}
