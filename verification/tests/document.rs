use dq_core::{Document, Error, FormatTag, FrontmatterKind, PathErrorKind, Pointer, Value, ValueMap};
use dq_core::atomic_write::backup_path_for;
use dq_core::spans::{SpanContext, SpanMap, ValueSpan};

fn block_map_span(
    value_start: usize,
    value_end: usize,
    line_start: usize,
    line_end: usize,
) -> ValueSpan {
    ValueSpan {
        value_range: value_start..value_end,
        line_range: line_start..line_end,
        indent: 0,
        context: SpanContext::BlockMapValue,
    }
}

fn map_one(key: &str, value: Value) -> Value {
    let mut m = ValueMap::new();
    m.insert(key.to_owned(), value);
    Value::Object(m)
}

#[test]
fn type_name_covers_every_variant() {
    assert_eq!(Value::Null.type_label(), "null");
    assert_eq!(Value::Bool(true).type_label(), "bool");
    assert_eq!(Value::Int(0).type_label(), "int");
    assert_eq!(Value::BigInt("1".into()).type_label(), "int");
    assert_eq!(Value::Float("0".to_owned()).type_label(), "float");
    assert_eq!(Value::BigFloat("1.0".into()).type_label(), "float");
    assert_eq!(Value::String("x".into()).type_label(), "string");
    assert_eq!(Value::Array(vec![]).type_label(), "array");
    assert_eq!(Value::Object(ValueMap::new()).type_label(), "object");
}

#[test]
fn document_leaf_type_name() {
    assert_eq!(Document::single(Value::Null).leaf_type_name(), "null");
    assert_eq!(Document::multi(vec![]).leaf_type_name(), "array");
}

#[test]
fn from_conversions_produce_expected_variants() {
    assert!(matches!(Value::from(true), Value::Bool(true)));
    assert!(matches!(Value::from(7_i64), Value::Int(7)));
    assert!(matches!(Value::from("s"), Value::String(_)));
}

#[test]
fn value_only_constructor_has_empty_metadata() {
    let doc = Document::value_only(Value::Null, FormatTag::Yaml);
    assert!(doc.original_bytes().is_empty());
    assert!(doc.spans().is_empty());
    assert_eq!(doc.format(), FormatTag::Yaml);
    assert!(!doc.is_multi());
}

#[test]
fn original_bytes_returns_empty_for_value_only() {
    let doc = Document::value_only(Value::Bool(true), FormatTag::Json);
    assert!(
        doc.original_bytes().is_empty(),
        "value_only documents must report empty original_bytes; got {} bytes",
        doc.original_bytes().len(),
    );
}

#[test]
fn value_only_document_rejects_set_at() {
    let mut doc = Document::value_only(Value::Null, FormatTag::Yaml);
    let pointer = Pointer::parse("/a").expect("/a parses");
    let result = doc.set_at(&pointer, Value::Bool(true));
    match result {
        Err(Error::WriteUnavailable { reason }) => {
            assert!(
                reason.contains("read-only"),
                "WriteUnavailable reason must mention `read-only` so users can act on it; got: {reason}",
            );
        }
        other => panic!("expected WriteUnavailable, got: {other:?}"),
    }
}

#[test]
fn value_only_document_rejects_del_at() {
    let mut doc = Document::value_only(Value::Null, FormatTag::Yaml);
    let pointer = Pointer::parse("/a").expect("/a parses");
    let result = doc.del_at(&pointer);
    match result {
        Err(Error::WriteUnavailable { reason }) => {
            assert!(
                reason.contains("read-only"),
                "WriteUnavailable reason must mention `read-only`; got: {reason}",
            );
        }
        other => panic!("expected WriteUnavailable, got: {other:?}"),
    }
}

#[test]
fn set_at_in_span_replaces_value_bytes_with_yaml_renderer() {
    let mut spans = SpanMap::new();
    spans.insert("/a".into(), block_map_span(3, 4, 0, 5));
    let mut doc = Document::with_spans(
        map_one("a", Value::Int(3)),
        b"a: 3\n".to_vec(),
        spans,
        FormatTag::Yaml,
    );
    let pointer = Pointer::parse("/a").unwrap();
    doc.set_at(&pointer, Value::Int(5))
        .expect("set_at must succeed once YAML renderer is registered");
    assert_eq!(
        doc.original_bytes(),
        b"a: 5\n",
        "set_at must splice exactly the value range, leaving every other byte untouched",
    );
    match doc.value() {
        Value::Object(m) => assert_eq!(m.get("a"), Some(&Value::Int(5))),
        other => panic!("expected map, got: {other:?}"),
    }
    let span_a = doc.span_at(&pointer).expect("/a span still present");
    assert_eq!(
        span_a.value_range,
        3..4,
        "single-byte → single-byte replacement leaves the value_range identical",
    );
}

#[test]
fn set_at_missing_pointer_returns_path_missing_key() {
    let mut spans = SpanMap::new();
    spans.insert("/a".into(), block_map_span(3, 4, 0, 5));
    let mut doc = Document::with_spans(
        map_one("a", Value::Int(3)),
        b"a: 3\n".to_vec(),
        spans,
        FormatTag::Yaml,
    );
    let pointer = Pointer::parse("/x").unwrap();
    let result = doc.set_at(&pointer, Value::Int(7));
    match result {
        Err(Error::Path {
            pointer: ptr, kind, ..
        }) => {
            assert_eq!(ptr, "/x");
            assert_eq!(kind, PathErrorKind::MissingKey);
        }
        other => panic!("expected Path/MissingKey, got: {other:?}"),
    }
    assert_eq!(
        doc.original_bytes(),
        b"a: 3\n",
        "failed set_at must not mutate original_bytes",
    );
}

#[test]
fn set_at_in_span_renderer_missing_for_unregistered_format() {
    let mut spans = SpanMap::new();
    spans.insert("/a".into(), block_map_span(5, 6, 0, 7));
    let mut doc = Document::with_spans(
        map_one("a", Value::Int(3)),
        b"{\"a\":3}\n".to_vec(),
        spans,
        FormatTag::Jsonl,
    );
    let pointer = Pointer::parse("/a").unwrap();
    let result = doc.set_at(&pointer, Value::Int(5));
    match result {
        Err(Error::WriteUnavailable { reason }) => {
            assert!(
                reason.contains("renderer not registered"),
                "JSONL write must surface a renderer-missing diagnostic; got: {reason}",
            );
        }
        other => panic!("expected WriteUnavailable, got: {other:?}"),
    }
    assert_eq!(
        doc.original_bytes(),
        b"{\"a\":3}\n",
        "failed set_at must not mutate original_bytes",
    );
}

#[test]
fn set_at_in_span_replaces_value_bytes_with_json_renderer() {
    let mut spans = SpanMap::new();
    spans.insert("/a".into(), block_map_span(6, 7, 0, 8));
    let mut doc = Document::with_spans(
        map_one("a", Value::Int(3)),
        b"{\"a\": 3}".to_vec(),
        spans,
        FormatTag::Json,
    );
    let pointer = Pointer::parse("/a").unwrap();
    doc.set_at(&pointer, Value::Int(5))
        .expect("set_at must succeed once JSON renderer is registered");
    assert_eq!(
        doc.original_bytes(),
        b"{\"a\": 5}",
        "set_at must splice exactly the value range",
    );
    match doc.value() {
        Value::Object(m) => assert_eq!(m.get("a"), Some(&Value::Int(5))),
        other => panic!("expected map, got: {other:?}"),
    }
}

#[test]
fn set_at_in_span_replaces_value_bytes_with_toml_renderer() {
    let mut spans = SpanMap::new();
    spans.insert("/a".into(), block_map_span(4, 5, 0, 6));
    let mut doc = Document::with_spans(
        map_one("a", Value::Int(3)),
        b"a = 3\n".to_vec(),
        spans,
        FormatTag::Toml,
    );
    let pointer = Pointer::parse("/a").unwrap();
    doc.set_at(&pointer, Value::Int(5))
        .expect("set_at must succeed once TOML renderer is registered");
    assert_eq!(
        doc.original_bytes(),
        b"a = 5\n",
        "set_at must splice exactly the value range",
    );
    match doc.value() {
        Value::Object(m) => assert_eq!(m.get("a"), Some(&Value::Int(5))),
        other => panic!("expected map, got: {other:?}"),
    }
}

#[test]
fn del_at_removes_line_range() {
    let mut spans = SpanMap::new();
    spans.insert("/a".into(), block_map_span(3, 4, 0, 5));
    spans.insert("/b".into(), block_map_span(8, 9, 5, 10));
    spans.insert("/c".into(), block_map_span(13, 14, 10, 15));
    let mut value = ValueMap::new();
    value.insert("a".into(), Value::Int(1));
    value.insert("b".into(), Value::Int(2));
    value.insert("c".into(), Value::Int(3));
    let mut doc = Document::with_spans(
        Value::Object(value),
        b"a: 1\nb: 2\nc: 3\n".to_vec(),
        spans,
        FormatTag::Yaml,
    );
    let pointer = Pointer::parse("/b").unwrap();
    doc.del_at(&pointer).expect("del_at /b must succeed");
    assert_eq!(
        doc.original_bytes(),
        b"a: 1\nc: 3\n",
        "del_at must splice out the whole physical line including trailing newline",
    );
}

#[test]
fn del_at_recompute_shifts_subsequent_spans() {
    let mut spans = SpanMap::new();
    spans.insert("/a".into(), block_map_span(3, 4, 0, 5));
    spans.insert("/b".into(), block_map_span(8, 9, 5, 10));
    spans.insert("/c".into(), block_map_span(13, 14, 10, 15));
    let mut value = ValueMap::new();
    value.insert("a".into(), Value::Int(1));
    value.insert("b".into(), Value::Int(2));
    value.insert("c".into(), Value::Int(3));
    let mut doc = Document::with_spans(
        Value::Object(value),
        b"a: 1\nb: 2\nc: 3\n".to_vec(),
        spans,
        FormatTag::Yaml,
    );
    let pointer = Pointer::parse("/b").unwrap();
    doc.del_at(&pointer).expect("del_at /b must succeed");

    let span_a = doc
        .span_at(&Pointer::parse("/a").unwrap())
        .expect("/a span");
    assert_eq!(
        span_a.value_range,
        3..4,
        "spans to the left of the edit must not move",
    );
    assert_eq!(span_a.line_range, 0..5);

    assert!(
        doc.span_at(&Pointer::parse("/b").unwrap()).is_none(),
        "deleted pointer's span must be removed",
    );

    let span_c = doc
        .span_at(&Pointer::parse("/c").unwrap())
        .expect("/c span");
    assert_eq!(
        span_c.value_range,
        8..9,
        "spans to the right of the edit shift left by the deleted line length",
    );
    assert_eq!(span_c.line_range, 5..10);
}

#[test]
fn del_at_removes_subspans_of_deleted_pointer() {
    let mut spans = SpanMap::new();
    spans.insert("/a".into(), block_map_span(0, 0, 0, 17));
    spans.insert("/a/x".into(), block_map_span(8, 9, 3, 10));
    spans.insert("/a/y".into(), block_map_span(15, 16, 10, 17));
    let mut inner = ValueMap::new();
    inner.insert("x".into(), Value::Int(1));
    inner.insert("y".into(), Value::Int(2));
    let mut doc = Document::with_spans(
        map_one("a", Value::Object(inner)),
        b"a:\n  x: 1\n  y: 2\n".to_vec(),
        spans,
        FormatTag::Yaml,
    );
    let pointer = Pointer::parse("/a").unwrap();
    doc.del_at(&pointer).expect("del_at /a must succeed");

    for canonical in ["/a", "/a/x", "/a/y"] {
        let p = Pointer::parse(canonical).unwrap();
        assert!(
            doc.span_at(&p).is_none(),
            "span for {canonical} must be removed when its ancestor is deleted; spans = {:?}",
            doc.spans(),
        );
    }
}

#[test]
fn del_at_root_returns_type_mismatch() {
    let mut spans = SpanMap::new();
    spans.insert("/a".into(), block_map_span(3, 4, 0, 5));
    let mut doc = Document::with_spans(
        map_one("a", Value::Int(3)),
        b"a: 3\n".to_vec(),
        spans,
        FormatTag::Yaml,
    );
    let result = doc.del_at(&Pointer::default());
    match result {
        Err(Error::Path { kind, .. }) => match kind {
            PathErrorKind::TypeMismatch { expected, found } => {
                assert_eq!(found, "root", "root pointer must be flagged distinctly");
                assert_eq!(expected, "non-root pointer");
            }
            other => panic!("expected TypeMismatch, got: {other:?}"),
        },
        other => panic!("expected Path error, got: {other:?}"),
    }
}

#[test]
fn del_at_missing_pointer_returns_missing_key() {
    let mut spans = SpanMap::new();
    spans.insert("/a".into(), block_map_span(3, 4, 0, 5));
    let mut doc = Document::with_spans(
        map_one("a", Value::Int(3)),
        b"a: 3\n".to_vec(),
        spans,
        FormatTag::Yaml,
    );
    let pointer = Pointer::parse("/x").unwrap();
    let result = doc.del_at(&pointer);
    match result {
        Err(Error::Path { kind, pointer, .. }) => {
            assert_eq!(pointer, "/x");
            assert_eq!(kind, PathErrorKind::MissingKey);
        }
        other => panic!("expected Path/MissingKey, got: {other:?}"),
    }
}

#[test]
fn del_at_recompute_only_shifts_spans_after_edit_end() {
    let mut spans = SpanMap::new();
    spans.insert("/a".into(), block_map_span(0, 3, 0, 5));
    spans.insert("/b".into(), block_map_span(8, 9, 5, 10));
    spans.insert("/c".into(), block_map_span(20, 25, 10, 30));
    let mut value = ValueMap::new();
    value.insert("a".into(), Value::Int(1));
    value.insert("b".into(), Value::Int(2));
    value.insert("c".into(), Value::String("hello".into()));
    let mut doc = Document::with_spans(
        Value::Object(value),
        b"a: 123\nb: 2\n     hello                  \n".to_vec(),
        spans,
        FormatTag::Yaml,
    );
    let pointer = Pointer::parse("/b").unwrap();
    doc.del_at(&pointer).expect("del_at /b must succeed");

    let span_a = doc
        .span_at(&Pointer::parse("/a").unwrap())
        .expect("/a span");
    assert_eq!(
        span_a.value_range,
        0..3,
        "spans wholly before the edit must not move",
    );
    let span_c = doc
        .span_at(&Pointer::parse("/c").unwrap())
        .expect("/c span");
    assert_eq!(
        span_c.value_range,
        15..20,
        "spans after the edit shift by `-(old_len - new_len)` = -5",
    );
    assert_eq!(span_c.line_range, 5..25);
}

#[test]
fn span_at_returns_none_for_unknown_pointer() {
    let doc = Document::value_only(Value::Null, FormatTag::Yaml);
    let pointer = Pointer::parse("/x").unwrap();
    assert!(doc.span_at(&pointer).is_none());
}

#[test]
fn format_tag_from_name_round_trips() {
    assert_eq!(FormatTag::from_name("yaml"), Some(FormatTag::Yaml));
    assert_eq!(FormatTag::from_name("json"), Some(FormatTag::Json));
    assert_eq!(FormatTag::from_name("toml"), Some(FormatTag::Toml));
    assert_eq!(FormatTag::from_name("jsonl"), Some(FormatTag::Jsonl));
    assert_eq!(FormatTag::from_name("hcl"), Some(FormatTag::Hcl));
    assert_eq!(FormatTag::from_name("ini"), Some(FormatTag::Ini));
    assert_eq!(FormatTag::from_name("dotenv"), Some(FormatTag::DotEnv));
    assert_eq!(FormatTag::from_name("csv"), Some(FormatTag::Csv));
    assert_eq!(FormatTag::from_name("tsv"), Some(FormatTag::Tsv));
    assert_eq!(
        FormatTag::from_name("dockerfile"),
        Some(FormatTag::Dockerfile),
    );
    assert_eq!(
        FormatTag::from_name("ignore-list"),
        Some(FormatTag::IgnoreList),
    );
    assert_eq!(
        FormatTag::from_name("frontmatter"),
        Some(FormatTag::Frontmatter),
    );
    assert_eq!(FormatTag::from_name("markdown"), Some(FormatTag::Markdown),);
    assert_eq!(FormatTag::Markdown.name(), "markdown");
    assert_eq!(FormatTag::from_name("xml"), Some(FormatTag::Xml));
    assert_eq!(FormatTag::Xml.name(), "xml");
    assert_eq!(FormatTag::from_name("zzz"), None);
}

#[test]
fn frontmatter_constructor_carries_body_and_kind() {
    let doc = Document::frontmatter(Value::Null, b"# body".to_vec(), FrontmatterKind::Yaml);
    assert_eq!(doc.format(), FormatTag::Frontmatter);
    let payload = doc
        .frontmatter_payload()
        .expect("frontmatter payload must be present on frontmatter documents");
    assert_eq!(payload.kind, FrontmatterKind::Yaml);
    assert_eq!(payload.body, b"# body");
}

#[test]
fn value_only_has_no_frontmatter_payload() {
    let doc = Document::value_only(Value::Null, FormatTag::Yaml);
    assert!(doc.frontmatter_payload().is_none());
}

#[test]
fn backup_path_for_always_appends_bak() {
    assert_eq!(backup_path_for("foo.yaml"), "foo.yaml.bak");
    assert_eq!(backup_path_for("foo.bak"), "foo.bak.bak");
    assert_eq!(backup_path_for("foo"), "foo.bak");
    assert_eq!(backup_path_for("foo.tar.gz"), "foo.tar.gz.bak");
}
