use dq_core::{Document, FormatTag, Ir, OwnedIr, Pointer, Provenance, ProvenanceMap, SyntheticReason, Value, ValueMap};
use dq_core::spans::{SpanContext, SpanMap, ValueSpan};

fn assert_copy<T: Copy>(_: T) {}

fn sample_value() -> Value {
    Value::Bool(true)
}

fn sample_span() -> ValueSpan {
    ValueSpan {
        value_range: 0..4,
        line_range: 0..5,
        indent: 0,
        context: SpanContext::BlockMapValue,
    }
}

#[test]
fn ir_is_copy() {
    let value = sample_value();
    let provenance = ProvenanceMap::new();
    let ir = Ir::new(&value, &provenance, FormatTag::Yaml);
    assert_copy(ir);
    let _again = ir;
    let _and_again = ir;
}

#[test]
fn provenance_for_returns_entry() {
    let value = sample_value();
    let mut provenance = ProvenanceMap::new();
    let pointer = Pointer::parse("/name").expect("/name parses");
    provenance.insert(
        pointer.as_canonical(),
        Provenance::Original {
            pointer: pointer.clone(),
            span: Some(sample_span()),
            inline_offset: None,
        },
    );
    let ir = Ir::new(&value, &provenance, FormatTag::Yaml);
    match ir.provenance_for(&pointer) {
        Some(Provenance::Original { pointer: p, span, .. }) => {
            assert_eq!(p, &pointer);
            assert!(span.is_some());
        }
        other => panic!("expected Original with span, got: {other:?}"),
    }
}

#[test]
fn span_for_returns_some_for_original_with_span() {
    let value = sample_value();
    let mut provenance = ProvenanceMap::new();
    let pointer = Pointer::parse("/foo").expect("/foo parses");
    let span = sample_span();
    provenance.insert(
        pointer.as_canonical(),
        Provenance::Original {
            pointer: pointer.clone(),
            span: Some(span.clone()),
            inline_offset: None,
        },
    );
    let ir = Ir::new(&value, &provenance, FormatTag::Yaml);
    assert_eq!(ir.span_for(&pointer), Some(&span));
}

#[test]
fn span_for_returns_none_for_synthetic() {
    let value = sample_value();
    let mut provenance = ProvenanceMap::new();
    let pointer = Pointer::parse("/foo").expect("/foo parses");
    provenance.insert(
        pointer.as_canonical(),
        Provenance::Synthetic {
            reason: SyntheticReason::Computed,
        },
    );
    let ir = Ir::new(&value, &provenance, FormatTag::Yaml);
    assert_eq!(ir.span_for(&pointer), None);
}

#[test]
fn span_for_returns_none_for_original_without_span() {
    let value = sample_value();
    let mut provenance = ProvenanceMap::new();
    let pointer = Pointer::parse("/foo").expect("/foo parses");
    provenance.insert(
        pointer.as_canonical(),
        Provenance::Original {
            pointer: pointer.clone(),
            span: None,
            inline_offset: None,
        },
    );
    let ir = Ir::new(&value, &provenance, FormatTag::Hcl);
    assert_eq!(ir.span_for(&pointer), None);
}

#[test]
fn span_for_returns_none_for_unmapped_pointer() {
    let value = sample_value();
    let provenance = ProvenanceMap::new();
    let ir = Ir::new(&value, &provenance, FormatTag::Yaml);
    let pointer = Pointer::parse("/missing").expect("/missing parses");
    assert!(ir.span_for(&pointer).is_none());
    assert!(ir.provenance_for(&pointer).is_none());
}

#[test]
fn owned_ir_into_parts_round_trips() {
    let value = Value::Int(42);
    let mut provenance = ProvenanceMap::new();
    let pointer = Pointer::parse("/answer").expect("/answer parses");
    provenance.insert(
        pointer.as_canonical(),
        Provenance::Original {
            pointer,
            span: Some(sample_span()),
            inline_offset: None,
        },
    );
    let format = FormatTag::Json;
    let original = OwnedIr::new(value.clone(), provenance.clone(), format);
    let (v, p, f) = original.into_parts();
    assert_eq!(v, value);
    assert_eq!(p, provenance);
    assert_eq!(f, format);
    let again = OwnedIr::new(v, p, f);
    let triple: (Value, ProvenanceMap, FormatTag) = again.into_parts();
    assert_eq!(triple.0, value);
}

#[test]
fn owned_ir_to_borrowed_yields_same_data() {
    let value = Value::String("hello".into());
    let provenance = ProvenanceMap::new();
    let format = FormatTag::Yaml;
    let owned = OwnedIr::new(value.clone(), provenance, format);
    let borrowed = owned.to_borrowed();
    assert_eq!(borrowed.value(), &value);
    assert_eq!(borrowed.format(), format);
    assert!(borrowed.provenance().is_empty());
}

#[test]
fn synthetic_reason_variants_are_distinct() {
    assert_ne!(SyntheticReason::Constructed, SyntheticReason::Aggregated);
    assert_ne!(SyntheticReason::Aggregated, SyntheticReason::Computed);
    assert_ne!(SyntheticReason::Constructed, SyntheticReason::Computed);
}

#[test]
fn provenance_for_returns_synthetic_entry() {
    let value = sample_value();
    let mut provenance = ProvenanceMap::new();
    let pointer = Pointer::parse("/computed").expect("/computed parses");
    provenance.insert(
        pointer.as_canonical(),
        Provenance::Synthetic {
            reason: SyntheticReason::Aggregated,
        },
    );
    let ir = Ir::new(&value, &provenance, FormatTag::Yaml);
    match ir.provenance_for(&pointer) {
        Some(Provenance::Synthetic { reason }) => {
            assert_eq!(*reason, SyntheticReason::Aggregated);
        }
        other => panic!("expected Synthetic{{Aggregated}}, got: {other:?}"),
    }
}

#[test]
fn provenance_for_returns_none_for_unmapped() {
    let value = sample_value();
    let provenance = ProvenanceMap::new();
    let ir = Ir::new(&value, &provenance, FormatTag::Yaml);
    let pointer = Pointer::parse("/missing").expect("/missing parses");
    assert!(ir.provenance_for(&pointer).is_none());
}

#[test]
fn span_for_returns_none_for_every_synthetic_reason() {
    let value = sample_value();
    let pointer = Pointer::parse("/n").expect("/n parses");
    for reason in [
        SyntheticReason::Constructed,
        SyntheticReason::Aggregated,
        SyntheticReason::Computed,
    ] {
        let mut provenance = ProvenanceMap::new();
        provenance.insert(pointer.as_canonical(), Provenance::Synthetic { reason });
        let ir = Ir::new(&value, &provenance, FormatTag::Yaml);
        assert!(
            ir.span_for(&pointer).is_none(),
            "span_for must return None for Synthetic{{{reason:?}}}; \
             a span on a synthesized node has no source meaning",
        );
    }
}

#[test]
fn owned_ir_round_trips_with_each_synthetic_reason() {
    for reason in [
        SyntheticReason::Constructed,
        SyntheticReason::Aggregated,
        SyntheticReason::Computed,
    ] {
        let value = Value::Int(0);
        let mut provenance = ProvenanceMap::new();
        let pointer = Pointer::parse("/x").expect("/x parses");
        provenance.insert(pointer.as_canonical(), Provenance::Synthetic { reason });
        let format = FormatTag::Json;
        let original = OwnedIr::new(value.clone(), provenance.clone(), format);
        let (v, p, f) = original.into_parts();
        assert_eq!(v, value, "value must round-trip for reason {reason:?}");
        assert_eq!(
            p, provenance,
            "provenance must round-trip for reason {reason:?}"
        );
        assert_eq!(f, format, "format must round-trip for reason {reason:?}");
        let owned = OwnedIr::new(v, p, f);
        assert!(owned.to_borrowed().span_for(&pointer).is_none());
    }
}

#[test]
fn document_as_ir_two_calls_borrow_the_same_value_and_provenance() {

    let mut spans = SpanMap::new();
    spans.insert(
        "/a".into(),
        ValueSpan {
            value_range: 3..4,
            line_range: 0..5,
            indent: 0,
            context: SpanContext::BlockMapValue,
        },
    );
    let mut map = ValueMap::new();
    map.insert("a".to_owned(), Value::Int(1));
    let doc = Document::with_spans(Value::Object(map), b"a: 1\n".to_vec(), spans, FormatTag::Yaml);
    let first = doc.as_ir();
    let second = doc.as_ir();
    assert!(
        std::ptr::eq(first.value(), second.value()),
        "consecutive as_ir() calls must borrow the same `&Value` — \
         a regression that cloned the tree on every call would diverge here",
    );
    assert!(
        std::ptr::eq(first.provenance(), second.provenance()),
        "consecutive as_ir() calls must borrow the same `&ProvenanceMap` — \
         a regression that materialised a fresh map on every call would diverge here",
    );
    assert_eq!(first.format(), second.format());
}

#[test]
fn document_as_ir_reflects_set_at_mutation() {

    let mut spans = SpanMap::new();
    spans.insert(
        "/a".into(),
        ValueSpan {
            value_range: 3..4,
            line_range: 0..5,
            indent: 0,
            context: SpanContext::BlockMapValue,
        },
    );
    let mut map = ValueMap::new();
    map.insert("a".to_owned(), Value::Int(1));
    let mut doc =
        Document::with_spans(Value::Object(map), b"a: 1\n".to_vec(), spans, FormatTag::Yaml);
    let pointer = Pointer::parse("/a").expect("/a parses");

    let pre = doc.as_ir();
    match pre.value() {
        Value::Object(m) => assert_eq!(m.get("a"), Some(&Value::Int(1))),
        other => panic!("expected map, got: {other:?}"),
    }
    assert!(
        pre.span_for(&pointer).is_some(),
        "pre-mutation provenance must surface a span for /a",
    );

    doc.set_at(&pointer, Value::Int(5))
        .expect("set_at must succeed on write-aware YAML doc");

    let post = doc.as_ir();
    match post.value() {
        Value::Object(m) => assert_eq!(
            m.get("a"),
            Some(&Value::Int(5)),
            "post-mutation as_ir().value() must reflect set_at's write",
        ),
        other => panic!("expected map, got: {other:?}"),
    }
    let span = post
        .span_for(&pointer)
        .expect("post-mutation span lookup must still resolve /a");
    assert_eq!(span.value_range, 3..4);
    assert_eq!(
        doc.span_at(&pointer),
        post.span_for(&pointer),
        "Document::span_at and Ir::span_for must agree after a mutation",
    );
}

#[test]
fn line_col_for_returns_some_for_span_in_source_bytes() {

    let mut spans = SpanMap::new();
    spans.insert(
        "/a".into(),
        ValueSpan {
            value_range: 3..4,
            line_range: 0..5,
            indent: 0,
            context: SpanContext::BlockMapValue,
        },
    );
    let mut map = ValueMap::new();
    map.insert("a".to_owned(), Value::Int(1));
    let doc = Document::with_spans(Value::Object(map), b"a: 1\n".to_vec(), spans, FormatTag::Yaml);
    let pointer = Pointer::parse("/a").expect("/a parses");
    assert_eq!(
        doc.as_ir().line_col_for(&pointer),
        Some((1, 4)),
        "line_col_for must derive (1, 4) for byte offset 3 in `a: 1\\n`",
    );
}

#[test]
fn line_col_for_returns_none_without_source_bytes() {
    let value = sample_value();
    let mut provenance = ProvenanceMap::new();
    let pointer = Pointer::parse("/foo").expect("/foo parses");
    provenance.insert(
        pointer.as_canonical(),
        Provenance::Original {
            pointer: pointer.clone(),
            span: Some(sample_span()),
            inline_offset: None,
        },
    );
    let ir = Ir::new(&value, &provenance, FormatTag::Yaml);
    assert!(ir.bytes().is_empty(), "Ir::new must default bytes to &[]");
    assert!(
        ir.line_col_for(&pointer).is_none(),
        "line_col_for must return None when bytes is empty",
    );
}
