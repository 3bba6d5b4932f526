use dq_core::{Document, Error, Format, FormatTag, PathErrorKind, Pointer, Value, ValueMap};
use dq_core::edit_ops::{EditOp, EditScript};
use dq_core::parsers::json::Json;
use dq_core::spans::{SpanContext, SpanMap, ValueSpan};

fn block_map_span(
    value_start: usize,
    value_end: usize,
    line_start: usize,
    line_end: usize,
) -> ValueSpan {
    ValueSpan {
        value_range: value_start..value_end,
        line_range: line_start..line_end,
        indent: 0,
        context: SpanContext::BlockMapValue,
    }
}

fn map_one(key: &str, value: Value) -> Value {
    let mut m = ValueMap::new();
    m.insert(key.to_owned(), value);
    Value::Object(m)
}

fn yaml_doc_one(key: &str, n: i64) -> Document {
    let bytes = format!("{key}: {n}\n").into_bytes();
    let value_start = key.len() + 2;
    let value_end = bytes.len() - 1;
    let mut spans = SpanMap::new();
    spans.insert(
        format!("/{key}"),
        block_map_span(value_start, value_end, 0, bytes.len()),
    );
    Document::with_spans(map_one(key, Value::Int(n)), bytes, spans, FormatTag::Yaml)
}

fn yaml_doc_two(ka: &str, na: i64, kb: &str, nb: i64) -> Document {
    assert!(
        (0..=9).contains(&na) && (0..=9).contains(&nb),
        "yaml_doc_two only supports single-digit values: got na={na}, nb={nb}",
    );
    let line_a = format!("{ka}: {na}\n");
    let line_b = format!("{kb}: {nb}\n");
    let bytes = format!("{line_a}{line_b}").into_bytes();
    let a_value_start = ka.len() + 2;
    let a_value_end = a_value_start + 1;
    let a_line_end = line_a.len();
    let b_value_start = a_line_end + kb.len() + 2;
    let b_value_end = b_value_start + 1;
    let b_line_end = bytes.len();
    let mut spans = SpanMap::new();
    spans.insert(
        format!("/{ka}"),
        block_map_span(a_value_start, a_value_end, 0, a_line_end),
    );
    spans.insert(
        format!("/{kb}"),
        block_map_span(b_value_start, b_value_end, a_line_end, b_line_end),
    );
    let mut value = ValueMap::new();
    value.insert(ka.to_owned(), Value::Int(na));
    value.insert(kb.to_owned(), Value::Int(nb));
    Document::with_spans(Value::Object(value), bytes, spans, FormatTag::Yaml)
}

fn tree(text: &str) -> Value {
    Json.parse(text.as_bytes())
        .expect("the text is JSON")
        .value()
        .clone()
}

#[test]
fn new_script_is_empty_and_noop() {
    let s = EditScript::new();
    assert!(s.is_empty());
    assert!(s.is_noop());
    assert_eq!(s.len(), 0);
    assert!(s.ops().is_empty());
}

#[test]
fn serde_round_trip_two_op_script() {
    let script = EditScript::from(vec![
        EditOp::Replace {
            path: Pointer::parse("/a/b").unwrap(),
            value: Value::Int(1),
        },
        EditOp::Remove {
            path: Pointer::parse("/c").unwrap(),
        },
    ]);
    let json = script.to_value();
    assert_eq!(
        json,
        tree(
            r#"[
                {"op": "replace", "path": "/a/b", "value": 1},
                {"op": "remove",  "path": "/c"}
            ]"#
        ),
        "wire format must match RFC 6902 JSON Patch exactly",
    );
    let round_tripped = EditScript::from_value(&json).expect("script deserializes back");
    assert_eq!(round_tripped, script);
}

#[test]
fn apply_replace_patches_bytes_and_value() {
    let mut doc = yaml_doc_one("a", 3);
    let script = EditScript::from(vec![EditOp::Replace {
        path: Pointer::parse("/a").unwrap(),
        value: Value::Int(5),
    }]);
    script
        .apply(&mut doc)
        .expect("Replace via EditScript apply");
    assert_eq!(
        doc.original_bytes(),
        b"a: 5\n",
        "Replace must splice exactly the value range, leaving every other byte untouched",
    );
    match doc.value() {
        Value::Object(m) => assert_eq!(m.get("a"), Some(&Value::Int(5))),
        other => panic!("expected map, got: {other:?}"),
    }
}

#[test]
fn into_iter_collect_round_trip_yields_identical_script() {
    let original = EditScript::from(vec![
        EditOp::Add {
            path: Pointer::parse("/a").unwrap(),
            value: Value::Bool(true),
        },
        EditOp::Replace {
            path: Pointer::parse("/b").unwrap(),
            value: Value::Int(42),
        },
        EditOp::Remove {
            path: Pointer::parse("/c").unwrap(),
        },
    ]);
    let original_ops = original.ops().to_vec();
    let collected = EditScript::from_ops(original.into_ops());
    assert_eq!(
        collected.ops(),
        original_ops.as_slice(),
        "into_ops and from_ops must round-trip the op sequence in order",
    );
}

#[test]
fn serialize_replace_op_emits_canonical_json_patch_object() {
    let op = EditOp::Replace {
        path: Pointer::parse("/a/b").unwrap(),
        value: Value::Int(1),
    };
    let json = op.to_value();
    assert_eq!(
        json,
        tree(r#"{"op": "replace", "path": "/a/b", "value": 1}"#),
        "single-op wire form must match RFC 6902 tagged map exactly",
    );
}

#[test]
fn deserialize_json_patch_array_yields_add_then_remove() {
    let raw = r#"[{"op":"add","path":"/x","value":42},{"op":"remove","path":"/y"}]"#;
    let script = EditScript::from_value(&tree(raw)).expect("RFC 6902 array deserializes into EditScript");
    assert_eq!(script.len(), 2, "two-op array must round-trip to two ops");
    match &script.ops()[0] {
        EditOp::Add { path, value } => {
            assert_eq!(path.as_canonical(), "/x");
            assert_eq!(*value, Value::Int(42));
        }
        other => panic!("expected ops[0] = Add, got: {other:?}"),
    }
    match &script.ops()[1] {
        EditOp::Remove { path } => assert_eq!(path.as_canonical(), "/y"),
        other => panic!("expected ops[1] = Remove, got: {other:?}"),
    }
}

#[test]
fn deserialize_copy_op_reports_unsupported_op_by_name() {
    let raw = r#"[{"op":"copy","from":"/a","path":"/b"}]"#;
    let err = EditScript::from_value(&tree(raw))
        .expect_err("`copy` must be rejected by the EditOp deserializer");
    let msg = err.to_text();
    assert!(
        msg.contains("copy"),
        "error message must name the unsupported op `copy`; got: {msg}",
    );
    assert!(
        msg.contains("unsupported op"),
        "error message must declare the failure as an unsupported op; got: {msg}",
    );
}

#[test]
fn deserialize_move_op_is_rejected_with_unsupported_op_name() {
    let raw = r#"[{"op":"move","path":"/b"}]"#;
    let err = EditScript::from_value(&tree(raw)).expect_err("`move` must be rejected");
    let msg = err.to_text();
    assert!(
        msg.contains("move"),
        "error message must name the unsupported op `move`; got: {msg}",
    );
}

#[test]
fn deserialize_test_op_is_rejected_with_unsupported_op_name() {
    let raw = r#"[{"op":"test","path":"/a","value":1}]"#;
    let err = EditScript::from_value(&tree(raw)).expect_err("`test` must be rejected");
    let msg = err.to_text();
    assert!(
        msg.contains("test"),
        "error message must name the unsupported op `test`; got: {msg}",
    );
}

#[test]
fn deserialize_rejects_unknown_fields_on_op_object() {
    let raw = r#"[{"op":"add","path":"/x","value":1,"foo":2}]"#;
    let err = EditScript::from_value(&tree(raw))
        .expect_err("unknown field `foo` must be rejected (deny_unknown_fields semantics)");
    let msg = err.to_text();
    assert!(
        msg.contains("foo") || msg.contains("unknown field"),
        "error must identify the unknown field; got: {msg}",
    );
}

#[test]
fn single_op_script_is_not_noop_regardless_of_target() {
    let script = EditScript::from(vec![EditOp::Remove {
        path: Pointer::parse("/p").unwrap(),
    }]);
    assert!(
        !script.is_noop(),
        "a single-op script is non-empty, so is_noop() must be false even if `/p` is absent",
    );
    assert_eq!(script.len(), 1);
    assert!(!script.is_empty());
}

#[test]
fn default_script_equals_new_and_is_empty() {
    let default = EditScript::default();
    assert_eq!(
        default,
        EditScript::new(),
        "EditScript::default() must equal EditScript::new()",
    );
    assert!(default.is_empty());
    assert!(default.is_noop());
    assert_eq!(default.len(), 0);
}

#[test]
fn from_vec_round_trip_preserves_ops_and_len() {
    let ops = vec![
        EditOp::Add {
            path: Pointer::parse("/x").unwrap(),
            value: Value::String("a".into()),
        },
        EditOp::Replace {
            path: Pointer::parse("/y").unwrap(),
            value: Value::Bool(false),
        },
    ];
    let script = EditScript::from(ops.clone());
    assert_eq!(script.len(), ops.len());
    assert_eq!(script.ops(), ops.as_slice());
}

#[test]
fn serialize_add_op_emits_canonical_json_patch_object() {
    let op = EditOp::Add {
        path: Pointer::parse("/a").unwrap(),
        value: Value::Bool(true),
    };
    let json = op.to_value();
    assert_eq!(
        json,
        tree(r#"{"op": "add", "path": "/a", "value": true}"#),
        "Add wire form must match RFC 6902 tagged map exactly",
    );
    let round_tripped = EditOp::from_value(&json).expect("Add deserializes back");
    assert_eq!(round_tripped, op);
}

#[test]
fn serialize_remove_op_emits_two_field_object_without_value() {
    let op = EditOp::Remove {
        path: Pointer::parse("/c").unwrap(),
    };
    let json = op.to_value();
    assert_eq!(
        json,
        tree(r#"{"op": "remove", "path": "/c"}"#),
        "Remove wire form must omit the `value` field entirely",
    );
    let round_tripped = EditOp::from_value(&json).expect("Remove deserializes back");
    assert_eq!(round_tripped, op);
}

#[test]
fn multi_op_script_applies_in_declaration_order() {
    let mut doc = yaml_doc_two("x", 0, "y", 0);
    assert_eq!(
        doc.original_bytes(),
        b"x: 0\ny: 0\n",
        "fixture sanity: pre-apply bytes",
    );
    let script = EditScript::from(vec![
        EditOp::Replace {
            path: Pointer::parse("/x").unwrap(),
            value: Value::Int(1),
        },
        EditOp::Replace {
            path: Pointer::parse("/y").unwrap(),
            value: Value::Int(2),
        },
    ]);
    script
        .apply(&mut doc)
        .expect("two-Replace script must succeed end-to-end");
    assert_eq!(
        doc.original_bytes(),
        b"x: 1\ny: 2\n",
        "both Replaces must commit to original_bytes in order",
    );
    match doc.value() {
        Value::Object(m) => {
            assert_eq!(m.get("x"), Some(&Value::Int(1)));
            assert_eq!(m.get("y"), Some(&Value::Int(2)));
            let keys: Vec<&String> = m.entries.iter().map(|(k, _)| k).collect();
            assert_eq!(
                keys,
                vec![&"x".to_owned(), &"y".to_owned()],
                "Replace must not reorder keys",
            );
        }
        other => panic!("expected map, got: {other:?}"),
    }
}

#[test]
fn failed_op_leaves_first_op_committed_to_bytes() {
    let mut doc = yaml_doc_one("existing", 0);
    assert_eq!(
        doc.original_bytes(),
        b"existing: 0\n",
        "fixture sanity: pre-apply bytes",
    );
    let script = EditScript::from(vec![
        EditOp::Replace {
            path: Pointer::parse("/existing").unwrap(),
            value: Value::Int(1),
        },
        EditOp::Replace {
            path: Pointer::parse("/missing").unwrap(),
            value: Value::Int(2),
        },
    ]);
    let err = script
        .apply(&mut doc)
        .expect_err("the second Replace must fail because /missing does not exist");
    assert!(
        matches!(
            &err,
            Error::Path {
                pointer,
                kind: PathErrorKind::MissingKey,
                ..
            } if pointer == "/missing"
        ),
        "expected Path/MissingKey for `/missing`, got: {err:?}",
    );
    assert_eq!(
        doc.original_bytes(),
        b"existing: 1\n",
        "first op must remain committed; partial state is intentional",
    );
    match doc.value() {
        Value::Object(m) => {
            assert_eq!(
                m.get("existing"),
                Some(&Value::Int(1)),
                "in-memory tree must reflect the committed first op",
            );
        }
        other => panic!("expected map, got: {other:?}"),
    }
}

#[test]
fn clones_are_equal_to_what_they_were_taken_from() {
    let script = EditScript::from(vec![
        EditOp::Replace { path: Pointer::parse("/a").unwrap(), value: Value::Int(1) },
        EditOp::Remove { path: Pointer::parse("/b/0").unwrap() },
    ]);
    assert_eq!(script.clone(), script);
    for kind in [
        PathErrorKind::MissingKey,
        PathErrorKind::OutOfBounds,
        PathErrorKind::TypeMismatch { expected: "object", found: "array" },
    ] {
        assert_eq!(kind.clone(), kind);
    }
}
