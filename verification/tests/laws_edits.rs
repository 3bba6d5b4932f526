use dq_core::edit_ops::{EditOp, EditScript, OpError};
use dq_core::parsers::json::Json;
use dq_core::parsers::toml::Toml;
use dq_core::spans::{apply_delta, SpanContext, SpanMap, SpanRecomputeDelta, ValueSpan};
use dq_core::{parse_json_with_spans, parse_yaml_with_spans, Document, Error, Format, FormatTag, Pointer, Value, WriteOptions};

fn json(text: &str) -> Document {
    parse_json_with_spans(text.as_bytes()).expect("JSON parses")
}

fn yaml(text: &str) -> Document {
    parse_yaml_with_spans(text.as_bytes()).expect("YAML parses")
}

fn at(text: &str) -> Pointer {
    Pointer::parse(text).expect("pointer parses")
}

fn tree(text: &str) -> Value {
    json(text).value().clone()
}

fn span(start: usize, end: usize) -> ValueSpan {
    ValueSpan {
        value_range: start..end,
        line_range: start..end,
        indent: 0,
        context: SpanContext::BlockMapValue,
    }
}

#[test]
fn a_set_keeps_the_bytes_around_the_value() {
    let mut doc = json("{ \"a\" :  1 , \"b\":2 }");
    doc.set_at(&at("/a"), Value::Int(1000)).expect("set");
    assert_eq!(doc.original_bytes(), b"{ \"a\" :  1000 , \"b\":2 }");
    assert_eq!(at("/a").resolve(doc.value()).expect("a"), &Value::Int(1000));
}

#[test]
fn after_a_set_the_span_covers_the_new_bytes_and_the_others_move() {
    let mut doc = json("{\"a\":1,\"b\":22}");
    doc.set_at(&at("/a"), Value::String("xyz".into())).expect("set");
    let a = doc.span_at(&at("/a")).expect("span of a").value_range.clone();
    let b = doc.span_at(&at("/b")).expect("span of b").value_range.clone();
    assert_eq!(&doc.original_bytes()[a.clone()], b"\"xyz\"");
    assert_eq!(&doc.original_bytes()[b.clone()], b"22");
    assert!(a.end <= b.start);
}

#[test]
fn values_stay_apart_over_many_sets() {
    let mut doc = json("{\"a\":[1,2,3],\"b\":{\"c\":\"x\"}}");
    let edits = [
        ("/a/1", Value::String("longer than before".into())),
        ("/b/c", Value::Null),
        ("/a/0", Value::Bool(false)),
        ("/a/1", Value::Int(0)),
    ];
    for (pointer, value) in edits {
        doc.set_at(&at(pointer), value).expect("set");
        let mut ranges: Vec<(usize, usize)> = doc
            .spans()
            .values()
            .map(|s| (s.value_range.start, s.value_range.end))
            .collect();
        ranges.sort();
        let mut last = 0;
        for (start, end) in ranges {
            assert!(last <= start && start <= end && end <= doc.original_bytes().len());
            last = end;
        }
    }
    assert_eq!(doc.original_bytes(), b"{\"a\":[false,0,3],\"b\":{\"c\":null}}");
    let again = json("{\"a\":[false,0,3],\"b\":{\"c\":null}}");
    assert_eq!(doc.value(), again.value());
}

#[test]
fn spans_of_every_format_lie_within_the_source() {
    let json_doc = json("[{\"k\": \"v\"}, 2.5, null]\n");
    let yaml_doc = yaml("a: 1\nlist:\n  - x\n  - {}\nlast: end");
    let toml_doc = Toml.parse(b"a = 1\n[t]\nb = [1, 2]\nc = {}\n").expect("TOML parses");
    for doc in [json_doc, yaml_doc, toml_doc] {
        assert!(!doc.spans().is_empty());
        for s in doc.spans().values() {
            assert!(s.value_range.start <= s.value_range.end);
            assert!(s.value_range.end <= doc.original_bytes().len());
            assert!(s.line_range.start <= s.line_range.end);
            assert!(s.line_range.end <= doc.original_bytes().len());
        }
    }
}

#[test]
fn a_refused_edit_changes_nothing() {
    let mut doc = json("{\"a\":1}");
    let before = doc.clone();
    assert!(doc.set_at(&at("/missing"), Value::Int(2)).is_err());
    assert_eq!(doc, before);
    assert!(doc.del_at(&at("/missing")).is_err());
    assert_eq!(doc, before);
    let mut bare = Document::value_only(tree("{\"a\":1}"), FormatTag::Json);
    let bare_before = bare.clone();
    assert!(matches!(
        bare.set_at(&at("/a"), Value::Int(2)),
        Err(Error::WriteUnavailable { .. })
    ));
    assert_eq!(bare, bare_before);
}

#[test]
fn a_deletion_takes_the_lines_and_the_spans_below() {
    let mut doc = yaml("a: 1\nb:\n  c: 2\nd: 3\n");
    doc.del_at(&at("/a")).expect("delete");
    assert_eq!(doc.original_bytes(), b"b:\n  c: 2\nd: 3\n");
    assert!(doc.span_at(&at("/a")).is_none());
    let d = doc.span_at(&at("/d")).expect("d").value_range.clone();
    assert_eq!(&doc.original_bytes()[d], b"3");
    assert!(at("/a").resolve(doc.value()).is_err());
}

#[test]
fn the_read_only_view_agrees_with_the_spans_after_edits() {
    let mut doc = json("{\n  \"a\": 1,\n  \"b\": 2\n}");
    doc.set_at(&at("/a"), Value::Int(12345)).expect("set");
    for pointer in ["/a", "/b"] {
        assert_eq!(doc.as_ir().span_for(&at(pointer)), doc.span_at(&at(pointer)));
    }
    assert_eq!(doc.as_ir().line_col_for(&at("/b")), Some((3, 8)));
}

#[test]
fn scripts_compose_and_an_empty_one_changes_nothing() {
    let first = EditOp::Replace { path: at("/a"), value: Value::Int(7) };
    let second = EditOp::Replace { path: at("/b"), value: Value::Bool(true) };
    let mut at_once = json("{\"a\":1,\"b\":2}");
    let both = EditScript::from_ops(vec![first.clone(), second.clone()]);
    both.apply(&mut at_once).expect("both");
    let mut in_turn = json("{\"a\":1,\"b\":2}");
    EditScript::from_ops(vec![first]).apply(&mut in_turn).expect("first");
    EditScript::from_ops(vec![second]).apply(&mut in_turn).expect("second");
    assert_eq!(at_once, in_turn);
    EditScript::new().apply(&mut at_once).expect("nothing");
    assert_eq!(at_once, in_turn);
    assert_eq!(at_once.original_bytes(), b"{\"a\":7,\"b\":true}");
}

#[test]
fn written_operations_read_back() {
    let ops = vec![
        EditOp::Add { path: at("/a~1b"), value: tree("{\"x\":[1,null,\"s\"]}") },
        EditOp::Replace { path: at("/c"), value: Value::Float("2.5".into()) },
        EditOp::Remove { path: at("") },
    ];
    for op in &ops {
        assert_eq!(&EditOp::from_value(&op.to_value()).expect("op reads back"), op);
    }
    let script = EditScript::from_ops(ops);
    assert_eq!(EditScript::from_value(&script.to_value()).expect("script reads back"), script);
}

#[test]
fn a_number_beyond_64_bits_is_written_as_its_text() {
    let digits = "18446744073709551616".to_owned();
    let big = EditOp::Add { path: at("/a"), value: Value::BigInt(digits.clone()) };
    let text = EditOp::Add { path: at("/a"), value: Value::String(digits) };
    assert_eq!(EditOp::from_value(&big.to_value()).expect("op reads back"), text);
    let plain = tree("[1,{\"a\":2.5},null]");
    assert_eq!(plain.serial_form(), plain);
}

#[test]
fn operations_that_are_not_whole_are_refused() {
    let cases = [
        ("{\"path\":\"/a\"}", "op"),
        ("{\"op\":\"add\",\"path\":\"/a\"}", "value"),
        ("{\"op\":\"remove\"}", "path"),
        ("{\"op\":\"remove\",\"path\":\"a\"}", "a"),
        ("{\"op\":\"remove\",\"path\":\"/a\",\"from\":\"/b\"}", "from"),
    ];
    for (text, named) in cases {
        let refused: OpError = EditOp::from_value(&tree(text)).expect_err("refused");
        assert!(
            refused.to_text().contains(named),
            "{text}: {} lacks {named}",
            refused.to_text()
        );
    }
    assert!(EditScript::from_value(&Value::Int(1)).is_err());
}

#[test]
fn an_edit_of_equal_length_moves_nothing_and_the_inverse_moves_back() {
    let mut map = SpanMap::new();
    map.insert("/a".into(), span(0, 3));
    map.insert("/b".into(), span(10, 12));
    let before = map.clone();
    apply_delta(&mut map, SpanRecomputeDelta { at: 4, old_len: 2, new_len: 2 });
    assert_eq!(map, before);
    apply_delta(&mut map, SpanRecomputeDelta { at: 4, old_len: 2, new_len: 5 });
    assert_eq!(map.get("/a"), Some(&span(0, 3)));
    assert_eq!(map.get("/b"), Some(&span(13, 15)));
    apply_delta(&mut map, SpanRecomputeDelta { at: 4, old_len: 5, new_len: 2 });
    assert_eq!(map, before);
    let keys: Vec<&String> = map.keys().collect();
    assert_eq!(keys, vec!["/a", "/b"]);
}

#[test]
fn an_unedited_source_is_written_back_and_an_edit_in_place() {
    let source = b"{ \"big\": 123456789012345678901234567890,\n\t\"b\": [ ] , \"c\": 1 }\n";
    let mut doc = Json.parse(source).expect("JSON parses");
    let mut out: Vec<u8> = Vec::new();
    Json.write(&doc, &mut out).expect("write");
    assert_eq!(out, source);
    doc.set_at(&at("/c"), Value::Int(2)).expect("set");
    let mut edited: Vec<u8> = Vec::new();
    Json.write(&doc, &mut edited).expect("write");
    assert_eq!(
        edited,
        b"{ \"big\": 123456789012345678901234567890,\n\t\"b\": [ ] , \"c\": 2 }\n"
    );
    let toml = b"# comment\na   = 1 # one\n[t]\nb = 'x'\n";
    let mut doc = Toml.parse(toml).expect("TOML parses");
    doc.set_at(&at("/t/b"), Value::String("y".into())).expect("set");
    let mut out: Vec<u8> = Vec::new();
    Toml.write(&doc, &mut out).expect("write");
    assert_eq!(out, b"# comment\na   = 1 # one\n[t]\nb = 'y'\n");
}

#[test]
fn edited_json_reads_as_the_edited_value() {
    let source = tree("[{\"a/b~c\":1,\"é \\\"q\\\"\":[null,\"x\\ny\"],\"0\":{\"1\":true}},[],123456789012345678901234567890]");
    let scalars = [
        Value::Null,
        Value::Bool(false),
        Value::Int(-42),
        Value::BigInt("-98765432109876543210".to_owned()),
        Value::String("longer \"text\" \u{1} 漢".to_owned()),
    ];
    for indent in [Some(0), Some(1), Some(4), None] {
        let opts = WriteOptions { sort_keys: false, indent };
        let mut bytes: Vec<u8> = Vec::new();
        let written = Document::value_only(source.clone(), FormatTag::Json);
        Json.write_with_options(&written, &mut bytes, &opts).expect("write");
        for place in ["/0/a~1b~0c", "/0/é \"q\"/0", "/0/é \"q\"/1", "/0/0/1", "/2"] {
            for scalar in &scalars {
                let mut doc = Json.parse(&bytes).expect("parse");
                let pointer = at(place);
                doc.set_at(&pointer, scalar.clone()).expect("set");
                let again = Json.parse(doc.original_bytes()).expect("parse again");
                assert_eq!(again.value(), doc.value());
                assert_eq!(pointer.resolve(again.value()).expect("resolve"), scalar);
            }
        }
    }
}

#[test]
fn the_view_has_the_keys_of_the_spans_after_edits() {
    let mut doc = yaml("a: 1\nb:\n  c: 2\n  d: 3\ne: [1, 2]\n");
    doc.set_at(&at("/b/c"), Value::String("longer text".to_owned())).expect("set");
    doc.del_at(&at("/a")).expect("delete");
    let keys: Vec<String> = doc.spans().keys().cloned().collect();
    for (i, key) in keys.iter().enumerate() {
        assert!(!keys[..i].contains(key), "{key} twice");
        assert_eq!(doc.as_ir().span_for(&at(key)), doc.span_at(&at(key)), "{key}");
    }
    let seen: Vec<String> = doc.as_ir().provenance().keys().cloned().collect();
    assert_eq!(seen, keys);
    assert!(doc.as_ir().span_for(&at("/a")).is_none());
}

#[test]
fn an_edit_that_the_tree_refuses_changes_nothing() {
    let mut spans = SpanMap::new();
    spans.insert("/a/b".to_owned(), span(3, 4));
    let mut doc = Document::with_spans(tree("{\"a\":1}"), b"a: 1\n".to_vec(), spans, FormatTag::Yaml);
    let before = doc.clone();
    assert!(matches!(doc.set_at(&at("/a/b"), Value::Int(22)), Err(Error::Path { .. })));
    assert_eq!(doc, before);
    assert!(matches!(doc.del_at(&at("/a/b")), Err(Error::Path { .. })));
    assert_eq!(doc, before);
}

#[test]
fn a_failed_script_keeps_what_came_before() {
    let script = EditScript::from_ops(vec![
        EditOp::Replace { path: at("/a"), value: Value::Int(7) },
        EditOp::Replace { path: at("/missing"), value: Value::Int(8) },
        EditOp::Replace { path: at("/b"), value: Value::Int(9) },
    ]);
    let mut doc = json("{\"a\":1,\"b\":2}");
    assert!(script.apply(&mut doc).is_err());
    let mut first = json("{\"a\":1,\"b\":2}");
    first.set_at(&at("/a"), Value::Int(7)).expect("set");
    assert_eq!(doc, first);
}
