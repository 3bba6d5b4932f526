use dq_core::{Document, Format, Value};
use dq_core::parsers::jsonl::Jsonl;

fn parse(s: &str) -> Document {
    Jsonl.parse(s.as_bytes()).unwrap()
}

#[test]
fn parse_one_line_per_record() {
    let doc = parse("{\"a\":1}\n{\"a\":2}\n{\"a\":3}\n");
    let Value::Array(items) = doc.value() else {
        panic!()
    };
    assert_eq!(items.len(), 3);
}

#[test]
fn parse_skips_blank_lines() {
    let doc = parse("\n{\"a\":1}\n\n{\"a\":2}\n");
    let Value::Array(items) = doc.value() else {
        panic!()
    };
    assert_eq!(items.len(), 2);
}

#[test]
fn write_each_array_item_on_own_line() {
    let doc = parse("{\"a\":1}\n{\"a\":2}\n");
    let mut buf: Vec<u8> = Vec::new();
    Jsonl.write(&doc, &mut buf).unwrap();
    let out = String::from_utf8(buf).unwrap();
    assert_eq!(out.lines().count(), 2);
}

#[test]
fn jsonl_write_rejects_multi_doc() {
    let doc = Document::multi(vec![Value::Int(1)]);
    let mut buf: Vec<u8> = Vec::new();
    let err = Jsonl.write(&doc, &mut buf).unwrap_err();
    assert_eq!(err.kind_name(), "format");
}
