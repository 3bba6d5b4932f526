use dq_core::{Document, Format, FormatTag, Value, ValueMap};
use dq_core::parsers::csv::{Csv, Tsv};

#[test]
fn parse_csv_array_of_maps() {
    let doc = Csv.parse(b"name\nalice\n").expect("parse");
    let Value::Array(items) = doc.value() else {
        panic!("expected array")
    };
    assert_eq!(items.len(), 1);
    let Value::Object(row) = &items[0] else {
        panic!("expected row map")
    };
    assert_eq!(row.get("name"), Some(&Value::String("alice".into())));
}

#[test]
fn parse_tsv_uses_tab_delimiter() {
    let doc = Tsv.parse(b"name\tage\nalice\t30\n").expect("parse tsv");
    let Value::Array(items) = doc.value() else {
        panic!()
    };
    assert_eq!(items.len(), 1);
    let Value::Object(row) = &items[0] else { panic!() };
    assert_eq!(row.get("name"), Some(&Value::String("alice".into())));
    assert_eq!(row.get("age"), Some(&Value::String("30".into())));
}

#[test]
fn write_rejects_non_array_top_level() {
    let mut m = ValueMap::new();
    m.insert("a".into(), Value::Int(1));
    let doc = Document::value_only(Value::Object(m), FormatTag::Csv);
    let mut buf: Vec<u8> = Vec::new();
    let err = Csv.write(&doc, &mut buf).expect_err("must error");
    assert_eq!(err.kind_name(), "format");
}
