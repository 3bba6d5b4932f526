use dq_core::{Format, Value};
use dq_core::parsers::hcl::Hcl;

#[test]
fn parse_simple_attribute() {
    let doc = Hcl.parse(b"key = \"value\"\n").expect("parse simple");
    match doc.value() {
        Value::Object(m) => assert_eq!(m.get("key"), Some(&Value::String("value".into()))),
        other => panic!("expected map, got: {other:?}"),
    }
}

#[test]
fn parse_block_with_label_nests() {
    let doc = Hcl
        .parse(b"backend \"s3\" { region = \"us-east-1\" }\n")
        .expect("parse block");
    let Value::Object(top) = doc.value() else {
        panic!("expected top map")
    };
    let Some(Value::Object(backend)) = top.get("backend") else {
        panic!("expected backend map")
    };
    let Some(Value::Object(s3)) = backend.get("s3") else {
        panic!("expected s3 map")
    };
    assert_eq!(s3.get("region"), Some(&Value::String("us-east-1".into())));
}

#[test]
fn parse_invalid_returns_parse_error() {
    let err = Hcl.parse(b"this = =\n").expect_err("must parse-error");
    assert_eq!(err.kind_name(), "parse");
}
