use dq_core::{Document, Error, Format, FormatTag, Value};
use dq_core::parsers::dockerfile::Dockerfile;

#[test]
fn parse_simple_dockerfile() {
    let doc = Dockerfile.parse(b"FROM alpine\n").expect("parse");
    let Value::Array(items) = doc.value() else {
        panic!("expected array")
    };
    assert_eq!(items.len(), 1);
    let Value::Object(row) = &items[0] else {
        panic!("expected row map")
    };
    assert_eq!(row.get("instruction"), Some(&Value::String("FROM".into())));
    assert_eq!(row.get("arguments"), Some(&Value::String("alpine".into())));
}

#[test]
fn dockerfile_write_returns_format_error() {
    let doc = Document::value_only(Value::Array(vec![]), FormatTag::Dockerfile);
    let mut buf: Vec<u8> = Vec::new();
    let err = Dockerfile.write(&doc, &mut buf).expect_err("read-only");
    match err {
        Error::Format { format, message } => {
            assert_eq!(format, "dockerfile");
            assert!(
                message.contains("read-only"),
                "expected read-only message; got: {message}",
            );
        }
        other => panic!("expected Format error, got {other:?}"),
    }
}
