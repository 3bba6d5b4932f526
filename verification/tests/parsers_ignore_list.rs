use dq_core::{Document, Error, Format, FormatTag, Value};
use dq_core::parsers::ignore_list::IgnoreList;

#[test]
fn parse_one_pattern_per_line() {
    let doc = IgnoreList
        .parse(b"node_modules/\n# build\n*.log\n\ntarget/\n")
        .expect("parse");
    let Value::Array(items) = doc.value() else {
        panic!("expected array")
    };
    let strings: Vec<&str> = items
        .iter()
        .map(|v| match v {
            Value::String(s) => s.as_str(),
            _ => panic!("non-string in ignore list"),
        })
        .collect();
    assert_eq!(strings, vec!["node_modules/", "*.log", "target/"]);
}

#[test]
fn ignore_list_write_returns_format_error() {
    let doc = Document::value_only(Value::Array(vec![]), FormatTag::IgnoreList);
    let mut buf: Vec<u8> = Vec::new();
    let err = IgnoreList.write(&doc, &mut buf).expect_err("read-only");
    match err {
        Error::Format { format, message } => {
            assert_eq!(format, "ignore-list");
            assert!(
                message.contains("read-only"),
                "expected read-only message; got: {message}",
            );
        }
        other => panic!("expected Format error, got {other:?}"),
    }
}
