use dq_core::{Error, PathErrorKind, Value};

#[test]
fn kind_name_is_stable_per_variant() {
    let io = Error::Io {
        path: "/x".to_owned(),
        source: "nope".to_owned(),
    };
    assert_eq!(io.kind_name(), "io");

    let write_io = Error::WriteIo {
        path: "/x".to_owned(),
        source: "nope".to_owned(),
    };
    assert_eq!(write_io.kind_name(), "write_io");

    let parse = Error::Parse {
        file: None,
        line: 1,
        col: 1,
        span: 0..0,
        snippet: String::new(),
        message: "bad".to_owned(),
    };
    assert_eq!(parse.kind_name(), "parse");

    let path = Error::Path {
        pointer: "/x".to_owned(),
        matched_prefix: String::new(),
        kind: PathErrorKind::MissingKey,
        did_you_mean: Vec::new(),
    };
    assert_eq!(path.kind_name(), "path");

    let unsupported = Error::UnsupportedFormat {
        name: "xml".to_owned(),
    };
    assert_eq!(unsupported.kind_name(), "unsupported_format");

    let format = Error::Format {
        format: "jsonl",
        message: "no".to_owned(),
    };
    assert_eq!(format.kind_name(), "format");

    let write_unavailable = Error::WriteUnavailable {
        reason: "read-only".to_owned(),
    };
    assert_eq!(write_unavailable.kind_name(), "write_unavailable");

    let templated = Error::TemplatedFile {
        line: 1,
        snippet: "tag: {{ .Values.tag }}".to_owned(),
        hint: "hint".to_owned(),
    };
    assert_eq!(templated.kind_name(), "templated_file");

    let patch_test = Error::PatchTestFailed {
        pointer: "/a".to_owned(),
        expected: Box::new(Value::Int(1)),
        actual: Box::new(Value::Int(2)),
    };
    assert_eq!(patch_test.kind_name(), "patch_test_failed");
}
