use dq_core::atomic_write::{backup_path_for, no_parent_error, staging_dir};
use dq_core::format::detect_named;
use dq_core::parsers::csv::Csv;
use dq_core::parsers::dockerfile::Dockerfile;
use dq_core::parsers::hcl::Hcl;
use dq_core::parsers::ignore_list::IgnoreList;
use dq_core::parsers::ini::Ini;
use dq_core::parsers::json::Json;
use dq_core::parsers::markdown::Markdown;
use dq_core::parsers::toml::Toml;
use dq_core::parsers::xml::Xml;
use dq_core::parsers::yaml::Yaml;
use dq_core::position::{byte_pos_to_line_col, derive_line_col};
use dq_core::template_guard::detect_templates;
use dq_core::{
    detect, parse_json_with_spans, Document, Error, Format, FormatTag, PathErrorKind, Pointer,
    Value, ValueMap,
};

fn tree(text: &str) -> Value {
    Json.parse(text.as_bytes()).expect("JSON parses").value().clone()
}

#[test]
fn values_and_documents_are_shown() {
    let value = tree("{\"k\":[1,\"a\\\"b\\n\",null,true,2.5]}");
    assert_eq!(value.to_text(), "{\"k\": [1, \"a\\\"b\\n\", null, true, 2.5]}");
    let stream = Document::multi(vec![Value::Int(1), Value::String("x".into())]);
    assert_eq!(stream.to_text(), "1\n---\n\"x\"");
}

#[test]
fn errors_are_shown() {
    let shown = [
        (
            Error::Io { path: "p".into(), source: "gone".into() },
            "I/O error reading 'p': gone",
        ),
        (
            Error::WriteIo { path: "p".into(), source: "full".into() },
            "I/O error writing 'p': full",
        ),
        (
            Error::Parse {
                file: Some("f.json".into()),
                line: 1,
                col: 2,
                span: 0..1,
                snippet: String::new(),
                message: "bad".into(),
            },
            "parse error in f.json: bad",
        ),
        (
            Error::Path {
                pointer: "/a/b".into(),
                matched_prefix: "/a".into(),
                kind: PathErrorKind::MissingKey,
                did_you_mean: Vec::new(),
            },
            "path '/a/b' not found (matched up to '/a')",
        ),
        (Error::UnsupportedFormat { name: "zip".into() }, "unsupported format 'zip'"),
        (
            Error::Format { format: "toml", message: "no".into() },
            "toml format error: no",
        ),
        (
            Error::WriteUnavailable { reason: "read-only".into() },
            "write operation unavailable: read-only",
        ),
        (
            Error::TemplatedFile { line: 3, snippet: "{{ x }}".into(), hint: "h".into() },
            "file contains Go template syntax (line 3): {{ x }}\n  hint: h",
        ),
        (
            Error::PatchTestFailed {
                pointer: "/a".into(),
                expected: Box::new(Value::Int(1)),
                actual: Box::new(Value::String("x".into())),
            },
            "RFC 6902 test op failed at /a: expected 1, got \"x\"",
        ),
    ];
    for (error, expected) in shown {
        assert_eq!(error.to_text(), expected);
    }
}

#[test]
fn a_templated_file_error_takes_over_the_marker() {
    let marker = detect_templates(b"a: 1\n  b: {{ .x }}  \n").expect("marker");
    assert_eq!(marker.line, 2);
    assert_eq!(marker.snippet, "b: {{ .x }}");
    match Error::templated_file(marker) {
        Error::TemplatedFile { line, snippet, .. } => {
            assert_eq!(line, 2);
            assert_eq!(snippet, "b: {{ .x }}");
        }
        other => panic!("expected a templated file, got {other:?}"),
    }
}

#[test]
fn ill_formed_bytes_are_shown_mended() {
    let marker = detect_templates(b"a\xffb: {{ .x }}\n").expect("marker");
    assert_eq!(marker.snippet, "a\u{fffd}b: {{ .x }}");
}

#[test]
fn malformed_pointers_are_refused() {
    for text in ["a", "/a//b", "/", "/~2"] {
        assert!(matches!(
            Pointer::parse(text),
            Err(Error::Path { kind: PathErrorKind::TypeMismatch { .. }, .. })
        ));
    }
}

#[test]
fn parse_errors_of_the_formats_are_placed() {
    match Yaml.parse(b"a: 1\nb: [\n") {
        Err(Error::Parse { line, message, .. }) => {
            assert!(line >= 2);
            assert!(!message.is_empty());
        }
        other => panic!("expected a parse error, got {other:?}"),
    }
    match Toml.parse(b"a = 1\nb = \n") {
        Err(Error::Parse { line, snippet, .. }) => {
            assert_eq!(line, 2);
            assert_eq!(snippet, "b = ");
        }
        other => panic!("expected a parse error, got {other:?}"),
    }
    match Json.parse(b"{\n  \"a\": tru\n}") {
        Err(Error::Parse { line, snippet, .. }) => {
            assert_eq!(line, 2);
            assert_eq!(snippet, "  \"a\": tru");
        }
        other => panic!("expected a parse error, got {other:?}"),
    }
    assert!(matches!(Hcl.parse(b"a = \n"), Err(Error::Parse { .. })));
    assert!(matches!(Ini.parse(b"[open\n"), Err(Error::Parse { .. })));
    assert!(matches!(Xml.parse(b"<a/><b/>"), Err(Error::Parse { .. })));
    assert!(matches!(Csv.parse(b"a,b\n1\n"), Err(Error::Parse { .. })));
    assert!(matches!(Dockerfile.parse(b"NONSENSE x\n"), Err(Error::Parse { .. })));
    assert!(matches!(Json.parse(b"{\"a\": 1} // no"), Err(Error::Parse { .. })));
}

#[test]
fn text_formats_refuse_bytes_that_are_no_text() {
    let bytes = b"a: \xff\n";
    assert!(matches!(Json.parse(bytes), Err(Error::Parse { .. })));
    assert!(matches!(Yaml.parse(bytes), Err(Error::Parse { .. })));
    assert!(matches!(Toml.parse(bytes), Err(Error::Parse { .. })));
    assert!(matches!(Hcl.parse(bytes), Err(Error::Parse { .. })));
    assert!(matches!(Ini.parse(bytes), Err(Error::Parse { .. })));
    assert!(matches!(Xml.parse(bytes), Err(Error::Parse { .. })));
    assert!(matches!(Markdown.parse(bytes), Err(Error::Parse { .. })));
    assert!(matches!(IgnoreList.parse(bytes), Err(Error::Parse { .. })));
}

#[test]
fn values_that_a_format_cannot_hold_are_refused() {
    let scalar = Document::value_only(Value::Int(1), FormatTag::Ini);
    let mut out: Vec<u8> = Vec::new();
    assert!(matches!(Ini.write(&scalar, &mut out), Err(Error::Format { format: "ini", .. })));
    assert!(matches!(Csv.write(&scalar, &mut out), Err(Error::Format { .. })));
    assert!(matches!(Xml.write(&scalar, &mut out), Err(Error::Format { .. })));
    let nested = Document::value_only(tree("{\"s\":{\"k\":[1]}}"), FormatTag::Ini);
    assert!(matches!(Ini.write(&nested, &mut out), Err(Error::Format { format: "ini", .. })));
    let nan = Document::value_only(Value::Float("NaN".into()), FormatTag::Json);
    assert!(matches!(Json.write(&nan, &mut out), Err(Error::Format { format: "json", .. })));
}

#[test]
fn ini_sections_are_read_and_written() {
    let doc = Ini.parse(b"top = 1\n[s]\nk = v ; note\n").expect("parse");
    let Value::Object(m) = doc.value() else { panic!("object") };
    assert_eq!(m.get(""), Some(&tree("{\"top\":\"1\"}")));
    let mut inner = ValueMap::new();
    inner.insert("n".into(), Value::Int(5));
    let mut outer = ValueMap::new();
    outer.insert("s".into(), Value::Object(inner));
    let mut out: Vec<u8> = Vec::new();
    Ini.write(&Document::value_only(Value::Object(outer), FormatTag::Ini), &mut out)
        .expect("write");
    assert_eq!(out, b"[s]\nn=5\n");
}

#[test]
fn instructions_are_shown_with_their_arguments() {
    let doc = Dockerfile
        .parse(b"# c\nFROM alpine:3 AS base\nENV A=1 B=2\nCMD [\"x\", \"y z\"]\n")
        .expect("parse");
    let Value::Array(rows) = doc.value() else { panic!("array") };
    let kinds: Vec<&Value> = rows
        .iter()
        .map(|row| match row {
            Value::Object(m) => m.get("instruction").expect("instruction"),
            other => panic!("expected a row, got {other:?}"),
        })
        .collect();
    assert_eq!(
        kinds,
        vec![
            &Value::String("FROM".into()),
            &Value::String("ENV".into()),
            &Value::String("CMD".into()),
        ]
    );
}

#[test]
fn positions_count_lines_and_columns_from_one() {
    assert_eq!(derive_line_col(b"ab\ncd", 0), (1, 1));
    assert_eq!(derive_line_col(b"ab\ncd", 4), (2, 2));
    assert_eq!(byte_pos_to_line_col("é\nxé", 4), (2, 2));
}

#[test]
fn paths_are_matched_by_extension_then_by_name() {
    assert_eq!(detect("dir.d/conf.YML").map(|t| t.name()), Some("yaml"));
    assert_eq!(detect("/etc/Dockerfile").map(|t| t.name()), Some("dockerfile"));
    assert_eq!(detect("notes.md").map(|t| t.name()), Some("markdown"));
    assert_eq!(detect("noext"), None);
    assert_eq!(detect_named(Some("tf"), Some("main.tf")), Some(FormatTag::Hcl));
    assert_eq!(detect_named(None, Some(".env")), Some(FormatTag::DotEnv));
}

#[test]
fn keys_with_escapes_are_recorded_unescaped() {
    let doc = parse_json_with_spans(b"{\"a\\u0062/c\": 1}").expect("parse");
    let pointer = Pointer::parse("/ab~1c").expect("pointer");
    let span = doc.span_at(&pointer).expect("span");
    assert_eq!(&doc.original_bytes()[span.value_range.clone()], b"1");
}

#[test]
fn contents_are_staged_next_to_the_target() {
    assert_eq!(staging_dir(Some("/etc")), Some("/etc".to_owned()));
    assert_eq!(staging_dir(Some("")), Some(".".to_owned()));
    assert_eq!(staging_dir(None), None);
    assert_eq!(backup_path_for("foo.yaml"), "foo.yaml.bak");
    assert_eq!(backup_path_for("foo.bak"), "foo.bak.bak");
    assert_eq!(no_parent_error("/").kind_name(), "write_io");
}
