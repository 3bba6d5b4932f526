use dq_core::parsers::csv::{Csv, Tsv};
use dq_core::parsers::frontmatter::Frontmatter;
use dq_core::parsers::hcl::Hcl;
use dq_core::parsers::ini::Ini;
use dq_core::parsers::json::Json;
use dq_core::parsers::jsonl::Jsonl;
use dq_core::parsers::toml::{parse_with_spans as parse_toml_with_spans, Toml};
use dq_core::parsers::xml::Xml;
use dq_core::parsers::yaml::Yaml;
use dq_core::{Document, Format, FormatTag, FrontmatterKind, Value, ValueMap, WriteOptions};

fn object(entries: Vec<(&str, Value)>) -> Value {
    let mut map = ValueMap::new();
    for (key, value) in entries {
        map.insert(key.to_owned(), value);
    }
    Value::Object(map)
}

fn text(s: &str) -> Value {
    Value::String(s.to_owned())
}

fn texts(items: &[&str]) -> Value {
    Value::Array(items.iter().map(|s| text(s)).collect())
}

fn sample() -> Value {
    object(vec![
        ("nothing", Value::Null),
        ("truth", Value::Bool(true)),
        ("low", Value::Int(i64::MIN)),
        ("zero", Value::Int(0)),
        ("big", Value::BigInt("-123456789012345678901234567890".to_owned())),
        ("empty", Value::Array(Vec::new())),
        ("none", object(Vec::new())),
        ("q\"uo\\te\n\u{1}\u{1f}\u{7f}é漢😀/", text("\u{0}\u{8}\u{c}\t\r\n\u{2028} end")),
        ("deep", Value::Array(vec![object(vec![("x", Value::Array(vec![Value::Int(-1), text("")]))])])),
    ])
}

fn written<F: Format>(format: &F, value: Value, tag: FormatTag, opts: &WriteOptions) -> Vec<u8> {
    let doc = Document::value_only(value, tag);
    let mut out: Vec<u8> = Vec::new();
    format.write_with_options(&doc, &mut out, opts).expect("write");
    out
}

fn options(indent: Option<u8>) -> WriteOptions {
    WriteOptions { sort_keys: false, indent }
}

#[test]
fn json_reads_back_in_every_layout() {
    for indent in [None, Some(0), Some(1), Some(2), Some(7)] {
        let bytes = written(&Json, sample(), FormatTag::Json, &options(indent));
        let doc = Json.parse(&bytes).expect("parse");
        assert_eq!(doc.value(), &sample(), "indent {indent:?}");
    }
}

#[test]
fn json_reads_back_as_deep_as_the_reader_goes() {
    let mut value = Value::Int(1);
    for _ in 0..127 {
        value = Value::Array(vec![value]);
    }
    let bytes = written(&Json, value.clone(), FormatTag::Json, &options(Some(0)));
    assert_eq!(Json.parse(&bytes).expect("parse").value(), &value);
    let deeper = Value::Array(vec![value]);
    let bytes = written(&Json, deeper, FormatTag::Json, &options(Some(0)));
    assert!(Json.parse(&bytes).is_err());
}

#[test]
fn json_lines_read_back() {
    let items = Value::Array(vec![sample(), Value::Null, text("a\nb"), Value::Int(7)]);
    let bytes = written(&Jsonl, items.clone(), FormatTag::Jsonl, &options(None));
    assert_eq!(bytes.iter().filter(|b| **b == b'\n').count(), 4);
    assert_eq!(Jsonl.parse(&bytes).expect("parse").value(), &items);
    let nothing = written(&Jsonl, Value::Array(Vec::new()), FormatTag::Jsonl, &options(None));
    assert_eq!(Jsonl.parse(&nothing).expect("parse").value(), &Value::Array(Vec::new()));
}

#[test]
fn tables_read_back() {
    let row = |a: &str, b: &str, c: &str| object(vec![("a", text(a)), ("b\"c,d\te", text(b)), ("", text(c))]);
    let items = Value::Array(vec![
        row("plain", "", " blanks "),
        row("quo\"te", "com,ma", "ta\tb"),
        row("line\nbreak", "car\r\nriage", "\r"),
        row("", "", ""),
        row("\u{feff}mark", "é漢😀", "\u{0}"),
    ]);
    let bytes = written(&Csv, items.clone(), FormatTag::Csv, &options(None));
    assert_eq!(Csv.parse(&bytes).expect("parse").value(), &items);
    let bytes = written(&Tsv, items.clone(), FormatTag::Tsv, &options(None));
    assert_eq!(Tsv.parse(&bytes).expect("parse").value(), &items);
    let single = Value::Array(vec![object(vec![("", text(""))]), object(vec![("", text("x"))])]);
    let bytes = written(&Csv, single.clone(), FormatTag::Csv, &options(None));
    assert_eq!(bytes, b"\"\"\n\"\"\nx\n");
    assert_eq!(Csv.parse(&bytes).expect("parse").value(), &single);
    let nothing = Value::Array(Vec::new());
    let bytes = written(&Csv, nothing.clone(), FormatTag::Csv, &options(None));
    assert_eq!(Csv.parse(&bytes).expect("parse").value(), &nothing);
}

#[test]
fn a_table_whose_header_starts_with_a_mark_is_the_exception() {
    let items = Value::Array(vec![object(vec![("\u{feff}a", text("1"))])]);
    let bytes = written(&Csv, items.clone(), FormatTag::Csv, &options(None));
    let read = Csv.parse(&bytes).expect("parse");
    assert_eq!(read.value(), &Value::Array(vec![object(vec![("a", text("1"))])]));
}

#[test]
fn xml_reads_back() {
    let leaf = object(vec![
        ("@attrs", object(vec![("k", text("<&>'\" v")), ("x:y", text("")), ("é", text("a=b/c?"))])),
        ("#text", text(" a < b && \"c\" 'd' > e ")),
        ("#cdata", texts(&["x]]y", "]", "<raw/>", ""])),
        ("#pi", texts(&["target data?", "xmlish a"])),
        ("#comments", texts(&[" one - two ", "--", ""])),
    ]);
    let mixed = object(vec![
        ("#text", text("before & after")),
        ("b", Value::Array(vec![object(Vec::new()), object(vec![("#text", text("in"))])])),
    ]);
    let root = object(vec![
        ("@attrs", object(vec![("id", text("1"))])),
        ("#comments", texts(&["above"])),
        ("leaf", Value::Array(vec![leaf, object(Vec::new())])),
        ("p", Value::Array(vec![mixed])),
    ]);
    let document = object(vec![
        ("#xml", object(vec![("version", text("1.0")), ("encoding", text("UTF-8")), ("standalone", text("yes"))])),
        ("#pi", texts(&["style href='a'"])),
        ("#comments", texts(&["top"])),
        ("root", Value::Array(vec![root])),
    ]);
    let bytes = written(&Xml, document.clone(), FormatTag::Xml, &options(None));
    let read = Xml.parse(&bytes).expect("parse");
    assert_eq!(read.value(), &document);
    let again = written(&Xml, read.value().clone(), FormatTag::Xml, &options(None));
    assert_eq!(again, bytes);
}

#[test]
fn a_document_that_was_read_is_written_to_the_same_value() {
    let source = "<?xml version=\"1.0\"?><a>\n  <b c='&lt;&#65;'>x &amp; y</b>\n  <d><![CDATA[1 < 2]]></d>\n  <b/>\n</a>";
    let first = Xml.parse(source.as_bytes()).expect("parse").value().clone();
    let bytes = written(&Xml, first.clone(), FormatTag::Xml, &options(None));
    assert_eq!(Xml.parse(&bytes).expect("parse").value(), &first);
}

#[test]
fn a_comment_is_written_as_it_was_read() {
    let source = "<a><!-- x & y < z --></a>";
    let first = Xml.parse(source.as_bytes()).expect("parse").value().clone();
    let bytes = written(&Xml, first.clone(), FormatTag::Xml, &options(None));
    assert_eq!(String::from_utf8(bytes.clone()).expect("UTF-8"), source);
    assert_eq!(Xml.parse(&bytes).expect("parse").value(), &first);
}

#[test]
fn a_comment_that_would_end_early_is_the_exception() {
    let comments = object(vec![("#comments", texts(&["x --> y"]))]);
    let document = object(vec![("a", Value::Array(vec![comments]))]);
    let bytes = written(&Xml, document, FormatTag::Xml, &options(None));
    assert_eq!(String::from_utf8(bytes).expect("UTF-8"), "<a><!--x --&gt; y--></a>");
}

#[test]
fn ini_sections_read_back() {
    let value = object(vec![
        ("", object(vec![("top level", text("x = y; z # w"))])),
        ("a section", object(vec![("k", text("")), ("é漢", text("it's \"quoted\" 😀"))])),
        ("[odd", object(vec![("-", text("1"))])),
    ]);
    let bytes = written(&Ini, value.clone(), FormatTag::Ini, &options(None));
    assert_eq!(
        String::from_utf8(bytes.clone()).expect("UTF-8"),
        "top level=x = y; z # w\n\n[a section]\nk=\né漢=it's \"quoted\" 😀\n\n[[odd]\n-=1\n",
    );
    assert_eq!(Ini.parse(&bytes).expect("parse").value(), &value);
    let unnamed = object(vec![("s", object(vec![("k", text("v"))]))]);
    let bytes = written(&Ini, unnamed.clone(), FormatTag::Ini, &options(None));
    assert_eq!(Ini.parse(&bytes).expect("parse").value(), &unnamed);
    let nothing = object(Vec::new());
    let bytes = written(&Ini, nothing.clone(), FormatTag::Ini, &options(None));
    assert_eq!(Ini.parse(&bytes).expect("parse").value(), &nothing);
}

#[test]
fn an_ini_value_in_quotes_is_the_exception() {
    let value = object(vec![("s", object(vec![("k", text("\"v\""))]))]);
    let bytes = written(&Ini, value, FormatTag::Ini, &options(None));
    let read = Ini.parse(&bytes).expect("parse");
    assert_eq!(read.value(), &object(vec![("s", object(vec![("k", text("v"))]))]));
}

#[test]
fn yaml_reads_back() {
    let words = ["", "a", "true", "Null", "NO", "12", "007", "1e3", "0x1F", "1.5", "2001-01-01", "a - b", "x  y", "a/b.c_d-e"];
    let mut deep = Value::Int(i64::MAX);
    for i in 0..99 {
        deep = if i % 2 == 0 { Value::Array(vec![deep]) } else { object(vec![("k 1", deep)]) };
    }
    let value = object(vec![
        ("words", Value::Array(words.iter().map(|w| text(w)).collect())),
        ("true", Value::Bool(false)),
        ("12", Value::Int(i64::MIN)),
        ("", Value::Null),
        ("empty list", Value::Array(Vec::new())),
        ("empty map", object(Vec::new())),
        ("list", Value::Array(vec![Value::Array(vec![Value::Int(0)]), object(vec![("one", Value::Null)])])),
        ("deep", deep),
        (&"long key ".repeat(200)[..1799], text("v")),
    ]);
    let bytes = written(&Yaml, value.clone(), FormatTag::Yaml, &options(None));
    assert_eq!(Yaml.parse(&bytes).expect("parse").value(), &value);
    for scalar in [Value::Null, Value::Bool(true), Value::Int(-1), text("null"), text("plain"), text("")] {
        let bytes = written(&Yaml, scalar.clone(), FormatTag::Yaml, &options(None));
        assert_eq!(Yaml.parse(&bytes).expect("parse").value(), &scalar);
    }
}

#[test]
fn a_number_beyond_64_bits_in_yaml_is_the_exception() {
    let value = object(vec![("n", Value::BigInt("123456789012345678901234567890".to_owned()))]);
    let bytes = written(&Yaml, value, FormatTag::Yaml, &options(None));
    let read = Yaml.parse(&bytes).expect("parse");
    assert_eq!(read.value(), &object(vec![("n", text("123456789012345678901234567890"))]));
}

fn nested(levels: usize, lists: bool) -> Value {
    let mut value = Value::Int(7);
    for _ in 0..levels {
        value = if lists { Value::Array(vec![value]) } else { object(vec![("k", value)]) };
    }
    value
}

#[test]
fn toml_reads_back() {
    let words = [
        "", "a b", "it's", "say \"hi\"", "it's \"both\"", "back\\slash", "it's a \\", "two\nlines",
        "\nfirst", "\"\"\"", "'''", "''\\''", "'\"\"\"\"\"\"", "ends \"\"\n\"\"", "ends ''\n\\''",
        "\\\n \\ \n", "\t\r\n\u{0}\u{7f}\u{80}", "é漢😀\u{feff}",
    ];
    let value = object(vec![
        ("zeta", Value::Int(i64::MIN)),
        (
            "table",
            object(vec![
                ("inner", object(vec![("x", Value::Int(1))])),
                ("value", Value::Bool(true)),
                ("none", object(Vec::new())),
            ]),
        ),
        ("words", texts(&words)),
        (
            "tables",
            Value::Array(vec![
                object(vec![("a", Value::Int(1)), ("sub", object(vec![("b", Value::Int(2))]))]),
                object(Vec::new()),
                object(vec![("list", Value::Array(vec![object(vec![("c", text("d"))])]))]),
            ]),
        ),
        (
            "mixed",
            Value::Array(vec![
                Value::Int(0),
                object(vec![("l", Value::Array(vec![Value::Int(1), Value::Int(2)]))]),
                Value::Array(vec![Value::Array(Vec::new()), object(Vec::new())]),
            ]),
        ),
        ("only below", object(vec![("deeper", object(vec![("deepest", object(Vec::new()))]))])),
        ("a.b", text("dotted")),
        ("q'\"\\\n\u{1}", Value::Int(i64::MAX)),
        ("\u{feff}", Value::Array(Vec::new())),
        ("alpha", Value::Bool(false)),
    ]);
    let none = object(Vec::new());
    let lists = object(vec![("v", nested(79, true))]);
    for document in [value, none, lists, nested(80, false)] {
        let bytes = written(&Toml, document.clone(), FormatTag::Toml, &options(None));
        assert_eq!(Toml.parse(&bytes).expect("parse").value(), &document);
    }
}

#[test]
fn toml_behind_an_empty_key_is_read_but_not_pointed_at() {
    let value = object(vec![("", Value::Int(1))]);
    let bytes = written(&Toml, value.clone(), FormatTag::Toml, &options(None));
    assert_eq!(parse_toml_with_spans(&bytes).expect("parse").0, value);
    assert!(Toml.parse_checked(&bytes).is_none());
}

#[test]
fn toml_deeper_than_the_reader_goes_is_the_exception() {
    let lists = object(vec![("v", nested(80, true))]);
    let bytes = written(&Toml, lists, FormatTag::Toml, &options(None));
    assert!(Toml.parse(&bytes).is_err());
}

#[test]
fn hcl_reads_back() {
    let words = [
        "", "plain", "it's \"quoted\"", "back\\slash\\", "two\nlines\r\n\t", "\u{0}\u{1f}\u{7f}\u{80}", "é漢😀",
        "${name}", "a ${b} %{c} d", "$", "$$", "$%$ {", "100%", "{", "a$", "${", "null", "true", "12", "for x in y",
    ];
    let value = object(vec![
        ("words", texts(&words)),
        ("null", Value::Null),
        ("for", Value::Bool(true)),
        ("_low-1", Value::Int(i64::MIN)),
        ("High", Value::Int(i64::MAX)),
        ("empty_list", Value::Array(Vec::new())),
        ("empty_map", object(Vec::new())),
        (
            "map",
            object(vec![
                ("for", Value::Int(-1)),
                ("null", Value::Null),
                ("", text("empty")),
                ("a.b ${c}", Value::Array(vec![Value::Int(0), object(vec![("x", Value::Bool(false))])])),
                ("list", Value::Array(vec![Value::Array(vec![Value::Array(Vec::new())]), Value::Int(-5)])),
            ]),
        ),
        ("after", Value::Int(-7)),
        ("lists", nested(64, true)),
        ("maps", nested(64, false)),
    ]);
    for document in [value, object(Vec::new())] {
        let bytes = written(&Hcl, document.clone(), FormatTag::Hcl, &options(None));
        assert_eq!(Hcl.parse(&bytes).expect("parse").value(), &document);
    }
}

#[test]
fn hcl_exceptions() {
    let doubled = object(vec![("t", text("${a} $${b}"))]);
    let bytes = written(&Hcl, doubled, FormatTag::Hcl, &options(None));
    let read = Hcl.parse(&bytes).expect("parse");
    assert_eq!(read.value(), &object(vec![("t", text("${a} ${b}"))]));
    let deep = object(vec![("lists", nested(65, true))]);
    let bytes = written(&Hcl, deep, FormatTag::Hcl, &options(None));
    assert!(Hcl.parse(&bytes).is_err());
    let unnamed = Document::value_only(object(vec![("not a name", Value::Int(1))]), FormatTag::Hcl);
    let mut out: Vec<u8> = Vec::new();
    assert!(Hcl.write(&unnamed, &mut out).is_err());
}

#[test]
fn headers_read_back_with_their_body() {
    let header = object(vec![
        ("title", text("a title")),
        ("tags", texts(&["one", "two"])),
        ("nested", object(vec![("draft", Value::Bool(true)), ("n", Value::Int(3))])),
    ]);
    let braces = object(vec![("}{\"", text("\\\" } \n{")), ("inner", object(vec![("{", object(Vec::new()))]))]);
    let bodies: [&[u8]; 5] = [b"", b"\n", b"---\n+++\n# Title\n", b"{}\n\n", b"\xff\r\n"];
    for (kind, value) in [
        (FrontmatterKind::Yaml, &header),
        (FrontmatterKind::Toml, &header),
        (FrontmatterKind::Json, &header),
        (FrontmatterKind::Json, &braces),
        (FrontmatterKind::Toml, &braces),
    ] {
        for body in bodies {
            let doc = Document::frontmatter(value.clone(), body.to_vec(), kind);
            let mut out: Vec<u8> = Vec::new();
            Frontmatter.write(&doc, &mut out).expect("write");
            let read = Frontmatter.parse(&out).expect("parse");
            assert_eq!(read.value(), value);
            let payload = read.frontmatter_payload().expect("payload");
            assert_eq!(payload.kind, kind);
            assert_eq!(payload.body.as_slice(), body);
        }
    }
}

#[test]
fn a_header_that_holds_its_marker_is_the_exception() {
    let value = object(vec![("text", text("a\n+++\nb"))]);
    let doc = Document::frontmatter(value.clone(), b"body".to_vec(), FrontmatterKind::Toml);
    let mut out: Vec<u8> = Vec::new();
    Frontmatter.write(&doc, &mut out).expect("write");
    match Frontmatter.parse(&out) {
        Ok(read) => assert_ne!(read.value(), &value),
        Err(_) => {}
    }
}
