use dq_core::dispatch::{parse_as, write_as};
use dq_core::format::registry;
use dq_core::parsers::csv::{Csv, Tsv};
use dq_core::parsers::dotenv::DotEnv;
use dq_core::parsers::frontmatter::{find_header, Frontmatter};
use dq_core::parsers::hcl::Hcl;
use dq_core::parsers::json::Json;
use dq_core::parsers::jsonl::Jsonl;
use dq_core::parsers::markdown::Markdown;
use dq_core::parsers::merging::place_under;
use dq_core::parsers::toml::Toml;
use dq_core::parsers::xml::Xml;
use dq_core::parsers::xml_read::{parse_xml, XmlNote};
use dq_core::parsers::yaml::Yaml;
use dq_core::template_guard::{restore_placeholders, substitute_placeholders};
use dq_core::{
    by_name, canonicalize_keys, Document, Error, Format, FormatTag, FrontmatterKind, Value,
    ValueMap, WriteOptions,
};

fn tree(text: &str) -> Value {
    Json.parse(text.as_bytes()).expect("JSON parses").value().clone()
}

fn written<F: Format>(format: F, doc: &Document) -> String {
    let mut out: Vec<u8> = Vec::new();
    format.write(doc, &mut out).expect("write");
    String::from_utf8(out).expect("UTF-8")
}

fn keys(value: &Value) -> Vec<&str> {
    match value {
        Value::Object(m) => m.entries.iter().map(|(k, _)| k.as_str()).collect(),
        other => panic!("expected an object, got {other:?}"),
    }
}

#[test]
fn masking_is_undone() {
    for source in [
        "plain: text\n",
        "a: {{ x }}{{- y }}\nb: \"${{ z }}\"\n",
        "é: {{ ü }} — {{ \"ß\" }}\n",
        "_{{ a }}_ __{{ b }}__\n",
    ] {
        let (masked, list) = substitute_placeholders(source.as_bytes());
        assert_eq!(restore_placeholders(&masked, &list), source.as_bytes());
    }
}

#[test]
fn many_expressions_are_masked_and_put_back() {
    let mut source = String::new();
    for i in 0..12 {
        source.push_str(&format!("k{i}: {{{{ v{i} }}}}\n"));
    }
    let (masked, list) = substitute_placeholders(source.as_bytes());
    assert_eq!(list.len(), 12);
    let shown = String::from_utf8(masked.clone()).expect("UTF-8");
    assert!(shown.contains("k11: __DQ_TPL_11__\n"));
    assert_eq!(restore_placeholders(&masked, &list), source.as_bytes());
}

#[test]
fn a_source_that_spells_a_placeholder_does_not_come_back() {
    let source = b"a: __DQ_TPL_0__\nb: {{ x }}\n";
    let (masked, list) = substitute_placeholders(source);
    assert_ne!(restore_placeholders(&masked, &list), source);
}

#[test]
fn written_env_reads_back_with_texts() {
    let mut map = ValueMap::new();
    map.insert("PLAIN".into(), Value::String("value".into()));
    map.insert("SPACED".into(), Value::String(" two  words ".into()));
    map.insert("HARD".into(), Value::String("a\"b\\c\n\t#=$'".into()));
    map.insert("EMPTY".into(), Value::String(String::new()));
    map.insert("NUMBER".into(), Value::Int(-7));
    map.insert("TRUTH".into(), Value::Bool(true));
    let doc = Document::value_only(Value::Object(map), FormatTag::DotEnv);
    let text = written(DotEnv, &doc);
    assert!(text.starts_with("PLAIN=value\nSPACED=\" two  words \"\n"));
    let again = DotEnv.parse(text.as_bytes()).expect("parse");
    assert_eq!(
        again.value(),
        &tree(
            "{\"PLAIN\":\"value\",\"SPACED\":\" two  words \",\"HARD\":\"a\\\"b\\\\c\\n\\t#=$'\",\
             \"EMPTY\":\"\",\"NUMBER\":\"-7\",\"TRUTH\":\"true\"}"
        )
    );
    assert_eq!(keys(again.value()), vec!["PLAIN", "SPACED", "HARD", "EMPTY", "NUMBER", "TRUTH"]);
}

#[test]
fn an_env_value_with_a_leading_single_quote_is_the_exception() {
    let mut map = ValueMap::new();
    map.insert("Q".into(), Value::String("'x".into()));
    let doc = Document::value_only(Value::Object(map), FormatTag::DotEnv);
    assert!(DotEnv.parse(written(DotEnv, &doc).as_bytes()).is_err());
}

#[test]
fn env_mistakes_are_placed() {
    match DotEnv.parse(b"OK=1\nBROKEN\n") {
        Err(Error::Parse { line, col, snippet, message, .. }) => {
            assert_eq!((line, col), (2, 1));
            assert_eq!(snippet, "BROKEN");
            assert_eq!(message, "expected `KEY=VALUE` in .env line");
        }
        other => panic!("expected a parse error, got {other:?}"),
    }
    assert!(DotEnv.parse(b"=1\n").is_err());
    assert!(DotEnv.parse(b"A=\"open\n").is_err());
}

#[test]
fn children_stand_in_lists_in_document_order() {
    let (value, notes) = parse_xml(b"<r a=\"1\"><x>1</x><y/><x>2</x><!--c--></r>").expect("XML");
    assert!(notes.is_empty());
    assert_eq!(
        value,
        tree(
            "{\"r\":[{\"@attrs\":{\"a\":\"1\"},\"#comments\":[\"c\"],\
             \"x\":[{\"#text\":\"1\"},{\"#text\":\"2\"}],\"y\":[{}]}]}"
        )
    );
}

#[test]
fn mixed_content_and_a_doctype_are_noted() {
    let (_, notes) = parse_xml(b"<!DOCTYPE r><r>t<x/></r>").expect("XML");
    assert_eq!(notes.len(), 2);
    assert!(notes.iter().any(|n| matches!(n, XmlNote::Doctype)));
    assert!(notes.iter().any(|n| matches!(n, XmlNote::MixedContent(path) if path == "/r")));
}

#[test]
fn xml_entities_are_read_and_written() {
    let (value, _) = parse_xml(b"<r a=\"&lt;&quot;\">&amp;&#65;&lt;</r>").expect("XML");
    assert_eq!(value, tree("{\"r\":[{\"@attrs\":{\"a\":\"<\\\"\"},\"#text\":\"&A<\"}]}"));
    let doc = Document::value_only(value.clone(), FormatTag::Xml);
    let text = written(Xml, &doc);
    assert!(text.contains("&amp;A&lt;"), "{text}");
    assert_eq!(parse_xml(text.as_bytes()).expect("again").0, value);
}

#[test]
fn xml_keeps_its_declaration_instructions_and_cdata() {
    let source = b"<?xml version=\"1.0\" encoding=\"UTF-8\"?><?pi data?><r><![CDATA[a<b]]></r>";
    let (value, _) = parse_xml(source).expect("XML");
    assert_eq!(
        value,
        tree(
            "{\"#xml\":{\"version\":\"1.0\",\"encoding\":\"UTF-8\"},\"#pi\":[\"pi data\"],\
             \"r\":[{\"#cdata\":[\"a<b\"]}]}"
        )
    );
    let text = written(Xml, &Document::value_only(value.clone(), FormatTag::Xml));
    assert_eq!(parse_xml(text.as_bytes()).expect("again").0, value);
}

#[test]
fn the_body_behind_a_header_is_kept() {
    let cases: [(&[u8], FrontmatterKind); 3] = [
        (b"---\na: 1\n---\nbody\n\x00\xff", FrontmatterKind::Yaml),
        (b"+++\na = 1\n+++\nbody\n", FrontmatterKind::Toml),
        (b"{\"a\": 1}\n\nbody\n", FrontmatterKind::Json),
    ];
    for (source, kind) in cases {
        let (found, header, body) = find_header(source).expect("header");
        assert_eq!(found, kind);
        assert!(!header.is_empty());
        let doc = Frontmatter.parse(source).expect("parse");
        let payload = doc.frontmatter_payload().expect("payload");
        assert_eq!(payload.kind, kind);
        assert_eq!(payload.body, body);
        let mut out: Vec<u8> = Vec::new();
        Frontmatter.write(&doc, &mut out).expect("write");
        assert!(out.ends_with(body));
        assert_eq!(Frontmatter.parse(&out).expect("again").value(), doc.value());
    }
}

#[test]
fn unchanged_markdown_is_written_verbatim() {
    let source = b"---\nt: 1\n---\n# Title\n\n* a\n* b   \n\n`code`\n";
    let doc = Markdown.parse(source).expect("parse");
    let mut out: Vec<u8> = Vec::new();
    Markdown.write(&doc, &mut out).expect("write");
    assert_eq!(out, source);
}

#[test]
fn numbers_keep_their_digits() {
    let doc = Json
        .parse(b"[9223372036854775807, 9223372036854775808, -1, 0.5, 1e+400]")
        .expect("parse");
    assert_eq!(
        doc.value(),
        &Value::Array(vec![
            Value::Int(i64::MAX),
            Value::BigInt("9223372036854775808".into()),
            Value::Int(-1),
            Value::Float("0.5".into()),
            Value::BigFloat("1e+400".into()),
        ])
    );
    let bare = Document::value_only(doc.value().clone(), FormatTag::Json);
    let mut out: Vec<u8> = Vec::new();
    let opts = WriteOptions { sort_keys: false, indent: Some(0) };
    Json.write_with_options(&bare, &mut out, &opts).expect("write");
    assert_eq!(out, b"[9223372036854775807,9223372036854775808,-1,0.5,1e+400]");
}

#[test]
fn a_literal_survives_the_way_to_json() {
    let big = Value::BigInt("123456789012345678901234567890".into());
    assert_eq!(big.bridge_to_json(), big);
    assert_eq!(
        Value::BigInt("0x1F".into()).bridge_to_json(),
        Value::String("0x1F".into())
    );
    assert_eq!(Value::Float("inf".into()).bridge_to_json(), Value::String("inf".into()));
}

#[test]
fn sorted_keys_are_a_permutation_in_order() {
    let value = tree("{\"b\":{\"z\":1,\"a\":2},\"a\":[{\"y\":0,\"x\":0}],\"B\":null}");
    let sorted = canonicalize_keys(&value);
    assert_eq!(keys(&sorted), vec!["B", "a", "b"]);
    assert_eq!(sorted, value);
    assert_eq!(keys(&canonicalize_keys(&sorted)), keys(&sorted));
    let doc = Document::value_only(value, FormatTag::Json);
    let mut out: Vec<u8> = Vec::new();
    let opts = WriteOptions { sort_keys: true, indent: Some(0) };
    Json.write_with_options(&doc, &mut out, &opts).expect("write");
    assert_eq!(out, b"{\"B\":null,\"a\":[{\"x\":0,\"y\":0}],\"b\":{\"a\":2,\"z\":1}}");
}

#[test]
fn no_options_change_nothing() {
    let value = tree("{\"b\":\"x\",\"a\":\"y\"}");
    for tag in registry() {
        let doc = Document::value_only(value.clone(), tag);
        let mut plain: Vec<u8> = Vec::new();
        let mut opted: Vec<u8> = Vec::new();
        let by_options = write_as(tag, &doc, &mut opted, &WriteOptions::default());
        let by_writer = match tag {
            FormatTag::Json => Json.write(&doc, &mut plain),
            FormatTag::Yaml => Yaml.write(&doc, &mut plain),
            FormatTag::Toml => Toml.write(&doc, &mut plain),
            FormatTag::DotEnv => DotEnv.write(&doc, &mut plain),
            FormatTag::Hcl => Hcl.write(&doc, &mut plain),
            _ => continue,
        };
        assert!(by_options.is_ok() && by_writer.is_ok());
        assert_eq!(plain, opted, "{}", tag.name());
    }
}

#[test]
fn every_format_is_registered_and_found_by_its_name() {
    let all = registry();
    assert_eq!(all.len(), 14);
    for tag in &all {
        assert_eq!(by_name(tag.name()), Some(*tag));
        assert_eq!(FormatTag::from_name(tag.name()), Some(*tag));
    }
    for (i, a) in all.iter().enumerate() {
        for b in &all[i + 1..] {
            assert_ne!(a.name(), b.name());
        }
    }
}

#[test]
fn what_was_placed_is_found() {
    let mut top = ValueMap::new();
    let path = vec!["block".to_owned(), "label".to_owned()];
    place_under(&mut top, &path, 0, tree("{\"k\":1}"));
    assert_eq!(Value::Object(top), tree("{\"block\":{\"label\":{\"k\":1}}}"));
}

#[test]
fn equality_passes_over_the_order_of_keys() {
    let a = tree("{\"x\":1,\"y\":[1,2]}");
    let b = tree("{\"y\":[1,2],\"x\":1}");
    assert_eq!(a, a.clone());
    assert_eq!(a, b);
    assert_ne!(a, tree("{\"x\":1,\"y\":[2,1]}"));
    let nan = Value::Float("NaN".into());
    assert_ne!(nan, nan.clone());
    assert_eq!(Value::Float("0".into()), Value::Float("-0".into()));
}

#[test]
fn an_empty_key_is_not_taken_by_the_formats_with_spans() {
    assert!(parse_as(FormatTag::Json, b"{\"\":1}").is_none());
    assert!(parse_as(FormatTag::Toml, b"\"\" = 1\n").is_none());
    assert!(parse_as(FormatTag::Json, b"{\"a\":1}").is_some());
}

#[test]
fn tables_with_delimiters_are_read_and_written() {
    let doc = Csv.parse(b"name,note\n\"a, b\",\"say \"\"hi\"\"\"\nc,\n").expect("parse");
    assert_eq!(
        doc.value(),
        &tree("[{\"name\":\"a, b\",\"note\":\"say \\\"hi\\\"\"},{\"name\":\"c\",\"note\":\"\"}]")
    );
    assert_eq!(written(Csv, &doc), "name,note\n\"a, b\",\"say \"\"hi\"\"\"\nc,\n");
    let tabbed = Document::value_only(doc.value().clone(), FormatTag::Tsv);
    assert_eq!(written(Tsv, &tabbed), "name\tnote\na, b\t\"say \"\"hi\"\"\"\nc\t\n");
}

#[test]
fn yaml_streams_and_tags_are_read() {
    let doc = Yaml
        .parse(b"a: &x [1, 2.5, ~]\nb: *x\n---\nbig: 18446744073709551616\n")
        .expect("parse");
    let documents = doc.values().expect("a stream");
    assert_eq!(documents.len(), 2);
    assert_eq!(documents[0], tree("{\"a\":[1,2.5,null],\"b\":[1,2.5,null]}"));
    let text = written(Yaml, &doc);
    assert_eq!(Yaml.parse(text.as_bytes()).expect("again").values().expect("stream").len(), 2);
}

#[test]
fn toml_dates_and_tables_are_read_and_bare_values_written() {
    let doc = Toml
        .parse(b"when = 1979-05-27\nf = 2.0\n[[t]]\nx = true\n[[t]]\nx = false\n")
        .expect("parse");
    assert_eq!(
        doc.value(),
        &tree("{\"when\":\"1979-05-27\",\"f\":2.0,\"t\":[{\"x\":true},{\"x\":false}]}")
    );
    let bare = Document::value_only(tree("{\"a\":1,\"b\":[\"x\"]}"), FormatTag::Toml);
    let text = written(Toml, &bare);
    assert_eq!(Toml.parse(text.as_bytes()).expect("again").value(), bare.value());
    let null = Document::value_only(tree("{\"a\":null}"), FormatTag::Toml);
    let mut out: Vec<u8> = Vec::new();
    assert!(matches!(
        Toml.write(&null, &mut out),
        Err(Error::Format { format: "toml", .. })
    ));
}

#[test]
fn lines_of_json_are_read_and_written() {
    let doc = Jsonl.parse(b"{\"a\":1}\n\n[2]\n").expect("parse");
    assert_eq!(doc.value(), &tree("[{\"a\":1},[2]]"));
    assert_eq!(written(Jsonl, &doc), "{\"a\":1}\n[2]\n");
    match Jsonl.parse(b"{\"a\":1}\n{oops}\n") {
        Err(Error::Parse { line, .. }) => assert_eq!(line, 2),
        other => panic!("expected a parse error, got {other:?}"),
    }
}

#[test]
fn hcl_blocks_nest_and_merge() {
    let doc = Hcl
        .parse(b"r \"a\" \"x\" { n = 1 }\nr \"a\" \"y\" { n = 2.5 }\nlist = [true, null]\n")
        .expect("parse");
    assert_eq!(
        doc.value(),
        &tree("{\"r\":{\"a\":{\"x\":{\"n\":1},\"y\":{\"n\":2.5}}},\"list\":[true,null]}")
    );
    let text = written(Hcl, &Document::value_only(tree("{\"k\":\"v\"}"), FormatTag::Hcl));
    assert_eq!(text, "k = \"v\"\n");
}
