use dq_core::{Error, Format, Value, ValueMap};
use dq_core::parsers::xml::Xml;
use dq_core::parsers::xml_read::parse_xml;
use dq_core::parsers::xml_write::render_xml;

const KEY_XML_DECL: &str = "#xml";
const KEY_ATTRS: &str = "@attrs";
const KEY_TEXT: &str = "#text";
const KEY_CDATA: &str = "#cdata";
const KEY_COMMENTS: &str = "#comments";

fn parse(s: &str) -> Value {
    parse_xml(s.as_bytes()).expect("parse xml").0
}

fn render(v: &Value) -> String {
    let bytes = render_xml(v).expect("render xml");
    String::from_utf8(bytes).expect("utf-8")
}

fn root_element_body<'a>(v: &'a Value, tag: &str) -> &'a ValueMap {
    let Value::Object(top) = v else {
        panic!("expected top map")
    };
    let Some(Value::Array(items)) = top.get(tag) else {
        panic!("expected /{tag} array")
    };
    let Value::Object(body) = items.first().expect("at least one") else {
        panic!("expected element map")
    };
    body
}

#[test]
fn parse_element_with_attribute_and_text() {
    let v = parse("<user id=\"42\"><name>Alice</name></user>");
    let user = root_element_body(&v, "user");
    let Some(Value::Object(attrs)) = user.get(KEY_ATTRS) else {
        panic!("missing @attrs")
    };
    assert_eq!(attrs.get("id"), Some(&Value::String("42".into())));
    let Some(Value::Array(names)) = user.get("name") else {
        panic!("missing name array")
    };
    let Value::Object(name) = &names[0] else {
        panic!("expected name map")
    };
    assert_eq!(name.get(KEY_TEXT), Some(&Value::String("Alice".into())));
}

#[test]
fn parse_multi_child_same_tag_preserves_order() {
    let v = parse("<list><item>A</item><item>B</item><item>C</item></list>");
    let list = root_element_body(&v, "list");
    let Some(Value::Array(items)) = list.get("item") else {
        panic!("missing item array")
    };
    assert_eq!(items.len(), 3);
    let extract_text = |idx: usize| {
        let Value::Object(m) = &items[idx] else { panic!() };
        match m.get(KEY_TEXT) {
            Some(Value::String(s)) => s.clone(),
            _ => panic!("missing #text"),
        }
    };
    assert_eq!(extract_text(0), "A");
    assert_eq!(extract_text(1), "B");
    assert_eq!(extract_text(2), "C");
}

#[test]
fn parse_then_write_round_trip_attribute_and_text() {
    let v = parse("<user id=\"42\"><name>Alice</name></user>");
    let out = render(&v);
    let v2 = parse(&out);
    assert_eq!(v, v2, "round-trip must preserve the value tree");
}

#[test]
fn parse_xml_declaration_preserved() {
    let v = parse(r#"<?xml version="1.0" encoding="UTF-8"?><root/>"#);
    let Value::Object(top) = &v else { panic!() };
    let Some(Value::Object(decl)) = top.get(KEY_XML_DECL) else {
        panic!("missing #xml")
    };
    assert_eq!(decl.get("version"), Some(&Value::String("1.0".into())));
    assert_eq!(decl.get("encoding"), Some(&Value::String("UTF-8".into())));
    let out = render(&v);
    assert!(
        out.contains("<?xml") && out.contains("version=\"1.0\"") && out.contains("UTF-8"),
        "rendered output must contain the declaration; got: {out:?}",
    );
}

#[test]
fn parse_comment_is_attached_to_parent() {
    let v = parse("<root><!-- top note --><a/></root>");
    let root = root_element_body(&v, "root");
    let Some(Value::Array(comments)) = root.get(KEY_COMMENTS) else {
        panic!("missing #comments")
    };
    assert_eq!(comments.len(), 1);
    assert_eq!(comments[0], Value::String(" top note ".to_owned()));
    let out = render(&v);
    assert!(
        out.contains("<!-- top note -->"),
        "comment must round-trip; got: {out:?}",
    );
}

#[test]
fn parse_cdata_preserves_inner_bytes() {
    let v = parse("<script><![CDATA[if (a < b) {}]]></script>");
    let script = root_element_body(&v, "script");
    let Some(Value::Array(cdata)) = script.get(KEY_CDATA) else {
        panic!("missing #cdata")
    };
    assert_eq!(cdata.len(), 1);
    assert_eq!(cdata[0], Value::String("if (a < b) {}".to_owned()));
    let out = render(&v);
    assert!(
        out.contains("<![CDATA[if (a < b) {}]]>"),
        "cdata block must round-trip byte-identically inside; got: {out:?}",
    );
}

#[test]
fn parse_predefined_entity_references_are_resolved_into_text() {
    let v = parse("<msg>A &amp; B &lt; C &gt; D &quot;E&quot; &apos;F&apos;</msg>");
    let body = root_element_body(&v, "msg");
    let Some(Value::String(text)) = body.get(KEY_TEXT) else {
        panic!("expected #text on <msg>")
    };
    assert_eq!(
        text, "A & B < C > D \"E\" 'F'",
        "predefined entities must be resolved into the text body",
    );
}

#[test]
fn parse_numeric_character_reference_is_resolved() {
    let v = parse("<m>x&#48;y&#x30;z</m>");
    let body = root_element_body(&v, "m");
    let Some(Value::String(text)) = body.get(KEY_TEXT) else {
        panic!("expected #text on <m>")
    };
    assert_eq!(
        text, "x0y0z",
        "decimal and hex character refs must resolve to '0'",
    );
}

#[test]
fn parse_namespace_prefix_retained_verbatim() {
    let v = parse(r#"<svg:rect xmlns:svg="http://www.w3.org/2000/svg" width="10"/>"#);
    let rect = root_element_body(&v, "svg:rect");
    let Some(Value::Object(attrs)) = rect.get(KEY_ATTRS) else {
        panic!("missing @attrs")
    };
    assert!(
        attrs.contains_key("xmlns:svg"),
        "xmlns:svg attr must be retained verbatim",
    );
    assert_eq!(attrs.get("width"), Some(&Value::String("10".into())));
}

#[test]
fn parse_empty_element_round_trips_as_self_closing() {
    let v = parse("<root><a/></root>");
    let out = render(&v);
    assert!(
        out.contains("<a/>") || out.contains("<a />"),
        "empty element must round-trip as self-closing; got: {out:?}",
    );
}

#[test]
fn parse_invalid_xml_returns_parse_error() {
    let err = Xml
        .parse(b"<root><a></b></root>")
        .expect_err("malformed must surface as parse error");
    assert!(
        matches!(err, Error::Parse { .. }),
        "expected Error::Parse, got: {err:?}"
    );
    assert_eq!(err.kind_name(), "parse");
}

#[test]
fn write_top_level_non_map_is_format_error() {
    let v = Value::String("not a map".into());
    let err = render_xml(&v).expect_err("top-level non-map must reject");
    assert!(matches!(err, Error::Format { format: "xml", .. }));
}

#[test]
fn write_top_level_no_root_element_is_format_error() {
    let mut top = ValueMap::new();
    let mut decl = ValueMap::new();
    decl.insert("version".into(), Value::String("1.0".into()));
    top.insert(KEY_XML_DECL.into(), Value::Object(decl));
    let err = render_xml(&Value::Object(top)).expect_err("no root must reject");
    assert!(
        matches!(err, Error::Format { format: "xml", message } if message.contains("root")),
        "expected Error::Format mentioning 'root'",
    );
}

#[test]
fn parse_mixed_content_logs_warn_and_succeeds() {
    let v = parse("<p>Hello <b>world</b>!</p>");
    let p = root_element_body(&v, "p");
    let Some(Value::String(text)) = p.get(KEY_TEXT) else {
        panic!("expected #text on <p>")
    };
    assert!(
        text.contains("Hello") && text.contains("!"),
        "mixed-content text must be retained; got: {text:?}",
    );
    assert!(
        p.contains_key("b"),
        "inner <b> element must still be recorded"
    );
}

#[test]
fn write_xml_indents_nested_elements() {
    let v = parse("<a><b><c>v</c></b></a>");
    let out = render(&v);
    assert!(
        out.contains("\n  <b>"),
        "child `<b>` of root must be on its own line indented 2 spaces; got: {out:?}",
    );
    assert!(
        out.contains("\n    <c>v</c>"),
        "leaf `<c>` must sit one level deeper (4 spaces) and stay inline; got: {out:?}",
    );
    assert!(
        out.contains("\n  </b>"),
        "closing `</b>` must align with its opening tag at depth 1; got: {out:?}",
    );
    assert!(
        out.ends_with("</a>") || out.ends_with("</a>\n"),
        "root close must end the document; got: {out:?}",
    );
}

#[test]
fn write_xml_leaf_element_stays_inline() {
    let mut top = ValueMap::new();
    let mut leaf = ValueMap::new();
    leaf.insert(KEY_TEXT.to_owned(), Value::String("Alice".into()));
    top.insert("name".into(), Value::Array(vec![Value::Object(leaf)]));
    let out = render(&Value::Object(top));
    assert!(
        out.contains("<name>Alice</name>"),
        "leaf element must stay inline with no inter-tag whitespace; got: {out:?}",
    );
    assert!(
        !out.contains("\n  Alice") && !out.contains("Alice\n"),
        "no newline/indent must surround the leaf text body; got: {out:?}",
    );
}

#[test]
fn write_xml_root_with_two_children() {
    let v = parse("<list><item>A</item><item>B</item></list>");
    let out = render(&v);
    assert!(
        out.contains("\n  <item>A</item>"),
        "first child must start on a fresh line indented 2 spaces; got: {out:?}",
    );
    assert!(
        out.contains("\n  <item>B</item>"),
        "second child must start on a fresh line indented 2 spaces; got: {out:?}",
    );
    assert!(
        out.contains("\n</list>"),
        "closing `</list>` must sit on its own line at depth 0; got: {out:?}",
    );
}

#[test]
fn write_xml_mixed_attributes_and_children() {
    let v = parse(r#"<a id="1"><b/></a>"#);
    let out = render(&v);
    assert!(
        out.contains(r#"<a id="1">"#),
        "attribute must survive on the open tag; got: {out:?}",
    );
    assert!(
        out.contains("\n  <b/>") || out.contains("\n  <b />"),
        "self-closing child `<b/>` must be indented 2 spaces on its own line; got: {out:?}",
    );
    assert!(
        out.contains("\n</a>"),
        "closing `</a>` must be flush-left on its own line; got: {out:?}",
    );
}

#[test]
fn write_refuses_a_second_element_beside_the_root() {
    let mut top = ValueMap::new();
    top.insert("a".to_owned(), Value::Array(vec![Value::Object(ValueMap::new())]));
    top.insert("b".to_owned(), Value::Array(vec![Value::Object(ValueMap::new())]));
    match render_xml(&Value::Object(top)) {
        Err(Error::Format { format, message }) => {
            assert_eq!(format, "xml");
            assert_eq!(
                message,
                "XML write requires exactly one root element; top-level map also holds 'b'",
            );
        }
        other => panic!("expected a format error, got {other:?}"),
    }
}

#[test]
fn write_refuses_text_and_attributes_beside_the_root() {
    for key in [KEY_ATTRS, KEY_TEXT, KEY_CDATA, "stray"] {
        let mut top = ValueMap::new();
        top.insert("a".to_owned(), Value::Array(vec![Value::Object(ValueMap::new())]));
        top.insert(key.to_owned(), Value::String("x".to_owned()));
        assert!(matches!(render_xml(&Value::Object(top)), Err(Error::Format { .. })), "{key}");
    }
}

#[test]
fn write_keeps_comments_as_they_are() {
    let v = parse("<r><!-- a & b --></r>");
    assert_eq!(render(&v), "<r><!-- a & b --></r>");
    assert_eq!(parse(&render(&v)), v);
}
