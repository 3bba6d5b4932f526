use dq_core::{Format, FrontmatterKind, Value};
use dq_core::parsers::frontmatter::Frontmatter;

#[test]
fn parse_yaml_frontmatter_extracts_title_and_body() {
    let doc = Frontmatter
        .parse(b"---\ntitle: x\n---\n# body\n")
        .expect("parse");
    let Value::Object(m) = doc.value() else {
        panic!("expected map")
    };
    assert_eq!(m.get("title"), Some(&Value::String("x".into())));
    let payload = doc
        .frontmatter_payload()
        .expect("frontmatter payload present");
    assert_eq!(payload.kind, FrontmatterKind::Yaml);
    assert_eq!(payload.body, b"# body\n");
}

#[test]
fn parse_no_frontmatter_falls_back_to_empty_map_and_full_body() {
    let input = b"# Just markdown\n\nNo frontmatter here.\n";
    let doc = Frontmatter.parse(input).expect("parse");
    let Value::Object(m) = doc.value() else {
        panic!("expected empty map")
    };
    assert!(m.is_empty(), "fallback value must be empty map");
    let payload = doc
        .frontmatter_payload()
        .expect("frontmatter payload present");
    assert_eq!(payload.body, input);
}
