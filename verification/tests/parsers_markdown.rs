use dq_core::{Document, Error, Format, FormatTag, Value};
use dq_core::parsers::markdown::Markdown;
use dq_core::parsers::markdown_nodes::first_whitespace_token;

fn doc_children(doc: &Document) -> &[Value] {
    let Value::Object(m) = doc.value() else {
        panic!("expected document map, got {:?}", doc.value());
    };
    let Value::Array(items) = m.get("children").expect("children present") else {
        panic!("children should be an array");
    };
    items
}

fn node_type(v: &Value) -> &str {
    let Value::Object(m) = v else {
        panic!("expected node map");
    };
    let Value::String(s) = m.get("type").expect("type present") else {
        panic!("type should be a string");
    };
    s
}

fn field<'a>(v: &'a Value, key: &str) -> &'a Value {
    let Value::Object(m) = v else {
        panic!("expected node map");
    };
    m.get(key).unwrap_or_else(|| panic!("field {key} missing"))
}

#[test]
fn parse_empty_input_produces_document_with_no_children() {
    let doc = Markdown.parse(b"").expect("parse empty");
    let Value::Object(m) = doc.value() else {
        panic!("expected document map");
    };
    assert_eq!(m.get("type"), Some(&Value::String("document".into())));
    assert_eq!(m.get("frontmatter"), Some(&Value::Null));
    let Value::Array(children) = m.get("children").unwrap() else {
        panic!("children")
    };
    assert!(children.is_empty(), "empty input → no children");
}

#[test]
fn parse_single_h1_emits_heading_node_with_level_1() {
    let doc = Markdown.parse(b"# Hello\n").expect("parse");
    let children = doc_children(&doc);
    assert_eq!(children.len(), 1, "one block child");
    let h = &children[0];
    assert_eq!(node_type(h), "heading");
    assert_eq!(field(h, "level"), &Value::Int(1));
}

#[test]
fn parse_all_six_heading_levels_each_carries_correct_level() {
    let src = "# H1\n## H2\n### H3\n#### H4\n##### H5\n###### H6\n";
    let doc = Markdown.parse(src.as_bytes()).expect("parse");
    let children = doc_children(&doc);
    assert_eq!(children.len(), 6);
    for (i, child) in children.iter().enumerate() {
        assert_eq!(node_type(child), "heading");
        assert_eq!(field(child, "level"), &Value::Int(i as i64 + 1));
    }
}

#[test]
fn parse_fenced_code_block_with_lang_exposes_lang_and_value() {
    let src = "```yaml\nfoo: bar\n```\n";
    let doc = Markdown.parse(src.as_bytes()).expect("parse");
    let children = doc_children(&doc);
    assert_eq!(children.len(), 1);
    let cb = &children[0];
    assert_eq!(node_type(cb), "code_block");
    assert_eq!(field(cb, "fenced"), &Value::Bool(true));
    assert_eq!(field(cb, "lang"), &Value::String("yaml".into()));
    assert_eq!(field(cb, "info"), &Value::String("yaml".into()));
    assert_eq!(field(cb, "value"), &Value::String("foo: bar\n".into()));
}

#[test]
fn parse_fenced_code_block_without_lang_has_null_lang() {
    let src = "```\nfoo bar\n```\n";
    let doc = Markdown.parse(src.as_bytes()).expect("parse");
    let cb = &doc_children(&doc)[0];
    assert_eq!(field(cb, "fenced"), &Value::Bool(true));
    assert_eq!(field(cb, "lang"), &Value::Null);
    assert_eq!(field(cb, "info"), &Value::String("".into()));
}

#[test]
fn parse_indented_code_block_is_unfenced() {
    let src = "    foo bar\n";
    let doc = Markdown.parse(src.as_bytes()).expect("parse");
    let cb = &doc_children(&doc)[0];
    assert_eq!(node_type(cb), "code_block");
    assert_eq!(field(cb, "fenced"), &Value::Bool(false));
    assert_eq!(field(cb, "lang"), &Value::Null);
}

#[test]
fn parse_inline_code_in_paragraph_emits_code_inline_node() {
    let doc = Markdown.parse(b"Use `cargo run`.\n").expect("parse");
    let p = &doc_children(&doc)[0];
    assert_eq!(node_type(p), "paragraph");
    let Value::Array(inlines) = field(p, "children") else {
        panic!("children array");
    };
    let code = inlines
        .iter()
        .find(|n| node_type(n) == "code")
        .expect("inline code present");
    assert_eq!(field(code, "value"), &Value::String("cargo run".into()));
}

#[test]
fn parse_emphasis_strong_strikethrough_each_emit_correct_type() {
    let src = "Plain *italic* and **bold** and ~~strike~~.\n";
    let doc = Markdown.parse(src.as_bytes()).expect("parse");
    let p = &doc_children(&doc)[0];
    let Value::Array(inlines) = field(p, "children") else {
        panic!()
    };
    let kinds: Vec<&str> = inlines.iter().map(node_type).collect();
    assert!(kinds.contains(&"emphasis"));
    assert!(kinds.contains(&"strong"));
    assert!(kinds.contains(&"strikethrough"));
}

#[test]
fn parse_link_with_title_carries_url_and_title() {
    let doc = Markdown
        .parse(b"See [docs](https://example.com \"Docs\").\n")
        .expect("parse");
    let p = &doc_children(&doc)[0];
    let Value::Array(inlines) = field(p, "children") else {
        panic!()
    };
    let link = inlines
        .iter()
        .find(|n| node_type(n) == "link")
        .expect("link present");
    assert_eq!(
        field(link, "url"),
        &Value::String("https://example.com".into()),
    );
    assert_eq!(field(link, "title"), &Value::String("Docs".into()));
}

#[test]
fn parse_link_without_title_has_null_title() {
    let doc = Markdown
        .parse(b"See [docs](https://example.com).\n")
        .expect("parse");
    let p = &doc_children(&doc)[0];
    let Value::Array(inlines) = field(p, "children") else {
        panic!()
    };
    let link = inlines
        .iter()
        .find(|n| node_type(n) == "link")
        .expect("link present");
    assert_eq!(field(link, "title"), &Value::Null);
}

#[test]
fn parse_image_concatenates_text_descendants_into_alt() {
    let doc = Markdown
        .parse(b"![alt text](img.png \"title\")\n")
        .expect("parse");
    let p = &doc_children(&doc)[0];
    let Value::Array(inlines) = field(p, "children") else {
        panic!()
    };
    let img = inlines
        .iter()
        .find(|n| node_type(n) == "image")
        .expect("image present");
    assert_eq!(field(img, "url"), &Value::String("img.png".into()));
    assert_eq!(field(img, "alt"), &Value::String("alt text".into()));
    assert_eq!(field(img, "title"), &Value::String("title".into()));
}

#[test]
fn parse_unordered_list_emits_list_with_ordered_false() {
    let doc = Markdown.parse(b"- a\n- b\n").expect("parse");
    let l = &doc_children(&doc)[0];
    assert_eq!(node_type(l), "list");
    assert_eq!(field(l, "ordered"), &Value::Bool(false));
    assert_eq!(field(l, "start"), &Value::Null);
}

#[test]
fn parse_ordered_list_emits_list_with_ordered_true_and_start() {
    let doc = Markdown.parse(b"1. a\n2. b\n").expect("parse");
    let l = &doc_children(&doc)[0];
    assert_eq!(node_type(l), "list");
    assert_eq!(field(l, "ordered"), &Value::Bool(true));
    assert_eq!(field(l, "start"), &Value::Int(1));
}

#[test]
fn parse_nested_list_preserves_structure() {
    let src = "- a\n  - nested\n- b\n";
    let doc = Markdown.parse(src.as_bytes()).expect("parse");
    let outer = &doc_children(&doc)[0];
    assert_eq!(node_type(outer), "list");
    let Value::Array(items) = field(outer, "children") else {
        panic!()
    };
    assert_eq!(items.len(), 2);
    let Value::Array(first_children) = field(&items[0], "children") else {
        panic!()
    };
    let has_nested = first_children.iter().any(|n| node_type(n) == "list");
    assert!(has_nested, "first list item should contain a nested list");
}

#[test]
fn parse_task_list_items_carry_checked_field() {
    let doc = Markdown.parse(b"- [x] done\n- [ ] todo\n").expect("parse");
    let l = &doc_children(&doc)[0];
    let Value::Array(items) = field(l, "children") else {
        panic!()
    };
    assert_eq!(items.len(), 2);
    assert_eq!(field(&items[0], "checked"), &Value::Bool(true));
    assert_eq!(field(&items[1], "checked"), &Value::Bool(false));
}

#[test]
fn parse_block_quote_emits_block_quote_node() {
    let doc = Markdown.parse(b"> quoted line\n").expect("parse");
    let bq = &doc_children(&doc)[0];
    assert_eq!(node_type(bq), "block_quote");
}

#[test]
fn parse_thematic_break_emits_thematic_break_node() {
    let doc = Markdown.parse(b"para\n\n***\n").expect("parse");
    let children = doc_children(&doc);
    let kinds: Vec<&str> = children.iter().map(node_type).collect();
    assert!(kinds.contains(&"thematic_break"), "kinds: {kinds:?}");
}

#[test]
fn parse_gfm_table_emits_table_with_header_row() {
    let src = "| a | b |\n|---|---|\n| 1 | 2 |\n";
    let doc = Markdown.parse(src.as_bytes()).expect("parse");
    let t = &doc_children(&doc)[0];
    assert_eq!(node_type(t), "table");
    let Value::Array(rows) = field(t, "children") else {
        panic!()
    };
    assert_eq!(rows.len(), 2, "header + one body row");
    assert_eq!(node_type(&rows[0]), "table_row");
    assert_eq!(field(&rows[0], "header"), &Value::Bool(true));
    assert_eq!(field(&rows[1], "header"), &Value::Bool(false));
}

#[test]
fn parse_yaml_frontmatter_folds_into_document_field() {
    let doc = Markdown
        .parse(b"---\ntitle: Hello\n---\n# Body\n")
        .expect("parse");
    let Value::Object(m) = doc.value() else { panic!() };
    let Value::Object(fm) = m.get("frontmatter").expect("frontmatter present") else {
        panic!(
            "frontmatter should be a map, got {:?}",
            m.get("frontmatter")
        );
    };
    assert_eq!(fm.get("kind"), Some(&Value::String("yaml".into())));
    let Value::Object(inner) = fm.get("value").expect("value present") else {
        panic!()
    };
    assert_eq!(inner.get("title"), Some(&Value::String("Hello".into())));
    let children = doc_children(&doc);
    assert_eq!(node_type(&children[0]), "heading");
}

#[test]
fn parse_toml_frontmatter_folds_correctly() {
    let doc = Markdown
        .parse(b"+++\ntitle = \"Hello\"\n+++\n# Body\n")
        .expect("parse");
    let Value::Object(m) = doc.value() else { panic!() };
    let Value::Object(fm) = m.get("frontmatter").unwrap() else {
        panic!()
    };
    assert_eq!(fm.get("kind"), Some(&Value::String("toml".into())));
}

#[test]
fn parse_json_frontmatter_folds_correctly() {
    let doc = Markdown
        .parse(b"{\n  \"title\": \"Hello\"\n}\n\n# Body\n")
        .expect("parse");
    let Value::Object(m) = doc.value() else { panic!() };
    let Value::Object(fm) = m.get("frontmatter").unwrap() else {
        panic!("expected map frontmatter, got {:?}", m.get("frontmatter"));
    };
    assert_eq!(fm.get("kind"), Some(&Value::String("json".into())));
}

#[test]
fn parse_no_frontmatter_produces_null_frontmatter() {
    let doc = Markdown.parse(b"# Just text\n").expect("parse");
    let Value::Object(m) = doc.value() else { panic!() };
    assert_eq!(m.get("frontmatter"), Some(&Value::Null));
}

#[test]
fn parse_heading_position_starts_at_line_one() {
    let doc = Markdown.parse(b"# Hello\n").expect("parse");
    let h = &doc_children(&doc)[0];
    let Value::Object(pos) = field(h, "position") else {
        panic!()
    };
    let Value::Object(start) = pos.get("start").unwrap() else {
        panic!()
    };
    assert_eq!(start.get("line"), Some(&Value::Int(1)));
}

#[test]
fn parse_html_block_emits_value_with_raw_html() {
    let doc = Markdown
        .parse(b"<div class=\"x\">\n  text\n</div>\n")
        .expect("parse");
    let block = &doc_children(&doc)[0];
    assert_eq!(node_type(block), "html_block");
    let Value::String(s) = field(block, "value") else {
        panic!()
    };
    assert!(
        s.contains("<div"),
        "html_block value should preserve HTML: {s}"
    );
}

#[test]
fn write_unmutated_document_emits_original_bytes_verbatim() {
    let src = "# Title\n\nSome paragraph with **bold** text.\n\n```rust\nfn main() {}\n```\n";
    let doc = Markdown.parse(src.as_bytes()).expect("parse");
    let mut buf: Vec<u8> = Vec::new();
    Markdown.write(&doc, &mut buf).expect("write");
    assert_eq!(
        std::str::from_utf8(&buf).unwrap(),
        src,
        "verbatim round-trip must produce identical bytes",
    );
}

#[test]
fn write_mutated_document_returns_format_error() {
    let src = "# Title\n";
    let doc = Markdown.parse(src.as_bytes()).expect("parse");
    let Value::Object(mut m) = doc.value().clone() else {
        panic!()
    };
    m.insert("type".to_owned(), Value::String("not-a-document".into()));
    let mutated = Document::with_value_and_bytes(
        Value::Object(m),
        doc.original_bytes().to_vec(),
        FormatTag::Markdown,
    );
    let mut buf: Vec<u8> = Vec::new();
    let err = Markdown.write(&mutated, &mut buf).unwrap_err();
    match err {
        Error::Format { format, message } => {
            assert_eq!(format, "markdown");
            assert!(
                message.contains("M11+") || message.contains("read-only"),
                "message should mention the read-only contract: {message}",
            );
        }
        other => panic!("expected Error::Format, got {other:?}"),
    }
}

#[test]
fn parse_carries_format_tag_markdown() {
    let doc = Markdown.parse(b"# x\n").expect("parse");
    assert_eq!(doc.format(), FormatTag::Markdown);
}

#[test]
fn parse_preserves_original_bytes_for_round_trip() {
    let src = b"# Title\n\nSome text.\n";
    let doc = Markdown.parse(src).expect("parse");
    assert_eq!(
        doc.original_bytes(),
        src,
        "original_bytes must be preserved for round-trip detection",
    );
}

#[test]
fn first_whitespace_token_returns_none_for_whitespace_only() {
    assert_eq!(first_whitespace_token(""), None);
    assert_eq!(first_whitespace_token("   "), None);
    assert_eq!(first_whitespace_token("rust"), Some("rust".into()));
    assert_eq!(first_whitespace_token("  rust extra"), Some("rust".into()));
}
