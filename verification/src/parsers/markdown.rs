//! Markdown (CommonMark with the extensions of GitHub) as a tree of nodes.
//!
//! A document is an object with its `type`, the `frontmatter` it starts with,
//! its `children` and its `position`; so is every node below it. A document is
//! written only as it was read: the value tree is not turned back into text.

use crate::bytes::{append_bytes, copy_bytes};
use crate::document::{DocModel, Document, FrontmatterKind};
use crate::error::{
    format_fault, unplaced_parse, unplaced_parse_error, Error, Fault,
};
use crate::format::{extension_list, Emission, Format};
use crate::format_tag::FormatTag;
use crate::parsers::frontmatter::{
    check_header, find_header, frontmatter_parses, header_value, read_header, split_header,
};
use crate::parsers::markdown_nodes::{
    build_options, find_subtree_end, github_options, markdown_nodes, node_models, place_tree,
    place_value, read_nodes, sibling_trees, sibling_values, subtree_end, MdNode, NodeModel,
};
use crate::text::joined;
use crate::utf8_text::{checked_text, utf8_fault_text};
use crate::value::{lemma_array_view, lemma_object_view, trees, Tree, Value, ValueMap};
use crate::value_eq::{law_same_as_itself, same_tree, same_value, tidy};
use crate::write_options::WriteOptions;
use vstd::prelude::*;
use vstd::utf8::{decode_utf8, valid_utf8};

verus! {

/// Markdown format implementation.
#[derive(Debug, Clone, Copy)]
pub struct Markdown;

// ---------------------------------------------------------------------------
// Reading
// ---------------------------------------------------------------------------

/// The name of a header's format.
pub open spec fn kind_text(kind: FrontmatterKind) -> Seq<char> {
    match kind {
        FrontmatterKind::Yaml => "yaml"@,
        FrontmatterKind::Toml => "toml"@,
        FrontmatterKind::Json => "json"@,
    }
}

/// A header as the document shows it.
pub open spec fn header_tree(kind: FrontmatterKind, value: Tree) -> Tree {
    Tree::Object(seq![("kind"@, Tree::String(kind_text(kind))), ("value"@, value)])
}

/// A document as a value.
pub open spec fn document_tree(header: Tree, children: Seq<Tree>, position: Tree) -> Tree {
    Tree::Object(
        seq![
            ("type"@, Tree::String("document"@)),
            ("frontmatter"@, header),
            ("children"@, Tree::Array(children)),
            ("position"@, position),
        ],
    )
}

/// The document that nodes make up, the first of them being its root.
pub open spec fn nodes_tree(header: Tree, nodes: Seq<NodeModel>) -> Tree {
    document_tree(
        header,
        sibling_trees(nodes, 1, subtree_end(nodes, 0, 1)),
        place_tree(nodes[0].place),
    )
}

/// The document that a body makes up behind its header.
pub open spec fn body_tree(header: Tree, body: Seq<u8>) -> Result<Tree, Fault> {
    if !valid_utf8(body) {
        Err(unplaced_parse("invalid UTF-8 in Markdown input: "@ + utf8_fault_text(body)))
    } else {
        Ok(nodes_tree(header, markdown_nodes(decode_utf8(body), github_options())))
    }
}

/// The value of Markdown bytes.
pub open spec fn markdown_value(bytes: Seq<u8>) -> Result<Tree, Fault> {
    match split_header(bytes) {
        Some((kind, header, body)) => match header_value(kind, header) {
            Ok(value) => body_tree(header_tree(kind, value), body),
            Err(f) => Err(f),
        },
        None => body_tree(Tree::Null, bytes),
    }
}

/// What Markdown bytes come to.
pub open spec fn markdown_document(bytes: Seq<u8>) -> Result<DocModel, Fault> {
    match markdown_value(bytes) {
        Ok(value) => Ok(
            DocModel {
                value,
                bytes,
                spans: Seq::empty(),
                format: FormatTag::Markdown,
                multi: false,
                payload: None,
                provenance: Seq::empty(),
            },
        ),
        Err(f) => Err(f),
    }
}

fn pair(key: &str, value: Value) -> (r: (String, Value))
    ensures
        r.0@ == key@,
        r.1@ == value@,
{
    (key.to_owned(), value)
}

fn header_to_value(kind: FrontmatterKind, value: Value) -> (r: Value)
    ensures
        r@ == header_tree(kind, value@),
{
    let label: &str = match kind {
        FrontmatterKind::Yaml => "yaml",
        FrontmatterKind::Toml => "toml",
        FrontmatterKind::Json => "json",
    };
    let map: ValueMap = ValueMap {
        entries: vec![pair("kind", Value::String(label.to_owned())), pair("value", value)],
    };
    proof {
        lemma_object_view(map);
        assert(map@ =~= header_tree(kind, value@)->Object_0);
    }
    Value::Object(map)
}

fn document_value(header: Value, children: Vec<Value>, position: Value) -> (r: Value)
    ensures
        r@ == document_tree(header@, trees(children@), position@),
{
    proof {
        lemma_array_view(children);
    }
    let map: ValueMap = ValueMap {
        entries: vec![
            pair("type", Value::String("document".to_owned())),
            pair("frontmatter", header),
            pair("children", Value::Array(children)),
            pair("position", position),
        ],
    };
    proof {
        lemma_object_view(map);
        assert(map@ =~= document_tree(header@, trees(children@), position@)->Object_0);
    }
    Value::Object(map)
}

/// The document that nodes make up.
pub fn nodes_to_value(header: Value, nodes: &Vec<MdNode>) -> (r: Value)
    requires
        nodes@.len() > 0,
    ensures
        r@ == nodes_tree(header@, node_models(nodes@)),
{
    let ghost models = node_models(nodes@);
    assert(models[0] == nodes@[0]@);
    let end: usize = find_subtree_end(nodes, 0);
    let children: Vec<Value> = sibling_values(nodes, 1, end);
    document_value(header, children, place_value(nodes[0].place))
}

fn body_to_value(header: Value, body: &[u8]) -> (r: Result<Value, Error>)
    ensures
        match (r, body_tree(header@, body@)) {
            (Ok(v), Ok(m)) => v@ == m,
            (Err(e), Err(f)) => e@ == f,
            _ => false,
        },
{
    match checked_text(body) {
        Ok(text) => {
            let nodes: Vec<MdNode> = read_nodes(text.as_str(), build_options());
            Ok(nodes_to_value(header, &nodes))
        },
        Err(message) => Err(
            unplaced_parse_error(joined("invalid UTF-8 in Markdown input: ", message.as_str())),
        ),
    }
}

/// Parses Markdown into its value.
pub fn parse_to_value(bytes: &[u8]) -> (r: Result<Value, Error>)
    ensures
        match (r, markdown_value(bytes@)) {
            (Ok(v), Ok(m)) => v@ == m,
            (Err(e), Err(f)) => e@ == f,
            _ => false,
        },
{
    match find_header(bytes) {
        Some((kind, header, body)) => match read_header(kind, header) {
            Ok(value) => body_to_value(header_to_value(kind, value), body),
            Err(e) => Err(e),
        },
        None => body_to_value(Value::Null, bytes),
    }
}

// ---------------------------------------------------------------------------
// Writing
// ---------------------------------------------------------------------------

/// The value of a document without content.
pub open spec fn empty_document() -> Tree {
    document_tree(Tree::Null, Seq::empty(), place_tree((1, 1, 0, 0)))
}

/// What the writer makes of a document: its source, where the value is still
/// the one that was read from it.
pub open spec fn markdown_written(doc: DocModel) -> Emission {
    if doc.bytes.len() == 0 {
        if same_tree(doc.value, empty_document()) {
            (Seq::empty(), Ok(()))
        } else {
            (
                Seq::empty(),
                Err(
                    format_fault(
                        "markdown"@,
                        "Markdown document has no source bytes; mutation re-emit is M11+ work (the in-memory value tree is read-only in M9)"@,
                    ),
                ),
            )
        }
    } else {
        match markdown_value(doc.bytes) {
            Ok(baseline) => if same_tree(baseline, doc.value) {
                (doc.bytes, Ok(()))
            } else {
                (
                    Seq::empty(),
                    Err(
                        format_fault(
                            "markdown"@,
                            "Markdown round-trip on mutated documents is M11+ work; the value tree is read-only in M9"@,
                        ),
                    ),
                )
            },
            Err(f) => (Seq::empty(), Err(f)),
        }
    }
}

/// The value of a document without content.
pub fn empty_document_value() -> (r: Value)
    ensures
        r@ == empty_document(),
{
    let none: Vec<Value> = Vec::new();
    assert(trees(none@) =~= Seq::<Tree>::empty());
    document_value(Value::Null, none, place_value((1, 1, 0, 0)))
}

/// A document that was not changed is written as it was read, byte for byte. A
/// float in its header that is NaN counts as a change.
pub proof fn law_unchanged_is_written_verbatim(bytes: Seq<u8>)
    requires
        bytes.len() > 0,
        match markdown_document(bytes) {
            Ok(doc) => tidy(doc.value),
            Err(_) => false,
        },
    ensures
        markdown_written(markdown_document(bytes)->Ok_0) == (bytes, Ok::<(), Fault>(())),
{
    law_same_as_itself(markdown_document(bytes)->Ok_0.value);
}

impl Format for Markdown {
    open spec fn tag(&self) -> FormatTag {
        FormatTag::Markdown
    }

    open spec fn parses(&self, bytes: Seq<u8>) -> bool {
        frontmatter_parses(bytes)
    }

    open spec fn parse_model(&self, bytes: Seq<u8>) -> Result<DocModel, Fault> {
        markdown_document(bytes)
    }

    open spec fn write_model(&self, doc: DocModel) -> Emission {
        markdown_written(doc)
    }

    open spec fn options_model(&self, doc: DocModel, opts: WriteOptions) -> Emission {
        self.write_model(doc)
    }

    fn name(&self) -> (r: &'static str) {
        FormatTag::Markdown.name()
    }

    fn extensions(&self) -> (r: Vec<&'static str>) {
        extension_list(FormatTag::Markdown)
    }

    fn parse(&self, bytes: &[u8]) -> (r: Result<Document, Error>) {
        match parse_to_value(bytes) {
            Ok(value) => {
                let source: Vec<u8> = copy_bytes(bytes, 0, bytes.len());
                assert(bytes@.subrange(0, bytes@.len() as int) =~= bytes@);
                Ok(Document::with_value_and_bytes(value, source, FormatTag::Markdown))
            },
            Err(e) => Err(e),
        }
    }

    fn parse_checked(&self, bytes: &[u8]) -> (r: Option<Result<Document, Error>>) {
        match find_header(bytes) {
            Some((kind, header, _body)) => {
                if !check_header(kind, header) {
                    return None;
                }
            },
            None => {},
        }
        Some(self.parse(bytes))
    }

    fn write(&self, doc: &Document, w: &mut Vec<u8>) -> (r: Result<(), Error>) {
        assert(w@ + Seq::<u8>::empty() =~= w@);
        if doc.original_bytes().len() == 0 {
            if same_value(doc.value(), &empty_document_value()) {
                return Ok(());
            }
            return Err(
                Error::Format {
                    format: "markdown",
                    message: "Markdown document has no source bytes; mutation re-emit is M11+ work (the in-memory value tree is read-only in M9)".to_owned(),
                },
            );
        }
        match parse_to_value(doc.original_bytes()) {
            Ok(baseline) => {
                if same_value(&baseline, doc.value()) {
                    append_bytes(w, doc.original_bytes());
                    return Ok(());
                }
                Err(
                    Error::Format {
                        format: "markdown",
                        message: "Markdown round-trip on mutated documents is M11+ work; the value tree is read-only in M9".to_owned(),
                    },
                )
            },
            Err(e) => Err(e),
        }
    }

    fn write_with_options(&self, doc: &Document, w: &mut Vec<u8>, _opts: &WriteOptions) -> (r: Result<
        (),
        Error,
    >) {
        self.write(doc, w)
    }
}

} // verus!
