//! HCL 2, the configuration language of HashiCorp.
//!
//! A block `kind "label" { .. }` becomes an object under `kind` and `label`,
//! one level for each label. Comments and spacing are not kept.

use crate::bytes::append_text;
use crate::document::{bare, DocModel, Document};
use crate::error::{
    format_fault, texts, unplaced_parse, unplaced_parse_error, Error, Fault,
};
use crate::format::{emitted, extension_list, Emission, Format};
use crate::format_tag::FormatTag;
use crate::parsers::hcl_nodes::{
    find_hcl_fault, hcl_fault_of, hcl_models, hcl_nodes, hcl_text, read_hcl_nodes,
    write_hcl_layout, HclFault, HclFaultModel, HclModel, HclNode,
};
use crate::parsers::hcl_spelling::{
    is_hcl_document, lemma_attributes_make_the_value, lemma_bytes_spell_text,
    lemma_document_layout, spells_hcl, spells_hcl_text,
};
use crate::parsers::layout::{laid_out, lay_out, Piece, Target};
use crate::parsers::merging::{place_under, placed_under};
use crate::parsers::tokens::{plant_tree, planted_tree, NumberRule};
use crate::position::wrapped;
use crate::text::joined;
use crate::utf8_text::{checked_text, utf8_fault_text};
use crate::value::{inserted, lemma_object_view, Tree, Value, ValueMap};
use crate::write_options::WriteOptions;
use vstd::prelude::*;
use vstd::utf8::{decode_utf8, encode_utf8, valid_utf8};

verus! {

/// HCL format implementation.
#[derive(Debug, Clone, Copy)]
pub struct Hcl;

// ---------------------------------------------------------------------------
// Reading
// ---------------------------------------------------------------------------

/// The keys that a block stands under: its identifier, then its labels.
pub open spec fn block_path(identifier: Seq<char>, labels: Seq<Seq<char>>) -> Seq<Seq<char>> {
    seq![identifier] + labels
}

/// The entries of a body from node `k` on, those before it given, and the
/// position behind the body. Blocks with the same identifier and labels are
/// merged.
pub open spec fn body_entries(
    nodes: Seq<HclModel>,
    k: int,
    so_far: Seq<(Seq<char>, Tree)>,
) -> (Seq<(Seq<char>, Tree)>, int)
    decreases nodes.len() - k,
{
    if !(0 <= k < nodes.len()) {
        (so_far, k)
    } else {
        match nodes[k] {
            HclModel::Close => (so_far, k + 1),
            HclModel::Attribute(key, tokens) => body_entries(
                nodes,
                k + 1,
                inserted(so_far, key, planted_tree(tokens, NumberRule::Json)),
            ),
            HclModel::Open(identifier, labels) => {
                let (inner, next) = body_entries(nodes, k + 1, Seq::empty());
                if k < next <= nodes.len() {
                    body_entries(
                        nodes,
                        next,
                        placed_under(
                            so_far,
                            block_path(identifier, labels),
                            0,
                            Tree::Object(inner),
                        ),
                    )
                } else {
                    (so_far, k + 1)
                }
            },
        }
    }
}

/// The fault that an objection stands for.
pub open spec fn hcl_fault(f: HclFaultModel) -> Fault {
    let (line, col) = match f.place {
        Some(place) => place,
        None => (0usize, 0usize),
    };
    Fault::Parse {
        file: None,
        line: wrapped(line as nat),
        col: wrapped(col as nat),
        start: 0,
        end: 0,
        snippet: Seq::empty(),
        message: f.message,
    }
}

/// The value of HCL bytes.
pub open spec fn hcl_parsed(bytes: Seq<u8>) -> Result<Tree, Fault> {
    if !valid_utf8(bytes) {
        Err(unplaced_parse("invalid UTF-8 in HCL input: "@ + utf8_fault_text(bytes)))
    } else {
        match hcl_fault_of(decode_utf8(bytes)) {
            Some(f) => Err(hcl_fault(f)),
            None => Ok(
                Tree::Object(body_entries(hcl_nodes(decode_utf8(bytes)), 0, Seq::empty()).0),
            ),
        }
    }
}

proof fn lemma_body_goes_on(nodes: Seq<HclModel>, k: int, so_far: Seq<(Seq<char>, Tree)>)
    requires
        0 <= k <= nodes.len(),
    ensures
        k <= body_entries(nodes, k, so_far).1 <= nodes.len(),
    decreases nodes.len() - k,
{
    if k < nodes.len() {
        match nodes[k] {
            HclModel::Close => {},
            HclModel::Attribute(key, tokens) => {
                lemma_body_goes_on(
                    nodes,
                    k + 1,
                    inserted(so_far, key, planted_tree(tokens, NumberRule::Json)),
                );
            },
            HclModel::Open(identifier, labels) => {
                let (inner, next) = body_entries(nodes, k + 1, Seq::empty());
                if k < next <= nodes.len() {
                    lemma_body_goes_on(
                        nodes,
                        next,
                        placed_under(
                            so_far,
                            block_path(identifier, labels),
                            0,
                            Tree::Object(inner),
                        ),
                    );
                }
            },
        }
    }
}

/// The fault that an objection stands for.
fn map_hcl_parse_error(fault: HclFault) -> (r: Error)
    ensures
        r@ == hcl_fault(fault@),
{
    let (line, col): (usize, usize) = match fault.place {
        Some(place) => place,
        None => (0, 0),
    };
    let empty: String = String::new();
    assert(empty@ =~= Seq::<char>::empty());
    Error::Parse {
        file: None,
        line: (line as u64 % 0x1_0000_0000) as u32,
        col: (col as u64 % 0x1_0000_0000) as u32,
        span: 0..0,
        snippet: empty,
        message: fault.message,
    }
}

fn path_of(identifier: &String, labels: &Vec<String>) -> (r: Vec<String>)
    ensures
        texts(r@) == block_path(identifier@, texts(labels@)),
        r@.len() > 0,
{
    let mut path: Vec<String> = Vec::new();
    path.push(identifier.clone());
    let mut i: usize = 0;
    while i < labels.len()
        invariant
            i <= labels@.len(),
            path@.len() == i + 1,
            path@[0]@ == identifier@,
            forall|k: int| 0 < k <= i ==> (#[trigger] path@[k])@ == labels@[k - 1]@,
        decreases labels@.len() - i,
    {
        path.push(labels[i].clone());
        i += 1;
    }
    assert(texts(path@) =~= block_path(identifier@, texts(labels@)));
    path
}

/// Puts a block into an object.
pub fn insert_block(
    parent: &mut ValueMap,
    identifier: &String,
    labels: &Vec<String>,
    body: Value,
)
    ensures
        final(parent)@ == placed_under(
            old(parent)@,
            block_path(identifier@, texts(labels@)),
            0,
            body@,
        ),
{
    let path: Vec<String> = path_of(identifier, labels);
    place_under(parent, &path, 0, body);
}

/// The object of the body that starts at node `k`, and the position behind it.
pub fn body_to_value(nodes: &Vec<HclNode>, k: usize) -> (r: (ValueMap, usize))
    requires
        k <= nodes@.len(),
    ensures
        (r.0@, r.1 as int) == body_entries(hcl_models(nodes@), k as int, Seq::empty()),
        k <= r.1 <= nodes@.len(),
    decreases nodes@.len() - k,
{
    let ghost models = hcl_models(nodes@);
    let ghost whole = body_entries(models, k as int, Seq::empty());
    proof {
        lemma_body_goes_on(models, k as int, Seq::empty());
    }
    let mut out: ValueMap = ValueMap::new();
    let mut next: usize = k;
    while next < nodes.len()
        invariant
            k <= next <= nodes@.len(),
            models == hcl_models(nodes@),
            whole == body_entries(models, k as int, Seq::empty()),
            whole == body_entries(models, next as int, out@),
            k <= whole.1 <= nodes@.len(),
        decreases nodes@.len() - next,
    {
        assert(models[next as int] == nodes@[next as int]@);
        match &nodes[next] {
            HclNode::Close => {
                return (out, next + 1);
            },
            HclNode::Attribute(key, tokens) => {
                out.insert(key.clone(), plant_tree(tokens, NumberRule::Json));
                next += 1;
            },
            HclNode::Open(identifier, labels) => {
                let (inner, after): (ValueMap, usize) = body_to_value(nodes, next + 1);
                proof {
                    lemma_object_view(inner);
                }
                insert_block(&mut out, identifier, labels, Value::Object(inner));
                next = after;
            },
        }
    }
    (out, next)
}

/// Parses HCL bytes. Those that are written of a document that reads back give
/// its value back.
pub fn parse_hcl(bytes: &[u8]) -> (r: Result<Value, Error>)
    ensures
        match (r, hcl_parsed(bytes@)) {
            (Ok(v), Ok(m)) => v@ == m,
            (Err(e), Err(f)) => e@ == f,
            _ => false,
        },
        forall|t: Tree| #[trigger] spells_hcl(bytes@, t) ==> (r matches Ok(v) && v@ == t),
{
    proof {
        assert forall|t: Tree| #[trigger] spells_hcl(bytes@, t) implies valid_utf8(bytes@)
            && spells_hcl_text(decode_utf8(bytes@), t) by {
            lemma_bytes_spell_text(bytes@, t);
        }
    }
    match checked_text(bytes) {
        Ok(text) => match find_hcl_fault(text.as_str()) {
            Some(fault) => Err(map_hcl_parse_error(fault)),
            None => {
                let nodes: Vec<HclNode> = read_hcl_nodes(text.as_str());
                let (map, _next): (ValueMap, usize) = body_to_value(&nodes, 0);
                proof {
                    lemma_object_view(map);
                    assert forall|t: Tree| #[trigger] spells_hcl(bytes@, t) implies Tree::Object(
                        map@,
                    ) == t by {
                        lemma_attributes_make_the_value(hcl_models(nodes@), t);
                    }
                }
                Ok(Value::Object(map))
            },
        },
        Err(message) => Err(
            unplaced_parse_error(joined("invalid UTF-8 in HCL input: ", message.as_str())),
        ),
    }
}

// ---------------------------------------------------------------------------
// Writing
// ---------------------------------------------------------------------------

/// What the writer makes of a value.
pub open spec fn hcl_written(t: Tree) -> Emission {
    match laid_out(Target::Hcl, t) {
        Err(f) => (Seq::empty(), Err(f)),
        Ok(pieces) => match hcl_text(pieces) {
            Ok(text) => (encode_utf8(text), Ok(())),
            Err(message) => (
                Seq::empty(),
                Err(format_fault("hcl"@, "failed to serialize HCL: "@ + message)),
            ),
        },
    }
}

/// Appends a value as HCL.
pub fn write_hcl(v: &Value, w: &mut Vec<u8>) -> (r: Result<(), Error>)
    ensures
        emitted(r, hcl_written(v@), old(w)@, final(w)@),
        is_hcl_document(v@) ==> r is Ok,
{
    proof {
        if is_hcl_document(v@) {
            lemma_document_layout(v@);
        }
    }
    assert(w@ + Seq::<u8>::empty() =~= w@);
    let pieces: Vec<Piece> = match lay_out(Target::Hcl, v) {
        Ok(pieces) => pieces,
        Err(e) => {
            return Err(e);
        },
    };
    match write_hcl_layout(pieces) {
        Ok(text) => {
            append_text(w, text.as_str());
            Ok(())
        },
        Err(message) => Err(
            Error::Format {
                format: "hcl",
                message: joined("failed to serialize HCL: ", message.as_str()),
            },
        ),
    }
}

impl Format for Hcl {
    open spec fn tag(&self) -> FormatTag {
        FormatTag::Hcl
    }

    open spec fn parses(&self, bytes: Seq<u8>) -> bool {
        true
    }

    open spec fn parse_model(&self, bytes: Seq<u8>) -> Result<DocModel, Fault> {
        match hcl_parsed(bytes) {
            Ok(value) => Ok(bare(value, FormatTag::Hcl, false)),
            Err(f) => Err(f),
        }
    }

    open spec fn write_model(&self, doc: DocModel) -> Emission {
        hcl_written(doc.value)
    }

    open spec fn options_model(&self, doc: DocModel, opts: WriteOptions) -> Emission {
        self.write_model(doc)
    }

    fn name(&self) -> (r: &'static str) {
        FormatTag::Hcl.name()
    }

    fn extensions(&self) -> (r: Vec<&'static str>) {
        extension_list(FormatTag::Hcl)
    }

    /// The bytes that are written of a document that reads back give its value
    /// back.
    fn parse(&self, bytes: &[u8]) -> (r: Result<Document, Error>)
        ensures
            forall|t: Tree| #[trigger] spells_hcl(bytes@, t) ==> (r matches Ok(doc) && doc@.value
                == t),
    {
        match parse_hcl(bytes) {
            Ok(value) => Ok(Document::value_only(value, FormatTag::Hcl)),
            Err(e) => Err(e),
        }
    }

    fn parse_checked(&self, bytes: &[u8]) -> (r: Option<Result<Document, Error>>) {
        Some(self.parse(bytes))
    }

    /// A document that reads back is written to the end.
    fn write(&self, doc: &Document, w: &mut Vec<u8>) -> (r: Result<(), Error>)
        ensures
            is_hcl_document(doc@.value) ==> r is Ok,
    {
        write_hcl(doc.value(), w)
    }

    fn write_with_options(&self, doc: &Document, w: &mut Vec<u8>, _opts: &WriteOptions) -> (r: Result<
        (),
        Error,
    >) {
        self.write(doc, w)
    }
}

} // verus!
