//! TOML 1.0.
//!
//! A document keeps its source bytes and where its scalars stand, so that it
//! can be edited in place with comments, key order and literals preserved.
//! Tables nest, so `cert` under `[server.tls]` is found at `/server/tls/cert`;
//! the tables of `[[products]]` are items of an array, as in `/products/0/name`.
//! A date or time is a text.

use crate::bytes::{append_bytes, append_text, copy_bytes};
use crate::document::{keys_parse, provenance_of, DocModel, Document};
use crate::error::{format_fault, texts, unplaced_parse, unplaced_parse_error, Error, Fault};
use crate::format::{emitted, extension_list, Emission, Format};
use crate::format_tag::FormatTag;
use crate::parsers::json::span_keys_parse;
use crate::parsers::layout::{laid_out, lay_out, piece_models, Piece, PieceModel, Target};
use crate::parsers::source_lines::{extract_line_snippet, shown_line};
use crate::parsers::toml_nodes::{
    find_toml_fault, holds_quote_run, is_writable, quote_limit, quotes_from, read_toml_nodes, toml_fault_of, toml_models, toml_nodes, toml_text,
    write_toml_layout, TomlFault, TomlFaultModel, TomlNode, TomlNodeModel,
};
use crate::parsers::toml_spelling::{
    is_toml_document, lemma_bytes_spell_text, lemma_document_layout, lemma_no_blanks,
    lemma_nodes_make_the_value, no_blanks, spells_toml, spells_toml_text,
};
use crate::parsers::toml_walk::{walk_value_with_context, walked_node, Walked};
use crate::position::{derive_line_col, line_col};
use crate::spans::{span_entries, span_map_new, SpanContext, SpanMap};
use crate::text::{chars_of, joined};
use crate::utf8_text::{checked_text, utf8_fault_text};
use crate::value::{Tree, Value};
use crate::value_eq::same_tree;
use crate::write_options::{canonical_tree, canonicalize_keys, WriteOptions};
use vstd::prelude::*;
use vstd::utf8::{decode_utf8, encode_utf8, valid_utf8};

verus! {

/// TOML format implementation.
#[derive(Debug, Clone, Copy)]
pub struct Toml;

// ---------------------------------------------------------------------------
// Reading
// ---------------------------------------------------------------------------

/// The fault that an objection stands for.
pub open spec fn toml_fault(bytes: Seq<u8>, f: TomlFaultModel) -> Fault {
    let (start, end) = match f.span {
        Some(span) => span,
        None => (0usize, 0usize),
    };
    Fault::Parse {
        file: None,
        line: line_col(bytes, start as int).0,
        col: line_col(bytes, start as int).1,
        start: start as int,
        end: end as int,
        snippet: shown_line(bytes, start as int),
        message: f.message,
    }
}

/// The value and the places of a document whose nodes are given.
pub open spec fn toml_walked(bytes: Seq<u8>, nodes: Seq<TomlNodeModel>) -> Walked {
    walked_node(bytes, nodes, 0, Seq::empty(), SpanContext::BlockMapValue, Seq::empty())
}

/// The value tree of TOML bytes, and where its scalars stand.
pub open spec fn toml_with_spans(bytes: Seq<u8>) -> Result<Walked, Fault> {
    if !valid_utf8(bytes) {
        Err(unplaced_parse("invalid UTF-8 in TOML input: "@ + utf8_fault_text(bytes)))
    } else {
        match toml_fault_of(decode_utf8(bytes)) {
            Some(f) => Err(toml_fault(bytes, f)),
            None => Ok(toml_walked(bytes, toml_nodes(decode_utf8(bytes)))),
        }
    }
}

/// A TOML document that can be edited in place.
pub open spec fn toml_document(bytes: Seq<u8>) -> Result<DocModel, Fault> {
    match toml_with_spans(bytes) {
        Ok(w) => Ok(
            DocModel {
                value: w.value,
                bytes,
                spans: w.places,
                format: FormatTag::Toml,
                multi: false,
                payload: None,
                provenance: provenance_of(w.places),
            },
        ),
        Err(f) => Err(f),
    }
}

/// Whether every place that is recorded can be written as a pointer: no key on
/// the way to a scalar is empty.
pub open spec fn toml_keys_parse(bytes: Seq<u8>) -> bool {
    match toml_with_spans(bytes) {
        Ok(w) => keys_parse(w.places),
        Err(_) => true,
    }
}

fn reader_error(bytes: &[u8], fault: TomlFault) -> (r: Error)
    ensures
        r@ == toml_fault(bytes@, fault@),
{
    let (start, end): (usize, usize) = match fault.span {
        Some(span) => span,
        None => (0, 0),
    };
    let (line, col): (u32, u32) = derive_line_col(bytes, start);
    Error::Parse {
        file: None,
        line,
        col,
        span: start..end,
        snippet: extract_line_snippet(bytes, start),
        message: fault.message,
    }
}

/// The value of a document whose nodes are given, and where its scalars stand.
pub fn build_value_and_spans(bytes: &[u8], nodes: &Vec<TomlNode>) -> (r: (Value, SpanMap))
    ensures
        r.0@ == toml_walked(bytes@, toml_models(nodes@)).value,
        span_entries(r.1) == toml_walked(bytes@, toml_models(nodes@)).places,
{
    let mut spans: SpanMap = span_map_new();
    let mut path: Vec<String> = Vec::new();
    assert(texts(path@) =~= Seq::<Seq<char>>::empty());
    let (value, _next): (Value, usize) = walk_value_with_context(
        bytes,
        nodes,
        0,
        &mut path,
        SpanContext::BlockMapValue,
        &mut spans,
    );
    (value, spans)
}

/// Parses TOML into a value tree and the spans of its scalars. The bytes that
/// are written of a document without floats give an equal value back.
pub fn parse_with_spans(bytes: &[u8]) -> (r: Result<(Value, SpanMap), Error>)
    ensures
        match (r, toml_with_spans(bytes@)) {
            (Ok((v, spans)), Ok(w)) => v@ == w.value && span_entries(spans) == w.places,
            (Err(e), Err(f)) => e@ == f,
            _ => false,
        },
        forall|t: Tree| #[trigger] spells_toml(bytes@, t) ==> (r matches Ok(read) && same_tree(
            t,
            read.0@,
        )),
{
    proof {
        assert forall|t: Tree| #[trigger] spells_toml(bytes@, t) implies valid_utf8(bytes@)
            && spells_toml_text(decode_utf8(bytes@), t) by {
            lemma_bytes_spell_text(bytes@, t);
        }
    }
    match checked_text(bytes) {
        Ok(text) => match find_toml_fault(text.as_str()) {
            Some(fault) => Err(reader_error(bytes, fault)),
            None => {
                let nodes: Vec<TomlNode> = read_toml_nodes(text.as_str());
                proof {
                    assert forall|t: Tree| #[trigger] spells_toml(bytes@, t) implies same_tree(
                        t,
                        toml_walked(bytes@, toml_models(nodes@)).value,
                    ) by {
                        lemma_nodes_make_the_value(bytes@, toml_models(nodes@), t);
                    }
                }
                Ok(build_value_and_spans(bytes, &nodes))
            },
        },
        Err(message) => Err(
            unplaced_parse_error(joined("invalid UTF-8 in TOML input: ", message.as_str())),
        ),
    }
}

// ---------------------------------------------------------------------------
// Writing
// ---------------------------------------------------------------------------

/// The fault of a text with too many quotes in a row.
pub open spec fn quotes_fault() -> Fault {
    format_fault("toml"@, "TOML writer cannot quote a text with 256 quotes in a row"@)
}

/// What is written of a value that has no source.
pub open spec fn toml_one(t: Tree) -> Emission {
    match laid_out(Target::Toml, t) {
        Err(f) => (Seq::empty(), Err(f)),
        Ok(pieces) => if !is_writable(pieces) {
            (Seq::empty(), Err(quotes_fault()))
        } else {
            match toml_text(pieces) {
                Ok(text) => (encode_utf8(text), Ok(())),
                Err(message) => (Seq::empty(), Err(format_fault("toml"@, message))),
            }
        },
    }
}

/// The fault of writing a stream of documents.
pub open spec fn toml_stream_fault() -> Fault {
    format_fault("toml"@, "multi-document streams are not representable in TOML"@)
}

/// What the TOML writer makes of a document: its source, where it has one.
pub open spec fn toml_written(doc: DocModel) -> Emission {
    if doc.multi {
        (Seq::empty(), Err(toml_stream_fault()))
    } else if doc.bytes.len() > 0 {
        (doc.bytes, Ok(()))
    } else {
        toml_one(doc.value)
    }
}

/// What the TOML writer makes of a document under options; the indentation is
/// not one of them. Keys in order are written anew, without the source.
pub open spec fn toml_written_with(doc: DocModel, opts: WriteOptions) -> Emission {
    if !opts.sort_keys {
        toml_written(doc)
    } else if doc.multi {
        (Seq::empty(), Err(toml_stream_fault()))
    } else {
        toml_one(canonical_tree(doc.value))
    }
}

/// Whether a text holds too many of a quote in a row.
fn has_run_of(s: &Vec<char>, q: char) -> (r: bool)
    ensures
        r == exists|i: int| quotes_from(s@, q, i),
{
    let mut run: usize = 0;
    let mut i: usize = 0;
    while i < s.len()
        invariant
            run <= i <= s@.len(),
            run < quote_limit(),
            forall|j: int| i - run <= j < i ==> #[trigger] s@[j] == q,
            i > run ==> s@[i - run - 1] != q,
            forall|k: int| k + quote_limit() <= i ==> !quotes_from(s@, q, k),
        decreases s@.len() - i,
    {
        if s[i] == q {
            run += 1;
        } else {
            run = 0;
        }
        i += 1;
        if run == 256 {
            assert(quotes_from(s@, q, i - 256));
            return true;
        }
        assert forall|k: int| k + quote_limit() <= i implies !quotes_from(s@, q, k) by {
            if k + quote_limit() == i && k >= 0 {
                if run == 0 {
                    assert(s@[i - 1] != q);
                } else {
                    assert(k <= i - run - 1);
                    assert(s@[i - run - 1] != q);
                }
            }
        }
    }
    assert forall|k: int| !quotes_from(s@, q, k) by {
        if k + quote_limit() <= s@.len() {
            assert(!quotes_from(s@, q, k));
        }
    }
    false
}

/// Whether no text holds too many quotes in a row.
fn quotes_fit(pieces: &Vec<Piece>) -> (r: bool)
    requires
        no_blanks(piece_models(pieces@)),
    ensures
        r == is_writable(piece_models(pieces@)),
{
    let ghost models = piece_models(pieces@);
    let mut i: usize = 0;
    while i < pieces.len()
        invariant
            i <= pieces@.len(),
            models == piece_models(pieces@),
            forall|k: int|
                0 <= k < i ==> ((#[trigger] models[k]) matches PieceModel::Words(s)
                    ==> !holds_quote_run(s)),
        decreases pieces@.len() - i,
    {
        assert(models[i as int] == pieces@[i as int]@);
        match &pieces[i] {
            Piece::Words(s) => {
                let chars: Vec<char> = chars_of(s.as_str());
                let double: bool = has_run_of(&chars, '"');
                let single: bool = has_run_of(&chars, '\'');
                if double || single {
                    assert(holds_quote_run(s@));
                    assert(models[i as int] == PieceModel::Words(s@));
                    return false;
                }
            },
            _ => {},
        }
        i += 1;
    }
    true
}

fn write_one(v: &Value, w: &mut Vec<u8>) -> (r: Result<(), Error>)
    ensures
        emitted(r, toml_one(v@), old(w)@, final(w)@),
        is_toml_document(v@) ==> r is Ok,
{
    proof {
        if is_toml_document(v@) {
            lemma_document_layout(v@);
        }
    }
    assert(w@ + Seq::<u8>::empty() =~= w@);
    let pieces: Vec<Piece> = match lay_out(Target::Toml, v) {
        Ok(pieces) => pieces,
        Err(e) => {
            return Err(e);
        },
    };
    proof {
        lemma_no_blanks(v@);
    }
    if !quotes_fit(&pieces) {
        return Err(
            Error::Format {
                format: "toml",
                message: "TOML writer cannot quote a text with 256 quotes in a row".to_owned(),
            },
        );
    }
    match write_toml_layout(pieces) {
        Ok(text) => {
            append_text(w, text.as_str());
            Ok(())
        },
        Err(message) => Err(Error::Format { format: "toml", message }),
    }
}

fn stream_error() -> (r: Error)
    ensures
        r@ == toml_stream_fault(),
{
    Error::Format {
        format: "toml",
        message: "multi-document streams are not representable in TOML".to_owned(),
    }
}

impl Format for Toml {
    open spec fn tag(&self) -> FormatTag {
        FormatTag::Toml
    }

    open spec fn parses(&self, bytes: Seq<u8>) -> bool {
        toml_keys_parse(bytes)
    }

    open spec fn parse_model(&self, bytes: Seq<u8>) -> Result<DocModel, Fault> {
        toml_document(bytes)
    }

    open spec fn write_model(&self, doc: DocModel) -> Emission {
        toml_written(doc)
    }

    open spec fn options_model(&self, doc: DocModel, opts: WriteOptions) -> Emission {
        toml_written_with(doc, opts)
    }

    fn name(&self) -> (r: &'static str) {
        FormatTag::Toml.name()
    }

    fn extensions(&self) -> (r: Vec<&'static str>) {
        extension_list(FormatTag::Toml)
    }

    /// The bytes that are written of a document without floats give an equal
    /// value back.
    fn parse(&self, bytes: &[u8]) -> (r: Result<Document, Error>)
        ensures
            forall|t: Tree| #[trigger] spells_toml(bytes@, t) ==> (r matches Ok(doc) && same_tree(
                t,
                doc@.value,
            )),
    {
        match parse_with_spans(bytes) {
            Ok((value, spans)) => {
                let source: Vec<u8> = copy_bytes(bytes, 0, bytes.len());
                assert(bytes@.subrange(0, bytes@.len() as int) =~= bytes@);
                Ok(Document::with_spans(value, source, spans, FormatTag::Toml))
            },
            Err(e) => Err(e),
        }
    }

    /// Where the places of a document that was written can be pointed at, it gives
    /// an equal value back.
    fn parse_checked(&self, bytes: &[u8]) -> (r: Option<Result<Document, Error>>)
        ensures
            forall|t: Tree| #[trigger]
                spells_toml(bytes@, t) ==> (match r {
                    Some(Ok(doc)) => same_tree(t, doc@.value),
                    Some(Err(_)) => false,
                    None => true,
                }),
    {
        match parse_with_spans(bytes) {
            Ok((_value, spans)) => {
                if !span_keys_parse(&spans) {
                    return None;
                }
            },
            Err(_) => {},
        }
        Some(self.parse(bytes))
    }

    /// A document without floats, nulls and numbers beyond 64 bits is written to
    /// the end.
    fn write(&self, doc: &Document, w: &mut Vec<u8>) -> (r: Result<(), Error>)
        ensures
            !doc@.multi && is_toml_document(doc@.value) ==> r is Ok,
    {
        assert(w@ + Seq::<u8>::empty() =~= w@);
        if doc.is_multi() {
            return Err(stream_error());
        }
        if doc.original_bytes().len() > 0 {
            append_bytes(w, doc.original_bytes());
            return Ok(());
        }
        write_one(doc.value(), w)
    }

    fn write_with_options(&self, doc: &Document, w: &mut Vec<u8>, opts: &WriteOptions) -> (r: Result<
        (),
        Error,
    >) {
        assert(w@ + Seq::<u8>::empty() =~= w@);
        if !opts.sort_keys {
            return self.write(doc, w);
        }
        if doc.is_multi() {
            return Err(stream_error());
        }
        write_one(&canonicalize_keys(doc.value()), w)
    }
}

} // verus!
