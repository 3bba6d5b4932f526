//! JSON (RFC 8259).
//!
//! A document keeps its source bytes and where its scalars stand, so that it
//! can be edited in place. Keys keep their order, and a number that no 64-bit
//! number stands for keeps its literal.

use crate::bytes::{append_bytes, append_text, copy_bytes};
use crate::document::{keys_parse, provenance_of, DocModel, Document};
use crate::error::{agrees, Error, Fault};
use crate::format::{emitted, extension_list, Emission, Format};
use crate::format_tag::FormatTag;
use crate::parsers::json_scan::{build_span_map, json_spans, SpanSeq};
use crate::parsers::json_spelling::{lemma_spelled_bytes_scan, readable_depth, spells};
use crate::parsers::json_values::{json_tokens, read_json, JsonFault, JsonFaultModel};
use crate::parsers::json_write::{
    json_compact, json_pretty, not_finite_error, not_finite_fault, write_value_compact,
    write_value_pretty_with_step,
};
use crate::parsers::level_order::{law_levels_make_the_value, level_tokens};
use crate::parsers::tokens::{plant_tree, planted_tree, NumberRule};
use crate::pointer::{parsed_pointer, Pointer};
use crate::position::{find_line_end, line_end};
use crate::spans::{span_entries, span_map_entry, span_map_len, SpanMap};
use crate::utf8_text::{checked_text, lossy_text, utf8_lossy};
use crate::value::{lemma_array_view, trees, Tree, Value};
use crate::write_options::{canonical_tree, canonicalize_keys, WriteOptions};
use vstd::prelude::*;
use vstd::utf8::{encode_utf8, valid_utf8};

verus! {

/// JSON format implementation.
#[derive(Debug, Clone, Copy)]
pub struct Json;

// ---------------------------------------------------------------------------
// Reading
// ---------------------------------------------------------------------------

/// The position where the line with `n` newlines before it starts, looked for
/// from `k` on; one past the end where there is no such line.
pub open spec fn nth_line(bytes: Seq<u8>, n: nat, k: int) -> int
    decreases bytes.len() - k,
{
    if n == 0 || !(0 <= k < bytes.len()) {
        if n == 0 {
            k
        } else {
            bytes.len() as int + 1
        }
    } else if bytes[k] == 10u8 {
        nth_line(bytes, (n - 1) as nat, k + 1)
    } else {
        nth_line(bytes, n, k + 1)
    }
}

/// The byte range and the text to show for an objection on a 1-based line: the
/// first byte of the line, and the line. Bytes that are no text, and a line
/// that is not there, show nothing.
pub open spec fn parse_anchor(bytes: Seq<u8>, line: int) -> (int, int, Seq<char>) {
    if !valid_utf8(bytes) || line <= 0 {
        (0, 0, Seq::empty())
    } else {
        let from = nth_line(bytes, (line - 1) as nat, 0);
        if from > bytes.len() {
            (0, 0, Seq::empty())
        } else if from == bytes.len() {
            (from, from, Seq::empty())
        } else {
            (from, from + 1, utf8_lossy(bytes.subrange(from, line_end(bytes, from))))
        }
    }
}

/// The byte range and the text to show for an objection on a 1-based line.
pub fn compute_parse_anchor(bytes: &[u8], line: usize) -> (r: (usize, usize, String))
    ensures
        (r.0 as int, r.1 as int, r.2@) == parse_anchor(bytes@, line as int),
{
    let empty: String = String::new();
    assert(empty@ =~= Seq::<char>::empty());
    if checked_text(bytes).is_err() || line == 0 {
        return (0, 0, empty);
    }
    let mut left: usize = line - 1;
    let mut k: usize = 0;
    while left > 0 && k < bytes.len()
        invariant
            k <= bytes@.len(),
            nth_line(bytes@, left as nat, k as int) == nth_line(bytes@, (line - 1) as nat, 0),
        decreases bytes@.len() - k,
    {
        if bytes[k] == 10 {
            left -= 1;
        }
        k += 1;
    }
    if left > 0 {
        return (0, 0, empty);
    }
    if k >= bytes.len() {
        return (k, k, empty);
    }
    let end: usize = find_line_end(bytes, k);
    let raw: Vec<u8> = copy_bytes(bytes, k, end);
    (k, k + 1, lossy_text(raw.as_slice()))
}

/// The fault that an objection of the reader stands for.
pub open spec fn reader_fault(bytes: Seq<u8>, f: JsonFaultModel) -> Fault {
    let anchor = parse_anchor(bytes, f.line);
    Fault::Parse {
        file: None,
        line: f.line % 0x1_0000_0000,
        col: f.col % 0x1_0000_0000,
        start: anchor.0,
        end: anchor.1,
        snippet: anchor.2,
        message: f.message,
    }
}

/// A number as `u32` holds it.
fn low_bits(n: usize) -> (r: u32)
    ensures
        r == n as int % 0x1_0000_0000,
{
    (n as u64 % 0x1_0000_0000) as u32
}

/// Turns an objection of the reader into an error.
pub fn reader_error(bytes: &[u8], fault: JsonFault) -> (r: Error)
    ensures
        r@ == reader_fault(bytes@, fault@),
{
    let (start, end, snippet) = compute_parse_anchor(bytes, fault.line);
    Error::Parse {
        file: None,
        line: low_bits(fault.line),
        col: low_bits(fault.col),
        span: start..end,
        snippet,
        message: fault.message,
    }
}

/// The value tree of JSON bytes, and where its scalars stand.
pub open spec fn json_with_spans(bytes: Seq<u8>) -> Result<(Tree, SpanSeq), Fault> {
    match json_spans(bytes) {
        Err(f) => Err(f),
        Ok(spans) => match json_tokens(bytes) {
            Err(f) => Err(reader_fault(bytes, f)),
            Ok(tokens) => Ok((planted_tree(tokens, NumberRule::Json), spans)),
        },
    }
}

/// Bytes that spell a value scan, and the nodes of the value make it again.
proof fn lemma_spelled_reads(bytes: Seq<u8>)
    ensures
        forall|t: Tree| #[trigger]
            spells(bytes, t) ==> json_spans(bytes) is Ok && planted_tree(
                level_tokens(t),
                NumberRule::Json,
            ) == t,
{
    assert forall|t: Tree| #[trigger] spells(bytes, t) implies json_spans(bytes) is Ok
        && planted_tree(level_tokens(t), NumberRule::Json) == t by {
        lemma_spelled_bytes_scan(bytes, t);
        law_levels_make_the_value(t, readable_depth());
    }
}

/// Parses JSON into a value tree and the spans of its scalars. Bytes that spell
/// a value give that value back.
pub fn parse_with_spans(bytes: &[u8]) -> (r: Result<(Value, SpanMap), Error>)
    ensures
        match (r, json_with_spans(bytes@)) {
            (Ok((v, spans)), Ok((t, s))) => v@ == t && span_entries(spans) == s,
            (Err(e), Err(f)) => e@ == f,
            _ => false,
        },
        forall|t: Tree| #[trigger] spells(bytes@, t) ==> (r matches Ok((v, _)) && v@ == t),
{
    proof {
        lemma_spelled_reads(bytes@);
    }
    let spans: SpanMap = match build_span_map(bytes) {
        Ok(spans) => spans,
        Err(e) => {
            return Err(e);
        },
    };
    match read_json(bytes) {
        Ok(tokens) => Ok((plant_tree(&tokens, NumberRule::Json), spans)),
        Err(fault) => Err(reader_error(bytes, fault)),
    }
}

/// Whether every place that is recorded can be written as a pointer: no key on
/// the way to a scalar is empty.
pub open spec fn json_keys_parse(bytes: Seq<u8>) -> bool {
    match json_with_spans(bytes) {
        Ok((_, spans)) => keys_parse(spans),
        Err(_) => true,
    }
}

/// A JSON document that can be edited in place.
pub open spec fn json_document(bytes: Seq<u8>) -> Result<DocModel, Fault> {
    match json_with_spans(bytes) {
        Ok((value, spans)) => Ok(
            DocModel {
                value,
                bytes,
                spans,
                format: FormatTag::Json,
                multi: false,
                payload: None,
                provenance: provenance_of(spans),
            },
        ),
        Err(f) => Err(f),
    }
}

/// Parses JSON into a document that can be edited in place. Bytes that spell a
/// value give that value back.
pub fn parse_json_with_spans(bytes: &[u8]) -> (r: Result<Document, Error>)
    requires
        json_keys_parse(bytes@),
    ensures
        agrees(r, json_document(bytes@)),
        forall|t: Tree| #[trigger] spells(bytes@, t) ==> (r matches Ok(doc) && doc@.value == t),
{
    match parse_with_spans(bytes) {
        Ok((value, spans)) => {
            let source: Vec<u8> = copy_bytes(bytes, 0, bytes.len());
            assert(bytes@.subrange(0, bytes@.len() as int) =~= bytes@);
            Ok(Document::with_spans(value, source, spans, FormatTag::Json))
        },
        Err(e) => Err(e),
    }
}

/// Whether every recorded key can be written as a pointer.
pub fn span_keys_parse(spans: &SpanMap) -> (r: bool)
    ensures
        r == keys_parse(span_entries(*spans)),
{
    let n: usize = span_map_len(spans);
    let mut i: usize = 0;
    while i < n
        invariant
            i <= n == span_entries(*spans).len(),
            forall|k: int|
                0 <= k < i ==> parsed_pointer((#[trigger] span_entries(*spans)[k]).0) is Ok,
        decreases n - i,
    {
        match span_map_entry(spans, i) {
            Some((key, _span)) => {
                if Pointer::parse(key.as_str()).is_err() {
                    assert(parsed_pointer(span_entries(*spans)[i as int].0) is Err);
                    return false;
                }
            },
            None => {},
        }
        i += 1;
    }
    true
}

/// Parses JSON into a document that can be edited in place, or nothing where a
/// key on the way to a scalar is empty. Bytes that spell a value and are parsed
/// give that value back.
pub fn parse_json_checked(bytes: &[u8]) -> (r: Option<Result<Document, Error>>)
    ensures
        match r {
            Some(outcome) => json_keys_parse(bytes@) && agrees(outcome, json_document(bytes@)),
            None => !json_keys_parse(bytes@),
        },
        forall|t: Tree| #[trigger]
            spells(bytes@, t) ==> (r matches Some(outcome) ==> (outcome matches Ok(doc)
                && doc@.value == t)),
{
    match parse_with_spans(bytes) {
        Ok((_value, spans)) => {
            if !span_keys_parse(&spans) {
                return None;
            }
        },
        Err(_) => {},
    }
    Some(parse_json_with_spans(bytes))
}

// ---------------------------------------------------------------------------
// Writing
// ---------------------------------------------------------------------------

/// What is written of a JSON text that may break off at a float that is not
/// finite.
pub open spec fn json_emission(text: (Seq<char>, bool)) -> Emission {
    (
        encode_utf8(text.0),
        if text.1 {
            Ok(())
        } else {
            Err(not_finite_fault())
        },
    )
}

/// The value that is written: documents of a stream stand in an array.
pub open spec fn written_value(doc: DocModel) -> Tree {
    match doc.values() {
        Some(items) => Tree::Array(items),
        None => doc.value,
    }
}

/// What the JSON writer makes of a document: its source where it has one, else
/// its value with two spaces per level.
pub open spec fn json_written(doc: DocModel) -> Emission {
    if doc.bytes.len() > 0 {
        (doc.bytes, Ok(()))
    } else {
        json_emission(json_pretty(written_value(doc), 2))
    }
}

/// A value as the options lay it out.
pub open spec fn json_laid_out(t: Tree, opts: WriteOptions) -> (Seq<char>, bool) {
    let shown = if opts.sort_keys {
        canonical_tree(t)
    } else {
        t
    };
    match opts.indent {
        Some(n) => if n == 0 {
            json_compact(shown)
        } else {
            json_pretty(shown, n as nat)
        },
        None => json_pretty(shown, 2),
    }
}

/// What the JSON writer makes of a document under options. Without options it
/// is written as it is.
pub open spec fn json_written_with(doc: DocModel, opts: WriteOptions) -> Emission {
    if !opts.sort_keys && opts.indent is None {
        json_written(doc)
    } else {
        json_emission(json_laid_out(written_value(doc), opts))
    }
}

/// Appends a JSON text that may have broken off.
pub fn append_json(w: &mut Vec<u8>, text: &str, whole: bool) -> (r: Result<(), Error>)
    ensures
        emitted(r, json_emission((text@, whole)), old(w)@, final(w)@),
{
    append_text(w, text);
    if whole {
        Ok(())
    } else {
        Err(not_finite_error())
    }
}

/// The value that is written.
pub fn value_to_write(doc: &Document) -> (r: Value)
    ensures
        r@ == written_value(doc@),
{
    match doc.values() {
        Some(items) => {
            let mut out: Vec<Value> = Vec::new();
            assert(trees(out@) =~= Seq::<Tree>::empty());
            let mut i: usize = 0;
            while i < items.len()
                invariant
                    i <= items@.len(),
                    out@.len() == i,
                    forall|k: int| 0 <= k < i ==> (#[trigger] out@[k])@ == items@[k]@,
                decreases items@.len() - i,
            {
                out.push(items[i].clone());
                i += 1;
            }
            assert(trees(out@) =~= trees(items@));
            proof {
                lemma_array_view(out);
            }
            Value::Array(out)
        },
        None => doc.value().clone(),
    }
}

/// Appends a value as the options lay it out.
pub fn write_laid_out(value: &Value, w: &mut Vec<u8>, opts: &WriteOptions) -> (r: Result<(), Error>)
    ensures
        emitted(r, json_emission(json_laid_out(value@, *opts)), old(w)@, final(w)@),
{
    let shown: Value = if opts.sort_keys {
        canonicalize_keys(value)
    } else {
        value.clone()
    };
    let mut text: String = String::new();
    assert(text@ =~= Seq::<char>::empty());
    let whole: bool = match opts.indent {
        Some(n) => if n == 0 {
            write_value_compact(&shown, &mut text)
        } else {
            write_value_pretty_with_step(&shown, &mut text, n as usize)
        },
        None => write_value_pretty_with_step(&shown, &mut text, 2),
    };
    assert(text@ =~= json_laid_out(value@, *opts).0);
    append_json(w, text.as_str(), whole)
}

impl Format for Json {
    open spec fn tag(&self) -> FormatTag {
        FormatTag::Json
    }

    open spec fn parses(&self, bytes: Seq<u8>) -> bool {
        json_keys_parse(bytes)
    }

    open spec fn parse_model(&self, bytes: Seq<u8>) -> Result<DocModel, Fault> {
        json_document(bytes)
    }

    open spec fn write_model(&self, doc: DocModel) -> Emission {
        json_written(doc)
    }

    open spec fn options_model(&self, doc: DocModel, opts: WriteOptions) -> Emission {
        json_written_with(doc, opts)
    }

    fn name(&self) -> (r: &'static str) {
        FormatTag::Json.name()
    }

    fn extensions(&self) -> (r: Vec<&'static str>) {
        extension_list(FormatTag::Json)
    }

    /// Bytes that spell a value give that value back.
    fn parse(&self, bytes: &[u8]) -> (r: Result<Document, Error>)
        ensures
            forall|t: Tree| #[trigger] spells(bytes@, t) ==> (r matches Ok(doc) && doc@.value == t),
    {
        parse_json_with_spans(bytes)
    }

    fn parse_checked(&self, bytes: &[u8]) -> (r: Option<Result<Document, Error>>) {
        parse_json_checked(bytes)
    }

    fn write(&self, doc: &Document, w: &mut Vec<u8>) -> (r: Result<(), Error>) {
        if doc.original_bytes().len() > 0 {
            append_bytes(w, doc.original_bytes());
            return Ok(());
        }
        let plain: WriteOptions = WriteOptions { sort_keys: false, indent: None };
        write_laid_out(&value_to_write(doc), w, &plain)
    }

    fn write_with_options(&self, doc: &Document, w: &mut Vec<u8>, opts: &WriteOptions) -> (r: Result<
        (),
        Error,
    >) {
        if !opts.sort_keys && opts.indent.is_none() {
            return self.write(doc, w);
        }
        write_laid_out(&value_to_write(doc), w, opts)
    }
}

// ---------------------------------------------------------------------------
// Indentation of a source
// ---------------------------------------------------------------------------

/// The indentation that a JSON source uses.
#[derive(Debug, Clone, Copy, PartialEq, Eq, Structural)]
pub enum IndentStyle {
    /// Two spaces.
    TwoSpace,
    /// Four spaces.
    FourSpace,
    /// A tab.
    Tab,
}

/// The number of spaces from `k` on.
pub open spec fn spaces_from(bytes: Seq<u8>, k: int) -> nat
    decreases bytes.len() - k,
{
    if 0 <= k < bytes.len() && bytes[k] == 32u8 {
        1 + spaces_from(bytes, k + 1)
    } else {
        0
    }
}

/// The indentation of the first indented line at or after `k`; two spaces where
/// no line is indented, or by another number of spaces.
pub open spec fn indent_style_from(bytes: Seq<u8>, k: int) -> IndentStyle
    decreases bytes.len() - k,
{
    if !(0 <= k < bytes.len()) {
        IndentStyle::TwoSpace
    } else if (k == 0 || bytes[k - 1] == 10u8) && bytes[k] == 9u8 {
        IndentStyle::Tab
    } else if (k == 0 || bytes[k - 1] == 10u8) && bytes[k] == 32u8 {
        let n = spaces_from(bytes, k);
        if n >= 4 && n % 4 == 0 {
            IndentStyle::FourSpace
        } else {
            IndentStyle::TwoSpace
        }
    } else {
        indent_style_from(bytes, k + 1)
    }
}

/// Detects the indentation of the first indented line.
pub fn detect_indent_style(bytes: &[u8]) -> (r: IndentStyle)
    ensures
        r == indent_style_from(bytes@, 0),
{
    let mut i: usize = 0;
    while i < bytes.len()
        invariant
            i <= bytes@.len(),
            indent_style_from(bytes@, i as int) == indent_style_from(bytes@, 0),
        decreases bytes@.len() - i,
    {
        if i == 0 || bytes[i - 1] == 10 {
            if bytes[i] == 9 {
                return IndentStyle::Tab;
            }
            if bytes[i] == 32 {
                let mut end: usize = i;
                while end < bytes.len() && bytes[end] == 32
                    invariant
                        i <= end <= bytes@.len(),
                        spaces_from(bytes@, i as int) == (end - i) + spaces_from(
                            bytes@,
                            end as int,
                        ),
                    decreases bytes@.len() - end,
                {
                    end += 1;
                }
                let count: usize = end - i;
                return if count >= 4 && count % 4 == 0 {
                    IndentStyle::FourSpace
                } else {
                    IndentStyle::TwoSpace
                };
            }
        }
        i += 1;
    }
    IndentStyle::TwoSpace
}

} // verus!
