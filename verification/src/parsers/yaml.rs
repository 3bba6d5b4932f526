//! YAML 1.2, single documents and streams.
//!
//! Two readings stand side by side: one gives the value tree, the other where
//! each scalar stands in the bytes, for editing in place. A number that 64 bits do
//! not hold keeps the literal that stands there.

use crate::bytes::{append_text, copy_bytes};
use crate::document::{bare, keys_parse, DocModel, Document};
use crate::error::{agrees, texts, Error, Fault};
use crate::format::{emitted, extension_list, Emission, Format};
use crate::format_tag::FormatTag;
use crate::ir::{
    provenance_entries, provenance_map_insert, provenance_map_new, InlineBaseline, Origin,
    Provenance, ProvenanceMap,
};
use crate::parsers::json::span_keys_parse;
use crate::parsers::layout::{laid_out, lay_out, Piece, Target};
use crate::parsers::tokens::{plant_tree, planted_tree, token_models, NumberRule, Token, TokenModel};
use crate::parsers::yaml_literals::{
    documents_with_literals, floatless, lemma_floatless_documents_stay, seem_floatless, Places,
};
use crate::parsers::yaml_spans::{
    build_span_map_and_block_scalars, yaml_walk, WalkModel, WalkState,
};
use crate::parsers::yaml_spelling::{
    is_yaml_plain, lemma_layout_makes_the_value, lemma_plain_layout, spells_yaml, yaml_depth,
};
use crate::parsers::yaml_values::{
    find_stream_fault, layouts, read_documents, write_layout, yaml_documents, yaml_stream_fault,
    yaml_text, YamlFault, YamlFaultModel,
};
use crate::pointer::{parsed_pointer, Pointer};
use crate::spans::{span_entries, span_map_entry, span_map_len, SpanMap, ValueSpan};
use crate::text::same_text;
use crate::value::{inserted, lemma_array_view, trees, Tree, Value};
use crate::write_options::{canonical_tree, canonicalize_keys, WriteOptions};
use vstd::prelude::*;
use vstd::utf8::encode_utf8;

verus! {

/// YAML format implementation.
#[derive(Debug, Clone, Copy)]
pub struct Yaml;

// ---------------------------------------------------------------------------
// Reading values
// ---------------------------------------------------------------------------

/// The fault that an objection stands for.
pub open spec fn yaml_fault(f: YamlFaultModel) -> Fault {
    Fault::Parse {
        file: None,
        line: f.line,
        col: f.col,
        start: 0,
        end: 0,
        snippet: Seq::empty(),
        message: f.message,
    }
}

fn map_yaml_err(fault: YamlFault) -> (r: Error)
    ensures
        r@ == yaml_fault(fault@),
{
    let empty: String = String::new();
    assert(empty@ =~= Seq::<char>::empty());
    Error::Parse {
        file: None,
        line: fault.line,
        col: fault.col,
        span: 0..0,
        snippet: empty,
        message: fault.message,
    }
}

/// The value trees that documents lay out.
pub open spec fn document_trees(documents: Seq<Seq<TokenModel>>) -> Seq<
    Tree,
> {
    Seq::new(documents.len(), |i: int| planted_tree(documents[i], NumberRule::Yaml))
}

/// Values with the literals of their numbers, as far as the bytes show where
/// they stand.
pub open spec fn values_with_literals(values: Seq<Tree>, bytes: Seq<u8>) -> Seq<Tree> {
    match yaml_walk(bytes) {
        Ok(walk) => documents_with_literals(values, bytes, walk),
        Err(_) => values,
    }
}

/// The value trees of the documents of a stream.
pub open spec fn yaml_values(bytes: Seq<u8>) -> Result<Seq<Tree>, Fault> {
    match yaml_stream_fault(bytes) {
        Some(f) => Err(yaml_fault(f)),
        None => Ok(values_with_literals(document_trees(yaml_documents(bytes)), bytes)),
    }
}

/// A YAML document, without source or spans: empty for no document, a stream
/// for more than one.
pub open spec fn yaml_document_of(values: Seq<Tree>) -> DocModel {
    if values.len() == 0 {
        bare(Tree::Null, FormatTag::Yaml, false)
    } else if values.len() == 1 {
        bare(values[0], FormatTag::Yaml, false)
    } else {
        bare(Tree::Array(values), FormatTag::Yaml, true)
    }
}

/// What YAML bytes come to.
pub open spec fn yaml_document(bytes: Seq<u8>) -> Result<DocModel, Fault> {
    match yaml_values(bytes) {
        Ok(values) => Ok(yaml_document_of(values)),
        Err(f) => Err(f),
    }
}

/// The value trees that documents lay out.
pub fn plant_documents(documents: &Vec<Vec<Token>>) -> (r: Vec<Value>)
    ensures
        trees(r@) == document_trees(layouts(documents@)),
{
    let ghost all = layouts(documents@);
    let mut out: Vec<Value> = Vec::new();
    let mut i: usize = 0;
    while i < documents.len()
        invariant
            i <= documents@.len(),
            all == layouts(documents@),
            out@.len() == i,
            forall|k: int|
                0 <= k < i ==> (#[trigger] out@[k])@ == planted_tree(all[k], NumberRule::Yaml),
        decreases documents@.len() - i,
    {
        assert(all[i as int] == token_models(documents@[i as int]@));
        out.push(plant_tree(&documents[i], NumberRule::Yaml));
        i += 1;
    }
    assert(trees(out@) =~= document_trees(all));
    out
}

/// Reads the value trees of the documents of a stream, their numbers in 64 bits.
fn read_values(bytes: &[u8]) -> (r: Result<Vec<Value>, Error>)
    ensures
        match (r, yaml_stream_fault(bytes@)) {
            (Ok(values), None) => trees(values@) == document_trees(yaml_documents(bytes@)),
            (Err(e), Some(f)) => e@ == yaml_fault(f),
            _ => false,
        },
        forall|t: Tree| #[trigger]
            spells_yaml(bytes@, t) ==> (r matches Ok(values) && trees(values@) == seq![t]),
{
    match find_stream_fault(bytes) {
        Some(fault) => Err(map_yaml_err(fault)),
        None => {
            let documents: Vec<Vec<Token>> = read_documents(bytes);
            let values: Vec<Value> = plant_documents(&documents);
            assert forall|t: Tree| #[trigger] spells_yaml(bytes@, t) implies trees(values@) == seq![
                t,
            ] by {
                lemma_layout_makes_the_value(layouts(documents@)[0], t, yaml_depth());
                assert(trees(values@) =~= seq![t]);
            }
            Ok(values)
        },
    }
}

/// Reads the value trees of the documents of a stream. The bytes that are
/// written of a plain value give that value back.
pub fn parse_values(bytes: &[u8]) -> (r: Result<Vec<Value>, Error>)
    ensures
        match (r, yaml_values(bytes@)) {
            (Ok(values), Ok(m)) => trees(values@) == m,
            (Err(e), Err(f)) => e@ == f,
            _ => false,
        },
        forall|t: Tree| #[trigger]
            spells_yaml(bytes@, t) ==> (r matches Ok(values) && trees(values@) == seq![t]),
{
    let values: Vec<Value> = match read_values(bytes) {
        Ok(values) => values,
        Err(e) => {
            return Err(e);
        },
    };
    let ghost all = trees(values@);
    proof {
        lemma_plain_values_stay(all, bytes@);
    }
    if seem_floatless(&values) {
        proof {
            if let Ok(walk) = yaml_walk(bytes@) {
                lemma_floatless_documents_stay(all, bytes@, walk);
            }
        }
        return Ok(values);
    }
    match build_span_map_and_block_scalars(bytes) {
        Ok(state) => {
            let places: Places<'_> = Places {
                bytes,
                spans: &state.spans,
                aliases: &state.aliases,
            };
            Ok(places.restore_documents(&values, Ghost(state@)))
        },
        Err(_) => Ok(values),
    }
}

/// A plain value holds no float, and stays as it is.
proof fn lemma_plain_values_stay(values: Seq<Tree>, bytes: Seq<u8>)
    ensures
        forall|t: Tree| #[trigger]
            spells_yaml(bytes, t) && values == seq![t] ==> values_with_literals(values, bytes)
                == values,
{
    assert forall|t: Tree| #[trigger] spells_yaml(bytes, t) && values == seq![
        t,
    ] implies values_with_literals(values, bytes) == values by {
        lemma_plain_is_floatless(t, yaml_depth());
        if let Ok(walk) = yaml_walk(bytes) {
            lemma_floatless_documents_stay(values, bytes, walk);
        }
    }
}

proof fn lemma_plain_is_floatless(t: Tree, depth: nat)
    requires
        is_yaml_plain(t, depth),
    ensures
        floatless(t),
    decreases t,
{
    match t {
        Tree::Array(items) => {
            assert forall|i: int| 0 <= i < items.len() implies floatless(#[trigger] items[i]) by {
                lemma_plain_is_floatless(items[i], (depth - 1) as nat);
            }
        },
        Tree::Object(entries) => {
            assert forall|i: int| 0 <= i < entries.len() implies floatless(
                (#[trigger] entries[i]).1,
            ) by {
                lemma_plain_is_floatless(entries[i].1, (depth - 1) as nat);
            }
        },
        _ => {},
    }
}

fn document_of(values: Vec<Value>) -> (r: Document)
    ensures
        r@ == yaml_document_of(trees(values@)),
{
    if values.len() == 0 {
        Document::value_only(Value::Null, FormatTag::Yaml)
    } else if values.len() == 1 {
        let ghost first = trees(values@)[0];
        let mut rest: Vec<Value> = values;
        let value: Value = rest.remove(0);
        assert(value@ == first);
        Document::value_only(value, FormatTag::Yaml)
    } else {
        Document::multi_value_only(values, FormatTag::Yaml)
    }
}

// ---------------------------------------------------------------------------
// Reading for editing
// ---------------------------------------------------------------------------

/// The value that the documents of a stream stand for: an array where there is
/// more than one.
pub open spec fn stream_value(values: Seq<Tree>) -> Tree {
    if values.len() == 0 {
        Tree::Null
    } else if values.len() == 1 {
        values[0]
    } else {
        Tree::Array(values)
    }
}

/// The value tree of YAML bytes, and where its scalars stand.
pub open spec fn yaml_with_spans(bytes: Seq<u8>) -> Result<(Tree, WalkModel), Fault> {
    match yaml_values(bytes) {
        Err(f) => Err(f),
        Ok(values) => match yaml_walk(bytes) {
            Err(f) => Err(f),
            Ok(walk) => Ok((stream_value(values), walk)),
        },
    }
}

fn parse_with_spans_and_block_scalars(bytes: &[u8]) -> (r: Result<
    (Value, SpanMap, Vec<String>),
    Error,
>)
    ensures
        match (r, yaml_with_spans(bytes@)) {
            (Ok((v, spans, blocks)), Ok((t, walk))) => v@ == t && span_entries(spans) == walk.spans
                && texts(blocks@) == walk.blocks,
            (Err(e), Err(f)) => e@ == f,
            _ => false,
        },
{
    let read: Vec<Value> = match read_values(bytes) {
        Ok(values) => values,
        Err(e) => {
            return Err(e);
        },
    };
    let state: WalkState = match build_span_map_and_block_scalars(bytes) {
        Ok(state) => state,
        Err(e) => {
            return Err(e);
        },
    };
    let places: Places<'_> = Places { bytes, spans: &state.spans, aliases: &state.aliases };
    let values: Vec<Value> = places.restore_documents(&read, Ghost(state@));
    let ghost all = trees(values@);
    let value: Value = if values.len() == 0 {
        Value::Null
    } else if values.len() == 1 {
        values[0].clone()
    } else {
        proof {
            lemma_array_view(values);
        }
        Value::Array(values)
    };
    assert(value@ == stream_value(all));
    Ok((value, state.spans, state.blocks))
}

/// Parses YAML into a value tree and the spans of its scalars.
pub fn parse_with_spans(bytes: &[u8]) -> (r: Result<(Value, SpanMap), Error>)
    ensures
        match (r, yaml_with_spans(bytes@)) {
            (Ok((v, spans)), Ok((t, walk))) => v@ == t && span_entries(spans) == walk.spans,
            (Err(e), Err(f)) => e@ == f,
            _ => false,
        },
{
    match parse_with_spans_and_block_scalars(bytes) {
        Ok((value, spans, _blocks)) => Ok((value, spans)),
        Err(e) => Err(e),
    }
}

/// Where the content of a block scalar starts: at the first byte, line and
/// column of its own text.
pub open spec fn block_baseline() -> InlineBaseline {
    InlineBaseline { byte_start: 0, line: 1, col: 1 }
}

/// The provenance of a value; that of a block scalar has a baseline of its own.
pub open spec fn yaml_origin(entry: (Seq<char>, ValueSpan), blocks: Seq<Seq<char>>) -> Origin {
    Origin::Original {
        pointer: parsed_pointer(entry.0)->Ok_0,
        span: Some(entry.1),
        inline_offset: if blocks.contains(entry.0) {
            Some(block_baseline())
        } else {
            None
        },
    }
}

/// The provenance of the first `k` values.
pub open spec fn yaml_provenance(
    entries: Seq<(Seq<char>, ValueSpan)>,
    blocks: Seq<Seq<char>>,
    k: int,
) -> Seq<(Seq<char>, Origin)>
    decreases k,
{
    if k <= 0 {
        Seq::empty()
    } else {
        inserted(
            yaml_provenance(entries, blocks, k - 1),
            entries[k - 1].0,
            yaml_origin(entries[k - 1], blocks),
        )
    }
}

fn lists_text(list: &Vec<String>, text: &str) -> (r: bool)
    ensures
        r == texts(list@).contains(text@),
{
    let ghost all = texts(list@);
    let mut i: usize = 0;
    while i < list.len()
        invariant
            i <= list@.len(),
            all == texts(list@),
            forall|k: int| 0 <= k < i ==> #[trigger] all[k] != text@,
        decreases list@.len() - i,
    {
        assert(all[i as int] == list@[i as int]@);
        if same_text(list[i].as_str(), text) {
            return true;
        }
        i += 1;
    }
    false
}

/// Builds the provenance of the values of a YAML document.
pub fn build_provenance_with_inline_offsets(spans: &SpanMap, blocks: &Vec<String>) -> (r:
    ProvenanceMap)
    requires
        keys_parse(span_entries(*spans)),
    ensures
        provenance_entries(r) == yaml_provenance(
            span_entries(*spans),
            texts(blocks@),
            span_entries(*spans).len() as int,
        ),
{
    let ghost entries = span_entries(*spans);
    let mut map: ProvenanceMap = provenance_map_new();
    let n: usize = span_map_len(spans);
    let mut i: usize = 0;
    while i < n
        invariant
            i <= n == entries.len(),
            entries == span_entries(*spans),
            keys_parse(entries),
            provenance_entries(map) == yaml_provenance(entries, texts(blocks@), i as int),
        decreases n - i,
    {
        match span_map_entry(spans, i) {
            Some((key, span)) => {
                assert(parsed_pointer(entries[i as int].0) is Ok);
                let inline_offset: Option<InlineBaseline> = if lists_text(blocks, key.as_str()) {
                    Some(InlineBaseline { byte_start: 0, line: 1, col: 1 })
                } else {
                    None
                };
                match Pointer::parse(key.as_str()) {
                    Ok(pointer) => {
                        let origin: Provenance = Provenance::Original {
                            pointer,
                            span: Some(span.clone()),
                            inline_offset,
                        };
                        assert(origin@ == yaml_origin(entries[i as int], texts(blocks@)));
                        provenance_map_insert(&mut map, key.clone(), origin);
                    },
                    Err(_) => {},
                }
            },
            None => {},
        }
        i += 1;
    }
    map
}

/// Whether every place that is recorded can be written as a pointer: no key on
/// the way to a value is empty.
pub open spec fn yaml_keys_parse(bytes: Seq<u8>) -> bool {
    match yaml_with_spans(bytes) {
        Ok((_, walk)) => keys_parse(walk.spans),
        Err(_) => true,
    }
}

/// A YAML document that can be edited in place.
pub open spec fn yaml_editable(bytes: Seq<u8>) -> Result<DocModel, Fault> {
    match yaml_with_spans(bytes) {
        Ok((value, walk)) => Ok(
            DocModel {
                value,
                bytes,
                spans: walk.spans,
                format: FormatTag::Yaml,
                multi: false,
                payload: None,
                provenance: yaml_provenance(walk.spans, walk.blocks, walk.spans.len() as int),
            },
        ),
        Err(f) => Err(f),
    }
}

/// Parses YAML into a document that can be edited in place. A stream of
/// documents becomes an array of them.
pub fn parse_yaml_with_spans(bytes: &[u8]) -> (r: Result<Document, Error>)
    requires
        yaml_keys_parse(bytes@),
    ensures
        agrees(r, yaml_editable(bytes@)),
{
    match parse_with_spans_and_block_scalars(bytes) {
        Ok((value, spans, blocks)) => {
            let provenance: ProvenanceMap = build_provenance_with_inline_offsets(&spans, &blocks);
            let source: Vec<u8> = copy_bytes(bytes, 0, bytes.len());
            assert(bytes@.subrange(0, bytes@.len() as int) =~= bytes@);
            Ok(
                Document::with_spans_and_provenance(
                    value,
                    source,
                    spans,
                    FormatTag::Yaml,
                    provenance,
                ),
            )
        },
        Err(e) => Err(e),
    }
}

/// Parses YAML into a document that can be edited in place, or nothing where a
/// key on the way to a value is empty.
pub fn parse_yaml_checked(bytes: &[u8]) -> (r: Option<Result<Document, Error>>)
    ensures
        match r {
            Some(outcome) => yaml_keys_parse(bytes@) && agrees(outcome, yaml_editable(bytes@)),
            None => !yaml_keys_parse(bytes@),
        },
{
    match parse_with_spans(bytes) {
        Ok((_value, spans)) => {
            if !span_keys_parse(&spans) {
                return None;
            }
        },
        Err(_) => {},
    }
    Some(parse_yaml_with_spans(bytes))
}

// ---------------------------------------------------------------------------
// Writing
// ---------------------------------------------------------------------------

/// What is written of one value.
pub open spec fn yaml_one(t: Tree) -> Emission {
    match laid_out(Target::Yaml, t) {
        Err(f) => (Seq::empty(), Err(f)),
        Ok(pieces) => match yaml_text(pieces) {
            Ok(text) => (encode_utf8(text), Ok(())),
            Err(f) => (Seq::empty(), Err(yaml_fault(f))),
        },
    }
}

/// What is written of the first `k` documents of a stream: each behind the
/// first follows a line of three dashes.
pub open spec fn yaml_stream(items: Seq<Tree>, k: int) -> Emission
    decreases k,
{
    if k <= 0 {
        (Seq::empty(), Ok(()))
    } else {
        let before = yaml_stream(items, k - 1);
        if before.1 is Err {
            before
        } else {
            let one = yaml_one(items[k - 1]);
            (
                before.0 + (if k > 1 {
                    encode_utf8("---\n"@)
                } else {
                    Seq::empty()
                }) + one.0,
                one.1,
            )
        }
    }
}

/// What the YAML writer makes of a document.
pub open spec fn yaml_written(doc: DocModel) -> Emission {
    match doc.values() {
        Some(items) => yaml_stream(items, items.len() as int),
        None => yaml_one(doc.value),
    }
}

/// Values with the keys of every object in order.
pub open spec fn canonical_trees(items: Seq<Tree>) -> Seq<Tree> {
    Seq::new(items.len(), |i: int| canonical_tree(items[i]))
}

/// What the YAML writer makes of a document under options; the indentation is
/// not one of them.
pub open spec fn yaml_written_with(doc: DocModel, opts: WriteOptions) -> Emission {
    if !opts.sort_keys {
        yaml_written(doc)
    } else {
        match doc.values() {
            Some(items) => yaml_stream(canonical_trees(items), items.len() as int),
            None => yaml_one(canonical_tree(doc.value)),
        }
    }
}

fn write_one(v: &Value, w: &mut Vec<u8>) -> (r: Result<(), Error>)
    ensures
        emitted(r, yaml_one(v@), old(w)@, final(w)@),
        is_yaml_plain(v@, yaml_depth()) ==> r is Ok,
{
    proof {
        if is_yaml_plain(v@, yaml_depth()) {
            lemma_plain_layout(v@);
        }
    }
    assert(w@ + Seq::<u8>::empty() =~= w@);
    let pieces: Vec<Piece> = match lay_out(Target::Yaml, v) {
        Ok(pieces) => pieces,
        Err(e) => {
            return Err(e);
        },
    };
    match write_layout(pieces) {
        Ok(text) => {
            append_text(w, text.as_str());
            Ok(())
        },
        Err(fault) => Err(map_yaml_err(fault)),
    }
}

proof fn lemma_stream_fails(items: Seq<Tree>, k: int, n: int)
    requires
        0 <= k <= n,
        yaml_stream(items, k).1 is Err,
    ensures
        yaml_stream(items, n) == yaml_stream(items, k),
    decreases n - k,
{
    if k < n {
        lemma_stream_fails(items, k, n - 1);
    }
}

fn write_stream(items: &[Value], sort_keys: bool, w: &mut Vec<u8>) -> (r: Result<(), Error>)
    ensures
        emitted(
            r,
            yaml_stream(
                if sort_keys {
                    canonical_trees(trees(items@))
                } else {
                    trees(items@)
                },
                items@.len() as int,
            ),
            old(w)@,
            final(w)@,
        ),
{
    let ghost all = if sort_keys {
        canonical_trees(trees(items@))
    } else {
        trees(items@)
    };
    let mut i: usize = 0;
    assert(w@ =~= old(w)@ + yaml_stream(all, 0).0);
    while i < items.len()
        invariant
            i <= items@.len(),
            all == (if sort_keys {
                canonical_trees(trees(items@))
            } else {
                trees(items@)
            }),
            yaml_stream(all, i as int).1 is Ok,
            w@ == old(w)@ + yaml_stream(all, i as int).0,
        decreases items@.len() - i,
    {
        let ghost before = yaml_stream(all, i as int).0;
        let ghost next = yaml_stream(all, i + 1);
        assert(trees(items@)[i as int] == items@[i as int]@);
        if i > 0 {
            append_text(w, "---\n");
        }
        let outcome: Result<(), Error> = if sort_keys {
            write_one(&canonicalize_keys(&items[i]), w)
        } else {
            write_one(&items[i], w)
        };
        assert(w@ =~= old(w)@ + next.0);
        match outcome {
            Ok(()) => {},
            Err(e) => {
                proof {
                    lemma_stream_fails(all, i + 1, all.len() as int);
                }
                return Err(e);
            },
        }
        i += 1;
    }
    Ok(())
}

impl Format for Yaml {
    open spec fn tag(&self) -> FormatTag {
        FormatTag::Yaml
    }

    open spec fn parses(&self, bytes: Seq<u8>) -> bool {
        true
    }

    open spec fn parse_model(&self, bytes: Seq<u8>) -> Result<DocModel, Fault> {
        yaml_document(bytes)
    }

    open spec fn write_model(&self, doc: DocModel) -> Emission {
        yaml_written(doc)
    }

    open spec fn options_model(&self, doc: DocModel, opts: WriteOptions) -> Emission {
        yaml_written_with(doc, opts)
    }

    fn name(&self) -> (r: &'static str) {
        FormatTag::Yaml.name()
    }

    fn extensions(&self) -> (r: Vec<&'static str>) {
        extension_list(FormatTag::Yaml)
    }

    /// The bytes that are written of a plain value give that value back.
    fn parse(&self, bytes: &[u8]) -> (r: Result<Document, Error>)
        ensures
            forall|t: Tree| #[trigger] spells_yaml(bytes@, t) ==> (r matches Ok(doc) && doc@.value
                == t),
    {
        match parse_values(bytes) {
            Ok(values) => Ok(document_of(values)),
            Err(e) => Err(e),
        }
    }

    fn parse_checked(&self, bytes: &[u8]) -> (r: Option<Result<Document, Error>>) {
        Some(self.parse(bytes))
    }

    /// A plain value is written to the end.
    fn write(&self, doc: &Document, w: &mut Vec<u8>) -> (r: Result<(), Error>)
        ensures
            !doc@.multi && is_yaml_plain(doc@.value, yaml_depth()) ==> r is Ok,
    {
        match doc.values() {
            Some(items) => write_stream(items, false, w),
            None => write_one(doc.value(), w),
        }
    }

    fn write_with_options(&self, doc: &Document, w: &mut Vec<u8>, opts: &WriteOptions) -> (r: Result<
        (),
        Error,
    >) {
        if !opts.sort_keys {
            return self.write(doc, w);
        }
        match doc.values() {
            Some(items) => write_stream(items, true, w),
            None => write_one(&canonicalize_keys(doc.value()), w),
        }
    }
}

} // verus!
