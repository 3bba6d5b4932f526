//! The document: a value tree with the source bytes it came from, and the
//! textual edits on them.

use crate::bytes::{append_bytes, copy_bytes};
use crate::document_laws::lemma_spans_outside;
use crate::error::{texts, Error, Fault, PathErrorKind, PathFault};
use crate::format_tag::{format_debug_name, format_name, FormatTag};
use crate::ir::{
    origin_span, provenance_entries, provenance_map_clone, provenance_map_insert,
    provenance_map_new, Ir, IrModel, Origin, Provenance, ProvenanceMap,
};
use crate::pointer::{canonical, copy_segments, parsed_pointer, segs, Pointer, Seg, Segment};
use crate::spans::{
    apply_delta, law_moving_keeps_keys, moved_spans, shifted, signed_shift, span_entries,
    span_map_clone, span_map_entry, span_map_get, span_map_insert, span_map_len, span_map_new,
    span_map_shift_remove, SpanMap, SpanRecomputeDelta, ValueSpan,
};
use crate::text::{has_prefix, same_text, starts_with_text};
use crate::textual_edit::{renderer_for_format, renderer_of, ScalarRenderer};
use crate::tree_edit::{delete_value_at, deleted_in, edit_fault, set_in, set_value_at};
use crate::value::{
    has_key, inserted, key_index, lemma_array_view, lemma_key_index, lemma_key_index_is, lookup,
    trees, type_label_of, unique_keys, Tree, Value,
};
use std::ops::Range;
use vstd::prelude::*;

verus! {

/// What goes with a document that has a header in front of an opaque body.
#[derive(Debug, PartialEq)]
pub struct FrontmatterPayload {
    /// Which format the header is written in.
    pub kind: FrontmatterKind,
    /// The bytes behind the closing delimiter.
    pub body: Vec<u8>,
}

/// The format of a frontmatter header.
#[derive(Debug, Clone, Copy, PartialEq, Eq, Structural)]
pub enum FrontmatterKind {
    /// Between `---` lines.
    Yaml,
    /// Between `+++` lines.
    Toml,
    /// A JSON object followed by a blank line.
    Json,
}

/// A parsed document: a single top-level value or a stream of them.
#[derive(Debug, PartialEq)]
pub struct Document {
    value: Value,
    original_bytes: Vec<u8>,
    spans: SpanMap,
    format: FormatTag,
    multi_doc: bool,
    frontmatter_payload: Option<FrontmatterPayload>,
    provenance: ProvenanceMap,
}

/// What a [`Document`] is, mathematically.
pub struct DocModel {
    /// The value tree; an array of the documents of a stream.
    pub value: Tree,
    /// The source bytes, edits included; empty where there are none.
    pub bytes: Seq<u8>,
    /// Where values live in the bytes.
    pub spans: Seq<(Seq<char>, ValueSpan)>,
    /// The format.
    pub format: FormatTag,
    /// Whether this is a stream of documents.
    pub multi: bool,
    /// The header format and body of a frontmatter document.
    pub payload: Option<(FrontmatterKind, Seq<u8>)>,
    /// Where nodes come from.
    pub provenance: Seq<(Seq<char>, Origin)>,
}

impl View for Document {
    type V = DocModel;

    closed spec fn view(&self) -> DocModel {
        DocModel {
            value: self.value@,
            bytes: self.original_bytes@,
            spans: span_entries(self.spans),
            format: self.format,
            multi: self.multi_doc,
            payload: match self.frontmatter_payload {
                Some(p) => Some((p.kind, p.body@)),
                None => None,
            },
            provenance: provenance_entries(self.provenance),
        }
    }
}

impl Clone for FrontmatterPayload {
    fn clone(&self) -> (r: FrontmatterPayload)
        ensures
            r.kind == self.kind,
            r.body@ == self.body@,
    {
        FrontmatterPayload { kind: self.kind, body: copy_bytes(&self.body, 0, self.body.len()) }
    }
}

impl Clone for Document {
    fn clone(&self) -> (r: Document)
        ensures
            r@ == self@,
    {
        let original_bytes: Vec<u8> = copy_bytes(
            &self.original_bytes,
            0,
            self.original_bytes.len(),
        );
        assert(original_bytes@ =~= self.original_bytes@);
        Document {
            value: self.value.clone(),
            original_bytes,
            spans: span_map_clone(&self.spans),
            format: self.format,
            multi_doc: self.multi_doc,
            frontmatter_payload: match &self.frontmatter_payload {
                Some(payload) => Some(payload.clone()),
                None => None,
            },
            provenance: provenance_map_clone(&self.provenance),
        }
    }
}

/// A document that carries nothing but a value.
pub open spec fn bare(value: Tree, format: FormatTag, multi: bool) -> DocModel {
    DocModel {
        value,
        bytes: Seq::empty(),
        spans: Seq::empty(),
        format,
        multi,
        payload: None,
        provenance: Seq::empty(),
    }
}

/// Whether every key is the written form of a pointer.
pub open spec fn keys_parse(entries: Seq<(Seq<char>, ValueSpan)>) -> bool {
    forall|i: int| 0 <= i < entries.len() ==> parsed_pointer((#[trigger] entries[i]).0) is Ok
}

/// The provenance that goes with a span.
pub open spec fn span_origin(entry: (Seq<char>, ValueSpan)) -> Origin {
    Origin::Original {
        pointer: parsed_pointer(entry.0)->Ok_0,
        span: Some(entry.1),
        inline_offset: None,
    }
}

/// The provenance map that goes with a span map: the same keys, in the order
/// in which they come up.
pub open spec fn provenance_of(entries: Seq<(Seq<char>, ValueSpan)>) -> Seq<(Seq<char>, Origin)>
    decreases entries.len(),
{
    if entries.len() == 0 {
        Seq::empty()
    } else {
        inserted(
            provenance_of(entries.drop_last()),
            entries.last().0,
            span_origin(entries.last()),
        )
    }
}

impl DocModel {
    /// Whether the span keys are written pointers, as every edit relies on.
    pub open spec fn wf(self) -> bool {
        keys_parse(self.spans)
    }

    /// The span of `p`.
    pub open spec fn span(self, p: Seq<Seg>) -> Option<ValueSpan> {
        lookup(self.spans, canonical(p))
    }

    /// Whether the read-only view and the document give the same span for every
    /// pointer.
    pub open spec fn views_agree(self) -> bool {
        forall|q: Seq<Seg>| self.ir().span(q) == #[trigger] self.span(q)
    }

    /// The documents of a stream.
    pub open spec fn values(self) -> Option<Seq<Tree>> {
        match self.value {
            Tree::Array(items) => if self.multi {
                Some(items)
            } else {
                None
            },
            _ => None,
        }
    }

    /// The read-only view.
    pub open spec fn ir(self) -> IrModel {
        IrModel {
            value: self.value,
            provenance: self.provenance,
            format: self.format,
            bytes: self.bytes,
        }
    }
}

/// Whether a provenance map has the keys of a span map, each with the span that
/// it has there.
pub open spec fn same_spans(
    entries: Seq<(Seq<char>, ValueSpan)>,
    provenance: Seq<(Seq<char>, Origin)>,
) -> bool {
    forall|key: Seq<char>|
        origin_span(lookup(provenance, key)) == #[trigger] lookup(entries, key) && has_key(
            provenance,
            key,
        ) == has_key(entries, key)
}

/// Builds the provenance map that goes with a span map.
pub fn provenance_from_spans(spans: &SpanMap) -> (r: ProvenanceMap)
    requires
        keys_parse(span_entries(*spans)),
    ensures
        provenance_entries(r) == provenance_of(span_entries(*spans)),
        unique_keys(span_entries(*spans)),
        same_spans(span_entries(*spans), provenance_entries(r)),
{
    let mut map: ProvenanceMap = provenance_map_new();
    let ghost entries = span_entries(*spans);
    let n: usize = span_map_len(spans);
    let mut i: usize = 0;
    assert(entries.subrange(0, 0) =~= Seq::<(Seq<char>, ValueSpan)>::empty());
    while i < n
        invariant
            i <= n == entries.len(),
            entries == span_entries(*spans),
            keys_parse(entries),
            provenance_entries(map) == provenance_of(entries.subrange(0, i as int)),
        decreases n - i,
    {
        let ghost longer = entries.subrange(0, i + 1);
        assert(longer.drop_last() =~= entries.subrange(0, i as int));
        match span_map_entry(spans, i) {
            Some((key, span)) => {
                assert(entries[i as int] == (key@, *span));
                match Pointer::parse(key.as_str()) {
                    Ok(pointer) => {
                        provenance_map_insert(
                            &mut map,
                            key.clone(),
                            Provenance::original(pointer, Some(span.clone())),
                        );
                    },
                    Err(_) => {
                        assert(false);
                    },
                }
            },
            None => {
                assert(false);
            },
        }
        i += 1;
    }
    assert(entries.subrange(0, n as int) =~= entries);
    proof {
        assert forall|key: Seq<char>|
            origin_span(lookup(provenance_of(entries), key)) == #[trigger] lookup(entries, key)
                && has_key(provenance_of(entries), key) == has_key(entries, key) by {
            law_provenance_agrees_with_spans(entries, key);
        }
    }
    map
}

/// The provenance map built from spans agrees with them on every key.
pub proof fn law_provenance_agrees_with_spans(
    entries: Seq<(Seq<char>, ValueSpan)>,
    key: Seq<char>,
)
    requires
        unique_keys(entries),
    ensures
        origin_span(lookup(provenance_of(entries), key)) == lookup(entries, key),
        has_key(provenance_of(entries), key) == has_key(entries, key),
    decreases entries.len(),
{
    if entries.len() > 0 {
        let front = entries.drop_last();
        let last = entries.last();
        assert forall|i: int, j: int| 0 <= i < j < front.len() implies (#[trigger] front[i]).0 != (
        #[trigger] front[j]).0 by {
            assert(entries[i].0 != entries[j].0);
        }
        law_provenance_agrees_with_spans(front, key);
        crate::value::law_insert_lookup(provenance_of(front), last.0, span_origin(last), key);
        lemma_key_index(front, key);
        lemma_key_index(entries, key);
        let n = front.len() as int;
        if key == last.0 {
            assert forall|k: int| 0 <= k < n implies (#[trigger] entries[k]).0 != key by {
                assert(entries[k].0 != entries[n].0);
            }
            lemma_key_index_is(entries, key, n);
        } else {
            let at = key_index(front, key);
            if at < n {
                assert(entries[at] == front[at]);
                assert forall|k: int| 0 <= k < at implies (#[trigger] entries[k]).0 != key by {
                    assert(front[k].0 != key);
                }
                lemma_key_index_is(entries, key, at);
            } else {
                assert forall|k: int| 0 <= k < entries.len() implies (#[trigger] entries[k]).0
                    != key by {
                    if k < n {
                        assert(front[k].0 != key);
                    }
                }
                lemma_key_index_is(entries, key, entries.len() as int);
            }
        }
        lemma_key_index(provenance_of(entries), key);
    }
}

impl Document {
    /// A single, read-only document.
    pub fn value_only(value: Value, format: FormatTag) -> (r: Document)
        ensures
            r@ == bare(value@, format, false),
    {
        Document {
            value,
            original_bytes: Vec::new(),
            spans: span_map_new(),
            format,
            multi_doc: false,
            frontmatter_payload: None,
            provenance: provenance_map_new(),
        }
    }

    /// A read-only stream of documents.
    pub fn multi_value_only(values: Vec<Value>, format: FormatTag) -> (r: Document)
        ensures
            r@ == bare(Tree::Array(trees(values@)), format, true),
    {
        broadcast use lemma_array_view;

        Document {
            value: Value::Array(values),
            original_bytes: Vec::new(),
            spans: span_map_new(),
            format,
            multi_doc: true,
            frontmatter_payload: None,
            provenance: provenance_map_new(),
        }
    }

    /// A document that can be edited in place.
    pub fn with_spans(
        value: Value,
        original_bytes: Vec<u8>,
        spans: SpanMap,
        format: FormatTag,
    ) -> (r: Document)
        requires
            keys_parse(span_entries(spans)),
        ensures
            r@ == (DocModel {
                value: value@,
                bytes: original_bytes@,
                spans: span_entries(spans),
                format,
                multi: false,
                payload: None,
                provenance: provenance_of(span_entries(spans)),
            }),
            r@.wf(),
            unique_keys(r@.spans),
            r@.views_agree(),
    {
        let provenance: ProvenanceMap = provenance_from_spans(&spans);
        Document {
            value,
            original_bytes,
            spans,
            format,
            multi_doc: false,
            frontmatter_payload: None,
            provenance,
        }
    }

    /// A document that can be edited in place, with its provenance given.
    pub fn with_spans_and_provenance(
        value: Value,
        original_bytes: Vec<u8>,
        spans: SpanMap,
        format: FormatTag,
        provenance: ProvenanceMap,
    ) -> (r: Document)
        ensures
            r@ == (DocModel {
                value: value@,
                bytes: original_bytes@,
                spans: span_entries(spans),
                format,
                multi: false,
                payload: None,
                provenance: provenance_entries(provenance),
            }),
    {
        Document {
            value,
            original_bytes,
            spans,
            format,
            multi_doc: false,
            frontmatter_payload: None,
            provenance,
        }
    }

    /// A read-only document with its source bytes.
    pub fn with_value_and_bytes(value: Value, original_bytes: Vec<u8>, format: FormatTag) -> (r:
        Document)
        ensures
            r@ == (DocModel {
                value: value@,
                bytes: original_bytes@,
                spans: Seq::empty(),
                format,
                multi: false,
                payload: None,
                provenance: Seq::empty(),
            }),
    {
        Document::with_value_bytes_and_provenance(
            value,
            original_bytes,
            format,
            provenance_map_new(),
        )
    }

    /// A read-only document with its source bytes and its provenance.
    pub fn with_value_bytes_and_provenance(
        value: Value,
        original_bytes: Vec<u8>,
        format: FormatTag,
        provenance: ProvenanceMap,
    ) -> (r: Document)
        ensures
            r@ == (DocModel {
                value: value@,
                bytes: original_bytes@,
                spans: Seq::empty(),
                format,
                multi: false,
                payload: None,
                provenance: provenance_entries(provenance),
            }),
    {
        Document {
            value,
            original_bytes,
            spans: span_map_new(),
            format,
            multi_doc: false,
            frontmatter_payload: None,
            provenance,
        }
    }

    /// A parsed header with an opaque body.
    pub fn frontmatter(value: Value, body: Vec<u8>, kind: FrontmatterKind) -> (r: Document)
        ensures
            r@ == (DocModel {
                value: value@,
                bytes: Seq::empty(),
                spans: Seq::empty(),
                format: FormatTag::Frontmatter,
                multi: false,
                payload: Some((kind, body@)),
                provenance: Seq::empty(),
            }),
    {
        Document {
            value,
            original_bytes: Vec::new(),
            spans: span_map_new(),
            format: FormatTag::Frontmatter,
            multi_doc: false,
            frontmatter_payload: Some(FrontmatterPayload { kind, body }),
            provenance: provenance_map_new(),
        }
    }

    /// A single document without a format of its own.
    pub fn single(value: Value) -> (r: Document)
        ensures
            r@ == bare(value@, FormatTag::Yaml, false),
    {
        Document::value_only(value, FormatTag::Yaml)
    }

    /// A stream of documents without a format of its own.
    pub fn multi(values: Vec<Value>) -> (r: Document)
        ensures
            r@ == bare(Tree::Array(trees(values@)), FormatTag::Yaml, true),
    {
        Document::multi_value_only(values, FormatTag::Yaml)
    }

    /// The value; for a stream, the array of its documents.
    pub fn value(&self) -> (r: &Value)
        ensures
            r@ == self@.value,
    {
        &self.value
    }

    /// The value, to be changed in place.
    pub fn value_mut(&mut self) -> (r: &mut Value)
        ensures
            r@ == old(self)@.value,
            final(self)@ == (DocModel { value: final(r)@, ..old(self)@ }),
    {
        &mut self.value
    }

    /// Whether this is a stream of documents.
    pub fn is_multi(&self) -> (r: bool)
        ensures
            r == self@.multi,
    {
        self.multi_doc
    }

    /// The documents of a stream.
    pub fn values(&self) -> (r: Option<&[Value]>)
        ensures
            match r {
                Some(items) => self@.values() == Some(trees(items@)),
                None => self@.values() is None,
            },
    {
        broadcast use lemma_array_view;

        if !self.multi_doc {
            return None;
        }
        match &self.value {
            Value::Array(items) => Some(items.as_slice()),
            _ => None,
        }
    }

    /// The source bytes, edits included.
    pub fn original_bytes(&self) -> (r: &[u8])
        ensures
            r@ == self@.bytes,
    {
        self.original_bytes.as_slice()
    }

    /// The span map.
    pub fn spans(&self) -> (r: &SpanMap)
        ensures
            span_entries(*r) == self@.spans,
            unique_keys(self@.spans),
    {
        let n: usize = span_map_len(&self.spans);
        assert(self@.spans.subrange(0, n as int) =~= self@.spans);
        &self.spans
    }

    /// The span of the value at `pointer`.
    pub fn span_at(&self, pointer: &Pointer) -> (r: Option<&ValueSpan>)
        ensures
            match r {
                Some(s) => self@.span(pointer@) == Some(*s),
                None => self@.span(pointer@) is None,
            },
    {
        let key: String = pointer.as_canonical();
        span_map_get(&self.spans, key.as_str())
    }

    /// The format.
    pub fn format(&self) -> (r: FormatTag)
        ensures
            r == self@.format,
    {
        self.format
    }

    /// The read-only view.
    pub fn as_ir(&self) -> (r: Ir<'_>)
        ensures
            r@ == self@.ir(),
    {
        Ir::with_bytes(
            &self.value,
            &self.provenance,
            self.format,
            self.original_bytes.as_slice(),
        )
    }

    /// What goes with a frontmatter document.
    pub fn frontmatter_payload(&self) -> (r: Option<&FrontmatterPayload>)
        ensures
            match r {
                Some(p) => self@.payload == Some((p.kind, p.body@)),
                None => self@.payload is None,
            },
    {
        match &self.frontmatter_payload {
            Some(p) => Some(p),
            None => None,
        }
    }

    /// The type of the value; a stream counts as an array.
    pub fn leaf_type_name(&self) -> (r: &'static str)
        ensures
            r@ == if self@.multi {
                "array"@
            } else {
                type_label_of(self@.value)
            },
    {
        if self.multi_doc {
            "array"
        } else {
            self.value.type_label()
        }
    }
}

// ---------------------------------------------------------------------------
// Editing in place
// ---------------------------------------------------------------------------

/// `bytes` with `bytes[start..end]` replaced by `new`.
pub open spec fn spliced(bytes: Seq<u8>, start: int, end: int, new: Seq<u8>) -> Seq<u8> {
    bytes.subrange(0, start) + new + bytes.subrange(end, bytes.len() as int)
}

/// Whether a range lies within `len` bytes.
pub open spec fn range_fits(r: Range<usize>, len: nat) -> bool {
    r.start <= r.end <= len
}

/// The longest proper prefix of `p` that has a span, or the root.
pub open spec fn longest_prefix(spans: Seq<(Seq<char>, ValueSpan)>, p: Seq<Seg>, k: nat) -> Seq<
    char,
>
    decreases k,
{
    if k == 0 {
        Seq::empty()
    } else {
        let c = canonical(p.subrange(0, k - 1));
        if c.len() == 0 || has_key(spans, c) {
            c
        } else {
            longest_prefix(spans, p, (k - 1) as nat)
        }
    }
}

/// The fault for a pointer without a span.
pub open spec fn no_span_fault(spans: Seq<(Seq<char>, ValueSpan)>, p: Seq<Seg>) -> Fault {
    Fault::Path {
        pointer: canonical(p),
        matched_prefix: longest_prefix(spans, p, p.len()),
        kind: PathFault::MissingKey,
        did_you_mean: Seq::empty(),
    }
}

/// The fault for an edit of a document without spans.
pub open spec fn read_only_fault(format: FormatTag, verb: Seq<char>) -> Fault {
    Fault::WriteUnavailable {
        reason: format_name(format)
            + " document was loaded read-only; reload via a write-aware parser to enable "@ + verb,
    }
}

/// The fault for an edit of a format without a renderer.
pub open spec fn no_renderer_fault(format: FormatTag) -> Fault {
    Fault::WriteUnavailable {
        reason: "renderer not registered for format "@ + format_debug_name(format)
            + "; this format will gain write support in Section 3+"@,
    }
}

/// The bytes that replace the value at a span.
pub open spec fn rendered(m: DocModel, span: ValueSpan, v: Tree) -> Seq<u8> {
    renderer_of(m.format)->Some_0.replacement(
        v,
        span.context,
        m.bytes.subrange(span.value_range.start as int, span.value_range.end as int),
    )
}

/// How a replacement moves positions.
pub open spec fn replacement_delta(span: ValueSpan, new_len: nat) -> SpanRecomputeDelta {
    SpanRecomputeDelta {
        at: span.value_range.start,
        old_len: (span.value_range.end - span.value_range.start) as usize,
        new_len: new_len as usize,
    }
}

/// The span of a value after it has been replaced by `new_len` bytes.
pub open spec fn replaced_span(span: ValueSpan, new_len: nat) -> ValueSpan {
    let delta = replacement_delta(span, new_len);
    ValueSpan {
        value_range: Range {
            start: span.value_range.start,
            end: (span.value_range.start + new_len) as usize,
        },
        line_range: Range {
            start: span.line_range.start,
            end: shifted(span.line_range.end, delta.old_len, delta.new_len),
        },
        indent: span.indent,
        context: span.context,
    }
}

/// A document after `v` has been set at `p`, and the outcome. Where the value is
/// refused, the document stays as it was.
pub open spec fn set_model(m: DocModel, p: Seq<Seg>, v: Tree) -> (DocModel, Result<(), Fault>) {
    if m.spans.len() == 0 {
        (m, Err(read_only_fault(m.format, "set"@)))
    } else if renderer_of(m.format) is None {
        (m, Err(no_renderer_fault(m.format)))
    } else {
        match m.span(p) {
            None => (m, Err(no_span_fault(m.spans, p))),
            Some(span) => {
                let new = rendered(m, span, v);
                let moved = moved_spans(m.spans, replacement_delta(span, new.len()));
                let patched = inserted(moved, canonical(p), replaced_span(span, new.len()));
                let bytes = spliced(
                    m.bytes,
                    span.value_range.start as int,
                    span.value_range.end as int,
                    new,
                );
                let tree = set_in(m.value, p, v);
                match tree.1 {
                    Some(kind) => (m, Err(edit_fault(p, kind))),
                    None => (
                        DocModel {
                            value: tree.0,
                            bytes,
                            spans: patched,
                            provenance: provenance_of(patched),
                            ..m
                        },
                        Ok(()),
                    ),
                }
            },
        }
    }
}

/// Whether `v` can be set at `p`: the format can express it, the span lies
/// within the bytes, and the result is not larger than memory.
pub open spec fn can_set(m: DocModel, p: Seq<Seg>, v: Tree) -> bool {
    m.spans.len() > 0 && m.span(p) is Some ==> match renderer_of(m.format) {
        Some(r) => {
            let span = m.span(p)->Some_0;
            &&& r.renders(v)
            &&& range_fits(span.value_range, m.bytes.len())
            &&& m.bytes.len() + rendered(m, span, v).len() <= usize::MAX
        },
        None => true,
    }
}

/// Whether a key is `c` itself or lies below it.
pub open spec fn at_or_below(key: Seq<char>, c: Seq<char>) -> bool {
    key == c || has_prefix(key, c.push('/'))
}

/// The spans that are neither at `c` nor below it, in their order.
pub open spec fn spans_outside(spans: Seq<(Seq<char>, ValueSpan)>, c: Seq<char>) -> Seq<
    (Seq<char>, ValueSpan),
>
    decreases spans.len(),
{
    if spans.len() == 0 {
        Seq::empty()
    } else {
        let before = spans_outside(spans.drop_last(), c);
        if at_or_below(spans.last().0, c) {
            before
        } else {
            before.push(spans.last())
        }
    }
}

/// How a deletion moves positions.
pub open spec fn deletion_delta(span: ValueSpan) -> SpanRecomputeDelta {
    SpanRecomputeDelta {
        at: span.line_range.start,
        old_len: (span.line_range.end - span.line_range.start) as usize,
        new_len: 0,
    }
}

/// A document after the value at `p` has been deleted, and the outcome. Where the
/// deletion is refused, the document stays as it was.
pub open spec fn del_model(m: DocModel, p: Seq<Seg>) -> (DocModel, Result<(), Fault>) {
    if m.spans.len() == 0 {
        (m, Err(read_only_fault(m.format, "del"@)))
    } else if p.len() == 0 {
        (
            m,
            Err(
                edit_fault(
                    p,
                    PathFault::TypeMismatch { expected: "non-root pointer"@, found: "root"@ },
                ),
            ),
        )
    } else {
        match m.span(p) {
            None => (m, Err(no_span_fault(m.spans, p))),
            Some(span) => {
                let bytes = spliced(
                    m.bytes,
                    span.line_range.start as int,
                    span.line_range.end as int,
                    Seq::empty(),
                );
                let spans = moved_spans(
                    spans_outside(m.spans, canonical(p)),
                    deletion_delta(span),
                );
                let tree = deleted_in(m.value, p);
                match tree.1 {
                    Some(kind) => (m, Err(edit_fault(p, kind))),
                    None => (
                        DocModel {
                            value: tree.0,
                            bytes,
                            spans,
                            provenance: provenance_of(spans),
                            ..m
                        },
                        Ok(()),
                    ),
                }
            },
        }
    }
}

/// Whether the lines of the value at `p` lie within the bytes.
pub open spec fn can_del(m: DocModel, p: Seq<Seg>) -> bool {
    m.spans.len() > 0 && p.len() > 0 && m.span(p) is Some ==> range_fits(
        m.span(p)->Some_0.line_range,
        m.bytes.len(),
    )
}

/// Finds the longest proper prefix of `pointer` that has a span.
pub fn longest_existing_prefix(spans: &SpanMap, pointer: &Pointer) -> (r: String)
    ensures
        r@ == longest_prefix(span_entries(*spans), pointer@, pointer@.len()),
{
    let segments: &[Segment] = pointer.segments();
    let mut k: usize = segments.len();
    while k > 0
        invariant
            k <= segments@.len() == pointer@.len(),
            segs(segments@) == pointer@,
            longest_prefix(span_entries(*spans), pointer@, pointer@.len()) == longest_prefix(
                span_entries(*spans),
                pointer@,
                k as nat,
            ),
        decreases k,
    {
        let prefix: Pointer = Pointer::new(copy_segments(segments, k - 1));
        let text: String = prefix.as_canonical();
        if text.as_str().is_empty() {
            return text;
        }
        match span_map_get(spans, text.as_str()) {
            Some(_) => {
                return text;
            },
            None => {},
        }
        k -= 1;
    }
    let empty: String = String::new();
    assert(empty@ =~= Seq::<char>::empty());
    empty
}

/// Replaces `bytes[start..end]` by `new`.
fn splice(bytes: &Vec<u8>, start: usize, end: usize, new: &Vec<u8>) -> (r: Vec<u8>)
    requires
        start <= end <= bytes@.len(),
    ensures
        r@ == spliced(bytes@, start as int, end as int, new@),
{
    let mut out: Vec<u8> = copy_bytes(bytes.as_slice(), 0, start);
    append_bytes(&mut out, new.as_slice());
    let tail: Vec<u8> = copy_bytes(bytes.as_slice(), end, bytes.len());
    append_bytes(&mut out, tail.as_slice());
    out
}

/// Builds the error for an edit of a document without spans.
fn read_only_error(format: FormatTag, verb: &str) -> (r: Error)
    ensures
        r@ == read_only_fault(format, verb@),
{
    let mut reason: String = format.name().to_owned();
    reason.push_str(
        " document was loaded read-only; reload via a write-aware parser to enable ",
    );
    reason.push_str(verb);
    Error::WriteUnavailable { reason }
}

/// Builds the error for an edit of a format without a renderer.
fn no_renderer_error(format: FormatTag) -> (r: Error)
    ensures
        r@ == no_renderer_fault(format),
{
    let mut reason: String = "renderer not registered for format ".to_owned();
    reason.push_str(format.debug_name());
    reason.push_str("; this format will gain write support in Section 3+");
    Error::WriteUnavailable { reason }
}

/// Builds the error for a pointer without a span.
fn no_span_error(spans: &SpanMap, pointer: &Pointer) -> (r: Error)
    ensures
        r@ == no_span_fault(span_entries(*spans), pointer@),
{
    let none: Vec<String> = Vec::new();
    assert(texts(none@) =~= Seq::<Seq<char>>::empty());
    Error::Path {
        pointer: pointer.as_canonical(),
        matched_prefix: longest_existing_prefix(spans, pointer),
        kind: PathErrorKind::MissingKey,
        did_you_mean: none,
    }
}

/// Takes every span at or below `c` out of the map.
fn drop_spans(spans: &mut SpanMap, c: &str)
    ensures
        span_entries(*final(spans)) == spans_outside(span_entries(*old(spans)), c@),
{
    let ghost all = span_entries(*spans);
    let mut below: String = c.to_owned();
    below.push('/');
    // `done` entries have been looked at; the first `i` of the map are those
    // of them that stay.
    let mut i: usize = 0;
    let ghost mut done: int = 0;
    assert(all.subrange(0, 0) =~= Seq::<(Seq<char>, ValueSpan)>::empty());
    assert(spans_outside(all.subrange(0, 0), c@) + all.subrange(0, all.len() as int) =~= all);
    while i < span_map_len(spans)
        invariant
            0 <= done <= all.len(),
            below@ == c@.push('/'),
            i == spans_outside(all.subrange(0, done), c@).len(),
            span_entries(*spans) == spans_outside(all.subrange(0, done), c@) + all.subrange(
                done,
                all.len() as int,
            ),
            forall|k: int|
                0 <= k < i ==> !at_or_below((#[trigger] span_entries(*spans)[k]).0, c@),
        decreases all.len() - done,
    {
        let ghost now = span_entries(*spans);
        let ghost kept = spans_outside(all.subrange(0, done), c@);
        let ghost longer = all.subrange(0, done + 1);
        assert(longer.drop_last() =~= all.subrange(0, done));
        assert(now[i as int] == all[done]);
        let key: String = match span_map_entry(spans, i) {
            Some((k, _)) => k.clone(),
            None => {
                assert(false);
                String::new()
            },
        };
        assert(key@ == all[done].0);
        if same_text(key.as_str(), c) || starts_with_text(key.as_str(), below.as_str()) {
            proof {
                assert forall|k: int| 0 <= k < i implies (#[trigger] now[k]).0 != key@ by {
                    assert(!at_or_below(now[k].0, c@));
                }
                lemma_key_index_is(now, key@, i as int);
            }
            span_map_shift_remove(spans, key.as_str());
            proof {
                assert(span_entries(*spans) =~= kept + all.subrange(done + 1, all.len() as int));
                assert forall|k: int| 0 <= k < i implies !at_or_below(
                    (#[trigger] span_entries(*spans)[k]).0,
                    c@,
                ) by {
                    assert(now[k] == span_entries(*spans)[k]);
                }
            }
        } else {
            i += 1;
            assert(now =~= kept.push(all[done]) + all.subrange(done + 1, all.len() as int));
        }
        proof {
            done = done + 1;
        }
    }
    assert(done == all.len());
    assert(all.subrange(0, all.len() as int) =~= all);
    assert(span_entries(*spans) =~= spans_outside(all, c@));
}

impl Document {
    /// Replaces the value at `pointer`: the rendered bytes go into the source
    /// in place of the old ones, and the spans behind them move.
    ///
    /// Fails where the document carries no spans, where the format has no
    /// renderer, and where the pointer has no span. So a key that is missing is
    /// not put in: the answer is [`PathErrorKind::MissingKey`], in every format,
    /// and the document stays as it was. What goes into the source for a new
    /// entry is rendered by [`InsertionRenderer`](crate::textual_edit::InsertionRenderer),
    /// apart from this method. A value that the tree refuses changes nothing
    /// either.
    pub fn set_at(&mut self, pointer: &Pointer, value: Value) -> (r: Result<(), Error>)
        requires
            old(self)@.wf(),
            can_set(old(self)@, pointer@, value@),
        ensures
            final(self)@ == set_model(old(self)@, pointer@, value@).0,
            match (r, set_model(old(self)@, pointer@, value@).1) {
                (Ok(_), Ok(_)) => true,
                (Err(e), Err(f)) => e@ == f,
                _ => false,
            },
            final(self)@.wf(),
            unique_keys(old(self)@.spans),
            unique_keys(final(self)@.spans),
            r is Ok ==> final(self)@.views_agree(),
            r is Ok ==> same_spans(final(self)@.spans, final(self)@.provenance),
    {
        let count: usize = span_map_len(&self.spans);
        assert(self@.spans.subrange(0, count as int) =~= self@.spans);
        if count == 0 {
            return Err(read_only_error(self.format, "set"));
        }
        let renderer = match renderer_for_format(self.format) {
            Some(renderer) => renderer,
            None => {
                return Err(no_renderer_error(self.format));
            },
        };
        let key: String = pointer.as_canonical();
        let span: ValueSpan = match span_map_get(&self.spans, key.as_str()) {
            Some(span) => span.clone(),
            None => {
                return Err(no_span_error(&self.spans, pointer));
            },
        };
        let ghost before = self@;
        let start: usize = span.value_range.start;
        let end: usize = span.value_range.end;
        let original: Vec<u8> = copy_bytes(self.original_bytes.as_slice(), start, end);
        let new: Vec<u8> = renderer.render_replacement(&value, span.context, original.as_slice());
        assert(new@ == rendered(before, span, value@));
        let delta: SpanRecomputeDelta = SpanRecomputeDelta {
            at: start,
            old_len: end - start,
            new_len: new.len(),
        };
        assert(delta == replacement_delta(span, new@.len()));
        let mut tree: Value = self.value.clone();
        match set_value_at(&mut tree, pointer, value) {
            Ok(_) => {},
            Err(e) => {
                return Err(e);
            },
        }
        self.value = tree;
        self.original_bytes = splice(&self.original_bytes, start, end, &new);
        apply_delta(&mut self.spans, delta);
        let ghost moved = span_entries(self.spans);
        proof {
            lemma_moved_keys_parse(before.spans, delta);
            law_moving_keeps_keys(before.spans, delta, canonical(pointer@));
        }
        let patched: ValueSpan = ValueSpan {
            value_range: start..(start + new.len()),
            line_range: span.line_range.start..signed_shift(
                span.line_range.end,
                delta.old_len,
                delta.new_len,
            ),
            indent: span.indent,
            context: span.context,
        };
        assert(patched == replaced_span(span, new@.len()));
        span_map_insert(&mut self.spans, key, patched);
        proof {
            lemma_key_index(moved, canonical(pointer@));
            lemma_inserted_keys_parse(moved, canonical(pointer@), patched);
        }
        self.provenance = provenance_from_spans(&self.spans);
        Ok(())
    }

    /// Removes the value at `pointer` with the physical lines it occupies, and
    /// every span at or below it.
    ///
    /// Fails where the document carries no spans, at the root, and where the
    /// pointer has no span.
    pub fn del_at(&mut self, pointer: &Pointer) -> (r: Result<(), Error>)
        requires
            old(self)@.wf(),
            can_del(old(self)@, pointer@),
        ensures
            final(self)@ == del_model(old(self)@, pointer@).0,
            match (r, del_model(old(self)@, pointer@).1) {
                (Ok(_), Ok(_)) => true,
                (Err(e), Err(f)) => e@ == f,
                _ => false,
            },
            final(self)@.wf(),
            unique_keys(old(self)@.spans),
            unique_keys(final(self)@.spans),
            r is Ok ==> final(self)@.views_agree(),
            r is Ok ==> same_spans(final(self)@.spans, final(self)@.provenance),
    {
        let count: usize = span_map_len(&self.spans);
        assert(self@.spans.subrange(0, count as int) =~= self@.spans);
        if count == 0 {
            return Err(read_only_error(self.format, "del"));
        }
        if pointer.is_root() {
            let empty: String = String::new();
            let none: Vec<String> = Vec::new();
            assert(empty@ =~= Seq::<char>::empty());
            assert(texts(none@) =~= Seq::<Seq<char>>::empty());
            return Err(
                Error::Path {
                    pointer: pointer.as_canonical(),
                    matched_prefix: empty,
                    kind: PathErrorKind::TypeMismatch {
                        expected: "non-root pointer",
                        found: "root",
                    },
                    did_you_mean: none,
                },
            );
        }
        let key: String = pointer.as_canonical();
        let span: ValueSpan = match span_map_get(&self.spans, key.as_str()) {
            Some(span) => span.clone(),
            None => {
                return Err(no_span_error(&self.spans, pointer));
            },
        };
        let ghost before = self@;
        let start: usize = span.line_range.start;
        let end: usize = span.line_range.end;
        let delta: SpanRecomputeDelta = SpanRecomputeDelta {
            at: start,
            old_len: end - start,
            new_len: 0,
        };
        let mut tree: Value = self.value.clone();
        match delete_value_at(&mut tree, pointer) {
            Ok(_) => {},
            Err(e) => {
                return Err(e);
            },
        }
        self.value = tree;
        let nothing: Vec<u8> = Vec::new();
        assert(nothing@ =~= Seq::<u8>::empty());
        self.original_bytes = splice(&self.original_bytes, start, end, &nothing);
        drop_spans(&mut self.spans, key.as_str());
        apply_delta(&mut self.spans, delta);
        proof {
            lemma_outside_keys_parse(before.spans, canonical(pointer@));
            lemma_moved_keys_parse(spans_outside(before.spans, canonical(pointer@)), delta);
            lemma_spans_outside(before.spans, canonical(pointer@));
            law_moving_keeps_keys(
                spans_outside(before.spans, canonical(pointer@)),
                delta,
                canonical(pointer@),
            );
        }
        self.provenance = provenance_from_spans(&self.spans);
        Ok(())
    }
}

proof fn lemma_moved_keys_parse(spans: Seq<(Seq<char>, ValueSpan)>, delta: SpanRecomputeDelta)
    requires
        keys_parse(spans),
    ensures
        keys_parse(moved_spans(spans, delta)),
{
    let after = moved_spans(spans, delta);
    assert forall|i: int| 0 <= i < after.len() implies parsed_pointer(
        (#[trigger] after[i]).0,
    ) is Ok by {
        assert(after[i].0 == spans[i].0);
    }
}

proof fn lemma_inserted_keys_parse(
    spans: Seq<(Seq<char>, ValueSpan)>,
    key: Seq<char>,
    span: ValueSpan,
)
    requires
        keys_parse(spans),
        has_key(spans, key),
    ensures
        keys_parse(inserted(spans, key, span)),
{
    lemma_key_index(spans, key);
    let after = inserted(spans, key, span);
    assert forall|i: int| 0 <= i < after.len() implies parsed_pointer(
        (#[trigger] after[i]).0,
    ) is Ok by {
        assert(after[i].0 == spans[i].0);
    }
}

proof fn lemma_outside_keys_parse(spans: Seq<(Seq<char>, ValueSpan)>, c: Seq<char>)
    requires
        keys_parse(spans),
    ensures
        keys_parse(spans_outside(spans, c)),
    decreases spans.len(),
{
    if spans.len() > 0 {
        let front = spans.drop_last();
        assert forall|i: int| 0 <= i < front.len() implies parsed_pointer(
            (#[trigger] front[i]).0,
        ) is Ok by {
            assert(front[i] == spans[i]);
        }
        lemma_outside_keys_parse(front, c);
        assert(parsed_pointer(spans[spans.len() - 1].0) is Ok);
    }
}

} // verus!
