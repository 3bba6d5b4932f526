//! The read-only view of a document with the provenance of its nodes.

use crate::format_tag::FormatTag;
use crate::pointer::{canonical, Pointer, Seg};
use crate::position::{derive_line_col, line_col};
use crate::spans::ValueSpan;
use crate::value::{inserted, lookup, Tree, Value};
use indexmap::IndexMap;
use vstd::prelude::*;

verus! {

/// Why a node was made by a transformation rather than copied from the source.
#[derive(Debug, Clone, Copy, PartialEq, Eq, Structural)]
pub enum SyntheticReason {
    /// Written down by an expression.
    Constructed,
    /// Aggregated over several input nodes.
    Aggregated,
    /// Computed, with no input pointer that could be told.
    Computed,
}

/// Where the text inside a scalar starts, for tools that look into it.
#[derive(Debug, Clone, Copy, PartialEq, Eq, Structural)]
pub struct InlineBaseline {
    /// Byte offset of the first byte of the inner text.
    pub byte_start: usize,
    /// 1-based line of it.
    pub line: u32,
    /// 1-based column of it.
    pub col: u32,
}

/// Where a single node comes from.
#[derive(Debug, PartialEq, Eq)]
pub enum Provenance {
    /// The node corresponds to a pointer in the source document.
    Original {
        /// Source pointer, the parsed form of the key of this entry.
        pointer: Pointer,
        /// Source byte range, when the parser recorded one.
        span: Option<ValueSpan>,
        /// Where the inner text starts, for block scalars.
        inline_offset: Option<InlineBaseline>,
    },
    /// The node was made by a transformation.
    Synthetic {
        /// Why there is no source pointer.
        reason: SyntheticReason,
    },
}

/// What a [`Provenance`] is, mathematically.
pub enum Origin {
    Original {
        pointer: Seq<Seg>,
        span: Option<ValueSpan>,
        inline_offset: Option<InlineBaseline>,
    },
    Synthetic { reason: SyntheticReason },
}

impl View for Provenance {
    type V = Origin;

    open spec fn view(&self) -> Origin {
        match self {
            Provenance::Original { pointer, span, inline_offset } => Origin::Original {
                pointer: pointer@,
                span: *span,
                inline_offset: *inline_offset,
            },
            Provenance::Synthetic { reason } => Origin::Synthetic { reason: *reason },
        }
    }
}

impl Provenance {
    /// The provenance of a node without inner text.
    pub fn original(pointer: Pointer, span: Option<ValueSpan>) -> (r: Provenance)
        ensures
            r@ == (Origin::Original { pointer: pointer@, span, inline_offset: None }),
    {
        Provenance::Original { pointer, span, inline_offset: None }
    }
}

impl Clone for Provenance {
    fn clone(&self) -> (r: Provenance)
        ensures
            r@ == self@,
    {
        match self {
            Provenance::Original { pointer, span, inline_offset } => Provenance::Original {
                pointer: pointer.clone(),
                span: match span {
                    Some(span) => Some(span.clone()),
                    None => None,
                },
                inline_offset: *inline_offset,
            },
            Provenance::Synthetic { reason } => Provenance::Synthetic { reason: *reason },
        }
    }
}

/// Map from canonical pointer texts to provenance, in insertion order.
pub type ProvenanceMap = IndexMap<String, Provenance>;

/// The entries of a provenance map, in order.
pub uninterp spec fn provenance_entries(m: ProvenanceMap) -> Seq<(Seq<char>, Origin)>;

/// `IndexMap::new` makes a map without entries.
#[verifier::external_body]
pub(crate) fn provenance_map_new() -> (r: ProvenanceMap)
    ensures
        provenance_entries(r) == Seq::<(Seq<char>, Origin)>::empty(),
{
    IndexMap::new()
}

/// `IndexMap::get` finds the value under an equal key.
#[verifier::external_body]
pub(crate) fn provenance_map_get<'a>(m: &'a ProvenanceMap, key: &str) -> (r: Option<
    &'a Provenance,
>)
    ensures
        match r {
            Some(p) => lookup(provenance_entries(*m), key@) == Some(p@),
            None => lookup(provenance_entries(*m), key@) is None,
        },
{
    m.get(key)
}

/// `IndexMap::insert` replaces the value under an equal key in its place, or
/// puts a new entry last.
#[verifier::external_body]
pub(crate) fn provenance_map_insert(m: &mut ProvenanceMap, key: String, p: Provenance)
    ensures
        provenance_entries(*final(m)) == inserted(provenance_entries(*old(m)), key@, p@),
{
    m.insert(key, p);
}

/// `IndexMap::clone` clones every key and value, and keeps the order.
#[verifier::external_body]
pub(crate) fn provenance_map_clone(m: &ProvenanceMap) -> (r: ProvenanceMap)
    ensures
        provenance_entries(r) == provenance_entries(*m),
{
    m.clone()
}

/// Borrowed view of a parsed document with its provenance.
#[derive(Debug, Clone, Copy)]
pub struct Ir<'a> {
    value: &'a Value,
    provenance: &'a ProvenanceMap,
    format: FormatTag,
    bytes: &'a [u8],
}

/// What an [`Ir`] is, mathematically.
pub struct IrModel {
    pub value: Tree,
    pub provenance: Seq<(Seq<char>, Origin)>,
    pub format: FormatTag,
    pub bytes: Seq<u8>,
}

/// The span that an origin carries.
pub open spec fn origin_span(o: Option<Origin>) -> Option<ValueSpan> {
    match o {
        Some(Origin::Original { span, .. }) => span,
        _ => None,
    }
}

/// The start of inner text that an origin carries.
pub open spec fn origin_inline_offset(o: Option<Origin>) -> Option<InlineBaseline> {
    match o {
        Some(Origin::Original { inline_offset, .. }) => inline_offset,
        _ => None,
    }
}

impl IrModel {
    /// The provenance of `p`.
    pub open spec fn origin(self, p: Seq<Seg>) -> Option<Origin> {
        lookup(self.provenance, canonical(p))
    }

    /// The span of `p`.
    pub open spec fn span(self, p: Seq<Seg>) -> Option<ValueSpan> {
        origin_span(self.origin(p))
    }
}

impl<'a> View for Ir<'a> {
    type V = IrModel;

    closed spec fn view(&self) -> IrModel {
        IrModel {
            value: self.value@,
            provenance: provenance_entries(*self.provenance),
            format: self.format,
            bytes: self.bytes@,
        }
    }
}

impl<'a> Ir<'a> {
    /// A view without source bytes.
    pub fn new(value: &'a Value, provenance: &'a ProvenanceMap, format: FormatTag) -> (r: Ir<'a>)
        ensures
            r@ == (IrModel {
                value: value@,
                provenance: provenance_entries(*provenance),
                format,
                bytes: Seq::empty(),
            }),
    {
        let r: Ir<'a> = Ir::with_bytes(value, provenance, format, &[]);
        assert(r@.bytes =~= Seq::<u8>::empty());
        r
    }

    /// A view with the bytes that the parser read.
    pub fn with_bytes(
        value: &'a Value,
        provenance: &'a ProvenanceMap,
        format: FormatTag,
        bytes: &'a [u8],
    ) -> (r: Ir<'a>)
        ensures
            r@ == (IrModel {
                value: value@,
                provenance: provenance_entries(*provenance),
                format,
                bytes: bytes@,
            }),
    {
        Ir { value, provenance, format, bytes }
    }

    /// The value tree.
    pub fn value(&self) -> (r: &'a Value)
        ensures
            r@ == self@.value,
    {
        self.value
    }

    /// The provenance map.
    pub fn provenance(&self) -> (r: &'a ProvenanceMap)
        ensures
            provenance_entries(*r) == self@.provenance,
    {
        self.provenance
    }

    /// The format.
    pub fn format(&self) -> (r: FormatTag)
        ensures
            r == self@.format,
    {
        self.format
    }

    /// The source bytes; empty where there are none.
    pub fn bytes(&self) -> (r: &'a [u8])
        ensures
            r@ == self@.bytes,
    {
        self.bytes
    }

    /// The provenance of the node at `pointer`.
    pub fn provenance_for(&self, pointer: &Pointer) -> (r: Option<&'a Provenance>)
        ensures
            match r {
                Some(p) => self@.origin(pointer@) == Some(p@),
                None => self@.origin(pointer@) is None,
            },
    {
        let key: String = pointer.as_canonical();
        provenance_map_get(self.provenance, key.as_str())
    }

    /// The span of the node at `pointer`: none for an unknown pointer, for a
    /// synthetic node, and where the parser recorded none.
    pub fn span_for(&self, pointer: &Pointer) -> (r: Option<&'a ValueSpan>)
        ensures
            match r {
                Some(s) => self@.span(pointer@) == Some(*s),
                None => self@.span(pointer@) is None,
            },
    {
        match self.provenance_for(pointer) {
            Some(Provenance::Original { span, .. }) => match span {
                Some(s) => Some(s),
                None => None,
            },
            _ => None,
        }
    }

    /// Where the text inside the node at `pointer` starts.
    pub fn inline_offset_for(&self, pointer: &Pointer) -> (r: Option<&'a InlineBaseline>)
        ensures
            match r {
                Some(offset) => origin_inline_offset(self@.origin(pointer@)) == Some(*offset),
                None => origin_inline_offset(self@.origin(pointer@)) is None,
            },
    {
        match self.provenance_for(pointer) {
            Some(Provenance::Original { inline_offset, .. }) => match inline_offset {
                Some(offset) => Some(offset),
                None => None,
            },
            _ => None,
        }
    }

    /// The 1-based line and column of the node at `pointer`: none without a
    /// span or without source bytes.
    pub fn line_col_for(&self, pointer: &Pointer) -> (r: Option<(u32, u32)>)
        ensures
            match r {
                Some(at) => self@.bytes.len() > 0 && self@.span(pointer@) is Some && (
                    at.0 as int,
                    at.1 as int,
                ) == line_col(
                    self@.bytes,
                    self@.span(pointer@)->Some_0.value_range.start as int,
                ),
                None => self@.bytes.len() == 0 || self@.span(pointer@) is None,
            },
    {
        match self.span_for(pointer) {
            Some(span) => {
                if self.bytes.len() == 0 {
                    None
                } else {
                    Some(derive_line_col(self.bytes, span.value_range.start))
                }
            },
            None => None,
        }
    }
}

/// A value tree with its provenance and format, owned.
#[derive(Debug, PartialEq)]
pub struct OwnedIr {
    value: Value,
    provenance: ProvenanceMap,
    format: FormatTag,
}

impl View for OwnedIr {
    type V = IrModel;

    closed spec fn view(&self) -> IrModel {
        IrModel {
            value: self.value@,
            provenance: provenance_entries(self.provenance),
            format: self.format,
            bytes: Seq::empty(),
        }
    }
}

impl Clone for OwnedIr {
    fn clone(&self) -> (r: OwnedIr)
        ensures
            r@ == self@,
    {
        OwnedIr {
            value: self.value.clone(),
            provenance: provenance_map_clone(&self.provenance),
            format: self.format,
        }
    }
}

impl OwnedIr {
    /// Puts the three parts together.
    pub fn new(value: Value, provenance: ProvenanceMap, format: FormatTag) -> (r: OwnedIr)
        ensures
            r@ == (IrModel {
                value: value@,
                provenance: provenance_entries(provenance),
                format,
                bytes: Seq::empty(),
            }),
    {
        OwnedIr { value, provenance, format }
    }

    /// Borrows it; the view has no source bytes.
    pub fn to_borrowed(&self) -> (r: Ir<'_>)
        ensures
            r@ == self@,
    {
        Ir::new(&self.value, &self.provenance, self.format)
    }

    /// Takes the three parts apart again.
    pub fn into_parts(self) -> (r: (Value, ProvenanceMap, FormatTag))
        ensures
            r.0@ == self@.value,
            provenance_entries(r.1) == self@.provenance,
            r.2 == self@.format,
    {
        (self.value, self.provenance, self.format)
    }
}

} // verus!
