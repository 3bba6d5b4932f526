//! Reading YAML into parser events.

use crate::parsers::yaml_events::YamlKind::{
    DocumentClosed, DocumentOpened, Leaf, ListClosed, ListOpened, MapClosed, MapOpened, Quiet,
    Reference,
};
use saphyr_parser::Event::{
    Alias, DocumentEnd, DocumentStart, MappingEnd, MappingStart, Scalar, SequenceEnd, SequenceStart,
};
use saphyr_parser::Parser;
use saphyr_parser::ScalarStyle::{Folded, Literal};
use vstd::prelude::*;

verus! {

/// What an event stands for.
#[derive(Debug)]
pub enum YamlKind {
    /// A document starts.
    DocumentOpened,
    /// A document ends.
    DocumentClosed,
    /// A scalar: its text, and whether it is a block scalar (`|` or `>`).
    Leaf(String, bool),
    /// An alias of an anchored node.
    Reference,
    /// A sequence starts.
    ListOpened,
    /// A sequence ends.
    ListClosed,
    /// A mapping starts.
    MapOpened,
    /// A mapping ends.
    MapClosed,
    /// Nothing that carries a value.
    Quiet,
}

/// What a [`YamlKind`] is, mathematically.
pub enum YamlKindModel {
    DocumentOpened,
    DocumentClosed,
    Leaf(Seq<char>, bool),
    Reference,
    ListOpened,
    ListClosed,
    MapOpened,
    MapClosed,
    Quiet,
}

/// One event, with the character positions where it starts and ends, the column
/// where it starts, and its anchor.
#[derive(Debug)]
pub struct YamlEvent {
    /// What the event stands for.
    pub kind: YamlKind,
    /// Character position of its start.
    pub start: usize,
    /// Character position of its end.
    pub end: usize,
    /// Column of its start.
    pub col: usize,
    /// The number of the anchor on a node, or of the one that an alias refers to;
    /// zero where there is none.
    pub anchor: usize,
}

/// What a [`YamlEvent`] is, mathematically.
pub struct YamlEventModel {
    pub kind: YamlKindModel,
    pub start: int,
    pub end: int,
    pub col: int,
    pub anchor: int,
}

impl View for YamlKind {
    type V = YamlKindModel;

    open spec fn view(&self) -> YamlKindModel {
        match self {
            YamlKind::DocumentOpened => YamlKindModel::DocumentOpened,
            YamlKind::DocumentClosed => YamlKindModel::DocumentClosed,
            YamlKind::Leaf(text, block) => YamlKindModel::Leaf(text@, *block),
            YamlKind::Reference => YamlKindModel::Reference,
            YamlKind::ListOpened => YamlKindModel::ListOpened,
            YamlKind::ListClosed => YamlKindModel::ListClosed,
            YamlKind::MapOpened => YamlKindModel::MapOpened,
            YamlKind::MapClosed => YamlKindModel::MapClosed,
            YamlKind::Quiet => YamlKindModel::Quiet,
        }
    }
}

impl View for YamlEvent {
    type V = YamlEventModel;

    open spec fn view(&self) -> YamlEventModel {
        YamlEventModel {
            kind: self.kind@,
            start: self.start as int,
            end: self.end as int,
            col: self.col as int,
            anchor: self.anchor as int,
        }
    }
}

/// The models of a sequence of events.
pub open spec fn event_models(events: Seq<YamlEvent>) -> Seq<YamlEventModel> {
    Seq::new(events.len(), |i: int| events[i]@)
}

/// What the parser objects to: line, column and character position, and its
/// words.
#[derive(Debug)]
pub struct ScanFault {
    /// The line, as the parser counts it.
    pub line: usize,
    /// The column, as the parser counts it.
    pub col: usize,
    /// The character position.
    pub index: usize,
    /// What is wrong.
    pub info: String,
}

/// What a [`ScanFault`] is, mathematically.
pub struct ScanFaultModel {
    pub line: int,
    pub col: int,
    pub index: int,
    pub info: Seq<char>,
}

impl View for ScanFault {
    type V = ScanFaultModel;

    open spec fn view(&self) -> ScanFaultModel {
        ScanFaultModel {
            line: self.line as int,
            col: self.col as int,
            index: self.index as int,
            info: self.info@,
        }
    }
}

/// The first error that `saphyr_parser::Parser` reports for a text.
pub uninterp spec fn yaml_scan_fault(text: Seq<char>) -> Option<ScanFaultModel>;

/// `saphyr_parser::Parser::next_event`, called until it reports the end or an
/// error. The result is a function of the text; it is only named here.
///
/// In the crate's `scanner` module, `Scanner::fetch_next_token` keeps at least one
/// simple key at hand while the text is scanned, and an indentation level for each
/// column that it compares with.
#[verifier::external_body]
pub(crate) fn find_scan_fault(text: &str) -> (r: Option<ScanFault>)
    ensures
        yaml_scan_fault(text@) == (match r {
            Some(fault) => Some(fault@),
            None => None,
        }),
{
    let fault = Parser::new_from_str(text).find_map(|item| item.err())?;
    let (line, col) = (fault.marker().line(), fault.marker().col());
    Some(ScanFault { line, col, index: fault.marker().index(), info: fault.info().to_owned() })
}

/// The events that `saphyr_parser::Parser` reports for a text, up to the first
/// error.
pub uninterp spec fn yaml_events_of(text: Seq<char>) -> Seq<YamlEventModel>;

/// `saphyr_parser::Parser::next_event`, called until it reports the end or an
/// error. The result is a function of the text; it is only named here. The
/// positions of its markers count characters, and it numbers the anchors of a
/// text from one on.
#[verifier::external_body]
pub(crate) fn read_yaml_events(text: &str) -> (r: Vec<YamlEvent>)
    ensures
        event_models(r@) == yaml_events_of(text@),
{
    Parser::new_from_str(text).map_while(|item| item.ok()).map(|(event, span)| {
        let (kind, anchor) = match event {
            DocumentStart(_) => (DocumentOpened, 0),
            DocumentEnd => (DocumentClosed, 0),
            Scalar(s, style, n, _) => (Leaf(s.into_owned(), matches!(style, Literal | Folded)), n),
            Alias(n) => (Reference, n),
            SequenceStart(n, _) => (ListOpened, n),
            SequenceEnd => (ListClosed, 0),
            MappingStart(n, _) => (MapOpened, n),
            MappingEnd => (MapClosed, 0),
            _ => (Quiet, 0),
        };
        let col = span.start.col();
        YamlEvent { kind, start: span.start.index(), end: span.end.index(), col, anchor }
    }).collect()
}

} // verus!
