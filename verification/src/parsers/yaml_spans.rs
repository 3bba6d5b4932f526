//! Where the scalars of a YAML text stand in its bytes.
//!
//! An alias has no span, and neither has what stands in or under a key that is no
//! scalar: a write there finds nothing to replace.

use crate::error::{texts, unplaced_parse, unplaced_parse_error, Error, Fault};
use crate::numbers::{decimal, index_text};
use crate::parsers::ini_sections::text_pairs;
use crate::parsers::source_lines::{
    extract_line_snippet, make_span, path_text, pointer_for, shown_line, span_of,
};
use crate::parsers::yaml_extents::{bracket_end, find_bracket_end, find_written_range, written_range};
use crate::parsers::yaml_events::{
    event_models, find_scan_fault, read_yaml_events, yaml_events_of, yaml_scan_fault, ScanFault,
    ScanFaultModel, YamlEvent, YamlEventModel, YamlKind, YamlKindModel,
};
use crate::pointer::{escape_segment, escaped};
use crate::position::{
    capped, chars_into_line, continuation, find_line_start, lemma_line_starts_anew, line_start,
    within,
};
use crate::spans::{
    span_entries, span_map_get, span_map_insert, span_map_new, SpanContext, SpanMap, ValueSpan,
};
use crate::utf8_text::{checked_text, utf8_fault_text};
use crate::value::{has_key, inserted};
use vstd::prelude::*;
use vstd::utf8::{decode_utf8, is_continuation_byte, valid_utf8};

verus! {

// ---------------------------------------------------------------------------
// From character positions to byte positions
// ---------------------------------------------------------------------------

/// The positions, among the first `k` bytes, of those that start a character.
pub open spec fn char_starts(bytes: Seq<u8>, k: int) -> Seq<usize>
    decreases k,
{
    if k <= 0 {
        Seq::empty()
    } else if is_continuation_byte(bytes[k - 1]) {
        char_starts(bytes, k - 1)
    } else {
        char_starts(bytes, k - 1).push((k - 1) as usize)
    }
}

/// The byte position of each character, and behind them that of the end.
pub open spec fn byte_offsets(bytes: Seq<u8>) -> Seq<usize> {
    char_starts(bytes, bytes.len() as int).push(bytes.len() as usize)
}

/// The byte position of a character position; one past the end counts as the
/// end.
pub open spec fn byte_at(offsets: Seq<usize>, i: int) -> int {
    if i < offsets.len() {
        offsets[i] as int
    } else if offsets.len() > 0 {
        offsets.last() as int
    } else {
        0
    }
}

/// The byte position of each character of a text, and that of its end.
pub fn build_char_to_byte_map(bytes: &[u8]) -> (r: Vec<usize>)
    ensures
        r@ == byte_offsets(bytes@),
{
    let mut out: Vec<usize> = Vec::new();
    let mut i: usize = 0;
    while i < bytes.len()
        invariant
            i <= bytes@.len(),
            out@ == char_starts(bytes@, i as int),
        decreases bytes@.len() - i,
    {
        if !(0x80 <= bytes[i] && bytes[i] <= 0xbf) {
            out.push(i);
        }
        i += 1;
    }
    out.push(bytes.len());
    out
}

/// The byte position of a character position.
pub fn char_index_to_byte(offsets: &Vec<usize>, i: usize) -> (r: usize)
    ensures
        r == byte_at(offsets@, i as int),
{
    if i < offsets.len() {
        offsets[i]
    } else if offsets.len() > 0 {
        offsets[offsets.len() - 1]
    } else {
        0
    }
}

// ---------------------------------------------------------------------------
// The walk
// ---------------------------------------------------------------------------

/// What a mapping waits for.
#[derive(Debug)]
pub enum Awaited {
    /// A key.
    Key,
    /// The value of a key, which is written this way in a pointer.
    Named(String),
    /// The value of a key that is no scalar, to which no pointer leads.
    Unnamed,
}

/// What an [`Awaited`] is, mathematically.
pub enum AwaitedModel {
    Key,
    Named(Seq<char>),
    Unnamed,
}

impl View for Awaited {
    type V = AwaitedModel;

    open spec fn view(&self) -> AwaitedModel {
        match self {
            Awaited::Key => AwaitedModel::Key,
            Awaited::Named(key) => AwaitedModel::Named(key@),
            Awaited::Unnamed => AwaitedModel::Unnamed,
        }
    }
}

/// An open collection.
#[derive(Debug)]
pub enum SpanFrame {
    /// A mapping: what it waits for, whether it is in flow style, the byte where
    /// it starts, and whether anything was seen in it.
    Mapping(Awaited, bool, usize, bool),
    /// A sequence: the position of the next item, whether it is in flow style,
    /// and the byte where it starts.
    Sequence(usize, bool, usize),
}

/// What a [`SpanFrame`] is, mathematically.
pub enum FrameModel {
    Mapping(AwaitedModel, bool, int, bool),
    Sequence(nat, bool, int),
}

impl View for SpanFrame {
    type V = FrameModel;

    open spec fn view(&self) -> FrameModel {
        match self {
            SpanFrame::Mapping(awaited, flow, start, seen) => FrameModel::Mapping(
                awaited@,
                *flow,
                *start as int,
                *seen,
            ),
            SpanFrame::Sequence(index, flow, start) => FrameModel::Sequence(
                *index as nat,
                *flow,
                *start as int,
            ),
        }
    }
}

/// The models of a sequence of open collections.
pub open spec fn frame_models(frames: Seq<SpanFrame>) -> Seq<FrameModel> {
    Seq::new(frames.len(), |i: int| frames[i]@)
}

/// The anchors of a text and the places of the nodes that they stand on.
pub open spec fn anchor_places(anchors: Seq<(usize, String)>) -> Seq<(int, Seq<char>)> {
    Seq::new(anchors.len(), |i: int| (anchors[i].0 as int, anchors[i].1@))
}

/// What the walk over the events has come to.
pub struct WalkState {
    /// The number of the current document.
    pub doc_index: usize,
    /// Whether a document was seen.
    pub seen_first_doc: bool,
    /// The open collections, outermost first.
    pub stack: Vec<SpanFrame>,
    /// The written segments of the pointer to the current place.
    pub path: Vec<String>,
    /// The spans recorded so far.
    pub spans: SpanMap,
    /// The pointers of the block scalars seen so far.
    pub blocks: Vec<String>,
    /// How many collections are open in or under a key that is no scalar.
    pub passed: usize,
    /// The anchors seen so far, each with the pointer of the node it stands on.
    pub anchors: Vec<(usize, String)>,
    /// The pointers of the aliases seen so far, each with that of the node it
    /// refers to.
    pub aliases: Vec<(String, String)>,
}

/// What a [`WalkState`] is, mathematically.
pub struct WalkModel {
    pub doc_index: nat,
    pub seen_first_doc: bool,
    pub stack: Seq<FrameModel>,
    pub path: Seq<Seq<char>>,
    pub spans: Seq<(Seq<char>, ValueSpan)>,
    pub blocks: Seq<Seq<char>>,
    pub passed: nat,
    pub anchors: Seq<(int, Seq<char>)>,
    pub aliases: Seq<(Seq<char>, Seq<char>)>,
}

impl View for WalkState {
    type V = WalkModel;

    open spec fn view(&self) -> WalkModel {
        WalkModel {
            doc_index: self.doc_index as nat,
            seen_first_doc: self.seen_first_doc,
            stack: frame_models(self.stack@),
            path: texts(self.path@),
            spans: span_entries(self.spans),
            blocks: texts(self.blocks@),
            passed: self.passed as nat,
            anchors: anchor_places(self.anchors@),
            aliases: text_pairs(self.aliases@),
        }
    }
}

/// What the walk goes over: the bytes, the byte positions of the characters,
/// and whether there is more than one document.
pub struct Ground {
    pub bytes: Seq<u8>,
    pub offsets: Seq<usize>,
    pub multi: bool,
}

/// Nothing seen yet.
pub open spec fn walk_start() -> WalkModel {
    WalkModel {
        doc_index: 0,
        seen_first_doc: false,
        stack: Seq::empty(),
        path: Seq::empty(),
        spans: Seq::empty(),
        blocks: Seq::empty(),
        passed: 0,
        anchors: Seq::empty(),
        aliases: Seq::empty(),
    }
}

/// How many segments name the document.
pub open spec fn doc_prefix(multi: bool) -> nat {
    if multi {
        1
    } else {
        0
    }
}

/// Whether the next node is a key.
pub open spec fn key_is_next(stack: Seq<FrameModel>) -> bool {
    stack.len() > 0 && stack.last() matches FrameModel::Mapping(AwaitedModel::Key, _, _, _)
}

/// Whether the next node is the value of a key that is no scalar.
pub open spec fn unnamed_is_next(stack: Seq<FrameModel>) -> bool {
    stack.len() > 0 && stack.last() matches FrameModel::Mapping(AwaitedModel::Unnamed, _, _, _)
}

/// The state in which the innermost mapping waits for something else.
pub open spec fn now_awaiting(m: WalkModel, awaited: AwaitedModel) -> WalkModel {
    WalkModel {
        stack: m.stack.update(
            m.stack.len() - 1,
            match m.stack.last() {
                FrameModel::Mapping(_, flow, start, _) => FrameModel::Mapping(
                    awaited,
                    flow,
                    start,
                    true,
                ),
                f => f,
            },
        ),
        ..m
    }
}

/// What follows a node to which no pointer leads, if the next node is one: the
/// value of a key that is no scalar comes after that key, and a key after that
/// value.
pub open spec fn after_nameless(stack: Seq<FrameModel>) -> Option<AwaitedModel> {
    if key_is_next(stack) {
        Some(AwaitedModel::Unnamed)
    } else if unnamed_is_next(stack) {
        Some(AwaitedModel::Key)
    } else {
        None
    }
}

/// The state in which the path leads to the next value: its key, or its
/// position, has been added.
pub open spec fn value_named(m: WalkModel) -> WalkModel {
    if m.stack.len() == 0 {
        m
    } else {
        match m.stack.last() {
            FrameModel::Mapping(AwaitedModel::Named(key), flow, start, seen) => WalkModel {
                path: m.path.push(key),
                stack: m.stack.update(
                    m.stack.len() - 1,
                    FrameModel::Mapping(AwaitedModel::Key, flow, start, seen),
                ),
                ..m
            },
            FrameModel::Mapping(_, _, _, _) => m,
            FrameModel::Sequence(index, flow, start) => WalkModel {
                path: m.path.push(decimal(index)),
                stack: m.stack.update(
                    m.stack.len() - 1,
                    FrameModel::Sequence(index + 1, flow, start),
                ),
                ..m
            },
        }
    }
}

/// The state in which the value that the path led to is done.
pub open spec fn value_completed(m: WalkModel, multi: bool) -> WalkModel {
    if m.stack.len() > 0 && m.path.len() > doc_prefix(multi) {
        WalkModel { path: m.path.drop_last(), ..m }
    } else {
        m
    }
}

/// The context of a value in the innermost open collection.
pub open spec fn context_in(stack: Seq<FrameModel>) -> SpanContext {
    if stack.len() == 0 {
        SpanContext::BlockMapValue
    } else {
        frame_context(stack.last())
    }
}

/// The context of what stands in a collection.
pub open spec fn frame_context(f: FrameModel) -> SpanContext {
    match f {
        FrameModel::Mapping(_, flow, _, _) => if flow {
            SpanContext::FlowMapValue
        } else {
            SpanContext::BlockMapValue
        },
        FrameModel::Sequence(_, flow, _) => if flow {
            SpanContext::FlowSeqItem
        } else {
            SpanContext::BlockSeqItem
        },
    }
}

/// Whether nothing stands in a collection.
pub open spec fn frame_empty(f: FrameModel) -> bool {
    match f {
        FrameModel::Mapping(_, _, _, seen) => !seen,
        FrameModel::Sequence(index, _, _) => index == 0,
    }
}

/// The byte where a collection starts.
pub open spec fn frame_start(f: FrameModel) -> int {
    match f {
        FrameModel::Mapping(_, _, start, _) => start,
        FrameModel::Sequence(_, _, start) => start,
    }
}

/// Whether a collection that starts at a byte is in flow style.
pub open spec fn starts_flow(bytes: Seq<u8>, start: int) -> bool {
    start < bytes.len() && (bytes[start] == 123u8 || bytes[start] == 91u8)
}

/// The 1-based column of a byte, counted in characters.
pub open spec fn column_of(bytes: Seq<u8>, k: int) -> nat {
    chars_into_line(bytes, within(bytes, k)) + 1
}

/// The state with the innermost collection closed.
pub open spec fn collection_left(m: WalkModel, multi: bool) -> WalkModel {
    WalkModel {
        stack: if m.stack.len() > 0 {
            m.stack.drop_last()
        } else {
            m.stack
        },
        path: if m.path.len() > doc_prefix(multi) {
            m.path.drop_last()
        } else {
            m.path
        },
        ..m
    }
}

/// The span of a collection with nothing in it.
pub open spec fn empty_span(g: Ground, f: FrameModel, end: int) -> ValueSpan {
    span_of(
        g.bytes,
        within(g.bytes, frame_start(f)),
        within(g.bytes, end),
        capped(column_of(g.bytes, frame_start(f))),
        frame_context(f),
    )
}

/// The state with the innermost collection closed, and its own span recorded
/// where nothing stands in it.
pub open spec fn collection_closed(m: WalkModel, g: Ground, at: int, end: int) -> WalkModel {
    let pointer = path_text(m.path);
    if m.stack.len() > 0 && frame_empty(m.stack.last()) && !has_key(m.spans, pointer) {
        collection_left(
            WalkModel {
                spans: inserted(
                    m.spans,
                    pointer,
                    empty_span(
                        g,
                        m.stack.last(),
                        bracket_end(g.bytes, frame_start(m.stack.last()), at, end),
                    ),
                ),
                ..m
            },
            g.multi,
        )
    } else {
        collection_left(m, g.multi)
    }
}

/// The state with the anchor of the node that the path leads to, if it has one.
pub open spec fn anchored(m: WalkModel, anchor: int) -> WalkModel {
    if anchor == 0 {
        m
    } else {
        WalkModel { anchors: m.anchors.push((anchor, path_text(m.path))), ..m }
    }
}

/// The pointer of the node that an anchor stands on: the last of its first `k`
/// places.
pub open spec fn anchor_place(anchors: Seq<(int, Seq<char>)>, anchor: int, k: int) -> Option<
    Seq<char>,
>
    decreases k,
{
    if k <= 0 {
        None
    } else if anchors[k - 1].0 == anchor {
        Some(anchors[k - 1].1)
    } else {
        anchor_place(anchors, anchor, k - 1)
    }
}

/// The state behind an alias: it has no span, and its key or position is taken.
pub open spec fn alias_passed(m: WalkModel, g: Ground, anchor: int) -> WalkModel {
    let n = value_named(m);
    value_completed(
        match anchor_place(n.anchors, anchor, n.anchors.len() as int) {
            Some(place) => WalkModel { aliases: n.aliases.push((path_text(n.path), place)), ..n },
            None => n,
        },
        g.multi,
    )
}

/// The state with a value's span recorded, where the value is written.
pub open spec fn value_recorded(
    m: WalkModel,
    g: Ground,
    e: YamlEventModel,
    text: Seq<char>,
    block: bool,
) -> WalkModel {
    let n = anchored(value_named(m), e.anchor);
    let pointer = path_text(n.path);
    let start = byte_at(g.offsets, e.start);
    let end = byte_at(g.offsets, e.end);
    let context = context_in(n.stack);
    value_completed(
        WalkModel {
            spans: match written_range(g.bytes, start, end, text, block, context) {
                Some((from, to)) => inserted(
                    n.spans,
                    pointer,
                    span_of(g.bytes, from, to, capped(e.col as nat), context),
                ),
                None => n.spans,
            },
            blocks: if block {
                n.blocks.push(pointer)
            } else {
                n.blocks
            },
            ..n
        },
        g.multi,
    )
}

/// The state with a collection opened. One to which no pointer leads is passed
/// over, with all that is in it.
pub open spec fn collection_opened(m: WalkModel, f: FrameModel, anchor: int) -> WalkModel {
    if m.passed > 0 {
        WalkModel { passed: m.passed + 1, ..m }
    } else {
        match after_nameless(m.stack) {
            Some(awaited) => WalkModel { passed: 1, ..now_awaiting(m, awaited) },
            None => {
                let n = anchored(value_named(m), anchor);
                WalkModel { stack: n.stack.push(f), ..n }
            },
        }
    }
}

/// What one event makes of the state.
pub open spec fn walk_step(m: WalkModel, g: Ground, e: YamlEventModel) -> WalkModel {
    let start = byte_at(g.offsets, e.start);
    match e.kind {
        YamlKindModel::Quiet => m,
        YamlKindModel::DocumentOpened => {
            let index = if m.seen_first_doc {
                m.doc_index + 1
            } else {
                m.doc_index
            };
            WalkModel {
                doc_index: index,
                seen_first_doc: true,
                path: if g.multi {
                    m.path.push(decimal(index))
                } else {
                    m.path
                },
                ..m
            }
        },
        YamlKindModel::DocumentClosed => if g.multi && m.path.len() > 0 {
            WalkModel { path: m.path.drop_last(), ..m }
        } else {
            m
        },
        YamlKindModel::Leaf(text, block) => if m.passed > 0 {
            m
        } else if key_is_next(m.stack) {
            now_awaiting(m, AwaitedModel::Named(escaped(text)))
        } else if unnamed_is_next(m.stack) {
            now_awaiting(m, AwaitedModel::Key)
        } else {
            value_recorded(m, g, e, text, block)
        },
        YamlKindModel::Reference => if m.passed > 0 {
            m
        } else {
            match after_nameless(m.stack) {
                Some(awaited) => now_awaiting(m, awaited),
                None => alias_passed(m, g, e.anchor),
            }
        },
        YamlKindModel::ListOpened => collection_opened(
            m,
            FrameModel::Sequence(0, starts_flow(g.bytes, start), start),
            e.anchor,
        ),
        YamlKindModel::MapOpened => collection_opened(
            m,
            FrameModel::Mapping(AwaitedModel::Key, starts_flow(g.bytes, start), start, false),
            e.anchor,
        ),
        YamlKindModel::ListClosed | YamlKindModel::MapClosed => if m.passed > 0 {
            WalkModel { passed: (m.passed - 1) as nat, ..m }
        } else {
            collection_closed(m, g, start, byte_at(g.offsets, e.end))
        },
    }
}

/// What the first `k` events make of the state.
pub open spec fn walk_run(g: Ground, events: Seq<YamlEventModel>, k: int) -> WalkModel
    decreases k,
{
    if k <= 0 {
        walk_start()
    } else {
        walk_step(walk_run(g, events, k - 1), g, events[k - 1])
    }
}

/// The number of documents among the first `k` events.
pub open spec fn document_count(events: Seq<YamlEventModel>, k: int) -> nat
    decreases k,
{
    if k <= 0 {
        0
    } else {
        document_count(events, k - 1) + if events[k - 1].kind is DocumentOpened {
            1nat
        } else {
            0nat
        }
    }
}

/// Where the scalars of a text stand, given its events.
pub open spec fn walked(bytes: Seq<u8>, events: Seq<YamlEventModel>) -> WalkModel {
    walk_run(
        Ground {
            bytes,
            offsets: byte_offsets(bytes),
            multi: document_count(events, events.len() as int) > 1,
        },
        events,
        events.len() as int,
    )
}

/// Whether no counter of the state is above `n`.
pub open spec fn counts_within(m: WalkModel, n: nat) -> bool {
    &&& m.doc_index <= n
    &&& m.passed <= n
    &&& forall|i: int|
        0 <= i < m.stack.len() ==> (#[trigger] m.stack[i] matches FrameModel::Sequence(index, _, _)
            ==> index <= n)
}

fn detect_container_style(bytes: &[u8], start: usize) -> (r: bool)
    ensures
        r == starts_flow(bytes@, start as int),
{
    start < bytes.len() && (bytes[start] == 123 || bytes[start] == 91)
}

/// The 1-based column of a byte, counted in characters, as a span holds it.
pub fn start_to_col(bytes: &[u8], k: usize) -> (r: u32)
    ensures
        r == capped(column_of(bytes@, k as int)),
{
    let at: usize = if k < bytes.len() {
        k
    } else {
        bytes.len()
    };
    let mut column: usize = 0;
    let mut i: usize = find_line_start(bytes, at);
    proof {
        lemma_line_starts_anew(bytes@, at as int);
    }
    while i < at
        invariant
            line_start(bytes@, at as int) <= i <= at <= bytes@.len(),
            forall|j: int| line_start(bytes@, at as int) <= j < at ==> (#[trigger] bytes@[j]) != 10,
            column == chars_into_line(bytes@, i as int),
            column <= i,
        decreases at - i,
    {
        if !continuation(bytes[i]) {
            column += 1;
        }
        i += 1;
    }
    if column < 0xffff_ffff {
        column as u32 + 1
    } else {
        u32::MAX
    }
}

fn capped_u32(n: usize) -> (r: u32)
    ensures
        r == capped(n as nat),
{
    if n <= 0xffff_ffff {
        n as u32
    } else {
        u32::MAX
    }
}

impl WalkState {
    /// Nothing seen yet.
    pub fn new() -> (r: WalkState)
        ensures
            r@ == walk_start(),
    {
        let r: WalkState = WalkState {
            doc_index: 0,
            seen_first_doc: false,
            stack: Vec::new(),
            path: Vec::new(),
            spans: span_map_new(),
            blocks: Vec::new(),
            passed: 0,
            anchors: Vec::new(),
            aliases: Vec::new(),
        };
        assert(frame_models(r.stack@) =~= Seq::<FrameModel>::empty());
        assert(texts(r.path@) =~= Seq::<Seq<char>>::empty());
        assert(texts(r.blocks@) =~= Seq::<Seq<char>>::empty());
        assert(anchor_places(r.anchors@) =~= Seq::<(int, Seq<char>)>::empty());
        assert(text_pairs(r.aliases@) =~= Seq::<(Seq<char>, Seq<char>)>::empty());
        r
    }

    fn push_segment(&mut self, segment: String)
        ensures
            final(self)@ == (WalkModel { path: old(self)@.path.push(segment@), ..old(self)@ }),
    {
        self.path.push(segment);
        assert(texts(self.path@) =~= texts(old(self).path@).push(segment@));
    }

    fn pop_segment(&mut self)
        requires
            old(self).path@.len() > 0,
        ensures
            final(self)@ == (WalkModel { path: old(self)@.path.drop_last(), ..old(self)@ }),
    {
        let _gone: Option<String> = self.path.pop();
        assert(texts(self.path@) =~= texts(old(self).path@).drop_last());
    }

    fn set_last(&mut self, frame: SpanFrame)
        requires
            old(self).stack@.len() > 0,
        ensures
            final(self)@ == (WalkModel {
                stack: old(self)@.stack.update(old(self)@.stack.len() - 1, frame@),
                ..old(self)@
            }),
    {
        let n: usize = self.stack.len();
        self.stack.set(n - 1, frame);
        assert(frame_models(self.stack@) =~= frame_models(old(self).stack@).update(n - 1, frame@));
    }

    fn push_frame(&mut self, frame: SpanFrame)
        ensures
            final(self)@ == (WalkModel { stack: old(self)@.stack.push(frame@), ..old(self)@ }),
    {
        self.stack.push(frame);
        assert(frame_models(self.stack@) =~= frame_models(old(self).stack@).push(frame@));
    }

    /// Leads the path to the next value.
    fn name_value(&mut self, n: usize)
        requires
            n < usize::MAX,
            counts_within(old(self)@, n as nat),
        ensures
            final(self)@ == value_named(old(self)@),
            counts_within(final(self)@, (n + 1) as nat),
    {
        let depth: usize = self.stack.len();
        if depth == 0 {
            return;
        }
        let ghost before = self@;
        assert(before.stack.last() == self.stack@[depth - 1]@);
        assert(before.stack[depth - 1] == self.stack@[depth - 1]@);
        match &self.stack[depth - 1] {
            SpanFrame::Mapping(Awaited::Named(key), flow, start, seen) => {
                let segment: String = key.clone();
                let frame: SpanFrame = SpanFrame::Mapping(Awaited::Key, *flow, *start, *seen);
                self.push_segment(segment);
                self.set_last(frame);
            },
            SpanFrame::Mapping(_, _, _, _) => {},
            SpanFrame::Sequence(index, flow, start) => {
                let segment: String = index_text(*index);
                let frame: SpanFrame = SpanFrame::Sequence(*index + 1, *flow, *start);
                self.push_segment(segment);
                self.set_last(frame);
            },
        }
    }

    /// Lets the innermost mapping wait for something else.
    fn await_next(&mut self, awaited: Awaited)
        requires
            old(self).stack@.len() > 0,
        ensures
            final(self)@ == now_awaiting(old(self)@, awaited@),
    {
        let depth: usize = self.stack.len();
        let ghost before = self@;
        assert(before.stack.last() == self.stack@[depth - 1]@);
        match &self.stack[depth - 1] {
            SpanFrame::Mapping(_, flow, start, _) => {
                let frame: SpanFrame = SpanFrame::Mapping(awaited, *flow, *start, true);
                self.set_last(frame);
            },
            SpanFrame::Sequence(_, _, _) => {
                assert(before.stack.update(depth - 1, before.stack.last()) =~= before.stack);
            },
        }
    }

    /// What follows the next node where no pointer leads to it.
    fn nameless(&self) -> (r: Option<Awaited>)
        ensures
            match r {
                Some(awaited) => after_nameless(self@.stack) == Some(awaited@),
                None => after_nameless(self@.stack) is None,
            },
            r is Some ==> self.stack@.len() > 0,
    {
        let depth: usize = self.stack.len();
        if depth == 0 {
            return None;
        }
        assert(self@.stack.last() == self.stack@[depth - 1]@);
        match &self.stack[depth - 1] {
            SpanFrame::Mapping(Awaited::Key, _, _, _) => Some(Awaited::Unnamed),
            SpanFrame::Mapping(Awaited::Unnamed, _, _, _) => Some(Awaited::Key),
            _ => None,
        }
    }

    /// Takes in the anchor of the node that the path leads to.
    fn note_anchor(&mut self, anchor: usize)
        ensures
            final(self)@ == anchored(old(self)@, anchor as int),
    {
        if anchor != 0 {
            let pointer: String = pointer_for(&self.path);
            let ghost before = self.anchors@;
            self.anchors.push((anchor, pointer));
            assert(anchor_places(self.anchors@) =~= anchor_places(before).push(
                (anchor as int, pointer@),
            ));
        }
    }

    fn find_anchor(&self, anchor: usize) -> (r: Option<String>)
        ensures
            (match r {
                Some(place) => Some(place@),
                None => None,
            }) == anchor_place(self@.anchors, anchor as int, self@.anchors.len() as int),
    {
        let mut k: usize = self.anchors.len();
        while k > 0
            invariant
                k <= self.anchors@.len(),
                anchor_place(self@.anchors, anchor as int, self@.anchors.len() as int)
                    == anchor_place(self@.anchors, anchor as int, k as int),
            decreases k,
        {
            assert(self@.anchors[k - 1] == (self.anchors@[k - 1].0 as int, self.anchors@[k - 1].1@));
            if self.anchors[k - 1].0 == anchor {
                return Some(self.anchors[k - 1].1.clone());
            }
            k -= 1;
        }
        None
    }

    /// Passes an alias over.
    fn pass_alias(&mut self, multi: bool, anchor: usize, n: usize, g: Ghost<Ground>)
        requires
            n < usize::MAX,
            counts_within(old(self)@, n as nat),
            g@.multi == multi,
        ensures
            final(self)@ == alias_passed(old(self)@, g@, anchor as int),
            counts_within(final(self)@, (n + 1) as nat),
    {
        self.name_value(n);
        match self.find_anchor(anchor) {
            Some(place) => {
                let pointer: String = pointer_for(&self.path);
                let ghost before = self.aliases@;
                self.aliases.push((pointer, place));
                assert(text_pairs(self.aliases@) =~= text_pairs(before).push((pointer@, place@)));
            },
            None => {},
        }
        self.complete_value(multi);
    }

    /// Opens a collection.
    fn open_container(&mut self, frame: SpanFrame, anchor: usize, n: usize)
        requires
            n < usize::MAX,
            counts_within(old(self)@, n as nat),
            frame@ matches FrameModel::Sequence(index, _, _) ==> index == 0,
        ensures
            final(self)@ == collection_opened(old(self)@, frame@, anchor as int),
            counts_within(final(self)@, (n + 1) as nat),
    {
        if self.passed > 0 {
            self.passed = self.passed + 1;
            return;
        }
        match self.nameless() {
            Some(awaited) => {
                self.await_next(awaited);
                self.passed = 1;
            },
            None => {
                self.name_value(n);
                self.note_anchor(anchor);
                self.push_frame(frame);
            },
        }
    }

    fn complete_value(&mut self, multi: bool)
        ensures
            final(self)@ == value_completed(old(self)@, multi),
    {
        let prefix: usize = if multi {
            1
        } else {
            0
        };
        if self.stack.len() > 0 && self.path.len() > prefix {
            self.pop_segment();
        }
    }

    fn leave_container(&mut self, multi: bool)
        ensures
            final(self)@ == collection_left(old(self)@, multi),
    {
        let prefix: usize = if multi {
            1
        } else {
            0
        };
        let _closed: Option<SpanFrame> = self.stack.pop();
        assert(frame_models(self.stack@) =~= collection_left(old(self)@, multi).stack);
        if self.path.len() > prefix {
            self.pop_segment();
        }
    }

    fn value_context(&self) -> (r: SpanContext)
        ensures
            r == context_in(self@.stack),
    {
        let depth: usize = self.stack.len();
        if depth == 0 {
            return SpanContext::BlockMapValue;
        }
        assert(self@.stack.last() == self.stack@[depth - 1]@);
        match &self.stack[depth - 1] {
            SpanFrame::Mapping(_, flow, _, _) => if *flow {
                SpanContext::FlowMapValue
            } else {
                SpanContext::BlockMapValue
            },
            SpanFrame::Sequence(_, flow, _) => if *flow {
                SpanContext::FlowSeqItem
            } else {
                SpanContext::BlockSeqItem
            },
        }
    }

    /// Closes the innermost collection, recording its own span where nothing
    /// stands in it.
    fn leave_container_recording_empty(
        &mut self,
        bytes: &[u8],
        multi: bool,
        at: usize,
        end: usize,
        g: Ghost<Ground>,
    )
        requires
            g@.bytes == bytes@,
            g@.multi == multi,
        ensures
            final(self)@ == collection_closed(old(self)@, g@, at as int, end as int),
    {
        let depth: usize = self.stack.len();
        if depth > 0 {
            assert(self@.stack.last() == self.stack@[depth - 1]@);
            let (empty, start): (bool, usize) = match &self.stack[depth - 1] {
                SpanFrame::Mapping(_, _, start, seen) => (!*seen, *start),
                SpanFrame::Sequence(index, _, start) => (*index == 0, *start),
            };
            if empty {
                let pointer: String = pointer_for(&self.path);
                if span_map_get(&self.spans, pointer.as_str()).is_none() {
                    let from: usize = if start < bytes.len() {
                        start
                    } else {
                        bytes.len()
                    };
                    let stop: usize = find_bracket_end(bytes, start, at, end);
                    let to: usize = if stop < bytes.len() {
                        stop
                    } else {
                        bytes.len()
                    };
                    let indent: u32 = start_to_col(bytes, start);
                    let context: SpanContext = self.value_context();
                    let span: ValueSpan = make_span(bytes, from, to, indent, context);
                    span_map_insert(&mut self.spans, pointer, span);
                }
            }
        }
        self.leave_container(multi);
    }

    fn record_value(
        &mut self,
        bytes: &[u8],
        offsets: &Vec<usize>,
        multi: bool,
        event: &YamlEvent,
        text: &str,
        block: bool,
        n: usize,
        g: Ghost<Ground>,
    )
        requires
            n < usize::MAX,
            counts_within(old(self)@, n as nat),
            g@ == (Ground { bytes: bytes@, offsets: offsets@, multi }),
        ensures
            final(self)@ == value_recorded(old(self)@, g@, event@, text@, block),
            counts_within(final(self)@, (n + 1) as nat),
    {
        self.name_value(n);
        self.note_anchor(event.anchor);
        let pointer: String = pointer_for(&self.path);
        let start: usize = char_index_to_byte(offsets, event.start);
        let end: usize = char_index_to_byte(offsets, event.end);
        let context: SpanContext = self.value_context();
        let indent: u32 = capped_u32(event.col);
        if block {
            let ghost before = self.blocks@;
            self.blocks.push(pointer.clone());
            assert(texts(self.blocks@) =~= texts(before).push(pointer@));
        }
        match find_written_range(bytes, start, end, text, block, context) {
            Some((from, to)) => {
                let span: ValueSpan = make_span(bytes, from, to, indent, context);
                span_map_insert(&mut self.spans, pointer, span);
            },
            None => {},
        }
        self.complete_value(multi);
    }

    fn open_document(&mut self, multi: bool, n: usize)
        requires
            n < usize::MAX,
            counts_within(old(self)@, n as nat),
        ensures
            final(self)@ == ({
                let m = old(self)@;
                let index = if m.seen_first_doc {
                    m.doc_index + 1
                } else {
                    m.doc_index
                };
                WalkModel {
                    doc_index: index,
                    seen_first_doc: true,
                    path: if multi {
                        m.path.push(decimal(index))
                    } else {
                        m.path
                    },
                    ..m
                }
            }),
            counts_within(final(self)@, (n + 1) as nat),
    {
        if self.seen_first_doc {
            self.doc_index = self.doc_index + 1;
        }
        self.seen_first_doc = true;
        if multi {
            let segment: String = index_text(self.doc_index);
            self.push_segment(segment);
        }
    }

    /// Takes one event in. No counter is above `n` before it, nor above `n + 1`
    /// behind it.
    pub fn observe(
        &mut self,
        bytes: &[u8],
        offsets: &Vec<usize>,
        multi: bool,
        event: &YamlEvent,
        n: usize,
    )
        requires
            n < usize::MAX,
            counts_within(old(self)@, n as nat),
        ensures
            final(self)@ == walk_step(
                old(self)@,
                Ground { bytes: bytes@, offsets: offsets@, multi },
                event@,
            ),
            counts_within(final(self)@, (n + 1) as nat),
    {
        let ghost g = Ground { bytes: bytes@, offsets: offsets@, multi };
        match &event.kind {
            YamlKind::Quiet => {},
            YamlKind::DocumentOpened => {
                self.open_document(multi, n);
            },
            YamlKind::DocumentClosed => {
                if multi && self.path.len() > 0 {
                    self.pop_segment();
                }
            },
            YamlKind::Leaf(text, block) => {
                if self.passed > 0 {
                    return;
                }
                match self.nameless() {
                    Some(Awaited::Unnamed) => {
                        self.await_next(Awaited::Named(escape_segment(text.as_str())));
                    },
                    Some(awaited) => {
                        self.await_next(awaited);
                    },
                    None => {
                        self.record_value(
                            bytes,
                            offsets,
                            multi,
                            event,
                            text.as_str(),
                            *block,
                            n,
                            Ghost(g),
                        );
                    },
                }
            },
            YamlKind::Reference => {
                if self.passed > 0 {
                    return;
                }
                match self.nameless() {
                    Some(awaited) => {
                        self.await_next(awaited);
                    },
                    None => {
                        self.pass_alias(multi, event.anchor, n, Ghost(g));
                    },
                }
            },
            YamlKind::ListOpened => {
                let start: usize = char_index_to_byte(offsets, event.start);
                let flow: bool = detect_container_style(bytes, start);
                self.open_container(SpanFrame::Sequence(0, flow, start), event.anchor, n);
            },
            YamlKind::MapOpened => {
                let start: usize = char_index_to_byte(offsets, event.start);
                let flow: bool = detect_container_style(bytes, start);
                self.open_container(
                    SpanFrame::Mapping(Awaited::Key, flow, start, false),
                    event.anchor,
                    n,
                );
            },
            YamlKind::ListClosed | YamlKind::MapClosed => {
                if self.passed > 0 {
                    self.passed = self.passed - 1;
                    return;
                }
                let at: usize = char_index_to_byte(offsets, event.start);
                let end: usize = char_index_to_byte(offsets, event.end);
                self.leave_container_recording_empty(bytes, multi, at, end, Ghost(g));
            },
        }
    }
}

/// The number of documents.
pub fn count_documents(events: &Vec<YamlEvent>) -> (r: usize)
    ensures
        r == document_count(event_models(events@), events@.len() as int),
{
    let ghost models = event_models(events@);
    let mut n: usize = 0;
    let mut i: usize = 0;
    while i < events.len()
        invariant
            n <= i <= events@.len(),
            models == event_models(events@),
            n == document_count(models, i as int),
        decreases events@.len() - i,
    {
        assert(models[i as int] == events@[i as int]@);
        match events[i].kind {
            YamlKind::DocumentOpened => {
                n += 1;
            },
            _ => {},
        }
        i += 1;
    }
    n
}

/// Walks the events of a text, recording where its scalars stand.
pub fn walk_events(bytes: &[u8], events: &Vec<YamlEvent>) -> (r: WalkState)
    ensures
        r@ == walked(bytes@, event_models(events@)),
{
    let ghost models = event_models(events@);
    let multi: bool = count_documents(events) > 1;
    let offsets: Vec<usize> = build_char_to_byte_map(bytes);
    let ghost g = Ground { bytes: bytes@, offsets: offsets@, multi };
    let mut state: WalkState = WalkState::new();
    let mut i: usize = 0;
    while i < events.len()
        invariant
            i <= events@.len(),
            models == event_models(events@),
            g == (Ground { bytes: bytes@, offsets: offsets@, multi }),
            state@ == walk_run(g, models, i as int),
            counts_within(state@, i as nat),
        decreases events@.len() - i,
    {
        assert(models[i as int] == events@[i as int]@);
        state.observe(bytes, &offsets, multi, &events[i], i);
        i += 1;
    }
    state
}

// ---------------------------------------------------------------------------
// From bytes
// ---------------------------------------------------------------------------

/// The fault that an objection of the parser stands for.
pub open spec fn scan_fault(bytes: Seq<u8>, f: ScanFaultModel) -> Fault {
    let at = byte_at(byte_offsets(bytes), f.index);
    Fault::Parse {
        file: None,
        line: capped(f.line as nat),
        col: capped((f.col + 1) as nat),
        start: at,
        end: at,
        snippet: shown_line(bytes, at),
        message: f.info,
    }
}

/// Turns an objection of the parser into an error.
pub fn scan_to_parse_error(bytes: &[u8], fault: ScanFault) -> (r: Error)
    ensures
        r@ == scan_fault(bytes@, fault@),
{
    let offsets: Vec<usize> = build_char_to_byte_map(bytes);
    let at: usize = char_index_to_byte(&offsets, fault.index);
    let snippet: String = extract_line_snippet(bytes, at);
    let col: u32 = if fault.col < 0xffff_ffff {
        fault.col as u32 + 1
    } else {
        u32::MAX
    };
    Error::Parse {
        file: None,
        line: capped_u32(fault.line),
        col,
        span: at..at,
        snippet,
        message: fault.info,
    }
}

/// Where the scalars of YAML bytes stand, and which of them are block scalars.
pub open spec fn yaml_walk(bytes: Seq<u8>) -> Result<WalkModel, Fault> {
    if !valid_utf8(bytes) {
        Err(unplaced_parse("source is not valid UTF-8: "@ + utf8_fault_text(bytes)))
    } else {
        let text = decode_utf8(bytes);
        match yaml_scan_fault(text) {
            Some(f) => Err(scan_fault(bytes, f)),
            None => Ok(walked(bytes, yaml_events_of(text))),
        }
    }
}

/// Records where the scalars of YAML bytes stand.
pub fn build_span_map_and_block_scalars(bytes: &[u8]) -> (r: Result<WalkState, Error>)
    ensures
        match (r, yaml_walk(bytes@)) {
            (Ok(state), Ok(m)) => state@ == m,
            (Err(e), Err(f)) => e@ == f,
            _ => false,
        },
{
    let text: String = match checked_text(bytes) {
        Ok(text) => text,
        Err(message) => {
            let mut shown: String = "source is not valid UTF-8: ".to_owned();
            shown.push_str(message.as_str());
            return Err(unplaced_parse_error(shown));
        },
    };
    match find_scan_fault(text.as_str()) {
        Some(fault) => Err(scan_to_parse_error(bytes, fault)),
        None => {
            let events: Vec<YamlEvent> = read_yaml_events(text.as_str());
            Ok(walk_events(bytes, &events))
        },
    }
}

} // verus!
