//! What the walk over the events of a YAML text records, told by the nodes of
//! the text: each scalar under the path that leads to it, and nothing under that
//! of an alias.

use crate::numbers::{decimal, lemma_decimal_value};
use crate::parsers::source_lines::{path_text, span_of};
use crate::parsers::yaml_events::{YamlEventModel, YamlKindModel};
use crate::parsers::yaml_extents::{bracket_end, written_range};
use crate::parsers::yaml_spans::{
    after_nameless, byte_at, byte_offsets, context_in, doc_prefix, document_count, empty_span,
    frame_context, key_is_next, now_awaiting, starts_flow, value_named, walk_run, walk_start,
    walk_step, walked, AwaitedModel, FrameModel, Ground, WalkModel,
};
use crate::pointer::{escaped, law_unescape_escaped, lemma_escaped_has_no_slash};
use crate::position::capped;
use crate::spans::{SpanContext, ValueSpan};
use crate::value::{has_key, inserted, law_insert_lookup, lookup};
use vstd::prelude::*;

verus! {

// ---------------------------------------------------------------------------
// Nodes and their events
// ---------------------------------------------------------------------------

/// Where an event stands, and its anchor.
pub struct Spot {
    pub start: int,
    pub end: int,
    pub col: int,
    pub anchor: int,
}

/// A node of a YAML text.
pub enum YamlNode {
    /// A scalar: its text, whether it is a block scalar, and where it stands.
    Leaf(Seq<char>, bool, Spot),
    /// An alias.
    Alias(Spot),
    /// A sequence: its start, its items, its end.
    List(Spot, Seq<YamlNode>, Spot),
    /// A mapping: its start, its keys and values, its end.
    Table(Spot, Seq<(YamlNode, YamlNode)>, Spot),
}

/// The event of a kind at a spot.
pub open spec fn event_at(kind: YamlKindModel, s: Spot) -> YamlEventModel {
    YamlEventModel { kind, start: s.start, end: s.end, col: s.col, anchor: s.anchor }
}

/// The events of a node.
pub open spec fn node_events(n: YamlNode) -> Seq<YamlEventModel>
    decreases n, 0nat,
{
    match n {
        YamlNode::Leaf(text, block, s) => seq![event_at(YamlKindModel::Leaf(text, block), s)],
        YamlNode::Alias(s) => seq![event_at(YamlKindModel::Reference, s)],
        YamlNode::List(open, items, close) => seq![event_at(YamlKindModel::ListOpened, open)]
            + item_events(items, items.len()) + seq![event_at(YamlKindModel::ListClosed, close)],
        YamlNode::Table(open, entries, close) => seq![event_at(YamlKindModel::MapOpened, open)]
            + entry_events(entries, entries.len()) + seq![
            event_at(YamlKindModel::MapClosed, close),
        ],
    }
}

/// The events of the first `k` items.
pub open spec fn item_events(items: Seq<YamlNode>, k: nat) -> Seq<YamlEventModel>
    decreases items, k,
{
    if k == 0 || k > items.len() {
        Seq::empty()
    } else {
        item_events(items, (k - 1) as nat) + node_events(items[k - 1])
    }
}

/// The events of the first `k` keys and their values.
pub open spec fn entry_events(entries: Seq<(YamlNode, YamlNode)>, k: nat) -> Seq<YamlEventModel>
    decreases entries, k,
{
    if k == 0 || k > entries.len() {
        Seq::empty()
    } else {
        entry_events(entries, (k - 1) as nat) + node_events(entries[k - 1].0) + node_events(
            entries[k - 1].1,
        )
    }
}

// ---------------------------------------------------------------------------
// What is recorded for a node
// ---------------------------------------------------------------------------

/// A sequence of which `k` items were seen.
pub open spec fn list_frame(g: Ground, open: Spot, k: nat) -> FrameModel {
    let start = byte_at(g.offsets, open.start);
    FrameModel::Sequence(k, starts_flow(g.bytes, start), start)
}

/// A mapping in which a key was, or was not, seen, and the next one is due.
pub open spec fn map_frame(g: Ground, open: Spot, seen: bool) -> FrameModel {
    let start = byte_at(g.offsets, open.start);
    FrameModel::Mapping(AwaitedModel::Key, starts_flow(g.bytes, start), start, seen)
}

/// Where a collection ends.
pub open spec fn close_end(g: Ground, open: Spot, close: Spot) -> int {
    bracket_end(
        g.bytes,
        byte_at(g.offsets, open.start),
        byte_at(g.offsets, close.start),
        byte_at(g.offsets, close.end),
    )
}

/// The span of a node that holds no other: that of a scalar is where it is
/// written, and an alias has none.
pub open spec fn own_span(g: Ground, n: YamlNode, context: SpanContext) -> Option<ValueSpan> {
    match n {
        YamlNode::Leaf(text, block, s) => match written_range(
            g.bytes,
            byte_at(g.offsets, s.start),
            byte_at(g.offsets, s.end),
            text,
            block,
            context,
        ) {
            Some((from, to)) => Some(span_of(g.bytes, from, to, capped(s.col as nat), context)),
            None => None,
        },
        YamlNode::Alias(_) => None,
        YamlNode::List(open, items, close) => if items.len() == 0 {
            Some(empty_span(g, list_frame(g, open, 0), close_end(g, open, close)))
        } else {
            None
        },
        YamlNode::Table(open, entries, close) => if entries.len() == 0 {
            Some(empty_span(g, map_frame(g, open, false), close_end(g, open, close)))
        } else {
            None
        },
    }
}

/// The context of what a collection holds.
pub open spec fn inner_context(g: Ground, n: YamlNode) -> SpanContext {
    match n {
        YamlNode::List(open, _, _) => frame_context(list_frame(g, open, 0)),
        YamlNode::Table(open, _, _) => frame_context(map_frame(g, open, false)),
        _ => SpanContext::BlockMapValue,
    }
}

/// The spans with those of a node at `path`: of a scalar its own, of a
/// collection those of what it holds, or its own where it holds nothing.
pub open spec fn placed(
    g: Ground,
    n: YamlNode,
    path: Seq<Seq<char>>,
    context: SpanContext,
    spans: Seq<(Seq<char>, ValueSpan)>,
) -> Seq<(Seq<char>, ValueSpan)>
    decreases n, 0nat,
{
    match n {
        YamlNode::Leaf(_, _, _) => match own_span(g, n, context) {
            Some(span) => inserted(spans, path_text(path), span),
            None => spans,
        },
        YamlNode::Alias(_) => spans,
        YamlNode::List(_, items, _) => if items.len() > 0 {
            placed_items(g, items, items.len(), path, inner_context(g, n), spans)
        } else if has_key(spans, path_text(path)) {
            spans
        } else {
            inserted(spans, path_text(path), own_span(g, n, context)->0)
        },
        YamlNode::Table(_, entries, _) => if entries.len() > 0 {
            placed_entries(g, entries, entries.len(), path, inner_context(g, n), spans)
        } else if has_key(spans, path_text(path)) {
            spans
        } else {
            inserted(spans, path_text(path), own_span(g, n, context)->0)
        },
    }
}

/// The spans with those of the first `k` items.
pub open spec fn placed_items(
    g: Ground,
    items: Seq<YamlNode>,
    k: nat,
    path: Seq<Seq<char>>,
    context: SpanContext,
    spans: Seq<(Seq<char>, ValueSpan)>,
) -> Seq<(Seq<char>, ValueSpan)>
    decreases items, k,
{
    if k == 0 || k > items.len() {
        spans
    } else {
        placed(
            g,
            items[k - 1],
            path.push(decimal((k - 1) as nat)),
            context,
            placed_items(g, items, (k - 1) as nat, path, context, spans),
        )
    }
}

/// The spans with those of the values of the first `k` keys. No pointer leads to
/// the value of a key that is no scalar.
pub open spec fn placed_entries(
    g: Ground,
    entries: Seq<(YamlNode, YamlNode)>,
    k: nat,
    path: Seq<Seq<char>>,
    context: SpanContext,
    spans: Seq<(Seq<char>, ValueSpan)>,
) -> Seq<(Seq<char>, ValueSpan)>
    decreases entries, k,
{
    if k == 0 || k > entries.len() {
        spans
    } else {
        let before = placed_entries(g, entries, (k - 1) as nat, path, context, spans);
        match entries[k - 1].0 {
            YamlNode::Leaf(key, _, _) => placed(
                g,
                entries[k - 1].1,
                path.push(escaped(key)),
                context,
                before,
            ),
            _ => before,
        }
    }
}

// ---------------------------------------------------------------------------
// The walk over a node
// ---------------------------------------------------------------------------

/// What the first `k` of some events make of a state.
pub open spec fn walk_over(m: WalkModel, g: Ground, events: Seq<YamlEventModel>, k: nat) -> WalkModel
    decreases k,
{
    if k == 0 || k > events.len() {
        m
    } else {
        walk_step(walk_over(m, g, events, (k - 1) as nat), g, events[k - 1])
    }
}

/// What events make of a state.
pub open spec fn walk_all(m: WalkModel, g: Ground, events: Seq<YamlEventModel>) -> WalkModel {
    walk_over(m, g, events, events.len())
}

proof fn lemma_over_front(
    m: WalkModel,
    g: Ground,
    a: Seq<YamlEventModel>,
    b: Seq<YamlEventModel>,
    k: nat,
)
    requires
        k <= a.len(),
    ensures
        walk_over(m, g, a + b, k) == walk_over(m, g, a, k),
    decreases k,
{
    if k > 0 {
        lemma_over_front(m, g, a, b, (k - 1) as nat);
        assert((a + b)[k - 1] == a[k - 1]);
    }
}

proof fn lemma_over_back(
    m: WalkModel,
    g: Ground,
    a: Seq<YamlEventModel>,
    b: Seq<YamlEventModel>,
    k: nat,
)
    requires
        k <= b.len(),
    ensures
        walk_over(m, g, a + b, a.len() + k) == walk_over(walk_all(m, g, a), g, b, k),
    decreases k,
{
    if k > 0 {
        lemma_over_back(m, g, a, b, (k - 1) as nat);
        assert((a + b)[a.len() + k - 1] == b[k - 1]);
        assert((a.len() + k - 1) as nat == a.len() + (k - 1) as nat);
    } else {
        lemma_over_front(m, g, a, b, a.len());
    }
}

/// The walk over events and then others.
proof fn lemma_walk_joined(
    m: WalkModel,
    g: Ground,
    a: Seq<YamlEventModel>,
    b: Seq<YamlEventModel>,
)
    ensures
        walk_all(m, g, a + b) == walk_all(walk_all(m, g, a), g, b),
{
    lemma_over_back(m, g, a, b, b.len());
}

proof fn lemma_walk_one(m: WalkModel, g: Ground, e: YamlEventModel)
    ensures
        walk_all(m, g, seq![e]) == walk_step(m, g, e),
{
    reveal_with_fuel(walk_over, 2);
}

/// The walk over a collection: its start, what it holds, its end.
proof fn lemma_walk_enclosed(
    m: WalkModel,
    g: Ground,
    open: YamlEventModel,
    inner: Seq<YamlEventModel>,
    close: YamlEventModel,
)
    ensures
        walk_all(m, g, seq![open] + inner + seq![close]) == walk_step(
            walk_all(walk_step(m, g, open), g, inner),
            g,
            close,
        ),
{
    lemma_walk_joined(m, g, seq![open] + inner, seq![close]);
    lemma_walk_joined(m, g, seq![open], inner);
    lemma_walk_one(m, g, open);
    lemma_walk_one(walk_all(m, g, seq![open] + inner), g, close);
}

/// A node inside one that is passed over leaves the state as it is.
proof fn lemma_node_passed(m: WalkModel, g: Ground, n: YamlNode)
    requires
        m.passed > 0,
    ensures
        walk_all(m, g, node_events(n)) == m,
    decreases n, 0nat,
{
    match n {
        YamlNode::Leaf(text, block, s) => {
            lemma_walk_one(m, g, event_at(YamlKindModel::Leaf(text, block), s));
        },
        YamlNode::Alias(s) => {
            lemma_walk_one(m, g, event_at(YamlKindModel::Reference, s));
        },
        YamlNode::List(open, items, close) => {
            let from = event_at(YamlKindModel::ListOpened, open);
            lemma_walk_enclosed(
                m,
                g,
                from,
                item_events(items, items.len()),
                event_at(YamlKindModel::ListClosed, close),
            );
            lemma_items_passed(walk_step(m, g, from), g, items, items.len());
        },
        YamlNode::Table(open, entries, close) => {
            let from = event_at(YamlKindModel::MapOpened, open);
            lemma_walk_enclosed(
                m,
                g,
                from,
                entry_events(entries, entries.len()),
                event_at(YamlKindModel::MapClosed, close),
            );
            lemma_entries_passed(walk_step(m, g, from), g, entries, entries.len());
        },
    }
}

proof fn lemma_items_passed(m: WalkModel, g: Ground, items: Seq<YamlNode>, k: nat)
    requires
        m.passed > 0,
    ensures
        walk_all(m, g, item_events(items, k)) == m,
    decreases items, k,
{
    if 0 < k <= items.len() {
        lemma_items_passed(m, g, items, (k - 1) as nat);
        lemma_node_passed(m, g, items[k - 1]);
        lemma_walk_joined(
            m,
            g,
            item_events(items, (k - 1) as nat),
            node_events(items[k - 1]),
        );
    }
}

proof fn lemma_entries_passed(
    m: WalkModel,
    g: Ground,
    entries: Seq<(YamlNode, YamlNode)>,
    k: nat,
)
    requires
        m.passed > 0,
    ensures
        walk_all(m, g, entry_events(entries, k)) == m,
    decreases entries, k,
{
    if 0 < k <= entries.len() {
        let before = entry_events(entries, (k - 1) as nat);
        lemma_entries_passed(m, g, entries, (k - 1) as nat);
        lemma_node_passed(m, g, entries[k - 1].0);
        lemma_node_passed(m, g, entries[k - 1].1);
        lemma_walk_joined(m, g, before, node_events(entries[k - 1].0));
        lemma_walk_joined(
            m,
            g,
            before + node_events(entries[k - 1].0),
            node_events(entries[k - 1].1),
        );
    }
}

/// A node to which no pointer leads only changes what its mapping waits for.
proof fn lemma_node_nameless(m: WalkModel, g: Ground, n: YamlNode)
    requires
        m.passed == 0,
        after_nameless(m.stack) is Some,
        !(n is Leaf && key_is_next(m.stack)),
    ensures
        walk_all(m, g, node_events(n)) == now_awaiting(m, after_nameless(m.stack)->0),
{
    match n {
        YamlNode::Leaf(text, block, s) => {
            lemma_walk_one(m, g, event_at(YamlKindModel::Leaf(text, block), s));
        },
        YamlNode::Alias(s) => {
            lemma_walk_one(m, g, event_at(YamlKindModel::Reference, s));
        },
        YamlNode::List(open, items, close) => {
            let from = event_at(YamlKindModel::ListOpened, open);
            lemma_walk_enclosed(
                m,
                g,
                from,
                item_events(items, items.len()),
                event_at(YamlKindModel::ListClosed, close),
            );
            lemma_items_passed(walk_step(m, g, from), g, items, items.len());
        },
        YamlNode::Table(open, entries, close) => {
            let from = event_at(YamlKindModel::MapOpened, open);
            lemma_walk_enclosed(
                m,
                g,
                from,
                entry_events(entries, entries.len()),
                event_at(YamlKindModel::MapClosed, close),
            );
            lemma_entries_passed(walk_step(m, g, from), g, entries, entries.len());
        },
    }
}

/// Whether the next node is a value to which the path will lead.
pub open spec fn value_is_next(m: WalkModel, g: Ground) -> bool {
    &&& m.passed == 0
    &&& after_nameless(m.stack) is None
    &&& m.path.len() >= doc_prefix(g.multi)
    &&& m.stack.len() == 0 ==> m.path.len() == doc_prefix(g.multi)
}

/// Whether two states are in the same document.
pub open spec fn same_document(m: WalkModel, after: WalkModel) -> bool {
    after.doc_index == m.doc_index && after.seen_first_doc == m.seen_first_doc
}

/// Whether a node is done: the path is what it was, and the spans are those that
/// the node places.
pub open spec fn node_done(m: WalkModel, g: Ground, n: YamlNode, after: WalkModel) -> bool {
    let named = value_named(m);
    &&& after.passed == 0
    &&& after.stack == named.stack
    &&& after.path == m.path
    &&& same_document(m, after)
    &&& after.spans == placed(g, n, named.path, context_in(named.stack), m.spans)
}

proof fn lemma_single_placed(m: WalkModel, g: Ground, n: YamlNode)
    requires
        value_is_next(m, g),
        n is Leaf || n is Alias,
    ensures
        node_done(m, g, n, walk_all(m, g, node_events(n))),
{
    let named = value_named(m);
    assert(m.stack.len() > 0 ==> named.path.drop_last() =~= m.path);
    match n {
        YamlNode::Leaf(text, block, s) => {
            lemma_walk_one(m, g, event_at(YamlKindModel::Leaf(text, block), s));
        },
        YamlNode::Alias(s) => {
            lemma_walk_one(m, g, event_at(YamlKindModel::Reference, s));
        },
        _ => {},
    }
}

/// A node in the place of a value puts its spans under the path that leads to
/// it, and leaves the path as it was.
pub proof fn law_node_is_placed(m: WalkModel, g: Ground, n: YamlNode)
    requires
        value_is_next(m, g),
    ensures
        node_done(m, g, n, walk_all(m, g, node_events(n))),
    decreases n, 0nat,
{
    let named = value_named(m);
    assert(m.stack.len() > 0 ==> named.path.drop_last() =~= m.path);
    match n {
        YamlNode::Leaf(_, _, _) | YamlNode::Alias(_) => {
            lemma_single_placed(m, g, n);
        },
        YamlNode::List(open, items, close) => {
            let from = event_at(YamlKindModel::ListOpened, open);
            let to = event_at(YamlKindModel::ListClosed, close);
            let inside = walk_step(m, g, from);
            lemma_walk_enclosed(m, g, from, item_events(items, items.len()), to);
            lemma_items_placed(inside, g, open, items, items.len());
            let full = walk_all(inside, g, item_events(items, items.len()));
            assert(full.stack.drop_last() =~= named.stack);
        },
        YamlNode::Table(open, entries, close) => {
            let from = event_at(YamlKindModel::MapOpened, open);
            let to = event_at(YamlKindModel::MapClosed, close);
            let inside = walk_step(m, g, from);
            lemma_walk_enclosed(m, g, from, entry_events(entries, entries.len()), to);
            lemma_entries_placed(inside, g, open, entries, entries.len());
            let full = walk_all(inside, g, entry_events(entries, entries.len()));
            assert(full.stack.drop_last() =~= named.stack);
        },
    }
}

proof fn lemma_items_placed(m: WalkModel, g: Ground, open: Spot, items: Seq<YamlNode>, k: nat)
    requires
        m.passed == 0,
        m.path.len() >= doc_prefix(g.multi),
        m.stack.len() > 0,
        m.stack.last() == list_frame(g, open, 0),
        k <= items.len(),
    ensures
        ({
            let after = walk_all(m, g, item_events(items, k));
            &&& after.passed == 0
            &&& after.stack == m.stack.update(m.stack.len() - 1, list_frame(g, open, k))
            &&& after.path == m.path
            &&& same_document(m, after)
            &&& after.spans == placed_items(
                g,
                items,
                k,
                m.path,
                frame_context(list_frame(g, open, 0)),
                m.spans,
            )
        }),
    decreases items, k,
{
    if k == 0 {
        assert(m.stack.update(m.stack.len() - 1, list_frame(g, open, 0)) =~= m.stack);
    } else {
        let before = item_events(items, (k - 1) as nat);
        let at = walk_all(m, g, before);
        lemma_items_placed(m, g, open, items, (k - 1) as nat);
        lemma_walk_joined(m, g, before, node_events(items[k - 1]));
        law_node_is_placed(at, g, items[k - 1]);
        assert(value_named(at).stack =~= m.stack.update(
            m.stack.len() - 1,
            list_frame(g, open, k),
        ));
    }
}

proof fn lemma_entries_placed(
    m: WalkModel,
    g: Ground,
    open: Spot,
    entries: Seq<(YamlNode, YamlNode)>,
    k: nat,
)
    requires
        m.passed == 0,
        m.path.len() >= doc_prefix(g.multi),
        m.stack.len() > 0,
        m.stack.last() == map_frame(g, open, false),
        k <= entries.len(),
    ensures
        ({
            let after = walk_all(m, g, entry_events(entries, k));
            &&& after.passed == 0
            &&& after.stack == m.stack.update(m.stack.len() - 1, map_frame(g, open, k > 0))
            &&& after.path == m.path
            &&& same_document(m, after)
            &&& after.spans == placed_entries(
                g,
                entries,
                k,
                m.path,
                frame_context(map_frame(g, open, false)),
                m.spans,
            )
        }),
    decreases entries, k,
{
    if k == 0 {
        assert(m.stack.update(m.stack.len() - 1, map_frame(g, open, false)) =~= m.stack);
    } else {
        let before = entry_events(entries, (k - 1) as nat);
        let key = entries[k - 1].0;
        let value = entries[k - 1].1;
        let at = walk_all(m, g, before);
        lemma_entries_placed(m, g, open, entries, (k - 1) as nat);
        lemma_walk_joined(m, g, before, node_events(key));
        lemma_walk_joined(m, g, before + node_events(key), node_events(value));
        let keyed = walk_all(at, g, node_events(key));
        let done = m.stack.update(m.stack.len() - 1, map_frame(g, open, true));
        match key {
            YamlNode::Leaf(text, block, s) => {
                lemma_walk_one(at, g, event_at(YamlKindModel::Leaf(text, block), s));
                law_node_is_placed(keyed, g, value);
                assert(value_named(keyed).stack =~= done);
            },
            _ => {
                lemma_node_nameless(at, g, key);
                lemma_node_nameless(keyed, g, value);
                assert(now_awaiting(keyed, AwaitedModel::Key).stack =~= done);
            },
        }
    }
}

// ---------------------------------------------------------------------------
// What a path leads to
// ---------------------------------------------------------------------------

/// The node that a written segment names among the first `k` that a collection
/// holds: the item at that position, or the value of that key.
pub open spec fn child_named(n: YamlNode, segment: Seq<char>, k: nat) -> Option<YamlNode>
    decreases k,
{
    if k == 0 {
        None
    } else {
        match n {
            YamlNode::List(_, items, _) => if decimal((k - 1) as nat) == segment {
                Some(items[k - 1])
            } else {
                child_named(n, segment, (k - 1) as nat)
            },
            YamlNode::Table(_, entries, _) => match entries[k - 1].0 {
                YamlNode::Leaf(key, _, _) => if escaped(key) == segment {
                    Some(entries[k - 1].1)
                } else {
                    child_named(n, segment, (k - 1) as nat)
                },
                _ => child_named(n, segment, (k - 1) as nat),
            },
            _ => None,
        }
    }
}

/// How many nodes, or keys with their values, a node holds.
pub open spec fn child_count(n: YamlNode) -> nat {
    match n {
        YamlNode::List(_, items, _) => items.len(),
        YamlNode::Table(_, entries, _) => entries.len(),
        _ => 0,
    }
}

/// The node that written segments lead to, and the context that it stands in.
pub open spec fn led_to(g: Ground, n: YamlNode, context: SpanContext, way: Seq<Seq<char>>) -> Option<
    (YamlNode, SpanContext),
>
    decreases way.len(),
{
    if way.len() == 0 {
        Some((n, context))
    } else {
        match child_named(n, way[0], child_count(n)) {
            Some(child) => led_to(
                g,
                child,
                inner_context(g, n),
                way.subrange(1, way.len() as int),
            ),
            None => None,
        }
    }
}

/// The span that a path has: that of the node it leads to.
pub open spec fn span_there(
    g: Ground,
    n: YamlNode,
    context: SpanContext,
    way: Seq<Seq<char>>,
) -> Option<ValueSpan> {
    match led_to(g, n, context, way) {
        Some((found, around)) => own_span(g, found, around),
        None => None,
    }
}

/// Whether no mapping in a node has a scalar key twice.
pub open spec fn keys_apart(n: YamlNode) -> bool
    decreases n,
{
    match n {
        YamlNode::List(_, items, _) => forall|i: int|
            0 <= i < items.len() ==> keys_apart(#[trigger] items[i]),
        YamlNode::Table(_, entries, _) => {
            &&& forall|i: int| 0 <= i < entries.len() ==> keys_apart((#[trigger] entries[i]).1)
            &&& forall|i: int, j: int|
                0 <= i < j < entries.len() && (#[trigger] entries[i]).0 is Leaf && (
                #[trigger] entries[j]).0 is Leaf ==> entries[i].0->Leaf_0 != entries[j].0->Leaf_0
        },
        _ => true,
    }
}

/// Whether no written segment holds a slash.
pub open spec fn no_slash(way: Seq<Seq<char>>) -> bool {
    forall|i: int| 0 <= i < way.len() ==> !(#[trigger] way[i]).contains('/')
}

proof fn lemma_decimal_has_no_slash(n: nat)
    ensures
        !decimal(n).contains('/'),
{
    lemma_decimal_value(n);
}

/// Written segments without a slash are told apart by their pointer text.
proof fn lemma_path_text_is_injective(a: Seq<Seq<char>>, b: Seq<Seq<char>>)
    requires
        no_slash(a),
        no_slash(b),
        path_text(a) == path_text(b),
    ensures
        a == b,
    decreases a.len(),
{
    reveal_strlit("/");
    let t = path_text(a);
    if a.len() == 0 || b.len() == 0 {
        if a.len() > 0 {
            assert(path_text(a) == path_text(a.drop_last()) + "/"@ + a.last());
            assert(path_text(a).len() > 0);
        }
        if b.len() > 0 {
            assert(path_text(b) == path_text(b.drop_last()) + "/"@ + b.last());
            assert(path_text(b).len() > 0);
        }
        assert(a =~= b);
    } else {
        let (x, y) = (a.last(), b.last());
        let (p, q) = (path_text(a.drop_last()), path_text(b.drop_last()));
        assert(!a[a.len() - 1].contains('/'));
        assert(!b[b.len() - 1].contains('/'));
        assert(t == p + "/"@ + x);
        assert(t == q + "/"@ + y);
        assert(t[p.len() as int] == '/');
        assert(t[q.len() as int] == '/');
        if p.len() < q.len() {
            assert(x[q.len() - p.len() - 1] == '/');
            assert(x.contains('/'));
        }
        if q.len() < p.len() {
            assert(y[p.len() - q.len() - 1] == '/');
            assert(y.contains('/'));
        }
        assert(p =~= t.subrange(0, p.len() as int));
        assert(q =~= t.subrange(0, q.len() as int));
        assert(x =~= t.subrange(p.len() as int + 1, t.len() as int));
        assert(y =~= t.subrange(q.len() as int + 1, t.len() as int));
        assert forall|i: int| 0 <= i < a.drop_last().len() implies !(
        #[trigger] a.drop_last()[i]).contains('/') by {
            assert(!a[i].contains('/'));
        }
        assert forall|i: int| 0 <= i < b.drop_last().len() implies !(
        #[trigger] b.drop_last()[i]).contains('/') by {
            assert(!b[i].contains('/'));
        }
        lemma_path_text_is_injective(a.drop_last(), b.drop_last());
        assert(a =~= a.drop_last().push(x));
        assert(b =~= b.drop_last().push(y));
    }
}

/// Whether a pointer text is that of a path that starts with `path`.
pub open spec fn lies_under(path: Seq<Seq<char>>, text: Seq<char>) -> bool {
    exists|way: Seq<Seq<char>>| #[trigger] no_slash(way) && text == path_text(path + way)
}

/// Whether, of the paths that start with `path`, each has the span that `there`
/// says, and the others have what they had.
spec fn spans_are(
    spans: Seq<(Seq<char>, ValueSpan)>,
    path: Seq<Seq<char>>,
    there: spec_fn(Seq<Seq<char>>) -> Option<ValueSpan>,
    before: Seq<(Seq<char>, ValueSpan)>,
) -> bool {
    &&& forall|way: Seq<Seq<char>>| #[trigger]
        no_slash(way) ==> lookup(spans, path_text(path + way)) == there(way)
    &&& forall|text: Seq<char>|
        !lies_under(path, text) ==> #[trigger] lookup(spans, text) == lookup(before, text)
}

/// The span that a path into the first `k` nodes that a collection holds has,
/// where these stand in a context.
spec fn child_there(
    g: Ground,
    n: YamlNode,
    context: SpanContext,
    k: nat,
    way: Seq<Seq<char>>,
) -> Option<ValueSpan> {
    if way.len() == 0 {
        None
    } else {
        match child_named(n, way[0], k) {
            Some(child) => span_there(g, child, context, way.subrange(1, way.len() as int)),
            None => None,
        }
    }
}

/// A path under `path` that starts with another segment lies not under `path`
/// and this one.
proof fn lemma_not_under(path: Seq<Seq<char>>, segment: Seq<char>, way: Seq<Seq<char>>)
    requires
        no_slash(path),
        no_slash(way),
        !segment.contains('/'),
        way.len() == 0 || way[0] != segment,
    ensures
        !lies_under(path.push(segment), path_text(path + way)),
{
    if lies_under(path.push(segment), path_text(path + way)) {
        let rest = choose|rest: Seq<Seq<char>>| #[trigger]
            no_slash(rest) && path_text(path + way) == path_text(path.push(segment) + rest);
        let (a, b) = (path + way, path.push(segment) + rest);
        assert forall|i: int| 0 <= i < a.len() implies !(#[trigger] a[i]).contains('/') by {
            if i < path.len() {
                assert(!path[i].contains('/'));
            } else {
                assert(!way[i - path.len()].contains('/'));
            }
        }
        assert forall|i: int| 0 <= i < b.len() implies !(#[trigger] b[i]).contains('/') by {
            if i < path.len() {
                assert(!path[i].contains('/'));
            } else if i > path.len() {
                assert(!rest[i - path.len() - 1].contains('/'));
            }
        }
        lemma_path_text_is_injective(a, b);
        assert(b[path.len() as int] == segment);
        assert(a.len() == b.len());
        assert(a[path.len() as int] == way[0]);
    }
}

/// One more node in its place: the paths that start with its segment have its
/// spans, the others what they had.
proof fn lemma_child_added(
    g: Ground,
    n: YamlNode,
    context: SpanContext,
    k: nat,
    child: YamlNode,
    segment: Seq<char>,
    path: Seq<Seq<char>>,
    start: Seq<(Seq<char>, ValueSpan)>,
    before: Seq<(Seq<char>, ValueSpan)>,
)
    requires
        no_slash(path),
        !segment.contains('/'),
        child_named(n, segment, k) is None,
        child_named(n, segment, k + 1) == Some(child),
        forall|other: Seq<char>|
            other != segment ==> #[trigger] child_named(n, other, k + 1) == child_named(n, other, k),
        keys_apart(child),
        spans_are(before, path, |way: Seq<Seq<char>>| child_there(g, n, context, k, way), start),
    ensures
        spans_are(
            placed(g, child, path.push(segment), context, before),
            path,
            |way: Seq<Seq<char>>| child_there(g, n, context, k + 1, way),
            start,
        ),
    decreases child, 3nat, 0nat,
{
    let inner = path.push(segment);
    let after = placed(g, child, inner, context, before);
    let there = |way: Seq<Seq<char>>| child_there(g, n, context, k, way);
    assert forall|i: int| 0 <= i < inner.len() implies !(#[trigger] inner[i]).contains('/') by {
        if i < path.len() {
            assert(!path[i].contains('/'));
        }
    }
    assert forall|way: Seq<Seq<char>>| #[trigger] no_slash(way) implies lookup(
        before,
        path_text(inner + way),
    ) is None by {
        let longer = seq![segment] + way;
        assert forall|i: int| 0 <= i < longer.len() implies !(#[trigger] longer[i]).contains(
            '/',
        ) by {
            if i > 0 {
                assert(!way[i - 1].contains('/'));
            }
        }
        assert(no_slash(longer));
        assert(path + longer =~= inner + way);
        assert(there(longer) is None);
    }
    lemma_node_spans(g, child, inner, context, before);
    assert forall|way: Seq<Seq<char>>| #[trigger] no_slash(way) implies lookup(
        after,
        path_text(path + way),
    ) == child_there(g, n, context, k + 1, way) by {
        assert(lookup(before, path_text(path + way)) == there(way));
        if way.len() > 0 && way[0] == segment {
            let rest = way.subrange(1, way.len() as int);
            assert forall|i: int| 0 <= i < rest.len() implies !(#[trigger] rest[i]).contains(
                '/',
            ) by {
                assert(!way[i + 1].contains('/'));
            }
            assert(no_slash(rest));
            assert(path + way =~= inner + rest);
        } else {
            lemma_not_under(path, segment, way);
        }
    }
    assert forall|text: Seq<char>| !lies_under(path, text) implies #[trigger] lookup(after, text)
        == lookup(start, text) by {
        if lies_under(inner, text) {
            let way = choose|way: Seq<Seq<char>>| #[trigger]
                no_slash(way) && text == path_text(inner + way);
            let longer = seq![segment] + way;
            assert forall|i: int| 0 <= i < longer.len() implies !(#[trigger] longer[i]).contains(
                '/',
            ) by {
                if i > 0 {
                    assert(!way[i - 1].contains('/'));
                }
            }
            assert(no_slash(longer));
            assert(path + longer =~= inner + way);
        }
    }
}

proof fn lemma_no_item_yet(n: YamlNode, k: nat, m: nat)
    requires
        n is List,
        k <= m,
    ensures
        child_named(n, decimal(m), k) is None,
    decreases k,
{
    if k > 0 {
        lemma_no_item_yet(n, (k - 1) as nat, m);
        lemma_decimal_value(m);
        lemma_decimal_value((k - 1) as nat);
    }
}

proof fn lemma_no_key_yet(n: YamlNode, k: nat, m: int)
    requires
        keys_apart(n),
        n is Table,
        k <= m < n->Table_1.len(),
        n->Table_1[m].0 is Leaf,
    ensures
        child_named(n, escaped(n->Table_1[m].0->Leaf_0), k) is None,
    decreases k,
{
    if k > 0 {
        let entries = n->Table_1;
        lemma_no_key_yet(n, (k - 1) as nat, m);
        if entries[k - 1].0 is Leaf {
            law_unescape_escaped(entries[k - 1].0->Leaf_0);
            law_unescape_escaped(entries[m].0->Leaf_0);
            assert(entries[k - 1].0->Leaf_0 != entries[m].0->Leaf_0);
        }
    }
}

proof fn lemma_item_spans(
    g: Ground,
    n: YamlNode,
    context: SpanContext,
    k: nat,
    path: Seq<Seq<char>>,
    start: Seq<(Seq<char>, ValueSpan)>,
)
    requires
        no_slash(path),
        keys_apart(n),
        n is List,
        k <= n->List_1.len(),
        forall|way: Seq<Seq<char>>| #[trigger]
            no_slash(way) ==> lookup(start, path_text(path + way)) is None,
    ensures
        spans_are(
            placed_items(g, n->List_1, k, path, context, start),
            path,
            |way: Seq<Seq<char>>| child_there(g, n, context, k, way),
            start,
        ),
    decreases n, 1nat, k,
{
    if k > 0 {
        let items = n->List_1;
        let last = (k - 1) as nat;
        lemma_item_spans(g, n, context, last, path, start);
        lemma_no_item_yet(n, last, last);
        lemma_decimal_has_no_slash(last);
        assert(decreases_to!(n => n->List_1[k - 1]));
        assert(keys_apart(items[k - 1]));
        lemma_child_added(
            g,
            n,
            context,
            last,
            items[k - 1],
            decimal(last),
            path,
            start,
            placed_items(g, items, last, path, context, start),
        );
    }
}

proof fn lemma_entry_spans(
    g: Ground,
    n: YamlNode,
    context: SpanContext,
    k: nat,
    path: Seq<Seq<char>>,
    start: Seq<(Seq<char>, ValueSpan)>,
)
    requires
        no_slash(path),
        keys_apart(n),
        n is Table,
        k <= n->Table_1.len(),
        forall|way: Seq<Seq<char>>| #[trigger]
            no_slash(way) ==> lookup(start, path_text(path + way)) is None,
    ensures
        spans_are(
            placed_entries(g, n->Table_1, k, path, context, start),
            path,
            |way: Seq<Seq<char>>| child_there(g, n, context, k, way),
            start,
        ),
    decreases n, 1nat, k,
{
    if k > 0 {
        let entries = n->Table_1;
        let last = (k - 1) as nat;
        let before = placed_entries(g, entries, last, path, context, start);
        lemma_entry_spans(g, n, context, last, path, start);
        if let YamlNode::Leaf(key, _, _) = entries[k - 1].0 {
            lemma_no_key_yet(n, last, k - 1);
            lemma_escaped_has_no_slash(key);
            assert(decreases_to!(n => n->Table_1[k - 1]));
            assert(decreases_to!(n->Table_1[k - 1] => n->Table_1[k - 1].1));
            assert(keys_apart(entries[k - 1].1));
            lemma_child_added(g, n, context, last, entries[k - 1].1, escaped(key), path, start, before);
        } else {
            let there = |way: Seq<Seq<char>>| child_there(g, n, context, last, way);
            assert forall|way: Seq<Seq<char>>| #[trigger] no_slash(way) implies lookup(
                before,
                path_text(path + way),
            ) == child_there(g, n, context, k, way) by {
                assert(lookup(before, path_text(path + way)) == there(way));
            }
        }
    }
}

/// One span under a path under which there was none.
proof fn lemma_one_span(path: Seq<Seq<char>>, span: ValueSpan, start: Seq<(Seq<char>, ValueSpan)>)
    requires
        no_slash(path),
        forall|way: Seq<Seq<char>>| #[trigger]
            no_slash(way) ==> lookup(start, path_text(path + way)) is None,
    ensures
        !has_key(start, path_text(path)),
        spans_are(
            inserted(start, path_text(path), span),
            path,
            |way: Seq<Seq<char>>|
                if way.len() == 0 {
                    Some(span)
                } else {
                    None
                },
            start,
        ),
{
    let after = inserted(start, path_text(path), span);
    let none = Seq::<Seq<char>>::empty();
    assert(no_slash(none));
    assert(path + none =~= path);
    assert(lookup(start, path_text(path + none)) is None);
    assert forall|way: Seq<Seq<char>>| #[trigger] no_slash(way) implies lookup(
        after,
        path_text(path + way),
    ) == (if way.len() == 0 {
        Some(span)
    } else {
        None
    }) by {
        law_insert_lookup(start, path_text(path), span, path_text(path + way));
        if way.len() == 0 {
            assert(path + way =~= path);
        } else {
            let whole = path + way;
            assert forall|i: int| 0 <= i < whole.len() implies !(#[trigger] whole[i]).contains(
                '/',
            ) by {
                if i < path.len() {
                    assert(!path[i].contains('/'));
                } else {
                    assert(!way[i - path.len()].contains('/'));
                }
            }
            if path_text(whole) == path_text(path) {
                lemma_path_text_is_injective(whole, path);
            }
        }
    }
    assert forall|text: Seq<char>| !lies_under(path, text) implies #[trigger] lookup(after, text)
        == lookup(start, text) by {
        law_insert_lookup(start, path_text(path), span, text);
        assert(path_text(path) == path_text(path + none));
    }
}

/// Where nothing is recorded under a path, a node that is placed there gives
/// every path under it the span of the node that it leads to.
proof fn lemma_node_spans(
    g: Ground,
    n: YamlNode,
    path: Seq<Seq<char>>,
    context: SpanContext,
    start: Seq<(Seq<char>, ValueSpan)>,
)
    requires
        no_slash(path),
        keys_apart(n),
        forall|way: Seq<Seq<char>>| #[trigger]
            no_slash(way) ==> lookup(start, path_text(path + way)) is None,
    ensures
        spans_are(
            placed(g, n, path, context, start),
            path,
            |way: Seq<Seq<char>>| span_there(g, n, context, way),
            start,
        ),
    decreases n, 2nat, 0nat,
{
    let after = placed(g, n, path, context, start);
    if child_count(n) == 0 && own_span(g, n, context) is Some {
        let span = own_span(g, n, context)->0;
        let alone = |way: Seq<Seq<char>>|
            if way.len() == 0 {
                Some(span)
            } else {
                None
            };
        lemma_one_span(path, span, start);
        assert forall|way: Seq<Seq<char>>| #[trigger] no_slash(way) implies lookup(
            after,
            path_text(path + way),
        ) == span_there(g, n, context, way) by {
            assert(lookup(after, path_text(path + way)) == alone(way));
        }
    } else {
        let there = |way: Seq<Seq<char>>| child_there(g, n, inner_context(g, n), child_count(n), way);
        match n {
            YamlNode::List(_, items, _) => {
                lemma_item_spans(g, n, inner_context(g, n), items.len(), path, start);
            },
            YamlNode::Table(_, entries, _) => {
                lemma_entry_spans(g, n, inner_context(g, n), entries.len(), path, start);
            },
            _ => {},
        }
        assert forall|way: Seq<Seq<char>>| #[trigger] no_slash(way) implies lookup(
            after,
            path_text(path + way),
        ) == span_there(g, n, context, way) by {
            if child_count(n) > 0 {
                assert(lookup(after, path_text(path + way)) == there(way));
            }
        }
    }
}

// ---------------------------------------------------------------------------
// Whole texts
// ---------------------------------------------------------------------------

/// A document: its start, its root node, its end.
pub struct YamlDocument {
    pub open: Spot,
    pub root: YamlNode,
    pub close: Spot,
}

/// The events of the first `k` documents.
pub open spec fn document_events(documents: Seq<YamlDocument>, k: nat) -> Seq<YamlEventModel>
    decreases k,
{
    if k == 0 || k > documents.len() {
        Seq::empty()
    } else {
        let d = documents[k - 1];
        document_events(documents, (k - 1) as nat) + (seq![
            event_at(YamlKindModel::DocumentOpened, d.open),
        ] + node_events(d.root) + seq![event_at(YamlKindModel::DocumentClosed, d.close)])
    }
}

/// The events of a text: those of its documents, between its start and its end.
pub open spec fn text_events(from: Spot, documents: Seq<YamlDocument>, to: Spot) -> Seq<
    YamlEventModel,
> {
    seq![event_at(YamlKindModel::Quiet, from)] + document_events(documents, documents.len())
        + seq![event_at(YamlKindModel::Quiet, to)]
}

/// The root nodes of documents.
pub open spec fn roots(documents: Seq<YamlDocument>) -> Seq<YamlNode> {
    Seq::new(documents.len(), |i: int| documents[i].root)
}

/// The path of a document: its position, where there is more than one.
pub open spec fn document_path(multi: bool, i: nat) -> Seq<Seq<char>> {
    if multi {
        seq![decimal(i)]
    } else {
        Seq::empty()
    }
}

/// The ground of the walk over a text with that many documents.
pub open spec fn ground_of(bytes: Seq<u8>, n: nat) -> Ground {
    Ground { bytes, offsets: byte_offsets(bytes), multi: n > 1 }
}

/// How many documents events start.
spec fn starts_in(events: Seq<YamlEventModel>) -> nat {
    document_count(events, events.len() as int)
}

proof fn lemma_count_joined(a: Seq<YamlEventModel>, b: Seq<YamlEventModel>, k: int)
    requires
        0 <= k <= b.len(),
    ensures
        document_count(a + b, a.len() + k) == starts_in(a) + document_count(b, k),
    decreases k,
{
    if k > 0 {
        lemma_count_joined(a, b, k - 1);
        assert((a + b)[a.len() + k - 1] == b[k - 1]);
    } else {
        lemma_count_front(a, b, a.len() as int);
    }
}

proof fn lemma_count_front(a: Seq<YamlEventModel>, b: Seq<YamlEventModel>, k: int)
    requires
        0 <= k <= a.len(),
    ensures
        document_count(a + b, k) == document_count(a, k),
    decreases k,
{
    if k > 0 {
        lemma_count_front(a, b, k - 1);
        assert((a + b)[k - 1] == a[k - 1]);
    }
}

proof fn lemma_count_enclosed(open: YamlEventModel, inner: Seq<YamlEventModel>, close: YamlEventModel)
    requires
        !(close.kind is DocumentOpened),
    ensures
        starts_in(seq![open] + inner + seq![close]) == starts_in(inner) + (
        if open.kind is DocumentOpened {
            1nat
        } else {
            0nat
        }),
{
    reveal_with_fuel(document_count, 2);
    lemma_count_joined(seq![open] + inner, seq![close], 1);
    lemma_count_joined(seq![open], inner, inner.len() as int);
}

proof fn lemma_node_starts_none(n: YamlNode)
    ensures
        starts_in(node_events(n)) == 0,
    decreases n, 0nat,
{
    reveal_with_fuel(document_count, 2);
    match n {
        YamlNode::List(open, items, close) => {
            lemma_items_start_none(items, items.len());
            lemma_count_enclosed(
                event_at(YamlKindModel::ListOpened, open),
                item_events(items, items.len()),
                event_at(YamlKindModel::ListClosed, close),
            );
        },
        YamlNode::Table(open, entries, close) => {
            lemma_entries_start_none(entries, entries.len());
            lemma_count_enclosed(
                event_at(YamlKindModel::MapOpened, open),
                entry_events(entries, entries.len()),
                event_at(YamlKindModel::MapClosed, close),
            );
        },
        _ => {},
    }
}

proof fn lemma_items_start_none(items: Seq<YamlNode>, k: nat)
    ensures
        starts_in(item_events(items, k)) == 0,
    decreases items, k,
{
    if 0 < k <= items.len() {
        let last = node_events(items[k - 1]);
        lemma_items_start_none(items, (k - 1) as nat);
        lemma_node_starts_none(items[k - 1]);
        lemma_count_joined(item_events(items, (k - 1) as nat), last, last.len() as int);
    }
}

proof fn lemma_entries_start_none(entries: Seq<(YamlNode, YamlNode)>, k: nat)
    ensures
        starts_in(entry_events(entries, k)) == 0,
    decreases entries, k,
{
    if 0 < k <= entries.len() {
        let before = entry_events(entries, (k - 1) as nat);
        let key = node_events(entries[k - 1].0);
        let value = node_events(entries[k - 1].1);
        lemma_entries_start_none(entries, (k - 1) as nat);
        lemma_node_starts_none(entries[k - 1].0);
        lemma_node_starts_none(entries[k - 1].1);
        lemma_count_joined(before, key, key.len() as int);
        lemma_count_joined(before + key, value, value.len() as int);
    }
}

proof fn lemma_documents_counted(documents: Seq<YamlDocument>, k: nat)
    requires
        k <= documents.len(),
    ensures
        starts_in(document_events(documents, k)) == k,
    decreases k,
{
    if k > 0 {
        let d = documents[k - 1];
        let open = event_at(YamlKindModel::DocumentOpened, d.open);
        let close = event_at(YamlKindModel::DocumentClosed, d.close);
        let last = seq![open] + node_events(d.root) + seq![close];
        lemma_documents_counted(documents, (k - 1) as nat);
        lemma_node_starts_none(d.root);
        lemma_count_enclosed(open, node_events(d.root), close);
        lemma_count_joined(document_events(documents, (k - 1) as nat), last, last.len() as int);
    }
}

proof fn lemma_run_is_walk(g: Ground, events: Seq<YamlEventModel>, k: nat)
    requires
        k <= events.len(),
    ensures
        walk_run(g, events, k as int) == walk_over(walk_start(), g, events, k),
    decreases k,
{
    if k > 0 {
        lemma_run_is_walk(g, events, (k - 1) as nat);
    }
}

/// The spans with those of the first `k` documents.
pub open spec fn placed_documents(g: Ground, documents: Seq<YamlDocument>, k: nat) -> Seq<
    (Seq<char>, ValueSpan),
>
    decreases k,
{
    if k == 0 || k > documents.len() {
        Seq::empty()
    } else {
        placed(
            g,
            documents[k - 1].root,
            document_path(g.multi, (k - 1) as nat),
            SpanContext::BlockMapValue,
            placed_documents(g, documents, (k - 1) as nat),
        )
    }
}

proof fn lemma_documents_placed(m: WalkModel, g: Ground, documents: Seq<YamlDocument>, k: nat)
    requires
        m == walk_start(),
        k <= documents.len(),
    ensures
        ({
            let after = walk_all(m, g, document_events(documents, k));
            &&& after.passed == 0
            &&& after.stack.len() == 0
            &&& after.path.len() == 0
            &&& after.seen_first_doc == (k > 0)
            &&& after.doc_index == if k > 0 {
                k - 1
            } else {
                0
            }
            &&& after.spans == placed_documents(g, documents, k)
        }),
    decreases k,
{
    if k > 0 {
        let d = documents[k - 1];
        let open = event_at(YamlKindModel::DocumentOpened, d.open);
        let close = event_at(YamlKindModel::DocumentClosed, d.close);
        let before = document_events(documents, (k - 1) as nat);
        let at = walk_all(m, g, before);
        lemma_documents_placed(m, g, documents, (k - 1) as nat);
        lemma_walk_joined(m, g, before, seq![open] + node_events(d.root) + seq![close]);
        lemma_walk_enclosed(at, g, open, node_events(d.root), close);
        let inside = walk_step(at, g, open);
        assert(inside.path =~= document_path(g.multi, (k - 1) as nat));
        law_node_is_placed(inside, g, d.root);
    }
}

/// The walk over a text records the spans that its nodes place.
pub proof fn law_text_is_placed(
    bytes: Seq<u8>,
    from: Spot,
    documents: Seq<YamlDocument>,
    to: Spot,
)
    ensures
        walked(bytes, text_events(from, documents, to)).spans == placed_documents(
            ground_of(bytes, documents.len()),
            documents,
            documents.len(),
        ),
{
    let inner = document_events(documents, documents.len());
    let open = event_at(YamlKindModel::Quiet, from);
    let close = event_at(YamlKindModel::Quiet, to);
    let events = text_events(from, documents, to);
    let g = ground_of(bytes, documents.len());
    lemma_documents_counted(documents, documents.len());
    lemma_count_enclosed(open, inner, close);
    lemma_run_is_walk(g, events, events.len());
    lemma_walk_enclosed(walk_start(), g, open, inner, close);
    lemma_documents_placed(walk_start(), g, documents, documents.len());
}

/// Every path has the span of the node that it leads to, of a text in which no
/// mapping has a scalar key twice: that of a scalar is where the scalar is
/// written, and one that leads to an alias, into an alias, or nowhere, has none.
pub proof fn law_path_has_the_span_of_its_node(
    bytes: Seq<u8>,
    from: Spot,
    documents: Seq<YamlDocument>,
    to: Spot,
    i: int,
    way: Seq<Seq<char>>,
)
    requires
        0 <= i < documents.len(),
        forall|k: int| 0 <= k < documents.len() ==> keys_apart((#[trigger] documents[k]).root),
        no_slash(way),
    ensures
        lookup(
            walked(bytes, text_events(from, documents, to)).spans,
            path_text(document_path(documents.len() > 1, i as nat) + way),
        ) == span_there(
            ground_of(bytes, documents.len()),
            documents[i].root,
            SpanContext::BlockMapValue,
            way,
        ),
{
    let g = ground_of(bytes, documents.len());
    let context = SpanContext::BlockMapValue;
    let none = Seq::<(Seq<char>, ValueSpan)>::empty();
    let empty = Seq::<Seq<char>>::empty();
    law_text_is_placed(bytes, from, documents, to);
    assert forall|other: Seq<Seq<char>>| #[trigger] no_slash(other) implies lookup(
        none,
        path_text(empty + other),
    ) is None by {}
    if documents.len() > 1 {
        let n = YamlNode::List(from, roots(documents), to);
        assert(n->List_1 == roots(documents));
        assert(keys_apart(n)) by {
            assert forall|k: int| 0 <= k < roots(documents).len() implies keys_apart(
                #[trigger] roots(documents)[k],
            ) by {
                assert(keys_apart(documents[k].root));
            }
        }
        lemma_documents_are_items(g, documents, documents.len());
        lemma_item_spans(g, n, context, documents.len(), empty, none);
        let there = |other: Seq<Seq<char>>|
            child_there(g, n, context, documents.len(), other);
        let whole = seq![decimal(i as nat)] + way;
        lemma_decimal_has_no_slash(i as nat);
        assert forall|k: int| 0 <= k < whole.len() implies !(#[trigger] whole[k]).contains('/') by {
            if k > 0 {
                assert(!way[k - 1].contains('/'));
            }
        }
        assert(no_slash(whole));
        assert(empty + whole =~= document_path(true, i as nat) + way);
        assert(lookup(
            placed_documents(g, documents, documents.len()),
            path_text(empty + whole),
        ) == there(whole));
        lemma_item_named(n, documents.len(), i as nat);
        assert(whole.subrange(1, whole.len() as int) =~= way);
    } else {
        reveal_with_fuel(placed_documents, 2);
        let there = |other: Seq<Seq<char>>| span_there(g, documents[0].root, context, other);
        lemma_node_spans(g, documents[0].root, empty, context, none);
        assert(lookup(
            placed(g, documents[0].root, empty, context, none),
            path_text(empty + way),
        ) == there(way));
    }
}

proof fn lemma_item_named(n: YamlNode, k: nat, i: nat)
    requires
        n is List,
        i < k <= n->List_1.len(),
    ensures
        child_named(n, decimal(i), k) == Some(n->List_1[i as int]),
    decreases k,
{
    lemma_decimal_value(i);
    lemma_decimal_value((k - 1) as nat);
    if i < k - 1 {
        lemma_item_named(n, (k - 1) as nat, i);
    }
}

proof fn lemma_documents_are_items(g: Ground, documents: Seq<YamlDocument>, k: nat)
    requires
        g.multi,
        k <= documents.len(),
    ensures
        placed_documents(g, documents, k) == placed_items(
            g,
            roots(documents),
            k,
            Seq::empty(),
            SpanContext::BlockMapValue,
            Seq::empty(),
        ),
    decreases k,
{
    if k > 0 {
        lemma_documents_are_items(g, documents, (k - 1) as nat);
        assert(document_path(true, (k - 1) as nat) =~= Seq::<Seq<char>>::empty().push(
            decimal((k - 1) as nat),
        ));
    }
}

} // verus!
