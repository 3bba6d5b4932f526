//! Spans that are recorded from the nodes of a TOML text or the events of a
//! YAML text lie within the source, where the nodes and events themselves do.

use crate::document::range_fits;
use crate::numbers::decimal;
use crate::parsers::json_scan::SpanSeq;
use crate::parsers::source_lines::{indent_at, path_text, span_of};
use crate::parsers::toml::toml_walked;
use crate::parsers::toml_nodes::{ShapeModel, TomlNodeModel};
use crate::parsers::toml_walk::{
    recorded, walked_entries, walked_items, walked_node, WalkedEntries, WalkedItems,
};
use crate::parsers::yaml_events::{YamlEventModel, YamlKindModel};
use crate::parsers::yaml_extents::{bracket_end, law_written_within, written_range};
use crate::parsers::yaml_spans::{
    byte_at, byte_offsets, char_starts, column_of, context_in, document_count, empty_span,
    frame_context, frame_start, value_named, walk_run, walk_step, walked, FrameModel, Ground,
    WalkModel,
};
use crate::pointer::escaped;
use crate::position::{capped, within};
use crate::span_laws::{lemma_span_of, lines_fit};
use crate::spans::{SpanContext, ValueSpan};
use crate::value::{inserted, key_index, lemma_key_index};
use vstd::prelude::*;

verus! {

/// Whether every value and its lines lie within `len` bytes.
pub open spec fn values_fit(spans: SpanSeq, len: nat) -> bool {
    &&& forall|i: int| 0 <= i < spans.len() ==> range_fits((#[trigger] spans[i]).1.value_range, len)
    &&& lines_fit(spans, len)
}

proof fn lemma_inserted_fits(spans: SpanSeq, key: Seq<char>, span: ValueSpan, len: nat)
    requires
        values_fit(spans, len),
        range_fits(span.value_range, len),
        range_fits(span.line_range, len),
    ensures
        values_fit(inserted(spans, key, span), len),
{
    let after = inserted(spans, key, span);
    let at = key_index(spans, key);
    lemma_key_index(spans, key);
    assert forall|i: int| 0 <= i < after.len() implies range_fits(
        (#[trigger] after[i]).1.value_range,
        len,
    ) && range_fits(after[i].1.line_range, len) by {
        if i != at {
            assert(after[i] == spans[i]);
        }
    }
}

// ---------------------------------------------------------------------------
// TOML
// ---------------------------------------------------------------------------

/// Whether every node that knows where it stands lies within `len` bytes.
pub open spec fn nodes_fit(nodes: Seq<TomlNodeModel>, len: nat) -> bool {
    forall|i: int|
        0 <= i < nodes.len() ==> ((#[trigger] nodes[i]).span matches Some((start, end)) ==> start
            <= end <= len)
}

proof fn lemma_recorded_fits(
    bytes: Seq<u8>,
    span: Option<(usize, usize)>,
    path: Seq<Seq<char>>,
    context: SpanContext,
    places: SpanSeq,
)
    requires
        bytes.len() <= usize::MAX,
        span matches Some((start, end)) ==> start <= end <= bytes.len(),
        values_fit(places, bytes.len()),
    ensures
        values_fit(recorded(bytes, span, path, context, places), bytes.len()),
{
    if let Some((start, end)) = span {
        let indent = indent_at(bytes, start as int);
        lemma_span_of(bytes, start as int, end as int, indent, context);
        lemma_inserted_fits(
            places,
            path_text(path),
            span_of(bytes, start as int, end as int, indent, context),
            bytes.len(),
        );
    }
}

proof fn lemma_node_fits(
    bytes: Seq<u8>,
    nodes: Seq<TomlNodeModel>,
    k: int,
    path: Seq<Seq<char>>,
    context: SpanContext,
    places: SpanSeq,
)
    requires
        bytes.len() <= usize::MAX,
        nodes_fit(nodes, bytes.len()),
        values_fit(places, bytes.len()),
    ensures
        values_fit(walked_node(bytes, nodes, k, path, context, places).places, bytes.len()),
    decreases nodes.len() - k, 0nat,
{
    if 0 <= k < nodes.len() {
        let span = nodes[k].span;
        let items = WalkedItems { items: Seq::empty(), next: k + 1, places };
        let entries = WalkedEntries { entries: Seq::empty(), next: k + 1, places };
        match nodes[k].shape {
            ShapeModel::Missing => {},
            ShapeModel::List(n) => {
                if n == 0 {
                    lemma_recorded_fits(bytes, span, path, SpanContext::FlowSeqItem, places);
                } else {
                    lemma_items_fit(bytes, nodes, n, 0, path, SpanContext::FlowSeqItem, items);
                }
            },
            ShapeModel::Tables(n) => {
                lemma_items_fit(bytes, nodes, n, 0, path, SpanContext::BlockMapValue, items);
            },
            ShapeModel::Inline(keys) => {
                if keys.len() == 0 {
                    lemma_recorded_fits(bytes, span, path, SpanContext::FlowMapValue, places);
                } else {
                    lemma_entries_fit(
                        bytes,
                        nodes,
                        keys,
                        0,
                        path,
                        SpanContext::FlowMapValue,
                        entries,
                    );
                }
            },
            ShapeModel::Table(keys) => {
                lemma_entries_fit(
                    bytes,
                    nodes,
                    keys,
                    0,
                    path,
                    SpanContext::BlockMapValue,
                    entries,
                );
            },
            _ => {
                lemma_recorded_fits(bytes, span, path, context, places);
            },
        }
    }
}

proof fn lemma_items_fit(
    bytes: Seq<u8>,
    nodes: Seq<TomlNodeModel>,
    n: nat,
    i: nat,
    path: Seq<Seq<char>>,
    context: SpanContext,
    so_far: WalkedItems,
)
    requires
        bytes.len() <= usize::MAX,
        nodes_fit(nodes, bytes.len()),
        values_fit(so_far.places, bytes.len()),
    ensures
        values_fit(
            walked_items(bytes, nodes, n, i, path, context, so_far).places,
            bytes.len(),
        ),
    decreases nodes.len() - so_far.next, 1 + (n - i),
{
    if i < n && 0 <= so_far.next <= nodes.len() {
        let inner = path.push(decimal(i));
        lemma_node_fits(bytes, nodes, so_far.next, inner, context, so_far.places);
        let one = walked_node(bytes, nodes, so_far.next, inner, context, so_far.places);
        if so_far.next <= one.next <= nodes.len() {
            lemma_items_fit(
                bytes,
                nodes,
                n,
                i + 1,
                path,
                context,
                WalkedItems {
                    items: so_far.items.push(one.value),
                    next: one.next,
                    places: one.places,
                },
            );
        }
    }
}

proof fn lemma_entries_fit(
    bytes: Seq<u8>,
    nodes: Seq<TomlNodeModel>,
    keys: Seq<Seq<char>>,
    i: nat,
    path: Seq<Seq<char>>,
    context: SpanContext,
    so_far: WalkedEntries,
)
    requires
        bytes.len() <= usize::MAX,
        nodes_fit(nodes, bytes.len()),
        values_fit(so_far.places, bytes.len()),
    ensures
        values_fit(
            walked_entries(bytes, nodes, keys, i, path, context, so_far).places,
            bytes.len(),
        ),
    decreases nodes.len() - so_far.next, 1 + (keys.len() - i),
{
    if i < keys.len() && 0 <= so_far.next <= nodes.len() {
        let inner = path.push(escaped(keys[i as int]));
        lemma_node_fits(bytes, nodes, so_far.next, inner, context, so_far.places);
        let one = walked_node(bytes, nodes, so_far.next, inner, context, so_far.places);
        if so_far.next <= one.next <= nodes.len() {
            let entries = if so_far.next < nodes.len() && nodes[so_far.next].shape is Missing {
                so_far.entries
            } else {
                inserted(so_far.entries, keys[i as int], one.value)
            };
            lemma_entries_fit(
                bytes,
                nodes,
                keys,
                i + 1,
                path,
                context,
                WalkedEntries { entries, next: one.next, places: one.places },
            );
        }
    }
}

/// Where the nodes of a TOML text lie within it, so do the recorded values and
/// their lines.
pub proof fn law_toml_values_fit(bytes: Seq<u8>, nodes: Seq<TomlNodeModel>)
    requires
        bytes.len() <= usize::MAX,
        nodes_fit(nodes, bytes.len()),
    ensures
        values_fit(toml_walked(bytes, nodes).places, bytes.len()),
{
    lemma_node_fits(bytes, nodes, 0, Seq::empty(), SpanContext::BlockMapValue, Seq::empty());
}

// ---------------------------------------------------------------------------
// YAML
// ---------------------------------------------------------------------------

/// Whether the events go forward: none ends before itself or an earlier one
/// started.
pub open spec fn events_advance(events: Seq<YamlEventModel>) -> bool {
    forall|i: int, j: int|
        0 <= i <= j < events.len() ==> 0 <= (#[trigger] events[i]).start <= (
        #[trigger] events[j]).end
}

proof fn lemma_char_starts(bytes: Seq<u8>, k: int)
    requires
        0 <= k <= bytes.len() <= usize::MAX,
    ensures
        forall|i: int| 0 <= i < char_starts(bytes, k).len() ==> (#[trigger] char_starts(
            bytes,
            k,
        )[i]) < k,
        forall|i: int, j: int|
            0 <= i <= j < char_starts(bytes, k).len() ==> (#[trigger] char_starts(bytes, k)[i])
                <= (#[trigger] char_starts(bytes, k)[j]),
    decreases k,
{
    if k > 0 {
        let before = char_starts(bytes, k - 1);
        let now = char_starts(bytes, k);
        lemma_char_starts(bytes, k - 1);
        assert forall|i: int| 0 <= i < now.len() implies (#[trigger] now[i]) < k by {
            if i < before.len() {
                assert(now[i] == before[i]);
            }
        }
        assert forall|i: int, j: int| 0 <= i <= j < now.len() implies (#[trigger] now[i]) <= (
        #[trigger] now[j]) by {
            if i < before.len() {
                assert(now[i] == before[i]);
                if j < before.len() {
                    assert(now[j] == before[j]);
                }
            }
        }
    }
}

/// A later character stands at a later byte.
proof fn lemma_byte_at(bytes: Seq<u8>, i: int, j: int)
    requires
        bytes.len() <= usize::MAX,
        0 <= i <= j,
    ensures
        0 <= byte_at(byte_offsets(bytes), i) <= byte_at(byte_offsets(bytes), j) <= bytes.len(),
{
    lemma_char_starts(bytes, bytes.len() as int);
}

/// Whether every open collection starts before the events from `k` on end.
spec fn frames_fit(
    bytes: Seq<u8>,
    stack: Seq<FrameModel>,
    events: Seq<YamlEventModel>,
    k: int,
) -> bool {
    forall|f: int, j: int|
        0 <= f < stack.len() && k <= j < events.len() ==> 0 <= #[trigger] frame_start(stack[f])
            <= byte_at(byte_offsets(bytes), (#[trigger] events[j]).end)
}

proof fn lemma_named_fits(
    bytes: Seq<u8>,
    m: WalkModel,
    events: Seq<YamlEventModel>,
    k: int,
)
    requires
        frames_fit(bytes, m.stack, events, k),
    ensures
        frames_fit(bytes, value_named(m).stack, events, k),
        value_named(m).spans == m.spans,
{
    let after = value_named(m).stack;
    assert forall|f: int, j: int|
        0 <= f < after.len() && k <= j < events.len() implies 0 <= #[trigger] frame_start(after[f])
        <= byte_at(byte_offsets(bytes), (#[trigger] events[j]).end) by {
        assert(frame_start(after[f]) == frame_start(m.stack[f]));
    }
}

proof fn lemma_step_fits(g: Ground, m: WalkModel, events: Seq<YamlEventModel>, k: int)
    requires
        g.bytes.len() <= usize::MAX,
        g.offsets == byte_offsets(g.bytes),
        events_advance(events),
        0 <= k < events.len(),
        values_fit(m.spans, g.bytes.len()),
        frames_fit(g.bytes, m.stack, events, k),
    ensures
        values_fit(walk_step(m, g, events[k]).spans, g.bytes.len()),
        frames_fit(g.bytes, walk_step(m, g, events[k]).stack, events, k + 1),
{
    let e = events[k];
    let bytes = g.bytes;
    let start = byte_at(g.offsets, e.start);
    let end = byte_at(g.offsets, e.end);
    let after = walk_step(m, g, e);
    lemma_byte_at(bytes, e.start, e.end);
    lemma_named_fits(bytes, m, events, k);
    let named = value_named(m);
    match e.kind {
        YamlKindModel::Leaf(text, block) => {
            let col = capped(e.col as nat);
            let context = context_in(named.stack);
            law_written_within(bytes, start, end, text, block, context);
            if let Some((from, to)) = written_range(bytes, start, end, text, block, context) {
                lemma_span_of(bytes, from, to, col, context);
                lemma_inserted_fits(
                    m.spans,
                    path_text(named.path),
                    span_of(bytes, from, to, col, context),
                    bytes.len(),
                );
            }
            assert forall|f: int, j: int|
                0 <= f < after.stack.len() && k + 1 <= j < events.len() implies 0
                <= #[trigger] frame_start(after.stack[f]) <= byte_at(
                byte_offsets(bytes),
                (#[trigger] events[j]).end,
            ) by {
                assert(frame_start(after.stack[f]) == frame_start(m.stack[f]));
            }
        },
        YamlKindModel::ListOpened | YamlKindModel::MapOpened => {
            assert forall|f: int, j: int|
                0 <= f < after.stack.len() && k + 1 <= j < events.len() implies 0
                <= #[trigger] frame_start(after.stack[f]) <= byte_at(
                byte_offsets(bytes),
                (#[trigger] events[j]).end,
            ) by {
                if f < m.stack.len() {
                    assert(frame_start(after.stack[f]) == frame_start(m.stack[f]));
                } else {
                    assert(frame_start(after.stack[f]) == start);
                    lemma_byte_at(bytes, e.start, events[j].end);
                }
            }
        },
        YamlKindModel::ListClosed | YamlKindModel::MapClosed => {
            if m.passed == 0 && m.stack.len() > 0 {
                let f = m.stack.last();
                assert(frame_start(m.stack[m.stack.len() - 1]) <= byte_at(
                    byte_offsets(bytes),
                    events[k].end,
                ));
                let stop = bracket_end(bytes, frame_start(f), start, end);
                let span = empty_span(g, f, stop);
                lemma_span_of(
                    bytes,
                    within(bytes, frame_start(f)),
                    within(bytes, stop),
                    capped(column_of(bytes, frame_start(f))),
                    frame_context(f),
                );
                lemma_inserted_fits(m.spans, path_text(m.path), span, bytes.len());
            }
            assert forall|f: int, j: int|
                0 <= f < after.stack.len() && k + 1 <= j < events.len() implies 0
                <= #[trigger] frame_start(after.stack[f]) <= byte_at(
                byte_offsets(bytes),
                (#[trigger] events[j]).end,
            ) by {
                assert(frame_start(after.stack[f]) == frame_start(m.stack[f]));
            }
        },
        _ => {
            assert forall|f: int, j: int|
                0 <= f < after.stack.len() && k + 1 <= j < events.len() implies 0
                <= #[trigger] frame_start(after.stack[f]) <= byte_at(
                byte_offsets(bytes),
                (#[trigger] events[j]).end,
            ) by {
                assert(frame_start(after.stack[f]) == frame_start(m.stack[f]));
            }
        },
    }
}

proof fn lemma_run_fits(g: Ground, events: Seq<YamlEventModel>, k: int)
    requires
        g.bytes.len() <= usize::MAX,
        g.offsets == byte_offsets(g.bytes),
        events_advance(events),
        0 <= k <= events.len(),
    ensures
        values_fit(walk_run(g, events, k).spans, g.bytes.len()),
        frames_fit(g.bytes, walk_run(g, events, k).stack, events, k),
    decreases k,
{
    if k > 0 {
        lemma_run_fits(g, events, k - 1);
        lemma_step_fits(g, walk_run(g, events, k - 1), events, k - 1);
    }
}

/// Where the events of a YAML text go forward, the recorded values and their
/// lines lie within the text.
pub proof fn law_yaml_values_fit(bytes: Seq<u8>, events: Seq<YamlEventModel>)
    requires
        bytes.len() <= usize::MAX,
        events_advance(events),
    ensures
        values_fit(walked(bytes, events).spans, bytes.len()),
{
    let g = Ground {
        bytes,
        offsets: byte_offsets(bytes),
        multi: document_count(events, events.len() as int) > 1,
    };
    lemma_run_fits(g, events, events.len() as int);
}

} // verus!
