//! Where values live in the source bytes, and how an edit moves them.

use crate::value::{inserted, key_index, lemma_key_index, lookup, removed, unique_keys};
use indexmap::IndexMap;
use std::ops::Range;
use vstd::prelude::*;

verus! {

/// Where a value lives in the original source bytes.
#[derive(Debug, PartialEq, Eq)]
pub struct ValueSpan {
    /// Byte range of the value's textual form, quotes included.
    pub value_range: Range<usize>,
    /// Byte range of the whole physical lines the value occupies.
    pub line_range: Range<usize>,
    /// Indentation, in source bytes, of the parent container.
    pub indent: u32,
    /// Syntactic context.
    pub context: SpanContext,
}

/// Syntactic context of a span: block or flow, mapping or sequence.
#[derive(Debug, Clone, Copy, PartialEq, Eq, Structural)]
pub enum SpanContext {
    /// Value of a block-style mapping (`key: value` on its own line).
    BlockMapValue,
    /// Item of a block-style sequence (`- value` on its own line).
    BlockSeqItem,
    /// Value of a flow-style mapping (`{key: value, ...}`).
    FlowMapValue,
    /// Item of a flow-style sequence (`[value, ...]`).
    FlowSeqItem,
}

/// A textual edit's effect on byte positions.
#[derive(Debug, Clone, Copy)]
pub struct SpanRecomputeDelta {
    /// Byte offset where the edit begins.
    pub at: usize,
    /// Length of the byte range being replaced.
    pub old_len: usize,
    /// Length of the bytes inserted in its place.
    pub new_len: usize,
}

impl Clone for ValueSpan {
    fn clone(&self) -> (r: ValueSpan)
        ensures
            r == *self,
    {
        ValueSpan {
            value_range: self.value_range.start..self.value_range.end,
            line_range: self.line_range.start..self.line_range.end,
            indent: self.indent,
            context: self.context,
        }
    }
}

// ---------------------------------------------------------------------------
// The span map
// ---------------------------------------------------------------------------

/// A map that keeps insertion order, from the `indexmap` crate. Its contents
/// are named per instance below; nothing else is known of it here.
#[verifier::external_type_specification]
#[verifier::external_body]
#[verifier::reject_recursive_types(K)]
#[verifier::reject_recursive_types(V)]
#[verifier::reject_recursive_types(S)]
pub struct ExIndexMap<K, V, S>(indexmap::IndexMap<K, V, S>);

/// Map from canonical pointer texts to spans, in insertion order.
pub type SpanMap = IndexMap<String, ValueSpan>;

/// The entries of a span map, in order.
pub uninterp spec fn span_entries(m: SpanMap) -> Seq<(Seq<char>, ValueSpan)>;

/// `IndexMap::new` makes a map without entries.
#[verifier::external_body]
pub(crate) fn span_map_new() -> (r: SpanMap)
    ensures
        span_entries(r) == Seq::<(Seq<char>, ValueSpan)>::empty(),
{
    IndexMap::new()
}

/// `IndexMap::len` is the number of entries. No two of the entries that it
/// counts have equal keys: `insert` looks an equal key up before it adds one.
#[verifier::external_body]
pub(crate) fn span_map_len(m: &SpanMap) -> (r: usize)
    ensures
        r == span_entries(*m).len(),
        unique_keys(span_entries(*m).subrange(0, r as int)),
{
    m.len()
}

/// `IndexMap::get` finds the value under an equal key.
#[verifier::external_body]
pub(crate) fn span_map_get<'a>(m: &'a SpanMap, key: &str) -> (r: Option<&'a ValueSpan>)
    ensures
        match r {
            Some(span) => lookup(span_entries(*m), key@) == Some(*span),
            None => lookup(span_entries(*m), key@) is None,
        },
{
    m.get(key)
}

/// `IndexMap::insert` replaces the value under an equal key in its place, or
/// puts a new entry last.
#[verifier::external_body]
pub(crate) fn span_map_insert(m: &mut SpanMap, key: String, span: ValueSpan)
    ensures
        span_entries(*final(m)) == inserted(span_entries(*old(m)), key@, span),
{
    m.insert(key, span);
}

/// `IndexMap::shift_remove` takes the entry under an equal key out and closes
/// the gap, so that the others keep their order.
#[verifier::external_body]
pub(crate) fn span_map_shift_remove(m: &mut SpanMap, key: &str)
    ensures
        span_entries(*final(m)) == removed(span_entries(*old(m)), key@),
{
    m.shift_remove(key);
}

/// `IndexMap::get_index` gives the entry at a position.
#[verifier::external_body]
pub(crate) fn span_map_entry<'a>(m: &'a SpanMap, i: usize) -> (r: Option<
    (&'a String, &'a ValueSpan),
>)
    ensures
        match r {
            Some((key, span)) => i < span_entries(*m).len() && span_entries(*m)[i as int] == (
                key@,
                *span,
            ),
            None => i >= span_entries(*m).len(),
        },
{
    m.get_index(i)
}

/// `IndexMap::clone` clones every key and value, and keeps the order.
#[verifier::external_body]
pub(crate) fn span_map_clone(m: &SpanMap) -> (r: SpanMap)
    ensures
        span_entries(r) == span_entries(*m),
{
    m.clone()
}

/// Indexing an `IndexMap` by position, for assignment, reaches the value of the
/// entry at that position and leaves its key and the other entries. It panics
/// where there is no such entry.
#[verifier::external_body]
pub(crate) fn span_map_set_at(m: &mut SpanMap, i: usize, span: ValueSpan)
    requires
        i < span_entries(*old(m)).len(),
    ensures
        span_entries(*final(m)) == span_entries(*old(m)).update(
            i as int,
            (span_entries(*old(m))[i as int].0, span),
        ),
{
    m[i] = span;
}

// ---------------------------------------------------------------------------
// Moving spans
// ---------------------------------------------------------------------------

/// `value` after `old_len` bytes before it became `new_len` bytes. It stays
/// within what a `usize` holds.
pub open spec fn shifted(value: usize, old_len: usize, new_len: usize) -> usize {
    let n = value + new_len - old_len;
    if n < 0 {
        0
    } else if n > usize::MAX {
        usize::MAX
    } else {
        n as usize
    }
}

/// Where a span is after an edit: moved where it starts behind the edited
/// bytes, unmoved otherwise.
pub open spec fn moved_span(span: ValueSpan, delta: SpanRecomputeDelta) -> ValueSpan {
    if span.value_range.start >= delta.at + delta.old_len {
        ValueSpan {
            value_range: Range {
                start: shifted(span.value_range.start, delta.old_len, delta.new_len),
                end: shifted(span.value_range.end, delta.old_len, delta.new_len),
            },
            line_range: Range {
                start: shifted(span.line_range.start, delta.old_len, delta.new_len),
                end: shifted(span.line_range.end, delta.old_len, delta.new_len),
            },
            indent: span.indent,
            context: span.context,
        }
    } else {
        span
    }
}

/// Every span after an edit.
pub open spec fn moved_spans(
    entries: Seq<(Seq<char>, ValueSpan)>,
    delta: SpanRecomputeDelta,
) -> Seq<(Seq<char>, ValueSpan)> {
    Seq::new(entries.len(), |i: int| (entries[i].0, moved_span(entries[i].1, delta)))
}

/// Moves one position by the difference of two lengths, saturating.
pub fn signed_shift(value: usize, old_len: usize, new_len: usize) -> (r: usize)
    ensures
        r == shifted(value, old_len, new_len),
{
    if new_len >= old_len {
        value.saturating_add(new_len - old_len)
    } else {
        value.saturating_sub(old_len - new_len)
    }
}

/// Applies `delta` to every span that starts behind the edited bytes.
///
/// Spans that overlap or precede the edit are left as they are: the caller
/// updates the one that is being replaced.
pub fn apply_delta(map: &mut SpanMap, delta: SpanRecomputeDelta)
    requires
        delta.at + delta.old_len <= usize::MAX,
    ensures
        span_entries(*final(map)) == moved_spans(span_entries(*old(map)), delta),
{
    let ghost before = span_entries(*map);
    let ghost after = moved_spans(before, delta);
    if delta.new_len == delta.old_len {
        proof {
            assert forall|i: int| 0 <= i < before.len() implies after[i] == before[i] by {
                let s = before[i].1;
                assert(moved_span(s, delta) == s) by {
                    assert(shifted(s.value_range.start, delta.old_len, delta.new_len)
                        == s.value_range.start);
                    assert(shifted(s.value_range.end, delta.old_len, delta.new_len)
                        == s.value_range.end);
                    assert(shifted(s.line_range.start, delta.old_len, delta.new_len)
                        == s.line_range.start);
                    assert(shifted(s.line_range.end, delta.old_len, delta.new_len)
                        == s.line_range.end);
                }
            }
            assert(after =~= before);
        }
        return;
    }
    let edit_end: usize = delta.at + delta.old_len;
    let n: usize = span_map_len(map);
    let mut i: usize = 0;
    while i < n
        invariant
            i <= n == before.len(),
            after == moved_spans(before, delta),
            edit_end == delta.at + delta.old_len,
            span_entries(*map).len() == n,
            forall|k: int| 0 <= k < i ==> #[trigger] span_entries(*map)[k] == after[k],
            forall|k: int| i <= k < n ==> #[trigger] span_entries(*map)[k] == before[k],
        decreases n - i,
    {
        let ghost now = span_entries(*map);
        match span_map_entry(map, i) {
            Some((_, span)) => {
                assert(now[i as int] == before[i as int]);
                if span.value_range.start >= edit_end {
                    let moved: ValueSpan = ValueSpan {
                        value_range: signed_shift(
                            span.value_range.start,
                            delta.old_len,
                            delta.new_len,
                        )..signed_shift(span.value_range.end, delta.old_len, delta.new_len),
                        line_range: signed_shift(
                            span.line_range.start,
                            delta.old_len,
                            delta.new_len,
                        )..signed_shift(span.line_range.end, delta.old_len, delta.new_len),
                        indent: span.indent,
                        context: span.context,
                    };
                    span_map_set_at(map, i, moved);
                    assert(span_entries(*map)[i as int] == after[i as int]);
                }
            },
            None => {
                assert(false);
            },
        }
        i += 1;
    }
    assert(span_entries(*map) =~= after);
}

/// An edit that keeps the length moves nothing.
pub proof fn law_equal_length_edit_moves_nothing(span: ValueSpan, at: usize, len: usize)
    ensures
        moved_span(span, SpanRecomputeDelta { at, old_len: len, new_len: len }) == span,
{
    assert(shifted(span.value_range.start, len, len) == span.value_range.start);
    assert(shifted(span.value_range.end, len, len) == span.value_range.end);
    assert(shifted(span.line_range.start, len, len) == span.line_range.start);
    assert(shifted(span.line_range.end, len, len) == span.line_range.end);
}

/// An edit never moves a span that starts before the end of the edited bytes.
pub proof fn law_earlier_span_stays(span: ValueSpan, delta: SpanRecomputeDelta)
    requires
        span.value_range.start < delta.at + delta.old_len,
    ensures
        moved_span(span, delta) == span,
{
}

/// Undoing an edit moves a later span back to where it was, as long as no
/// position leaves the range of a `usize` on the way.
pub proof fn law_inverse_edit_moves_back(span: ValueSpan, delta: SpanRecomputeDelta)
    requires
        span.value_range.start >= delta.at + delta.old_len,
        delta.old_len <= span.value_range.end,
        delta.old_len <= span.line_range.start,
        delta.old_len <= span.line_range.end,
        span.value_range.start + delta.new_len <= usize::MAX,
        span.value_range.end + delta.new_len <= usize::MAX,
        span.line_range.start + delta.new_len <= usize::MAX,
        span.line_range.end + delta.new_len <= usize::MAX,
    ensures
        moved_span(
            moved_span(span, delta),
            SpanRecomputeDelta { at: delta.at, old_len: delta.new_len, new_len: delta.old_len },
        ) == span,
{
}

/// Moving keeps which pointers have spans, and their order.
pub proof fn law_moving_keeps_keys(
    entries: Seq<(Seq<char>, ValueSpan)>,
    delta: SpanRecomputeDelta,
    key: Seq<char>,
)
    ensures
        key_index(moved_spans(entries, delta), key) == key_index(entries, key),
        moved_spans(entries, delta).len() == entries.len(),
        unique_keys(entries) ==> unique_keys(moved_spans(entries, delta)),
        lookup(entries, key) is Some ==> lookup(moved_spans(entries, delta), key) == Some(
            moved_span(lookup(entries, key)->Some_0, delta),
        ),
        lookup(entries, key) is None ==> lookup(moved_spans(entries, delta), key) is None,
{
    let after = moved_spans(entries, delta);
    lemma_key_index(entries, key);
    let at = key_index(entries, key);
    assert forall|k: int| 0 <= k < at implies (#[trigger] after[k]).0 != key by {
        assert(entries[k].0 != key);
    }
    crate::value::lemma_key_index_is(after, key, at);
    if unique_keys(entries) {
        assert forall|i: int, j: int| 0 <= i < j < after.len() implies (#[trigger] after[i]).0 != (
        #[trigger] after[j]).0 by {
            assert(entries[i].0 != entries[j].0);
        }
    }
}

} // verus!
