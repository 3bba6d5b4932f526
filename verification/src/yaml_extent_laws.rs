//! Where YAML scalars and collections are written in their source.

use crate::parsers::yaml_extents::{
    before_blanks, block_start, bracket_end, closing_quote, indicator_from, is_blank_byte, is_gap,
    visible_end, written_range,
};
use crate::parsers::yaml_spans::{
    byte_at, byte_offsets, char_starts, context_in, starts_flow, FrameModel,
};
use crate::position::line_start;
use crate::edit_laws::law_line_lies_between_newlines;
use crate::spans::SpanContext;
use vstd::prelude::*;
use vstd::utf8::is_continuation_byte;

verus! {

/// A scalar without quotes is written where the parser places it.
pub proof fn law_plain_scalar_is_written_where_it_stands(
    bytes: Seq<u8>,
    start: int,
    end: int,
    text: Seq<char>,
    context: SpanContext,
)
    requires
        0 <= start < end <= bytes.len(),
        bytes[start] != 34 && bytes[start] != 39,
        text.len() > 0,
        text != "~"@ || bytes[start] == 126,
    ensures
        written_range(bytes, start, end, text, false, context) == Some((start, end)),
{
}

/// Whether bytes can stand between single quotes: every quote is doubled.
pub open spec fn quotes_are_doubled(inner: Seq<u8>) -> bool
    decreases inner.len(),
{
    if inner.len() == 0 {
        true
    } else if inner[0] == 39 {
        inner.len() > 1 && inner[1] == 39 && quotes_are_doubled(
            inner.subrange(2, inner.len() as int),
        )
    } else {
        quotes_are_doubled(inner.subrange(1, inner.len() as int))
    }
}

/// Whether bytes can stand between double quotes: every quote and every backslash
/// is behind a backslash.
pub open spec fn quotes_are_escaped(inner: Seq<u8>) -> bool
    decreases inner.len(),
{
    if inner.len() == 0 {
        true
    } else if inner[0] == 34 {
        false
    } else if inner[0] == 92 {
        inner.len() > 1 && quotes_are_escaped(inner.subrange(2, inner.len() as int))
    } else {
        quotes_are_escaped(inner.subrange(1, inner.len() as int))
    }
}

proof fn lemma_single_closed(bytes: Seq<u8>, k: int, close: int, end: int)
    requires
        0 <= k <= close < end <= bytes.len(),
        quotes_are_doubled(bytes.subrange(k, close)),
        bytes[close] == 39,
        close + 1 < end ==> bytes[close + 1] != 39,
    ensures
        closing_quote(bytes, 39, k, end) == close + 1,
    decreases close - k,
{
    let inner = bytes.subrange(k, close);
    if k < close {
        assert(inner[0] == bytes[k]);
        if bytes[k] == 39 {
            assert(inner[1] == bytes[k + 1]);
            assert(inner.subrange(2, inner.len() as int) =~= bytes.subrange(k + 2, close));
            lemma_single_closed(bytes, k + 2, close, end);
        } else {
            assert(inner.subrange(1, inner.len() as int) =~= bytes.subrange(k + 1, close));
            lemma_single_closed(bytes, k + 1, close, end);
        }
    }
}

proof fn lemma_double_closed(bytes: Seq<u8>, k: int, close: int, end: int)
    requires
        0 <= k <= close < end <= bytes.len(),
        quotes_are_escaped(bytes.subrange(k, close)),
        bytes[close] == 34,
    ensures
        closing_quote(bytes, 34, k, end) == close + 1,
    decreases close - k,
{
    let inner = bytes.subrange(k, close);
    if k < close {
        assert(inner[0] == bytes[k]);
        if bytes[k] == 92 {
            assert(inner.subrange(2, inner.len() as int) =~= bytes.subrange(k + 2, close));
            lemma_double_closed(bytes, k + 2, close, end);
        } else {
            assert(inner.subrange(1, inner.len() as int) =~= bytes.subrange(k + 1, close));
            lemma_double_closed(bytes, k + 1, close, end);
        }
    }
}

/// A scalar in quotes is written from its first quote to the one that closes it:
/// not to one that is doubled or escaped, and not further.
pub proof fn law_quoted_scalar_ends_at_its_quote(
    bytes: Seq<u8>,
    start: int,
    close: int,
    end: int,
    text: Seq<char>,
    context: SpanContext,
)
    requires
        0 <= start < close < end <= bytes.len(),
        bytes[start] == 34 || bytes[start] == 39,
        bytes[close] == bytes[start],
        bytes[start] == 39 ==> quotes_are_doubled(bytes.subrange(start + 1, close)) && (close + 1
            < end ==> bytes[close + 1] != 39),
        bytes[start] == 34 ==> quotes_are_escaped(bytes.subrange(start + 1, close)),
    ensures
        written_range(bytes, start, end, text, false, context) == Some((start, close + 1)),
{
    if bytes[start] == 39 {
        lemma_single_closed(bytes, start + 1, close, end);
    } else {
        lemma_double_closed(bytes, start + 1, close, end);
    }
}

proof fn lemma_visible_end(bytes: Seq<u8>, from: int, k: int)
    requires
        0 <= from && 0 <= k <= bytes.len(),
    ensures
        from <= k ==> from <= visible_end(bytes, from, k) <= k,
        forall|i: int| visible_end(bytes, from, k) <= i < k ==> is_gap(#[trigger] bytes[i]),
        visible_end(bytes, from, k) > from ==> !is_gap(bytes[visible_end(bytes, from, k) - 1]),
    decreases k,
{
    if k > 0 && k > from && is_gap(bytes[k - 1]) {
        lemma_visible_end(bytes, from, k - 1);
    }
}

proof fn lemma_indicator(bytes: Seq<u8>, i: int, start: int, end: int)
    requires
        0 <= i,
    ensures
        indicator_from(bytes, i, start, end) matches Some(at) ==> i <= at < end && (bytes[at] == 124
            || bytes[at] == 62),
    decreases end - i,
{
    if i < end && !crate::parsers::yaml_extents::is_indicator(bytes, i, start, end) {
        lemma_indicator(bytes, i + 1, start, end);
    }
}

/// A block scalar is written from its indicator to its last visible byte. Between
/// the line of the indicator and that of the content stand only blank lines.
pub proof fn law_block_scalar_starts_at_its_indicator(
    bytes: Seq<u8>,
    start: int,
    end: int,
    text: Seq<char>,
    context: SpanContext,
)
    requires
        0 <= start <= end <= bytes.len(),
    ensures
        written_range(bytes, start, end, text, true, context) matches Some((from, to)) ==> {
            &&& 0 <= from < bytes.len() && (bytes[from] == 124 || bytes[from] == 62)
            &&& from <= to
            &&& forall|i: int| to <= i < end ==> is_gap(#[trigger] bytes[i])
            &&& to > from ==> !is_gap(bytes[to - 1])
            &&& from == start || {
                let line = line_start(bytes, start);
                let last = visible_end(bytes, 0, line);
                &&& from < last <= line
                &&& forall|i: int| last <= i < line ==> is_gap(#[trigger] bytes[i])
                &&& forall|i: int| from <= i < last ==> #[trigger] bytes[i] != 10u8
            }
        },
{
    law_line_lies_between_newlines(bytes, start);
    let line = line_start(bytes, start);
    lemma_visible_end(bytes, 0, line);
    let last = visible_end(bytes, 0, line);
    law_line_lies_between_newlines(bytes, last);
    let first = line_start(bytes, last);
    lemma_indicator(bytes, first, first, last);
    if let Some(from) = block_start(bytes, start, text) {
        lemma_visible_end(bytes, from, end);
        if from != start {
            assert forall|i: int| from <= i < last implies #[trigger] bytes[i] != 10u8 by {
                assert(first <= i < crate::position::line_end(bytes, last) || i < last);
                lemma_before_in_line(bytes, last, i);
            }
        }
    }
}

proof fn lemma_before_in_line(bytes: Seq<u8>, k: int, i: int)
    requires
        0 <= k <= bytes.len(),
        line_start(bytes, k) <= i < k,
    ensures
        bytes[i] != 10u8,
    decreases k,
{
    if k > 0 && bytes[k - 1] != 10u8 && i < k - 1 {
        lemma_before_in_line(bytes, k - 1, i);
    }
}

proof fn lemma_before_blanks(bytes: Seq<u8>, k: int)
    requires
        0 <= k <= bytes.len(),
    ensures
        0 <= before_blanks(bytes, k) <= k,
        forall|i: int| before_blanks(bytes, k) <= i < k ==> is_blank_byte(#[trigger] bytes[i]),
    decreases k,
{
    if k > 0 && is_blank_byte(bytes[k - 1]) {
        lemma_before_blanks(bytes, k - 1);
    }
}

/// A scalar that is left out is placed where it would be written: behind the dash
/// of its item, with nothing but blanks between, or behind the colon of its key.
pub proof fn law_left_out_scalar_is_behind_its_mark(
    bytes: Seq<u8>,
    at: int,
    context: SpanContext,
)
    requires
        0 <= at <= bytes.len(),
    ensures
        written_range(bytes, at, at, "~"@, false, context) matches Some((from, to)) ==> {
            &&& from == to
            &&& if context == SpanContext::BlockSeqItem || context == SpanContext::FlowSeqItem {
                &&& 0 < from <= at && bytes[from - 1] == 45
                &&& forall|i: int| from <= i < at ==> is_blank_byte(#[trigger] bytes[i])
            } else {
                from == at + 1 && at < bytes.len() && bytes[at] == 58
            }
        },
{
    lemma_before_blanks(bytes, at);
}

/// A flow collection ends behind its bracket.
pub proof fn law_flow_collection_ends_at_its_bracket(bytes: Seq<u8>, from: int, at: int, end: int)
    requires
        from < at < bytes.len(),
    ensures
        bytes[at] == 125 || bytes[at] == 93 ==> bracket_end(bytes, from, at, end) == at + 1,
        bytes[at] != 125 && bytes[at] != 93 ==> bracket_end(bytes, from, at, end) == end,
{
}

/// The context of a value is that of the collection around it: whether that is a
/// mapping or a sequence, and whether it starts with a bracket.
pub proof fn law_context_is_that_of_the_collection(
    bytes: Seq<u8>,
    start: int,
    stack: Seq<FrameModel>,
)
    requires
        0 <= start,
        stack.len() > 0,
        match stack.last() {
            FrameModel::Mapping(_, flow, at, _) => at == start && flow == starts_flow(bytes, start),
            FrameModel::Sequence(_, flow, at) => at == start && flow == starts_flow(bytes, start),
        },
    ensures
        ({
            let bracket = start < bytes.len() && (bytes[start] == 123u8 || bytes[start] == 91u8);
            context_in(stack) == (match stack.last() {
                FrameModel::Mapping(_, _, _, _) => if bracket {
                    SpanContext::FlowMapValue
                } else {
                    SpanContext::BlockMapValue
                },
                FrameModel::Sequence(_, _, _) => if bracket {
                    SpanContext::FlowSeqItem
                } else {
                    SpanContext::BlockSeqItem
                },
            })
        }),
{
}

proof fn lemma_char_starts(bytes: Seq<u8>, k: int)
    requires
        0 <= k <= bytes.len() <= usize::MAX,
    ensures
        forall|i: int|
            0 <= i < char_starts(bytes, k).len() ==> (#[trigger] char_starts(bytes, k)[i]) < k
                && !is_continuation_byte(bytes[char_starts(bytes, k)[i] as int]),
        forall|i: int, j: int|
            0 <= i < j < char_starts(bytes, k).len() ==> (#[trigger] char_starts(bytes, k)[i]) < (
            #[trigger] char_starts(bytes, k)[j]),
        forall|b: int|
            0 <= b < k && !is_continuation_byte(#[trigger] bytes[b]) ==> char_starts(
                bytes,
                k,
            ).contains(b as usize),
    decreases k,
{
    if k > 0 {
        lemma_char_starts(bytes, k - 1);
        let all = char_starts(bytes, k);
        let before = char_starts(bytes, k - 1);
        assert forall|b: int| 0 <= b < k && !is_continuation_byte(#[trigger] bytes[b]) implies
            all.contains(b as usize) by {
            if b == k - 1 {
                assert(all[all.len() - 1] == b as usize);
            } else {
                let i = choose|i: int| 0 <= i < before.len() && before[i] == b as usize;
                assert(all[i] == before[i]);
            }
        }
    }
}

/// The byte of a character position is where the character starts: the positions
/// are those of the bytes that start a character, in order, and behind them that
/// of the end.
pub proof fn law_character_positions_are_byte_positions(bytes: Seq<u8>)
    requires
        bytes.len() <= usize::MAX,
    ensures
        ({
            let offsets = byte_offsets(bytes);
            let n = offsets.len() - 1;
            &&& n >= 0 && offsets[n] == bytes.len()
            &&& forall|i: int|
                0 <= i < n ==> (#[trigger] offsets[i]) < bytes.len() && !is_continuation_byte(
                    bytes[offsets[i] as int],
                )
            &&& forall|i: int, j: int|
                0 <= i < j < offsets.len() ==> (#[trigger] offsets[i]) < (#[trigger] offsets[j])
            &&& forall|b: int|
                0 <= b < bytes.len() && !is_continuation_byte(#[trigger] bytes[b])
                    ==> offsets.contains(b as usize)
            &&& forall|i: int|
                0 <= i ==> #[trigger] byte_at(offsets, i) == (if i < n {
                    offsets[i] as int
                } else {
                    bytes.len() as int
                })
        }),
{
    lemma_char_starts(bytes, bytes.len() as int);
    let starts = char_starts(bytes, bytes.len() as int);
    let offsets = byte_offsets(bytes);
    assert forall|b: int|
        0 <= b < bytes.len() && !is_continuation_byte(#[trigger] bytes[b]) implies offsets.contains(
        b as usize,
    ) by {
        let i = choose|i: int| 0 <= i < starts.len() && starts[i] == b as usize;
        assert(offsets[i] == starts[i]);
    }
}

} // verus!
