//! Where values stand: within their source, and apart from each other.

use crate::document::{
    can_set, range_fits, rendered, replaced_span, replacement_delta, set_model, DocModel,
};
use crate::parsers::json::json_document;
use crate::parsers::json_scan::{
    array_scanned, bool_end, byte_digits_end, exponent_end, fraction_end, holds, holds_blank,
    holds_digit, item_scanned, items_scanned, key_scanned, member_scanned, members_scanned,
    null_end, number_end, object_scanned, scalar_recorded, skipped, string_end, string_rest,
    value_scanned, SpanSeq,
};
use crate::parsers::source_lines::{indent_at, path_text, span_of, whole_lines};
use crate::position::{line_end, line_start, within};
use crate::pointer::{canonical, Seg};
use crate::spans::{moved_spans, SpanContext, ValueSpan};
use crate::value::{inserted, key_index, lemma_key_index, Tree};
use vstd::prelude::*;

verus! {

/// Whether one value ends before the other starts.
pub open spec fn apart(a: ValueSpan, b: ValueSpan) -> bool {
    a.value_range.end <= b.value_range.start || b.value_range.end <= a.value_range.start
}

/// Whether every value lies within `len` bytes, apart from every other.
pub open spec fn values_apart(spans: SpanSeq, len: nat) -> bool {
    &&& forall|i: int| 0 <= i < spans.len() ==> range_fits((#[trigger] spans[i]).1.value_range, len)
    &&& forall|i: int, j: int|
        0 <= i < spans.len() && 0 <= j < spans.len() && i != j ==> apart(
            (#[trigger] spans[i]).1,
            (#[trigger] spans[j]).1,
        )
}

/// Whether the lines of every value lie within `len` bytes.
pub open spec fn lines_fit(spans: SpanSeq, len: nat) -> bool {
    forall|i: int| 0 <= i < spans.len() ==> range_fits((#[trigger] spans[i]).1.line_range, len)
}

// ---------------------------------------------------------------------------
// Edits
// ---------------------------------------------------------------------------

/// After a value has been replaced, every value lies within the new bytes,
/// apart from every other.
pub proof fn law_set_keeps_values_apart(m: DocModel, p: Seq<Seg>, v: Tree)
    requires
        can_set(m, p, v),
        values_apart(m.spans, m.bytes.len()),
        set_model(m, p, v).1 is Ok,
    ensures
        values_apart(set_model(m, p, v).0.spans, set_model(m, p, v).0.bytes.len()),
{
    let key = canonical(p);
    let at = key_index(m.spans, key);
    lemma_key_index(m.spans, key);
    let span = m.span(p)->Some_0;
    assert(m.spans[at].1 == span);
    assert(range_fits(span.value_range, m.bytes.len()));
    let new = rendered(m, span, v);
    let delta = replacement_delta(span, new.len());
    let moved = moved_spans(m.spans, delta);
    let after = set_model(m, p, v).0;
    assert forall|k: int| 0 <= k < moved.len() implies (#[trigger] moved[k]).0 == m.spans[k].0 by {
    }
    lemma_key_index(moved, key);
    assert(key_index(moved, key) == at) by {
        crate::value::lemma_key_index_is(moved, key, at);
    }
    let e = span.value_range.end as int;
    let s = span.value_range.start as int;
    let grown = after.bytes.len();
    assert(grown == m.bytes.len() + new.len() - (e - s));
    assert forall|k: int| 0 <= k < after.spans.len() && k != at implies {
        let old_range = m.spans[k].1.value_range;
        let new_range = (#[trigger] after.spans[k]).1.value_range;
        if old_range.start >= e {
            &&& new_range.start == old_range.start + new.len() - (e - s)
            &&& new_range.end == old_range.end + new.len() - (e - s)
        } else {
            new_range == old_range && old_range.end <= s
        }
    } by {
        assert(apart(m.spans[k].1, m.spans[at].1));
        assert(range_fits(m.spans[k].1.value_range, m.bytes.len()));
        assert(after.spans[k] == moved[k]);
    }
    assert(after.spans[at].1 == replaced_span(span, new.len()));
    assert forall|k: int| 0 <= k < after.spans.len() implies range_fits(
        (#[trigger] after.spans[k]).1.value_range,
        grown,
    ) by {
        if k != at {
            assert(range_fits(m.spans[k].1.value_range, m.bytes.len()));
        }
    }
    assert forall|i: int, j: int|
        0 <= i < after.spans.len() && 0 <= j < after.spans.len() && i != j implies apart(
        (#[trigger] after.spans[i]).1,
        (#[trigger] after.spans[j]).1,
    ) by {
        assert(apart(m.spans[i].1, m.spans[j].1));
        assert(range_fits(m.spans[i].1.value_range, m.bytes.len()));
        assert(range_fits(m.spans[j].1.value_range, m.bytes.len()));
    }
}

// ---------------------------------------------------------------------------
// Lines
// ---------------------------------------------------------------------------

proof fn lemma_line_start(bytes: Seq<u8>, k: int)
    requires
        0 <= k <= bytes.len(),
    ensures
        0 <= line_start(bytes, k) <= k,
    decreases k,
{
    if k > 0 && bytes[k - 1] != 10u8 {
        lemma_line_start(bytes, k - 1);
    }
}

proof fn lemma_line_end(bytes: Seq<u8>, k: int)
    requires
        0 <= k <= bytes.len(),
    ensures
        k <= line_end(bytes, k) <= bytes.len(),
    decreases bytes.len() - k,
{
    if k < bytes.len() && bytes[k] != 10u8 {
        lemma_line_end(bytes, k + 1);
    }
}

/// The span of a value that lies within its source: so do its lines.
pub proof fn lemma_span_of(bytes: Seq<u8>, start: int, end: int, indent: int, context: SpanContext)
    requires
        0 <= start <= end <= bytes.len() <= usize::MAX,
    ensures
        span_of(bytes, start, end, indent, context).value_range.start == start,
        span_of(bytes, start, end, indent, context).value_range.end == end,
        range_fits(span_of(bytes, start, end, indent, context).line_range, bytes.len()),
{
    lemma_line_start(bytes, within(bytes, start));
    lemma_line_end(bytes, within(bytes, end));
    assert(whole_lines(bytes, start, end).0 <= start);
}

// ---------------------------------------------------------------------------
// JSON
// ---------------------------------------------------------------------------

/// Whether the scan up to `pos` has recorded well: every value lies before
/// `pos`, apart from every other, and the lines lie within the bytes.
spec fn settled(bytes: Seq<u8>, spans: SpanSeq, pos: int) -> bool {
    &&& 0 <= pos <= bytes.len() <= usize::MAX
    &&& values_apart(spans, pos as nat)
    &&& lines_fit(spans, bytes.len())
}

proof fn lemma_settled_later(bytes: Seq<u8>, spans: SpanSeq, pos: int, later: int)
    requires
        settled(bytes, spans, pos),
        pos <= later <= bytes.len(),
    ensures
        settled(bytes, spans, later),
{
    assert forall|i: int| 0 <= i < spans.len() implies range_fits(
        (#[trigger] spans[i]).1.value_range,
        later as nat,
    ) by {
        assert(range_fits(spans[i].1.value_range, pos as nat));
    }
}

proof fn lemma_settled_scalar(
    bytes: Seq<u8>,
    path: Seq<Seq<char>>,
    spans: SpanSeq,
    start: int,
    end: int,
    context: SpanContext,
)
    requires
        settled(bytes, spans, start),
        start <= end <= bytes.len(),
    ensures
        settled(bytes, scalar_recorded(bytes, path, spans, start, end, context), end),
{
    let span = span_of(bytes, start, end, indent_at(bytes, start), context);
    lemma_span_of(bytes, start, end, indent_at(bytes, start), context);
    let key = path_text(path);
    let at = key_index(spans, key);
    lemma_key_index(spans, key);
    let after = inserted(spans, key, span);
    assert forall|i: int| 0 <= i < after.len() implies range_fits(
        (#[trigger] after[i]).1.value_range,
        end as nat,
    ) && range_fits(after[i].1.line_range, bytes.len()) by {
        if i != at {
            assert(after[i] == spans[i]);
            assert(range_fits(spans[i].1.value_range, start as nat));
        }
    }
    assert forall|i: int, j: int|
        0 <= i < after.len() && 0 <= j < after.len() && i != j implies apart(
        (#[trigger] after[i]).1,
        (#[trigger] after[j]).1,
    ) by {
        if i == at {
            assert(range_fits(spans[j].1.value_range, start as nat));
        } else if j == at {
            assert(range_fits(spans[i].1.value_range, start as nat));
        } else {
            assert(apart(spans[i].1, spans[j].1));
        }
    }
}

proof fn lemma_skipped_on(bytes: Seq<u8>, pos: int)
    requires
        0 <= pos <= bytes.len(),
    ensures
        skipped(bytes, pos) matches Ok(p) ==> pos <= p <= bytes.len(),
    decreases bytes.len() - pos,
{
    if holds_blank(bytes, pos) {
        lemma_skipped_on(bytes, pos + 1);
    }
}

proof fn lemma_string_rest(bytes: Seq<u8>, k: int)
    ensures
        string_rest(bytes, k) matches Ok(e) ==> 0 <= k < e <= bytes.len(),
    decreases bytes.len() - k,
{
    if 0 <= k < bytes.len() && bytes[k] != 34u8 {
        if bytes[k] != 92u8 {
            lemma_string_rest(bytes, k + 1);
        } else if holds(bytes, k + 1, 117) {
            if k + 6 <= bytes.len() {
                lemma_string_rest(bytes, k + 6);
            }
        } else if k + 1 < bytes.len() {
            lemma_string_rest(bytes, k + 2);
        }
    }
}

proof fn lemma_digits(bytes: Seq<u8>, k: int)
    requires
        0 <= k <= bytes.len(),
    ensures
        k <= byte_digits_end(bytes, k) <= bytes.len(),
    decreases bytes.len() - k,
{
    if holds_digit(bytes, k) {
        lemma_digits(bytes, k + 1);
    }
}

proof fn lemma_number(bytes: Seq<u8>, pos: int)
    requires
        0 <= pos <= bytes.len(),
    ensures
        number_end(bytes, pos) matches Ok(e) ==> pos <= e <= bytes.len(),
{
    let first = if holds(bytes, pos, 45) {
        pos + 1
    } else {
        pos
    };
    if holds(bytes, first, 48) || holds_digit(bytes, first) {
        let whole = if holds(bytes, first, 48) {
            first + 1
        } else {
            byte_digits_end(bytes, first)
        };
        lemma_digits(bytes, first);
        if holds(bytes, whole, 46) {
            lemma_digits(bytes, whole + 1);
        }
        let fraction = fraction_end(bytes, whole);
        assert(pos <= fraction <= bytes.len());
        if holds(bytes, fraction, 101) || holds(bytes, fraction, 69) {
            lemma_digits(
                bytes,
                if holds(bytes, fraction + 1, 43) || holds(bytes, fraction + 1, 45) {
                    fraction + 2
                } else {
                    fraction + 1
                },
            );
        }
        assert(number_end(bytes, pos) == Ok::<int, crate::error::Fault>(
            exponent_end(bytes, fraction),
        ));
    }
}

proof fn lemma_value_settled(
    bytes: Seq<u8>,
    pos: int,
    path: Seq<Seq<char>>,
    spans: SpanSeq,
    context: SpanContext,
)
    requires
        settled(bytes, spans, pos),
    ensures
        value_scanned(bytes, pos, path, spans, context) matches Ok((e, more)) ==> pos <= e
            && settled(bytes, more, e),
    decreases bytes.len() - pos, 0nat,
{
    lemma_skipped_on(bytes, pos);
    if let Ok(p) = skipped(bytes, pos) {
        if p < bytes.len() {
            lemma_settled_later(bytes, spans, pos, p);
            if bytes[p] == 123u8 {
                lemma_settled_later(bytes, spans, p, p + 1);
                lemma_object_settled(bytes, p + 1, path, spans);
            } else if bytes[p] == 91u8 {
                lemma_settled_later(bytes, spans, p, p + 1);
                lemma_array_settled(bytes, p + 1, path, spans);
            } else {
                let end = if bytes[p] == 34u8 {
                    string_end(bytes, p)
                } else if bytes[p] == 116u8 || bytes[p] == 102u8 {
                    bool_end(bytes, p)
                } else if bytes[p] == 110u8 {
                    null_end(bytes, p)
                } else {
                    number_end(bytes, p)
                };
                lemma_string_rest(bytes, p + 1);
                lemma_number(bytes, p);
                if let Ok(e) = end {
                    assert(p <= e <= bytes.len());
                    lemma_settled_scalar(bytes, path, spans, p, e, context);
                }
            }
        }
    }
}

proof fn lemma_object_settled(bytes: Seq<u8>, pos: int, path: Seq<Seq<char>>, spans: SpanSeq)
    requires
        settled(bytes, spans, pos),
    ensures
        object_scanned(bytes, pos, path, spans) matches Ok((e, more)) ==> pos <= e && settled(
            bytes,
            more,
            e,
        ),
    decreases bytes.len() - pos, 3nat,
{
    lemma_skipped_on(bytes, pos);
    if let Ok(q) = skipped(bytes, pos) {
        lemma_settled_later(bytes, spans, pos, q);
        if holds(bytes, q, 125) {
            lemma_settled_later(bytes, spans, q, q + 1);
        } else {
            lemma_members_settled(bytes, q, path, spans);
        }
    }
}

proof fn lemma_array_settled(bytes: Seq<u8>, pos: int, path: Seq<Seq<char>>, spans: SpanSeq)
    requires
        settled(bytes, spans, pos),
    ensures
        array_scanned(bytes, pos, path, spans) matches Ok((e, more)) ==> pos <= e && settled(
            bytes,
            more,
            e,
        ),
    decreases bytes.len() - pos, 3nat,
{
    lemma_skipped_on(bytes, pos);
    if let Ok(q) = skipped(bytes, pos) {
        lemma_settled_later(bytes, spans, pos, q);
        if holds(bytes, q, 93) {
            lemma_settled_later(bytes, spans, q, q + 1);
        } else {
            lemma_items_settled(bytes, q, path, spans, 0);
        }
    }
}

proof fn lemma_key(bytes: Seq<u8>, pos: int)
    requires
        0 <= pos <= bytes.len(),
    ensures
        key_scanned(bytes, pos) matches Ok((_, q)) ==> pos < q <= bytes.len(),
{
    lemma_skipped_on(bytes, pos);
    if let Ok(p) = skipped(bytes, pos) {
        lemma_string_rest(bytes, p + 1);
        if let Ok(e) = string_end(bytes, p) {
            lemma_skipped_on(bytes, e);
        }
    }
}

proof fn lemma_member_settled(bytes: Seq<u8>, pos: int, path: Seq<Seq<char>>, spans: SpanSeq)
    requires
        settled(bytes, spans, pos),
    ensures
        member_scanned(bytes, pos, path, spans) matches Ok((e, more, _)) ==> pos < e && settled(
            bytes,
            more,
            e,
        ),
    decreases bytes.len() - pos, 1nat,
{
    lemma_key(bytes, pos);
    if let Ok((key, q)) = key_scanned(bytes, pos) {
        lemma_settled_later(bytes, spans, pos, q);
        let inner = path.push(crate::pointer::escaped(key));
        lemma_value_settled(bytes, q, inner, spans, SpanContext::BlockMapValue);
        if let Ok((v, more)) = value_scanned(bytes, q, inner, spans, SpanContext::BlockMapValue) {
            lemma_skipped_on(bytes, v);
            if let Ok(s) = skipped(bytes, v) {
                if s < bytes.len() {
                    lemma_settled_later(bytes, more, v, s + 1);
                }
            }
        }
    }
}

proof fn lemma_members_settled(bytes: Seq<u8>, pos: int, path: Seq<Seq<char>>, spans: SpanSeq)
    requires
        settled(bytes, spans, pos),
    ensures
        members_scanned(bytes, pos, path, spans) matches Ok((e, more)) ==> pos <= e && settled(
            bytes,
            more,
            e,
        ),
    decreases bytes.len() - pos, 2nat,
{
    lemma_member_settled(bytes, pos, path, spans);
    if let Ok((p, more, again)) = member_scanned(bytes, pos, path, spans) {
        if again {
            lemma_members_settled(bytes, p, path, more);
        }
    }
}

proof fn lemma_item_settled(
    bytes: Seq<u8>,
    pos: int,
    path: Seq<Seq<char>>,
    spans: SpanSeq,
    index: nat,
)
    requires
        settled(bytes, spans, pos),
    ensures
        item_scanned(bytes, pos, path, spans, index) matches Ok((e, more, _)) ==> pos < e
            && settled(bytes, more, e),
    decreases bytes.len() - pos, 1nat,
{
    let inner = path.push(crate::numbers::decimal(index));
    lemma_value_settled(bytes, pos, inner, spans, SpanContext::BlockSeqItem);
    if let Ok((v, more)) = value_scanned(bytes, pos, inner, spans, SpanContext::BlockSeqItem) {
        lemma_skipped_on(bytes, v);
        if let Ok(s) = skipped(bytes, v) {
            if s < bytes.len() {
                lemma_settled_later(bytes, more, v, s + 1);
            }
        }
    }
}

proof fn lemma_items_settled(
    bytes: Seq<u8>,
    pos: int,
    path: Seq<Seq<char>>,
    spans: SpanSeq,
    index: nat,
)
    requires
        settled(bytes, spans, pos),
    ensures
        items_scanned(bytes, pos, path, spans, index) matches Ok((e, more)) ==> pos <= e
            && settled(bytes, more, e),
    decreases bytes.len() - pos, 2nat,
{
    lemma_item_settled(bytes, pos, path, spans, index);
    if let Ok((p, more, again)) = item_scanned(bytes, pos, path, spans, index) {
        if again {
            lemma_items_settled(bytes, p, path, more, index + 1);
        }
    }
}

/// The values of a JSON document lie within its source, apart from each other,
/// and so do their lines.
pub proof fn law_json_values_are_apart(bytes: Seq<u8>)
    requires
        bytes.len() <= usize::MAX,
    ensures
        json_document(bytes) matches Ok(doc) ==> doc.bytes == bytes && values_apart(
            doc.spans,
            bytes.len(),
        ) && lines_fit(doc.spans, bytes.len()),
{
    lemma_skipped_on(bytes, 0);
    if let Ok(p) = skipped(bytes, 0) {
        let none: SpanSeq = Seq::empty();
        lemma_value_settled(bytes, p, Seq::empty(), none, SpanContext::BlockMapValue);
        if let Ok((e, spans)) = value_scanned(
            bytes,
            p,
            Seq::empty(),
            none,
            SpanContext::BlockMapValue,
        ) {
            lemma_settled_later(bytes, spans, e, bytes.len() as int);
        }
    }
}

} // verus!
