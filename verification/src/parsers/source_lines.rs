//! Where a value stands in its source: its lines, its indentation, and the
//! pointer text it is recorded under.

use crate::bytes::copy_bytes;
use crate::error::texts;
use crate::position::{
    capped, find_line_end, find_line_start, line_end, line_start, within,
};
use crate::spans::{SpanContext, ValueSpan};
use crate::utf8_text::{lossy_text, utf8_lossy};
use std::ops::Range;
use vstd::prelude::*;

verus! {

/// The byte behind the line that holds position `k`, its newline included.
pub open spec fn next_line(bytes: Seq<u8>, k: int) -> int {
    let end = line_end(bytes, k);
    if end < bytes.len() {
        end + 1
    } else {
        end
    }
}

/// The whole lines that a range of bytes touches, the last newline included.
pub open spec fn whole_lines(bytes: Seq<u8>, start: int, end: int) -> (int, int) {
    (line_start(bytes, within(bytes, start)), next_line(bytes, within(bytes, end)))
}

/// The number of spaces and tabs from `k` on, before `stop`.
pub open spec fn blanks_from(bytes: Seq<u8>, k: int, stop: int) -> nat
    decreases stop - k,
{
    if 0 <= k < stop && k < bytes.len() && (bytes[k] == 32u8 || bytes[k] == 9u8) {
        1 + blanks_from(bytes, k + 1, stop)
    } else {
        0
    }
}

/// The indentation of the line that holds position `index`, counted no further
/// than `index`.
pub open spec fn indent_at(bytes: Seq<u8>, index: int) -> int {
    let k = within(bytes, index);
    capped(blanks_from(bytes, line_start(bytes, k), k))
}

/// The line that holds position `idx`, for showing; the last one where `idx` is
/// past the end.
pub open spec fn shown_line(bytes: Seq<u8>, idx: int) -> Seq<char> {
    if bytes.len() == 0 {
        Seq::empty()
    } else {
        let from = line_start(bytes, if idx < bytes.len() {
            idx
        } else {
            bytes.len() - 1
        });
        let to = line_end(bytes, within(bytes, idx));
        utf8_lossy(bytes.subrange(from, to))
    }
}

/// The pointer text of a path of written segments: each behind a slash.
pub open spec fn path_text(path: Seq<Seq<char>>) -> Seq<char>
    decreases path.len(),
{
    if path.len() == 0 {
        Seq::empty()
    } else {
        path_text(path.drop_last()) + "/"@ + path.last()
    }
}

/// Whether a context lies inside a flow collection.
pub open spec fn is_flow(context: SpanContext) -> bool {
    context == SpanContext::FlowMapValue || context == SpanContext::FlowSeqItem
}

/// Whether a context is that of an item of a sequence.
pub open spec fn is_seq_item(context: SpanContext) -> bool {
    context == SpanContext::BlockSeqItem || context == SpanContext::FlowSeqItem
}

/// The span of a value: in a flow collection it has no lines of its own.
pub open spec fn span_of(
    bytes: Seq<u8>,
    start: int,
    end: int,
    indent: int,
    context: SpanContext,
) -> ValueSpan {
    let lines = if is_flow(context) {
        (start, end)
    } else {
        whole_lines(bytes, start, end)
    };
    ValueSpan {
        value_range: Range { start: start as usize, end: end as usize },
        line_range: Range { start: lines.0 as usize, end: lines.1 as usize },
        indent: indent as u32,
        context,
    }
}

fn clip(bytes: &[u8], pos: usize) -> (r: usize)
    ensures
        r == within(bytes@, pos as int),
        r <= bytes@.len(),
{
    if pos < bytes.len() {
        pos
    } else {
        bytes.len()
    }
}

/// The whole lines that a range of bytes touches.
pub fn compute_line_range(bytes: &[u8], start: usize, end: usize) -> (r: (usize, usize))
    ensures
        (r.0 as int, r.1 as int) == whole_lines(bytes@, start as int, end as int),
{
    let from: usize = find_line_start(bytes, clip(bytes, start));
    let to: usize = find_line_end(bytes, clip(bytes, end));
    if to < bytes.len() {
        (from, to + 1)
    } else {
        (from, to)
    }
}

/// The indentation of the line that holds position `index`.
pub fn compute_indent(bytes: &[u8], index: usize) -> (r: u32)
    ensures
        r == indent_at(bytes@, index as int),
{
    let stop: usize = clip(bytes, index);
    let from: usize = find_line_start(bytes, stop);
    let mut indent: u32 = 0;
    let mut k: usize = from;
    while k < stop && (bytes[k] == 32 || bytes[k] == 9)
        invariant
            from <= k <= stop <= bytes@.len(),
            indent == capped((k - from) as nat),
            blanks_from(bytes@, from as int, stop as int) == (k - from) + blanks_from(
                bytes@,
                k as int,
                stop as int,
            ),
        decreases stop - k,
    {
        indent = indent.saturating_add(1);
        k += 1;
    }
    indent
}

/// The line that holds position `idx`, for showing.
pub fn extract_line_snippet(bytes: &[u8], idx: usize) -> (r: String)
    ensures
        r@ == shown_line(bytes@, idx as int),
{
    if bytes.len() == 0 {
        let empty: String = String::new();
        assert(empty@ =~= Seq::<char>::empty());
        return empty;
    }
    let last: usize = if idx < bytes.len() {
        idx
    } else {
        bytes.len() - 1
    };
    let from: usize = find_line_start(bytes, last);
    let to: usize = find_line_end(bytes, clip(bytes, idx));
    let raw: Vec<u8> = copy_bytes(bytes, from, to);
    lossy_text(raw.as_slice())
}

/// The pointer text of a path of written segments.
pub fn pointer_for(path: &Vec<String>) -> (r: String)
    ensures
        r@ == path_text(texts(path@)),
{
    let ghost all = texts(path@);
    let mut out: String = String::new();
    assert(out@ =~= Seq::<char>::empty());
    let mut i: usize = 0;
    assert(all.subrange(0, 0) =~= Seq::<Seq<char>>::empty());
    while i < path.len()
        invariant
            i <= path@.len(),
            all == texts(path@),
            out@ == path_text(all.subrange(0, i as int)),
        decreases path@.len() - i,
    {
        assert(all.subrange(0, i + 1).drop_last() =~= all.subrange(0, i as int));
        assert(all.subrange(0, i + 1).last() == path@[i as int]@);
        out.push_str("/");
        out.push_str(path[i].as_str());
        i += 1;
    }
    assert(all.subrange(0, path@.len() as int) =~= all);
    out
}

/// The span of a value.
pub fn make_span(
    bytes: &[u8],
    start: usize,
    end: usize,
    indent: u32,
    context: SpanContext,
) -> (r: ValueSpan)
    ensures
        r == span_of(bytes@, start as int, end as int, indent as int, context),
{
    let (from, to): (usize, usize) = match context {
        SpanContext::FlowMapValue | SpanContext::FlowSeqItem => (start, end),
        SpanContext::BlockMapValue | SpanContext::BlockSeqItem => compute_line_range(
            bytes,
            start,
            end,
        ),
    };
    ValueSpan { value_range: start..end, line_range: from..to, indent, context }
}

} // verus!
