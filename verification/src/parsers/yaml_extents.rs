//! From where to where a YAML scalar is written, given where its content stands.
//!
//! The parser places a block scalar at its first line of content, a quoted one up
//! to the end of its line, and one that is left out at what stands around it.

use crate::parsers::source_lines::is_seq_item;
use crate::position::{find_line_start, line_start};
use crate::spans::SpanContext;
use crate::text::chars_of;
use vstd::prelude::*;

verus! {

/// Whether a byte is white space.
pub open spec fn is_gap(b: u8) -> bool {
    b == 32 || b == 9 || b == 10 || b == 13
}

/// Whether a byte is a space or a tab.
pub open spec fn is_blank_byte(b: u8) -> bool {
    b == 32 || b == 9
}

fn gap(b: u8) -> (r: bool)
    ensures
        r == is_gap(b),
{
    b == 32 || b == 9 || b == 10 || b == 13
}

fn blank_byte(b: u8) -> (r: bool)
    ensures
        r == is_blank_byte(b),
{
    b == 32 || b == 9
}

/// Behind the last byte before `k` that is no white space, or `from`.
pub open spec fn visible_end(bytes: Seq<u8>, from: int, k: int) -> int
    decreases k,
{
    if k <= 0 || k <= from {
        from
    } else if is_gap(bytes[k - 1]) {
        visible_end(bytes, from, k - 1)
    } else {
        k
    }
}

fn find_visible_end(bytes: &[u8], from: usize, k: usize) -> (r: usize)
    requires
        from <= k <= bytes@.len(),
    ensures
        r == visible_end(bytes@, from as int, k as int),
        from <= r <= k,
{
    let mut i: usize = k;
    while i > from
        invariant
            from <= i <= k <= bytes@.len(),
            visible_end(bytes@, from as int, k as int) == visible_end(
                bytes@,
                from as int,
                i as int,
            ),
        decreases i,
    {
        if !gap(bytes[i - 1]) {
            return i;
        }
        i -= 1;
    }
    from
}

// ---------------------------------------------------------------------------
// Quoted scalars
// ---------------------------------------------------------------------------

/// Behind the quote that closes a scalar whose content goes on at `k`. A quote
/// that is doubled, or escaped, does not close it.
pub open spec fn closing_quote(bytes: Seq<u8>, quote: u8, k: int, end: int) -> int
    decreases end - k,
{
    if k >= end {
        end
    } else if bytes[k] == quote {
        if quote == 39 && k + 1 < end && bytes[k + 1] == 39 {
            closing_quote(bytes, quote, k + 2, end)
        } else {
            k + 1
        }
    } else if quote == 34 && bytes[k] == 92 && k + 1 < end {
        closing_quote(bytes, quote, k + 2, end)
    } else {
        closing_quote(bytes, quote, k + 1, end)
    }
}

fn find_closing_quote(bytes: &[u8], quote: u8, from: usize, end: usize) -> (r: usize)
    requires
        from <= end <= bytes@.len(),
    ensures
        r == closing_quote(bytes@, quote, from as int, end as int),
        from <= r <= end,
{
    let mut k: usize = from;
    while k < end
        invariant
            from <= k <= end <= bytes@.len(),
            closing_quote(bytes@, quote, from as int, end as int) == closing_quote(
                bytes@,
                quote,
                k as int,
                end as int,
            ),
        decreases end - k,
    {
        let twofold: bool = if bytes[k] == quote {
            if !(quote == 39 && k + 1 < end && bytes[k + 1] == 39) {
                return k + 1;
            }
            true
        } else {
            quote == 34 && bytes[k] == 92 && k + 1 < end
        };
        if twofold {
            k += 2;
        } else {
            k += 1;
        }
    }
    end
}

proof fn lemma_closing_quote(bytes: Seq<u8>, quote: u8, k: int, end: int)
    requires
        k <= end,
    ensures
        k <= closing_quote(bytes, quote, k, end) <= end,
    decreases end - k,
{
    if k < end {
        if k + 2 <= end {
            lemma_closing_quote(bytes, quote, k + 2, end);
        }
        lemma_closing_quote(bytes, quote, k + 1, end);
    }
}

// ---------------------------------------------------------------------------
// Block scalars
// ---------------------------------------------------------------------------

/// Whether a byte says how a block scalar is indented or ends.
pub open spec fn is_header_mark(b: u8) -> bool {
    b == 43 || b == 45 || 48 <= b <= 57
}

/// Behind the bytes from `k` on that say so, before `end`.
pub open spec fn marks_end(bytes: Seq<u8>, k: int, end: int) -> int
    decreases end - k,
{
    if k < end && is_header_mark(bytes[k]) {
        marks_end(bytes, k + 1, end)
    } else {
        k
    }
}

/// Behind the spaces and tabs from `k` on, before `end`.
pub open spec fn blanks_end(bytes: Seq<u8>, k: int, end: int) -> int
    decreases end - k,
{
    if k < end && is_blank_byte(bytes[k]) {
        blanks_end(bytes, k + 1, end)
    } else {
        k
    }
}

/// Whether the indicator of a block scalar stands at `i`: what follows it in its
/// line, which ends at `end`, says how the scalar is indented or ends, or is a
/// comment.
pub open spec fn is_indicator(bytes: Seq<u8>, i: int, start: int, end: int) -> bool {
    let marks = marks_end(bytes, i + 1, end);
    let rest = blanks_end(bytes, marks, end);
    &&& bytes[i] == 124 || bytes[i] == 62
    &&& i == start || is_blank_byte(bytes[i - 1])
    &&& rest >= end || (marks < rest && bytes[rest] == 35)
}

/// The first indicator from `i` on, in a line from `start` to `end`.
pub open spec fn indicator_from(bytes: Seq<u8>, i: int, start: int, end: int) -> Option<int>
    decreases end - i,
{
    if i >= end {
        None
    } else if is_indicator(bytes, i, start, end) {
        Some(i)
    } else {
        indicator_from(bytes, i + 1, start, end)
    }
}

/// Whether a text holds nothing but line ends.
pub open spec fn only_breaks(text: Seq<char>) -> bool {
    forall|i: int| 0 <= i < text.len() ==> #[trigger] text[i] == '\n'
}

/// Where the indicator of a block scalar stands whose content starts at `at`: in
/// the last line before that of the content that is not blank. The content of a
/// scalar without any may be said to start at the indicator itself.
pub open spec fn block_start(bytes: Seq<u8>, at: int, text: Seq<char>) -> Option<int> {
    let end = visible_end(bytes, 0, line_start(bytes, at));
    let start = line_start(bytes, end);
    if only_breaks(text) && at < bytes.len() && (bytes[at] == 124 || bytes[at] == 62) {
        Some(at)
    } else {
        indicator_from(bytes, start, start, end)
    }
}

fn header_mark(b: u8) -> (r: bool)
    ensures
        r == is_header_mark(b),
{
    b == 43 || b == 45 || (48 <= b && b <= 57)
}

fn indicator_at(bytes: &[u8], i: usize, start: usize, end: usize) -> (r: bool)
    requires
        start <= i < end <= bytes@.len(),
    ensures
        r == is_indicator(bytes@, i as int, start as int, end as int),
{
    if !(bytes[i] == 124 || bytes[i] == 62) || !(i == start || blank_byte(bytes[i - 1])) {
        return false;
    }
    let mut marks: usize = i + 1;
    while marks < end && header_mark(bytes[marks])
        invariant
            i < marks <= end <= bytes@.len(),
            marks_end(bytes@, i + 1, end as int) == marks_end(bytes@, marks as int, end as int),
        decreases end - marks,
    {
        marks += 1;
    }
    let mut rest: usize = marks;
    while rest < end && blank_byte(bytes[rest])
        invariant
            marks <= rest <= end <= bytes@.len(),
            blanks_end(bytes@, marks as int, end as int) == blanks_end(
                bytes@,
                rest as int,
                end as int,
            ),
        decreases end - rest,
    {
        rest += 1;
    }
    rest >= end || (marks < rest && bytes[rest] == 35)
}

fn holds_only_breaks(text: &str) -> (r: bool)
    ensures
        r == only_breaks(text@),
{
    let chars: Vec<char> = chars_of(text);
    let mut i: usize = 0;
    while i < chars.len()
        invariant
            i <= chars@.len(),
            chars@ == text@,
            forall|k: int| 0 <= k < i ==> #[trigger] chars@[k] == '\n',
        decreases chars@.len() - i,
    {
        if chars[i] != '\n' {
            return false;
        }
        i += 1;
    }
    true
}

fn find_block_start(bytes: &[u8], at: usize, text: &str) -> (r: Option<usize>)
    requires
        at <= bytes@.len(),
    ensures
        match r {
            Some(i) => block_start(bytes@, at as int, text@) == Some(i as int) && i <= at,
            None => block_start(bytes@, at as int, text@) is None,
        },
{
    if holds_only_breaks(text) && at < bytes.len() && (bytes[at] == 124 || bytes[at] == 62) {
        return Some(at);
    }
    let line: usize = find_line_start(bytes, at);
    let end: usize = find_visible_end(bytes, 0, line);
    let start: usize = find_line_start(bytes, end);
    let mut i: usize = start;
    while i < end
        invariant
            start <= i <= end <= line <= at <= bytes@.len(),
            end == visible_end(bytes@, 0, line_start(bytes@, at as int)),
            start == line_start(bytes@, end as int),
            !(only_breaks(text@) && at < bytes@.len() && (bytes@[at as int] == 124
                || bytes@[at as int] == 62)),
            indicator_from(bytes@, start as int, start as int, end as int) == indicator_from(
                bytes@,
                i as int,
                start as int,
                end as int,
            ),
        decreases end - i,
    {
        if indicator_at(bytes, i, start, end) {
            return Some(i);
        }
        i += 1;
    }
    None
}

// ---------------------------------------------------------------------------
// Scalars that are left out
// ---------------------------------------------------------------------------

/// Behind the byte before `k` that is no space or tab.
pub open spec fn before_blanks(bytes: Seq<u8>, k: int) -> int
    decreases k,
{
    if k <= 0 {
        0
    } else if is_blank_byte(bytes[k - 1]) {
        before_blanks(bytes, k - 1)
    } else {
        k
    }
}

/// Where a scalar that is left out would be written: behind the dash of its item,
/// or the colon behind its key.
pub open spec fn left_out_at(bytes: Seq<u8>, at: int, context: SpanContext) -> Option<int> {
    let k = before_blanks(bytes, at);
    if is_seq_item(context) {
        if k > 0 && bytes[k - 1] == 45 {
            Some(k)
        } else {
            None
        }
    } else if at < bytes.len() && bytes[at] == 58 {
        Some(at + 1)
    } else {
        None
    }
}

fn find_left_out(bytes: &[u8], at: usize, context: SpanContext) -> (r: Option<usize>)
    requires
        at <= bytes@.len(),
    ensures
        match r {
            Some(k) => left_out_at(bytes@, at as int, context) == Some(k as int) && k
                <= bytes@.len(),
            None => left_out_at(bytes@, at as int, context) is None,
        },
{
    match context {
        SpanContext::BlockSeqItem | SpanContext::FlowSeqItem => {
            let mut k: usize = at;
            while k > 0 && blank_byte(bytes[k - 1])
                invariant
                    k <= at <= bytes@.len(),
                    before_blanks(bytes@, at as int) == before_blanks(bytes@, k as int),
                decreases k,
            {
                k -= 1;
            }
            if k > 0 && bytes[k - 1] == 45 {
                Some(k)
            } else {
                None
            }
        },
        _ => if at < bytes.len() && bytes[at] == 58 {
            Some(at + 1)
        } else {
            None
        },
    }
}

// ---------------------------------------------------------------------------
// All of them
// ---------------------------------------------------------------------------

/// From where to where a scalar is written that the parser places from `start` to
/// `end`: a block scalar from its indicator to its last visible character, a
/// quoted one up to its closing quote, and one that is left out nowhere, but at a
/// place of its own. None where that cannot be told.
pub open spec fn written_range(
    bytes: Seq<u8>,
    start: int,
    end: int,
    text: Seq<char>,
    block: bool,
    context: SpanContext,
) -> Option<(int, int)> {
    if !(0 <= start <= end <= bytes.len()) {
        None
    } else if block {
        match block_start(bytes, start, text) {
            Some(i) => Some((i, visible_end(bytes, i, end))),
            None => None,
        }
    } else if start < end && (bytes[start] == 34 || bytes[start] == 39) {
        Some((start, closing_quote(bytes, bytes[start], start + 1, end)))
    } else if text.len() == 0 {
        None
    } else if text == "~"@ && !(start < end && bytes[start] == 126) {
        if start == end {
            match left_out_at(bytes, start, context) {
                Some(k) => Some((k, k)),
                None => None,
            }
        } else {
            None
        }
    } else {
        Some((start, end))
    }
}

/// Finds from where to where a scalar is written.
pub fn find_written_range(
    bytes: &[u8],
    start: usize,
    end: usize,
    text: &str,
    block: bool,
    context: SpanContext,
) -> (r: Option<(usize, usize)>)
    ensures
        match r {
            Some((a, b)) => written_range(
                bytes@,
                start as int,
                end as int,
                text@,
                block,
                context,
            ) == Some((a as int, b as int)),
            None => written_range(bytes@, start as int, end as int, text@, block, context) is None,
        },
{
    if !(start <= end && end <= bytes.len()) {
        return None;
    }
    if block {
        return match find_block_start(bytes, start, text) {
            Some(i) => Some((i, find_visible_end(bytes, i, end))),
            None => None,
        };
    }
    if start < end && (bytes[start] == 34 || bytes[start] == 39) {
        return Some((start, find_closing_quote(bytes, bytes[start], start + 1, end)));
    }
    let chars: Vec<char> = chars_of(text);
    proof {
        reveal_strlit("~");
        assert(text@.len() == 1 && text@[0] == '~' ==> text@ =~= "~"@);
    }
    if chars.len() == 0 {
        return None;
    }
    if chars.len() == 1 && chars[0] == '~' && !(start < end && bytes[start] == 126) {
        if start == end {
            match find_left_out(bytes, start, context) {
                Some(k) => Some((k, k)),
                None => None,
            }
        } else {
            None
        }
    } else {
        Some((start, end))
    }
}

proof fn lemma_visible_end(bytes: Seq<u8>, from: int, k: int)
    requires
        0 <= from <= k,
    ensures
        from <= visible_end(bytes, from, k) <= k,
    decreases k,
{
    if k > from {
        lemma_visible_end(bytes, from, k - 1);
    }
}

proof fn lemma_indicator(bytes: Seq<u8>, i: int, start: int, end: int)
    requires
        i <= end,
    ensures
        indicator_from(bytes, i, start, end) matches Some(k) ==> i <= k < end,
    decreases end - i,
{
    if i < end {
        lemma_indicator(bytes, i + 1, start, end);
    }
}

proof fn lemma_line_start_before(bytes: Seq<u8>, k: int)
    requires
        0 <= k,
    ensures
        0 <= line_start(bytes, k) <= k,
    decreases k,
{
    if k > 0 {
        lemma_line_start_before(bytes, k - 1);
    }
}

proof fn lemma_before_blanks(bytes: Seq<u8>, k: int)
    requires
        0 <= k,
    ensures
        0 <= before_blanks(bytes, k) <= k,
    decreases k,
{
    if k > 0 {
        lemma_before_blanks(bytes, k - 1);
    }
}

/// A scalar is written within the source.
pub proof fn law_written_within(
    bytes: Seq<u8>,
    start: int,
    end: int,
    text: Seq<char>,
    block: bool,
    context: SpanContext,
)
    ensures
        written_range(bytes, start, end, text, block, context) matches Some((a, b)) ==> 0 <= a <= b
            <= bytes.len(),
{
    if 0 <= start <= end <= bytes.len() {
        lemma_line_start_before(bytes, start);
        lemma_visible_end(bytes, 0, line_start(bytes, start));
        let stop = visible_end(bytes, 0, line_start(bytes, start));
        lemma_line_start_before(bytes, stop);
        lemma_indicator(bytes, line_start(bytes, stop), line_start(bytes, stop), stop);
        if let Some(i) = block_start(bytes, start, text) {
            lemma_visible_end(bytes, i, end);
        }
        if start < end {
            lemma_closing_quote(bytes, bytes[start], start + 1, end);
        }
        lemma_before_blanks(bytes, start);
    }
}

/// Behind the bracket that closes a flow collection which starts at `from`; the
/// parser places the end of the collection behind what follows in its line.
pub open spec fn bracket_end(bytes: Seq<u8>, from: int, at: int, end: int) -> int {
    if from < at < bytes.len() && (bytes[at] == 125 || bytes[at] == 93) {
        at + 1
    } else {
        end
    }
}

/// Finds the end of a collection.
pub fn find_bracket_end(bytes: &[u8], from: usize, at: usize, end: usize) -> (r: usize)
    ensures
        r == bracket_end(bytes@, from as int, at as int, end as int),
{
    if from < at && at < bytes.len() && (bytes[at] == 125 || bytes[at] == 93) {
        at + 1
    } else {
        end
    }
}

} // verus!
