//! Where JSON scalars stand in their source.

use crate::error::Fault;
use crate::numbers::decimal;
use crate::parsers::json_scan::{
    bool_end, byte_digits_end, exponent_end, fraction_end, holds_blank, item_scanned, key_scanned,
    member_scanned, null_end, number_end, skipped, string_end, string_rest, value_scanned,
};
use crate::parsers::json_values::json_string_text;
use crate::parsers::source_lines::{indent_at, path_text};
use crate::pointer::escaped;
use crate::spans::{SpanContext, ValueSpan};
use crate::value::lookup;
use vstd::prelude::*;

verus! {

/// Whether a byte is white space.
pub open spec fn is_json_blank(b: u8) -> bool {
    b == 32 || b == 9 || b == 10 || b == 13
}

/// White space is passed over, and nothing else.
pub proof fn law_white_space_is_passed_over(bytes: Seq<u8>, pos: int)
    requires
        0 <= pos <= bytes.len(),
    ensures
        skipped(bytes, pos) matches Ok(p) ==> {
            &&& pos <= p <= bytes.len()
            &&& forall|i: int| pos <= i < p ==> is_json_blank(#[trigger] bytes[i])
            &&& p < bytes.len() ==> !is_json_blank(bytes[p])
            &&& p + 1 < bytes.len() && bytes[p] == 47 ==> bytes[p + 1] != 47 && bytes[p + 1] != 42
        },
        skipped(bytes, pos) matches Err(f) ==> (f matches Fault::Parse { start, .. } && pos
            <= start && start + 1 < bytes.len() && bytes[start] == 47 && (bytes[start + 1] == 47
            || bytes[start + 1] == 42)),
    decreases bytes.len() - pos,
{
    if holds_blank(bytes, pos) {
        law_white_space_is_passed_over(bytes, pos + 1);
    }
}

/// Whether a byte is a hexadecimal digit.
pub open spec fn is_hex_byte(b: u8) -> bool {
    48 <= b <= 57 || 65 <= b <= 70 || 97 <= b <= 102
}

/// Whether bytes can stand between the quotes of a string: every quote and every
/// backslash is escaped, and a number of a character has four digits.
pub open spec fn is_string_inner(inner: Seq<u8>) -> bool
    decreases inner.len(),
{
    if inner.len() == 0 {
        true
    } else if inner[0] == 34 {
        false
    } else if inner[0] != 92 {
        is_string_inner(inner.subrange(1, inner.len() as int))
    } else if inner.len() > 1 && inner[1] == 117 {
        &&& inner.len() >= 6
        &&& is_hex_byte(inner[2]) && is_hex_byte(inner[3]) && is_hex_byte(inner[4]) && is_hex_byte(
            inner[5],
        )
        &&& is_string_inner(inner.subrange(6, inner.len() as int))
    } else {
        inner.len() > 1 && is_string_inner(inner.subrange(2, inner.len() as int))
    }
}

proof fn lemma_string_closed(bytes: Seq<u8>, k: int, close: int)
    requires
        0 <= k <= close < bytes.len(),
        is_string_inner(bytes.subrange(k, close)),
        bytes[close] == 34,
    ensures
        string_rest(bytes, k) == Ok::<int, Fault>(close + 1),
    decreases close - k,
{
    let inner = bytes.subrange(k, close);
    if k < close {
        assert(inner[0] == bytes[k]);
        if bytes[k] != 92 {
            assert(inner.subrange(1, inner.len() as int) =~= bytes.subrange(k + 1, close));
            lemma_string_closed(bytes, k + 1, close);
        } else {
            assert(inner.len() > 1);
            assert(inner[1] == bytes[k + 1]);
            if inner[1] == 117 {
                assert(inner.subrange(6, inner.len() as int) =~= bytes.subrange(k + 6, close));
                lemma_string_closed(bytes, k + 6, close);
            } else {
                assert(inner.subrange(2, inner.len() as int) =~= bytes.subrange(k + 2, close));
                lemma_string_closed(bytes, k + 2, close);
            }
        }
    }
}

/// A string ends behind the quote that closes it, and not at one that is escaped.
pub proof fn law_string_ends_at_its_quote(bytes: Seq<u8>, open: int, close: int)
    requires
        0 <= open < close < bytes.len(),
        bytes[open] == 34 && bytes[close] == 34,
        is_string_inner(bytes.subrange(open + 1, close)),
    ensures
        string_end(bytes, open) == Ok::<int, Fault>(close + 1),
{
    lemma_string_closed(bytes, open + 1, close);
}

/// Whether a byte can stand in a number.
pub open spec fn is_number_byte(b: u8) -> bool {
    48 <= b <= 57 || b == 43 || b == 45 || b == 46 || b == 69 || b == 101
}

proof fn lemma_digits_on(bytes: Seq<u8>, k: int)
    requires
        0 <= k,
    ensures
        k <= byte_digits_end(bytes, k),
        k <= bytes.len() ==> byte_digits_end(bytes, k) <= bytes.len(),
        forall|i: int| k <= i < byte_digits_end(bytes, k) ==> is_number_byte(#[trigger] bytes[i]),
        byte_digits_end(bytes, k) < bytes.len() ==> !(48 <= bytes[byte_digits_end(bytes, k)] <= 57),
    decreases bytes.len() - k,
{
    if 0 <= k < bytes.len() && 48u8 <= bytes[k] <= 57u8 {
        lemma_digits_on(bytes, k + 1);
    }
}

/// Whether bytes are the text of a scalar: a string in its quotes, a word, or the
/// characters of a number.
pub open spec fn is_scalar_text(text: Seq<u8>) -> bool {
    &&& text.len() > 0
    &&& {
        ||| text.len() > 1 && text[0] == 34 && text.last() == 34
        ||| text == seq![116u8, 114u8, 117u8, 101u8]
        ||| text == seq![102u8, 97u8, 108u8, 115u8, 101u8]
        ||| text == seq![110u8, 117u8, 108u8, 108u8]
        ||| forall|i: int| 0 <= i < text.len() ==> is_number_byte(#[trigger] text[i])
    }
}

proof fn lemma_string_end(bytes: Seq<u8>, k: int)
    requires
        0 <= k,
    ensures
        string_rest(bytes, k) matches Ok(e) ==> k < e <= bytes.len() && bytes[e - 1] == 34,
    decreases bytes.len() - k,
{
    if k < bytes.len() && bytes[k] != 34 {
        if bytes[k] != 92 {
            lemma_string_end(bytes, k + 1);
        } else if k + 1 < bytes.len() && bytes[k + 1] == 117 {
            if k + 6 <= bytes.len() {
                lemma_string_end(bytes, k + 6);
            }
        } else if k + 1 < bytes.len() {
            lemma_string_end(bytes, k + 2);
        }
    }
}

proof fn lemma_number_text(bytes: Seq<u8>, p: int)
    requires
        0 <= p < bytes.len(),
        number_end(bytes, p) is Ok,
    ensures
        ({
            let e = number_end(bytes, p)->Ok_0;
            &&& p < e <= bytes.len()
            &&& forall|i: int| p <= i < e ==> is_number_byte(#[trigger] bytes[i])
        }),
{
    let first = if bytes[p] == 45 {
        p + 1
    } else {
        p
    };
    let whole = if bytes[first] == 48 {
        first + 1
    } else {
        byte_digits_end(bytes, first)
    };
    lemma_digits_on(bytes, first);
    lemma_digits_on(bytes, first + 1);
    lemma_digits_on(bytes, whole + 1);
    let fraction = fraction_end(bytes, whole);
    lemma_digits_on(bytes, fraction + 1);
    lemma_digits_on(bytes, fraction + 2);
    assert(number_end(bytes, p)->Ok_0 == exponent_end(bytes, fraction));
}

/// Whether a span is the place of a scalar between two positions.
pub open spec fn is_place(
    span: ValueSpan,
    bytes: Seq<u8>,
    start: int,
    end: int,
    context: SpanContext,
) -> bool {
    &&& span.value_range.start == start && span.value_range.end == end
    &&& span.context == context
    &&& span.indent == indent_at(bytes, start)
    &&& is_scalar_text(bytes.subrange(start, end))
}

/// A scalar is placed under its pointer where its text stands, in the context that
/// it was met in, and no other place changes.
pub proof fn law_json_scalar_is_placed(
    bytes: Seq<u8>,
    pos: int,
    path: Seq<Seq<char>>,
    spans: Seq<(Seq<char>, ValueSpan)>,
    context: SpanContext,
    other: Seq<char>,
)
    requires
        0 <= pos <= bytes.len() <= usize::MAX,
        skipped(bytes, pos) matches Ok(p) && p < bytes.len() && bytes[p] != 123 && bytes[p] != 91,
        value_scanned(bytes, pos, path, spans, context) is Ok,
    ensures
        ({
            let p = skipped(bytes, pos)->Ok_0;
            let (end, more) = value_scanned(bytes, pos, path, spans, context)->Ok_0;
            &&& lookup(more, path_text(path)) matches Some(span)
            &&& is_place(span, bytes, p, end, context)
            &&& other != path_text(path) ==> lookup(more, other) == lookup(spans, other)
        }),
{
    let p = skipped(bytes, pos)->Ok_0;
    law_white_space_is_passed_over(bytes, pos);
    let (end, more) = value_scanned(bytes, pos, path, spans, context)->Ok_0;
    let text = bytes.subrange(p, end);
    let span = crate::parsers::source_lines::span_of(
        bytes,
        p,
        end,
        indent_at(bytes, p),
        context,
    );
    assert(p < end <= bytes.len() && is_scalar_text(text)) by {
        if bytes[p] == 34 {
            lemma_string_end(bytes, p + 1);
            assert(string_end(bytes, p) == Ok::<int, Fault>(end));
        } else if bytes[p] == 116 || bytes[p] == 102 {
            assert(bool_end(bytes, p) == Ok::<int, Fault>(end));
        } else if bytes[p] == 110 {
            assert(null_end(bytes, p) == Ok::<int, Fault>(end));
        } else {
            assert(number_end(bytes, p) == Ok::<int, Fault>(end));
            lemma_number_text(bytes, p);
        }
    }
    assert(more == crate::value::inserted(spans, path_text(path), span));
    crate::value::law_insert_lookup(spans, path_text(path), span, other);
    assert(0 <= indent_at(bytes, p) <= u32::MAX);
}

/// A scalar item of an array is placed under its position, as an item.
pub proof fn law_json_item_is_placed(
    bytes: Seq<u8>,
    pos: int,
    path: Seq<Seq<char>>,
    spans: Seq<(Seq<char>, ValueSpan)>,
    index: nat,
)
    requires
        0 <= pos <= bytes.len() <= usize::MAX,
        skipped(bytes, pos) matches Ok(p) && p < bytes.len() && bytes[p] != 123 && bytes[p] != 91,
        item_scanned(bytes, pos, path, spans, index) is Ok,
    ensures
        ({
            let p = skipped(bytes, pos)->Ok_0;
            let (next, more, again) = item_scanned(bytes, pos, path, spans, index)->Ok_0;
            &&& lookup(more, path_text(path) + seq!['/'] + decimal(index)) matches Some(span)
            &&& span.value_range.start == p
            &&& is_place(
                span,
                bytes,
                p,
                span.value_range.end as int,
                SpanContext::BlockSeqItem,
            )
            &&& 0 < next <= bytes.len() && bytes[next - 1] == (if again {
                44u8
            } else {
                93u8
            })
        }),
{
    let below = path.push(decimal(index));
    assert(below.drop_last() =~= path);
    reveal_strlit("/");
    assert("/"@ =~= seq!['/']);
    law_json_scalar_is_placed(
        bytes,
        pos,
        below,
        spans,
        SpanContext::BlockSeqItem,
        Seq::empty(),
    );
}

/// A scalar member of an object is placed under its key, as a value.
pub proof fn law_json_member_is_placed(
    bytes: Seq<u8>,
    pos: int,
    path: Seq<Seq<char>>,
    spans: Seq<(Seq<char>, ValueSpan)>,
    key: Seq<char>,
    at: int,
)
    requires
        0 <= pos < at <= bytes.len() <= usize::MAX,
        key_scanned(bytes, pos) == Ok::<(Seq<char>, int), Fault>((key, at)),
        skipped(bytes, at) matches Ok(p) && p < bytes.len() && bytes[p] != 123 && bytes[p] != 91,
        member_scanned(bytes, pos, path, spans) is Ok,
    ensures
        ({
            let p = skipped(bytes, at)->Ok_0;
            let (next, more, again) = member_scanned(bytes, pos, path, spans)->Ok_0;
            &&& lookup(more, path_text(path) + seq!['/'] + escaped(key)) matches Some(span)
            &&& span.value_range.start == p
            &&& is_place(
                span,
                bytes,
                p,
                span.value_range.end as int,
                SpanContext::BlockMapValue,
            )
            &&& 0 < next <= bytes.len() && bytes[next - 1] == (if again {
                44u8
            } else {
                125u8
            })
        }),
{
    let below = path.push(escaped(key));
    assert(below.drop_last() =~= path);
    reveal_strlit("/");
    assert("/"@ =~= seq!['/']);
    law_json_scalar_is_placed(
        bytes,
        at,
        below,
        spans,
        SpanContext::BlockMapValue,
        Seq::empty(),
    );
}

/// The key of a member is the text of the string before its colon.
pub proof fn law_json_key_is_its_string(bytes: Seq<u8>, pos: int, key: Seq<char>, at: int)
    requires
        0 <= pos <= bytes.len(),
        key_scanned(bytes, pos) == Ok::<(Seq<char>, int), Fault>((key, at)),
    ensures
        ({
            let p = skipped(bytes, pos)->Ok_0;
            &&& skipped(bytes, pos) is Ok && p < bytes.len() && bytes[p] == 34
            &&& string_end(bytes, p) matches Ok(e)
            &&& json_string_text(bytes.subrange(p, e)) == Some(key)
            &&& e < at <= bytes.len() && bytes[at - 1] == 58
            &&& forall|i: int| e <= i < at - 1 ==> is_json_blank(#[trigger] bytes[i])
        }),
{
    let p = skipped(bytes, pos)->Ok_0;
    law_white_space_is_passed_over(bytes, pos);
    lemma_string_end(bytes, p + 1);
    let e = string_end(bytes, p)->Ok_0;
    law_white_space_is_passed_over(bytes, e);
}

} // verus!
