//! The texts that spell values in JSON, and how they scan.

use crate::numbers::{all_digits, decimal, is_digit, lemma_decimal_value, parsed_int, signed_decimal};
use crate::parsers::json_scan::{
    array_scanned, byte_digits_end, holds, holds_blank, holds_digit, item_scanned, items_scanned,
    json_spans, key_scanned, member_scanned, members_scanned, number_end, object_scanned, skipped,
    stands_at, string_end, string_rest, value_scanned, SpanSeq,
};
use crate::parsers::json_values::{is_written_string, json_string_text, written_text};
use crate::parsers::json_write::{
    colon, hex_digit, json_emitted, json_escaped, json_escaped_char, json_items, json_members,
    json_string, line_break, separator, spaces,
};
use crate::pointer::escaped;
use crate::spans::SpanContext;
use crate::value::{unique_keys, Tree};
use vstd::prelude::*;
use vstd::utf8::{
    encode_scalar, encode_utf8, encode_utf8_decode_utf8, encode_utf8_valid_utf8, is_ascii_chars,
    is_ascii_chars_encode_utf8,
};

verus! {

/// Whether a text is the literal of an integer that no 64-bit integer holds:
/// an optional minus and digits, the first of which is not zero.
pub open spec fn is_big_literal(s: Seq<char>) -> bool {
    let body = if s.len() > 0 && s[0] == '-' {
        s.subrange(1, s.len() as int)
    } else {
        s
    };
    body.len() > 0 && all_digits(body) && body[0] != '0' && parsed_int(s) is None
}

/// Whether a key means something of its own to the reader.
pub open spec fn is_reserved_key(key: Seq<char>) -> bool {
    key == "$serde_json::private::Number"@ || key == "$serde_json::private::RawValue"@
}

/// Whether a value is spelled by JSON text: it holds no floats, its objects
/// have distinct keys that mean nothing of their own to the reader, and it is
/// nested at most `depth` deep.
pub open spec fn is_spelled(t: Tree, depth: nat) -> bool
    decreases t,
{
    match t {
        Tree::Null | Tree::Bool(_) | Tree::String(_) => true,
        Tree::Int(n) => i64::MIN <= n <= i64::MAX,
        Tree::BigInt(s) => is_big_literal(s),
        Tree::Float(_) | Tree::BigFloat(_) => false,
        Tree::Array(items) => depth > 0 && forall|i: int|
            0 <= i < items.len() ==> is_spelled(#[trigger] items[i], (depth - 1) as nat),
        Tree::Object(entries) => depth > 0 && unique_keys(entries) && forall|i: int|
            0 <= i < entries.len() ==> !is_reserved_key((#[trigger] entries[i]).0) && is_spelled(
                entries[i].1,
                (depth - 1) as nat,
            ),
    }
}

/// The text of a value in one of the layouts of the JSON writer.
pub open spec fn spelling(t: Tree, pretty: bool, step: nat) -> Seq<char> {
    json_emitted(t, Seq::empty(), pretty, step).0
}

/// How deep the reader goes.
pub open spec fn readable_depth() -> nat {
    127
}

/// Whether bytes spell a value that the reader goes to the bottom of, in one of
/// the layouts of the JSON writer.
pub open spec fn spells(bytes: Seq<u8>, t: Tree) -> bool {
    is_spelled(t, readable_depth()) && exists|pretty: bool, step: nat|
        bytes == encode_utf8(#[trigger] spelling(t, pretty, step))
}

// ---------------------------------------------------------------------------
// Text that stands at a position
// ---------------------------------------------------------------------------

/// Whether a text stands in the bytes at a position.
pub open spec fn stands(bytes: Seq<u8>, pos: int, w: Seq<char>) -> bool {
    &&& 0 <= pos
    &&& pos + encode_utf8(w).len() <= bytes.len()
    &&& bytes.subrange(pos, pos + encode_utf8(w).len()) == encode_utf8(w)
}

/// The position behind a text.
pub open spec fn behind(pos: int, w: Seq<char>) -> int {
    pos + encode_utf8(w).len()
}

/// The bytes of two texts are those of the one and those of the other.
pub proof fn lemma_encode_two(a: Seq<char>, b: Seq<char>)
    ensures
        encode_utf8(a + b) == encode_utf8(a) + encode_utf8(b),
    decreases a.len(),
{
    if a.len() == 0 {
        assert(a + b =~= b);
        assert(encode_utf8(a) + encode_utf8(b) =~= encode_utf8(b));
    } else {
        assert((a + b).drop_first() =~= a.drop_first() + b);
        lemma_encode_two(a.drop_first(), b);
        assert(encode_utf8(a + b) =~= encode_utf8(a) + encode_utf8(b));
    }
}

/// Two texts that stand one behind the other stand each by itself.
pub proof fn lemma_stands_two(bytes: Seq<u8>, pos: int, a: Seq<char>, b: Seq<char>)
    requires
        stands(bytes, pos, a + b),
    ensures
        stands(bytes, pos, a),
        stands(bytes, behind(pos, a), b),
        behind(pos, a + b) == behind(behind(pos, a), b),
{
    lemma_encode_two(a, b);
    let whole = bytes.subrange(pos, behind(pos, a + b));
    let n = encode_utf8(a).len() as int;
    assert(whole.subrange(0, n) =~= encode_utf8(a));
    assert(whole.subrange(n, whole.len() as int) =~= encode_utf8(b));
    assert(bytes.subrange(pos, pos + n) =~= whole.subrange(0, n));
    assert(bytes.subrange(pos + n, behind(pos, a + b)) =~= whole.subrange(n, whole.len() as int));
}

/// An ASCII text stands character by character.
pub proof fn lemma_stands_word(bytes: Seq<u8>, pos: int, w: Seq<char>)
    requires
        stands(bytes, pos, w),
        is_ascii_chars(w),
    ensures
        behind(pos, w) == pos + w.len(),
        pos + w.len() <= bytes.len(),
        forall|i: int| 0 <= i < w.len() ==> bytes[pos + i] == #[trigger] w[i] as u8,
{
    is_ascii_chars_encode_utf8(w);
    let found = bytes.subrange(pos, pos + encode_utf8(w).len());
    assert forall|i: int| 0 <= i < w.len() implies bytes[pos + i] == #[trigger] w[i] as u8 by {
        assert(found[i] == encode_utf8(w)[i]);
        assert(found[i] == bytes[pos + i]);
    }
}

/// Whether a text is blanks alone.
pub open spec fn all_blank(w: Seq<char>) -> bool {
    forall|i: int| 0 <= i < w.len() ==> (#[trigger] w[i]) == ' ' || w[i] == '\n'
}

/// A new line is blank.
pub proof fn lemma_blank_break(pad: Seq<char>, pretty: bool)
    requires
        all_blank(pad),
    ensures
        all_blank(line_break(pad, pretty)),
{
}

/// Blanks are skipped.
pub proof fn lemma_skips(bytes: Seq<u8>, pos: int, w: Seq<char>)
    requires
        stands(bytes, pos, w),
        all_blank(w),
        !holds_blank(bytes, behind(pos, w)),
        !holds(bytes, behind(pos, w), 47),
    ensures
        skipped(bytes, pos) == Ok::<int, crate::error::Fault>(behind(pos, w)),
        behind(pos, w) == pos + w.len(),
    decreases w.len(),
{
    assert(is_ascii_chars(w)) by {
        assert forall|i: int| 0 <= i < w.len() implies '\0' <= #[trigger] w[i] <= '\u{7f}' by {
            assert(w[i] == ' ' || w[i] == '\n');
        }
    }
    lemma_stands_word(bytes, pos, w);
    if w.len() > 0 {
        let rest = w.drop_first();
        assert(w =~= seq![w[0]] + rest);
        lemma_stands_two(bytes, pos, seq![w[0]], rest);
        assert(is_ascii_chars(seq![w[0]]));
        lemma_stands_word(bytes, pos, seq![w[0]]);
        assert(bytes[pos + 0] == w[0] as u8);
        lemma_skips(bytes, pos + 1, rest);
    }
}

// ---------------------------------------------------------------------------
// Strings
// ---------------------------------------------------------------------------

proof fn lemma_escaped_front(s: Seq<char>)
    requires
        s.len() > 0,
    ensures
        json_escaped(s) == json_escaped_char(s[0]) + json_escaped(s.drop_first()),
    decreases s.len(),
{
    let rest = s.drop_first();
    if s.len() == 1 {
        assert(s.drop_last() =~= Seq::<char>::empty());
        assert(rest =~= Seq::<char>::empty());
        assert(json_escaped(s) =~= json_escaped_char(s[0]) + json_escaped(rest));
    } else {
        lemma_escaped_front(s.drop_last());
        assert(s.drop_last().drop_first() =~= rest.drop_last());
        assert(json_escaped(s) =~= json_escaped_char(s[0]) + json_escaped(rest));
    }
}

/// The bytes of a character beyond ASCII are beyond ASCII.
pub proof fn lemma_wide_char(c: char)
    requires
        c as u32 >= 0x80,
    ensures
        forall|i: int|
            0 <= i < encode_utf8(seq![c]).len() ==> (#[trigger] encode_utf8(seq![c])[i]) >= 0x80,
{
    let w = seq![c];
    let b = encode_utf8(w);
    vstd::utf8::encode_utf8_first_scalar(w);
    assert(w.drop_first() =~= Seq::<char>::empty());
    assert(encode_utf8(w.drop_first()) =~= Seq::<u8>::empty());
    assert(b =~= encode_scalar(c as u32));
    let first = b[0];
    assert((first & 0x7f) <= 0x7f) by (bit_vector);
}

/// Scanning steps over bytes that neither end nor escape.
proof fn lemma_rest_steps(bytes: Seq<u8>, k: int, n: int)
    requires
        0 <= k <= k + n <= bytes.len(),
        forall|i: int| k <= i < k + n ==> (#[trigger] bytes[i]) != 34 && bytes[i] != 92,
        k + n < bytes.len(),
    ensures
        string_rest(bytes, k) == string_rest(bytes, k + n),
    decreases n,
{
    if n > 0 {
        assert(bytes[k] != 34 && bytes[k] != 92);
        lemma_rest_steps(bytes, k + 1, n - 1);
    }
}

proof fn lemma_char_scans(bytes: Seq<u8>, k: int, c: char)
    requires
        stands(bytes, k, json_escaped_char(c)),
        behind(k, json_escaped_char(c)) < bytes.len(),
    ensures
        string_rest(bytes, k) == string_rest(bytes, behind(k, json_escaped_char(c))),
{
    let w = json_escaped_char(c);
    if (c as u32) < 0x80 {
        assert(is_ascii_chars(w));
        lemma_stands_word(bytes, k, w);
        assert(bytes[k + 0] == w[0] as u8);
        if w.len() > 1 {
            assert(bytes[k + 1] == w[1] as u8);
        } else {
            assert(c as u8 != 34 && c as u8 != 92);
        }
    } else {
        assert(w == seq![c]);
        lemma_wide_char(c);
        let b = encode_utf8(w);
        assert forall|i: int| k <= i < k + b.len() implies (#[trigger] bytes[i]) != 34 && bytes[i]
            != 92 by {
            assert(bytes.subrange(k, k + b.len())[i - k] == b[i - k]);
        }
        lemma_rest_steps(bytes, k, b.len() as int);
    }
}

proof fn lemma_string_scans(bytes: Seq<u8>, k: int, s: Seq<char>)
    requires
        stands(bytes, k, json_escaped(s) + seq!['"']),
    ensures
        string_rest(bytes, k) == Ok::<int, crate::error::Fault>(
            behind(k, json_escaped(s) + seq!['"']),
        ),
    decreases s.len(),
{
    let end = seq!['"'];
    if s.len() == 0 {
        assert(json_escaped(s) + end =~= end);
        assert(is_ascii_chars(end));
        lemma_stands_word(bytes, k, end);
        assert(bytes[k + 0] == end[0] as u8);
    } else {
        lemma_escaped_front(s);
        let first = json_escaped_char(s[0]);
        let rest = json_escaped(s.drop_first()) + end;
        assert(json_escaped(s) + end =~= first + rest);
        lemma_stands_two(bytes, k, first, rest);
        lemma_stands_two(bytes, behind(k, first), json_escaped(s.drop_first()), end);
        assert(is_ascii_chars(end));
        lemma_stands_word(
            bytes,
            behind(behind(k, first), json_escaped(s.drop_first())),
            end,
        );
        lemma_char_scans(bytes, k, s[0]);
        lemma_string_scans(bytes, behind(k, first), s.drop_first());
    }
}

/// A string scans to its end.
proof fn lemma_quoted_scans(bytes: Seq<u8>, pos: int, s: Seq<char>)
    requires
        stands(bytes, pos, json_string(s)),
    ensures
        holds(bytes, pos, 34),
        string_end(bytes, pos) == Ok::<int, crate::error::Fault>(behind(pos, json_string(s))),
        behind(pos, json_string(s)) > pos,
{
    let quote = seq!['"'];
    let rest = json_escaped(s) + quote;
    assert(json_string(s) =~= quote + rest);
    lemma_stands_two(bytes, pos, quote, rest);
    assert(is_ascii_chars(quote));
    lemma_stands_word(bytes, pos, quote);
    assert(bytes[pos + 0] == quote[0] as u8);
    lemma_string_scans(bytes, pos + 1, s);
}

// ---------------------------------------------------------------------------
// Numbers
// ---------------------------------------------------------------------------

/// Whether a text is the literal of an integer.
spec fn is_int_literal(s: Seq<char>) -> bool {
    let body = if s.len() > 0 && s[0] == '-' {
        s.subrange(1, s.len() as int)
    } else {
        s
    };
    body.len() > 0 && all_digits(body) && (body.len() > 1 ==> body[0] != '0')
}

proof fn lemma_decimal_front(n: nat)
    ensures
        decimal(n).len() > 1 ==> decimal(n)[0] != '0',
        n > 0 ==> decimal(n)[0] != '0',
    decreases n,
{
    if n >= 10 {
        lemma_decimal_front(n / 10);
        lemma_decimal_value(n / 10);
        assert(decimal(n)[0] == decimal(n / 10)[0]);
    } else {
        assert(decimal(n)[0] as nat == 48 + n);
    }
}

proof fn lemma_int_literal(n: int)
    ensures
        is_int_literal(signed_decimal(n)),
{
    let s = signed_decimal(n);
    if n < 0 {
        lemma_decimal_value((-n) as nat);
        lemma_decimal_front((-n) as nat);
        assert(s.subrange(1, s.len() as int) =~= decimal((-n) as nat));
    } else {
        lemma_decimal_value(n as nat);
        lemma_decimal_front(n as nat);
        assert(is_digit(s[0]));
    }
}

proof fn lemma_digits_run(bytes: Seq<u8>, k: int, m: int)
    requires
        0 <= k <= m <= bytes.len(),
        forall|i: int| k <= i < m ==> #[trigger] holds_digit(bytes, i),
        !holds_digit(bytes, m),
    ensures
        byte_digits_end(bytes, k) == m,
    decreases m - k,
{
    if k < m {
        assert(holds_digit(bytes, k));
        lemma_digits_run(bytes, k + 1, m);
    }
}

/// Whether a value may end at a position: at the end, or before what separates
/// or closes.
pub open spec fn ends_at(bytes: Seq<u8>, p: int) -> bool {
    p >= bytes.len() || bytes[p] == 44 || bytes[p] == 125 || bytes[p] == 93 || bytes[p] == 10
}

proof fn lemma_number_scans(bytes: Seq<u8>, pos: int, s: Seq<char>)
    requires
        stands(bytes, pos, s),
        is_int_literal(s),
        ends_at(bytes, behind(pos, s)),
    ensures
        number_end(bytes, pos) == Ok::<int, crate::error::Fault>(behind(pos, s)),
        behind(pos, s) > pos,
        holds(bytes, pos, 45) || holds_digit(bytes, pos),
{
    let negative = s[0] == '-';
    let body = if negative {
        s.subrange(1, s.len() as int)
    } else {
        s
    };
    let first = if negative {
        pos + 1
    } else {
        pos
    };
    assert forall|i: int| 0 <= i < s.len() implies '\0' <= #[trigger] s[i] <= '\u{7f}' by {
        if negative {
            if i > 0 {
                assert(is_digit(body[i - 1]));
            }
        } else {
            assert(is_digit(body[i]));
        }
    }
    assert(is_ascii_chars(s));
    lemma_stands_word(bytes, pos, s);
    let end = behind(pos, s);
    assert(end == first + body.len());
    assert(bytes[pos + 0] == s[0] as u8);
    assert(is_digit(body[0]));
    assert forall|i: int| first <= i < end implies #[trigger] holds_digit(bytes, i) by {
        assert(is_digit(body[i - first]));
        assert(bytes[pos + (i - pos)] == s[i - pos] as u8);
        assert(s[i - pos] == body[i - first]);
    }
    assert(holds_digit(bytes, first));
    assert(bytes[pos + (first - pos)] == s[first - pos] as u8);
    assert(s[first - pos] == body[0]);
    if body[0] == '0' {
        assert(body.len() == 1);
    } else {
        lemma_digits_run(bytes, first, end);
    }
}

// ---------------------------------------------------------------------------
// Strings read back
// ---------------------------------------------------------------------------

proof fn lemma_escaped_char_decides(c: char, x: Seq<char>, d: char, y: Seq<char>)
    requires
        json_escaped_char(c) + x == json_escaped_char(d) + y,
    ensures
        c == d,
        x == y,
{
    let (a, b) = (json_escaped_char(c), json_escaped_char(d));
    let whole = a + x;
    assert(whole[0] == a[0] && whole[0] == b[0]);
    if a.len() > 1 {
        assert(whole[1] == a[1]);
    }
    if b.len() > 1 {
        assert(whole[1] == b[1]);
    }
    if a.len() == 6 && b.len() == 6 {
        assert(whole[4] == a[4] && whole[4] == b[4]);
        assert(whole[5] == a[5] && whole[5] == b[5]);
        assert(hex_digit((c as u32 / 16) as nat) == hex_digit((d as u32 / 16) as nat));
        assert(hex_digit((c as u32 % 16) as nat) == hex_digit((d as u32 % 16) as nat));
        lemma_hex((c as u32 / 16) as nat, (d as u32 / 16) as nat);
        lemma_hex((c as u32 % 16) as nat, (d as u32 % 16) as nat);
    }
    assert(c == d);
    assert(x =~= whole.subrange(a.len() as int, whole.len() as int));
    assert(y =~= whole.subrange(b.len() as int, whole.len() as int));
}

proof fn lemma_hex(a: nat, b: nat)
    requires
        a < 16,
        b < 16,
        hex_digit(a) == hex_digit(b),
    ensures
        a == b,
{
    assert(hex_digit(a) as nat == if a < 10 {
        48 + a
    } else {
        87 + a
    });
    assert(hex_digit(b) as nat == if b < 10 {
        48 + b
    } else {
        87 + b
    });
}

proof fn lemma_escaped_decides(s: Seq<char>, u: Seq<char>)
    requires
        json_escaped(s) + seq!['"'] == json_escaped(u) + seq!['"'],
    ensures
        s == u,
    decreases s.len(),
{
    let end = seq!['"'];
    let whole = json_escaped(s) + end;
    if s.len() > 0 {
        lemma_escaped_front(s);
        assert(whole[0] == json_escaped_char(s[0])[0]);
    } else {
        assert(whole[0] == '"');
    }
    if u.len() > 0 {
        lemma_escaped_front(u);
        assert((json_escaped(u) + end)[0] == json_escaped_char(u[0])[0]);
    } else {
        assert((json_escaped(u) + end)[0] == '"');
    }
    if s.len() > 0 && u.len() > 0 {
        let x = json_escaped(s.drop_first()) + end;
        let y = json_escaped(u.drop_first()) + end;
        assert(whole =~= json_escaped_char(s[0]) + x);
        assert(json_escaped(u) + end =~= json_escaped_char(u[0]) + y);
        lemma_escaped_char_decides(s[0], x, u[0], y);
        lemma_escaped_decides(s.drop_first(), u.drop_first());
        assert(s =~= seq![s[0]] + s.drop_first());
        assert(u =~= seq![u[0]] + u.drop_first());
    } else {
        assert(s =~= u);
    }
}

/// A text that was written as a JSON string reads back as itself.
pub proof fn law_string_reads_back(s: Seq<char>)
    ensures
        json_string_text(encode_utf8(json_string(s))) == Some(s),
{
    let bytes = encode_utf8(json_string(s));
    assert(is_written_string(bytes));
    let u = written_text(bytes);
    assert(bytes == encode_utf8(json_string(u)));
    encode_utf8_decode_utf8(json_string(s));
    encode_utf8_decode_utf8(json_string(u));
    assert(json_string(s) == json_string(u));
    let x = json_escaped(s) + seq!['"'];
    let y = json_escaped(u) + seq!['"'];
    assert(json_string(s).subrange(1, json_string(s).len() as int) =~= x);
    assert(json_string(u).subrange(1, json_string(u).len() as int) =~= y);
    lemma_escaped_decides(s, u);
}

// ---------------------------------------------------------------------------
// Values
// ---------------------------------------------------------------------------

/// Whether a value may start with a character.
pub open spec fn starts_value(c: char) -> bool {
    c == '"' || c == '[' || c == '{' || c == 'n' || c == 't' || c == 'f' || c == '-' || is_digit(c)
}

/// A spelled value starts with a character that may start one.
pub proof fn lemma_first_char(t: Tree, depth: nat, pad: Seq<char>, pretty: bool, step: nat)
    requires
        is_spelled(t, depth),
    ensures
        json_emitted(t, pad, pretty, step).0.len() > 0,
        starts_value(json_emitted(t, pad, pretty, step).0[0]),
{
    reveal_strlit("null");
    reveal_strlit("true");
    reveal_strlit("false");
    reveal_strlit("[]");
    reveal_strlit("{}");
    match t {
        Tree::Int(n) => {
            lemma_int_literal(n);
            let s = signed_decimal(n);
            if s[0] != '-' {
                assert(is_digit(s[0]));
            }
        },
        Tree::BigInt(s) => {
            if s[0] != '-' {
                assert(is_digit(s[0]));
            }
        },
        Tree::Array(items) => {
            if items.len() > 0 {
                let body = json_items(items, items.len(), pad + spaces(step), pretty, step);
                assert((seq!['['] + body.0)[0] == '[');
                assert(json_emitted(t, pad, pretty, step).0[0] == '[');
            }
        },
        Tree::Object(entries) => {
            if entries.len() > 0 {
                let body = json_members(entries, entries.len(), pad + spaces(step), pretty, step);
                assert((seq!['{'] + body.0)[0] == '{');
                assert(json_emitted(t, pad, pretty, step).0[0] == '{');
            }
        },
        _ => {},
    }
}

/// The first byte of a text that starts with an ASCII character.
pub proof fn lemma_first_byte(bytes: Seq<u8>, pos: int, w: Seq<char>)
    requires
        stands(bytes, pos, w),
        w.len() > 0,
        '\0' <= w[0] <= '\u{7f}',
    ensures
        0 <= pos < bytes.len(),
        bytes[pos] == w[0] as u8,
        behind(pos, w) > pos,
{
    let first = seq![w[0]];
    let rest = w.drop_first();
    assert(w =~= first + rest);
    lemma_stands_two(bytes, pos, first, rest);
    assert(is_ascii_chars(first));
    lemma_stands_word(bytes, pos, first);
    assert(bytes[pos + 0] == first[0] as u8);
}

proof fn lemma_word_stands_at(bytes: Seq<u8>, pos: int, w: Seq<char>, word: Seq<u8>)
    requires
        stands(bytes, pos, w),
        is_ascii_chars(w),
        word.len() == w.len(),
        forall|i: int| 0 <= i < w.len() ==> word[i] == #[trigger] w[i] as u8,
    ensures
        stands_at(bytes, pos, word),
        behind(pos, w) == pos + w.len(),
{
    lemma_stands_word(bytes, pos, w);
    assert forall|i: int| 0 <= i < word.len() implies bytes.subrange(pos, pos + word.len())[i]
        == word[i] by {
        assert(bytes[pos + i] == w[i] as u8);
    }
    assert(bytes.subrange(pos, pos + word.len()) =~= word);
}

/// What is written of a spelled value is written to the end.
pub proof fn lemma_emits_whole(t: Tree, depth: nat, pad: Seq<char>, pretty: bool, step: nat)
    requires
        is_spelled(t, depth),
    ensures
        json_emitted(t, pad, pretty, step).1,
    decreases t, 0int,
{
    match t {
        Tree::Array(items) => {
            lemma_items_whole(items, items.len(), (depth - 1) as nat, pad + spaces(step), pretty, step);
        },
        Tree::Object(entries) => {
            lemma_members_whole(
                entries,
                entries.len(),
                (depth - 1) as nat,
                pad + spaces(step),
                pretty,
                step,
            );
        },
        _ => {},
    }
}

/// The items of an array of spelled values are written to the end.
pub proof fn lemma_items_whole(
    items: Seq<Tree>,
    k: nat,
    depth: nat,
    pad: Seq<char>,
    pretty: bool,
    step: nat,
)
    requires
        k <= items.len(),
        forall|i: int| 0 <= i < items.len() ==> is_spelled(#[trigger] items[i], depth),
    ensures
        json_items(items, k, pad, pretty, step).1,
    decreases items, k,
{
    if k > 0 {
        lemma_items_whole(items, (k - 1) as nat, depth, pad, pretty, step);
        assert(decreases_to!(items => items[k - 1]));
        lemma_emits_whole(items[k - 1], depth, pad, pretty, step);
    }
}

/// The members of an object of spelled values are written to the end.
pub proof fn lemma_members_whole(
    entries: Seq<(Seq<char>, Tree)>,
    k: nat,
    depth: nat,
    pad: Seq<char>,
    pretty: bool,
    step: nat,
)
    requires
        k <= entries.len(),
        forall|i: int| 0 <= i < entries.len() ==> is_spelled((#[trigger] entries[i]).1, depth),
    ensures
        json_members(entries, k, pad, pretty, step).1,
    decreases entries, k,
{
    if k > 0 {
        lemma_members_whole(entries, (k - 1) as nat, depth, pad, pretty, step);
        assert(decreases_to!(entries => entries[k - 1]));
        assert(decreases_to!(entries[k - 1] => entries[k - 1].1));
        lemma_emits_whole(entries[k - 1].1, depth, pad, pretty, step);
    }
}

/// What follows the first `i` texts of a container: the others, and what closes
/// it.
pub open spec fn rest(
    parts: Seq<Seq<char>>,
    i: nat,
    pad: Seq<char>,
    outer: Seq<char>,
    pretty: bool,
    close: char,
) -> Seq<char>
    decreases parts.len() - i,
{
    if i >= parts.len() {
        line_break(outer, pretty) + seq![close]
    } else {
        separator(i, pad, pretty) + (parts[i as int] + rest(
            parts,
            i + 1,
            pad,
            outer,
            pretty,
            close,
        ))
    }
}

/// The texts of the items of an array.
pub open spec fn item_parts(items: Seq<Tree>, pad: Seq<char>, pretty: bool, step: nat) -> Seq<Seq<char>> {
    Seq::new(items.len(), |i: int| json_emitted(items[i], pad, pretty, step).0)
}

/// The text of a member of an object.
pub open spec fn member_part(entry: (Seq<char>, Tree), pad: Seq<char>, pretty: bool, step: nat) -> Seq<
    char,
> {
    json_string(entry.0) + (colon(pretty) + json_emitted(entry.1, pad, pretty, step).0)
}

/// The texts of the members of an object.
pub open spec fn member_parts(
    entries: Seq<(Seq<char>, Tree)>,
    pad: Seq<char>,
    pretty: bool,
    step: nat,
) -> Seq<Seq<char>> {
    Seq::new(entries.len(), |i: int| member_part(entries[i], pad, pretty, step))
}

/// Three texts before a tail, taken together from the other end.
proof fn lemma_regrouped(a: Seq<char>, b: Seq<char>, c: Seq<char>, tail: Seq<char>)
    ensures
        (a + b + c) + tail == a + (b + (c + tail)),
{
    assert((a + b + c) + tail =~= a + (b + (c + tail)));
}

/// Five texts before a tail, taken together from the other end.
proof fn lemma_regrouped_five(
    a: Seq<char>,
    b: Seq<char>,
    c: Seq<char>,
    d: Seq<char>,
    e: Seq<char>,
    tail: Seq<char>,
)
    ensures
        (a + b + c + d + e) + tail == a + (b + ((c + (d + e)) + tail)),
{
    assert((a + b + c + d + e) + tail =~= a + (b + ((c + (d + e)) + tail)));
}

/// The text of an array, from the front.
pub proof fn lemma_items_rest(
    items: Seq<Tree>,
    k: nat,
    depth: nat,
    pad: Seq<char>,
    outer: Seq<char>,
    pretty: bool,
    step: nat,
)
    requires
        k <= items.len(),
        forall|i: int| 0 <= i < items.len() ==> is_spelled(#[trigger] items[i], depth),
    ensures
        json_items(items, k, pad, pretty, step).0 + rest(
            item_parts(items, pad, pretty, step),
            k,
            pad,
            outer,
            pretty,
            ']',
        ) == rest(item_parts(items, pad, pretty, step), 0, pad, outer, pretty, ']'),
    decreases k,
{
    let parts = item_parts(items, pad, pretty, step);
    if k == 0 {
        assert(Seq::<char>::empty() + rest(parts, 0, pad, outer, pretty, ']') =~= rest(
            parts,
            0,
            pad,
            outer,
            pretty,
            ']',
        ));
    } else {
        let j = (k - 1) as nat;
        lemma_items_rest(items, j, depth, pad, outer, pretty, step);
        lemma_items_whole(items, j, depth, pad, pretty, step);
        let before = json_items(items, j, pad, pretty, step).0;
        let item = json_emitted(items[k - 1], pad, pretty, step).0;
        let tail = rest(parts, k, pad, outer, pretty, ']');
        assert(parts[k - 1] == item);
        assert(rest(parts, j, pad, outer, pretty, ']') == separator(j, pad, pretty) + (item + tail));
        assert(json_items(items, k, pad, pretty, step).0 == before + separator(j, pad, pretty)
            + item);
        lemma_regrouped(before, separator(j, pad, pretty), item, tail);
    }
}

/// The text of an object, from the front.
pub proof fn lemma_members_rest(
    entries: Seq<(Seq<char>, Tree)>,
    k: nat,
    depth: nat,
    pad: Seq<char>,
    outer: Seq<char>,
    pretty: bool,
    step: nat,
)
    requires
        k <= entries.len(),
        forall|i: int| 0 <= i < entries.len() ==> is_spelled((#[trigger] entries[i]).1, depth),
    ensures
        json_members(entries, k, pad, pretty, step).0 + rest(
            member_parts(entries, pad, pretty, step),
            k,
            pad,
            outer,
            pretty,
            '}',
        ) == rest(member_parts(entries, pad, pretty, step), 0, pad, outer, pretty, '}'),
    decreases k,
{
    let parts = member_parts(entries, pad, pretty, step);
    if k == 0 {
        assert(Seq::<char>::empty() + rest(parts, 0, pad, outer, pretty, '}') =~= rest(
            parts,
            0,
            pad,
            outer,
            pretty,
            '}',
        ));
    } else {
        let j = (k - 1) as nat;
        lemma_members_rest(entries, j, depth, pad, outer, pretty, step);
        lemma_members_whole(entries, j, depth, pad, pretty, step);
        let before = json_members(entries, j, pad, pretty, step).0;
        let key = json_string(entries[k - 1].0);
        let item = json_emitted(entries[k - 1].1, pad, pretty, step).0;
        let part = key + (colon(pretty) + item);
        let tail = rest(parts, k, pad, outer, pretty, '}');
        assert(parts[k - 1] == part);
        assert(rest(parts, j, pad, outer, pretty, '}') == separator(j, pad, pretty) + (part + tail));
        assert(json_members(entries, k, pad, pretty, step).0 == before + separator(j, pad, pretty)
            + key + colon(pretty) + item);
        lemma_regrouped_five(before, separator(j, pad, pretty), key, colon(pretty), item, tail);
    }
}

/// A value that stands in the bytes scans to its end.
#[verifier::spinoff_prover]
pub proof fn lemma_value_scans(
    t: Tree,
    depth: nat,
    bytes: Seq<u8>,
    pos: int,
    lead: Seq<char>,
    pad: Seq<char>,
    pretty: bool,
    step: nat,
    path: Seq<Seq<char>>,
    spans: SpanSeq,
    context: SpanContext,
)
    requires
        is_spelled(t, depth),
        all_blank(lead),
        all_blank(pad),
        stands(bytes, pos, lead + json_emitted(t, pad, pretty, step).0),
        ends_at(bytes, behind(pos, lead + json_emitted(t, pad, pretty, step).0)),
    ensures
        value_scanned(bytes, pos, path, spans, context) matches Ok((end, _)) && end == behind(
            pos,
            lead + json_emitted(t, pad, pretty, step).0,
        ) && pos < end,
    decreases t, 0int,
{
    let w = json_emitted(t, pad, pretty, step).0;
    lemma_first_char(t, depth, pad, pretty, step);
    lemma_stands_two(bytes, pos, lead, w);
    let p = behind(pos, lead);
    lemma_first_byte(bytes, p, w);
    lemma_skips(bytes, pos, lead);
    reveal_strlit("null");
    reveal_strlit("true");
    reveal_strlit("false");
    reveal_strlit("[]");
    reveal_strlit("{}");
    match t {
        Tree::Null => {
            assert(is_ascii_chars(w));
            lemma_word_stands_at(bytes, p, w, seq![110u8, 117u8, 108u8, 108u8]);
        },
        Tree::Bool(b) => {
            assert(is_ascii_chars(w));
            if b {
                lemma_word_stands_at(bytes, p, w, seq![116u8, 114u8, 117u8, 101u8]);
            } else {
                lemma_word_stands_at(bytes, p, w, seq![102u8, 97u8, 108u8, 115u8, 101u8]);
                assert(bytes.subrange(p, p + 4)[0] == 102u8);
                assert(!stands_at(bytes, p, seq![116u8, 114u8, 117u8, 101u8]));
            }
        },
        Tree::Int(n) => {
            lemma_int_literal(n);
            lemma_number_scans(bytes, p, w);
        },
        Tree::BigInt(s) => {
            lemma_number_scans(bytes, p, w);
        },
        Tree::String(s) => {
            lemma_quoted_scans(bytes, p, s);
        },
        Tree::Array(items) => {
            lemma_array_scans(items, depth, bytes, p, pad, pretty, step, path, spans);
        },
        Tree::Object(entries) => {
            lemma_object_scans(entries, depth, bytes, p, pad, pretty, step, path, spans);
        },
        _ => {},
    }
}

/// White space behind what opens a container leads to what the container holds.
pub proof fn lemma_open_scans(bytes: Seq<u8>, p: int, open: char, lead: Seq<char>, body: Seq<char>)
    requires
        open == '[' || open == '{',
        stands(bytes, p, seq![open] + (lead + body)),
        all_blank(lead),
        body.len() > 0,
        starts_value(body[0]),
    ensures
        skipped(bytes, p + 1) == Ok::<int, crate::error::Fault>(behind(p + 1, lead)),
        stands(bytes, behind(p + 1, lead), body),
        p + 1 <= behind(p + 1, lead) < bytes.len(),
        bytes[behind(p + 1, lead)] == body[0] as u8,
        behind(p, seq![open] + (lead + body)) == behind(behind(p + 1, lead), body),
{
    let first = seq![open];
    assert(is_ascii_chars(first));
    lemma_stands_two(bytes, p, first, lead + body);
    lemma_stands_word(bytes, p, first);
    lemma_stands_two(bytes, p + 1, lead, body);
    lemma_first_byte(bytes, behind(p + 1, lead), body);
    lemma_skips(bytes, p + 1, lead);
}

proof fn lemma_array_scans(
    items: Seq<Tree>,
    depth: nat,
    bytes: Seq<u8>,
    p: int,
    pad: Seq<char>,
    pretty: bool,
    step: nat,
    path: Seq<Seq<char>>,
    spans: SpanSeq,
)
    requires
        is_spelled(Tree::Array(items), depth),
        all_blank(pad),
        stands(bytes, p, json_emitted(Tree::Array(items), pad, pretty, step).0),
    ensures
        array_scanned(bytes, p + 1, path, spans) matches Ok((end, _)) && end == behind(
            p,
            json_emitted(Tree::Array(items), pad, pretty, step).0,
        ),
    decreases items, items.len() + 1,
{
    let t = Tree::Array(items);
    assert(t->Array_0 == items);
    let w = json_emitted(t, pad, pretty, step).0;
    if items.len() == 0 {
        reveal_strlit("[]");
        assert(is_ascii_chars(w));
        lemma_stands_word(bytes, p, w);
        assert(bytes[p + 1] == w[1] as u8);
    } else {
        let inner = pad + spaces(step);
        let n = items.len();
        let parts = item_parts(items, inner, pretty, step);
        lemma_items_whole(items, n, (depth - 1) as nat, inner, pretty, step);
        lemma_items_rest(items, n, (depth - 1) as nat, inner, pad, pretty, step);
        assert(w =~= seq!['['] + rest(parts, 0, inner, pad, pretty, ']'));
        let lead = line_break(inner, pretty);
        lemma_blank_break(inner, pretty);
        let body = parts[0] + rest(parts, 1, inner, pad, pretty, ']');
        assert(separator(0, inner, pretty) =~= lead);
        assert(w =~= seq!['['] + (lead + body));
        lemma_first_char(items[0], (depth - 1) as nat, inner, pretty, step);
        assert(body[0] == parts[0][0]);
        lemma_open_scans(bytes, p, '[', lead, body);
        let q = behind(p + 1, lead);
        assert(Seq::<char>::empty() + body =~= body);
        lemma_items_scan(
            items,
            0,
            (depth - 1) as nat,
            bytes,
            q,
            Seq::empty(),
            inner,
            pad,
            pretty,
            step,
            path,
            spans,
            0,
        );
    }
}

proof fn lemma_items_scan(
    items: Seq<Tree>,
    i: nat,
    depth: nat,
    bytes: Seq<u8>,
    pos: int,
    lead: Seq<char>,
    pad: Seq<char>,
    outer: Seq<char>,
    pretty: bool,
    step: nat,
    path: Seq<Seq<char>>,
    spans: SpanSeq,
    index: nat,
)
    requires
        i < items.len(),
        forall|k: int| 0 <= k < items.len() ==> is_spelled(#[trigger] items[k], depth),
        all_blank(lead),
        all_blank(pad),
        all_blank(outer),
        stands(
            bytes,
            pos,
            lead + (item_parts(items, pad, pretty, step)[i as int] + rest(
                item_parts(items, pad, pretty, step),
                i + 1,
                pad,
                outer,
                pretty,
                ']',
            )),
        ),
    ensures
        items_scanned(bytes, pos, path, spans, index) matches Ok((end, _)) && end == behind(
            pos,
            lead + (item_parts(items, pad, pretty, step)[i as int] + rest(
                item_parts(items, pad, pretty, step),
                i + 1,
                pad,
                outer,
                pretty,
                ']',
            )),
        ),
    decreases items, items.len() - i,
{
    let parts = item_parts(items, pad, pretty, step);
    let tail = rest(parts, i + 1, pad, outer, pretty, ']');
    let part = parts[i as int];
    assert(lead + (part + tail) =~= (lead + part) + tail);
    lemma_stands_two(bytes, pos, lead + part, tail);
    let v = behind(pos, lead + part);
    lemma_tail_starts(bytes, v, parts, i + 1, pad, outer, pretty, ']');
    assert(decreases_to!(items => items[i as int]));
    let inside = path.push(decimal(index));
    lemma_value_scans(
        items[i as int],
        depth,
        bytes,
        pos,
        lead,
        pad,
        pretty,
        step,
        inside,
        spans,
        SpanContext::BlockSeqItem,
    );
    let more = value_scanned(bytes, pos, inside, spans, SpanContext::BlockSeqItem)->Ok_0.1;
    if i + 1 < items.len() {
        let next = line_break(pad, pretty);
        let body = parts[(i + 1) as int] + rest(parts, i + 2, pad, outer, pretty, ']');
        lemma_blank_break(pad, pretty);
        assert(tail =~= seq![','] + (next + body));
        lemma_stands_two(bytes, v, seq![','], next + body);
        assert(is_ascii_chars(seq![',']));
        lemma_stands_word(bytes, v, seq![',']);
        assert(item_scanned(bytes, pos, path, spans, index) == Ok::<
            (int, SpanSeq, bool),
            crate::error::Fault,
        >((v + 1, more, true)));
        lemma_items_scan(
            items,
            i + 1,
            depth,
            bytes,
            v + 1,
            next,
            pad,
            outer,
            pretty,
            step,
            path,
            more,
            index + 1,
        );
    } else {
        lemma_close_scans(bytes, v, outer, pretty, ']');
        let end = behind(v, tail);
        assert(item_scanned(bytes, pos, path, spans, index) == Ok::<
            (int, SpanSeq, bool),
            crate::error::Fault,
        >((end, more, false)));
    }
}

/// A value ends where the next one is told apart from it, or the container
/// closes.
pub proof fn lemma_tail_starts(
    bytes: Seq<u8>,
    v: int,
    parts: Seq<Seq<char>>,
    i: nat,
    pad: Seq<char>,
    outer: Seq<char>,
    pretty: bool,
    close: char,
)
    requires
        0 < i <= parts.len(),
        close == ']' || close == '}',
        stands(bytes, v, rest(parts, i, pad, outer, pretty, close)),
    ensures
        ends_at(bytes, v),
        i < parts.len() ==> holds(bytes, v, 44) && skipped(bytes, v) == Ok::<
            int,
            crate::error::Fault,
        >(v),
{
    let tail = rest(parts, i, pad, outer, pretty, close);
    if i < parts.len() {
        assert(tail[0] == ',');
    } else if pretty {
        assert(tail[0] == '\n');
    } else {
        assert(tail[0] == close);
    }
    lemma_first_byte(bytes, v, tail);
}

/// White space before what closes a container leads to it.
pub proof fn lemma_close_scans(bytes: Seq<u8>, v: int, outer: Seq<char>, pretty: bool, close: char)
    requires
        all_blank(outer),
        close == ']' || close == '}',
        stands(bytes, v, line_break(outer, pretty) + seq![close]),
    ensures
        skipped(bytes, v) matches Ok(s) && holds(bytes, s, close as u8) && s + 1 == behind(
            v,
            line_break(outer, pretty) + seq![close],
        ),
{
    let lead = line_break(outer, pretty);
    lemma_blank_break(outer, pretty);
    lemma_stands_two(bytes, v, lead, seq![close]);
    assert(is_ascii_chars(seq![close]));
    lemma_stands_word(bytes, behind(v, lead), seq![close]);
    assert(bytes[behind(v, lead) + 0] == seq![close][0] as u8);
    lemma_skips(bytes, v, lead);
}

proof fn lemma_object_scans(
    entries: Seq<(Seq<char>, Tree)>,
    depth: nat,
    bytes: Seq<u8>,
    p: int,
    pad: Seq<char>,
    pretty: bool,
    step: nat,
    path: Seq<Seq<char>>,
    spans: SpanSeq,
)
    requires
        is_spelled(Tree::Object(entries), depth),
        all_blank(pad),
        stands(bytes, p, json_emitted(Tree::Object(entries), pad, pretty, step).0),
    ensures
        object_scanned(bytes, p + 1, path, spans) matches Ok((end, _)) && end == behind(
            p,
            json_emitted(Tree::Object(entries), pad, pretty, step).0,
        ),
    decreases entries, entries.len() + 1,
{
    let t = Tree::Object(entries);
    assert(t->Object_0 == entries);
    let w = json_emitted(t, pad, pretty, step).0;
    if entries.len() == 0 {
        reveal_strlit("{}");
        assert(is_ascii_chars(w));
        lemma_stands_word(bytes, p, w);
        assert(bytes[p + 1] == w[1] as u8);
    } else {
        let inner = pad + spaces(step);
        let n = entries.len();
        let parts = member_parts(entries, inner, pretty, step);
        lemma_members_whole(entries, n, (depth - 1) as nat, inner, pretty, step);
        lemma_members_rest(entries, n, (depth - 1) as nat, inner, pad, pretty, step);
        assert(w =~= seq!['{'] + rest(parts, 0, inner, pad, pretty, '}'));
        let lead = line_break(inner, pretty);
        lemma_blank_break(inner, pretty);
        let body = parts[0] + rest(parts, 1, inner, pad, pretty, '}');
        assert(separator(0, inner, pretty) =~= lead);
        assert(w =~= seq!['{'] + (lead + body));
        assert(body[0] == '"');
        lemma_open_scans(bytes, p, '{', lead, body);
        let q = behind(p + 1, lead);
        assert(Seq::<char>::empty() + body =~= body);
        lemma_members_scan(
            entries,
            0,
            (depth - 1) as nat,
            bytes,
            q,
            Seq::empty(),
            inner,
            pad,
            pretty,
            step,
            path,
            spans,
        );
    }
}

/// A key that stands in the bytes before its colon is read.
pub proof fn lemma_key_scans(bytes: Seq<u8>, pos: int, lead: Seq<char>, key: Seq<char>, after: Seq<char>)
    requires
        all_blank(lead),
        stands(bytes, pos, lead + (json_string(key) + after)),
        after.len() > 0,
        after[0] == ':',
    ensures
        key_scanned(bytes, pos) == Ok::<(Seq<char>, int), crate::error::Fault>(
            (key, behind(pos, lead + json_string(key)) + 1),
        ),
        stands(bytes, behind(pos, lead + json_string(key)), after),
        pos < behind(pos, lead + json_string(key)),
{
    let text = json_string(key);
    lemma_stands_two(bytes, pos, lead, text + after);
    let p = behind(pos, lead);
    lemma_stands_two(bytes, p, text, after);
    let e = behind(p, text);
    lemma_quoted_scans(bytes, p, key);
    lemma_skips(bytes, pos, lead);
    lemma_encode_two(lead, text);
    assert(e == behind(pos, lead + text));
    assert(bytes.subrange(p, e) == encode_utf8(text));
    law_string_reads_back(key);
    lemma_first_byte(bytes, e, after);
}

/// A member that stands in the bytes scans to its end.
pub proof fn lemma_member_scans(
    entry: (Seq<char>, Tree),
    depth: nat,
    bytes: Seq<u8>,
    pos: int,
    lead: Seq<char>,
    pad: Seq<char>,
    pretty: bool,
    step: nat,
    path: Seq<Seq<char>>,
    spans: SpanSeq,
)
    requires
        is_spelled(entry.1, depth),
        all_blank(lead),
        all_blank(pad),
        stands(bytes, pos, lead + member_part(entry, pad, pretty, step)),
        ends_at(bytes, behind(pos, lead + member_part(entry, pad, pretty, step))),
    ensures
        key_scanned(bytes, pos) matches Ok((key, q)) && pos < q && key == entry.0 && (
        value_scanned(bytes, q, path.push(escaped(key)), spans, SpanContext::BlockMapValue) matches Ok(
            (v, _),
        ) && v == behind(pos, lead + member_part(entry, pad, pretty, step)) && pos < v),
    decreases entry, 0int,
{
    let (key, value) = entry;
    let item = json_emitted(value, pad, pretty, step).0;
    let gap: Seq<char> = if pretty {
        seq![' ']
    } else {
        Seq::empty()
    };
    let after = colon(pretty) + item;
    lemma_stands_two(bytes, pos, lead, json_string(key) + after);
    lemma_key_scans(bytes, pos, lead, key, after);
    let e = behind(pos, lead + json_string(key));
    assert(after =~= seq![':'] + (gap + item));
    lemma_stands_two(bytes, e, seq![':'], gap + item);
    assert(is_ascii_chars(seq![':']));
    lemma_stands_word(bytes, e, seq![':']);
    assert(lead + (json_string(key) + after) =~= (lead + json_string(key)) + after);
    lemma_encode_two(lead + json_string(key), after);
    assert(decreases_to!(entry => entry.1));
    lemma_value_scans(
        value,
        depth,
        bytes,
        e + 1,
        gap,
        pad,
        pretty,
        step,
        path.push(escaped(key)),
        spans,
        SpanContext::BlockMapValue,
    );
}

proof fn lemma_members_scan(
    entries: Seq<(Seq<char>, Tree)>,
    i: nat,
    depth: nat,
    bytes: Seq<u8>,
    pos: int,
    lead: Seq<char>,
    pad: Seq<char>,
    outer: Seq<char>,
    pretty: bool,
    step: nat,
    path: Seq<Seq<char>>,
    spans: SpanSeq,
)
    requires
        i < entries.len(),
        forall|k: int| 0 <= k < entries.len() ==> is_spelled((#[trigger] entries[k]).1, depth),
        all_blank(lead),
        all_blank(pad),
        all_blank(outer),
        stands(
            bytes,
            pos,
            lead + (member_parts(entries, pad, pretty, step)[i as int] + rest(
                member_parts(entries, pad, pretty, step),
                i + 1,
                pad,
                outer,
                pretty,
                '}',
            )),
        ),
    ensures
        members_scanned(bytes, pos, path, spans) matches Ok((end, _)) && end == behind(
            pos,
            lead + (member_parts(entries, pad, pretty, step)[i as int] + rest(
                member_parts(entries, pad, pretty, step),
                i + 1,
                pad,
                outer,
                pretty,
                '}',
            )),
        ),
    decreases entries, entries.len() - i,
{
    let parts = member_parts(entries, pad, pretty, step);
    let tail = rest(parts, i + 1, pad, outer, pretty, '}');
    let entry = entries[i as int];
    let part = member_part(entry, pad, pretty, step);
    assert(parts[i as int] == part);
    assert(lead + (part + tail) =~= (lead + part) + tail);
    lemma_stands_two(bytes, pos, lead + part, tail);
    let v = behind(pos, lead + part);
    lemma_tail_starts(bytes, v, parts, i + 1, pad, outer, pretty, '}');
    assert(decreases_to!(entries => entries[i as int]));
    lemma_member_scans(entry, depth, bytes, pos, lead, pad, pretty, step, path, spans);
    let q = key_scanned(bytes, pos)->Ok_0.1;
    let inside = path.push(escaped(entry.0));
    let more = value_scanned(bytes, q, inside, spans, SpanContext::BlockMapValue)->Ok_0.1;
    if i + 1 < entries.len() {
        let next = line_break(pad, pretty);
        let body = parts[(i + 1) as int] + rest(parts, i + 2, pad, outer, pretty, '}');
        lemma_blank_break(pad, pretty);
        assert(tail =~= seq![','] + (next + body));
        lemma_stands_two(bytes, v, seq![','], next + body);
        assert(is_ascii_chars(seq![',']));
        lemma_stands_word(bytes, v, seq![',']);
        assert(member_scanned(bytes, pos, path, spans) == Ok::<
            (int, SpanSeq, bool),
            crate::error::Fault,
        >((v + 1, more, true)));
        lemma_members_scan(
            entries,
            i + 1,
            depth,
            bytes,
            v + 1,
            next,
            pad,
            outer,
            pretty,
            step,
            path,
            more,
        );
    } else {
        lemma_close_scans(bytes, v, outer, pretty, '}');
        let end = behind(v, tail);
        assert(member_scanned(bytes, pos, path, spans) == Ok::<
            (int, SpanSeq, bool),
            crate::error::Fault,
        >((end, more, false)));
    }
}

/// A value that is written in one of the layouts of the JSON writer is written
/// to the end, and the bytes spell it.
pub proof fn law_written_bytes_spell_the_value(t: Tree, pretty: bool, step: nat)
    requires
        is_spelled(t, readable_depth()),
    ensures
        json_emitted(t, Seq::empty(), pretty, step).1,
        spells(encode_utf8(json_emitted(t, Seq::empty(), pretty, step).0), t),
{
    lemma_emits_whole(t, readable_depth(), Seq::empty(), pretty, step);
    assert(encode_utf8(spelling(t, pretty, step)) == encode_utf8(
        json_emitted(t, Seq::empty(), pretty, step).0,
    ));
}

/// Bytes that spell a value scan.
pub proof fn lemma_spelled_bytes_scan(bytes: Seq<u8>, t: Tree)
    requires
        spells(bytes, t),
    ensures
        json_spans(bytes) is Ok,
{
    let (pretty, step) = choose|pretty: bool, step: nat|
        bytes == encode_utf8(#[trigger] spelling(t, pretty, step));
    lemma_spelling_scans(t, readable_depth(), pretty, step);
}

proof fn lemma_spelling_scans(t: Tree, depth: nat, pretty: bool, step: nat)
    requires
        is_spelled(t, depth),
    ensures
        json_spans(encode_utf8(spelling(t, pretty, step))) is Ok,
{
    let w = spelling(t, pretty, step);
    let bytes = encode_utf8(w);
    let none = Seq::<char>::empty();
    encode_utf8_valid_utf8(w);
    lemma_first_char(t, depth, none, pretty, step);
    assert(none + w =~= w);
    assert(bytes.subrange(0, bytes.len() as int) =~= bytes);
    assert(stands(bytes, 0, w));
    lemma_first_byte(bytes, 0, w);
    lemma_value_scans(
        t,
        depth,
        bytes,
        0,
        none,
        none,
        pretty,
        step,
        Seq::empty(),
        Seq::empty(),
        SpanContext::BlockMapValue,
    );
}

} // verus!
