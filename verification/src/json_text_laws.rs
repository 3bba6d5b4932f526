//! JSON text that is written is text of the value, by the rules of JSON.

use crate::decimal_text::{decimal_number, same_number};
use crate::layout_laws::is_not_finite;
use crate::number_laws::{
    has_point_or_exponent, law_float_token_is_the_number, law_integer_text_is_the_number,
    lemma_number_chars,
};
use crate::numbers::parsed_int;
use crate::parsers::json_write::{
    colon, json_compact, json_emitted, json_escaped, json_escaped_char, json_insertion, json_items,
    json_members, json_string, line_break, separator, spaces, JsonInsertionRenderer,
    JsonScalarRenderer,
};
use crate::spans::SpanContext;
use crate::textual_edit::{InsertionRenderer, ScalarRenderer};
use crate::value::Tree;
use crate::yaml_scalar_laws::{hex_value, put_first};
use vstd::prelude::*;
use vstd::utf8::{decode_utf8, encode_utf8_decode_utf8, encode_utf8_valid_utf8, valid_utf8};

verus! {

/// What an escape of one letter stands for.
pub open spec fn json_escape_meaning(c: char) -> Option<char> {
    if c == '"' || c == '\\' || c == '/' {
        Some(c)
    } else if c == 'b' {
        Some(8 as char)
    } else if c == 'f' {
        Some(12 as char)
    } else if c == 'n' {
        Some('\n')
    } else if c == 'r' {
        Some('\r')
    } else if c == 't' {
        Some('\t')
    } else {
        None
    }
}

/// The text that stands between the quotes of a JSON string, its escapes
/// resolved.
pub open spec fn json_unescaped(t: Seq<char>) -> Option<Seq<char>>
    decreases t.len(),
{
    if t.len() == 0 {
        Some(Seq::empty())
    } else if t[0] == '"' || (t[0] as u32) < 0x20 {
        None
    } else if t[0] != '\\' {
        put_first(t[0], json_unescaped(t.subrange(1, t.len() as int)))
    } else if t.len() < 2 {
        None
    } else if t[1] == 'u' {
        if t.len() < 6 {
            None
        } else {
            match (hex_value(t[2]), hex_value(t[3]), hex_value(t[4]), hex_value(t[5])) {
                (Some(a), Some(b), Some(c), Some(d)) => put_first(
                    (4096 * a + 256 * b + 16 * c + d) as char,
                    json_unescaped(t.subrange(6, t.len() as int)),
                ),
                _ => None,
            }
        }
    } else {
        match json_escape_meaning(t[1]) {
            Some(c) => put_first(c, json_unescaped(t.subrange(2, t.len() as int))),
            None => None,
        }
    }
}

/// Whether a text is a JSON string for another text.
pub open spec fn is_json_string(w: Seq<char>, s: Seq<char>) -> bool {
    &&& w.len() >= 2 && w[0] == '"' && w.last() == '"'
    &&& json_unescaped(w.subrange(1, w.len() - 1)) == Some(s)
}

/// Whether a text is white space between tokens.
pub open spec fn is_json_gap(w: Seq<char>) -> bool {
    forall|i: int|
        0 <= i < w.len() ==> (#[trigger] w[i]) == ' ' || w[i] == '\n' || w[i] == '\t' || w[i]
            == '\r'
}

/// Whether a text is what stands before an item: white space, and behind an
/// earlier item a comma.
pub open spec fn is_item_gap(w: Seq<char>, first: bool) -> bool {
    if first {
        is_json_gap(w)
    } else {
        w.len() > 0 && w[0] == ',' && is_json_gap(w.subrange(1, w.len() as int))
    }
}

/// Whether positions cut a text into pieces.
pub open spec fn cuts(w: Seq<char>, a: int, b: int) -> bool {
    0 <= a <= b <= w.len()
}

/// Whether positions cut a text into pieces.
pub open spec fn cuts_key(w: Seq<char>, a: int, b: int, c: int, d: int) -> bool {
    0 <= a <= b <= c < d <= w.len()
}

/// Whether a text is JSON for a value.
pub open spec fn is_json_text(w: Seq<char>, t: Tree) -> bool
    decreases t, 0nat,
{
    match t {
        Tree::Null => w == seq!['n', 'u', 'l', 'l'],
        Tree::Bool(b) => w == if b {
            seq!['t', 'r', 'u', 'e']
        } else {
            seq!['f', 'a', 'l', 's', 'e']
        },
        Tree::Int(n) => (parsed_int(w) matches Some(m) && m == n) && !has_point_or_exponent(w),
        Tree::BigInt(s) => w == s,
        Tree::BigFloat(s) => w == s,
        Tree::Float(s) => same_number(w, s) && has_point_or_exponent(w),
        Tree::String(s) => is_json_string(w, s),
        Tree::Array(items) => {
            &&& w.len() >= 2 && w[0] == '[' && w.last() == ']'
            &&& exists|end: int| #[trigger]
                cuts(w, 1, end) && end < w.len() && is_json_gap(w.subrange(end, w.len() - 1))
                    && are_json_items(w.subrange(1, end), items, items.len())
        },
        Tree::Object(entries) => {
            &&& w.len() >= 2 && w[0] == '{' && w.last() == '}'
            &&& exists|end: int| #[trigger]
                cuts(w, 1, end) && end < w.len() && is_json_gap(w.subrange(end, w.len() - 1))
                    && are_json_members(w.subrange(1, end), entries, entries.len())
        },
    }
}

/// Whether a text is JSON for the first `k` items, with commas between them.
pub open spec fn are_json_items(w: Seq<char>, items: Seq<Tree>, k: nat) -> bool
    decreases items, k,
{
    if k == 0 || k > items.len() {
        w.len() == 0
    } else {
        exists|a: int, b: int| #[trigger]
            cuts(w, a, b) && are_json_items(w.subrange(0, a), items, (k - 1) as nat) && is_item_gap(
                w.subrange(a, b),
                k == 1,
            ) && is_json_text(w.subrange(b, w.len() as int), items[k - 1])
    }
}

/// Whether a text is JSON for the first `k` members, each a key, a colon and a
/// value, with commas between them.
pub open spec fn are_json_members(w: Seq<char>, entries: Seq<(Seq<char>, Tree)>, k: nat) -> bool
    decreases entries, k,
{
    if k == 0 || k > entries.len() {
        w.len() == 0
    } else {
        exists|a: int, b: int, c: int, d: int| #[trigger]
            cuts_key(w, a, b, c, d) && are_json_members(w.subrange(0, a), entries, (k - 1) as nat)
                && is_item_gap(w.subrange(a, b), k == 1) && is_json_string(
                w.subrange(b, c),
                entries[k - 1].0,
            ) && w[c] == ':' && is_json_gap(w.subrange(c + 1, d)) && is_json_text(
                w.subrange(d, w.len() as int),
                entries[k - 1].1,
            )
    }
}

/// Whether JSON has a text for every number of a value: those that are 64-bit
/// numbers are in their range, and every float is a decimal number or not finite.
pub open spec fn numbers_are_numbers(t: Tree) -> bool
    decreases t, 0nat,
{
    match t {
        Tree::Int(n) => i64::MIN <= n <= i64::MAX,
        Tree::Float(s) => decimal_number(s) is Some || is_not_finite(s),
        Tree::Array(items) => item_numbers_are_numbers(items, items.len()),
        Tree::Object(entries) => entry_numbers_are_numbers(entries, entries.len()),
        _ => true,
    }
}

/// Whether that holds of the first `k` items.
pub open spec fn item_numbers_are_numbers(items: Seq<Tree>, k: nat) -> bool
    decreases items, k,
{
    k > 0 && k <= items.len() ==> {
        &&& item_numbers_are_numbers(items, (k - 1) as nat)
        &&& numbers_are_numbers(items[k - 1])
    }
}

/// Whether that holds of the first `k` entries.
pub open spec fn entry_numbers_are_numbers(entries: Seq<(Seq<char>, Tree)>, k: nat) -> bool
    decreases entries, k,
{
    k > 0 && k <= entries.len() ==> {
        &&& entry_numbers_are_numbers(entries, (k - 1) as nat)
        &&& numbers_are_numbers(entries[k - 1].1)
    }
}

/// Whether every float of a value is finite.
pub open spec fn is_all_finite(t: Tree) -> bool
    decreases t, 0nat,
{
    match t {
        Tree::Float(s) => !is_not_finite(s),
        Tree::Array(items) => items_all_finite(items, items.len()),
        Tree::Object(entries) => entries_all_finite(entries, entries.len()),
        _ => true,
    }
}

/// Whether every float of the first `k` items is finite.
pub open spec fn items_all_finite(items: Seq<Tree>, k: nat) -> bool
    decreases items, k,
{
    k > 0 && k <= items.len() ==> {
        &&& items_all_finite(items, (k - 1) as nat)
        &&& is_all_finite(items[k - 1])
    }
}

/// Whether every float of the first `k` entries is finite.
pub open spec fn entries_all_finite(entries: Seq<(Seq<char>, Tree)>, k: nat) -> bool
    decreases entries, k,
{
    k > 0 && k <= entries.len() ==> {
        &&& entries_all_finite(entries, (k - 1) as nat)
        &&& is_all_finite(entries[k - 1].1)
    }
}

proof fn lemma_escaped_front(s: Seq<char>)
    requires
        s.len() > 0,
    ensures
        json_escaped(s) == json_escaped_char(s[0]) + json_escaped(s.subrange(1, s.len() as int)),
    decreases s.len(),
{
    let rest = s.subrange(1, s.len() as int);
    if s.len() == 1 {
        assert(s.drop_last() =~= Seq::<char>::empty());
        assert(rest =~= Seq::<char>::empty());
        assert(json_escaped(s) =~= json_escaped_char(s[0]) + json_escaped(rest));
    } else {
        lemma_escaped_front(s.drop_last());
        assert(s.drop_last().subrange(1, s.len() - 1) =~= rest.drop_last());
        assert(json_escaped(s) =~= json_escaped_char(s[0]) + json_escaped(rest));
    }
}

proof fn lemma_one_unescaped(c: char, rest: Seq<char>)
    ensures
        json_unescaped(json_escaped_char(c) + rest) == put_first(c, json_unescaped(rest)),
{
    let t = json_escaped_char(c) + rest;
    let n = c as u32;
    let k = json_escaped_char(c).len() as int;
    assert(t.subrange(k, t.len() as int) =~= rest);
    if k == 6 {
        assert(n < 32);
        assert((n / 16) * 16 + n % 16 == n);
        assert(t[0] == '\\' && t[1] == 'u' && t[2] == '0' && t[3] == '0');
        assert(t[4] == json_escaped_char(c)[4] && t[5] == json_escaped_char(c)[5]);
        assert(hex_value(t[2]) == Some(0nat) && hex_value(t[3]) == Some(0nat));
        assert(hex_value(t[4]) == Some((n / 16) as nat));
        assert(hex_value(t[5]) == Some((n % 16) as nat));
    } else if k == 2 {
        assert(t[0] == '\\' && t[1] == json_escaped_char(c)[1]);
        assert(json_escape_meaning(t[1]) == Some(c));
    } else {
        assert(t[0] == c);
    }
}

proof fn lemma_unescaped(s: Seq<char>)
    ensures
        json_unescaped(json_escaped(s)) == Some(s),
    decreases s.len(),
{
    if s.len() > 0 {
        let rest = s.subrange(1, s.len() as int);
        lemma_escaped_front(s);
        lemma_unescaped(rest);
        lemma_one_unescaped(s[0], json_escaped(rest));
        assert(seq![s[0]] + rest =~= s);
    }
}

proof fn lemma_string(s: Seq<char>)
    ensures
        is_json_string(json_string(s), s),
{
    let w = json_string(s);
    lemma_unescaped(s);
    assert(w.subrange(1, w.len() - 1) =~= json_escaped(s));
    assert(w[0] == '"' && w.last() == '"');
}

proof fn lemma_break(pad: Seq<char>, pretty: bool)
    requires
        is_json_gap(pad),
    ensures
        is_json_gap(line_break(pad, pretty)),
{
    let w = line_break(pad, pretty);
    assert forall|i: int| 0 <= i < w.len() implies (#[trigger] w[i]) == ' ' || w[i] == '\n' || w[i]
        == '\t' || w[i] == '\r' by {
        if i > 0 {
            assert(w[i] == pad[i - 1]);
        }
    }
}

proof fn lemma_separator(k: nat, pad: Seq<char>, pretty: bool)
    requires
        is_json_gap(pad),
    ensures
        is_item_gap(separator(k, pad, pretty), k == 0),
{
    lemma_break(pad, pretty);
    let w = separator(k, pad, pretty);
    if k == 0 {
        assert(w =~= line_break(pad, pretty));
    } else {
        assert(w.subrange(1, w.len() as int) =~= line_break(pad, pretty));
    }
}

proof fn lemma_deeper(pad: Seq<char>, step: nat)
    requires
        is_json_gap(pad),
    ensures
        is_json_gap(pad + spaces(step)),
{
    let w = pad + spaces(step);
    assert forall|i: int| 0 <= i < w.len() implies (#[trigger] w[i]) == ' ' || w[i] == '\n' || w[i]
        == '\t' || w[i] == '\r' by {
        if i < pad.len() {
            assert(w[i] == pad[i]);
        }
    }
}

/// What the JSON writer makes of a value is JSON for that value, in any layout:
/// each literal by its word, each number by its digits, each text by its
/// characters, and what a collection holds in its order. It is written to the end
/// exactly if every float is finite.
pub proof fn law_json_is_written_for_the_value(t: Tree, pad: Seq<char>, pretty: bool, step: nat)
    requires
        numbers_are_numbers(t),
        is_json_gap(pad),
    ensures
        json_emitted(t, pad, pretty, step).1 <==> is_all_finite(t),
        json_emitted(t, pad, pretty, step).1 ==> is_json_text(
            json_emitted(t, pad, pretty, step).0,
            t,
        ),
    decreases t, 0nat,
{
    match t {
        Tree::Array(items) => {
            lemma_deeper(pad, step);
            lemma_items_written(items, items.len(), pad + spaces(step), pretty, step);
            lemma_list_closed(items, pad, pretty, step);
        },
        Tree::Object(entries) => {
            lemma_deeper(pad, step);
            lemma_members_written(entries, entries.len(), pad + spaces(step), pretty, step);
            lemma_table_closed(entries, pad, pretty, step);
        },
        _ => {
            lemma_scalar_written(t, pad, pretty, step);
        },
    }
}

proof fn lemma_scalar_written(t: Tree, pad: Seq<char>, pretty: bool, step: nat)
    requires
        numbers_are_numbers(t),
        !(t is Array) && !(t is Object),
    ensures
        json_emitted(t, pad, pretty, step).1 <==> is_all_finite(t),
        json_emitted(t, pad, pretty, step).1 ==> is_json_text(
            json_emitted(t, pad, pretty, step).0,
            t,
        ),
{
    match t {
        Tree::Null => {
            reveal_strlit("null");
            assert("null"@ =~= seq!['n', 'u', 'l', 'l']);
        },
        Tree::Bool(b) => {
            reveal_strlit("true");
            reveal_strlit("false");
            assert("true"@ =~= seq!['t', 'r', 'u', 'e']);
            assert("false"@ =~= seq!['f', 'a', 'l', 's', 'e']);
        },
        Tree::Int(n) => {
            law_integer_text_is_the_number(n);
        },
        Tree::Float(s) => {
            reveal_strlit("NaN");
            reveal_strlit("inf");
            reveal_strlit("-inf");
            assert("NaN"@[0] == 'N' && "inf"@[0] == 'i' && "-inf"@[1] == 'i');
            if decimal_number(s) is Some {
                lemma_number_chars(s);
                law_float_token_is_the_number(s);
            }
        },
        Tree::String(s) => {
            lemma_string(s);
        },
        _ => {},
    }
}

proof fn lemma_list_closed(items: Seq<Tree>, pad: Seq<char>, pretty: bool, step: nat)
    requires
        is_json_gap(pad),
        ({
            let body = json_items(items, items.len(), pad + spaces(step), pretty, step);
            body.1 ==> are_json_items(body.0, items, items.len())
        }),
    ensures
        ({
            let body = json_items(items, items.len(), pad + spaces(step), pretty, step);
            let r = json_emitted(Tree::Array(items), pad, pretty, step);
            &&& r.1 == (items.len() == 0 || body.1)
            &&& r.1 ==> is_json_text(r.0, Tree::Array(items))
        }),
{
    lemma_break(pad, pretty);
    let t = Tree::Array(items);
    assert(t->Array_0 == items);
    let w = json_emitted(t, pad, pretty, step).0;
    if items.len() == 0 {
        reveal_strlit("[]");
        assert(w == "[]"@);
        assert(w.subrange(1, 1) =~= Seq::<char>::empty());
        assert(are_json_items(w.subrange(1, 1), items, 0));
        assert(cuts(w, 1, 1));
    } else {
        let body = json_items(items, items.len(), pad + spaces(step), pretty, step);
        if body.1 {
            let end = 1 + body.0.len() as int;
            assert(w == seq!['['] + body.0 + line_break(pad, pretty) + seq![']']);
            assert(w.subrange(1, end) =~= body.0);
            assert(w.subrange(end, w.len() - 1) =~= line_break(pad, pretty));
            assert(cuts(w, 1, end));
        }
    }
}

proof fn lemma_table_closed(
    entries: Seq<(Seq<char>, Tree)>,
    pad: Seq<char>,
    pretty: bool,
    step: nat,
)
    requires
        is_json_gap(pad),
        ({
            let body = json_members(entries, entries.len(), pad + spaces(step), pretty, step);
            body.1 ==> are_json_members(body.0, entries, entries.len())
        }),
    ensures
        ({
            let body = json_members(entries, entries.len(), pad + spaces(step), pretty, step);
            let r = json_emitted(Tree::Object(entries), pad, pretty, step);
            &&& r.1 == (entries.len() == 0 || body.1)
            &&& r.1 ==> is_json_text(r.0, Tree::Object(entries))
        }),
{
    lemma_break(pad, pretty);
    let t = Tree::Object(entries);
    assert(t->Object_0 == entries);
    let w = json_emitted(t, pad, pretty, step).0;
    if entries.len() == 0 {
        reveal_strlit("{}");
        assert(w == "{}"@);
        assert(w.subrange(1, 1) =~= Seq::<char>::empty());
        assert(are_json_members(w.subrange(1, 1), entries, 0));
        assert(cuts(w, 1, 1));
    } else {
        let body = json_members(entries, entries.len(), pad + spaces(step), pretty, step);
        if body.1 {
            let end = 1 + body.0.len() as int;
            assert(w == seq!['{'] + body.0 + line_break(pad, pretty) + seq!['}']);
            assert(w.subrange(1, end) =~= body.0);
            assert(w.subrange(end, w.len() - 1) =~= line_break(pad, pretty));
            assert(cuts(w, 1, end));
        }
    }
}

proof fn lemma_items_written(items: Seq<Tree>, k: nat, pad: Seq<char>, pretty: bool, step: nat)
    requires
        k <= items.len(),
        item_numbers_are_numbers(items, k),
        is_json_gap(pad),
    ensures
        json_items(items, k, pad, pretty, step).1 <==> items_all_finite(items, k),
        json_items(items, k, pad, pretty, step).1 ==> are_json_items(
            json_items(items, k, pad, pretty, step).0,
            items,
            k,
        ),
    decreases items, k,
{
    if k > 0 {
        lemma_items_written(items, (k - 1) as nat, pad, pretty, step);
        law_json_is_written_for_the_value(items[k - 1], pad, pretty, step);
        lemma_separator((k - 1) as nat, pad, pretty);
        let before = json_items(items, (k - 1) as nat, pad, pretty, step);
        let item = json_emitted(items[k - 1], pad, pretty, step);
        if before.1 && item.1 {
            let w = json_items(items, k, pad, pretty, step).0;
            let gap = separator((k - 1) as nat, pad, pretty);
            let a = before.0.len() as int;
            let b = a + gap.len();
            assert(w == before.0 + gap + item.0);
            assert(w.subrange(0, a) =~= before.0);
            assert(w.subrange(a, b) =~= gap);
            assert(w.subrange(b, w.len() as int) =~= item.0);
            assert(cuts(w, a, b));
        }
    }
}

proof fn lemma_members_written(
    entries: Seq<(Seq<char>, Tree)>,
    k: nat,
    pad: Seq<char>,
    pretty: bool,
    step: nat,
)
    requires
        k <= entries.len(),
        entry_numbers_are_numbers(entries, k),
        is_json_gap(pad),
    ensures
        json_members(entries, k, pad, pretty, step).1 <==> entries_all_finite(entries, k),
        json_members(entries, k, pad, pretty, step).1 ==> are_json_members(
            json_members(entries, k, pad, pretty, step).0,
            entries,
            k,
        ),
    decreases entries, k,
{
    if k > 0 {
        lemma_members_written(entries, (k - 1) as nat, pad, pretty, step);
        assert(decreases_to!(entries => entries[k - 1]));
        assert(decreases_to!(entries[k - 1] => entries[k - 1].1));
        law_json_is_written_for_the_value(entries[k - 1].1, pad, pretty, step);
        lemma_separator((k - 1) as nat, pad, pretty);
        lemma_string(entries[k - 1].0);
        let before = json_members(entries, (k - 1) as nat, pad, pretty, step);
        let item = json_emitted(entries[k - 1].1, pad, pretty, step);
        if before.1 && item.1 {
            let w = json_members(entries, k, pad, pretty, step).0;
            let gap = separator((k - 1) as nat, pad, pretty);
            let key = json_string(entries[k - 1].0);
            let a = before.0.len() as int;
            let b = a + gap.len();
            let c = b + key.len();
            let d = c + colon(pretty).len();
            assert(w == before.0 + gap + key + colon(pretty) + item.0);
            assert(w.subrange(0, a) =~= before.0);
            assert(w.subrange(a, b) =~= gap);
            assert(w.subrange(b, c) =~= key);
            assert(w[c] == ':');
            assert(w.subrange(d, w.len() as int) =~= item.0);
            let rest = w.subrange(c + 1, d);
            assert forall|i: int| 0 <= i < rest.len() implies (#[trigger] rest[i]) == ' ' by {
                assert(rest[i] == w[c + 1 + i]);
            }
            assert(cuts_key(w, a, b, c, d));
        }
    }
}

/// What is put in the place of a JSON value is JSON for the value that was set.
pub proof fn law_json_replacement_is_the_value(
    t: Tree,
    context: SpanContext,
    original: Seq<u8>,
)
    requires
        numbers_are_numbers(t),
    ensures
        JsonScalarRenderer.renders(t) <==> is_all_finite(t),
        is_all_finite(t) ==> {
            let bytes = JsonScalarRenderer.replacement(t, context, original);
            valid_utf8(bytes) && is_json_text(decode_utf8(bytes), t)
        },
{
    law_json_is_written_for_the_value(t, Seq::empty(), false, 2);
    encode_utf8_valid_utf8(json_compact(t).0);
    encode_utf8_decode_utf8(json_compact(t).0);
}

/// A new member is on a line of its own, two spaces deeper than its parent: the
/// key, a colon, and JSON for the value.
pub proof fn law_new_json_member_is_the_value(
    key: Seq<char>,
    t: Tree,
    parent_indent: u32,
    context: SpanContext,
)
    requires
        numbers_are_numbers(t),
        is_all_finite(t),
        parent_indent <= u32::MAX - 2,
    ensures
        ({
            let bytes = JsonInsertionRenderer.insertion(key, t, parent_indent, context);
            let text = decode_utf8(bytes);
            let at = parent_indent + 3;
            &&& JsonInsertionRenderer.inserts(t)
            &&& valid_utf8(bytes)
            &&& text.len() > at && text[0] == '\n'
            &&& forall|i: int| 1 <= i < at ==> #[trigger] text[i] == ' '
            &&& exists|c: int, d: int| #[trigger]
                cuts(text, c, d) && at <= c < d && is_json_string(text.subrange(at, c), key)
                    && text[c] == ':' && is_json_gap(text.subrange(c + 1, d)) && is_json_text(
                    text.subrange(d, text.len() as int),
                    t,
                )
        }),
{
    law_json_is_written_for_the_value(t, Seq::empty(), false, 2);
    let text = json_insertion(key, t, parent_indent);
    encode_utf8_valid_utf8(text);
    encode_utf8_decode_utf8(text);
    lemma_string(key);
    let at = parent_indent + 3;
    let c = at + json_string(key).len();
    let d = c + 2;
    assert(text.subrange(at, c) =~= json_string(key));
    assert(text[c] == ':');
    assert(text.subrange(c + 1, d) =~= seq![' ']);
    assert(text.subrange(d, text.len() as int) =~= json_compact(t).0);
    assert(cuts(text, c, d));
}

} // verus!
