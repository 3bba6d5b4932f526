//! Where the braces of a JSON text close.

use crate::numbers::{all_digits, is_digit, lemma_decimal_value};
use crate::parsers::frontmatter::closing_brace;
use crate::parsers::json_spelling::{
    is_spelled, lemma_encode_two, lemma_items_whole, lemma_members_whole, lemma_wide_char,
    readable_depth, spelling, spells,
};
use crate::parsers::json_write::{
    colon, json_emitted, json_escaped, json_escaped_char, json_items, json_members, json_string,
    line_break, separator, spaces,
};
use crate::value::Tree;
use vstd::prelude::*;
use vstd::utf8::{encode_utf8, is_ascii_chars, is_ascii_chars_encode_utf8};

verus! {

/// How far the search for the closing brace has come.
#[verifier::ext_equal]
struct Braces {
    depth: nat,
    in_string: bool,
    escaped: bool,
    closed: bool,
}

/// The search behind one more character. It ends with the brace that closes the
/// first one.
spec fn braced(s: Braces, c: char) -> Braces {
    if s.closed {
        s
    } else if s.escaped {
        Braces { escaped: false, ..s }
    } else if s.in_string {
        Braces { in_string: c != '"', escaped: c == '\\', ..s }
    } else if c == '"' {
        Braces { in_string: true, ..s }
    } else if c == '{' {
        Braces { depth: s.depth + 1, ..s }
    } else if c == '}' {
        if s.depth <= 1 {
            Braces { closed: true, ..s }
        } else {
            Braces { depth: (s.depth - 1) as nat, ..s }
        }
    } else {
        s
    }
}

/// The search behind a text.
spec fn after(s: Braces, w: Seq<char>) -> Braces
    decreases w.len(),
{
    if w.len() == 0 {
        s
    } else {
        braced(after(s, w.drop_last()), w.last())
    }
}

/// Whether the search is between tokens, inside of an object.
spec fn is_inside(s: Braces) -> bool {
    s.depth > 0 && !s.in_string && !s.escaped && !s.closed
}

proof fn lemma_after_two(s: Braces, a: Seq<char>, b: Seq<char>)
    ensures
        after(s, a + b) == after(after(s, a), b),
    decreases b.len(),
{
    if b.len() == 0 {
        assert(a + b =~= a);
    } else {
        assert((a + b).drop_last() =~= a + b.drop_last());
        lemma_after_two(s, a, b.drop_last());
    }
}

proof fn lemma_after_one(s: Braces, c: char)
    ensures
        after(s, seq![c]) == braced(s, c),
{
    assert(seq![c].drop_last() =~= Seq::<char>::empty());
    assert(after(s, Seq::<char>::empty()) == s);
}

/// Once the brace is closed it stays so.
proof fn lemma_stays_closed(s: Braces, w: Seq<char>)
    requires
        s.closed,
    ensures
        after(s, w) == s,
    decreases w.len(),
{
    if w.len() > 0 {
        lemma_stays_closed(s, w.drop_last());
    }
}

/// Whether a text holds neither quotes nor braces.
spec fn is_quiet(w: Seq<char>) -> bool {
    forall|i: int| 0 <= i < w.len() ==> (#[trigger] w[i]) != '"' && w[i] != '{' && w[i] != '}'
}

proof fn lemma_quiet(s: Braces, w: Seq<char>)
    requires
        is_inside(s),
        is_quiet(w),
    ensures
        after(s, w) == s,
    decreases w.len(),
{
    if w.len() > 0 {
        assert(is_quiet(w.drop_last()));
        lemma_quiet(s, w.drop_last());
    }
}

proof fn lemma_escaped_char(s: Braces, c: char)
    requires
        s.in_string,
        !s.escaped,
        !s.closed,
    ensures
        after(s, json_escaped_char(c)) == s,
{
    let w = json_escaped_char(c);
    if w.len() == 1 {
        assert(w =~= seq![c]);
        lemma_after_one(s, c);
    } else {
        let two = seq![w[0]] + seq![w[1]];
        lemma_after_two(s, seq![w[0]], seq![w[1]]);
        lemma_after_one(s, w[0]);
        lemma_after_one(braced(s, w[0]), w[1]);
        assert(after(s, two) =~= s);
        if w.len() == 2 {
            assert(w =~= two);
        } else {
            let h = (c as u32 / 16) as nat;
            let l = (c as u32 % 16) as nat;
            let rest = seq![w[2]] + seq![w[3]] + seq![w[4]] + seq![w[5]];
            assert(w =~= two + rest);
            lemma_after_two(s, two, rest);
            lemma_after_two(s, seq![w[2]] + seq![w[3]] + seq![w[4]], seq![w[5]]);
            lemma_after_two(s, seq![w[2]] + seq![w[3]], seq![w[4]]);
            lemma_after_two(s, seq![w[2]], seq![w[3]]);
            lemma_after_one(s, w[2]);
            lemma_after_one(s, w[3]);
            lemma_after_one(s, w[4]);
            lemma_after_one(s, w[5]);
            assert(braced(s, w[2]) =~= s);
            assert(braced(s, w[3]) =~= s);
            assert(braced(s, w[4]) =~= s);
            assert(braced(s, w[5]) =~= s);
        }
    }
}

proof fn lemma_escaped(s: Braces, x: Seq<char>)
    requires
        s.in_string,
        !s.escaped,
        !s.closed,
    ensures
        after(s, json_escaped(x)) == s,
    decreases x.len(),
{
    if x.len() > 0 {
        lemma_escaped(s, x.drop_last());
        lemma_after_two(s, json_escaped(x.drop_last()), json_escaped_char(x.last()));
        lemma_escaped_char(s, x.last());
    }
}

proof fn lemma_string(s: Braces, x: Seq<char>)
    requires
        is_inside(s),
    ensures
        after(s, json_string(x)) == s,
{
    let within = Braces { in_string: true, ..s };
    lemma_after_one(s, '"');
    lemma_escaped(within, x);
    lemma_after_one(within, '"');
    lemma_after_two(s, seq!['"'], json_escaped(x));
    lemma_after_two(s, seq!['"'] + json_escaped(x), seq!['"']);
    assert(braced(within, '"') =~= s);
}

proof fn lemma_digits(t: Tree, depth: nat, pad: Seq<char>, pretty: bool, step: nat)
    requires
        is_spelled(t, depth),
        t is Int || t is BigInt,
    ensures
        is_quiet(json_emitted(t, pad, pretty, step).0),
{
    let s = json_emitted(t, pad, pretty, step).0;
    match t {
        Tree::Int(n) => {
            if n < 0 {
                lemma_decimal_value((-n) as nat);
            } else {
                lemma_decimal_value(n as nat);
            }
        },
        _ => {},
    }
    let body = if s.len() > 0 && s[0] == '-' {
        s.subrange(1, s.len() as int)
    } else {
        s
    };
    assert(all_digits(body));
    assert forall|i: int| 0 <= i < s.len() implies (#[trigger] s[i]) != '"' && s[i] != '{' && s[i]
        != '}' by {
        if s[0] == '-' {
            if i > 0 {
                assert(is_digit(body[i - 1]));
            }
        } else {
            assert(is_digit(body[i]));
        }
    }
}

/// The text of a value leaves the search where it was.
proof fn lemma_value(s: Braces, t: Tree, depth: nat, pad: Seq<char>, pretty: bool, step: nat)
    requires
        is_inside(s),
        is_spelled(t, depth),
        is_quiet(pad),
    ensures
        after(s, json_emitted(t, pad, pretty, step).0) == s,
    decreases t, 1int,
{
    reveal_strlit("null");
    reveal_strlit("true");
    reveal_strlit("false");
    reveal_strlit("[]");
    reveal_strlit("{}");
    let w = json_emitted(t, pad, pretty, step).0;
    let inner = pad + spaces(step);
    match t {
        Tree::Null | Tree::Bool(_) => {
            assert(is_quiet(w));
            lemma_quiet(s, w);
        },
        Tree::Int(_) | Tree::BigInt(_) => {
            lemma_digits(t, depth, pad, pretty, step);
            lemma_quiet(s, w);
        },
        Tree::String(x) => {
            lemma_string(s, x);
        },
        Tree::Array(items) => {
            if items.len() == 0 {
                assert(is_quiet(w));
                lemma_quiet(s, w);
            } else {
                let body = json_items(items, items.len(), inner, pretty, step).0;
                let end = line_break(pad, pretty) + seq![']'];
                lemma_items_whole(items, items.len(), (depth - 1) as nat, inner, pretty, step);
                lemma_items(s, items, items.len(), (depth - 1) as nat, inner, pretty, step);
                assert(is_quiet(end));
                assert(is_quiet(seq!['[']));
                lemma_quiet(s, seq!['[']);
                lemma_quiet(s, end);
                lemma_after_two(s, seq!['['], body);
                lemma_after_two(s, seq!['['] + body, end);
                assert(w =~= seq!['['] + body + end);
            }
        },
        Tree::Object(entries) => {
            let deeper = Braces { depth: s.depth + 1, ..s };
            lemma_after_one(s, '{');
            lemma_after_one(deeper, '}');
            assert(braced(deeper, '}') =~= s);
            if entries.len() == 0 {
                assert(w =~= seq!['{'] + seq!['}']);
                lemma_after_two(s, seq!['{'], seq!['}']);
            } else {
                lemma_object_body(deeper, entries, depth, pad, pretty, step);
                let body = json_members(entries, entries.len(), inner, pretty, step).0 + line_break(
                    pad,
                    pretty,
                );
                assert(w =~= seq!['{'] + body + seq!['}']);
                lemma_after_two(s, seq!['{'], body);
                lemma_after_two(s, seq!['{'] + body, seq!['}']);
            }
        },
        _ => {},
    }
}

/// What stands between the braces of an object leaves the search where it was.
proof fn lemma_object_body(
    s: Braces,
    entries: Seq<(Seq<char>, Tree)>,
    depth: nat,
    pad: Seq<char>,
    pretty: bool,
    step: nat,
)
    requires
        is_inside(s),
        is_spelled(Tree::Object(entries), depth),
        is_quiet(pad),
    ensures
        json_members(entries, entries.len(), pad + spaces(step), pretty, step).1,
        after(
            s,
            json_members(entries, entries.len(), pad + spaces(step), pretty, step).0 + line_break(
                pad,
                pretty,
            ),
        ) == s,
    decreases Tree::Object(entries), 0int,
{
    let t = Tree::Object(entries);
    assert(t->Object_0 == entries);
    assert(decreases_to!(t => t->Object_0));
    let inner = pad + spaces(step);
    let body = json_members(entries, entries.len(), inner, pretty, step).0;
    lemma_members_whole(entries, entries.len(), (depth - 1) as nat, inner, pretty, step);
    lemma_members(s, entries, entries.len(), (depth - 1) as nat, inner, pretty, step);
    assert(is_quiet(line_break(pad, pretty)));
    lemma_quiet(s, line_break(pad, pretty));
    lemma_after_two(s, body, line_break(pad, pretty));
}

proof fn lemma_items(
    s: Braces,
    items: Seq<Tree>,
    k: nat,
    depth: nat,
    pad: Seq<char>,
    pretty: bool,
    step: nat,
)
    requires
        is_inside(s),
        k <= items.len(),
        forall|i: int| 0 <= i < items.len() ==> is_spelled(#[trigger] items[i], depth),
        is_quiet(pad),
    ensures
        after(s, json_items(items, k, pad, pretty, step).0) == s,
    decreases items, k as int,
{
    if k > 0 {
        let j = (k - 1) as nat;
        let before = json_items(items, j, pad, pretty, step).0;
        let item = json_emitted(items[k - 1], pad, pretty, step).0;
        lemma_items_whole(items, j, depth, pad, pretty, step);
        lemma_items(s, items, j, depth, pad, pretty, step);
        assert(decreases_to!(items => items[k - 1]));
        lemma_value(s, items[k - 1], depth, pad, pretty, step);
        assert(is_quiet(separator(j, pad, pretty)));
        lemma_quiet(s, separator(j, pad, pretty));
        lemma_after_two(s, before, separator(j, pad, pretty));
        lemma_after_two(s, before + separator(j, pad, pretty), item);
    }
}

proof fn lemma_members(
    s: Braces,
    entries: Seq<(Seq<char>, Tree)>,
    k: nat,
    depth: nat,
    pad: Seq<char>,
    pretty: bool,
    step: nat,
)
    requires
        is_inside(s),
        k <= entries.len(),
        forall|i: int| 0 <= i < entries.len() ==> is_spelled((#[trigger] entries[i]).1, depth),
        is_quiet(pad),
    ensures
        after(s, json_members(entries, k, pad, pretty, step).0) == s,
    decreases entries, k as int,
{
    if k > 0 {
        let j = (k - 1) as nat;
        let before = json_members(entries, j, pad, pretty, step).0;
        let key = json_string(entries[k - 1].0);
        let item = json_emitted(entries[k - 1].1, pad, pretty, step).0;
        lemma_members_whole(entries, j, depth, pad, pretty, step);
        lemma_members(s, entries, j, depth, pad, pretty, step);
        assert(decreases_to!(entries => entries[k - 1]));
        assert(decreases_to!(entries[k - 1] => entries[k - 1].1));
        lemma_value(s, entries[k - 1].1, depth, pad, pretty, step);
        lemma_string(s, entries[k - 1].0);
        assert(is_quiet(separator(j, pad, pretty)));
        assert(is_quiet(colon(pretty)));
        lemma_quiet(s, separator(j, pad, pretty));
        lemma_quiet(s, colon(pretty));
        lemma_after_two(s, before, separator(j, pad, pretty));
        lemma_after_two(s, before + separator(j, pad, pretty), key);
        lemma_after_two(s, before + separator(j, pad, pretty) + key, colon(pretty));
        lemma_after_two(s, before + separator(j, pad, pretty) + key + colon(pretty), item);
    }
}

// ---------------------------------------------------------------------------
// In the bytes
// ---------------------------------------------------------------------------

/// The search through the bytes from `k` on, in a state that was reached.
spec fn found_from(bytes: Seq<u8>, k: int, s: Braces) -> Option<int> {
    closing_brace(bytes, k, bytes.len() as int, s.depth, s.in_string, s.escaped)
}

/// Bytes beyond ASCII leave the search where it was, behind an escape.
proof fn lemma_wide_bytes(bytes: Seq<u8>, k: int, n: int, s: Braces)
    requires
        0 <= k <= k + n <= bytes.len(),
        forall|i: int| k <= i < k + n ==> (#[trigger] bytes[i]) >= 0x80,
        !s.escaped,
    ensures
        found_from(bytes, k, s) == found_from(bytes, k + n, s),
    decreases n,
{
    if n > 0 {
        assert(bytes[k] >= 0x80);
        lemma_wide_bytes(bytes, k + 1, n - 1, s);
    }
}

/// One character moves the search through its bytes as it moves the search.
proof fn lemma_char_found(bytes: Seq<u8>, k: int, c: char, s: Braces)
    requires
        0 <= k,
        k + encode_utf8(seq![c]).len() <= bytes.len(),
        forall|i: int|
            0 <= i < encode_utf8(seq![c]).len() ==> bytes[k + i] == #[trigger] encode_utf8(
                seq![c],
            )[i],
        !s.closed,
        !braced(s, c).closed,
    ensures
        found_from(bytes, k, s) == found_from(bytes, k + encode_utf8(seq![c]).len(), braced(s, c)),
{
    let w = seq![c];
    let b = encode_utf8(w);
    if (c as u32) < 0x80 {
        assert(is_ascii_chars(w));
        is_ascii_chars_encode_utf8(w);
        assert(b.len() == 1 && b[0] == c as u8);
        assert(bytes[k + 0] == b[0]);
    } else {
        lemma_wide_char(c);
        vstd::utf8::encode_utf8_first_scalar(w);
        assert(b.len() > 0);
        assert(bytes[k + 0] == b[0] && b[0] >= 0x80);
        assert forall|i: int| k + 1 <= i < k + b.len() implies (#[trigger] bytes[i]) >= 0x80 by {
            assert(bytes[k + (i - k)] == b[i - k]);
        }
        lemma_wide_bytes(bytes, k + 1, b.len() - 1, braced(s, c));
    }
}

proof fn lemma_text_found(w: Seq<char>, i: int)
    requires
        0 <= i <= w.len(),
        !after(start(), w.subrange(0, i)).closed,
    ensures
        found_from(encode_utf8(w), 0, start()) == found_from(
            encode_utf8(w),
            encode_utf8(w.subrange(0, i)).len() as int,
            after(start(), w.subrange(0, i)),
        ),
    decreases i,
{
    let bytes = encode_utf8(w);
    let front = w.subrange(0, i);
    if i == 0 {
        assert(front =~= Seq::<char>::empty());
        assert(encode_utf8(front) =~= Seq::<u8>::empty());
    } else {
        let before = w.subrange(0, i - 1);
        let c = w[i - 1];
        let tail = w.subrange(i, w.len() as int);
        let k = encode_utf8(before).len() as int;
        assert(front.drop_last() =~= before);
        assert(front =~= before + seq![c]);
        assert(w =~= before + (seq![c] + tail));
        if after(start(), before).closed {
            lemma_stays_closed(after(start(), before), seq![c]);
        }
        lemma_text_found(w, i - 1);
        lemma_encode_two(before, seq![c] + tail);
        lemma_encode_two(seq![c], tail);
        lemma_encode_two(before, seq![c]);
        assert forall|j: int| 0 <= j < encode_utf8(seq![c]).len() implies bytes[k + j]
            == #[trigger] encode_utf8(seq![c])[j] by {
            assert(bytes[k + j] == encode_utf8(seq![c] + tail)[j]);
        }
        lemma_char_found(bytes, k, c, after(start(), before));
    }
}

/// The search before the first character.
spec fn start() -> Braces {
    Braces { depth: 0, in_string: false, escaped: false, closed: false }
}

/// In the text of an object, the brace that closes the first one is the last
/// byte.
pub proof fn lemma_object_closes(bytes: Seq<u8>, t: Tree)
    requires
        spells(bytes, t),
        t is Object,
    ensures
        bytes.len() > 0,
        bytes[0] == 123u8,
        closing_brace(bytes, 0, bytes.len() as int, 0, false, false) == Some(bytes.len() - 1),
{
    let (pretty, step) = choose|pretty: bool, step: nat|
        bytes == encode_utf8(#[trigger] spelling(t, pretty, step));
    let w = spelling(t, pretty, step);
    let entries = t->Object_0;
    let pad = Seq::<char>::empty();
    let open = Braces { depth: 1, in_string: false, escaped: false, closed: false };
    reveal_strlit("{}");
    lemma_object_body(open, entries, readable_depth(), pad, pretty, step);
    let body = if entries.len() == 0 {
        Seq::empty()
    } else {
        json_members(entries, entries.len(), pad + spaces(step), pretty, step).0 + line_break(
            pad,
            pretty,
        )
    };
    let front = seq!['{'] + body;
    assert(w =~= front + seq!['}']);
    lemma_after_one(start(), '{');
    lemma_after_two(start(), seq!['{'], body);
    assert(braced(start(), '{') =~= open);
    assert(after(start(), front) == open);
    let n = w.len() - 1;
    assert(w.subrange(0, n) =~= front);
    lemma_text_found(w, n);
    lemma_encode_two(front, seq!['}']);
    lemma_encode_two(seq!['{'], body);
    assert(is_ascii_chars(seq!['}']));
    assert(is_ascii_chars(seq!['{']));
    is_ascii_chars_encode_utf8(seq!['}']);
    is_ascii_chars_encode_utf8(seq!['{']);
    let k = encode_utf8(front).len() as int;
    assert(encode_utf8(seq!['}']) =~= seq![125u8]);
    assert(encode_utf8(seq!['{']) =~= seq![123u8]);
    assert(bytes =~= encode_utf8(front) + seq![125u8]);
    assert(bytes[k] == 125u8);
    assert(bytes[0] == encode_utf8(front)[0]);
}

} // verus!
