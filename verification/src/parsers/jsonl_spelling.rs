//! The texts that spell values line by line.

use crate::numbers::{all_digits, is_digit, lemma_decimal_value};
use crate::parsers::json_spelling::{
    is_spelled, law_written_bytes_spell_the_value, lemma_first_char, readable_depth, spells,
};
use crate::parsers::json_write::{
    json_compact, json_emitted, json_escaped, json_items, json_members, spaces,
};
use crate::text::{find_from, is_white, lemma_find_from, split_on, trim, trim_end_of};
use crate::value::Tree;
use vstd::prelude::*;
use vstd::utf8::encode_utf8;

verus! {

/// The text of values, each on a line of its own.
pub open spec fn lines_text(items: Seq<Tree>) -> Seq<char>
    decreases items.len(),
{
    if items.len() == 0 {
        Seq::empty()
    } else {
        json_compact(items[0]).0 + seq!['\n'] + lines_text(items.drop_first())
    }
}

/// Whether a text spells values line by line.
pub open spec fn spells_lines(text: Seq<char>, items: Seq<Tree>) -> bool {
    &&& text == lines_text(items)
    &&& forall|i: int| 0 <= i < items.len() ==> is_spelled(#[trigger] items[i], readable_depth())
}

/// Whether bytes spell values line by line.
pub open spec fn spells_json_lines(bytes: Seq<u8>, items: Seq<Tree>) -> bool {
    bytes == encode_utf8(lines_text(items)) && spells_lines(lines_text(items), items)
}

/// Whether a text holds no line break.
spec fn on_one_line(s: Seq<char>) -> bool {
    forall|i: int| 0 <= i < s.len() ==> (#[trigger] s[i]) != '\n'
}

proof fn lemma_escaped_line(s: Seq<char>)
    ensures
        on_one_line(json_escaped(s)),
    decreases s.len(),
{
    if s.len() > 0 {
        lemma_escaped_line(s.drop_last());
    }
}

proof fn lemma_digits_line(t: Tree, depth: nat)
    requires
        is_spelled(t, depth),
        t is Int || t is BigInt,
    ensures
        ({
            let s = json_emitted(t, Seq::empty(), false, 0).0;
            &&& on_one_line(s)
            &&& s.len() > 0
            &&& is_digit(s.last())
        }),
{
    let s = json_emitted(t, Seq::empty(), false, 0).0;
    match t {
        Tree::Int(n) => {
            if n < 0 {
                lemma_decimal_value((-n) as nat);
            } else {
                lemma_decimal_value(n as nat);
            }
        },
        _ => {},
    }
    let body = if s[0] == '-' {
        s.subrange(1, s.len() as int)
    } else {
        s
    };
    assert(all_digits(body));
    assert(is_digit(body.last()));
    assert forall|i: int| 0 <= i < s.len() implies (#[trigger] s[i]) != '\n' by {
        if s[0] == '-' {
            if i > 0 {
                assert(is_digit(body[i - 1]));
            }
        } else {
            assert(is_digit(body[i]));
        }
    }
}

/// A compact text stands on one line.
proof fn lemma_value_line(t: Tree, depth: nat, pad: Seq<char>, step: nat)
    requires
        is_spelled(t, depth),
    ensures
        on_one_line(json_emitted(t, pad, false, step).0),
    decreases t, 0int,
{
    reveal_strlit("null");
    reveal_strlit("true");
    reveal_strlit("false");
    reveal_strlit("[]");
    reveal_strlit("{}");
    match t {
        Tree::Int(_) | Tree::BigInt(_) => {
            lemma_digits_line(t, depth);
        },
        Tree::String(s) => {
            lemma_escaped_line(s);
        },
        Tree::Array(items) => {
            lemma_items_line(items, items.len(), (depth - 1) as nat, pad + spaces(step), step);
        },
        Tree::Object(entries) => {
            lemma_members_line(entries, entries.len(), (depth - 1) as nat, pad + spaces(step), step);
        },
        _ => {},
    }
}

proof fn lemma_items_line(items: Seq<Tree>, k: nat, depth: nat, pad: Seq<char>, step: nat)
    requires
        k <= items.len(),
        forall|i: int| 0 <= i < items.len() ==> is_spelled(#[trigger] items[i], depth),
    ensures
        on_one_line(json_items(items, k, pad, false, step).0),
    decreases items, k,
{
    if k > 0 {
        lemma_items_line(items, (k - 1) as nat, depth, pad, step);
        assert(decreases_to!(items => items[k - 1]));
        lemma_value_line(items[k - 1], depth, pad, step);
    }
}

proof fn lemma_members_line(
    entries: Seq<(Seq<char>, Tree)>,
    k: nat,
    depth: nat,
    pad: Seq<char>,
    step: nat,
)
    requires
        k <= entries.len(),
        forall|i: int| 0 <= i < entries.len() ==> is_spelled((#[trigger] entries[i]).1, depth),
    ensures
        on_one_line(json_members(entries, k, pad, false, step).0),
    decreases entries, k,
{
    if k > 0 {
        lemma_members_line(entries, (k - 1) as nat, depth, pad, step);
        assert(decreases_to!(entries => entries[k - 1]));
        assert(decreases_to!(entries[k - 1] => entries[k - 1].1));
        lemma_value_line(entries[k - 1].1, depth, pad, step);
        lemma_escaped_line(entries[k - 1].0);
    }
}

/// A compact text neither starts nor ends with white space.
proof fn lemma_line_ends(t: Tree)
    requires
        is_spelled(t, readable_depth()),
    ensures
        ({
            let s = json_compact(t).0;
            &&& trim_end_of(s, '\r') == s
            &&& trim(s).len() > 0
            &&& spells(encode_utf8(s), t)
        }),
{
    let s = json_compact(t).0;
    law_written_bytes_spell_the_value(t, false, 2);
    lemma_first_char(t, readable_depth(), Seq::empty(), false, 2);
    reveal_strlit("null");
    reveal_strlit("true");
    reveal_strlit("false");
    reveal_strlit("[]");
    reveal_strlit("{}");
    assert(!is_white(s.last())) by {
        match t {
            Tree::Int(_) | Tree::BigInt(_) => {
                lemma_digits_line(t, readable_depth());
            },
            Tree::String(x) => {
                assert(s.last() == '"');
            },
            Tree::Array(items) => {
                assert(s.last() == ']');
            },
            Tree::Object(entries) => {
                assert(s.last() == '}');
            },
            _ => {},
        }
    }
    assert(!is_white(s[0]));
}

proof fn lemma_first_line(line: Seq<char>, rest: Seq<char>)
    requires
        on_one_line(line),
    ensures
        split_on(line + seq!['\n'] + rest, '\n') == seq![line] + split_on(rest, '\n'),
{
    let s = line + seq!['\n'] + rest;
    lemma_find_from(s, '\n', 0);
    let end = find_from(s, '\n', 0);
    assert(s[line.len() as int] == '\n');
    assert(end == line.len()) by {
        if end < line.len() {
            assert(s[end] == line[end]);
        }
    }
    assert(s.subrange(0, end) =~= line);
    assert(s.subrange(end + 1, s.len() as int) =~= rest);
}

/// The lines of a text that spells values are their texts, and an empty one.
pub proof fn lemma_lines(text: Seq<char>, items: Seq<Tree>)
    requires
        spells_lines(text, items),
    ensures
        split_on(text, '\n').len() == items.len() + 1,
        split_on(text, '\n').last().len() == 0,
        forall|i: int|
            0 <= i < items.len() ==> #[trigger] split_on(text, '\n')[i] == json_compact(items[i]).0,
    decreases items.len(),
{
    if items.len() == 0 {
        lemma_find_from(text, '\n', 0);
    } else {
        let line = json_compact(items[0]).0;
        let rest = items.drop_first();
        lemma_value_line(items[0], readable_depth(), Seq::empty(), 2);
        lemma_first_line(line, lines_text(rest));
        assert forall|i: int| 0 <= i < rest.len() implies is_spelled(
            #[trigger] rest[i],
            readable_depth(),
        ) by {
            assert(rest[i] == items[i + 1]);
        }
        lemma_lines(lines_text(rest), rest);
        let all = split_on(text, '\n');
        let others = split_on(lines_text(rest), '\n');
        assert forall|i: int| 0 <= i < items.len() implies #[trigger] all[i] == json_compact(
            items[i],
        ).0 by {
            if i > 0 {
                assert(all[i] == others[i - 1]);
                assert(rest[i - 1] == items[i]);
            }
        }
    }
}

/// A line of a text that spells values spells its value, and is not blank.
pub proof fn lemma_line(text: Seq<char>, items: Seq<Tree>, i: int)
    requires
        spells_lines(text, items),
        0 <= i <= items.len(),
    ensures
        ({
            let line = trim_end_of(split_on(text, '\n')[i], '\r');
            if i < items.len() {
                trim(line).len() > 0 && spells(encode_utf8(line), items[i])
            } else {
                trim(line).len() == 0
            }
        }),
{
    lemma_lines(text, items);
    if i < items.len() {
        lemma_line_ends(items[i]);
    }
}

} // verus!
