//! How the lines of a `.env` file are read.

use crate::error::Fault;
use crate::parsers::dotenv::{
    comment_start, double_quoted, env_entries, env_line, env_unescaped, env_value, EnvLine,
};
use crate::table_laws::{holds_no_pattern, line_content};
use crate::text::{find_from, has_prefix, is_white, trim, trim_end, trim_start};
use crate::text_laws::{law_found_is_the_first, lemma_trim_end, lemma_trim_start};
use crate::value::{
    law_insert_keeps_keys_unique, law_insert_lookup, lemma_key_index_is, lookup, unique_keys, Tree,
};
use crate::yaml_scalar_laws::put_first;
use vstd::prelude::*;

verus! {

/// Whether a text is white space.
pub open spec fn is_all_white(s: Seq<char>) -> bool {
    forall|i: int| 0 <= i < s.len() ==> is_white(#[trigger] s[i])
}

proof fn lemma_front_trimmed(pad: Seq<char>, body: Seq<char>)
    requires
        is_all_white(pad),
        body.len() > 0 ==> !is_white(body[0]),
    ensures
        trim_start(pad + body) == body,
{
    let s = pad + body;
    let a = lemma_trim_start(s);
    if a < pad.len() {
        assert(s[a] == pad[a]);
    } else if a > pad.len() {
        assert(s[pad.len() as int] == body[0]);
    }
    assert(s.subrange(pad.len() as int, s.len() as int) =~= body);
}

proof fn lemma_back_trimmed(body: Seq<char>, pad: Seq<char>)
    requires
        is_all_white(pad),
        body.len() > 0 ==> !is_white(body.last()),
    ensures
        trim_end(body + pad) == body,
{
    let s = body + pad;
    let b = lemma_trim_end(s);
    if b > body.len() {
        assert(s[b - 1] == pad[b - 1 - body.len()]);
    } else if b < body.len() {
        assert(s[body.len() - 1] == body.last());
    }
    assert(s.subrange(0, body.len() as int) =~= body);
}

/// A line holds nothing exactly if it is blank or a comment.
pub proof fn law_comments_hold_nothing(line: Seq<char>)
    ensures
        env_line(line) is Nothing <==> holds_no_pattern(line),
{
    let a = lemma_trim_start(line);
    let t = trim_start(line);
    assert(!is_white('#'));
    if t.len() == 0 {
        assert(forall|i: int| 0 <= i < line.len() ==> is_white(#[trigger] line[i]));
    } else {
        assert(t[0] == line[a]);
        if t[0] == '#' {
            assert(line[a] == '#');
            assert(holds_no_pattern(line));
        } else if holds_no_pattern(line) {
            if forall|i: int| 0 <= i < line.len() ==> is_white(#[trigger] line[i]) {
                assert(is_white(line[a]));
            } else {
                let i = choose|i: int|
                    0 <= i < line.len() && #[trigger] line[i] == '#' && forall|j: int|
                        0 <= j < i ==> is_white(#[trigger] line[j]);
                assert(i <= a);
                assert(i >= a);
            }
        }
    }
}

/// Whether a text can be a key: it has no white space at its ends, does not start
/// like a comment, and holds no equals sign.
pub open spec fn is_assigned_key(key: Seq<char>) -> bool {
    &&& key.len() > 0 && key[0] != '#' && !is_white(key[0]) && !is_white(key.last())
    &&& forall|i: int| 0 <= i < key.len() ==> #[trigger] key[i] != '='
}

/// A line that assigns gives its key what stands behind the equals sign, whatever
/// white space stands around the key, and whether or not it is exported.
pub proof fn law_assignment_is_read(
    pad: Seq<char>,
    export: Option<Seq<char>>,
    key: Seq<char>,
    gap: Seq<char>,
    raw: Seq<char>,
)
    requires
        is_all_white(pad),
        is_all_white(gap),
        is_assigned_key(key),
        match export {
            Some(more) => is_all_white(more),
            None => !has_prefix(key + gap + seq!['='] + raw, "export "@),
        },
    ensures
        env_line(
            pad + (match export {
                Some(more) => seq!['e', 'x', 'p', 'o', 'r', 't', ' '] + more,
                None => Seq::empty(),
            }) + (key + gap + seq!['='] + raw),
        ) == (match env_value(raw) {
            Ok(value) => EnvLine::Entry(key, value),
            Err(message) => EnvLine::Mistake(message),
        }),
{
    reveal_strlit("export ");
    let body = key + gap + seq!['='] + raw;
    let word = seq!['e', 'x', 'p', 'o', 'r', 't', ' '];
    assert(word =~= "export "@);
    assert(body[0] == key[0]);
    let front = match export {
        Some(more) => word + more,
        None => Seq::empty(),
    };
    let line = pad + front + body;
    assert(line =~= pad + (front + body));
    let shown = front + body;
    match export {
        Some(more) => {
            assert(shown[0] == 'e');
            assert(!is_white('e'));
            lemma_front_trimmed(pad, shown);
            assert(shown.subrange(0, 7) =~= word);
            assert(has_prefix(shown, "export "@));
            assert(shown.subrange(7, shown.len() as int) =~= more + body);
            lemma_front_trimmed(more, body);
        },
        None => {
            assert(shown =~= body);
            lemma_front_trimmed(pad, body);
        },
    }
    let at = (key + gap).len() as int;
    law_found_is_the_first(body, '=', 0);
    let eq = find_from(body, '=', 0);
    assert(body[at] == '=');
    if eq < at {
        if eq < key.len() {
            assert(body[eq] == key[eq]);
        } else {
            assert(body[eq] == gap[eq - key.len()]);
            assert(!is_white('='));
        }
    }
    assert(eq == at);
    assert(body.subrange(0, eq) =~= key + gap);
    assert(body.subrange(eq + 1, body.len() as int) =~= raw);
    assert(trim_start(key + gap) == key + gap) by {
        assert((key + gap)[0] == key[0]);
        assert(Seq::<char>::empty() + (key + gap) =~= key + gap);
        lemma_front_trimmed(Seq::empty(), key + gap);
    }
    lemma_back_trimmed(key, gap);
    assert(trim(key + gap) == key);
}

/// A line without an equals sign, and one without a key before it, are mistakes.
pub proof fn law_line_without_assignment_is_a_mistake(line: Seq<char>)
    requires
        !holds_no_pattern(line),
        forall|i: int| 0 <= i < line.len() ==> #[trigger] line[i] != '=',
    ensures
        env_line(line) is Mistake,
{
    law_comments_hold_nothing(line);
    let a = lemma_trim_start(line);
    let t = trim_start(line);
    let body = if has_prefix(t, "export "@) {
        trim_start(t.subrange("export "@.len() as int, t.len() as int))
    } else {
        t
    };
    assert forall|i: int| 0 <= i < t.len() implies #[trigger] t[i] != '=' by {
        assert(t[i] == line[a + i]);
    }
    if has_prefix(t, "export "@) {
        let n = "export "@.len() as int;
        let tail = t.subrange(n, t.len() as int);
        let b = lemma_trim_start(tail);
        assert forall|i: int| 0 <= i < body.len() implies #[trigger] body[i] != '=' by {
            assert(body[i] == tail[b + i]);
            assert(tail[b + i] == t[n + b + i]);
        }
    }
    law_found_is_the_first(body, '=', 0);
}

/// Whether a hash in a text starts a comment: it is first, or behind white space.
pub open spec fn starts_comment(s: Seq<char>, i: int) -> bool {
    s[i] == '#' && (i == 0 || is_white(s[i - 1]))
}

proof fn lemma_comment_at(s: Seq<char>, k: int, at: int)
    requires
        0 <= k <= at <= s.len(),
        forall|i: int| k <= i < at ==> !#[trigger] starts_comment(s, i),
        at < s.len() ==> starts_comment(s, at),
    ensures
        comment_start(s, k) == at,
    decreases at - k,
{
    if k < at {
        assert(!starts_comment(s, k));
        lemma_comment_at(s, k + 1, at);
    }
}

/// A value without quotes is what stands there, up to a comment, without the
/// white space around it.
pub proof fn law_plain_value_is_read(
    pad: Seq<char>,
    text: Seq<char>,
    gap: Seq<char>,
    comment: Option<Seq<char>>,
)
    requires
        is_all_white(pad),
        is_all_white(gap),
        text.len() > 0 && text[0] != '"' && text[0] != '\'',
        !is_white(text[0]) && !is_white(text.last()),
        forall|i: int| 0 <= i < text.len() ==> !#[trigger] starts_comment(text, i),
        comment is Some ==> gap.len() > 0,
    ensures
        env_value(
            pad + (text + gap + (match comment {
                Some(rest) => seq!['#'] + rest,
                None => Seq::empty(),
            })),
        ) == Ok::<Seq<char>, Seq<char>>(text),
{
    let tail = match comment {
        Some(rest) => seq!['#'] + rest,
        None => Seq::empty(),
    };
    let s = text + gap + tail;
    assert(s[0] == text[0]);
    lemma_front_trimmed(pad, s);
    let at = (text + gap).len() as int;
    assert(!is_white('#'));
    assert forall|i: int| 0 <= i < at implies !#[trigger] starts_comment(s, i) by {
        if i < text.len() {
            assert(s[i] == text[i]);
            if i > 0 {
                assert(s[i - 1] == text[i - 1]);
            }
            assert(!starts_comment(text, i));
        } else {
            assert(s[i] == gap[i - text.len()]);
        }
    }
    if at < s.len() {
        assert(s[at] == '#');
        assert(s[at - 1] == gap[gap.len() - 1]);
        assert(starts_comment(s, at));
    }
    lemma_comment_at(s, 0, at);
    assert(s.subrange(0, at) =~= text + gap);
    lemma_back_trimmed(text, gap);
}

/// A value in single quotes is what stands between them, as it is, whatever
/// stands behind them.
pub proof fn law_single_quoted_value_is_read(pad: Seq<char>, text: Seq<char>, rest: Seq<char>)
    requires
        is_all_white(pad),
        forall|i: int| 0 <= i < text.len() ==> #[trigger] text[i] != '\'',
    ensures
        env_value(pad + (seq!['\''] + text + seq!['\''] + rest)) == Ok::<Seq<char>, Seq<char>>(
            text,
        ),
{
    let s = seq!['\''] + text + seq!['\''] + rest;
    assert(s[0] == '\'');
    assert(!is_white('\''));
    lemma_front_trimmed(pad, s);
    let t = s.subrange(1, s.len() as int);
    assert(t =~= text + seq!['\''] + rest);
    law_found_is_the_first(t, '\'', 0);
    let end = find_from(t, '\'', 0);
    assert(t[text.len() as int] == '\'');
    if end < text.len() {
        assert(t[end] == text[end]);
    }
    assert(t.subrange(0, end) =~= text);
}

/// A value in double quotes ends at the next quote, whatever stands behind it.
/// Before it every character stands for itself, but for the backslash: with a
/// letter behind it, it stands for a line end, a carriage return or a tab, with a
/// quote or a backslash for that character, and with any other for the two.
pub proof fn law_double_quoted_value_is_read(pad: Seq<char>, s: Seq<char>, c: char)
    requires
        is_all_white(pad),
    ensures
        env_value(pad + (seq!['"'] + s)) is Ok <==> double_quoted(s) is Some,
        double_quoted(s) matches Some(text) ==> env_value(pad + (seq!['"'] + s)) == Ok::<
            Seq<char>,
            Seq<char>,
        >(text),
        double_quoted(Seq::<char>::empty()) is None,
        double_quoted(seq!['"'] + s) == Some(Seq::<char>::empty()),
        c != '"' && c != '\\' ==> double_quoted(seq![c] + s) == put_first(c, double_quoted(s)),
        ({
            let read = double_quoted(seq!['\\', c] + s);
            if c == 'n' {
                read == put_first('\n', double_quoted(s))
            } else if c == 'r' {
                read == put_first('\r', double_quoted(s))
            } else if c == 't' {
                read == put_first('\t', double_quoted(s))
            } else if c == '"' || c == '\\' {
                read == put_first(c, double_quoted(s))
            } else {
                read == put_first('\\', put_first(c, double_quoted(s)))
            }
        }),
{
    let q = seq!['"'] + s;
    assert(q[0] == '"');
    assert(!is_white('"'));
    lemma_front_trimmed(pad, q);
    assert(q.subrange(1, q.len() as int) =~= s);
    let one = seq![c] + s;
    assert(one[0] == c);
    assert(one.subrange(1, one.len() as int) =~= s);
    let two = seq!['\\', c] + s;
    assert(two[0] == '\\' && two[1] == c);
    assert(two.subrange(2, two.len() as int) =~= s);
    if let Some(rest) = double_quoted(s) {
        if c != 'n' && c != 'r' && c != 't' && c != '"' && c != '\\' {
            assert(env_unescaped(c) + rest =~= seq!['\\'] + (seq![c] + rest));
        } else {
            assert(env_unescaped(c).len() == 1);
        }
    }
}

/// What the last of the first `k` lines that assigns a key gives it.
pub open spec fn last_assigned(lines: Seq<Seq<char>>, k: int, key: Seq<char>) -> Option<Seq<char>>
    decreases k,
{
    if k <= 0 {
        None
    } else {
        match env_line(line_content(lines[k - 1])) {
            EnvLine::Entry(name, value) => if name == key {
                Some(value)
            } else {
                last_assigned(lines, k - 1, key)
            },
            _ => last_assigned(lines, k - 1, key),
        }
    }
}

/// A key has what the last line that assigns it gives it, and no other key is
/// there. Reading stops at the first mistake, and says on which line it is.
pub proof fn law_last_assignment_counts(lines: Seq<Seq<char>>, k: int, key: Seq<char>)
    requires
        0 <= k <= lines.len(),
    ensures
        match env_entries(lines, k) {
            Ok(entries) => {
                &&& unique_keys(entries)
                &&& lookup(entries, key) == (match last_assigned(lines, k, key) {
                    Some(value) => Some(Tree::String(value)),
                    None => None,
                })
                &&& forall|i: int|
                    0 <= i < k ==> !(env_line(line_content(#[trigger] lines[i])) is Mistake)
            },
            Err(f) => exists|i: int|
                {
                    &&& 0 <= i < k
                    &&& env_line(line_content(#[trigger] lines[i])) matches EnvLine::Mistake(why)
                    &&& f matches Fault::Parse { line, snippet, message, .. }
                    &&& line == (i + 1) % 0x1_0000_0000
                    &&& snippet == line_content(lines[i])
                    &&& message == why
                    &&& forall|j: int|
                        0 <= j < i ==> !(env_line(line_content(#[trigger] lines[j])) is Mistake)
                },
        },
    decreases k,
{
    if k > 0 {
        law_last_assignment_counts(lines, k - 1, key);
        if let Ok(before) = env_entries(lines, k - 1) {
            match env_line(line_content(lines[k - 1])) {
                EnvLine::Entry(name, value) => {
                    law_insert_lookup(before, name, Tree::String(value), key);
                    law_insert_keeps_keys_unique(before, name, Tree::String(value));
                },
                EnvLine::Mistake(why) => {
                    assert(env_line(line_content(lines[k - 1])) is Mistake);
                },
                EnvLine::Nothing => {},
            }
        }
    } else {
        lemma_key_index_is(env_entries(lines, k)->Ok_0, key, 0);
    }
}

} // verus!
