//! `.env` files: one `KEY=VALUE` per line.
//!
//! A line may start with `export`. A value in double quotes knows the escapes
//! `\\`, `\"`, `\n`, `\t` and `\r`; one in single quotes is taken as it is; one
//! without quotes ends at a `#` behind white space. Nothing is interpolated.

use crate::bytes::append_text;
use crate::document::{bare, DocModel, Document};
use crate::error::{format_fault, unplaced_parse, unplaced_parse_error, Error, Fault};
use crate::format::{emitted, extension_list, Emission, Format};
use crate::format_tag::FormatTag;
use crate::text::{
    chars_of, copy_between, find_char, find_from, has_prefix, is_control, is_white, joined, split_chars,
    split_on, starts_with_chars, text_between, text_of, trim, trim_chars, trim_end, trim_end_chars,
    trim_end_of, trim_end_of_chars, trim_start, trim_start_chars, white,
};
use crate::utf8_text::{checked_text, utf8_fault_text};
use crate::value::{
    inserted, lemma_object_view, scalar_text_of, type_label_of, Tree, Value, ValueMap,
};
use crate::write_options::WriteOptions;
use vstd::prelude::*;
use vstd::utf8::{decode_utf8, encode_utf8, valid_utf8};

verus! {

/// `.env` format implementation.
#[derive(Debug, Clone, Copy)]
pub struct DotEnv;

// ---------------------------------------------------------------------------
// Values
// ---------------------------------------------------------------------------

/// What an escape stands for; an unknown one stands for itself.
pub open spec fn env_unescaped(c: char) -> Seq<char> {
    if c == '\\' || c == '"' {
        seq![c]
    } else if c == 'n' {
        seq!['\n']
    } else if c == 't' {
        seq!['\t']
    } else if c == 'r' {
        seq!['\r']
    } else {
        seq!['\\', c]
    }
}

/// The text up to the closing double quote; nothing where there is none.
pub open spec fn double_quoted(s: Seq<char>) -> Option<Seq<char>>
    decreases s.len(),
{
    if s.len() == 0 {
        None
    } else if s[0] == '"' {
        Some(Seq::empty())
    } else if s[0] != '\\' {
        match double_quoted(s.subrange(1, s.len() as int)) {
            Some(rest) => Some(seq![s[0]] + rest),
            None => None,
        }
    } else if s.len() == 1 {
        None
    } else {
        match double_quoted(s.subrange(2, s.len() as int)) {
            Some(rest) => Some(env_unescaped(s[1]) + rest),
            None => None,
        }
    }
}

/// The text up to the closing single quote; nothing where there is none.
pub open spec fn single_quoted(s: Seq<char>) -> Option<Seq<char>> {
    let end = find_from(s, '\'', 0);
    if end < s.len() {
        Some(s.subrange(0, end))
    } else {
        None
    }
}

/// Where a comment starts in an unquoted value, from `k` on: at a `#` that is
/// first or behind white space; at the end where there is none.
pub open spec fn comment_start(s: Seq<char>, k: int) -> int
    decreases s.len() - k,
{
    if !(0 <= k < s.len()) {
        k
    } else if s[k] == '#' && (k == 0 || is_white(s[k - 1])) {
        k
    } else {
        comment_start(s, k + 1)
    }
}

/// An unquoted value: up to a comment, without white space behind it.
pub open spec fn unquoted(s: Seq<char>) -> Seq<char> {
    trim_end(s.subrange(0, comment_start(s, 0)))
}

/// The value that stands behind the `=`, or what is wrong with it.
pub open spec fn env_value(raw: Seq<char>) -> Result<Seq<char>, Seq<char>> {
    let s = trim_start(raw);
    if s.len() == 0 {
        Ok(Seq::empty())
    } else if s[0] == '"' {
        match double_quoted(s.subrange(1, s.len() as int)) {
            Some(text) => Ok(text),
            None => Err("unterminated double-quoted value"@),
        }
    } else if s[0] == '\'' {
        match single_quoted(s.subrange(1, s.len() as int)) {
            Some(text) => Ok(text),
            None => Err("unterminated single-quoted value"@),
        }
    } else {
        Ok(unquoted(s))
    }
}

/// Parses a double-quoted value, `s` being what follows the opening quote.
pub fn parse_double_quoted(s: &Vec<char>) -> (r: Option<String>)
    ensures
        match r {
            Some(text) => double_quoted(s@) == Some(text@),
            None => double_quoted(s@) is None,
        },
{
    let mut out: String = String::new();
    assert(out@ =~= Seq::<char>::empty());
    let n: usize = s.len();
    let mut i: usize = 0;
    assert(s@.subrange(0, n as int) =~= s@);
    let ghost whole = double_quoted(s@);
    assert(whole is Some ==> Seq::<char>::empty() + whole->Some_0 =~= whole->Some_0);
    while i < n
        invariant
            i <= n == s@.len(),
            whole == double_quoted(s@),
            match double_quoted(s@.subrange(i as int, n as int)) {
                Some(rest) => whole == Some(out@ + rest),
                None => whole is None,
            },
        decreases n - i,
    {
        let ghost rest = s@.subrange(i as int, n as int);
        let ghost before = out@;
        assert(rest.subrange(1, rest.len() as int) =~= s@.subrange(i + 1, n as int));
        let c: char = s[i];
        if c == '"' {
            assert(out@ + Seq::<char>::empty() =~= out@);
            return Some(out);
        }
        if c == '\\' {
            if i + 1 >= n {
                return None;
            }
            assert(rest.subrange(2, rest.len() as int) =~= s@.subrange(i + 2, n as int));
            let e: char = s[i + 1];
            if e == '\\' || e == '"' {
                out.push(e);
            } else if e == 'n' {
                out.push('\n');
            } else if e == 't' {
                out.push('\t');
            } else if e == 'r' {
                out.push('\r');
            } else {
                out.push('\\');
                out.push(e);
            }
            assert(out@ =~= before + env_unescaped(e));
            proof {
                match double_quoted(s@.subrange(i + 2, n as int)) {
                    Some(tail) => {
                        assert(before + (env_unescaped(e) + tail) =~= out@ + tail);
                    },
                    None => {},
                }
            }
            i += 2;
        } else {
            out.push(c);
            proof {
                match double_quoted(s@.subrange(i + 1, n as int)) {
                    Some(tail) => {
                        assert(before + (seq![c] + tail) =~= out@ + tail);
                    },
                    None => {},
                }
            }
            i += 1;
        }
    }
    assert(s@.subrange(n as int, n as int) =~= Seq::<char>::empty());
    None
}

/// Parses a single-quoted value, `s` being what follows the opening quote.
pub fn parse_single_quoted(s: &Vec<char>) -> (r: Option<String>)
    ensures
        match r {
            Some(text) => single_quoted(s@) == Some(text@),
            None => single_quoted(s@) is None,
        },
{
    let end: usize = find_char(s, '\'', 0);
    if end < s.len() {
        Some(text_between(s, 0, end))
    } else {
        None
    }
}

/// Parses an unquoted value.
pub fn parse_unquoted(s: &Vec<char>) -> (r: String)
    ensures
        r@ == unquoted(s@),
{
    let mut k: usize = 0;
    while k < s.len() && !(s[k] == '#' && (k == 0 || white(s[k - 1])))
        invariant
            k <= s@.len(),
            comment_start(s@, k as int) == comment_start(s@, 0),
        decreases s@.len() - k,
    {
        k += 1;
    }
    text_of(&trim_end_chars(&copy_between(s, 0, k)))
}

/// Parses what stands behind the `=`.
pub fn parse_value(raw: &Vec<char>) -> (r: Result<String, &'static str>)
    ensures
        match (r, env_value(raw@)) {
            (Ok(text), Ok(m)) => text@ == m,
            (Err(e), Err(m)) => e@ == m,
            _ => false,
        },
{
    let s: Vec<char> = trim_start_chars(raw);
    if s.len() == 0 {
        let empty: String = String::new();
        assert(empty@ =~= Seq::<char>::empty());
        return Ok(empty);
    }
    if s[0] == '"' {
        match parse_double_quoted(&copy_between(&s, 1, s.len())) {
            Some(text) => Ok(text),
            None => Err("unterminated double-quoted value"),
        }
    } else if s[0] == '\'' {
        match parse_single_quoted(&copy_between(&s, 1, s.len())) {
            Some(text) => Ok(text),
            None => Err("unterminated single-quoted value"),
        }
    } else {
        Ok(parse_unquoted(&s))
    }
}

// ---------------------------------------------------------------------------
// Lines
// ---------------------------------------------------------------------------

/// What stands on a line: nothing, an entry, or a mistake.
pub enum EnvLine {
    Nothing,
    Entry(Seq<char>, Seq<char>),
    Mistake(Seq<char>),
}

/// What stands on a line, its carriage returns at the end dropped.
pub open spec fn env_line(line: Seq<char>) -> EnvLine {
    let trimmed = trim_start(line);
    if trimmed.len() == 0 || trimmed[0] == '#' {
        EnvLine::Nothing
    } else {
        let body = if has_prefix(trimmed, "export "@) {
            trim_start(trimmed.subrange("export "@.len() as int, trimmed.len() as int))
        } else {
            trimmed
        };
        let eq = find_from(body, '=', 0);
        if eq >= body.len() {
            EnvLine::Mistake("expected `KEY=VALUE` in .env line"@)
        } else {
            let key = trim(body.subrange(0, eq));
            if key.len() == 0 {
                EnvLine::Mistake("empty key in .env line"@)
            } else {
                match env_value(body.subrange(eq + 1, body.len() as int)) {
                    Ok(value) => EnvLine::Entry(key, value),
                    Err(message) => EnvLine::Mistake(message),
                }
            }
        }
    }
}

/// The fault of a mistake on a line, counted from one.
pub open spec fn env_fault(number: int, line: Seq<char>, message: Seq<char>) -> Fault {
    Fault::Parse {
        file: None,
        line: number % 0x1_0000_0000,
        col: 1,
        start: 0,
        end: 0,
        snippet: line,
        message,
    }
}

/// The entries on the first `k` lines, or the first mistake.
pub open spec fn env_entries(lines: Seq<Seq<char>>, k: int) -> Result<
    Seq<(Seq<char>, Tree)>,
    Fault,
>
    decreases k,
{
    if k <= 0 {
        Ok(Seq::empty())
    } else {
        match env_entries(lines, k - 1) {
            Err(f) => Err(f),
            Ok(before) => {
                let line = trim_end_of(lines[k - 1], '\r');
                match env_line(line) {
                    EnvLine::Nothing => Ok(before),
                    EnvLine::Entry(key, value) => Ok(inserted(before, key, Tree::String(value))),
                    EnvLine::Mistake(message) => Err(env_fault(k, line, message)),
                }
            },
        }
    }
}

/// The entries of a text.
pub open spec fn env_parsed(text: Seq<char>) -> Result<Seq<(Seq<char>, Tree)>, Fault> {
    let lines = split_on(text, '\n');
    env_entries(lines, lines.len() as int)
}

/// What a line gives to a reader.
enum LineFound {
    Nothing,
    Entry(String, String),
    Mistake(&'static str),
}

spec fn found_model(f: LineFound) -> EnvLine {
    match f {
        LineFound::Nothing => EnvLine::Nothing,
        LineFound::Entry(k, v) => EnvLine::Entry(k@, v@),
        LineFound::Mistake(m) => EnvLine::Mistake(m@),
    }
}

fn read_line(line: &Vec<char>) -> (r: LineFound)
    ensures
        found_model(r) == env_line(line@),
{
    let trimmed: Vec<char> = trim_start_chars(line);
    if trimmed.len() == 0 || trimmed[0] == '#' {
        return LineFound::Nothing;
    }
    let export: Vec<char> = chars_of("export ");
    let body: Vec<char> = if starts_with_chars(&trimmed, &export) {
        trim_start_chars(&copy_between(&trimmed, export.len(), trimmed.len()))
    } else {
        copy_between(&trimmed, 0, trimmed.len())
    };
    assert(trimmed@.subrange(0, trimmed@.len() as int) =~= trimmed@);
    let eq: usize = find_char(&body, '=', 0);
    if eq >= body.len() {
        return LineFound::Mistake("expected `KEY=VALUE` in .env line");
    }
    let key: Vec<char> = trim_chars(&copy_between(&body, 0, eq));
    if key.len() == 0 {
        return LineFound::Mistake("empty key in .env line");
    }
    match parse_value(&copy_between(&body, eq + 1, body.len())) {
        Ok(value) => LineFound::Entry(text_of(&key), value),
        Err(message) => LineFound::Mistake(message),
    }
}

proof fn lemma_env_fails(lines: Seq<Seq<char>>, k: int, n: int)
    requires
        0 <= k <= n,
        env_entries(lines, k) is Err,
    ensures
        env_entries(lines, n) == env_entries(lines, k),
    decreases n - k,
{
    if k < n {
        lemma_env_fails(lines, k, n - 1);
    }
}

/// Reads the entries of a text.
pub fn read_env(text: &str) -> (r: Result<ValueMap, Error>)
    ensures
        match (r, env_parsed(text@)) {
            (Ok(map), Ok(m)) => map@ == m,
            (Err(e), Err(f)) => e@ == f,
            _ => false,
        },
{
    let lines: Vec<Vec<char>> = split_chars(&chars_of(text), '\n');
    let ghost all = split_on(text@, '\n');
    let mut map: ValueMap = ValueMap::new();
    let mut number: u32 = 0;
    let mut i: usize = 0;
    while i < lines.len()
        invariant
            i <= lines@.len() == all.len(),
            all == split_on(text@, '\n'),
            forall|k: int| 0 <= k < lines@.len() ==> #[trigger] lines@[k]@ == all[k],
            number == i as int % 0x1_0000_0000,
            env_entries(all, i as int) == Ok::<_, Fault>(map@),
        decreases lines@.len() - i,
    {
        number = number.wrapping_add(1);
        assert(number == (i + 1) % 0x1_0000_0000);
        let line: Vec<char> = trim_end_of_chars(&lines[i], '\r');
        let ghost next = env_entries(all, i + 1);
        match read_line(&line) {
            LineFound::Nothing => {},
            LineFound::Entry(key, value) => {
                map.insert(key, Value::String(value));
            },
            LineFound::Mistake(message) => {
                proof {
                    lemma_env_fails(all, i + 1, all.len() as int);
                }
                return Err(
                    Error::Parse {
                        file: None,
                        line: number,
                        col: 1,
                        span: 0..0,
                        snippet: text_of(&line),
                        message: message.to_owned(),
                    },
                );
            },
        }
        i += 1;
    }
    Ok(map)
}

// ---------------------------------------------------------------------------
// Writing
// ---------------------------------------------------------------------------

/// Whether a character makes quotes necessary: white space, what has a meaning
/// in a line, and what cannot be printed.
pub open spec fn is_env_special(c: char) -> bool {
    is_white(c) || c == '#' || c == '=' || c == '$' || c == '\\' || c == '"' || is_control(c)
}

/// A character inside double quotes.
pub open spec fn env_escaped_char(c: char) -> Seq<char> {
    if c == '\\' {
        seq!['\\', '\\']
    } else if c == '"' {
        seq!['\\', '"']
    } else if c == '\n' {
        seq!['\\', 'n']
    } else if c == '\r' {
        seq!['\\', 'r']
    } else if c == '\t' {
        seq!['\\', 't']
    } else {
        seq![c]
    }
}

/// A text inside double quotes.
pub open spec fn env_escaped(s: Seq<char>) -> Seq<char>
    decreases s.len(),
{
    if s.len() == 0 {
        Seq::empty()
    } else {
        env_escaped(s.drop_last()) + env_escaped_char(s.last())
    }
}

/// Whether a value is written in quotes.
pub open spec fn needs_env_quotes(s: Seq<char>) -> bool {
    s.len() == 0 || exists|i: int| 0 <= i < s.len() && is_env_special(#[trigger] s[i])
}

/// A value as it is written.
pub open spec fn env_quoted(s: Seq<char>) -> Seq<char> {
    if needs_env_quotes(s) {
        seq!['"'] + env_escaped(s) + seq!['"']
    } else {
        s
    }
}

/// A value as it is written.
pub fn quote_for_env(s: &str) -> (r: String)
    ensures
        r@ == env_quoted(s@),
{
    let chars: Vec<char> = chars_of(s);
    let mut special: bool = chars.len() == 0;
    let mut i: usize = 0;
    while i < chars.len()
        invariant
            i <= chars@.len(),
            special == (chars@.len() == 0 || exists|k: int|
                0 <= k < i && is_env_special(#[trigger] chars@[k])),
        decreases chars@.len() - i,
    {
        let c: char = chars[i];
        let n: u32 = c as u32;
        if white(c) || c == '#' || c == '=' || c == '$' || c == '\\' || c == '"' || n < 0x20 || (0x7f
            <= n && n < 0xa0) {
            assert(is_env_special(chars@[i as int]));
            special = true;
        }
        i += 1;
    }
    if !special {
        return s.to_owned();
    }
    let mut out: String = String::new();
    out.push('"');
    let mut j: usize = 0;
    assert(chars@.subrange(0, 0) =~= Seq::<char>::empty());
    assert(out@ =~= seq!['"'] + env_escaped(chars@.subrange(0, 0)));
    while j < chars.len()
        invariant
            j <= chars@.len(),
            out@ == seq!['"'] + env_escaped(chars@.subrange(0, j as int)),
        decreases chars@.len() - j,
    {
        let ghost before = out@;
        assert(chars@.subrange(0, j + 1).drop_last() =~= chars@.subrange(0, j as int));
        let c: char = chars[j];
        if c == '\\' {
            out.push('\\');
            out.push('\\');
        } else if c == '"' {
            out.push('\\');
            out.push('"');
        } else if c == '\n' {
            out.push('\\');
            out.push('n');
        } else if c == '\r' {
            out.push('\\');
            out.push('r');
        } else if c == '\t' {
            out.push('\\');
            out.push('t');
        } else {
            out.push(c);
        }
        assert(out@ =~= before + env_escaped_char(c));
        assert(out@ =~= seq!['"'] + env_escaped(chars@.subrange(0, j + 1)));
        j += 1;
    }
    assert(chars@.subrange(0, chars@.len() as int) =~= chars@);
    out.push('"');
    assert(out@ =~= env_quoted(s@));
    out
}

/// What is written of the first `k` entries.
pub open spec fn env_emitted(entries: Seq<(Seq<char>, Tree)>, k: int) -> Emission
    decreases k,
{
    if k <= 0 {
        (Seq::empty(), Ok(()))
    } else {
        let before = env_emitted(entries, k - 1);
        if before.1 is Err {
            before
        } else {
            match scalar_text_of(entries[k - 1].1) {
                Some(text) => (
                    before.0 + encode_utf8(
                        entries[k - 1].0 + "="@ + env_quoted(text) + "\n"@,
                    ),
                    Ok(()),
                ),
                None => (
                    before.0,
                    Err(
                        format_fault(
                            "dotenv"@,
                            "key '"@ + entries[k - 1].0 + "': nested "@ + type_label_of(
                                entries[k - 1].1,
                            ) + " cannot be serialized to .env"@,
                        ),
                    ),
                ),
            }
        }
    }
}

/// What the writer makes of a value.
pub open spec fn env_written(t: Tree) -> Emission {
    match t {
        Tree::Object(entries) => env_emitted(entries, entries.len() as int),
        _ => (
            Seq::empty(),
            Err(
                format_fault(
                    "dotenv"@,
                    "expected top-level map<string, string>, got "@ + type_label_of(t),
                ),
            ),
        ),
    }
}

fn env_error(message: String) -> (r: Error)
    ensures
        r@ == format_fault("dotenv"@, message@),
{
    Error::Format { format: "dotenv", message }
}

proof fn lemma_emitted_fails(entries: Seq<(Seq<char>, Tree)>, k: int, n: int)
    requires
        0 <= k <= n,
        env_emitted(entries, k).1 is Err,
    ensures
        env_emitted(entries, n) == env_emitted(entries, k),
    decreases n - k,
{
    if k < n {
        lemma_emitted_fails(entries, k, n - 1);
    }
}

/// Appends a value.
pub fn write_env(v: &Value, w: &mut Vec<u8>) -> (r: Result<(), Error>)
    ensures
        emitted(r, env_written(v@), old(w)@, final(w)@),
{
    let map: &ValueMap = match v {
        Value::Object(map) => {
            proof {
                lemma_object_view(*map);
            }
            map
        },
        _ => {
            assert(w@ + Seq::<u8>::empty() =~= w@);
            return Err(
                env_error(
                    joined("expected top-level map<string, string>, got ", v.type_label()),
                ),
            );
        },
    };
    let mut i: usize = 0;
    assert(w@ =~= old(w)@ + env_emitted(map@, 0).0);
    while i < map.entries.len()
        invariant
            i <= map.entries@.len(),
            v@ == Tree::Object(map@),
            env_emitted(map@, i as int).1 is Ok,
            w@ == old(w)@ + env_emitted(map@, i as int).0,
        decreases map.entries@.len() - i,
    {
        assert(map@[i as int] == (map.entries@[i as int].0@, map.entries@[i as int].1@));
        let ghost next = env_emitted(map@, i + 1);
        let key: &str = map.entries[i].0.as_str();
        match map.entries[i].1.scalar_text() {
            Some(text) => {
                let mut line: String = joined(key, "=");
                let quoted: String = quote_for_env(text.as_str());
                line.push_str(quoted.as_str());
                line.push_str("\n");
                append_text(w, line.as_str());
                assert(w@ =~= old(w)@ + next.0);
            },
            None => {
                proof {
                    lemma_emitted_fails(map@, i + 1, map@.len() as int);
                }
                let a: String = joined("key '", key);
                let b: String = joined(a.as_str(), "': nested ");
                let c: String = joined(b.as_str(), map.entries[i].1.type_label());
                return Err(env_error(joined(c.as_str(), " cannot be serialized to .env")));
            },
        }
        i += 1;
    }
    Ok(())
}

// ---------------------------------------------------------------------------
// Laws
// ---------------------------------------------------------------------------

/// Escapes are undone by reading, whatever follows the closing quote.
proof fn lemma_escaped_read(s: Seq<char>, tail: Seq<char>)
    ensures
        double_quoted(env_escaped(s) + tail) == (match double_quoted(tail) {
            Some(rest) => Some(s + rest),
            None => None,
        }),
    decreases s.len(),
{
    if s.len() == 0 {
        assert(env_escaped(s) + tail =~= tail);
        assert(double_quoted(tail) is Some ==> s + double_quoted(tail)->Some_0
            =~= double_quoted(tail)->Some_0);
    } else {
        let c = s.last();
        let e = env_escaped_char(c);
        lemma_escaped_read(s.drop_last(), e + tail);
        assert(env_escaped(s) + tail =~= env_escaped(s.drop_last()) + (e + tail));
        let both = e + tail;
        if e.len() == 1 {
            assert(both.subrange(1, both.len() as int) =~= tail);
        } else {
            assert(both.subrange(2, both.len() as int) =~= tail);
        }
        assert(double_quoted(both) == (match double_quoted(tail) {
            Some(rest) => Some(seq![c] + rest),
            None => None,
        }));
        match double_quoted(tail) {
            Some(rest) => {
                assert(s.drop_last() + (seq![c] + rest) =~= s + rest);
            },
            None => {},
        }
    }
}

proof fn lemma_no_comment(s: Seq<char>, k: int)
    requires
        0 <= k <= s.len(),
        forall|i: int| 0 <= i < s.len() ==> #[trigger] s[i] != '#',
    ensures
        comment_start(s, k) == s.len(),
    decreases s.len() - k,
{
    if k < s.len() {
        lemma_no_comment(s, k + 1);
    }
}

/// A value that was written reads back as it was. The one exception is a value
/// that starts with a single quote and holds nothing that would bring it into
/// double quotes.
pub proof fn law_value_reads_back(s: Seq<char>)
    requires
        needs_env_quotes(s) || s[0] != '\'',
    ensures
        env_value(env_quoted(s)) == Ok::<Seq<char>, Seq<char>>(s),
{
    let q = env_quoted(s);
    if needs_env_quotes(s) {
        let tail = seq!['"'];
        assert(q[0] == '"');
        assert(trim_start(q) == q);
        assert(q.subrange(1, q.len() as int) =~= env_escaped(s) + tail);
        lemma_escaped_read(s, tail);
        assert(double_quoted(tail) == Some(Seq::<char>::empty()));
        assert(s + Seq::<char>::empty() =~= s);
    } else {
        assert(s.len() > 0 && !is_env_special(s[0]));
        assert(trim_start(s) == s);
        assert forall|i: int| 0 <= i < s.len() implies #[trigger] s[i] != '#' by {
            assert(!is_env_special(s[i]));
        }
        lemma_no_comment(s, 0);
        assert(s.subrange(0, s.len() as int) =~= s);
        assert(!is_env_special(s[s.len() - 1]));
        assert(trim_end(s) == s);
    }
}

impl Format for DotEnv {
    open spec fn tag(&self) -> FormatTag {
        FormatTag::DotEnv
    }

    open spec fn parses(&self, bytes: Seq<u8>) -> bool {
        true
    }

    open spec fn parse_model(&self, bytes: Seq<u8>) -> Result<DocModel, Fault> {
        if valid_utf8(bytes) {
            match env_parsed(decode_utf8(bytes)) {
                Ok(entries) => Ok(bare(Tree::Object(entries), FormatTag::DotEnv, false)),
                Err(f) => Err(f),
            }
        } else {
            Err(unplaced_parse("invalid UTF-8 in .env input: "@ + utf8_fault_text(bytes)))
        }
    }

    open spec fn write_model(&self, doc: DocModel) -> Emission {
        env_written(doc.value)
    }

    open spec fn options_model(&self, doc: DocModel, opts: WriteOptions) -> Emission {
        self.write_model(doc)
    }

    fn name(&self) -> (r: &'static str) {
        FormatTag::DotEnv.name()
    }

    fn extensions(&self) -> (r: Vec<&'static str>) {
        extension_list(FormatTag::DotEnv)
    }

    fn parse(&self, bytes: &[u8]) -> (r: Result<Document, Error>) {
        match checked_text(bytes) {
            Ok(text) => match read_env(text.as_str()) {
                Ok(map) => {
                    proof {
                        lemma_object_view(map);
                    }
                    Ok(Document::value_only(Value::Object(map), FormatTag::DotEnv))
                },
                Err(e) => Err(e),
            },
            Err(message) => Err(
                unplaced_parse_error(joined("invalid UTF-8 in .env input: ", message.as_str())),
            ),
        }
    }

    fn parse_checked(&self, bytes: &[u8]) -> (r: Option<Result<Document, Error>>) {
        Some(self.parse(bytes))
    }

    fn write(&self, doc: &Document, w: &mut Vec<u8>) -> (r: Result<(), Error>) {
        write_env(doc.value(), w)
    }

    fn write_with_options(&self, doc: &Document, w: &mut Vec<u8>, _opts: &WriteOptions) -> (r: Result<
        (),
        Error,
    >) {
        self.write(doc, w)
    }
}

} // verus!
