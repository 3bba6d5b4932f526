//! What was written as `.env` reads back.

use crate::document::bare;
use crate::error::Fault;
use crate::format::Format;
use crate::format_tag::FormatTag;
use crate::parsers::dotenv::{
    env_emitted, env_entries, env_escaped, env_escaped_char, env_line, env_quoted, env_written,
    is_env_special, law_value_reads_back, needs_env_quotes, DotEnv, EnvLine,
};
use crate::template_laws::lemma_text_of_two;
use crate::text::{
    find_from, has_prefix, is_white, lemma_find_from, split_on, trim, trim_end_of, trim_start,
};
use crate::value::{
    inserted, key_index, lemma_key_index, scalar_text_of, unique_keys, Tree,
};
use vstd::prelude::*;
use vstd::utf8::{decode_utf8, encode_utf8, encode_utf8_decode_utf8, encode_utf8_valid_utf8, valid_utf8};

verus! {

/// Whether a key can stand in front of the `=`: not empty, without white space
/// at its ends, no comment, no `export`, and neither `=` nor a newline in it.
pub open spec fn is_env_key(key: Seq<char>) -> bool {
    &&& key.len() > 0
    &&& !is_white(key[0])
    &&& !is_white(key.last())
    &&& key[0] != '#'
    &&& !has_prefix(key, "export "@)
    &&& forall|i: int| 0 <= i < key.len() ==> (#[trigger] key[i]) != '=' && key[i] != '\n'
}

/// Whether a value can be written so that it reads back: a scalar whose text
/// does not start with a single quote, unless it is written in double quotes.
pub open spec fn is_env_value(v: Tree) -> bool {
    match scalar_text_of(v) {
        Some(text) => needs_env_quotes(text) || text[0] != '\'',
        None => false,
    }
}

/// The entries with every scalar as its text.
pub open spec fn as_texts(entries: Seq<(Seq<char>, Tree)>) -> Seq<(Seq<char>, Tree)> {
    Seq::new(
        entries.len(),
        |i: int| (entries[i].0, Tree::String(scalar_text_of(entries[i].1)->Some_0)),
    )
}

/// The line of an entry.
spec fn line_of(entry: (Seq<char>, Tree)) -> Seq<char> {
    entry.0 + "="@ + env_quoted(scalar_text_of(entry.1)->Some_0)
}

/// The text from entry `k` on.
spec fn text_from(entries: Seq<(Seq<char>, Tree)>, k: int) -> Seq<char>
    decreases entries.len() - k,
{
    if k >= entries.len() {
        Seq::empty()
    } else {
        line_of(entries[k]) + "\n"@ + text_from(entries, k + 1)
    }
}

/// Whether every entry can be written so that it reads back.
spec fn entries_ok(entries: Seq<(Seq<char>, Tree)>) -> bool {
    forall|i: int|
        0 <= i < entries.len() ==> is_env_key((#[trigger] entries[i]).0) && is_env_value(
            entries[i].1,
        )
}

proof fn lemma_escaped_has_no_newline(s: Seq<char>)
    ensures
        forall|i: int| 0 <= i < env_escaped(s).len() ==> (#[trigger] env_escaped(s)[i]) != '\n',
    decreases s.len(),
{
    if s.len() > 0 {
        lemma_escaped_has_no_newline(s.drop_last());
        let before = env_escaped(s.drop_last());
        let last = env_escaped_char(s.last());
        let now = env_escaped(s);
        assert forall|i: int| 0 <= i < now.len() implies (#[trigger] now[i]) != '\n' by {
            if i < before.len() {
                assert(now[i] == before[i]);
            } else {
                assert(now[i] == last[i - before.len()]);
            }
        }
    }
}

proof fn lemma_quoted(s: Seq<char>)
    ensures
        env_quoted(s).len() > 0,
        env_quoted(s).last() != '\r',
        forall|i: int| 0 <= i < env_quoted(s).len() ==> (#[trigger] env_quoted(s)[i]) != '\n',
{
    let q = env_quoted(s);
    if needs_env_quotes(s) {
        lemma_escaped_has_no_newline(s);
        let inner = env_escaped(s);
        assert forall|i: int| 0 <= i < q.len() implies (#[trigger] q[i]) != '\n' by {
            if 0 < i <= inner.len() {
                assert(q[i] == inner[i - 1]);
            }
        }
    } else {
        assert(!is_env_special(s[s.len() - 1]));
        assert forall|i: int| 0 <= i < q.len() implies (#[trigger] q[i]) != '\n' by {
            assert(!is_env_special(s[i]));
        }
    }
}

proof fn lemma_find(s: Seq<char>, c: char, at: int)
    requires
        0 <= at < s.len(),
        s[at] == c,
        forall|i: int| 0 <= i < at ==> (#[trigger] s[i]) != c,
    ensures
        find_from(s, c, 0) == at,
{
    lemma_find_from(s, c, 0);
}

/// The line of an entry reads back.
proof fn lemma_line(entry: (Seq<char>, Tree))
    requires
        is_env_key(entry.0),
        is_env_value(entry.1),
    ensures
        forall|i: int| 0 <= i < line_of(entry).len() ==> (#[trigger] line_of(entry)[i]) != '\n',
        env_line(trim_end_of(line_of(entry), '\r')) == EnvLine::Entry(
            entry.0,
            scalar_text_of(entry.1)->Some_0,
        ),
{
    let key = entry.0;
    let text = scalar_text_of(entry.1)->Some_0;
    let q = env_quoted(text);
    let line = line_of(entry);
    reveal_strlit("=");
    reveal_strlit("export ");
    lemma_quoted(text);
    assert(line.last() == q.last());
    assert(trim_end_of(line, '\r') == line);
    assert forall|i: int| 0 <= i < line.len() implies (#[trigger] line[i]) != '\n' by {
        if i < key.len() {
            assert(line[i] == key[i]);
        } else if i > key.len() {
            assert(line[i] == q[i - key.len() - 1]);
        }
    }
    assert(line[0] == key[0]);
    assert(trim_start(line) == line);
    assert(!has_prefix(line, "export "@)) by {
        if has_prefix(line, "export "@) {
            let front = line.subrange(0, 7);
            assert(front == "export "@);
            if key.len() < 7 {
                assert(front[key.len() as int] == line[key.len() as int]);
            } else {
                assert(key.subrange(0, 7) =~= front);
            }
        }
    }
    assert forall|i: int| 0 <= i < key.len() implies (#[trigger] line[i]) != '=' by {
        assert(line[i] == key[i]);
    }
    lemma_find(line, '=', key.len() as int);
    assert(line.subrange(0, key.len() as int) =~= key);
    assert(trim(key) == key);
    assert(line.subrange(key.len() as int + 1, line.len() as int) =~= q);
    law_value_reads_back(text);
}

/// Splitting behind a line without a newline takes that line off.
proof fn lemma_split(line: Seq<char>, rest: Seq<char>)
    requires
        forall|i: int| 0 <= i < line.len() ==> (#[trigger] line[i]) != '\n',
    ensures
        split_on(line + "\n"@ + rest, '\n') == seq![line] + split_on(rest, '\n'),
{
    reveal_strlit("\n");
    let s = line + "\n"@ + rest;
    let at = line.len() as int;
    assert forall|i: int| 0 <= i < at implies (#[trigger] s[i]) != '\n' by {
        assert(s[i] == line[i]);
    }
    lemma_find(s, '\n', at);
    assert(s.subrange(0, at) =~= line);
    assert(s.subrange(at + 1, s.len() as int) =~= rest);
}

/// The lines from entry `k` on, and the empty one behind them.
spec fn lines_from(entries: Seq<(Seq<char>, Tree)>, k: int) -> Seq<Seq<char>> {
    Seq::new(
        (entries.len() - k + 1) as nat,
        |j: int|
            if k + j < entries.len() {
                line_of(entries[k + j])
            } else {
                Seq::<char>::empty()
            },
    )
}

proof fn lemma_lines(entries: Seq<(Seq<char>, Tree)>, k: int)
    requires
        entries_ok(entries),
        0 <= k <= entries.len(),
    ensures
        split_on(text_from(entries, k), '\n') == lines_from(entries, k),
    decreases entries.len() - k,
{
    if k < entries.len() {
        lemma_line(entries[k]);
        lemma_lines(entries, k + 1);
        lemma_split(line_of(entries[k]), text_from(entries, k + 1));
        assert(lines_from(entries, k) =~= seq![line_of(entries[k])] + lines_from(entries, k + 1));
    } else {
        let none = Seq::<char>::empty();
        assert(find_from(none, '\n', 0) == 0);
        assert(lines_from(entries, k) =~= seq![none]);
    }
}

proof fn lemma_entries_read(entries: Seq<(Seq<char>, Tree)>, k: int)
    requires
        entries_ok(entries),
        unique_keys(entries),
        0 <= k <= entries.len(),
    ensures
        env_entries(lines_from(entries, 0), k) == Ok::<Seq<(Seq<char>, Tree)>, Fault>(
            as_texts(entries).subrange(0, k),
        ),
    decreases k,
{
    let shown = as_texts(entries);
    if k > 0 {
        lemma_entries_read(entries, k - 1);
        let at = k - 1;
        lemma_line(entries[at]);
        assert(lines_from(entries, 0)[at] == line_of(entries[at]));
        let before = shown.subrange(0, at);
        let key = entries[at].0;
        lemma_key_index(before, key);
        assert(key_index(before, key) == before.len()) by {
            let found = key_index(before, key);
            if found < before.len() {
                assert(before[found].0 == entries[found].0);
            }
        }
        assert(inserted(before, key, shown[at].1) =~= shown.subrange(0, k));
    } else {
        assert(shown.subrange(0, 0) =~= Seq::<(Seq<char>, Tree)>::empty());
    }
}

proof fn lemma_emitted_text(entries: Seq<(Seq<char>, Tree)>, k: int)
    requires
        entries_ok(entries),
        0 <= k <= entries.len(),
    ensures
        env_emitted(entries, k).1 is Ok,
        valid_utf8(env_emitted(entries, k).0),
        decode_utf8(env_emitted(entries, k).0) + text_from(entries, k) == text_from(entries, 0),
    decreases k,
{
    if k > 0 {
        lemma_emitted_text(entries, k - 1);
        let before = env_emitted(entries, k - 1).0;
        let entry = entries[k - 1];
        let line = entry.0 + "="@ + env_quoted(scalar_text_of(entry.1)->Some_0) + "\n"@;
        assert(is_env_value(entry.1));
        encode_utf8_valid_utf8(line);
        encode_utf8_decode_utf8(line);
        lemma_text_of_two(before, encode_utf8(line));
        assert(decode_utf8(env_emitted(entries, k).0) + text_from(entries, k) =~= decode_utf8(
            before,
        ) + text_from(entries, k - 1));
    } else {
        assert(decode_utf8(Seq::<u8>::empty()) =~= Seq::<char>::empty());
    }
}

/// An object of scalars under sound keys is written, and what was written reads
/// back as the same keys, in the same order, with the texts of the scalars.
pub proof fn law_env_reads_back(entries: Seq<(Seq<char>, Tree)>)
    requires
        unique_keys(entries),
        forall|i: int|
            0 <= i < entries.len() ==> is_env_key((#[trigger] entries[i]).0) && is_env_value(
                entries[i].1,
            ),
    ensures
        env_written(Tree::Object(entries)).1 is Ok,
        DotEnv.parse_model(env_written(Tree::Object(entries)).0) == Ok::<
            crate::document::DocModel,
            Fault,
        >(bare(Tree::Object(as_texts(entries)), FormatTag::DotEnv, false)),
{
    let n = entries.len() as int;
    lemma_emitted_text(entries, n);
    lemma_lines(entries, 0);
    lemma_entries_read(entries, n);
    let text = text_from(entries, 0);
    assert(decode_utf8(env_emitted(entries, n).0) =~= text);
    let lines = lines_from(entries, 0);
    assert(lines[n] == Seq::<char>::empty());
    assert(trim_end_of(lines[n], '\r') == Seq::<char>::empty());
    assert(env_line(Seq::<char>::empty()) == EnvLine::Nothing);
    assert(as_texts(entries).subrange(0, n) =~= as_texts(entries));
    assert(env_entries(lines, n + 1) == env_entries(lines, n));
}

} // verus!
