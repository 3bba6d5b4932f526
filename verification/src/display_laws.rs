//! What errors and values look like: everything that an error carries is in its
//! text.

use crate::display::{
    document_text, entries_text, fault_text, items_text, quoted_items, quoted_list, quoted_text,
    stream_text, value_text,
};
use crate::document::DocModel;
use crate::error::Fault;
use crate::number_laws::law_integer_text_is_the_number;
use crate::numbers::{decimal, parsed_int};
use crate::value::Tree;
use vstd::prelude::*;

verus! {

/// Whether a text stands in another one.
pub open spec fn is_in(part: Seq<char>, whole: Seq<char>) -> bool {
    exists|i: int|
        0 <= i && i + part.len() <= whole.len() && part == #[trigger] whole.subrange(
            i,
            i + part.len(),
        )
}

/// Whether a text stands in another one, and a second one behind it.
pub open spec fn are_in(first: Seq<char>, second: Seq<char>, whole: Seq<char>) -> bool {
    exists|i: int|
        0 <= i <= whole.len() && is_in(first, #[trigger] whole.subrange(0, i)) && is_in(
            second,
            whole.subrange(i, whole.len() as int),
        )
}

proof fn lemma_in(before: Seq<char>, part: Seq<char>, behind: Seq<char>)
    ensures
        is_in(part, before + part + behind),
{
    let whole = before + part + behind;
    let i = before.len() as int;
    assert(whole.subrange(i, i + part.len()) =~= part);
}

proof fn lemma_are_in(
    a: Seq<char>,
    first: Seq<char>,
    b: Seq<char>,
    second: Seq<char>,
    c: Seq<char>,
)
    ensures
        are_in(first, second, a + first + b + second + c),
{
    let whole = a + first + b + second + c;
    let i = (a + first).len() as int;
    assert(whole.subrange(0, i) =~= a + first + Seq::<char>::empty());
    lemma_in(a, first, Seq::empty());
    assert(whole.subrange(i, whole.len() as int) =~= b + second + c);
    lemma_in(b, second, c);
}

/// The text of an error holds everything that a reader needs of it: which file,
/// which pointer, which format, which line, and what is wrong.
pub proof fn law_error_text_holds_its_parts(f: Fault)
    ensures
        match f {
            Fault::Io { path, source } => are_in(path, source, fault_text(f)),
            Fault::WriteIo { path, source } => are_in(path, source, fault_text(f)),
            Fault::Parse { file, message, .. } => match file {
                Some(name) => are_in(name, message, fault_text(f)),
                None => is_in(message, fault_text(f)),
            },
            Fault::Path { pointer, matched_prefix, .. } => are_in(
                pointer,
                matched_prefix,
                fault_text(f),
            ),
            Fault::UnsupportedFormat { name } => is_in(name, fault_text(f)),
            Fault::Format { format, message } => are_in(format, message, fault_text(f)),
            Fault::WriteUnavailable { reason } => is_in(reason, fault_text(f)),
            Fault::TemplatedFile { line, snippet, hint } => {
                &&& line >= 0 ==> are_in(decimal(line as nat), snippet, fault_text(f))
                &&& are_in(snippet, hint, fault_text(f))
            },
            Fault::PatchTestFailed { pointer, expected, actual } => {
                &&& are_in(pointer, value_text(expected), fault_text(f))
                &&& are_in(value_text(expected), value_text(actual), fault_text(f))
            },
        },
{
    let none = Seq::<char>::empty();
    let w = fault_text(f);
    match f {
        Fault::Io { path, source } => {
            let a = "I/O error reading '"@;
            let b = "': "@;
            lemma_are_in(a, path, b, source, none);
            assert(w =~= a + path + b + source + none);
        },
        Fault::WriteIo { path, source } => {
            let a = "I/O error writing '"@;
            let b = "': "@;
            lemma_are_in(a, path, b, source, none);
            assert(w =~= a + path + b + source + none);
        },
        Fault::Parse { file, message, .. } => match file {
            Some(name) => {
                let a = "parse error"@ + " in "@;
                let b = ": "@;
                lemma_are_in(a, name, b, message, none);
                assert(w =~= a + name + b + message + none);
            },
            None => {
                let a = "parse error"@ + ": "@;
                lemma_in(a, message, none);
                assert(w =~= a + message + none);
            },
        },
        Fault::Path { pointer, matched_prefix, .. } => {
            let a = "path '"@;
            let b = "' not found (matched up to '"@;
            let c = "')"@;
            lemma_are_in(a, pointer, b, matched_prefix, c);
        },
        Fault::UnsupportedFormat { name } => {
            lemma_in("unsupported format '"@, name, "'"@);
        },
        Fault::Format { format, message } => {
            let b = " format error: "@;
            lemma_are_in(none, format, b, message, none);
            assert(w =~= none + format + b + message + none);
        },
        Fault::WriteUnavailable { reason } => {
            let a = "write operation unavailable: "@;
            lemma_in(a, reason, none);
            assert(w =~= a + reason + none);
        },
        Fault::TemplatedFile { line, snippet, hint } => {
            let a = "file contains Go template syntax (line "@;
            let n = decimal(line as nat);
            let b = "): "@;
            let c = "\n  hint: "@;
            lemma_are_in(a, n, b, snippet, c + hint);
            assert(w =~= a + n + b + snippet + (c + hint));
            lemma_are_in(a + n + b, snippet, c, hint, none);
            assert(w =~= a + n + b + snippet + c + hint + none);
        },
        Fault::PatchTestFailed { pointer, expected, actual } => {
            let a = "RFC 6902 test op failed at "@;
            let b = ": expected "@;
            let c = ", got "@;
            let x = value_text(expected);
            let y = value_text(actual);
            lemma_are_in(a, pointer, b, x, c + y);
            assert(w =~= a + pointer + b + x + (c + y));
            lemma_are_in(a + pointer + b, x, c, y, none);
            assert(w =~= a + pointer + b + x + c + y + none);
        },
    }
}

proof fn lemma_items_shown(items: Seq<Tree>, k: nat, i: int)
    requires
        0 <= i < k <= items.len(),
    ensures
        is_in(value_text(items[i]), items_text(items, k)),
    decreases k,
{
    let before = items_text(items, (k - 1) as nat) + crate::display::comma((k - 1) as nat);
    let one = value_text(items[k - 1]);
    let none = Seq::<char>::empty();
    if i == k - 1 {
        lemma_in(before, one, none);
        assert(items_text(items, k) =~= before + one + none);
    } else {
        lemma_items_shown(items, (k - 1) as nat, i);
        let rest = crate::display::comma((k - 1) as nat) + one;
        lemma_longer(value_text(items[i]), none, items_text(items, (k - 1) as nat), rest);
        assert(items_text(items, k) =~= none + items_text(items, (k - 1) as nat) + rest);
    }
}

proof fn lemma_longer(part: Seq<char>, before: Seq<char>, whole: Seq<char>, behind: Seq<char>)
    requires
        is_in(part, whole),
    ensures
        is_in(part, before + whole + behind),
{
    let i = choose|i: int|
        0 <= i && i + part.len() <= whole.len() && part == #[trigger] whole.subrange(
            i,
            i + part.len(),
        );
    let all = before + whole + behind;
    let j = before.len() + i;
    assert(all.subrange(j, j + part.len()) =~= part);
}

proof fn lemma_entries_shown(entries: Seq<(Seq<char>, Tree)>, k: nat, i: int)
    requires
        0 <= i < k <= entries.len(),
    ensures
        are_in(quoted_text(entries[i].0), value_text(entries[i].1), entries_text(entries, k)),
    decreases k,
{
    let none = Seq::<char>::empty();
    let before = entries_text(entries, (k - 1) as nat);
    let comma = crate::display::comma((k - 1) as nat);
    let key = quoted_text(entries[k - 1].0);
    let one = value_text(entries[k - 1].1);
    if i == k - 1 {
        lemma_are_in(before + comma, key, ": "@, one, none);
        assert(entries_text(entries, k) =~= before + comma + key + ": "@ + one + none);
    } else {
        lemma_entries_shown(entries, (k - 1) as nat, i);
        let first = quoted_text(entries[i].0);
        let second = value_text(entries[i].1);
        let rest = comma + key + ": "@ + one;
        let whole = entries_text(entries, k);
        assert(whole =~= before + rest);
        let cut = choose|cut: int|
            0 <= cut <= before.len() && is_in(first, #[trigger] before.subrange(0, cut)) && is_in(
                second,
                before.subrange(cut, before.len() as int),
            );
        assert(whole.subrange(0, cut) =~= before.subrange(0, cut));
        lemma_longer(second, none, before.subrange(cut, before.len() as int), rest);
        assert(whole.subrange(cut, whole.len() as int) =~= none + before.subrange(
            cut,
            before.len() as int,
        ) + rest);
    }
}

/// The text of a value shows all of it: a scalar by its word, its digits or its
/// text, an array every item between brackets, an object every key with its value
/// between braces.
pub proof fn law_value_text_shows_the_value(t: Tree)
    ensures
        match t {
            Tree::Null => value_text(t) == seq!['n', 'u', 'l', 'l'],
            Tree::Bool(b) => value_text(t) == if b {
                seq!['t', 'r', 'u', 'e']
            } else {
                seq!['f', 'a', 'l', 's', 'e']
            },
            Tree::Int(n) => i64::MIN <= n <= i64::MAX ==> (parsed_int(value_text(t)) matches Some(m)
                && m == n),
            Tree::BigInt(s) => value_text(t) == s,
            Tree::BigFloat(s) => value_text(t) == s,
            Tree::Float(s) => value_text(t) == s,
            Tree::String(s) => value_text(t) == quoted_text(s),
            Tree::Array(items) => {
                let w = value_text(t);
                &&& w.len() >= 2 && w[0] == '[' && w.last() == ']'
                &&& forall|i: int| 0 <= i < items.len() ==> is_in(value_text(#[trigger] items[i]), w)
            },
            Tree::Object(entries) => {
                let w = value_text(t);
                &&& w.len() >= 2 && w[0] == '{' && w.last() == '}'
                &&& forall|i: int|
                    0 <= i < entries.len() ==> are_in(
                        quoted_text((#[trigger] entries[i]).0),
                        value_text(entries[i].1),
                        w,
                    )
            },
        },
{
    reveal_strlit("null");
    reveal_strlit("true");
    reveal_strlit("false");
    reveal_strlit("[");
    reveal_strlit("]");
    reveal_strlit("{");
    reveal_strlit("}");
    let w = value_text(t);
    match t {
        Tree::Null => {
            assert("null"@ =~= seq!['n', 'u', 'l', 'l']);
        },
        Tree::Bool(b) => {
            assert("true"@ =~= seq!['t', 'r', 'u', 'e']);
            assert("false"@ =~= seq!['f', 'a', 'l', 's', 'e']);
        },
        Tree::Int(n) => {
            if i64::MIN <= n <= i64::MAX {
                law_integer_text_is_the_number(n);
            }
        },
        Tree::Array(items) => {
            let inner = items_text(items, items.len());
            assert(w == "["@ + inner + "]"@);
            assert forall|i: int| 0 <= i < items.len() implies is_in(
                value_text(#[trigger] items[i]),
                w,
            ) by {
                lemma_items_shown(items, items.len(), i);
                lemma_longer(value_text(items[i]), "["@, inner, "]"@);
            }
        },
        Tree::Object(entries) => {
            let inner = entries_text(entries, entries.len());
            assert(w == "{"@ + inner + "}"@);
            assert forall|i: int| 0 <= i < entries.len() implies are_in(
                quoted_text((#[trigger] entries[i]).0),
                value_text(entries[i].1),
                w,
            ) by {
                lemma_entries_shown(entries, entries.len(), i);
                let first = quoted_text(entries[i].0);
                let second = value_text(entries[i].1);
                let cut = choose|cut: int|
                    0 <= cut <= inner.len() && is_in(first, #[trigger] inner.subrange(0, cut))
                        && is_in(second, inner.subrange(cut, inner.len() as int));
                let none = Seq::<char>::empty();
                lemma_longer(first, "{"@, inner.subrange(0, cut), none);
                assert(w.subrange(0, cut + 1) =~= "{"@ + inner.subrange(0, cut) + none);
                lemma_longer(second, none, inner.subrange(cut, inner.len() as int), "}"@);
                assert(w.subrange(cut + 1, w.len() as int) =~= none + inner.subrange(
                    cut,
                    inner.len() as int,
                ) + "}"@);
            }
        },
        _ => {},
    }
}

/// The text of a document is that of its value. Of a stream it is those of its
/// documents, each behind the first after a line of three dashes.
pub proof fn law_document_text_shows_every_document(doc: DocModel, items: Seq<Tree>, k: nat)
    requires
        0 < k < items.len(),
    ensures
        doc.values() is None ==> document_text(doc) == value_text(doc.value),
        doc.values() == Some(items) ==> document_text(doc) == stream_text(items, items.len()),
        stream_text(items, 1) == value_text(items[0]),
        stream_text(items, k + 1) == stream_text(items, k) + seq!['\n', '-', '-', '-', '\n']
            + value_text(items[k as int]),
{
    reveal_strlit("\n---\n");
    assert("\n---\n"@ =~= seq!['\n', '-', '-', '-', '\n']);
    assert(stream_text(items, 0) =~= Seq::<char>::empty());
    assert(stream_text(items, 1) =~= value_text(items[0]));
}

/// The text of several texts shows each of them in quotes, and brackets around them.
pub proof fn law_list_text_shows_every_text(items: Seq<Seq<char>>, i: int)
    requires
        0 <= i < items.len(),
    ensures
        is_in(quoted_text(items[i]), quoted_list(items)),
        quoted_list(items)[0] == '[',
        quoted_list(items).last() == ']',
{
    reveal_strlit("[");
    reveal_strlit("]");
    lemma_quoted_shown(items, items.len(), i);
    lemma_longer(quoted_text(items[i]), "["@, quoted_items(items, items.len()), "]"@);
}

proof fn lemma_quoted_shown(items: Seq<Seq<char>>, k: nat, i: int)
    requires
        0 <= i < k <= items.len(),
    ensures
        is_in(quoted_text(items[i]), quoted_items(items, k)),
    decreases k,
{
    let before = quoted_items(items, (k - 1) as nat);
    let sign = crate::display::comma((k - 1) as nat);
    let one = quoted_text(items[k - 1]);
    let none = Seq::<char>::empty();
    if i == k - 1 {
        lemma_in(before + sign, one, none);
        assert(quoted_items(items, k) =~= before + sign + one + none);
    } else {
        lemma_quoted_shown(items, (k - 1) as nat, i);
        lemma_longer(quoted_text(items[i]), none, before, sign + one);
        assert(quoted_items(items, k) =~= none + before + (sign + one));
    }
}

} // verus!
