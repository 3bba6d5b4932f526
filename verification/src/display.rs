//! Values, documents and errors as a reader is shown them.

use crate::document::{DocModel, Document};
use crate::error::{texts, Error, Fault};
use crate::numbers::{decimal, signed_decimal, signed_text, unsigned_text};
use crate::text::joined;
use crate::value::{
    bool_text, bool_text_of, lemma_array_view, lemma_object_view, trees, Tree, Value, ValueMap,
};
use vstd::prelude::*;

verus! {

/// A text in quotes, as `{:?}` shows it.
pub uninterp spec fn quoted_text(s: Seq<char>) -> Seq<char>;

/// The `Debug` text of a `str`. The result is a function of the text; it is only
/// named here.
#[verifier::external_body]
pub(crate) fn quote_text(s: &str) -> (r: String)
    ensures
        r@ == quoted_text(s@),
{
    format!("{s:?}")
}

/// What stands before item `k` of a list.
pub open spec fn comma(k: nat) -> Seq<char> {
    if k > 0 {
        ", "@
    } else {
        Seq::empty()
    }
}

/// The first `k` of several texts in quotes.
pub open spec fn quoted_items(items: Seq<Seq<char>>, k: nat) -> Seq<char>
    decreases k,
{
    if k == 0 {
        Seq::empty()
    } else {
        quoted_items(items, (k - 1) as nat) + comma((k - 1) as nat) + quoted_text(items[k - 1])
    }
}

/// Several texts in quotes, in brackets.
pub open spec fn quoted_list(items: Seq<Seq<char>>) -> Seq<char> {
    "["@ + quoted_items(items, items.len()) + "]"@
}

/// Several texts in quotes, in brackets.
pub fn quote_list(items: &Vec<String>) -> (r: String)
    ensures
        r@ == quoted_list(texts(items@)),
{
    let ghost all = texts(items@);
    let mut out: String = String::new();
    out.push_str("[");
    assert(out@ =~= "["@ + quoted_items(all, 0));
    let mut i: usize = 0;
    while i < items.len()
        invariant
            i <= items@.len(),
            all == texts(items@),
            out@ == "["@ + quoted_items(all, i as nat),
        decreases items@.len() - i,
    {
        assert(all[i as int] == items@[i as int]@);
        if i > 0 {
            out.push_str(", ");
        }
        out.push_str(quote_text(items[i].as_str()).as_str());
        assert(out@ =~= "["@ + quoted_items(all, (i + 1) as nat));
        i += 1;
    }
    out.push_str("]");
    out
}

/// A value on one line.
pub open spec fn value_text(t: Tree) -> Seq<char>
    decreases t, 0nat,
{
    match t {
        Tree::Null => "null"@,
        Tree::Bool(b) => bool_text_of(b),
        Tree::Int(n) => signed_decimal(n),
        Tree::BigInt(s) | Tree::BigFloat(s) | Tree::Float(s) => s,
        Tree::String(s) => quoted_text(s),
        Tree::Array(items) => "["@ + items_text(items, items.len()) + "]"@,
        Tree::Object(entries) => "{"@ + entries_text(entries, entries.len()) + "}"@,
    }
}

/// The first `k` items on one line.
pub open spec fn items_text(items: Seq<Tree>, k: nat) -> Seq<char>
    decreases items, k,
{
    if k == 0 || k > items.len() {
        Seq::empty()
    } else {
        items_text(items, (k - 1) as nat) + comma((k - 1) as nat) + value_text(items[k - 1])
    }
}

/// The first `k` entries on one line.
pub open spec fn entries_text(entries: Seq<(Seq<char>, Tree)>, k: nat) -> Seq<char>
    decreases entries, k,
{
    if k == 0 || k > entries.len() {
        Seq::empty()
    } else {
        entries_text(entries, (k - 1) as nat) + comma((k - 1) as nat) + quoted_text(
            entries[k - 1].0,
        ) + ": "@ + value_text(entries[k - 1].1)
    }
}

fn push_value(v: &Value, out: &mut String)
    ensures
        final(out)@ == old(out)@ + value_text(v@),
    decreases v, 1int,
{
    broadcast use {lemma_array_view, lemma_object_view};

    match v {
        Value::Null => out.push_str("null"),
        Value::Bool(b) => out.push_str(bool_text(*b).as_str()),
        Value::Int(n) => out.push_str(signed_text(*n).as_str()),
        Value::BigInt(s) | Value::BigFloat(s) | Value::Float(s) => out.push_str(s.as_str()),
        Value::String(s) => out.push_str(quote_text(s.as_str()).as_str()),
        Value::Array(items) => push_items(items, out),
        Value::Object(map) => push_entries(map, out),
    }
}

fn push_items(items: &Vec<Value>, out: &mut String)
    ensures
        final(out)@ == old(out)@ + value_text(Tree::Array(trees(items@))),
    decreases items, 0int,
{
    let ghost all = trees(items@);
    let ghost start = out@;
    out.push_str("[");
    assert(out@ =~= start + "["@ + items_text(all, 0));
    let mut i: usize = 0;
    while i < items.len()
        invariant
            i <= items@.len(),
            all == trees(items@),
            start == old(out)@,
            out@ == start + "["@ + items_text(all, i as nat),
        decreases items@.len() - i,
    {
        assert(all[i as int] == items@[i as int]@);
        assert(decreases_to!(*items => items@));
        assert(decreases_to!(items@ => items@[i as int]));
        if i > 0 {
            out.push_str(", ");
        }
        push_value(&items[i], out);
        assert(out@ =~= start + "["@ + items_text(all, (i + 1) as nat));
        i += 1;
    }
    out.push_str("]");
    assert(out@ =~= start + value_text(Tree::Array(all)));
}

fn push_entries(map: &ValueMap, out: &mut String)
    ensures
        final(out)@ == old(out)@ + value_text(Tree::Object(map@)),
    decreases map, 0int,
{
    let ghost start = out@;
    out.push_str("{");
    assert(out@ =~= start + "{"@ + entries_text(map@, 0));
    let mut i: usize = 0;
    while i < map.entries.len()
        invariant
            i <= map.entries@.len(),
            start == old(out)@,
            out@ == start + "{"@ + entries_text(map@, i as nat),
        decreases map.entries@.len() - i,
    {
        assert(map@[i as int] == (map.entries@[i as int].0@, map.entries@[i as int].1@));
        assert(decreases_to!(*map => map.entries));
        assert(decreases_to!(map.entries => map.entries@));
        assert(decreases_to!(map.entries@ => map.entries@[i as int]));
        assert(decreases_to!(map.entries@[i as int] => map.entries@[i as int].1));
        if i > 0 {
            out.push_str(", ");
        }
        out.push_str(quote_text(map.entries[i].0.as_str()).as_str());
        out.push_str(": ");
        push_value(&map.entries[i].1, out);
        assert(out@ =~= start + "{"@ + entries_text(map@, (i + 1) as nat));
        i += 1;
    }
    out.push_str("}");
    assert(out@ =~= start + value_text(Tree::Object(map@)));
}

/// The first `k` documents of a stream, a line of dashes between them.
pub open spec fn stream_text(items: Seq<Tree>, k: nat) -> Seq<char>
    decreases k,
{
    if k == 0 {
        Seq::empty()
    } else {
        stream_text(items, (k - 1) as nat) + (if k > 1 {
            "\n---\n"@
        } else {
            Seq::empty()
        }) + value_text(items[k - 1])
    }
}

/// A document, its values on one line each.
pub open spec fn document_text(doc: DocModel) -> Seq<char> {
    match doc.values() {
        Some(items) => stream_text(items, items.len()),
        None => value_text(doc.value),
    }
}

impl Value {
    /// The value on one line.
    pub fn to_text(&self) -> (r: String)
        ensures
            r@ == value_text(self@),
    {
        let mut out: String = String::new();
        push_value(self, &mut out);
        assert(out@ =~= value_text(self@));
        out
    }
}

impl Document {
    /// The document, its values on one line each.
    pub fn to_text(&self) -> (r: String)
        ensures
            r@ == document_text(self@),
    {
        let items: &[Value] = match self.values() {
            Some(items) => items,
            None => {
                return self.value().to_text();
            },
        };
        let ghost all = trees(items@);
        let mut out: String = String::new();
        assert(out@ =~= stream_text(all, 0));
        let mut i: usize = 0;
        while i < items.len()
            invariant
                i <= items@.len(),
                all == trees(items@),
                out@ == stream_text(all, i as nat),
            decreases items@.len() - i,
        {
            assert(all[i as int] == items@[i as int]@);
            if i > 0 {
                out.push_str("\n---\n");
            }
            push_value(&items[i], &mut out);
            assert(out@ =~= stream_text(all, (i + 1) as nat));
            i += 1;
        }
        out
    }
}

/// An error in words.
pub open spec fn fault_text(f: Fault) -> Seq<char> {
    match f {
        Fault::Io { path, source } => "I/O error reading '"@ + path + "': "@ + source,
        Fault::WriteIo { path, source } => "I/O error writing '"@ + path + "': "@ + source,
        Fault::Parse { file, message, .. } => "parse error"@ + (match file {
            Some(name) => " in "@ + name,
            None => Seq::empty(),
        }) + ": "@ + message,
        Fault::Path { pointer, matched_prefix, .. } => "path '"@ + pointer
            + "' not found (matched up to '"@ + matched_prefix + "')"@,
        Fault::UnsupportedFormat { name } => "unsupported format '"@ + name + "'"@,
        Fault::Format { format, message } => format + " format error: "@ + message,
        Fault::WriteUnavailable { reason } => "write operation unavailable: "@ + reason,
        Fault::TemplatedFile { line, snippet, hint } => "file contains Go template syntax (line "@
            + decimal(line as nat) + "): "@ + snippet + "\n  hint: "@ + hint,
        Fault::PatchTestFailed { pointer, expected, actual } => "RFC 6902 test op failed at "@
            + pointer + ": expected "@ + value_text(expected) + ", got "@ + value_text(actual),
    }
}

impl Error {
    /// The error in words.
    pub fn to_text(&self) -> (r: String)
        ensures
            r@ == fault_text(self@),
    {
        match self {
            Error::Io { path, source } => {
                let mut out: String = joined("I/O error reading '", path.as_str());
                out.push_str("': ");
                out.push_str(source.as_str());
                out
            },
            Error::WriteIo { path, source } => {
                let mut out: String = joined("I/O error writing '", path.as_str());
                out.push_str("': ");
                out.push_str(source.as_str());
                out
            },
            Error::Parse { file, message, .. } => {
                let mut out: String = "parse error".to_owned();
                match file {
                    Some(name) => {
                        out.push_str(joined(" in ", name.as_str()).as_str());
                    },
                    None => {
                        assert(out@ + Seq::<char>::empty() =~= out@);
                    },
                }
                out.push_str(": ");
                out.push_str(message.as_str());
                out
            },
            Error::Path { pointer, matched_prefix, .. } => {
                let mut out: String = joined("path '", pointer.as_str());
                out.push_str("' not found (matched up to '");
                out.push_str(matched_prefix.as_str());
                out.push_str("')");
                out
            },
            Error::UnsupportedFormat { name } => {
                let mut out: String = joined("unsupported format '", name.as_str());
                out.push_str("'");
                out
            },
            Error::Format { format, message } => {
                let mut out: String = joined(format, " format error: ");
                out.push_str(message.as_str());
                out
            },
            Error::WriteUnavailable { reason } => joined(
                "write operation unavailable: ",
                reason.as_str(),
            ),
            Error::TemplatedFile { line, snippet, hint } => {
                let mut out: String = joined(
                    "file contains Go template syntax (line ",
                    unsigned_text(*line as u64).as_str(),
                );
                out.push_str("): ");
                out.push_str(snippet.as_str());
                out.push_str("\n  hint: ");
                out.push_str(hint.as_str());
                out
            },
            Error::PatchTestFailed { pointer, expected, actual } => {
                let mut out: String = joined("RFC 6902 test op failed at ", pointer.as_str());
                out.push_str(": expected ");
                out.push_str(expected.to_text().as_str());
                out.push_str(", got ");
                out.push_str(actual.to_text().as_str());
                out
            },
        }
    }
}

} // verus!
