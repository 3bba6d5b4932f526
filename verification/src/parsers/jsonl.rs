//! JSON lines: one JSON value on each line.
//!
//! The lines are read into an array. An array is written with one line for each
//! item, anything else as a single line.

use crate::bytes::{append_text, utf8_of};
use crate::document::{bare, DocModel, Document};
use crate::error::{
    format_fault, unplaced_parse, unplaced_parse_error, Error, Fault,
};
use crate::format::{emitted, extension_list, Emission, Format};
use crate::format_tag::FormatTag;
use crate::parsers::json::{
    append_json, json_document, json_emission, json_keys_parse, parse_json_checked,
};
use crate::parsers::json_write::{
    json_compact, json_pretty, write_value_compact, write_value_pretty_with_step,
};
use crate::parsers::json_spelling::{
    is_spelled, law_written_bytes_spell_the_value, lemma_encode_two, readable_depth, spells,
};
use crate::parsers::jsonl_spelling::{
    lemma_line, lemma_lines, lines_text, spells_json_lines, spells_lines,
};
use crate::position::wrapped;
use crate::text::{
    chars_of, joined, split_chars, split_on, text_of, trim, trim_chars, trim_end_of,
    trim_end_of_chars,
};
use crate::utf8_text::{checked_text, utf8_fault_text};
use crate::value::{lemma_array_view, trees, Tree, Value};
use crate::write_options::{canonical_tree, canonicalize_keys, WriteOptions};
use vstd::prelude::*;
use vstd::utf8::{
    decode_utf8, encode_utf8, encode_utf8_decode_utf8, encode_utf8_valid_utf8, valid_utf8,
};

verus! {

/// JSONL format implementation.
#[derive(Debug, Clone, Copy)]
pub struct Jsonl;

// ---------------------------------------------------------------------------
// Reading
// ---------------------------------------------------------------------------

/// A fault in one line, as a fault in the file.
pub open spec fn placed_on_line(f: Fault, number: nat, line: Seq<char>) -> Fault {
    match f {
        Fault::Parse { message, .. } => Fault::Parse {
            file: None,
            line: wrapped(number),
            col: 1,
            start: 0,
            end: 0,
            snippet: line,
            message,
        },
        other => other,
    }
}

/// The values on the first `k` lines, or the fault of the first line that is no
/// JSON. Blank lines are passed over.
pub open spec fn line_values(lines: Seq<Seq<char>>, k: int) -> Result<Seq<Tree>, Fault>
    decreases k,
{
    if k <= 0 {
        Ok(Seq::empty())
    } else {
        match line_values(lines, k - 1) {
            Err(f) => Err(f),
            Ok(before) => {
                let line = trim_end_of(lines[k - 1], '\r');
                if trim(line).len() == 0 {
                    Ok(before)
                } else {
                    match json_document(encode_utf8(line)) {
                        Ok(doc) => Ok(before.push(doc.value)),
                        Err(f) => Err(placed_on_line(f, k as nat, line)),
                    }
                }
            },
        }
    }
}

/// Whether none of the first `k` lines that are read has an empty key on the way
/// to a scalar.
pub open spec fn lines_parse(lines: Seq<Seq<char>>, k: int) -> bool
    decreases k,
{
    if k <= 0 {
        true
    } else {
        let line = trim_end_of(lines[k - 1], '\r');
        lines_parse(lines, k - 1) && (line_values(lines, k - 1) is Ok && trim(line).len() > 0
            ==> json_keys_parse(encode_utf8(line)))
    }
}

/// The values on the lines of a text.
pub open spec fn jsonl_values(text: Seq<char>) -> Result<Seq<Tree>, Fault> {
    let lines = split_on(text, '\n');
    line_values(lines, lines.len() as int)
}

/// Whether no line of JSON bytes that is read has an empty key on the way to a
/// scalar.
pub open spec fn jsonl_keys_parse(bytes: Seq<u8>) -> bool {
    valid_utf8(bytes) ==> {
        let lines = split_on(decode_utf8(bytes), '\n');
        lines_parse(lines, lines.len() as int)
    }
}

/// What bytes of JSON lines come to.
pub open spec fn jsonl_document(bytes: Seq<u8>) -> Result<DocModel, Fault> {
    if !valid_utf8(bytes) {
        Err(unplaced_parse("invalid UTF-8 in JSONL input: "@ + utf8_fault_text(bytes)))
    } else {
        match jsonl_values(decode_utf8(bytes)) {
            Ok(items) => Ok(bare(Tree::Array(items), FormatTag::Jsonl, false)),
            Err(f) => Err(f),
        }
    }
}

proof fn lemma_lines_fail(lines: Seq<Seq<char>>, k: int, n: int)
    requires
        0 <= k <= n,
        line_values(lines, k) is Err,
    ensures
        line_values(lines, n) == line_values(lines, k),
        lines_parse(lines, n) == lines_parse(lines, k),
    decreases n - k,
{
    if k < n {
        lemma_lines_fail(lines, k, n - 1);
    }
}

proof fn lemma_lines_refused(lines: Seq<Seq<char>>, k: int, n: int)
    requires
        0 <= k <= n,
        !lines_parse(lines, k),
    ensures
        !lines_parse(lines, n),
    decreases n - k,
{
    if k < n {
        lemma_lines_refused(lines, k, n - 1);
    }
}

fn place_on_line(e: Error, number: u32, line: String) -> (r: Error)
    ensures
        forall|n: nat| number == wrapped(n) ==> r@ == #[trigger] placed_on_line(e@, n, line@),
{
    match e {
        Error::Parse { message, .. } => Error::Parse {
            file: None,
            line: number,
            col: 1,
            span: 0..0,
            snippet: line,
            message,
        },
        other => other,
    }
}

/// Whether what came of a line is the value that the line spells, if it spells
/// one.
#[verifier::opaque]
spec fn line_gives(line: Seq<char>, got: Option<Tree>) -> bool {
    forall|t: Tree| #[trigger] spells(encode_utf8(line), t) ==> got == Some(t)
}

/// Whether what came of a text are the values that it spells line by line, if it
/// spells some.
#[verifier::opaque]
spec fn text_gives(text: Seq<char>, got: Option<Seq<Tree>>) -> bool {
    forall|ts: Seq<Tree>| #[trigger] spells_lines(text, ts) ==> got == Some(ts)
}

/// What comes of a line: its value, if there is one; nothing where a key on the
/// way to a scalar is empty.
spec fn line_read(line: Seq<char>, number: nat) -> Option<Result<Option<Tree>, Fault>> {
    if trim(line).len() == 0 {
        Some(Ok(None))
    } else if !json_keys_parse(encode_utf8(line)) {
        None
    } else {
        match json_document(encode_utf8(line)) {
            Ok(doc) => Some(Ok(Some(doc.value))),
            Err(f) => Some(Err(placed_on_line(f, number, line))),
        }
    }
}

/// Whether an outcome agrees with what is to come of a line.
spec fn line_agrees(
    r: Option<Result<Option<Value>, Error>>,
    model: Option<Result<Option<Tree>, Fault>>,
) -> bool {
    match (r, model) {
        (None, None) => true,
        (Some(Ok(None)), Some(Ok(None))) => true,
        (Some(Ok(Some(v))), Some(Ok(Some(t)))) => v@ == t,
        (Some(Err(e)), Some(Err(f))) => e@ == f,
        _ => false,
    }
}

/// The value in what came of a line.
spec fn value_in(model: Option<Result<Option<Tree>, Fault>>) -> Option<Tree> {
    match model {
        Some(Ok(value)) => value,
        _ => None,
    }
}

/// Reads the value on a line, if there is one; nothing where a key on the way to
/// a scalar is empty.
fn read_line(line: &Vec<char>, number: u32) -> (r: Option<Result<Option<Value>, Error>>)
    ensures
        forall|n: nat| number == wrapped(n) ==> line_agrees(r, #[trigger] line_read(line@, n)),
        forall|n: nat|
            trim(line@).len() > 0 && r is Some ==> line_gives(
                line@,
                value_in(#[trigger] line_read(line@, n)),
            ),
{
    reveal(line_gives);
    if trim_chars(line).len() == 0 {
        return Some(Ok(None));
    }
    let shown: String = text_of(line);
    let raw: Vec<u8> = utf8_of(shown.as_str());
    match parse_json_checked(raw.as_slice()) {
        None => None,
        Some(Ok(doc)) => Some(Ok(Some(doc.value().clone()))),
        Some(Err(e)) => {
            let placed: Error = place_on_line(e, number, shown);
            assert forall|n: nat| number == wrapped(n) implies line_agrees(
                Some(Err(placed)),
                #[trigger] line_read(line@, n),
            ) by {
                assert(placed@ == placed_on_line(e@, n, line@));
            }
            Some(Err(placed))
        },
    }
}

/// Whether the values that were read from the first `i` lines are the first
/// ones of any that the text spells.
#[verifier::opaque]
spec fn reads_on(text: Seq<char>, got: Seq<Tree>, i: int) -> bool {
    forall|ts: Seq<Tree>| #[trigger]
        spells_lines(text, ts) ==> got == ts.subrange(0, if i <= ts.len() {
            i
        } else {
            ts.len() as int
        })
}

proof fn lemma_reads_nothing(text: Seq<char>)
    ensures
        so_far(text, Seq::empty(), 0),
{
    reveal(so_far);
    reveal(reads_on);
    assert forall|ts: Seq<Tree>| #[trigger] spells_lines(text, ts) implies Seq::<Tree>::empty()
        == ts.subrange(0, 0) by {
        assert(ts.subrange(0, 0) =~= Seq::<Tree>::empty());
    }
}

proof fn lemma_reads_on(text: Seq<char>, got: Seq<Tree>, i: int, value: Option<Tree>)
    requires
        reads_on(text, got, i),
        0 <= i < split_on(text, '\n').len(),
        ({
            let line = trim_end_of(split_on(text, '\n')[i], '\r');
            match value {
                Some(_) => trim(line).len() > 0 && line_gives(line, value),
                None => trim(line).len() == 0,
            }
        }),
    ensures
        reads_on(
            text,
            match value {
                Some(v) => got.push(v),
                None => got,
            },
            i + 1,
        ),
{
    reveal(reads_on);
    reveal(line_gives);
    assert forall|ts: Seq<Tree>| #[trigger] spells_lines(text, ts) implies (match value {
        Some(v) => got.push(v),
        None => got,
    }) == ts.subrange(0, if i + 1 <= ts.len() {
        i + 1
    } else {
        ts.len() as int
    }) by {
        lemma_lines(text, ts);
        lemma_line(text, ts, i);
        if i < ts.len() {
            assert(ts.subrange(0, i + 1) =~= ts.subrange(0, i).push(ts[i]));
        }
    }
}

/// Whether the first `i` lines were read into these values.
#[verifier::opaque]
spec fn so_far(text: Seq<char>, got: Seq<Tree>, i: int) -> bool {
    let all = split_on(text, '\n');
    &&& lines_parse(all, i)
    &&& line_values(all, i) == Ok::<_, Fault>(got)
    &&& reads_on(text, got, i)
}

/// Whether the whole text came to this: nothing where a key on the way to a
/// scalar is empty.
#[verifier::opaque]
spec fn text_read(text: Seq<char>, model: Option<Result<Seq<Tree>, Fault>>) -> bool {
    let all = split_on(text, '\n');
    match model {
        None => !lines_parse(all, all.len() as int),
        Some(outcome) => {
            &&& lines_parse(all, all.len() as int)
            &&& outcome == jsonl_values(text)
            &&& text_gives(
                text,
                match outcome {
                    Ok(items) => Some(items),
                    Err(_) => None,
                },
            )
        },
    }
}

/// What the lines before and one more come to.
proof fn lemma_one_more_line(text: Seq<char>, before: Seq<Tree>, i: int)
    requires
        0 <= i < split_on(text, '\n').len(),
        so_far(text, before, i),
        ({
            let line = trim_end_of(split_on(text, '\n')[i], '\r');
            let model = line_read(line, (i + 1) as nat);
            trim(line).len() > 0 && model is Some ==> line_gives(line, value_in(model))
        }),
    ensures
        ({
            let all = split_on(text, '\n');
            match line_read(trim_end_of(all[i], '\r'), (i + 1) as nat) {
                None => text_read(text, None),
                Some(Ok(Some(v))) => so_far(text, before.push(v), i + 1),
                Some(Ok(None)) => so_far(text, before, i + 1),
                Some(Err(f)) => text_read(text, Some(Err(f))),
            }
        }),
{
    reveal(so_far);
    reveal(text_read);
    let all = split_on(text, '\n');
    let line = trim_end_of(all[i], '\r');
    match line_read(line, (i + 1) as nat) {
        None => {
            lemma_lines_refused(all, i + 1, all.len() as int);
        },
        Some(Ok(value)) => {
            lemma_reads_on(text, before, i, value);
        },
        Some(Err(f)) => {
            lemma_lines_fail(all, i + 1, all.len() as int);
            lemma_fault_is_not_spelled(text, i);
        },
    }
}

/// Reads the values on the lines of a text, or nothing where a key on the way
/// to a scalar is empty. A text that spells values line by line and is read
/// gives those values back.
pub fn read_lines(text: &str) -> (r: Option<Result<Vec<Value>, Error>>)
    ensures
        match r {
            Some(outcome) => {
                &&& lines_parse(split_on(text@, '\n'), split_on(text@, '\n').len() as int)
                &&& match (outcome, jsonl_values(text@)) {
                    (Ok(items), Ok(m)) => trees(items@) == m,
                    (Err(e), Err(f)) => e@ == f,
                    _ => false,
                }
            },
            None => !lines_parse(split_on(text@, '\n'), split_on(text@, '\n').len() as int),
        },
        forall|ts: Seq<Tree>| #[trigger]
            spells_lines(text@, ts) ==> (r matches Some(outcome) ==> (outcome matches Ok(items)
                && trees(items@) == ts)),
{
    reveal(text_gives);
    reveal(text_read);
    read_all(text)
}

/// Reads the values on the lines of a text, or nothing where a key on the way
/// to a scalar is empty.
fn read_all(text: &str) -> (r: Option<Result<Vec<Value>, Error>>)
    ensures
        match r {
            None => text_read(text@, None),
            Some(Ok(items)) => text_read(text@, Some(Ok(trees(items@)))),
            Some(Err(e)) => text_read(text@, Some(Err(e@))),
        },
{
    let lines: Vec<Vec<char>> = split_chars(&chars_of(text), '\n');
    let ghost all = split_on(text@, '\n');
    let mut items: Vec<Value> = Vec::new();
    assert(trees(items@) =~= Seq::<Tree>::empty());
    let mut number: u32 = 0;
    let mut i: usize = 0;
    proof {
        lemma_reads_nothing(text@);
    }
    while i < lines.len()
        invariant
            i <= lines@.len() == all.len(),
            all == split_on(text@, '\n'),
            forall|k: int| 0 <= k < lines@.len() ==> #[trigger] lines@[k]@ == all[k],
            number == wrapped(i as nat),
            so_far(text@, trees(items@), i as int),
        decreases lines@.len() - i,
    {
        let ghost before = trees(items@);
        number = number.wrapping_add(1);
        let line: Vec<char> = trim_end_of_chars(&lines[i], '\r');
        let outcome: Option<Result<Option<Value>, Error>> = read_line(&line, number);
        proof {
            assert(number == wrapped((i + 1) as nat));
            assert(line_agrees(outcome, line_read(line@, (i + 1) as nat)));
            lemma_one_more_line(text@, before, i as int);
        }
        match outcome {
            None => {
                return None;
            },
            Some(Ok(None)) => {},
            Some(Ok(Some(value))) => {
                let ghost one = value@;
                items.push(value);
                assert(trees(items@) =~= before.push(one));
            },
            Some(Err(e)) => {
                return Some(Err(e));
            },
        }
        i += 1;
    }
    proof {
        lemma_read_to_the_end(text@, trees(items@));
    }
    Some(Ok(items))
}

/// A text with a line that is not blank and spells no value spells no values.
proof fn lemma_fault_is_not_spelled(text: Seq<char>, i: int)
    requires
        0 <= i < split_on(text, '\n').len(),
        ({
            let line = trim_end_of(split_on(text, '\n')[i], '\r');
            trim(line).len() > 0 && line_gives(line, None)
        }),
    ensures
        text_gives(text, None),
{
    reveal(line_gives);
    reveal(text_gives);
    assert forall|ts: Seq<Tree>| !#[trigger] spells_lines(text, ts) by {
        if spells_lines(text, ts) {
            lemma_lines(text, ts);
            lemma_line(text, ts, i);
        }
    }
}

proof fn lemma_read_to_the_end(text: Seq<char>, got: Seq<Tree>)
    requires
        so_far(text, got, split_on(text, '\n').len() as int),
    ensures
        text_read(text, Some(Ok(got))),
{
    reveal(so_far);
    reveal(text_read);
    reveal(reads_on);
    reveal(text_gives);
    assert forall|ts: Seq<Tree>| #[trigger] spells_lines(text, ts) implies got == ts by {
        lemma_lines(text, ts);
        assert(ts.subrange(0, ts.len() as int) =~= ts);
    }
}

proof fn lemma_decoded_lines(bytes: Seq<u8>)
    ensures
        forall|ts: Seq<Tree>| #[trigger]
            spells_json_lines(bytes, ts) ==> valid_utf8(bytes) && spells_lines(
                decode_utf8(bytes),
                ts,
            ),
{
    assert forall|ts: Seq<Tree>| #[trigger] spells_json_lines(bytes, ts) implies valid_utf8(bytes)
        && spells_lines(decode_utf8(bytes), ts) by {
        encode_utf8_valid_utf8(lines_text(ts));
        encode_utf8_decode_utf8(lines_text(ts));
    }
}

// ---------------------------------------------------------------------------
// Writing
// ---------------------------------------------------------------------------

/// An item as the options lay it out: on one line, unless they indent it.
pub open spec fn item_text(t: Tree, opts: WriteOptions) -> (Seq<char>, bool) {
    let shown = if opts.sort_keys {
        canonical_tree(t)
    } else {
        t
    };
    match opts.indent {
        Some(n) => if n == 0 {
            json_compact(shown)
        } else {
            json_pretty(shown, n as nat)
        },
        None => json_compact(shown),
    }
}

/// What is written of an item, its line ended.
pub open spec fn item_emission(t: Tree, opts: WriteOptions) -> Emission {
    let one = json_emission(item_text(t, opts));
    if one.1 is Ok {
        (one.0 + encode_utf8("\n"@), Ok(()))
    } else {
        one
    }
}

/// What is written of the first `k` items.
pub open spec fn items_emission(items: Seq<Tree>, opts: WriteOptions, k: int) -> Emission
    decreases k,
{
    if k <= 0 {
        (Seq::empty(), Ok(()))
    } else {
        let before = items_emission(items, opts, k - 1);
        if before.1 is Err {
            before
        } else {
            let one = item_emission(items[k - 1], opts);
            (before.0 + one.0, one.1)
        }
    }
}

/// What the writer makes of a document under options.
pub open spec fn jsonl_written_with(doc: DocModel, opts: WriteOptions) -> Emission {
    if doc.multi {
        (Seq::empty(), Err(format_fault("jsonl"@, "multi-doc not supported in jsonl"@)))
    } else {
        match doc.value {
            Tree::Array(items) => items_emission(items, opts, items.len() as int),
            other => item_emission(other, opts),
        }
    }
}

/// The options that change nothing.
pub open spec fn plain_options() -> WriteOptions {
    WriteOptions { sort_keys: false, indent: None }
}

fn write_item(v: &Value, w: &mut Vec<u8>, opts: &WriteOptions) -> (r: Result<(), Error>)
    ensures
        emitted(r, item_emission(v@, *opts), old(w)@, final(w)@),
{
    let shown: Value = if opts.sort_keys {
        canonicalize_keys(v)
    } else {
        v.clone()
    };
    let mut text: String = String::new();
    assert(text@ =~= Seq::<char>::empty());
    let whole: bool = match opts.indent {
        Some(n) => if n == 0 {
            write_value_compact(&shown, &mut text)
        } else {
            write_value_pretty_with_step(&shown, &mut text, n as usize)
        },
        None => write_value_compact(&shown, &mut text),
    };
    assert(text@ =~= item_text(v@, *opts).0);
    match append_json(w, text.as_str(), whole) {
        Ok(()) => {
            append_text(w, "\n");
            assert(w@ =~= old(w)@ + item_emission(v@, *opts).0);
            Ok(())
        },
        Err(e) => Err(e),
    }
}

proof fn lemma_items_fail(items: Seq<Tree>, opts: WriteOptions, k: int, n: int)
    requires
        0 <= k <= n,
        items_emission(items, opts, k).1 is Err,
    ensures
        items_emission(items, opts, n) == items_emission(items, opts, k),
    decreases n - k,
{
    if k < n {
        lemma_items_fail(items, opts, k, n - 1);
    }
}

fn write_items(items: &Vec<Value>, w: &mut Vec<u8>, opts: &WriteOptions) -> (r: Result<(), Error>)
    ensures
        emitted(
            r,
            items_emission(trees(items@), *opts, items@.len() as int),
            old(w)@,
            final(w)@,
        ),
{
    let ghost all = trees(items@);
    let mut i: usize = 0;
    assert(w@ =~= old(w)@ + items_emission(all, *opts, 0).0);
    while i < items.len()
        invariant
            i <= items@.len() == all.len(),
            all == trees(items@),
            items_emission(all, *opts, i as int).1 is Ok,
            w@ == old(w)@ + items_emission(all, *opts, i as int).0,
        decreases items@.len() - i,
    {
        assert(all[i as int] == items@[i as int]@);
        let ghost next = items_emission(all, *opts, i + 1);
        let outcome: Result<(), Error> = write_item(&items[i], w, opts);
        assert(w@ =~= old(w)@ + next.0);
        match outcome {
            Ok(()) => {},
            Err(e) => {
                proof {
                    lemma_items_fail(all, *opts, i + 1, all.len() as int);
                }
                return Err(e);
            },
        }
        i += 1;
    }
    Ok(())
}

impl Format for Jsonl {
    open spec fn tag(&self) -> FormatTag {
        FormatTag::Jsonl
    }

    open spec fn parses(&self, bytes: Seq<u8>) -> bool {
        jsonl_keys_parse(bytes)
    }

    open spec fn parse_model(&self, bytes: Seq<u8>) -> Result<DocModel, Fault> {
        jsonl_document(bytes)
    }

    open spec fn write_model(&self, doc: DocModel) -> Emission {
        jsonl_written_with(doc, plain_options())
    }

    open spec fn options_model(&self, doc: DocModel, opts: WriteOptions) -> Emission {
        jsonl_written_with(doc, opts)
    }

    fn name(&self) -> (r: &'static str) {
        FormatTag::Jsonl.name()
    }

    fn extensions(&self) -> (r: Vec<&'static str>) {
        extension_list(FormatTag::Jsonl)
    }

    /// Bytes that spell values line by line give those values back.
    fn parse(&self, bytes: &[u8]) -> (r: Result<Document, Error>)
        ensures
            forall|ts: Seq<Tree>| #[trigger]
                spells_json_lines(bytes@, ts) ==> (r matches Ok(doc) && doc@.value == Tree::Array(
                    ts,
                )),
    {
        self.parse_checked(bytes).unwrap()
    }

    /// Bytes that spell values line by line, and are parsed, give those values
    /// back.
    fn parse_checked(&self, bytes: &[u8]) -> (r: Option<Result<Document, Error>>)
        ensures
            forall|ts: Seq<Tree>| #[trigger]
                spells_json_lines(bytes@, ts) ==> (r matches Some(outcome) ==> (outcome matches Ok(
                    doc,
                ) && doc@.value == Tree::Array(ts))),
    {
        proof {
            lemma_decoded_lines(bytes@);
        }
        match checked_text(bytes) {
            Ok(text) => match read_lines(text.as_str()) {
                None => None,
                Some(Ok(items)) => {
                    proof {
                        lemma_array_view(items);
                    }
                    Some(Ok(Document::value_only(Value::Array(items), FormatTag::Jsonl)))
                },
                Some(Err(e)) => Some(Err(e)),
            },
            Err(message) => Some(
                Err(
                    unplaced_parse_error(
                        joined("invalid UTF-8 in JSONL input: ", message.as_str()),
                    ),
                ),
            ),
        }
    }

    fn write(&self, doc: &Document, w: &mut Vec<u8>) -> (r: Result<(), Error>) {
        self.write_with_options(doc, w, &WriteOptions { sort_keys: false, indent: None })
    }

    fn write_with_options(&self, doc: &Document, w: &mut Vec<u8>, opts: &WriteOptions) -> (r: Result<
        (),
        Error,
    >) {
        assert(w@ + Seq::<u8>::empty() =~= w@);
        if doc.is_multi() {
            return Err(
                Error::Format {
                    format: "jsonl",
                    message: "multi-doc not supported in jsonl".to_owned(),
                },
            );
        }
        match doc.value() {
            Value::Array(items) => {
                proof {
                    lemma_array_view(*items);
                }
                write_items(items, w, opts)
            },
            other => write_item(other, w, opts),
        }
    }
}

proof fn lemma_lines_end(items: Seq<Tree>, k: int)
    requires
        0 <= k < items.len(),
    ensures
        lines_text(items.subrange(0, k + 1)) == lines_text(items.subrange(0, k)) + json_compact(
            items[k],
        ).0 + seq!['\n'],
    decreases k,
{
    let now = items.subrange(0, k + 1);
    let before = items.subrange(0, k);
    if k == 0 {
        assert(now.drop_first().len() == 0);
        assert(lines_text(now.drop_first()) == Seq::<char>::empty());
        assert(lines_text(before) == Seq::<char>::empty());
        assert(now[0] == items[0]);
        assert(lines_text(now) =~= lines_text(before) + json_compact(items[k]).0 + seq!['\n']);
    } else {
        let others = items.drop_first();
        assert(now.drop_first() =~= others.subrange(0, k));
        assert(before.drop_first() =~= others.subrange(0, k - 1));
        assert(others[k - 1] == items[k]);
        lemma_lines_end(others, k - 1);
        assert(lines_text(now) =~= lines_text(before) + json_compact(items[k]).0 + seq!['\n']);
    }
}

proof fn lemma_items_written(items: Seq<Tree>, k: int)
    requires
        0 <= k <= items.len(),
        forall|i: int| 0 <= i < items.len() ==> is_spelled(#[trigger] items[i], readable_depth()),
    ensures
        items_emission(items, plain_options(), k) == (
            encode_utf8(lines_text(items.subrange(0, k))),
            Ok::<(), Fault>(()),
        ),
    decreases k,
{
    if k == 0 {
        assert(items.subrange(0, 0) =~= Seq::<Tree>::empty());
        assert(encode_utf8(Seq::<char>::empty()) =~= Seq::<u8>::empty());
    } else {
        lemma_items_written(items, k - 1);
        lemma_lines_end(items, k - 1);
        law_written_bytes_spell_the_value(items[k - 1], false, 2);
        let before = lines_text(items.subrange(0, k - 1));
        let text = json_compact(items[k - 1]).0;
        reveal_strlit("\n");
        assert("\n"@ =~= seq!['\n']);
        lemma_encode_two(before, text);
        lemma_encode_two(before + text, seq!['\n']);
        assert(encode_utf8(before) + (encode_utf8(text) + encode_utf8(seq!['\n'])) =~= encode_utf8(
            before,
        ) + encode_utf8(text) + encode_utf8(seq!['\n']));
    }
}

/// An array of values that JSON text spells is written to the end, as bytes that
/// spell its items line by line.
pub proof fn law_items_are_written_line_by_line(doc: DocModel, items: Seq<Tree>)
    requires
        !doc.multi,
        doc.value == Tree::Array(items),
        forall|i: int| 0 <= i < items.len() ==> is_spelled(#[trigger] items[i], readable_depth()),
    ensures
        Jsonl.write_model(doc).1 is Ok,
        spells_json_lines(Jsonl.write_model(doc).0, items),
{
    lemma_items_written(items, items.len() as int);
    assert(items.subrange(0, items.len() as int) =~= items);
}

} // verus!
