//! The JSON writer.

use crate::bytes::utf8_of;
use crate::error::{format_fault, Error, Fault};
use crate::numbers::{signed_decimal, signed_text};
use crate::spans::SpanContext;
use crate::text::{chars_of, has_char, same_text};
use crate::textual_edit::{InsertionRenderer, ScalarRenderer};
use crate::value::{
    bool_text, bool_text_of, lemma_array_view, lemma_object_view, trees, Tree, Value, ValueMap,
};
use vstd::prelude::*;
use vstd::utf8::encode_utf8;

verus! {

/// `n` spaces.
pub open spec fn spaces(n: nat) -> Seq<char> {
    Seq::new(n, |i: int| ' ')
}

/// Appends `n` spaces.
pub fn push_spaces(out: &mut String, n: usize)
    ensures
        final(out)@ == old(out)@ + spaces(n as nat),
{
    let mut i: usize = 0;
    assert(out@ =~= old(out)@ + spaces(0));
    while i < n
        invariant
            i <= n,
            out@ == old(out)@ + spaces(i as nat),
        decreases n - i,
    {
        out.push(' ');
        i += 1;
        assert(out@ =~= old(out)@ + spaces(i as nat));
    }
}

/// A lower-case hexadecimal digit.
pub open spec fn hex_digit(d: nat) -> char {
    if d < 10 {
        (48 + d) as char
    } else {
        (87 + d) as char
    }
}

/// The lower-case hexadecimal digit of `d`.
pub fn hex_char(d: u32) -> (r: char)
    requires
        d < 16,
    ensures
        r == hex_digit(d as nat),
{
    if d < 10 {
        (48 + d as u8) as char
    } else {
        (87 + d as u8) as char
    }
}

/// How one character is written inside a JSON string.
pub open spec fn json_escaped_char(c: char) -> Seq<char> {
    if c == '"' {
        seq!['\\', '"']
    } else if c == '\\' {
        seq!['\\', '\\']
    } else if c == '\n' {
        seq!['\\', 'n']
    } else if c == '\r' {
        seq!['\\', 'r']
    } else if c == '\t' {
        seq!['\\', 't']
    } else if c as u32 == 8 {
        seq!['\\', 'b']
    } else if c as u32 == 12 {
        seq!['\\', 'f']
    } else if (c as u32) < 0x20 {
        seq!['\\', 'u', '0', '0', hex_digit((c as u32 / 16) as nat), hex_digit((c as u32 % 16) as nat)]
    } else {
        seq![c]
    }
}

/// How a text is written inside a JSON string.
pub open spec fn json_escaped(s: Seq<char>) -> Seq<char>
    decreases s.len(),
{
    if s.len() == 0 {
        Seq::empty()
    } else {
        json_escaped(s.drop_last()) + json_escaped_char(s.last())
    }
}

/// A text as a JSON string, quotes included.
pub open spec fn json_string(s: Seq<char>) -> Seq<char> {
    seq!['"'] + json_escaped(s) + seq!['"']
}

/// Whether the text of a float is that of a finite one.
pub open spec fn is_finite_text(s: Seq<char>) -> bool {
    s != "NaN"@ && s != "inf"@ && s != "-inf"@
}

/// The text of a finite float with a fractional part or an exponent, so that
/// it reads back as a float.
pub open spec fn float_token(s: Seq<char>) -> Seq<char> {
    if s.contains('.') || s.contains('e') || s.contains('E') {
        s
    } else {
        s + ".0"@
    }
}

/// What is written for `t` at indentation `pad`, and whether it was written to
/// the end: a float that is not finite stops the writer.
pub open spec fn json_emitted(t: Tree, pad: Seq<char>, pretty: bool, step: nat) -> (
    Seq<char>,
    bool,
)
    decreases t, 0nat,
{
    match t {
        Tree::Null => ("null"@, true),
        Tree::Bool(b) => (bool_text_of(b), true),
        Tree::Int(n) => (signed_decimal(n), true),
        Tree::BigInt(s) | Tree::BigFloat(s) => (s, true),
        Tree::Float(s) => if is_finite_text(s) {
            (float_token(s), true)
        } else {
            (Seq::empty(), false)
        },
        Tree::String(s) => (json_string(s), true),
        Tree::Array(items) => if items.len() == 0 {
            ("[]"@, true)
        } else {
            closed_with(
                seq!['['],
                json_items(items, items.len(), pad + spaces(step), pretty, step),
                pad,
                pretty,
                seq![']'],
            )
        },
        Tree::Object(entries) => if entries.len() == 0 {
            ("{}"@, true)
        } else {
            closed_with(
                seq!['{'],
                json_members(entries, entries.len(), pad + spaces(step), pretty, step),
                pad,
                pretty,
                seq!['}'],
            )
        },
    }
}

/// A container: what opens it, its body, and, where the body was written to
/// the end, what closes it.
pub open spec fn closed_with(
    open: Seq<char>,
    body: (Seq<char>, bool),
    pad: Seq<char>,
    pretty: bool,
    close: Seq<char>,
) -> (Seq<char>, bool) {
    if body.1 {
        (open + body.0 + line_break(pad, pretty) + close, true)
    } else {
        (open + body.0, false)
    }
}

/// A new line at indentation `pad`, in the pretty layout only.
pub open spec fn line_break(pad: Seq<char>, pretty: bool) -> Seq<char> {
    if pretty {
        seq!['\n'] + pad
    } else {
        Seq::empty()
    }
}

/// What stands between one member of a container and the one before it.
pub open spec fn separator(k: nat, pad: Seq<char>, pretty: bool) -> Seq<char> {
    (if k > 0 {
        seq![',']
    } else {
        Seq::empty()
    }) + line_break(pad, pretty)
}

/// The first `k` items of an array, at indentation `pad`.
pub open spec fn json_items(
    items: Seq<Tree>,
    k: nat,
    pad: Seq<char>,
    pretty: bool,
    step: nat,
) -> (Seq<char>, bool)
    decreases items, k,
{
    if k == 0 || k > items.len() {
        (Seq::empty(), true)
    } else {
        let before = json_items(items, (k - 1) as nat, pad, pretty, step);
        if before.1 {
            let item = json_emitted(items[k - 1], pad, pretty, step);
            (before.0 + separator((k - 1) as nat, pad, pretty) + item.0, item.1)
        } else {
            before
        }
    }
}

/// The first `k` members of an object, at indentation `pad`.
pub open spec fn json_members(
    entries: Seq<(Seq<char>, Tree)>,
    k: nat,
    pad: Seq<char>,
    pretty: bool,
    step: nat,
) -> (Seq<char>, bool)
    decreases entries, k,
{
    if k == 0 || k > entries.len() {
        (Seq::empty(), true)
    } else {
        let before = json_members(entries, (k - 1) as nat, pad, pretty, step);
        if before.1 {
            let item = json_emitted(entries[k - 1].1, pad, pretty, step);
            (
                before.0 + separator((k - 1) as nat, pad, pretty) + json_string(entries[k - 1].0)
                    + colon(pretty) + item.0,
                item.1,
            )
        } else {
            before
        }
    }
}

/// What stands between a key and its value.
pub open spec fn colon(pretty: bool) -> Seq<char> {
    if pretty {
        seq![':', ' ']
    } else {
        seq![':']
    }
}

/// The fault for a float that is not finite.
pub open spec fn not_finite_fault() -> Fault {
    format_fault(
        "json"@,
        "non-finite float (NaN or Infinity) cannot be serialized as JSON"@,
    )
}

/// Builds the error for a float that is not finite.
pub fn not_finite_error() -> (r: Error)
    ensures
        r@ == not_finite_fault(),
{
    Error::Format {
        format: "json",
        message: "non-finite float (NaN or Infinity) cannot be serialized as JSON".to_owned(),
    }
}

/// Writes the inside of a JSON string.
pub fn write_escaped_string(out: &mut String, s: &str)
    ensures
        final(out)@ == old(out)@ + json_escaped(s@),
{
    let chars: Vec<char> = chars_of(s);
    let mut i: usize = 0;
    assert(s@.subrange(0, 0) =~= Seq::<char>::empty());
    assert(out@ =~= old(out)@ + json_escaped(s@.subrange(0, 0)));
    while i < chars.len()
        invariant
            chars@ == s@,
            i <= chars@.len(),
            out@ == old(out)@ + json_escaped(s@.subrange(0, i as int)),
        decreases chars@.len() - i,
    {
        let ghost before = out@;
        let ghost longer = s@.subrange(0, i + 1);
        assert(longer.drop_last() =~= s@.subrange(0, i as int));
        let c: char = chars[i];
        if c == '"' {
            out.push('\\');
            out.push('"');
        } else if c == '\\' {
            out.push('\\');
            out.push('\\');
        } else if c == '\n' {
            out.push('\\');
            out.push('n');
        } else if c == '\r' {
            out.push('\\');
            out.push('r');
        } else if c == '\t' {
            out.push('\\');
            out.push('t');
        } else if c as u32 == 8 {
            out.push('\\');
            out.push('b');
        } else if c as u32 == 12 {
            out.push('\\');
            out.push('f');
        } else if (c as u32) < 0x20 {
            out.push('\\');
            out.push('u');
            out.push('0');
            out.push('0');
            out.push(hex_char(c as u32 / 16));
            out.push(hex_char(c as u32 % 16));
        } else {
            out.push(c);
        }
        assert(out@ =~= before + json_escaped_char(c));
        assert(out@ =~= old(out)@ + json_escaped(longer));
        i += 1;
    }
    assert(s@.subrange(0, s@.len() as int) =~= s@);
}

/// Writes a text as a JSON string.
pub fn write_json_string(out: &mut String, s: &str)
    ensures
        final(out)@ == old(out)@ + json_string(s@),
{
    out.push('"');
    write_escaped_string(out, s);
    out.push('"');
    assert(out@ =~= old(out)@ + json_string(s@));
}

/// Whether the text of a float is that of a finite one.
pub fn finite_text(s: &str) -> (r: bool)
    ensures
        r == is_finite_text(s@),
{
    !same_text(s, "NaN") && !same_text(s, "inf") && !same_text(s, "-inf")
}

/// The token of a finite float.
pub fn float_token_text(s: &str) -> (r: String)
    ensures
        r@ == float_token(s@),
{
    let chars: Vec<char> = chars_of(s);
    let mut out: String = s.to_owned();
    if !has_char(&chars, '.') && !has_char(&chars, 'e') && !has_char(&chars, 'E') {
        out.push_str(".0");
    }
    out
}

/// Writes what stands between two members.
fn write_separator(out: &mut String, k: usize, pad: &str, pretty: bool)
    ensures
        final(out)@ == old(out)@ + separator(k as nat, pad@, pretty),
{
    if k > 0 {
        out.push(',');
    }
    if pretty {
        out.push('\n');
        out.push_str(pad);
    }
    assert(out@ =~= old(out)@ + separator(k as nat, pad@, pretty));
}

/// `pad` with `step` more spaces.
fn deeper(pad: &str, step: usize) -> (r: String)
    ensures
        r@ == pad@ + spaces(step as nat),
{
    let mut out: String = pad.to_owned();
    push_spaces(&mut out, step);
    out
}

/// Writes `v` at indentation `pad`; whether it was written to the end.
pub fn write_value_with(v: &Value, out: &mut String, pad: &str, pretty: bool, step: usize) -> (r:
    bool)
    ensures
        final(out)@ == old(out)@ + json_emitted(v@, pad@, pretty, step as nat).0,
        r == json_emitted(v@, pad@, pretty, step as nat).1,
    decreases v, 1int,
{
    broadcast use {lemma_array_view, lemma_object_view};

    match v {
        Value::Null => {
            out.push_str("null");
            true
        },
        Value::Bool(b) => {
            let text: String = bool_text(*b);
            out.push_str(text.as_str());
            true
        },
        Value::Int(n) => {
            let text: String = signed_text(*n);
            out.push_str(text.as_str());
            true
        },
        Value::BigInt(s) | Value::BigFloat(s) => {
            out.push_str(s.as_str());
            true
        },
        Value::Float(s) => {
            if !finite_text(s.as_str()) {
                assert(out@ + Seq::<char>::empty() =~= out@);
                return false;
            }
            let text: String = float_token_text(s.as_str());
            out.push_str(text.as_str());
            true
        },
        Value::String(s) => {
            write_json_string(out, s.as_str());
            true
        },
        Value::Array(items) => write_array(items, out, pad, pretty, step),
        Value::Object(map) => write_object(map, out, pad, pretty, step),
    }
}

/// Writes an array.
fn write_array(items: &Vec<Value>, out: &mut String, pad: &str, pretty: bool, step: usize) -> (r:
    bool)
    ensures
        final(out)@ == old(out)@ + json_emitted(
            Tree::Array(trees(items@)),
            pad@,
            pretty,
            step as nat,
        ).0,
        r == json_emitted(Tree::Array(trees(items@)), pad@, pretty, step as nat).1,
    decreases items, 0int,
{
    let ghost all = trees(items@);
    if items.len() == 0 {
        out.push_str("[]");
        return true;
    }
    out.push('[');
    let ghost opened = out@;
    let inner: String = deeper(pad, step);
    let mut i: usize = 0;
    assert(opened + json_items(all, 0, inner@, pretty, step as nat).0 =~= opened);
    while i < items.len()
        invariant
            i <= items@.len(),
            all == trees(items@),
            opened == old(out)@.push('['),
            inner@ == pad@ + spaces(step as nat),
            json_items(all, i as nat, inner@, pretty, step as nat).1,
            out@ == opened + json_items(all, i as nat, inner@, pretty, step as nat).0,
        decreases items@.len() - i,
    {
        let ghost before = json_items(all, i as nat, inner@, pretty, step as nat);
        write_separator(out, i, inner.as_str(), pretty);
        assert(decreases_to!(*items => items@));
        assert(decreases_to!(items@ => items@[i as int]));
        let ok: bool = write_value_with(&items[i], out, inner.as_str(), pretty, step);
        proof {
            let item = json_emitted(items@[i as int]@, inner@, pretty, step as nat);
            assert(all[i as int] == items@[i as int]@);
            assert(json_items(all, (i + 1) as nat, inner@, pretty, step as nat) == (
                before.0 + separator(i as nat, inner@, pretty) + item.0,
                item.1,
            ));
            assert(out@ =~= opened + (before.0 + separator(i as nat, inner@, pretty) + item.0));
        }
        if !ok {
            proof {
                lemma_items_stop(all, (i + 1) as nat, all.len(), inner@, pretty, step as nat);
                assert(out@ =~= old(out)@ + (seq!['['] + json_items(
                    all,
                    all.len(),
                    inner@,
                    pretty,
                    step as nat,
                ).0));
            }
            return false;
        }
        i += 1;
    }
    if pretty {
        out.push('\n');
        out.push_str(pad);
    }
    out.push(']');
    assert(out@ =~= old(out)@ + json_emitted(Tree::Array(all), pad@, pretty, step as nat).0);
    true
}

/// Writes an object.
fn write_object(map: &ValueMap, out: &mut String, pad: &str, pretty: bool, step: usize) -> (r: bool)
    ensures
        final(out)@ == old(out)@ + json_emitted(Tree::Object(map@), pad@, pretty, step as nat).0,
        r == json_emitted(Tree::Object(map@), pad@, pretty, step as nat).1,
    decreases map, 0int,
{
    let ghost all = map@;
    if map.entries.len() == 0 {
        out.push_str("{}");
        return true;
    }
    out.push('{');
    let ghost opened = out@;
    let inner: String = deeper(pad, step);
    let mut i: usize = 0;
    assert(opened + json_members(all, 0, inner@, pretty, step as nat).0 =~= opened);
    while i < map.entries.len()
        invariant
            i <= map.entries@.len(),
            all == map@,
            opened == old(out)@.push('{'),
            inner@ == pad@ + spaces(step as nat),
            json_members(all, i as nat, inner@, pretty, step as nat).1,
            out@ == opened + json_members(all, i as nat, inner@, pretty, step as nat).0,
        decreases map.entries@.len() - i,
    {
        let ghost before = json_members(all, i as nat, inner@, pretty, step as nat);
        write_separator(out, i, inner.as_str(), pretty);
        write_json_string(out, map.entries[i].0.as_str());
        out.push(':');
        if pretty {
            out.push(' ');
        }
        assert(decreases_to!(*map => map.entries));
        assert(decreases_to!(map.entries => map.entries@));
        assert(decreases_to!(map.entries@ => map.entries@[i as int]));
        assert(decreases_to!(map.entries@[i as int] => map.entries@[i as int].1));
        let ok: bool = write_value_with(&map.entries[i].1, out, inner.as_str(), pretty, step);
        proof {
            let key = map.entries@[i as int].0@;
            let item = json_emitted(map.entries@[i as int].1@, inner@, pretty, step as nat);
            assert(all[i as int] == (key, map.entries@[i as int].1@));
            assert(json_members(all, (i + 1) as nat, inner@, pretty, step as nat) == (
                before.0 + separator(i as nat, inner@, pretty) + json_string(key) + colon(pretty)
                    + item.0,
                item.1,
            ));
            assert(out@ =~= opened + (before.0 + separator(i as nat, inner@, pretty) + json_string(
                key,
            ) + colon(pretty) + item.0));
        }
        if !ok {
            proof {
                lemma_members_stop(all, (i + 1) as nat, all.len(), inner@, pretty, step as nat);
                assert(out@ =~= old(out)@ + (seq!['{'] + json_members(
                    all,
                    all.len(),
                    inner@,
                    pretty,
                    step as nat,
                ).0));
            }
            return false;
        }
        i += 1;
    }
    if pretty {
        out.push('\n');
        out.push_str(pad);
    }
    out.push('}');
    assert(out@ =~= old(out)@ + json_emitted(Tree::Object(all), pad@, pretty, step as nat).0);
    true
}

/// Once an item has stopped the writer, nothing more is written.
proof fn lemma_items_stop(
    items: Seq<Tree>,
    k: nat,
    n: nat,
    pad: Seq<char>,
    pretty: bool,
    step: nat,
)
    requires
        0 < k <= n <= items.len(),
        !json_items(items, k, pad, pretty, step).1,
    ensures
        json_items(items, n, pad, pretty, step) == json_items(items, k, pad, pretty, step),
    decreases n - k,
{
    if k < n {
        lemma_items_stop(items, k, (n - 1) as nat, pad, pretty, step);
    }
}

/// Once a member has stopped the writer, nothing more is written.
proof fn lemma_members_stop(
    entries: Seq<(Seq<char>, Tree)>,
    k: nat,
    n: nat,
    pad: Seq<char>,
    pretty: bool,
    step: nat,
)
    requires
        0 < k <= n <= entries.len(),
        !json_members(entries, k, pad, pretty, step).1,
    ensures
        json_members(entries, n, pad, pretty, step) == json_members(entries, k, pad, pretty, step),
    decreases n - k,
{
    if k < n {
        lemma_members_stop(entries, k, (n - 1) as nat, pad, pretty, step);
    }
}

/// The compact form of `t`.
pub open spec fn json_compact(t: Tree) -> (Seq<char>, bool) {
    json_emitted(t, Seq::empty(), false, 2)
}

/// Writes `v` without any white space; whether it was written to the end.
pub fn write_value_compact(v: &Value, out: &mut String) -> (r: bool)
    ensures
        final(out)@ == old(out)@ + json_compact(v@).0,
        r == json_compact(v@).1,
{
    let empty: String = String::new();
    assert(empty@ =~= Seq::<char>::empty());
    write_value_with(v, out, empty.as_str(), false, 2)
}

/// The pretty form of `t`, with `step` spaces for each level.
pub open spec fn json_pretty(t: Tree, step: nat) -> (Seq<char>, bool) {
    json_emitted(t, Seq::empty(), true, step)
}

/// Writes `v` with `step` spaces for each level; whether it was written to the
/// end.
pub fn write_value_pretty_with_step(v: &Value, out: &mut String, step: usize) -> (r: bool)
    ensures
        final(out)@ == old(out)@ + json_pretty(v@, step as nat).0,
        r == json_pretty(v@, step as nat).1,
{
    let empty: String = String::new();
    assert(empty@ =~= Seq::<char>::empty());
    write_value_with(v, out, empty.as_str(), true, step)
}

/// Renderer for in-span replacements in JSON documents.
#[derive(Debug, Default, Clone, Copy)]
pub struct JsonScalarRenderer;

impl ScalarRenderer for JsonScalarRenderer {
    open spec fn renders(&self, t: Tree) -> bool {
        json_compact(t).1
    }

    open spec fn replacement(&self, t: Tree, context: SpanContext, original: Seq<u8>) -> Seq<u8> {
        encode_utf8(json_compact(t).0)
    }

    fn render_replacement(&self, value: &Value, context: SpanContext, original: &[u8]) -> (r: Vec<
        u8,
    >) {
        let mut out: String = String::new();
        let _ok: bool = write_value_compact(value, &mut out);
        assert(out@ =~= json_compact(value@).0);
        utf8_of(out.as_str())
    }
}

/// Renderer for new members of a JSON object.
#[derive(Debug, Default, Clone, Copy)]
pub struct JsonInsertionRenderer;

/// A new member on a line of its own, two spaces deeper than its parent.
pub open spec fn json_insertion(key: Seq<char>, t: Tree, parent_indent: u32) -> Seq<char> {
    seq!['\n'] + spaces(
        if parent_indent + 2 > u32::MAX {
            u32::MAX as nat
        } else {
            (parent_indent + 2) as nat
        },
    ) + json_string(key) + seq![':', ' '] + json_compact(t).0
}

impl InsertionRenderer for JsonInsertionRenderer {
    open spec fn inserts(&self, t: Tree) -> bool {
        json_compact(t).1
    }

    open spec fn insertion(
        &self,
        key: Seq<char>,
        t: Tree,
        parent_indent: u32,
        parent_context: SpanContext,
    ) -> Seq<u8> {
        encode_utf8(json_insertion(key, t, parent_indent))
    }

    fn render_insertion(
        &self,
        key: &str,
        value: &Value,
        parent_indent: u32,
        parent_context: SpanContext,
    ) -> (r: Vec<u8>) {
        let mut out: String = String::new();
        out.push('\n');
        push_spaces(&mut out, parent_indent.saturating_add(2) as usize);
        write_json_string(&mut out, key);
        out.push(':');
        out.push(' ');
        let _ok: bool = write_value_compact(value, &mut out);
        assert(out@ =~= json_insertion(key@, value@, parent_indent));
        utf8_of(out.as_str())
    }
}

} // verus!
