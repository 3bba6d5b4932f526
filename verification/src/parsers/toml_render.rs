//! Rendering TOML scalars and new members.

use crate::bytes::utf8_of;
use crate::numbers::{signed_decimal, signed_text};
use crate::parsers::json_write::{float_token, float_token_text};
use crate::parsers::yaml_render::{detect_scalar_style, style_of, ScalarStyle};
use crate::spans::SpanContext;
use crate::text::{chars_of, same_text};
use crate::textual_edit::{InsertionRenderer, ScalarRenderer};
use crate::value::{bool_text, bool_text_of, Tree, Value};
use vstd::prelude::*;
use vstd::utf8::encode_utf8;

verus! {

/// How a string is written in the source.
#[derive(Debug, Clone, Copy, PartialEq, Eq, Structural)]
pub enum StringStyle {
    /// Not a string: a number, a boolean or a date.
    Bare,
    /// Basic string (`"..."`).
    Basic,
    /// Literal string (`'...'`).
    Literal,
}

/// The style of a scalar, told by its first visible byte.
pub open spec fn string_style_of(bytes: Seq<u8>) -> StringStyle {
    match style_of(bytes) {
        ScalarStyle::SingleQuoted => StringStyle::Literal,
        ScalarStyle::DoubleQuoted => StringStyle::Basic,
        _ => StringStyle::Bare,
    }
}

/// Detects the style of a scalar from its bytes, quotes included.
pub fn detect_string_style(bytes: &[u8]) -> (r: StringStyle)
    ensures
        r == string_style_of(bytes@),
{
    match detect_scalar_style(bytes) {
        ScalarStyle::SingleQuoted => StringStyle::Literal,
        ScalarStyle::DoubleQuoted => StringStyle::Basic,
        _ => StringStyle::Bare,
    }
}

/// An upper-case hexadecimal digit.
pub open spec fn upper_hex_digit(d: nat) -> char {
    if d < 10 {
        (48 + d) as char
    } else {
        (55 + d) as char
    }
}

fn upper_hex_char(d: u32) -> (r: char)
    requires
        d < 16,
    ensures
        r == upper_hex_digit(d as nat),
{
    if d < 10 {
        (48 + d as u8) as char
    } else {
        (55 + d as u8) as char
    }
}

/// How one character is written in a basic string.
pub open spec fn basic_char(c: char) -> Seq<char> {
    let n = c as u32;
    if c == '\\' {
        seq!['\\', '\\']
    } else if c == '"' {
        seq!['\\', '"']
    } else if c == '\n' {
        seq!['\\', 'n']
    } else if c == '\r' {
        seq!['\\', 'r']
    } else if c == '\t' {
        seq!['\\', 't']
    } else if n == 8 {
        seq!['\\', 'b']
    } else if n == 0x0c {
        seq!['\\', 'f']
    } else if n < 0x20 || n == 0x7f {
        seq!['\\', 'u', '0', '0', upper_hex_digit((n / 16) as nat), upper_hex_digit((n % 16) as nat)]
    } else {
        seq![c]
    }
}

/// The inside of a basic string.
pub open spec fn basic_inner(s: Seq<char>) -> Seq<char>
    decreases s.len(),
{
    if s.len() == 0 {
        Seq::empty()
    } else {
        basic_inner(s.drop_last()) + basic_char(s.last())
    }
}

/// A basic string, quotes included.
pub open spec fn basic_string(s: Seq<char>) -> Seq<char> {
    seq!['"'] + basic_inner(s) + seq!['"']
}

/// Writes one character inside a basic string.
pub fn push_basic_string_char(out: &mut String, c: char)
    ensures
        final(out)@ == old(out)@ + basic_char(c),
{
    let n: u32 = c as u32;
    if c == '\\' {
        out.push('\\');
        out.push('\\');
    } else if c == '"' {
        out.push('\\');
        out.push('"');
    } else if c == '\n' {
        out.push('\\');
        out.push('n');
    } else if c == '\r' {
        out.push('\\');
        out.push('r');
    } else if c == '\t' {
        out.push('\\');
        out.push('t');
    } else if n == 8 {
        out.push('\\');
        out.push('b');
    } else if n == 0x0c {
        out.push('\\');
        out.push('f');
    } else if n < 0x20 || n == 0x7f {
        out.push('\\');
        out.push('u');
        out.push('0');
        out.push('0');
        out.push(upper_hex_char(n / 16));
        out.push(upper_hex_char(n % 16));
    } else {
        out.push(c);
    }
    assert(out@ =~= old(out)@ + basic_char(c));
}

/// Renders a basic string.
pub fn render_basic_string(s: &Vec<char>) -> (r: String)
    ensures
        r@ == basic_string(s@),
{
    let mut out: String = String::new();
    out.push('"');
    let mut i: usize = 0;
    assert(s@.subrange(0, 0) =~= Seq::<char>::empty());
    assert(out@ =~= seq!['"'] + basic_inner(s@.subrange(0, 0)));
    while i < s.len()
        invariant
            i <= s@.len(),
            out@ == seq!['"'] + basic_inner(s@.subrange(0, i as int)),
        decreases s@.len() - i,
    {
        let ghost longer = s@.subrange(0, i + 1);
        assert(longer.drop_last() =~= s@.subrange(0, i as int));
        push_basic_string_char(&mut out, s[i]);
        assert(out@ =~= seq!['"'] + basic_inner(longer));
        i += 1;
    }
    assert(s@.subrange(0, s@.len() as int) =~= s@);
    out.push('"');
    assert(out@ =~= basic_string(s@));
    out
}

/// Renders a literal string.
pub fn render_literal_string(s: &str) -> (r: String)
    ensures
        r@ == seq!['\''] + s@ + seq!['\''],
{
    let mut out: String = String::new();
    out.push('\'');
    out.push_str(s);
    out.push('\'');
    assert(out@ =~= seq!['\''] + s@ + seq!['\'']);
    out
}

/// Whether a character can stand in a literal string, where nothing is escaped:
/// a quote cannot, nor a control character but the tab.
pub open spec fn is_literal_char(c: char) -> bool {
    c != '\'' && (c == '\t' || (c as u32) >= 0x20) && (c as u32) != 0x7f
}

/// Whether a literal string can hold a text.
pub open spec fn fits_literal(s: Seq<char>) -> bool {
    forall|i: int| 0 <= i < s.len() ==> is_literal_char(#[trigger] s[i])
}

/// Whether a literal string can hold a text.
pub fn can_be_literal(s: &Vec<char>) -> (r: bool)
    ensures
        r == fits_literal(s@),
{
    let mut i: usize = 0;
    while i < s.len()
        invariant
            i <= s@.len(),
            forall|k: int| 0 <= k < i ==> is_literal_char(#[trigger] s@[k]),
        decreases s@.len() - i,
    {
        let c: char = s[i];
        let n: u32 = c as u32;
        if c == '\'' || (c != '\t' && n < 0x20) || n == 0x7f {
            assert(!is_literal_char(s@[i as int]));
            return false;
        }
        i += 1;
    }
    true
}

/// A string in the style of the one it replaces, or a basic string where a
/// literal one cannot hold it.
pub open spec fn toml_string(s: Seq<char>, style: StringStyle) -> Seq<char> {
    if style == StringStyle::Literal && fits_literal(s) {
        seq!['\''] + s + seq!['\'']
    } else {
        basic_string(s)
    }
}

/// Renders a string in the style of the one it replaces.
pub fn render_string(s: &str, style: StringStyle) -> (r: String)
    ensures
        r@ == toml_string(s@, style),
{
    let chars: Vec<char> = chars_of(s);
    let literal: bool = match style {
        StringStyle::Literal => can_be_literal(&chars),
        _ => false,
    };
    if literal {
        render_literal_string(s)
    } else {
        render_basic_string(&chars)
    }
}

/// Whether a key can be written without quotes.
pub open spec fn is_bare_key(k: Seq<char>) -> bool {
    k.len() > 0 && forall|i: int| 0 <= i < k.len() ==> is_bare_char(#[trigger] k[i])
}

/// ASCII letters, digits, `_` and `-`.
pub open spec fn is_bare_char(c: char) -> bool {
    'a' <= c <= 'z' || 'A' <= c <= 'Z' || '0' <= c <= '9' || c == '_' || c == '-'
}

/// How a key is written.
pub open spec fn toml_key(k: Seq<char>) -> Seq<char> {
    if is_bare_key(k) {
        k
    } else {
        basic_string(k)
    }
}

fn bare_key(k: &Vec<char>) -> (r: bool)
    ensures
        r == is_bare_key(k@),
{
    if k.len() == 0 {
        return false;
    }
    let mut i: usize = 0;
    while i < k.len()
        invariant
            i <= k@.len(),
            forall|j: int| 0 <= j < i ==> is_bare_char(#[trigger] k@[j]),
        decreases k@.len() - i,
    {
        let c: char = k[i];
        if !(('a' <= c && c <= 'z') || ('A' <= c && c <= 'Z') || ('0' <= c && c <= '9') || c == '_'
            || c == '-') {
            assert(!is_bare_char(k@[i as int]));
            return false;
        }
        i += 1;
    }
    true
}

/// Renders a key, quoted where needed.
pub fn toml_key_token(key: &str) -> (r: String)
    ensures
        r@ == toml_key(key@),
{
    let chars: Vec<char> = chars_of(key);
    if bare_key(&chars) {
        key.to_owned()
    } else {
        render_basic_string(&chars)
    }
}

/// How a float is written.
pub open spec fn toml_float(s: Seq<char>) -> Seq<char> {
    if s == "NaN"@ {
        "nan"@
    } else if s == "inf"@ || s == "-inf"@ {
        s
    } else {
        float_token(s)
    }
}

/// Renders a float.
pub fn render_float(s: &str) -> (r: String)
    ensures
        r@ == toml_float(s@),
{
    if same_text(s, "NaN") {
        "nan".to_owned()
    } else if same_text(s, "inf") || same_text(s, "-inf") {
        s.to_owned()
    } else {
        float_token_text(s)
    }
}

/// What replaces a scalar of the given style. TOML has no null, and a
/// container cannot replace a scalar in place: an empty string stands for both.
pub open spec fn toml_replacement(t: Tree, style: StringStyle) -> Seq<char> {
    match t {
        Tree::Null | Tree::Array(_) | Tree::Object(_) => "\"\""@,
        Tree::Bool(b) => bool_text_of(b),
        Tree::Int(n) => signed_decimal(n),
        Tree::BigInt(s) | Tree::BigFloat(s) => s,
        Tree::Float(s) => toml_float(s),
        Tree::String(s) => toml_string(s, style),
    }
}

/// Renderer for in-span replacements in TOML documents.
#[derive(Debug, Default, Clone, Copy)]
pub struct TomlScalarRenderer;

impl ScalarRenderer for TomlScalarRenderer {
    open spec fn renders(&self, t: Tree) -> bool {
        true
    }

    open spec fn replacement(&self, t: Tree, context: SpanContext, original: Seq<u8>) -> Seq<u8> {
        encode_utf8(toml_replacement(t, string_style_of(original)))
    }

    fn render_replacement(&self, value: &Value, context: SpanContext, original: &[u8]) -> (r: Vec<
        u8,
    >) {
        let style: StringStyle = detect_string_style(original);
        let text: String = match value {
            Value::Null | Value::Array(_) | Value::Object(_) => "\"\"".to_owned(),
            Value::Bool(b) => bool_text(*b),
            Value::Int(n) => signed_text(*n),
            Value::BigInt(s) | Value::BigFloat(s) => s.clone(),
            Value::Float(s) => render_float(s.as_str()),
            Value::String(s) => render_string(s.as_str(), style),
        };
        assert(text@ == toml_replacement(value@, string_style_of(original@)));
        utf8_of(text.as_str())
    }
}

/// A value on one line; a container is written as an empty one.
pub open spec fn toml_inline(t: Tree) -> Seq<char> {
    match t {
        Tree::Null => "\"\""@,
        Tree::Bool(b) => bool_text_of(b),
        Tree::Int(n) => signed_decimal(n),
        Tree::BigInt(s) | Tree::BigFloat(s) => s,
        Tree::Float(s) => toml_float(s),
        Tree::String(s) => basic_string(s),
        Tree::Array(_) => "[]"@,
        Tree::Object(_) => "{}"@,
    }
}

/// Renders a value on one line.
pub fn render_inline_scalar(value: &Value) -> (r: String)
    ensures
        r@ == toml_inline(value@),
{
    match value {
        Value::Null => "\"\"".to_owned(),
        Value::Bool(b) => bool_text(*b),
        Value::Int(n) => signed_text(*n),
        Value::BigInt(s) | Value::BigFloat(s) => s.clone(),
        Value::Float(s) => render_float(s.as_str()),
        Value::String(s) => render_basic_string(&chars_of(s.as_str())),
        Value::Array(_) => "[]".to_owned(),
        Value::Object(_) => "{}".to_owned(),
    }
}

/// A new member on a line of its own.
pub open spec fn toml_insertion(key: Seq<char>, t: Tree) -> Seq<char> {
    toml_key(key) + " = "@ + toml_inline(t) + seq!['\n']
}

/// Renderer for new members of a TOML table.
#[derive(Debug, Default, Clone, Copy)]
pub struct TomlInsertionRenderer;

impl InsertionRenderer for TomlInsertionRenderer {
    open spec fn inserts(&self, t: Tree) -> bool {
        true
    }

    open spec fn insertion(
        &self,
        key: Seq<char>,
        t: Tree,
        parent_indent: u32,
        parent_context: SpanContext,
    ) -> Seq<u8> {
        encode_utf8(toml_insertion(key, t))
    }

    fn render_insertion(
        &self,
        key: &str,
        value: &Value,
        parent_indent: u32,
        parent_context: SpanContext,
    ) -> (r: Vec<u8>) {
        let mut out: String = toml_key_token(key);
        out.push_str(" = ");
        let text: String = render_inline_scalar(value);
        out.push_str(text.as_str());
        out.push('\n');
        assert(out@ =~= toml_insertion(key@, value@));
        utf8_of(out.as_str())
    }
}

} // verus!
