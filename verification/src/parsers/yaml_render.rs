//! Rendering YAML scalars and new members.

use crate::bytes::utf8_of;
use crate::numbers::{float_text, is_float_text, parse_int, parsed_int, signed_decimal, signed_text};
use crate::parsers::json_write::{
    float_token, float_token_text, hex_char, hex_digit, push_spaces, spaces,
};
use crate::spans::SpanContext;
use crate::text::{
    chars_of, copy_between, has_char, has_control, holds_control, is_control, is_text, joined,
    lower_chars, lowered, same_text,
};
use crate::textual_edit::{InsertionRenderer, ScalarRenderer};
use crate::value::{
    bool_text, bool_text_of, lemma_array_view, lemma_object_view, trees, Tree, Value,
};
use vstd::prelude::*;
use vstd::utf8::encode_utf8;

verus! {

/// How a scalar is written in the source.
#[derive(Debug, Clone, Copy, PartialEq, Eq, Structural)]
pub enum ScalarStyle {
    /// Without quotes.
    Plain,
    /// In single quotes.
    SingleQuoted,
    /// In double quotes.
    DoubleQuoted,
    /// A block scalar that keeps its line breaks (`|`).
    Literal,
    /// A block scalar that folds its line breaks (`>`).
    Folded,
}

/// Whether `b` is ASCII white space.
pub open spec fn is_ascii_white(b: u8) -> bool {
    b == 0x20 || b == 0x09 || b == 0x0a || b == 0x0c || b == 0x0d
}

/// The first byte that is not ASCII white space.
pub open spec fn first_visible(bytes: Seq<u8>) -> Option<u8>
    decreases bytes.len(),
{
    if bytes.len() == 0 {
        None
    } else if is_ascii_white(bytes[0]) {
        first_visible(bytes.subrange(1, bytes.len() as int))
    } else {
        Some(bytes[0])
    }
}

/// The style that the bytes of a scalar are written in.
pub open spec fn style_of(bytes: Seq<u8>) -> ScalarStyle {
    match first_visible(bytes) {
        Some(b) => if b == 0x22 {
            ScalarStyle::DoubleQuoted
        } else if b == 0x27 {
            ScalarStyle::SingleQuoted
        } else if b == 0x7c {
            ScalarStyle::Literal
        } else if b == 0x3e {
            ScalarStyle::Folded
        } else {
            ScalarStyle::Plain
        },
        None => ScalarStyle::Plain,
    }
}

/// Detects the style of a scalar from its bytes, quotes included.
pub fn detect_scalar_style(bytes: &[u8]) -> (r: ScalarStyle)
    ensures
        r == style_of(bytes@),
{
    let mut i: usize = 0;
    assert(bytes@.subrange(0, bytes@.len() as int) =~= bytes@);
    while i < bytes.len()
        invariant
            i <= bytes@.len(),
            first_visible(bytes@) == first_visible(bytes@.subrange(i as int, bytes@.len() as int)),
        decreases bytes@.len() - i,
    {
        let ghost rest = bytes@.subrange(i as int, bytes@.len() as int);
        assert(rest.subrange(1, rest.len() as int) =~= bytes@.subrange(i + 1, bytes@.len() as int));
        let b: u8 = bytes[i];
        if !(b == 0x20 || b == 0x09 || b == 0x0a || b == 0x0c || b == 0x0d) {
            return if b == 0x22 {
                ScalarStyle::DoubleQuoted
            } else if b == 0x27 {
                ScalarStyle::SingleQuoted
            } else if b == 0x7c {
                ScalarStyle::Literal
            } else if b == 0x3e {
                ScalarStyle::Folded
            } else {
                ScalarStyle::Plain
            };
        }
        i += 1;
    }
    ScalarStyle::Plain
}

// ---------------------------------------------------------------------------
// Quoting
// ---------------------------------------------------------------------------

/// Words that would read back as another type than a string.
pub open spec fn is_keyword(s: Seq<char>) -> bool {
    ||| s == "null"@
    ||| s == "Null"@
    ||| s == "NULL"@
    ||| s == "~"@
    ||| s == "true"@
    ||| s == "True"@
    ||| s == "TRUE"@
    ||| s == "false"@
    ||| s == "False"@
    ||| s == "FALSE"@
    ||| s == "yes"@
    ||| s == "Yes"@
    ||| s == "YES"@
    ||| s == "no"@
    ||| s == "No"@
    ||| s == "NO"@
    ||| s == "on"@
    ||| s == "On"@
    ||| s == "ON"@
    ||| s == "off"@
    ||| s == "Off"@
    ||| s == "OFF"@
}

fn keyword(s: &Vec<char>) -> (r: bool)
    ensures
        r == is_keyword(s@),
{
    is_text(s, "null") || is_text(s, "Null") || is_text(s, "NULL") || is_text(s, "~") || is_text(
        s,
        "true",
    ) || is_text(s, "True") || is_text(s, "TRUE") || is_text(s, "false") || is_text(s, "False")
        || is_text(s, "FALSE") || is_text(s, "yes") || is_text(s, "Yes") || is_text(s, "YES")
        || is_text(s, "no") || is_text(s, "No") || is_text(s, "NO") || is_text(s, "on") || is_text(
        s,
        "On",
    ) || is_text(s, "ON") || is_text(s, "off") || is_text(s, "Off") || is_text(s, "OFF")
}

/// Characters that must not start a plain scalar.
pub open spec fn is_indicator(c: char) -> bool {
    c == '!' || c == '&' || c == '*' || c == '[' || c == ']' || c == '{' || c == '}' || c == ','
        || c == '#' || c == '|' || c == '>' || c == '\'' || c == '"' || c == '%' || c == '@' || c
        == '`' || c == ':' || c == '?' || c == '-'
}

fn indicator(c: char) -> (r: bool)
    ensures
        r == is_indicator(c),
{
    c == '!' || c == '&' || c == '*' || c == '[' || c == ']' || c == '{' || c == '}' || c == ','
        || c == '#' || c == '|' || c == '>' || c == '\'' || c == '"' || c == '%' || c == '@' || c
        == '`' || c == ':' || c == '?' || c == '-'
}

/// Whether position `i` holds a colon at the end or before a blank, or a hash
/// behind one.
pub open spec fn unsafe_at(s: Seq<char>, i: int) -> bool {
    ||| s[i] == ':' && (i + 1 == s.len() || s[i + 1] == ' ' || s[i + 1] == '\t')
    ||| s[i] == '#' && i > 0 && (s[i - 1] == ' ' || s[i - 1] == '\t')
}

/// Whether a plain scalar would be taken for a key or a comment.
pub open spec fn has_unsafe_colon_or_hash(s: Seq<char>) -> bool {
    exists|i: int| 0 <= i < s.len() && #[trigger] unsafe_at(s, i)
}

/// `: `, a colon at the end and ` #` make a plain scalar ambiguous.
pub fn contains_unsafe_colon_or_hash(s: &Vec<char>) -> (r: bool)
    ensures
        r == has_unsafe_colon_or_hash(s@),
{
    let mut i: usize = 0;
    while i < s.len()
        invariant
            i <= s@.len(),
            forall|k: int| 0 <= k < i ==> !#[trigger] unsafe_at(s@, k),
        decreases s@.len() - i,
    {
        let c: char = s[i];
        if (c == ':' && (i + 1 == s.len() || s[i + 1] == ' ' || s[i + 1] == '\t')) || (c == '#'
            && i > 0 && (s[i - 1] == ' ' || s[i - 1] == '\t')) {
            assert(unsafe_at(s@, i as int));
            return true;
        }
        i += 1;
    }
    false
}

/// Whether a text reads as a number of another base, or as a float that is not
/// finite.
pub open spec fn is_other_number(s: Seq<char>) -> bool {
    let body = if s.len() > 0 && s[0] == '+' {
        s.subrange(1, s.len() as int)
    } else {
        s
    };
    ||| body.len() > 2 && body[0] == '0' && (body[1] == 'x' || body[1] == 'o' || body[1] == 'b')
    ||| lowered(body) == ".inf"@
    ||| lowered(body) == ".nan"@
}

fn other_number(s: &Vec<char>) -> (r: bool)
    ensures
        r == is_other_number(s@),
{
    let from: usize = if s.len() > 0 && s[0] == '+' {
        1
    } else {
        0
    };
    let body: Vec<char> = copy_between(s, from, s.len());
    assert(s@.subrange(0, s@.len() as int) =~= s@);
    if body.len() > 2 && body[0] == '0' && (body[1] == 'x' || body[1] == 'o' || body[1] == 'b') {
        return true;
    }
    let low: Vec<char> = lower_chars(&body);
    is_text(&low, ".inf") || is_text(&low, ".nan")
}

/// Whether a string cannot be written as a plain scalar in any context.
pub open spec fn needs_quoting(s: Seq<char>) -> bool {
    ||| s.len() == 0
    ||| is_keyword(s)
    ||| s[0] == ' '
    ||| s.last() == ' '
    ||| is_indicator(s[0])
    ||| holds_control(s)
    ||| has_unsafe_colon_or_hash(s)
    ||| parsed_int(s) is Some
    ||| is_float_text(s)
    ||| is_other_number(s)
}

/// Whether `s` cannot be written as a plain scalar in any context.
pub fn needs_quoting_for_plain(s: &Vec<char>) -> (r: bool)
    ensures
        r == needs_quoting(s@),
{
    if s.len() == 0 {
        return true;
    }
    if keyword(s) {
        return true;
    }
    if s[0] == ' ' || s[s.len() - 1] == ' ' {
        return true;
    }
    if indicator(s[0]) {
        return true;
    }
    if has_control(s) {
        return true;
    }
    if contains_unsafe_colon_or_hash(s) {
        return true;
    }
    parse_int(s).is_some() || float_text(s) || other_number(s)
}

/// Whether a plain scalar would end a flow collection.
pub open spec fn needs_quoting_in_flow(s: Seq<char>) -> bool {
    s.contains(',') || s.contains(']') || s.contains('}')
}

/// Whether a plain scalar would end a flow collection.
pub fn needs_flow_quoting(s: &Vec<char>) -> (r: bool)
    ensures
        r == needs_quoting_in_flow(s@),
{
    has_char(s, ',') || has_char(s, ']') || has_char(s, '}')
}

/// How one character is written in double quotes.
pub open spec fn double_quoted_char(c: char) -> Seq<char> {
    let n = c as u32;
    if c == '\\' {
        seq!['\\', '\\']
    } else if c == '"' {
        seq!['\\', '"']
    } else if c == '\n' {
        seq!['\\', 'n']
    } else if c == '\r' {
        seq!['\\', 'r']
    } else if c == '\t' {
        seq!['\\', 't']
    } else if n == 0 {
        seq!['\\', '0']
    } else if n == 7 {
        seq!['\\', 'a']
    } else if n == 8 {
        seq!['\\', 'b']
    } else if n == 0x0b {
        seq!['\\', 'v']
    } else if n == 0x0c {
        seq!['\\', 'f']
    } else if n == 0x1b {
        seq!['\\', 'e']
    } else if is_control(c) {
        seq!['\\', 'x', hex_digit((n / 16) as nat), hex_digit((n % 16) as nat)]
    } else {
        seq![c]
    }
}

/// The inside of a double-quoted string.
pub open spec fn double_quoted_inner(s: Seq<char>) -> Seq<char>
    decreases s.len(),
{
    if s.len() == 0 {
        Seq::empty()
    } else {
        double_quoted_inner(s.drop_last()) + double_quoted_char(s.last())
    }
}

/// A string in double quotes.
pub open spec fn double_quoted(s: Seq<char>) -> Seq<char> {
    seq!['"'] + double_quoted_inner(s) + seq!['"']
}

/// Writes one character inside double quotes.
pub fn push_double_quoted_char(out: &mut String, c: char)
    ensures
        final(out)@ == old(out)@ + double_quoted_char(c),
{
    let n: u32 = c as u32;
    if c == '\\' {
        out.push('\\');
        out.push('\\');
    } else if c == '"' {
        out.push('\\');
        out.push('"');
    } else if c == '\n' {
        out.push('\\');
        out.push('n');
    } else if c == '\r' {
        out.push('\\');
        out.push('r');
    } else if c == '\t' {
        out.push('\\');
        out.push('t');
    } else if n == 0 {
        out.push('\\');
        out.push('0');
    } else if n == 7 {
        out.push('\\');
        out.push('a');
    } else if n == 8 {
        out.push('\\');
        out.push('b');
    } else if n == 0x0b {
        out.push('\\');
        out.push('v');
    } else if n == 0x0c {
        out.push('\\');
        out.push('f');
    } else if n == 0x1b {
        out.push('\\');
        out.push('e');
    } else if n < 0x20 || (0x7f <= n && n < 0xa0) {
        out.push('\\');
        out.push('x');
        out.push(hex_char(n / 16));
        out.push(hex_char(n % 16));
    } else {
        out.push(c);
    }
    assert(out@ =~= old(out)@ + double_quoted_char(c));
}

/// Renders a string in double quotes.
pub fn render_double_quoted(s: &Vec<char>) -> (r: String)
    ensures
        r@ == double_quoted(s@),
{
    let mut out: String = String::new();
    out.push('"');
    let mut i: usize = 0;
    assert(s@.subrange(0, 0) =~= Seq::<char>::empty());
    assert(out@ =~= seq!['"'] + double_quoted_inner(s@.subrange(0, 0)));
    while i < s.len()
        invariant
            i <= s@.len(),
            out@ == seq!['"'] + double_quoted_inner(s@.subrange(0, i as int)),
        decreases s@.len() - i,
    {
        let ghost longer = s@.subrange(0, i + 1);
        assert(longer.drop_last() =~= s@.subrange(0, i as int));
        push_double_quoted_char(&mut out, s[i]);
        assert(out@ =~= seq!['"'] + double_quoted_inner(longer));
        i += 1;
    }
    assert(s@.subrange(0, s@.len() as int) =~= s@);
    out.push('"');
    assert(out@ =~= double_quoted(s@));
    out
}

/// The inside of a single-quoted string, in which a quote is doubled.
pub open spec fn single_quoted_inner(s: Seq<char>) -> Seq<char>
    decreases s.len(),
{
    if s.len() == 0 {
        Seq::empty()
    } else {
        single_quoted_inner(s.drop_last()) + if s.last() == '\'' {
            seq!['\'', '\'']
        } else {
            seq![s.last()]
        }
    }
}

/// A string in single quotes.
pub open spec fn single_quoted(s: Seq<char>) -> Seq<char> {
    seq!['\''] + single_quoted_inner(s) + seq!['\'']
}

/// Renders a string in single quotes.
pub fn render_single_quoted(s: &Vec<char>) -> (r: String)
    ensures
        r@ == single_quoted(s@),
{
    let mut out: String = String::new();
    out.push('\'');
    let mut i: usize = 0;
    assert(s@.subrange(0, 0) =~= Seq::<char>::empty());
    assert(out@ =~= seq!['\''] + single_quoted_inner(s@.subrange(0, 0)));
    while i < s.len()
        invariant
            i <= s@.len(),
            out@ == seq!['\''] + single_quoted_inner(s@.subrange(0, i as int)),
        decreases s@.len() - i,
    {
        let ghost longer = s@.subrange(0, i + 1);
        assert(longer.drop_last() =~= s@.subrange(0, i as int));
        if s[i] == '\'' {
            out.push('\'');
        }
        out.push(s[i]);
        assert(out@ =~= seq!['\''] + single_quoted_inner(longer));
        i += 1;
    }
    assert(s@.subrange(0, s@.len() as int) =~= s@);
    out.push('\'');
    assert(out@ =~= single_quoted(s@));
    out
}

/// Whether the context is inside a flow collection.
pub open spec fn is_flow(context: SpanContext) -> bool {
    context == SpanContext::FlowMapValue || context == SpanContext::FlowSeqItem
}

/// A string in the given style, or in double quotes where that style cannot
/// hold it.
pub open spec fn string_in_style(s: Seq<char>, style: ScalarStyle, context: SpanContext) -> Seq<
    char,
> {
    match style {
        ScalarStyle::Plain => if needs_quoting(s) || (is_flow(context) && needs_quoting_in_flow(
            s,
        )) {
            double_quoted(s)
        } else {
            s
        },
        ScalarStyle::SingleQuoted => single_quoted(s),
        ScalarStyle::DoubleQuoted | ScalarStyle::Literal | ScalarStyle::Folded => double_quoted(s),
    }
}

/// Renders a string in the given style.
pub fn render_string_in_style(s: &str, style: ScalarStyle, context: SpanContext) -> (r: String)
    ensures
        r@ == string_in_style(s@, style, context),
{
    let chars: Vec<char> = chars_of(s);
    match style {
        ScalarStyle::Plain => {
            let flow: bool = match context {
                SpanContext::FlowMapValue | SpanContext::FlowSeqItem => true,
                _ => false,
            };
            if needs_quoting_for_plain(&chars) || (flow && needs_flow_quoting(&chars)) {
                render_double_quoted(&chars)
            } else {
                s.to_owned()
            }
        },
        ScalarStyle::SingleQuoted => render_single_quoted(&chars),
        ScalarStyle::DoubleQuoted | ScalarStyle::Literal | ScalarStyle::Folded => {
            render_double_quoted(&chars)
        },
    }
}

/// How a key is written.
pub open spec fn key_token(k: Seq<char>) -> Seq<char> {
    if needs_quoting(k) {
        double_quoted(k)
    } else {
        k
    }
}

/// Renders a mapping key, quoted where needed.
pub fn yaml_key_token(key: &str) -> (r: String)
    ensures
        r@ == key_token(key@),
{
    let chars: Vec<char> = chars_of(key);
    if needs_quoting_for_plain(&chars) {
        render_double_quoted(&chars)
    } else {
        key.to_owned()
    }
}

/// How a null is written in the place of a scalar of the given style.
pub open spec fn null_in_style(style: ScalarStyle) -> Seq<char> {
    match style {
        ScalarStyle::DoubleQuoted => "\"null\""@,
        ScalarStyle::SingleQuoted => "'null'"@,
        _ => "null"@,
    }
}

/// Renders a null.
pub fn render_null(style: ScalarStyle) -> (r: &'static str)
    ensures
        r@ == null_in_style(style),
{
    match style {
        ScalarStyle::DoubleQuoted => "\"null\"",
        ScalarStyle::SingleQuoted => "'null'",
        _ => "null",
    }
}

/// How a float is written.
pub open spec fn yaml_float(s: Seq<char>) -> Seq<char> {
    if s == "NaN"@ {
        ".nan"@
    } else if s == "-inf"@ {
        "-.inf"@
    } else if s == "inf"@ {
        ".inf"@
    } else {
        float_token(s)
    }
}

/// Renders a float.
pub fn render_float(s: &str) -> (r: String)
    ensures
        r@ == yaml_float(s@),
{
    if same_text(s, "NaN") {
        ".nan".to_owned()
    } else if same_text(s, "-inf") {
        "-.inf".to_owned()
    } else if same_text(s, "inf") {
        ".inf".to_owned()
    } else {
        float_token_text(s)
    }
}

// ---------------------------------------------------------------------------
// Renderers
// ---------------------------------------------------------------------------

/// What replaces a scalar of the given style. A container cannot replace a
/// scalar in place: a null stands for it.
pub open spec fn yaml_replacement(t: Tree, style: ScalarStyle, context: SpanContext) -> Seq<char> {
    match t {
        Tree::Null | Tree::Array(_) | Tree::Object(_) => null_in_style(style),
        Tree::Bool(b) => bool_text_of(b),
        Tree::Int(n) => signed_decimal(n),
        Tree::BigInt(s) | Tree::BigFloat(s) => s,
        Tree::Float(s) => yaml_float(s),
        Tree::String(s) => string_in_style(s, style, context),
    }
}

/// The space that keeps a value apart from the colon or the dash before it, where
/// no value was written before, or only one behind such a space.
pub open spec fn kept_apart(original: Seq<u8>) -> Seq<char> {
    if original.len() == 0 || original[0] == 32 {
        " "@
    } else {
        Seq::empty()
    }
}

/// Renderer for in-span replacements in YAML documents.
#[derive(Debug, Default, Clone, Copy)]
pub struct YamlScalarRenderer;

impl ScalarRenderer for YamlScalarRenderer {
    open spec fn renders(&self, t: Tree) -> bool {
        true
    }

    open spec fn replacement(&self, t: Tree, context: SpanContext, original: Seq<u8>) -> Seq<u8> {
        encode_utf8(kept_apart(original) + yaml_replacement(t, style_of(original), context))
    }

    fn render_replacement(&self, value: &Value, context: SpanContext, original: &[u8]) -> (r: Vec<
        u8,
    >) {
        let style: ScalarStyle = detect_scalar_style(original);
        let text: String = match value {
            Value::Null | Value::Array(_) | Value::Object(_) => render_null(style).to_owned(),
            Value::Bool(b) => bool_text(*b),
            Value::Int(n) => signed_text(*n),
            Value::BigInt(s) | Value::BigFloat(s) => s.clone(),
            Value::Float(s) => render_float(s.as_str()),
            Value::String(s) => render_string_in_style(s.as_str(), style, context),
        };
        assert(text@ == yaml_replacement(value@, style_of(original@), context));
        if original.len() == 0 || original[0] == 32 {
            return utf8_of(joined(" ", text.as_str()).as_str());
        }
        assert(Seq::<char>::empty() + text@ =~= text@);
        utf8_of(text.as_str())
    }
}

/// A value on one line; a container is written as an empty one.
pub open spec fn inline_scalar(t: Tree) -> Seq<char> {
    match t {
        Tree::Null => "null"@,
        Tree::Bool(b) => bool_text_of(b),
        Tree::Int(n) => signed_decimal(n),
        Tree::BigInt(s) | Tree::BigFloat(s) => s,
        Tree::Float(s) => yaml_float(s),
        Tree::String(s) => string_in_style(s, ScalarStyle::Plain, SpanContext::BlockMapValue),
        Tree::Array(_) => "[]"@,
        Tree::Object(_) => "{}"@,
    }
}

/// Renders a value on one line.
pub fn render_scalar_inline(value: &Value) -> (r: String)
    ensures
        r@ == inline_scalar(value@),
{
    match value {
        Value::Null => "null".to_owned(),
        Value::Bool(b) => bool_text(*b),
        Value::Int(n) => signed_text(*n),
        Value::BigInt(s) | Value::BigFloat(s) => s.clone(),
        Value::Float(s) => render_float(s.as_str()),
        Value::String(s) => render_string_in_style(
            s.as_str(),
            ScalarStyle::Plain,
            SpanContext::BlockMapValue,
        ),
        Value::Array(_) => "[]".to_owned(),
        Value::Object(_) => "{}".to_owned(),
    }
}

/// The first `k` items of a block sequence, one on each line.
pub open spec fn block_items(items: Seq<Tree>, k: int, pad: Seq<char>) -> Seq<char>
    decreases k,
{
    if k <= 0 {
        Seq::empty()
    } else {
        block_items(items, k - 1, pad) + pad + seq!['-', ' '] + inline_scalar(items[k - 1])
            + seq!['\n']
    }
}

/// The first `k` members of a block mapping, one on each line.
pub open spec fn block_members(entries: Seq<(Seq<char>, Tree)>, k: int, pad: Seq<char>) -> Seq<char>
    decreases k,
{
    if k <= 0 {
        Seq::empty()
    } else {
        block_members(entries, k - 1, pad) + pad + key_token(entries[k - 1].0) + seq![':', ' ']
            + inline_scalar(entries[k - 1].1) + seq!['\n']
    }
}

/// The spaces in front of a new member: its parent's children stand in the
/// 1-based column `parent_indent`.
pub open spec fn member_pad(parent_indent: u32) -> Seq<char> {
    spaces(
        if parent_indent > 0 {
            (parent_indent - 1) as nat
        } else {
            0
        },
    )
}

/// A new member in block style, on lines of its own.
pub open spec fn yaml_insertion(key: Seq<char>, t: Tree, parent_indent: u32) -> Seq<char> {
    let outer = member_pad(parent_indent);
    let inner = outer + spaces(2);
    seq!['\n'] + outer + key_token(key) + seq![':'] + match t {
        Tree::Array(items) => if items.len() == 0 {
            " []\n"@
        } else {
            seq!['\n'] + block_items(items, items.len() as int, inner)
        },
        Tree::Object(entries) => if entries.len() == 0 {
            " {}\n"@
        } else {
            seq!['\n'] + block_members(entries, entries.len() as int, inner)
        },
        _ => seq![' '] + inline_scalar(t) + seq!['\n'],
    }
}

/// Renderer for new members of a YAML mapping.
#[derive(Debug, Default, Clone, Copy)]
pub struct YamlInsertionRenderer;

impl InsertionRenderer for YamlInsertionRenderer {
    open spec fn inserts(&self, t: Tree) -> bool {
        true
    }

    open spec fn insertion(
        &self,
        key: Seq<char>,
        t: Tree,
        parent_indent: u32,
        parent_context: SpanContext,
    ) -> Seq<u8> {
        encode_utf8(yaml_insertion(key, t, parent_indent))
    }

    fn render_insertion(
        &self,
        key: &str,
        value: &Value,
        parent_indent: u32,
        parent_context: SpanContext,
    ) -> (r: Vec<u8>) {
        broadcast use {lemma_array_view, lemma_object_view};

        let mut out: String = String::new();
        out.push('\n');
        push_spaces(&mut out, parent_indent.saturating_sub(1) as usize);
        let token: String = yaml_key_token(key);
        out.push_str(token.as_str());
        out.push(':');
        let ghost head = out@;
        assert(head =~= seq!['\n'] + member_pad(parent_indent) + key_token(key@) + seq![':']);
        let mut inner: String = String::new();
        push_spaces(&mut inner, parent_indent.saturating_sub(1) as usize);
        push_spaces(&mut inner, 2);
        assert(inner@ =~= member_pad(parent_indent) + spaces(2));
        match value {
            Value::Array(items) => {
                if items.len() == 0 {
                    out.push_str(" []\n");
                } else {
                    out.push('\n');
                    let ghost all = trees(items@);
                    let mut i: usize = 0;
                    assert(out@ =~= head + (seq!['\n'] + block_items(all, 0, inner@)));
                    while i < items.len()
                        invariant
                            i <= items@.len(),
                            all == trees(items@),
                            out@ == head + (seq!['\n'] + block_items(all, i as int, inner@)),
                        decreases items@.len() - i,
                    {
                        let ghost before = block_items(all, i as int, inner@);
                        out.push_str(inner.as_str());
                        out.push('-');
                        out.push(' ');
                        let text: String = render_scalar_inline(&items[i]);
                        out.push_str(text.as_str());
                        out.push('\n');
                        assert(out@ =~= head + (seq!['\n'] + (before + inner@ + seq!['-', ' ']
                            + text@ + seq!['\n'])));
                        i += 1;
                    }
                }
            },
            Value::Object(map) => {
                if map.entries.len() == 0 {
                    out.push_str(" {}\n");
                } else {
                    out.push('\n');
                    let ghost all = map@;
                    let mut i: usize = 0;
                    assert(out@ =~= head + (seq!['\n'] + block_members(all, 0, inner@)));
                    while i < map.entries.len()
                        invariant
                            i <= map.entries@.len(),
                            all == map@,
                            out@ == head + (seq!['\n'] + block_members(all, i as int, inner@)),
                        decreases map.entries@.len() - i,
                    {
                        let ghost before = block_members(all, i as int, inner@);
                        out.push_str(inner.as_str());
                        let k: String = yaml_key_token(map.entries[i].0.as_str());
                        out.push_str(k.as_str());
                        out.push(':');
                        out.push(' ');
                        let text: String = render_scalar_inline(&map.entries[i].1);
                        out.push_str(text.as_str());
                        out.push('\n');
                        assert(all[i as int] == (
                            map.entries@[i as int].0@,
                            map.entries@[i as int].1@,
                        ));
                        assert(out@ =~= head + (seq!['\n'] + (before + inner@ + k@ + seq![':', ' ']
                            + text@ + seq!['\n'])));
                        i += 1;
                    }
                }
            },
            _ => {
                out.push(' ');
                let text: String = render_scalar_inline(value);
                out.push_str(text.as_str());
                out.push('\n');
                assert(out@ =~= head + (seq![' '] + text@ + seq!['\n']));
            },
        }
        assert(out@ =~= yaml_insertion(key@, value@, parent_indent));
        utf8_of(out.as_str())
    }
}

} // verus!
