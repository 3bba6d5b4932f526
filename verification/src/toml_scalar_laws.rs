//! What is written in the place of a TOML scalar reads as the value that was set.

use crate::decimal_text::{decimal_number, same_number};
use crate::document::{can_set, range_fits, set_model, DocModel};
use crate::document_laws::law_set_span_covers_new_bytes;
use crate::format_tag::FormatTag;
use crate::layout_laws::is_not_finite;
use crate::number_laws::{
    has_point_or_exponent, law_float_token_is_the_number, law_integer_text_is_the_number,
    lemma_number_chars,
};
use crate::numbers::parsed_int;
use crate::parsers::json_write::float_token;
use crate::parsers::toml_render::{
    basic_char, basic_inner, basic_string, fits_literal, is_bare_char, is_bare_key,
    is_literal_char, string_style_of, toml_float, toml_inline, toml_insertion, toml_key,
    toml_replacement, toml_string, StringStyle, TomlInsertionRenderer,
};
use crate::pointer::Seg;
use crate::spans::SpanContext;
use crate::textual_edit::{InsertionRenderer, ScalarRenderer};
use crate::value::Tree;
use crate::yaml_scalar_laws::{hex_value, put_first};
use vstd::prelude::*;
use vstd::utf8::{decode_utf8, encode_utf8_decode_utf8, encode_utf8_valid_utf8, valid_utf8};

verus! {

/// What an escape of one letter stands for.
pub open spec fn toml_escape_meaning(c: char) -> Option<char> {
    if c == '"' || c == '\\' {
        Some(c)
    } else if c == 'b' {
        Some(8 as char)
    } else if c == 't' {
        Some('\t')
    } else if c == 'n' {
        Some('\n')
    } else if c == 'f' {
        Some(0x0c as char)
    } else if c == 'r' {
        Some('\r')
    } else {
        None
    }
}

/// The text that stands between the quotes of a basic string, its escapes
/// resolved.
pub open spec fn toml_unescaped(t: Seq<char>) -> Option<Seq<char>>
    decreases t.len(),
{
    if t.len() == 0 {
        Some(Seq::empty())
    } else if t[0] == '"' || ((t[0] as u32) < 0x20 && t[0] != '\t') || t[0] as u32 == 0x7f {
        None
    } else if t[0] != '\\' {
        put_first(t[0], toml_unescaped(t.subrange(1, t.len() as int)))
    } else if t.len() < 2 {
        None
    } else if t[1] == 'u' {
        if t.len() < 6 {
            None
        } else {
            match (hex_value(t[2]), hex_value(t[3]), hex_value(t[4]), hex_value(t[5])) {
                (Some(a), Some(b), Some(c), Some(d)) => put_first(
                    (4096 * a + 256 * b + 16 * c + d) as char,
                    toml_unescaped(t.subrange(6, t.len() as int)),
                ),
                _ => None,
            }
        }
    } else {
        match toml_escape_meaning(t[1]) {
            Some(c) => put_first(c, toml_unescaped(t.subrange(2, t.len() as int))),
            None => None,
        }
    }
}

/// Whether a text can stand between single quotes: nothing in it ends them, and
/// it holds no control characters but tabs.
pub open spec fn is_literal_text(t: Seq<char>) -> bool {
    forall|i: int|
        0 <= i < t.len() ==> (#[trigger] t[i]) != '\'' && (t[i] as u32 >= 0x20 || t[i] == '\t')
            && t[i] as u32 != 0x7f
}

/// The value that a TOML scalar is read as.
pub open spec fn read_toml(s: Seq<char>) -> Option<Tree> {
    if s.len() >= 2 && s[0] == '"' && s.last() == '"' {
        match toml_unescaped(s.subrange(1, s.len() - 1)) {
            Some(text) => Some(Tree::String(text)),
            None => None,
        }
    } else if s.len() >= 2 && s[0] == '\'' && s.last() == '\'' && is_literal_text(
        s.subrange(1, s.len() - 1),
    ) {
        Some(Tree::String(s.subrange(1, s.len() - 1)))
    } else if s == seq!['t', 'r', 'u', 'e'] {
        Some(Tree::Bool(true))
    } else if s == seq!['f', 'a', 'l', 's', 'e'] {
        Some(Tree::Bool(false))
    } else if decimal_number(s) is Some {
        if has_point_or_exponent(s) {
            Some(Tree::Float(s))
        } else {
            match parsed_int(s) {
                Some(n) => Some(Tree::Int(n as int)),
                None => Some(Tree::BigInt(s)),
            }
        }
    } else if s == seq!['n', 'a', 'n'] {
        Some(Tree::Float("NaN"@))
    } else if s == seq!['i', 'n', 'f'] || s == seq!['+', 'i', 'n', 'f'] {
        Some(Tree::Float("inf"@))
    } else if s == seq!['-', 'i', 'n', 'f'] {
        Some(Tree::Float("-inf"@))
    } else {
        None
    }
}

/// Whether what was read is the value that was set. TOML has no null, and a
/// collection cannot be set in the place of a scalar: an empty text stands for
/// both.
pub open spec fn is_toml_read_as(read: Option<Tree>, set: Tree) -> bool {
    match set {
        Tree::Null | Tree::Array(_) | Tree::Object(_) => read == Some(Tree::String(Seq::empty())),
        Tree::Float(text) => read matches Some(Tree::Float(s)) && (same_number(s, text) || (
        is_not_finite(text) && s == text)),
        Tree::BigFloat(text) => read == Some(Tree::Float(text)),
        _ => read == Some(set),
    }
}

/// Whether the numbers of a scalar are numbers.
pub open spec fn is_toml_scalar(t: Tree) -> bool {
    match t {
        Tree::Int(n) => i64::MIN <= n <= i64::MAX,
        Tree::BigInt(s) => decimal_number(s) is Some && !has_point_or_exponent(s) && parsed_int(s)
            is None,
        Tree::Float(s) => decimal_number(s) is Some || is_not_finite(s),
        Tree::BigFloat(s) => decimal_number(s) is Some && has_point_or_exponent(s),
        _ => true,
    }
}

proof fn lemma_basic_front(s: Seq<char>)
    requires
        s.len() > 0,
    ensures
        basic_inner(s) == basic_char(s[0]) + basic_inner(s.subrange(1, s.len() as int)),
    decreases s.len(),
{
    let rest = s.subrange(1, s.len() as int);
    if s.len() == 1 {
        assert(s.drop_last() =~= Seq::<char>::empty());
        assert(rest =~= Seq::<char>::empty());
        assert(basic_inner(s) =~= basic_char(s[0]) + basic_inner(rest));
    } else {
        lemma_basic_front(s.drop_last());
        assert(s.drop_last().subrange(1, s.len() - 1) =~= rest.drop_last());
        assert(basic_inner(s) =~= basic_char(s[0]) + basic_inner(rest));
    }
}

proof fn lemma_one_unescaped(c: char, rest: Seq<char>)
    ensures
        toml_unescaped(basic_char(c) + rest) == put_first(c, toml_unescaped(rest)),
{
    let t = basic_char(c) + rest;
    let n = c as u32;
    let k = basic_char(c).len() as int;
    assert(t.subrange(k, t.len() as int) =~= rest);
    if k == 6 {
        assert(n < 128);
        assert((n / 16) * 16 + n % 16 == n);
        assert(t[0] == '\\' && t[1] == 'u' && t[2] == '0' && t[3] == '0');
        assert(t[4] == basic_char(c)[4] && t[5] == basic_char(c)[5]);
        assert(hex_value(t[2]) == Some(0nat) && hex_value(t[3]) == Some(0nat));
        assert(hex_value(t[4]) == Some((n / 16) as nat));
        assert(hex_value(t[5]) == Some((n % 16) as nat));
    } else if k == 2 {
        assert(t[0] == '\\' && t[1] == basic_char(c)[1]);
        assert(toml_escape_meaning(t[1]) == Some(c));
    } else {
        assert(t[0] == c);
    }
}

proof fn lemma_unescaped(s: Seq<char>)
    ensures
        toml_unescaped(basic_inner(s)) == Some(s),
    decreases s.len(),
{
    if s.len() > 0 {
        let rest = s.subrange(1, s.len() as int);
        lemma_basic_front(s);
        lemma_unescaped(rest);
        lemma_one_unescaped(s[0], basic_inner(rest));
        assert(seq![s[0]] + rest =~= s);
    }
}

proof fn lemma_basic_is_read(s: Seq<char>)
    ensures
        read_toml(basic_string(s)) == Some(Tree::String(s)),
{
    let t = basic_string(s);
    lemma_unescaped(s);
    assert(t.subrange(1, t.len() - 1) =~= basic_inner(s));
    assert(t[0] == '"' && t.last() == '"');
}

proof fn lemma_number_is_read(s: Seq<char>)
    requires
        decimal_number(s) is Some,
    ensures
        read_toml(s) == Some(
            if has_point_or_exponent(s) {
                Tree::Float(s)
            } else {
                match parsed_int(s) {
                    Some(n) => Tree::Int(n as int),
                    None => Tree::BigInt(s),
                }
            },
        ),
{
    lemma_number_chars(s);
}

proof fn lemma_float_is_read(s: Seq<char>)
    requires
        decimal_number(s) is Some || is_not_finite(s),
    ensures
        is_toml_read_as(read_toml(toml_float(s)), Tree::Float(s)),
{
    reveal_strlit("NaN");
    reveal_strlit("nan");
    reveal_strlit("inf");
    reveal_strlit("-inf");
    assert("NaN"@[0] == 'N' && "inf"@[0] == 'i' && "-inf"@[0] == '-' && "-inf"@[1] == 'i');
    if decimal_number(s) is Some {
        lemma_number_chars(s);
        law_float_token_is_the_number(s);
        lemma_number_is_read(float_token(s));
    } else {
        let t = toml_float(s);
        assert("nan"@ =~= seq!['n', 'a', 'n']);
        assert("inf"@ =~= seq!['i', 'n', 'f']);
        assert("-inf"@ =~= seq!['-', 'i', 'n', 'f']);
        assert(t[0] == 'n' || t[0] == 'i' || t[0] == '-');
        if decimal_number(t) is Some {
            lemma_number_chars(t);
            assert(t[1] == 'a' || t[1] == 'n' || t[1] == 'i');
        }
        if t == seq!['n', 'a', 'n'] {
        } else if t == seq!['i', 'n', 'f'] {
            assert(t[0] != 'n');
        } else {
            assert(t == seq!['-', 'i', 'n', 'f']);
            assert(t.len() == 4);
        }
    }
}

proof fn lemma_bool_is_read(b: bool)
    ensures
        read_toml(
            if b {
                "true"@
            } else {
                "false"@
            },
        ) == Some(Tree::Bool(b)),
{
    reveal_strlit("true");
    reveal_strlit("false");
    assert("true"@ =~= seq!['t', 'r', 'u', 'e']);
    assert("false"@ =~= seq!['f', 'a', 'l', 's', 'e']);
    assert("true"@[0] == 't' && "false"@[0] == 'f');
}

proof fn lemma_nothing_is_read()
    ensures
        read_toml("\"\""@) == Some(Tree::String(Seq::<char>::empty())),
{
    reveal_strlit("\"\"");
    assert("\"\""@.subrange(1, 1) =~= Seq::<char>::empty());
}

/// What replaces a scalar reads as the value that was set, whatever the style of
/// the scalar.
pub proof fn law_toml_replacement_is_read_as_the_value(t: Tree, style: StringStyle)
    requires
        is_toml_scalar(t),
    ensures
        is_toml_read_as(read_toml(toml_replacement(t, style)), t),
        t is String && style == StringStyle::Literal && is_literal_text(t->String_0)
            ==> toml_replacement(t, style)[0] == '\'',
{
    match t {
        Tree::Null | Tree::Array(_) | Tree::Object(_) => {
            lemma_nothing_is_read();
        },
        Tree::Bool(b) => {
            lemma_bool_is_read(b);
        },
        Tree::Int(n) => {
            law_integer_text_is_the_number(n);
            lemma_number_is_read(toml_replacement(t, style));
        },
        Tree::BigInt(s) | Tree::BigFloat(s) => {
            lemma_number_is_read(s);
        },
        Tree::Float(s) => {
            lemma_float_is_read(s);
        },
        Tree::String(s) => {
            lemma_basic_is_read(s);
            if style == StringStyle::Literal {
                if fits_literal(s) {
                    let w = toml_string(s, style);
                    assert(w.subrange(1, w.len() - 1) =~= s);
                    assert forall|i: int| 0 <= i < s.len() implies (#[trigger] s[i]) != '\'' && (
                    s[i] as u32 >= 0x20 || s[i] == '\t') && s[i] as u32 != 0x7f by {
                        assert(is_literal_char(s[i]));
                    }
                    assert(is_literal_text(s));
                } else if is_literal_text(s) {
                    assert forall|i: int| 0 <= i < s.len() implies is_literal_char(
                        #[trigger] s[i],
                    ) by {}
                }
            }
        },
    }
}

/// After a value was set in a TOML document, the bytes at its place read as that
/// value.
pub proof fn law_toml_source_says_what_was_set(m: DocModel, p: Seq<Seg>, v: Tree)
    requires
        m.format == FormatTag::Toml,
        can_set(m, p, v),
        set_model(m, p, v).1 is Ok,
        is_toml_scalar(v),
    ensures
        ({
            let after = set_model(m, p, v).0;
            let range = after.span(p)->Some_0.value_range;
            let bytes = after.bytes.subrange(range.start as int, range.end as int);
            &&& after.span(p) is Some
            &&& range_fits(range, after.bytes.len())
            &&& valid_utf8(bytes)
            &&& is_toml_read_as(read_toml(decode_utf8(bytes)), v)
        }),
{
    let span = m.span(p)->Some_0;
    let original = m.bytes.subrange(span.value_range.start as int, span.value_range.end as int);
    let text = toml_replacement(v, string_style_of(original));
    law_set_span_covers_new_bytes(m, p, v);
    law_toml_replacement_is_read_as_the_value(v, string_style_of(original));
    encode_utf8_valid_utf8(text);
    encode_utf8_decode_utf8(text);
}

/// Whether a text is a key: letters, digits, dashes and underlines as they are,
/// anything between double quotes.
pub open spec fn is_toml_key(w: Seq<char>, key: Seq<char>) -> bool {
    ||| {
        &&& w == key && w.len() > 0
        &&& forall|i: int|
            0 <= i < w.len() ==> 'a' <= (#[trigger] w[i]) <= 'z' || 'A' <= w[i] <= 'Z' || '0'
                <= w[i] <= '9' || w[i] == '_' || w[i] == '-'
    }
    ||| {
        &&& w.len() >= 2 && w[0] == '"' && w.last() == '"'
        &&& toml_unescaped(w.subrange(1, w.len() - 1)) == Some(key)
    }
}

/// Whether a text is a line with a key and a value.
pub open spec fn is_toml_line(text: Seq<char>, name: Seq<char>, value: Seq<char>) -> bool {
    text == name + seq![' ', '=', ' '] + value + seq!['\n']
}

/// Whether a text is a value behind a new key. A collection is written as an
/// empty one.
pub open spec fn is_new_value(value: Seq<char>, t: Tree) -> bool {
    match t {
        Tree::Array(_) => value == seq!['[', ']'],
        Tree::Object(_) => value == seq!['{', '}'],
        _ => is_toml_read_as(read_toml(value), t),
    }
}

/// A new member is the key, an equals sign and the value, on a line of its own.
pub proof fn law_new_toml_member_is_read(
    key: Seq<char>,
    t: Tree,
    parent_indent: u32,
    context: SpanContext,
)
    requires
        is_toml_scalar(t),
    ensures
        ({
            let bytes = TomlInsertionRenderer.insertion(key, t, parent_indent, context);
            let text = decode_utf8(bytes);
            &&& TomlInsertionRenderer.inserts(t)
            &&& valid_utf8(bytes)
            &&& exists|name: Seq<char>, value: Seq<char>|
                {
                    &&& #[trigger] is_toml_line(text, name, value)
                    &&& is_toml_key(name, key)
                    &&& is_new_value(value, t)
                }
        }),
{
    reveal_strlit(" = ");
    reveal_strlit("[]");
    reveal_strlit("{}");
    let text = toml_insertion(key, t);
    encode_utf8_valid_utf8(text);
    encode_utf8_decode_utf8(text);
    let name = toml_key(key);
    let value = toml_inline(t);
    assert(" = "@ =~= seq![' ', '=', ' ']);
    assert("[]"@ =~= seq!['[', ']']);
    assert("{}"@ =~= seq!['{', '}']);
    assert(is_toml_line(text, name, value));
    if is_bare_key(key) {
        assert forall|i: int| 0 <= i < key.len() implies 'a' <= (#[trigger] key[i]) <= 'z' || 'A'
            <= key[i] <= 'Z' || '0' <= key[i] <= '9' || key[i] == '_' || key[i] == '-' by {
            assert(is_bare_char(key[i]));
        }
    } else {
        lemma_unescaped(key);
        assert(name.subrange(1, name.len() - 1) =~= basic_inner(key));
    }
    assert(is_toml_key(name, key));
    match t {
        Tree::Null => {
            lemma_nothing_is_read();
        },
        Tree::Bool(b) => {
            lemma_bool_is_read(b);
        },
        Tree::Int(n) => {
            law_integer_text_is_the_number(n);
            lemma_number_is_read(value);
        },
        Tree::BigInt(s) | Tree::BigFloat(s) => {
            lemma_number_is_read(s);
        },
        Tree::Float(s) => {
            lemma_float_is_read(s);
        },
        Tree::String(s) => {
            lemma_basic_is_read(s);
        },
        _ => {},
    }
    assert(is_new_value(value, t));
}

} // verus!
