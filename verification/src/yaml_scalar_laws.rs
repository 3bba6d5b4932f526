//! What is written in the place of a YAML scalar reads as the value that was set.

use crate::decimal_text::{decimal_number, same_number};
use crate::document::{can_set, range_fits, set_model, DocModel};
use crate::document_laws::law_set_span_covers_new_bytes;
use crate::format_tag::FormatTag;
use crate::number_laws::{
    has_point_or_exponent, law_float_token_is_the_number, law_integer_text_is_the_number,
    lemma_number_chars,
};
use crate::numbers::{is_digit, parsed_int};
use crate::parsers::json_write::{float_token, spaces};
use crate::parsers::yaml_render::{
    block_items, block_members, double_quoted, double_quoted_char, double_quoted_inner,
    first_visible, inline_scalar, key_token, kept_apart, needs_quoting, single_quoted,
    single_quoted_inner, string_in_style, style_of, yaml_float, yaml_insertion, yaml_replacement,
    ScalarStyle, YamlInsertionRenderer, YamlScalarRenderer,
};
use crate::pointer::Seg;
use crate::spans::SpanContext;
use crate::text::{holds_control, is_control, lowered};
use crate::textual_edit::{InsertionRenderer, ScalarRenderer};
use crate::value::Tree;
use vstd::prelude::*;
use vstd::utf8::{decode_utf8, encode_utf8_decode_utf8, encode_utf8_valid_utf8, valid_utf8};

verus! {

// ---------------------------------------------------------------------------
// Reading a scalar
// ---------------------------------------------------------------------------

/// Words for nothing.
pub open spec fn is_null_word(s: Seq<char>) -> bool {
    s == "null"@ || s == "Null"@ || s == "NULL"@ || s == "~"@
}

/// Words for true, in this and in the older version of the language.
pub open spec fn is_true_word(s: Seq<char>) -> bool {
    s == "true"@ || s == "True"@ || s == "TRUE"@ || s == "yes"@ || s == "Yes"@ || s == "YES"@ || s
        == "on"@ || s == "On"@ || s == "ON"@
}

/// Words for false, in this and in the older version of the language.
pub open spec fn is_false_word(s: Seq<char>) -> bool {
    s == "false"@ || s == "False"@ || s == "FALSE"@ || s == "no"@ || s == "No"@ || s == "NO"@ || s
        == "off"@ || s == "Off"@ || s == "OFF"@
}

/// Whether a text is a float that is not finite.
pub open spec fn is_infinite_word(s: Seq<char>) -> bool {
    let body = if s.len() > 0 && (s[0] == '+' || s[0] == '-') {
        s.subrange(1, s.len() as int)
    } else {
        s
    };
    lowered(body) == ".inf"@ || lowered(s) == ".nan"@
}

/// Whether a text is an integer of base sixteen, eight or two.
pub open spec fn is_based_integer(s: Seq<char>) -> bool {
    let from: int = if s.len() > 0 && (s[0] == '+' || s[0] == '-') {
        1
    } else {
        0
    };
    s.len() > from + 2 && s[from] == '0' && (s[from + 1] == 'x' || s[from + 1] == 'o' || s[from + 1]
        == 'b')
}

/// What a scalar without quotes stands for.
pub open spec fn plain_meaning(s: Seq<char>) -> Tree {
    if is_null_word(s) {
        Tree::Null
    } else if is_true_word(s) {
        Tree::Bool(true)
    } else if is_false_word(s) {
        Tree::Bool(false)
    } else if decimal_number(s) is Some {
        if has_point_or_exponent(s) {
            Tree::Float(s)
        } else {
            match parsed_int(s) {
                Some(n) => Tree::Int(n as int),
                None => Tree::BigInt(s),
            }
        }
    } else if is_infinite_word(s) {
        Tree::Float(s)
    } else if is_based_integer(s) {
        Tree::BigInt(s)
    } else {
        Tree::String(s)
    }
}

/// Whether a character opens something else than a scalar without quotes.
pub open spec fn opens_otherwise(c: char) -> bool {
    c == ',' || c == '[' || c == ']' || c == '{' || c == '}' || c == '#' || c == '&' || c == '*'
        || c == '!' || c == '|' || c == '>' || c == '\'' || c == '"' || c == '%' || c == '@' || c
        == '`'
}

/// Whether a character is a space or a tab.
pub open spec fn is_gap_char(c: char) -> bool {
    c == ' ' || c == '\t'
}

/// Whether a text can stand as a scalar without quotes: nothing in it starts
/// another construct, a comment or a key, or ends the flow collection it is in.
pub open spec fn stands_plain(s: Seq<char>, flow: bool) -> bool {
    &&& s.len() > 0
    &&& !opens_otherwise(s[0])
    &&& s[0] == '-' || s[0] == '?' || s[0] == ':' ==> s.len() > 1 && !is_gap_char(s[1])
    &&& !is_gap_char(s[0]) && !is_gap_char(s.last())
    &&& s.last() != ':'
    &&& forall|i: int| 0 <= i < s.len() ==> !is_control(#[trigger] s[i])
    &&& forall|i: int|
        0 < i < s.len() ==> !((#[trigger] s[i]) == '#' && is_gap_char(s[i - 1]))
            && !(is_gap_char(s[i]) && s[i - 1] == ':')
    &&& flow ==> forall|i: int|
        0 <= i < s.len() ==> (#[trigger] s[i]) != ',' && s[i] != ']' && s[i] != '}'
}

/// What an escape of one letter stands for.
pub open spec fn escape_meaning(c: char) -> Option<char> {
    if c == '0' {
        Some(0 as char)
    } else if c == 'a' {
        Some(7 as char)
    } else if c == 'b' {
        Some(8 as char)
    } else if c == 't' {
        Some('\t')
    } else if c == 'n' {
        Some('\n')
    } else if c == 'v' {
        Some(0x0b as char)
    } else if c == 'f' {
        Some(0x0c as char)
    } else if c == 'r' {
        Some('\r')
    } else if c == 'e' {
        Some(0x1b as char)
    } else if c == ' ' || c == '"' || c == '/' || c == '\\' {
        Some(c)
    } else {
        None
    }
}

/// The number that a hexadecimal digit stands for.
pub open spec fn hex_value(c: char) -> Option<nat> {
    if '0' <= c <= '9' {
        Some((c as nat - 48) as nat)
    } else if 'a' <= c <= 'f' {
        Some((c as nat - 87) as nat)
    } else if 'A' <= c <= 'F' {
        Some((c as nat - 55) as nat)
    } else {
        None
    }
}

/// A character before a text.
pub open spec fn put_first(c: char, rest: Option<Seq<char>>) -> Option<Seq<char>> {
    match rest {
        Some(s) => Some(seq![c] + s),
        None => None,
    }
}

/// The text that stands between double quotes, its escapes resolved.
pub open spec fn unescaped(t: Seq<char>) -> Option<Seq<char>>
    decreases t.len(),
{
    if t.len() == 0 {
        Some(Seq::empty())
    } else if t[0] == '"' || is_control(t[0]) {
        None
    } else if t[0] != '\\' {
        put_first(t[0], unescaped(t.subrange(1, t.len() as int)))
    } else if t.len() < 2 {
        None
    } else if t[1] == 'x' {
        if t.len() < 4 {
            None
        } else {
            match (hex_value(t[2]), hex_value(t[3])) {
                (Some(a), Some(b)) => put_first(
                    (16 * a + b) as char,
                    unescaped(t.subrange(4, t.len() as int)),
                ),
                _ => None,
            }
        }
    } else {
        match escape_meaning(t[1]) {
            Some(c) => put_first(c, unescaped(t.subrange(2, t.len() as int))),
            None => None,
        }
    }
}

/// The text that stands between single quotes, in which a quote is doubled.
pub open spec fn undoubled(t: Seq<char>) -> Option<Seq<char>>
    decreases t.len(),
{
    if t.len() == 0 {
        Some(Seq::empty())
    } else if t[0] != '\'' {
        put_first(t[0], undoubled(t.subrange(1, t.len() as int)))
    } else if t.len() > 1 && t[1] == '\'' {
        put_first('\'', undoubled(t.subrange(2, t.len() as int)))
    } else {
        None
    }
}

/// The value that a scalar on one line is read as.
pub open spec fn read_scalar(s: Seq<char>, flow: bool) -> Option<Tree> {
    if s.len() >= 2 && s[0] == '"' && s.last() == '"' {
        match unescaped(s.subrange(1, s.len() - 1)) {
            Some(text) => Some(Tree::String(text)),
            None => None,
        }
    } else if s.len() >= 2 && s[0] == '\'' && s.last() == '\'' && !holds_control(s) {
        match undoubled(s.subrange(1, s.len() - 1)) {
            Some(text) => Some(Tree::String(text)),
            None => None,
        }
    } else if stands_plain(s, flow) {
        Some(plain_meaning(s))
    } else {
        None
    }
}

/// Whether two texts stand for the same float.
pub open spec fn same_float(read: Seq<char>, text: Seq<char>) -> bool {
    ||| same_number(read, text)
    ||| text == "NaN"@ && lowered(read) == ".nan"@
    ||| text == "inf"@ && lowered(read) == ".inf"@
    ||| text == "-inf"@ && read.len() > 0 && read[0] == '-' && lowered(
        read.subrange(1, read.len() as int),
    ) == ".inf"@
}

/// Whether what was read is the value that was set. A collection cannot be set
/// in the place of a scalar: a null stands for it.
pub open spec fn is_read_as(read: Option<Tree>, set: Tree) -> bool {
    match set {
        Tree::Array(_) | Tree::Object(_) => read == Some(Tree::Null),
        Tree::Float(text) => read matches Some(Tree::Float(s)) && same_float(s, text),
        Tree::BigFloat(text) => read == Some(Tree::Float(text)),
        _ => read == Some(set),
    }
}

/// Whether a value can be set in the place of a scalar of the given style: its
/// numbers are numbers, single quotes hold no line ends or other control
/// characters, and a null is not put between quotes.
pub open spec fn can_be_read(t: Tree, style: ScalarStyle) -> bool {
    match t {
        Tree::Null | Tree::Array(_) | Tree::Object(_) => style != ScalarStyle::SingleQuoted && style
            != ScalarStyle::DoubleQuoted,
        Tree::Bool(_) => true,
        Tree::Int(n) => i64::MIN <= n <= i64::MAX,
        Tree::BigInt(s) => decimal_number(s) is Some && !has_point_or_exponent(s) && parsed_int(s)
            is None,
        Tree::Float(s) => decimal_number(s) is Some || s == "NaN"@ || s == "inf"@ || s == "-inf"@,
        Tree::BigFloat(s) => decimal_number(s) is Some && has_point_or_exponent(s),
        Tree::String(s) => style == ScalarStyle::SingleQuoted ==> !holds_control(s),
    }
}

// ---------------------------------------------------------------------------
// Proofs
// ---------------------------------------------------------------------------

/// No word starts like a number.
proof fn lemma_words(s: Seq<char>)
    requires
        s.len() > 0,
        is_digit(s[0]) || s[0] == '+' || s[0] == '-' || s[0] == '.',
    ensures
        !is_null_word(s),
        !is_true_word(s),
        !is_false_word(s),
{
    reveal_strlit("null");
    reveal_strlit("Null");
    reveal_strlit("NULL");
    reveal_strlit("~");
    reveal_strlit("true");
    reveal_strlit("True");
    reveal_strlit("TRUE");
    reveal_strlit("yes");
    reveal_strlit("Yes");
    reveal_strlit("YES");
    reveal_strlit("on");
    reveal_strlit("On");
    reveal_strlit("ON");
    reveal_strlit("false");
    reveal_strlit("False");
    reveal_strlit("FALSE");
    reveal_strlit("no");
    reveal_strlit("No");
    reveal_strlit("NO");
    reveal_strlit("off");
    reveal_strlit("Off");
    reveal_strlit("OFF");
    assert("null"@[0] == 'n' && "Null"@[0] == 'N' && "NULL"@[0] == 'N' && "~"@[0] == '~');
    assert("true"@[0] == 't' && "True"@[0] == 'T' && "TRUE"@[0] == 'T');
    assert("yes"@[0] == 'y' && "Yes"@[0] == 'Y' && "YES"@[0] == 'Y');
    assert("on"@[0] == 'o' && "On"@[0] == 'O' && "ON"@[0] == 'O');
    assert("false"@[0] == 'f' && "False"@[0] == 'F' && "FALSE"@[0] == 'F');
    assert("no"@[0] == 'n' && "No"@[0] == 'N' && "NO"@[0] == 'N');
    assert("off"@[0] == 'o' && "Off"@[0] == 'O' && "OFF"@[0] == 'O');
}

/// A number can stand without quotes.
proof fn lemma_number_stands(s: Seq<char>, flow: bool)
    requires
        decimal_number(s) is Some,
    ensures
        stands_plain(s, flow),
        read_scalar(s, flow) == Some(plain_meaning(s)),
        !is_null_word(s) && !is_true_word(s) && !is_false_word(s),
{
    lemma_number_chars(s);
    lemma_words(s);
    assert(s[s.len() - 1] == s.last());
}

proof fn lemma_bool_stands(b: bool, flow: bool)
    ensures
        read_scalar(
            if b {
                "true"@
            } else {
                "false"@
            },
            flow,
        ) == Some(Tree::Bool(b)),
{
    reveal_strlit("true");
    reveal_strlit("false");
    reveal_strlit("null");
    reveal_strlit("Null");
    reveal_strlit("NULL");
    reveal_strlit("~");
    reveal_strlit("True");
    reveal_strlit("TRUE");
    reveal_strlit("yes");
    reveal_strlit("Yes");
    reveal_strlit("YES");
    reveal_strlit("on");
    reveal_strlit("On");
    reveal_strlit("ON");
    assert("null"@[0] == 'n' && "Null"@[0] == 'N' && "NULL"@[0] == 'N' && "~"@[0] == '~');
    assert("true"@[0] == 't' && "True"@[0] == 'T' && "TRUE"@[0] == 'T');
    assert("yes"@[0] == 'y' && "Yes"@[0] == 'Y' && "YES"@[0] == 'Y');
    assert("on"@[0] == 'o' && "On"@[0] == 'O' && "ON"@[0] == 'O');
    assert("false"@[0] == 'f');
}

proof fn lemma_null_stands(flow: bool)
    ensures
        read_scalar("null"@, flow) == Some(Tree::Null),
{
    reveal_strlit("null");
}

proof fn lemma_infinite_stands(text: Seq<char>, flow: bool)
    requires
        text == "NaN"@ || text == "inf"@ || text == "-inf"@,
    ensures
        is_read_as(read_scalar(yaml_float(text), flow), Tree::Float(text)),
{
    reveal_strlit("NaN");
    reveal_strlit("inf");
    reveal_strlit("-inf");
    reveal_strlit(".nan");
    reveal_strlit(".inf");
    reveal_strlit("-.inf");
    assert("NaN"@[0] == 'N' && "inf"@[0] == 'i' && "-inf"@[0] == '-');
    let s = yaml_float(text);
    assert(s == ".nan"@ || s == ".inf"@ || s == "-.inf"@);
    lemma_words(s);
    assert(lowered(".nan"@) =~= ".nan"@);
    assert(lowered(".inf"@) =~= ".inf"@);
    assert("-.inf"@.subrange(1, 5) =~= ".inf"@);
    assert(s[s.len() - 1] == 'n' || s[s.len() - 1] == 'f');
    assert(stands_plain(s, flow));
    if decimal_number(s) is Some {
        lemma_number_chars(s);
        assert(s[s.len() - 1] == s.last());
    }
}

proof fn lemma_double_front(s: Seq<char>)
    requires
        s.len() > 0,
    ensures
        double_quoted_inner(s) == double_quoted_char(s[0]) + double_quoted_inner(
            s.subrange(1, s.len() as int),
        ),
    decreases s.len(),
{
    let rest = s.subrange(1, s.len() as int);
    if s.len() == 1 {
        assert(s.drop_last() =~= Seq::<char>::empty());
        assert(rest =~= Seq::<char>::empty());
        assert(double_quoted_inner(s) =~= double_quoted_char(s[0]) + double_quoted_inner(rest));
    } else {
        lemma_double_front(s.drop_last());
        assert(s.drop_last().subrange(1, s.len() - 1) =~= rest.drop_last());
        assert(double_quoted_inner(s) =~= double_quoted_char(s[0]) + double_quoted_inner(rest));
    }
}

proof fn lemma_one_unescaped(c: char, rest: Seq<char>)
    ensures
        unescaped(double_quoted_char(c) + rest) == put_first(c, unescaped(rest)),
{
    let t = double_quoted_char(c) + rest;
    let n = c as u32;
    let k = double_quoted_char(c).len() as int;
    assert(t.subrange(k, t.len() as int) =~= rest);
    if k == 4 {
        assert(n < 256);
        assert((n / 16) * 16 + n % 16 == n);
        assert(n / 16 < 16);
        assert(t[2] == double_quoted_char(c)[2] && t[3] == double_quoted_char(c)[3]);
        assert(hex_value(t[2]) == Some((n / 16) as nat));
        assert(hex_value(t[3]) == Some((n % 16) as nat));
        assert(t[0] == '\\' && t[1] == 'x');
        let a = (n / 16) as nat;
        let b = (n % 16) as nat;
        assert((16 * a + b) as char == c);
    } else if k == 2 {
        assert(t[0] == '\\' && t[1] == double_quoted_char(c)[1]);
        assert(escape_meaning(t[1]) == Some(c));
    } else {
        assert(t[0] == c);
    }
}

proof fn lemma_all_unescaped(s: Seq<char>)
    ensures
        unescaped(double_quoted_inner(s)) == Some(s),
    decreases s.len(),
{
    if s.len() > 0 {
        let rest = s.subrange(1, s.len() as int);
        lemma_double_front(s);
        lemma_all_unescaped(rest);
        lemma_one_unescaped(s[0], double_quoted_inner(rest));
        assert(seq![s[0]] + rest =~= s);
    }
}

proof fn lemma_double_is_read(s: Seq<char>, flow: bool)
    ensures
        read_scalar(double_quoted(s), flow) == Some(Tree::String(s)),
{
    let t = double_quoted(s);
    lemma_all_unescaped(s);
    assert(t.subrange(1, t.len() - 1) =~= double_quoted_inner(s));
    assert(t[0] == '"' && t.last() == '"');
}

proof fn lemma_single_front(s: Seq<char>)
    requires
        s.len() > 0,
    ensures
        single_quoted_inner(s) == (if s[0] == '\'' {
            seq!['\'', '\'']
        } else {
            seq![s[0]]
        }) + single_quoted_inner(s.subrange(1, s.len() as int)),
    decreases s.len(),
{
    let rest = s.subrange(1, s.len() as int);
    let first = if s[0] == '\'' {
        seq!['\'', '\'']
    } else {
        seq![s[0]]
    };
    if s.len() == 1 {
        assert(s.drop_last() =~= Seq::<char>::empty());
        assert(rest =~= Seq::<char>::empty());
        assert(single_quoted_inner(s) =~= first + single_quoted_inner(rest));
    } else {
        lemma_single_front(s.drop_last());
        assert(s.drop_last().subrange(1, s.len() - 1) =~= rest.drop_last());
        assert(single_quoted_inner(s) =~= first + single_quoted_inner(rest));
    }
}

proof fn lemma_all_undoubled(s: Seq<char>)
    ensures
        undoubled(single_quoted_inner(s)) == Some(s),
    decreases s.len(),
{
    if s.len() > 0 {
        let rest = s.subrange(1, s.len() as int);
        lemma_single_front(s);
        lemma_all_undoubled(rest);
        let t = single_quoted_inner(s);
        let k: int = if s[0] == '\'' {
            2
        } else {
            1
        };
        assert(t.subrange(k, t.len() as int) =~= single_quoted_inner(rest));
        assert(seq![s[0]] + rest =~= s);
    }
}

proof fn lemma_doubled_controls(s: Seq<char>)
    requires
        !holds_control(s),
    ensures
        !holds_control(single_quoted_inner(s)),
    decreases s.len(),
{
    if s.len() > 0 {
        assert forall|i: int| 0 <= i < s.drop_last().len() implies !is_control(
            #[trigger] s.drop_last()[i],
        ) by {
            assert(s.drop_last()[i] == s[i]);
        }
        lemma_doubled_controls(s.drop_last());
        assert(!is_control(s[s.len() - 1]));
        let before = single_quoted_inner(s.drop_last());
        let t = single_quoted_inner(s);
        assert forall|i: int| 0 <= i < t.len() implies !is_control(#[trigger] t[i]) by {
            if i < before.len() {
                assert(t[i] == before[i]);
            }
        }
    }
}

/// Between single quotes stands the text, whatever it holds, with its quotes
/// doubled.
pub proof fn law_single_quotes_hold_the_text(s: Seq<char>, context: SpanContext)
    ensures
        ({
            let text = yaml_replacement(Tree::String(s), ScalarStyle::SingleQuoted, context);
            &&& text.len() >= 2 && text[0] == '\'' && text.last() == '\''
            &&& undoubled(text.subrange(1, text.len() - 1)) == Some(s)
        }),
{
    let t = single_quoted(s);
    lemma_all_undoubled(s);
    assert(t.subrange(1, t.len() - 1) =~= single_quoted_inner(s));
}

/// A null that takes the place of a scalar in quotes is the word for it in the
/// same quotes.
pub proof fn law_null_in_quotes_is_the_word(t: Tree, style: ScalarStyle, context: SpanContext)
    requires
        t is Null || t is Array || t is Object,
        style == ScalarStyle::SingleQuoted || style == ScalarStyle::DoubleQuoted,
    ensures
        read_scalar(yaml_replacement(t, style, context), false) == Some(Tree::String("null"@)),
        yaml_replacement(t, style, context)[0] == (if style == ScalarStyle::SingleQuoted {
            '\''
        } else {
            '"'
        }),
{
    reveal_strlit("null");
    reveal_strlit("'null'");
    reveal_strlit("\"null\"");
    assert("null"@ =~= seq!['n', 'u', 'l', 'l']);
    assert("'null'"@.subrange(1, 5) =~= "null"@);
    assert("\"null\""@.subrange(1, 5) =~= "null"@);
    reveal_with_fuel(unescaped, 5);
    reveal_with_fuel(undoubled, 5);
    let a = "null"@.subrange(1, 4);
    let b = a.subrange(1, 3);
    let c = b.subrange(1, 2);
    let d = c.subrange(1, 1);
    assert(seq!['n'] + (seq!['u'] + (seq!['l'] + (seq!['l'] + Seq::<char>::empty()))) =~= "null"@);
}

proof fn lemma_single_is_read(s: Seq<char>, flow: bool)
    requires
        !holds_control(s),
    ensures
        read_scalar(single_quoted(s), flow) == Some(Tree::String(s)),
{
    let t = single_quoted(s);
    lemma_all_undoubled(s);
    lemma_doubled_controls(s);
    assert(t.subrange(1, t.len() - 1) =~= single_quoted_inner(s));
    assert(t[0] == '\'' && t.last() == '\'');
    assert forall|i: int| 0 <= i < t.len() implies !is_control(#[trigger] t[i]) by {
        if 0 < i < t.len() - 1 {
            assert(t[i] == single_quoted_inner(s)[i - 1]);
        }
    }
}

proof fn lemma_plain_is_read(s: Seq<char>, flow: bool)
    requires
        !needs_quoting(s),
        flow ==> !s.contains(',') && !s.contains(']') && !s.contains('}'),
    ensures
        read_scalar(s, flow) == Some(Tree::String(s)),
{
    assert forall|i: int| 0 <= i < s.len() implies !is_control(#[trigger] s[i]) by {}
    assert(!is_control(s[0]));
    assert(!is_control(s[s.len() - 1]));
    assert forall|i: int| 0 < i < s.len() implies !((#[trigger] s[i]) == '#' && is_gap_char(
        s[i - 1],
    )) && !(is_gap_char(s[i]) && s[i - 1] == ':') by {
        assert(!crate::parsers::yaml_render::unsafe_at(s, i));
        assert(!crate::parsers::yaml_render::unsafe_at(s, i - 1));
    }
    assert(!crate::parsers::yaml_render::unsafe_at(s, s.len() - 1));
    if flow {
        assert forall|i: int| 0 <= i < s.len() implies (#[trigger] s[i]) != ',' && s[i] != ']'
            && s[i] != '}' by {
            assert(s.contains(s[i]));
        }
    }
    assert(stands_plain(s, flow));
    assert(s[0] != '-');
    let body = if s[0] == '+' {
        s.subrange(1, s.len() as int)
    } else {
        s
    };
    reveal_strlit(".nan");
    assert(decimal_number(s) is None);
    assert(lowered(s).len() == s.len());
    if lowered(s) == ".nan"@ {
        assert(lowered(s)[0] == '.');
    }
    assert(!is_infinite_word(s));
    if is_based_integer(s) && s[0] == '+' {
        assert(body[0] == s[1] && body[1] == s[2]);
    }
    assert(!is_based_integer(s));
}

/// What replaces a scalar reads as the value that was set, whatever the style and
/// the place of the scalar.
pub proof fn law_replacement_is_read_as_the_value(t: Tree, style: ScalarStyle, context: SpanContext)
    requires
        can_be_read(t, style),
    ensures
        is_read_as(
            read_scalar(
                yaml_replacement(t, style, context),
                context == SpanContext::FlowMapValue || context == SpanContext::FlowSeqItem,
            ),
            t,
        ),
{
    let flow = context == SpanContext::FlowMapValue || context == SpanContext::FlowSeqItem;
    match t {
        Tree::Null | Tree::Array(_) | Tree::Object(_) => {
            lemma_null_stands(flow);
        },
        Tree::Bool(b) => {
            lemma_bool_stands(b, flow);
        },
        Tree::Int(n) => {
            law_integer_text_is_the_number(n);
            lemma_number_stands(yaml_replacement(t, style, context), flow);
        },
        Tree::BigInt(s) | Tree::BigFloat(s) => {
            lemma_number_stands(s, flow);
        },
        Tree::Float(s) => {
            if decimal_number(s) is Some {
                lemma_number_chars(s);
                reveal_strlit("NaN");
                reveal_strlit("inf");
                reveal_strlit("-inf");
                assert("NaN"@[0] == 'N' && "inf"@[0] == 'i' && "-inf"@[1] == 'i');
                law_float_token_is_the_number(s);
                lemma_number_stands(float_token(s), flow);
            } else {
                lemma_infinite_stands(s, flow);
            }
        },
        Tree::String(s) => match style {
            ScalarStyle::SingleQuoted => {
                lemma_single_is_read(s, flow);
            },
            ScalarStyle::Plain => {
                lemma_double_is_read(s, flow);
                if string_in_style(s, style, context) == s && !needs_quoting(s) && !(flow && (
                s.contains(',') || s.contains(']') || s.contains('}'))) {
                    lemma_plain_is_read(s, flow);
                }
            },
            _ => {
                lemma_double_is_read(s, flow);
            },
        },
    }
}

/// A text without the spaces that it starts with.
pub open spec fn without_spaces(s: Seq<char>) -> Seq<char>
    decreases s.len(),
{
    if s.len() > 0 && s[0] == ' ' {
        without_spaces(s.subrange(1, s.len() as int))
    } else {
        s
    }
}

/// Whether bytes in the place of a scalar read as a value.
pub open spec fn bytes_read_as(bytes: Seq<u8>, flow: bool, t: Tree) -> bool {
    valid_utf8(bytes) && is_read_as(read_scalar(without_spaces(decode_utf8(bytes)), flow), t)
}

/// What the renderer puts in the place of a scalar reads as the value that it was
/// given.
pub proof fn law_rendered_bytes_are_read_as_the_value(
    t: Tree,
    context: SpanContext,
    original: Seq<u8>,
)
    requires
        can_be_read(t, style_of(original)),
    ensures
        bytes_read_as(
            YamlScalarRenderer.replacement(t, context, original),
            context == SpanContext::FlowMapValue || context == SpanContext::FlowSeqItem,
            t,
        ),
{
    reveal_strlit(" ");
    let style = style_of(original);
    let text = yaml_replacement(t, style, context);
    let whole = kept_apart(original) + text;
    law_replacement_is_read_as_the_value(t, style, context);
    encode_utf8_valid_utf8(whole);
    encode_utf8_decode_utf8(whole);
    assert(text.len() > 0 && text[0] != ' ');
    assert(without_spaces(text) == text);
    if original.len() == 0 || original[0] == 32 {
        assert(whole[0] == ' ');
        assert(whole.subrange(1, whole.len() as int) =~= text);
    } else {
        assert(whole =~= text);
    }
}

/// After a value was set in a YAML document, the bytes at its place read as that
/// value.
pub proof fn law_source_says_what_was_set(m: DocModel, p: Seq<Seg>, v: Tree)
    requires
        m.format == FormatTag::Yaml,
        can_set(m, p, v),
        set_model(m, p, v).1 is Ok,
        ({
            let range = m.span(p)->Some_0.value_range;
            can_be_read(v, style_of(m.bytes.subrange(range.start as int, range.end as int)))
        }),
    ensures
        ({
            let after = set_model(m, p, v).0;
            let span = after.span(p)->Some_0;
            let context = m.span(p)->Some_0.context;
            &&& after.span(p) is Some
            &&& range_fits(span.value_range, after.bytes.len())
            &&& bytes_read_as(
                after.bytes.subrange(span.value_range.start as int, span.value_range.end as int),
                context == SpanContext::FlowMapValue || context == SpanContext::FlowSeqItem,
                v,
            )
        }),
{
    let span = m.span(p)->Some_0;
    let original = m.bytes.subrange(span.value_range.start as int, span.value_range.end as int);
    law_set_span_covers_new_bytes(m, p, v);
    law_rendered_bytes_are_read_as_the_value(v, span.context, original);
}

// ---------------------------------------------------------------------------
// New members
// ---------------------------------------------------------------------------

/// Whether a text starts with the line of an item.
pub open spec fn is_item_line(
    text: Seq<char>,
    pad: Seq<char>,
    value: Seq<char>,
    rest: Seq<char>,
) -> bool {
    text == pad + "- "@ + value + "\n"@ + rest
}

/// Whether a text starts with the line of a key and its value.
pub open spec fn is_member_line(
    text: Seq<char>,
    pad: Seq<char>,
    key: Seq<char>,
    value: Seq<char>,
    rest: Seq<char>,
) -> bool {
    text == pad + key + ": "@ + value + "\n"@ + rest
}

/// Whether a text is lines with an item each, behind `pad` and a dash, from item
/// `i` on.
pub open spec fn reads_items(text: Seq<char>, items: Seq<Tree>, i: int, pad: Seq<char>) -> bool
    decreases items.len() - i,
{
    if !(0 <= i < items.len()) {
        text.len() == 0
    } else {
        exists|value: Seq<char>, rest: Seq<char>|
            {
                &&& #[trigger] is_item_line(text, pad, value, rest)
                &&& is_read_as(read_scalar(value, false), items[i])
                &&& reads_items(rest, items, i + 1, pad)
            }
    }
}

/// Whether a text is lines with a key and its value each, behind `pad`, from
/// entry `i` on.
pub open spec fn reads_members(
    text: Seq<char>,
    entries: Seq<(Seq<char>, Tree)>,
    i: int,
    pad: Seq<char>,
) -> bool
    decreases entries.len() - i,
{
    if !(0 <= i < entries.len()) {
        text.len() == 0
    } else {
        exists|key: Seq<char>, value: Seq<char>, rest: Seq<char>|
            {
                &&& #[trigger] is_member_line(text, pad, key, value, rest)
                &&& read_scalar(key, false) == Some(Tree::String(entries[i].0))
                &&& is_read_as(read_scalar(value, false), entries[i].1)
                &&& reads_members(rest, entries, i + 1, pad)
            }
    }
}

/// Whether a value is a scalar whose numbers are numbers.
pub open spec fn is_plain_scalar(t: Tree) -> bool {
    !(t is Array) && !(t is Object) && can_be_read(t, ScalarStyle::Plain)
}

/// Whether a text is a new member: a line of its own with the key, and behind it
/// the value, or on lines of their own what the value holds.
pub open spec fn reads_member(text: Seq<char>, key: Seq<char>, t: Tree, pad: Seq<char>) -> bool {
    exists|name: Seq<char>, rest: Seq<char>|
        {
            &&& text == "\n"@ + pad + name + ":"@ + rest
            &&& #[trigger] read_scalar(name, false) == Some(Tree::String(key))
            &&& #[trigger] reads_held(rest, t, pad)
        }
}

/// Whether a text behind a colon is a value.
pub open spec fn reads_held(text: Seq<char>, t: Tree, pad: Seq<char>) -> bool {
    match t {
        Tree::Array(items) => if items.len() == 0 {
            text == " []\n"@
        } else {
            exists|lines: Seq<char>|
                text == "\n"@ + lines && #[trigger] reads_items(lines, items, 0, pad + "  "@)
        },
        Tree::Object(entries) => if entries.len() == 0 {
            text == " {}\n"@
        } else {
            exists|lines: Seq<char>|
                text == "\n"@ + lines && #[trigger] reads_members(lines, entries, 0, pad + "  "@)
        },
        _ => exists|value: Seq<char>|
            text == " "@ + value + "\n"@ && is_read_as(#[trigger] read_scalar(value, false), t),
    }
}

/// Whether a value is a scalar, or holds nothing but scalars.
pub open spec fn is_shallow(t: Tree) -> bool {
    match t {
        Tree::Array(items) => forall|i: int|
            0 <= i < items.len() ==> is_plain_scalar(#[trigger] items[i]),
        Tree::Object(entries) => forall|i: int|
            0 <= i < entries.len() ==> is_plain_scalar((#[trigger] entries[i]).1),
        _ => is_plain_scalar(t),
    }
}

proof fn lemma_key_is_read(key: Seq<char>)
    ensures
        read_scalar(key_token(key), false) == Some(Tree::String(key)),
{
    lemma_double_is_read(key, false);
    if !needs_quoting(key) {
        lemma_plain_is_read(key, false);
    }
}

proof fn lemma_inline_is_read(t: Tree)
    requires
        is_plain_scalar(t),
    ensures
        is_read_as(read_scalar(inline_scalar(t), false), t),
{
    law_replacement_is_read_as_the_value(t, ScalarStyle::Plain, SpanContext::BlockMapValue);
}

/// The lines of the items from `i` to `k`.
spec fn item_lines(items: Seq<Tree>, i: int, k: int, pad: Seq<char>) -> Seq<char>
    decreases k - i,
{
    if i >= k {
        Seq::empty()
    } else {
        pad + "- "@ + inline_scalar(items[i]) + "\n"@ + item_lines(items, i + 1, k, pad)
    }
}

proof fn lemma_item_lines_grow(items: Seq<Tree>, i: int, k: int, pad: Seq<char>)
    requires
        0 <= i <= k,
    ensures
        item_lines(items, i, k + 1, pad) == item_lines(items, i, k, pad) + pad + "- "@
            + inline_scalar(items[k]) + "\n"@,
    decreases k - i,
{
    if i < k {
        lemma_item_lines_grow(items, i + 1, k, pad);
    } else {
        assert(item_lines(items, i + 1, k + 1, pad) =~= Seq::<char>::empty());
    }
    assert(item_lines(items, i, k + 1, pad) =~= item_lines(items, i, k, pad) + pad + "- "@
        + inline_scalar(items[k]) + "\n"@);
}

proof fn lemma_items_are_lines(items: Seq<Tree>, k: int, pad: Seq<char>)
    requires
        0 <= k,
    ensures
        block_items(items, k, pad) == item_lines(items, 0, k, pad),
    decreases k,
{
    reveal_strlit("- ");
    reveal_strlit("\n");
    if k > 0 {
        lemma_items_are_lines(items, k - 1, pad);
        lemma_item_lines_grow(items, 0, k - 1, pad);
        assert(seq!['-', ' '] =~= "- "@);
        assert(seq!['\n'] =~= "\n"@);
    }
}

proof fn lemma_items_are_read(items: Seq<Tree>, i: int, pad: Seq<char>)
    requires
        0 <= i <= items.len(),
        forall|k: int| 0 <= k < items.len() ==> is_plain_scalar(#[trigger] items[k]),
    ensures
        reads_items(item_lines(items, i, items.len() as int, pad), items, i, pad),
    decreases items.len() - i,
{
    if i < items.len() {
        lemma_items_are_read(items, i + 1, pad);
        lemma_inline_is_read(items[i]);
        let value = inline_scalar(items[i]);
        let rest = item_lines(items, i + 1, items.len() as int, pad);
        assert(is_item_line(item_lines(items, i, items.len() as int, pad), pad, value, rest));
        assert(is_read_as(read_scalar(value, false), items[i]));
        assert(reads_items(rest, items, i + 1, pad));
    }
}

/// The lines of the entries from `i` to `k`.
spec fn member_lines(entries: Seq<(Seq<char>, Tree)>, i: int, k: int, pad: Seq<char>) -> Seq<char>
    decreases k - i,
{
    if i >= k {
        Seq::empty()
    } else {
        pad + key_token(entries[i].0) + ": "@ + inline_scalar(entries[i].1) + "\n"@ + member_lines(
            entries,
            i + 1,
            k,
            pad,
        )
    }
}

proof fn lemma_member_lines_grow(entries: Seq<(Seq<char>, Tree)>, i: int, k: int, pad: Seq<char>)
    requires
        0 <= i <= k,
    ensures
        member_lines(entries, i, k + 1, pad) == member_lines(entries, i, k, pad) + pad + key_token(
            entries[k].0,
        ) + ": "@ + inline_scalar(entries[k].1) + "\n"@,
    decreases k - i,
{
    if i < k {
        lemma_member_lines_grow(entries, i + 1, k, pad);
    } else {
        assert(member_lines(entries, i + 1, k + 1, pad) =~= Seq::<char>::empty());
    }
    assert(member_lines(entries, i, k + 1, pad) =~= member_lines(entries, i, k, pad) + pad
        + key_token(entries[k].0) + ": "@ + inline_scalar(entries[k].1) + "\n"@);
}

proof fn lemma_members_are_lines(entries: Seq<(Seq<char>, Tree)>, k: int, pad: Seq<char>)
    requires
        0 <= k,
    ensures
        block_members(entries, k, pad) == member_lines(entries, 0, k, pad),
    decreases k,
{
    reveal_strlit(": ");
    reveal_strlit("\n");
    if k > 0 {
        lemma_members_are_lines(entries, k - 1, pad);
        lemma_member_lines_grow(entries, 0, k - 1, pad);
        assert(seq![':', ' '] =~= ": "@);
        assert(seq!['\n'] =~= "\n"@);
    }
}

proof fn lemma_members_are_read(entries: Seq<(Seq<char>, Tree)>, i: int, pad: Seq<char>)
    requires
        0 <= i <= entries.len(),
        forall|k: int| 0 <= k < entries.len() ==> is_plain_scalar((#[trigger] entries[k]).1),
    ensures
        reads_members(member_lines(entries, i, entries.len() as int, pad), entries, i, pad),
    decreases entries.len() - i,
{
    if i < entries.len() {
        lemma_members_are_read(entries, i + 1, pad);
        lemma_inline_is_read(entries[i].1);
        lemma_key_is_read(entries[i].0);
        let key = key_token(entries[i].0);
        let value = inline_scalar(entries[i].1);
        let rest = member_lines(entries, i + 1, entries.len() as int, pad);
        assert(is_member_line(
            member_lines(entries, i, entries.len() as int, pad),
            pad,
            key,
            value,
            rest,
        ));
        assert(read_scalar(key, false) == Some(Tree::String(entries[i].0)));
        assert(is_read_as(read_scalar(value, false), entries[i].1));
        assert(reads_members(rest, entries, i + 1, pad));
    }
}

/// The text of a new member reads as the key with the value, behind as many
/// spaces as its siblings have.
pub proof fn law_new_member_is_read(
    key: Seq<char>,
    t: Tree,
    parent_indent: u32,
    context: SpanContext,
)
    requires
        is_shallow(t),
    ensures
        ({
            let bytes = YamlInsertionRenderer.insertion(key, t, parent_indent, context);
            let column: nat = if parent_indent > 0 {
                (parent_indent - 1) as nat
            } else {
                0
            };
            let pad = Seq::new(column, |i: int| ' ');
            valid_utf8(bytes) && reads_member(decode_utf8(bytes), key, t, pad)
        }),
{
    reveal_strlit("\n");
    reveal_strlit(":");
    reveal_strlit(" ");
    reveal_strlit("  ");
    let column: nat = if parent_indent > 0 {
        (parent_indent - 1) as nat
    } else {
        0
    };
    let pad = Seq::new(column, |i: int| ' ');
    let text = yaml_insertion(key, t, parent_indent);
    encode_utf8_valid_utf8(text);
    encode_utf8_decode_utf8(text);
    assert(spaces(column) =~= pad);
    assert(pad + spaces(2) =~= pad + "  "@);
    assert(seq!['\n'] =~= "\n"@ && seq![':'] =~= ":"@ && seq![' '] =~= " "@);
    let name = key_token(key);
    let head = "\n"@ + pad + name + ":"@;
    let rest = text.subrange(head.len() as int, text.len() as int);
    lemma_key_is_read(key);
    match t {
        Tree::Array(items) => {
            if items.len() > 0 {
                let lines = block_items(items, items.len() as int, pad + "  "@);
                lemma_items_are_lines(items, items.len() as int, pad + "  "@);
                lemma_items_are_read(items, 0, pad + "  "@);
                assert(text =~= head + ("\n"@ + lines));
                assert(rest =~= "\n"@ + lines);
            } else {
                assert(rest =~= " []\n"@);
            }
        },
        Tree::Object(entries) => {
            if entries.len() > 0 {
                let lines = block_members(entries, entries.len() as int, pad + "  "@);
                lemma_members_are_lines(entries, entries.len() as int, pad + "  "@);
                lemma_members_are_read(entries, 0, pad + "  "@);
                assert(text =~= head + ("\n"@ + lines));
                assert(rest =~= "\n"@ + lines);
            } else {
                assert(rest =~= " {}\n"@);
            }
        },
        _ => {
            let value = inline_scalar(t);
            lemma_inline_is_read(t);
            assert(rest =~= " "@ + value + "\n"@);
        },
    }
    assert(text =~= head + rest);
    assert(reads_held(rest, t, pad));
    assert(read_scalar(name, false) == Some(Tree::String(key)));
}

// ---------------------------------------------------------------------------
// Style
// ---------------------------------------------------------------------------

/// Whether a byte is the first of some that is not white space.
pub open spec fn is_first_visible(bytes: Seq<u8>, i: int) -> bool {
    &&& 0 <= i < bytes.len() && !is_space_byte(bytes[i])
    &&& forall|j: int| 0 <= j < i ==> is_space_byte(#[trigger] bytes[j])
}

/// Whether a byte is a space, a tab, or the end of a line or a page.
pub open spec fn is_space_byte(b: u8) -> bool {
    b == 0x20 || b == 0x09 || b == 0x0a || b == 0x0c || b == 0x0d
}

proof fn lemma_first_visible(bytes: Seq<u8>, i: int)
    requires
        is_first_visible(bytes, i),
    ensures
        first_visible(bytes) == Some(bytes[i]),
    decreases i,
{
    if i > 0 {
        let rest = bytes.subrange(1, bytes.len() as int);
        assert(is_space_byte(bytes[0]));
        assert forall|j: int| 0 <= j < i - 1 implies is_space_byte(#[trigger] rest[j]) by {
            assert(rest[j] == bytes[j + 1]);
        }
        lemma_first_visible(rest, i - 1);
    }
}

/// A text that takes the place of one in quotes stands in the same quotes.
pub proof fn law_quotes_are_kept(
    text: Seq<char>,
    context: SpanContext,
    original: Seq<u8>,
    i: int,
)
    requires
        is_first_visible(original, i),
        original[i] == 0x22 || original[i] == 0x27,
    ensures
        ({
            let bytes = YamlScalarRenderer.replacement(Tree::String(text), context, original);
            let shown = without_spaces(decode_utf8(bytes));
            &&& valid_utf8(bytes)
            &&& shown.len() >= 2
            &&& shown[0] == (if original[i] == 0x22 {
                '"'
            } else {
                '\''
            })
            &&& shown.last() == shown[0]
        }),
{
    lemma_first_visible(original, i);
    reveal_strlit(" ");
    let t = Tree::String(text);
    let style = style_of(original);
    let w = yaml_replacement(t, style, context);
    let whole = kept_apart(original) + w;
    encode_utf8_valid_utf8(whole);
    encode_utf8_decode_utf8(whole);
    assert(w[0] == '"' || w[0] == '\'');
    assert(without_spaces(w) == w);
    if original.len() == 0 || original[0] == 32 {
        assert(whole[0] == ' ');
        assert(whole.subrange(1, whole.len() as int) =~= w);
    } else {
        assert(whole =~= w);
    }
}

/// Whether a text is a word of letters that stands for nothing else.
pub open spec fn is_mere_word(s: Seq<char>) -> bool {
    &&& s.len() > 0
    &&& forall|i: int|
        0 <= i < s.len() ==> 'a' <= (#[trigger] s[i]) <= 'z' || 'A' <= s[i] <= 'Z'
    &&& !is_null_word(s) && !is_true_word(s) && !is_false_word(s)
    &&& lowered(s) != "inf"@ && lowered(s) != "infinity"@ && lowered(s) != "nan"@
}

/// A word that stands for nothing else stays without quotes where the scalar that
/// it replaces had none, and so does a key.
pub proof fn law_mere_words_stay_plain(s: Seq<char>, context: SpanContext)
    requires
        is_mere_word(s),
    ensures
        yaml_replacement(Tree::String(s), ScalarStyle::Plain, context) == s,
        key_token(s) == s,
{
    reveal_strlit(".inf");
    reveal_strlit(".nan");
    assert forall|i: int| 0 <= i < s.len() implies !is_control(#[trigger] s[i]) by {}
    assert(s[0] != ' ' && s[s.len() - 1] != ' ');
    assert forall|i: int| 0 <= i < s.len() implies !#[trigger] crate::parsers::yaml_render::unsafe_at(
        s,
        i,
    ) by {}
    assert(!is_digit(s[0]) && s[0] != '+' && s[0] != '-' && s[0] != '.');
    assert(parsed_int(s) is None);
    assert(crate::numbers::digits_end(s, 0) == 0);
    assert(!crate::numbers::is_float_number(s));
    assert(lowered(s)[0] == crate::text::ascii_lower(s[0]));
    assert(!crate::parsers::yaml_render::is_other_number(s));
    assert(!needs_quoting(s));
    assert(!s.contains(',') && !s.contains(']') && !s.contains('}')) by {
        if s.contains(',') {
            let i = choose|i: int| 0 <= i < s.len() && s[i] == ',';
            assert(s[i] == ',');
        }
        if s.contains(']') {
            let i = choose|i: int| 0 <= i < s.len() && s[i] == ']';
            assert(s[i] == ']');
        }
        if s.contains('}') {
            let i = choose|i: int| 0 <= i < s.len() && s[i] == '}';
            assert(s[i] == '}');
        }
    }
}

/// Where nothing stood behind the colon or the dash, or only a value behind a
/// space, a space keeps the new value apart; elsewhere nothing is put before it.
pub proof fn law_value_is_kept_apart(t: Tree, context: SpanContext, original: Seq<u8>)
    requires
        can_be_read(t, style_of(original)),
    ensures
        ({
            let text = decode_utf8(YamlScalarRenderer.replacement(t, context, original));
            &&& text.len() > 0
            &&& text[0] == ' ' <==> original.len() == 0 || original[0] == 32
        }),
{
    reveal_strlit(" ");
    let style = style_of(original);
    let w = yaml_replacement(t, style, context);
    let whole = kept_apart(original) + w;
    law_replacement_is_read_as_the_value(t, style, context);
    encode_utf8_decode_utf8(whole);
    assert(w.len() > 0 && w[0] != ' ');
    if original.len() == 0 || original[0] == 32 {
        assert(whole[0] == ' ');
    } else {
        assert(whole =~= w);
    }
}

} // verus!
