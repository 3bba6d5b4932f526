//! Numbers written as text: what is written stands for the number.

use crate::decimal_text::{decimal_number, same_number, unsigned_number};
use crate::numbers::{
    all_digits, decimal, digits_end, is_digit, is_float_number, lemma_decimal_value,
    lemma_digits_end, parsed_int, signed_decimal,
};
use crate::parsers::json_write::float_token;
use crate::text::trim_end_of;
use vstd::prelude::*;

verus! {

/// Whether a text is that of a float rather than of an integer.
pub open spec fn has_point_or_exponent(s: Seq<char>) -> bool {
    exists|i: int| 0 <= i < s.len() && (#[trigger] s[i] == '.' || s[i] == 'e' || s[i] == 'E')
}

/// Whether a character can stand in a number.
pub open spec fn is_number_char(c: char) -> bool {
    '0' <= c <= '9' || c == '.' || c == '+' || c == '-' || c == 'e' || c == 'E'
}

proof fn lemma_digits_before_end(s: Seq<char>, from: int)
    requires
        0 <= from <= s.len(),
    ensures
        forall|i: int| from <= i < digits_end(s, from) ==> is_digit(#[trigger] s[i]),
    decreases s.len() - from,
{
    if from < s.len() && is_digit(s[from]) {
        lemma_digits_before_end(s, from + 1);
    }
}

pub proof fn lemma_digits_end_at(s: Seq<char>, from: int, to: int)
    requires
        0 <= from <= to <= s.len(),
        forall|i: int| from <= i < to ==> is_digit(#[trigger] s[i]),
        to == s.len() || !is_digit(s[to]),
    ensures
        digits_end(s, from) == to,
    decreases to - from,
{
    if from < to {
        lemma_digits_end_at(s, from + 1, to);
    }
}

proof fn lemma_float_number_chars(s: Seq<char>)
    requires
        is_float_number(s),
    ensures
        s.len() > 0,
        is_digit(s[0]) || s[0] == '.',
        forall|i: int| 0 <= i < s.len() ==> is_number_char(#[trigger] s[i]),
{
    let whole = digits_end(s, 0);
    lemma_digits_end(s, 0);
    lemma_digits_before_end(s, 0);
    let point = whole < s.len() && s[whole] == '.';
    let end = if point {
        digits_end(s, whole + 1)
    } else {
        whole
    };
    if point {
        lemma_digits_end(s, whole + 1);
        lemma_digits_before_end(s, whole + 1);
    }
    if end < s.len() {
        let tail = s.subrange(end, s.len() as int);
        let from: int = if tail.len() > 1 && (tail[1] == '+' || tail[1] == '-') {
            2
        } else {
            1
        };
        lemma_digits_before_end(tail, from);
        assert forall|i: int| end <= i < s.len() implies is_number_char(#[trigger] s[i]) by {
            assert(tail[i - end] == s[i]);
            if i - end >= from {
                assert(is_digit(tail[i - end]));
            }
        }
    }
    if whole > 0 {
        assert(is_digit(s[0]));
    }
}

/// A number is made of the characters of one, and starts with a sign, a digit or
/// a point.
pub proof fn lemma_number_chars(s: Seq<char>)
    requires
        decimal_number(s) is Some,
    ensures
        s.len() > 0,
        is_digit(s[0]) || s[0] == '.' || s[0] == '+' || s[0] == '-',
        s[0] == '+' || s[0] == '-' ==> s.len() > 1 && (is_digit(s[1]) || s[1] == '.'),
        forall|i: int| 0 <= i < s.len() ==> is_number_char(#[trigger] s[i]),
{
    if s.len() > 0 && (s[0] == '+' || s[0] == '-') {
        let body = s.subrange(1, s.len() as int);
        lemma_float_number_chars(body);
        assert(body[0] == s[1]);
        assert forall|i: int| 0 <= i < s.len() implies is_number_char(#[trigger] s[i]) by {
            if i > 0 {
                assert(body[i - 1] == s[i]);
            }
        }
    } else {
        lemma_float_number_chars(s);
    }
}

proof fn lemma_trim_pushed(s: Seq<char>, c: char)
    ensures
        trim_end_of(s.push(c), c) == trim_end_of(s, c),
{
    assert(s.push(c).drop_last() =~= s);
}

proof fn lemma_whole_digits(body: Seq<char>)
    requires
        is_float_number(body),
        !has_point_or_exponent(body),
    ensures
        body.len() > 0,
        all_digits(body),
        digits_end(body, 0) == body.len(),
{
    let whole = digits_end(body, 0);
    lemma_digits_end(body, 0);
    lemma_digits_before_end(body, 0);
    if whole < body.len() {
        assert(body[whole] != '.' && body[whole] != 'e' && body[whole] != 'E');
        assert(body.subrange(whole, body.len() as int)[0] == body[whole]);
    }
}

proof fn lemma_zero_fraction(negative: bool, body: Seq<char>)
    requires
        is_float_number(body),
        !has_point_or_exponent(body),
    ensures
        unsigned_number(negative, body + ".0"@) == unsigned_number(negative, body),
{
    reveal_strlit(".0");
    lemma_whole_digits(body);
    let t = body + ".0"@;
    let n = body.len() as int;
    assert(t[n] == '.' && t[n + 1] == '0');
    assert forall|i: int| 0 <= i < n implies is_digit(#[trigger] t[i]) by {
        assert(t[i] == body[i]);
    }
    lemma_digits_end_at(t, 0, n);
    lemma_digits_end_at(t, n + 1, n + 2);
    assert(t.subrange(0, n) + t.subrange(n + 1, n + 2) =~= body.push('0'));
    assert(body.subrange(0, n) =~= body);
    lemma_trim_pushed(body, '0');
}

/// The text that is written for a float stands for the same number, and is that
/// of a float: it has a point or an exponent.
pub proof fn law_float_token_is_the_number(s: Seq<char>)
    requires
        decimal_number(s) is Some,
    ensures
        same_number(float_token(s), s),
        has_point_or_exponent(float_token(s)),
{
    reveal_strlit(".0");
    let t = float_token(s);
    if s.contains('.') || s.contains('e') || s.contains('E') {
        let c = if s.contains('.') {
            '.'
        } else if s.contains('e') {
            'e'
        } else {
            'E'
        };
        let i = choose|i: int| 0 <= i < s.len() && s[i] == c;
        assert(s[i] == '.' || s[i] == 'e' || s[i] == 'E');
    } else {
        assert forall|i: int| 0 <= i < s.len() implies !(#[trigger] s[i] == '.' || s[i] == 'e'
            || s[i] == 'E') by {
            assert(s.contains(s[i]));
        }
        lemma_number_chars(s);
        let body = if s[0] == '+' || s[0] == '-' {
            s.subrange(1, s.len() as int)
        } else {
            s
        };
        assert(!has_point_or_exponent(body)) by {
            assert forall|i: int| 0 <= i < body.len() implies !(#[trigger] body[i] == '.' || body[i]
                == 'e' || body[i] == 'E') by {
                if s[0] == '+' || s[0] == '-' {
                    assert(body[i] == s[i + 1]);
                }
            }
        }
        lemma_zero_fraction(s[0] == '-', body);
        assert(t == s + ".0"@);
        assert(t[0] == s[0]);
        if s[0] == '+' || s[0] == '-' {
            assert(t.subrange(1, t.len() as int) =~= body + ".0"@);
        }
        assert(t[s.len() as int] == '.');
    }
}

/// The decimal text of an integer is read as that integer; it has neither a point
/// nor an exponent.
pub proof fn law_integer_text_is_the_number(n: int)
    requires
        i64::MIN <= n <= i64::MAX,
    ensures
        parsed_int(signed_decimal(n)) == Some(n as i64),
        decimal_number(signed_decimal(n)) is Some,
        !has_point_or_exponent(signed_decimal(n)),
{
    let s = signed_decimal(n);
    let body = if n < 0 {
        decimal((-n) as nat)
    } else {
        decimal(n as nat)
    };
    lemma_decimal_value(
        if n < 0 {
            (-n) as nat
        } else {
            n as nat
        },
    );
    assert(is_digit(body[0]));
    if n < 0 {
        assert(s.subrange(1, s.len() as int) =~= body);
    }
    lemma_digits_end_at(body, 0, body.len() as int);
    assert(body.subrange(0, body.len() as int) =~= body);
    assert forall|i: int| 0 <= i < s.len() implies !(#[trigger] s[i] == '.' || s[i] == 'e' || s[i]
        == 'E') by {
        if n < 0 {
            if i > 0 {
                assert(body[i - 1] == s[i]);
            }
        } else {
            assert(body[i] == s[i]);
        }
    }
}

} // verus!
