//! What number a decimal text stands for.

use crate::decimal_text::{decimal_number, scaled, trim_zeros, DecimalModel};
use crate::number_laws::lemma_digits_end_at;
use crate::numbers::{all_digits, digits_value, is_digit, is_exponent, is_float_number, parsed_int};
use crate::pointer_laws::{lemma_zero_in_front, ten_to};
use crate::text::trim_end_of;
use vstd::prelude::*;

verus! {

proof fn lemma_trimmed_end(s: Seq<char>)
    requires
        all_digits(s),
    ensures
        ({
            let kept = trim_end_of(s, '0');
            &&& kept.len() <= s.len()
            &&& all_digits(kept)
            &&& kept.len() > 0 ==> kept.last() != '0' && kept[0] == s[0]
            &&& digits_value(kept) * ten_to((s.len() - kept.len()) as nat) == digits_value(s)
        }),
    decreases s.len(),
{
    let kept = trim_end_of(s, '0');
    if s.len() > 0 && s.last() == '0' {
        let front = s.drop_last();
        assert forall|i: int| 0 <= i < front.len() implies is_digit(#[trigger] front[i]) by {
            assert(is_digit(s[i]));
        }
        lemma_trimmed_end(front);
        let n = (front.len() - kept.len()) as nat;
        let v = digits_value(kept);
        let p = ten_to(n);
        assert(ten_to(n + 1) == 10 * p);
        assert((s.len() - kept.len()) as nat == n + 1);
        assert(trim_end_of(front, '0') == kept);
        assert(v * (10 * p) == (v * p) * 10) by (nonlinear_arith);
        assert(digits_value(s) == digits_value(front) * 10);
        assert(v * ten_to(n + 1) == digits_value(s));
    } else {
        assert(kept == s);
        assert(ten_to(0) == 1);
        assert(digits_value(s) * 1 == digits_value(s));
        assert((s.len() - kept.len()) as nat == 0);
    }
}

proof fn lemma_trimmed_front(s: Seq<char>)
    requires
        all_digits(s),
    ensures
        ({
            let kept = trim_zeros(s);
            &&& digits_value(kept) == digits_value(s)
            &&& kept.len() > 0 ==> kept[0] != '0' && kept.last() == s.last()
            &&& kept.len() > 0 ==> digits_value(kept) > 0
        }),
    decreases s.len(),
{
    if s.len() > 0 && s[0] == '0' {
        let rest = s.subrange(1, s.len() as int);
        assert forall|i: int| 0 <= i < rest.len() implies is_digit(#[trigger] rest[i]) by {
            assert(is_digit(s[i + 1]));
        }
        lemma_trimmed_front(rest);
        lemma_zero_in_front(rest);
        assert(seq!['0'] + rest =~= s);
    } else if s.len() > 0 {
        lemma_more_than_zero(s);
    }
}

proof fn lemma_more_than_zero(s: Seq<char>)
    requires
        all_digits(s),
        s.len() > 0,
        s[0] != '0',
    ensures
        digits_value(s) > 0,
    decreases s.len(),
{
    let front = s.drop_last();
    assert(is_digit(s[0]) && is_digit(s[s.len() - 1]));
    if s.len() > 1 {
        assert forall|i: int| 0 <= i < front.len() implies is_digit(#[trigger] front[i]) by {
            assert(is_digit(s[i]));
        }
        assert(front[0] == s[0]);
        lemma_more_than_zero(front);
    }
}

/// Whether a number is digits times a power of ten: zero has no digits, and any
/// other number has none that is zero on either end.
pub open spec fn is_digits_times(m: DecimalModel, digits: Seq<char>, power: int) -> bool {
    if digits_value(digits) == 0 {
        m.digits.len() == 0 && m.scale == 0
    } else {
        &&& m.digits.len() > 0 && m.digits[0] != '0' && m.digits.last() != '0'
        &&& m.scale >= power
        &&& digits_value(m.digits) * ten_to((m.scale - power) as nat) == digits_value(digits)
    }
}

proof fn lemma_scaled(negative: bool, digits: Seq<char>, fraction: int, x: i64)
    requires
        all_digits(digits),
    ensures
        scaled(negative, digits, fraction, Some(x)) matches Some(m) && m.negative == negative
            && is_digits_times(m, digits, x - fraction),
{
    let kept = trim_end_of(digits, '0');
    let significant = trim_zeros(kept);
    lemma_trimmed_end(digits);
    lemma_trimmed_front(kept);
    let n = (digits.len() - kept.len()) as nat;
    let v = digits_value(kept);
    let p = ten_to(n);
    lemma_ten_is_more(n);
    if significant.len() == 0 {
        assert(v == 0);
        assert(v * p == 0) by (nonlinear_arith)
            requires
                v == 0,
        ;
    } else {
        assert(v * p > 0) by (nonlinear_arith)
            requires
                v > 0,
                p > 0,
        ;
    }
}

proof fn lemma_ten_is_more(n: nat)
    ensures
        ten_to(n) > 0,
    decreases n,
{
    if n > 0 {
        lemma_ten_is_more((n - 1) as nat);
    }
}

/// A number with digits before and behind a point and an exponent is all its
/// digits times ten to the exponent, less one for each digit behind the point. A
/// minus makes it negative.
pub proof fn law_decimal_text_is_its_digits(w: Seq<char>, f: Seq<char>, ex: Seq<char>, x: i64)
    requires
        w.len() > 0,
        all_digits(w),
        all_digits(f),
        parsed_int(ex) == Some(x),
    ensures
        ({
            let text = w + seq!['.'] + f + seq!['e'] + ex;
            &&& decimal_number(text) matches Some(m) && !m.negative && is_digits_times(
                m,
                w + f,
                x - f.len(),
            )
            &&& decimal_number(seq!['-'] + text) matches Some(m) && m.negative && is_digits_times(
                m,
                w + f,
                x - f.len(),
            )
        }),
{
    let text = w + seq!['.'] + f + seq!['e'] + ex;
    let n = w.len() as int;
    let end = n + 1 + f.len();
    assert(text[n] == '.' && text[end] == 'e');
    assert forall|i: int| 0 <= i < n implies is_digit(#[trigger] text[i]) by {
        assert(text[i] == w[i]);
    }
    assert forall|i: int| n + 1 <= i < end implies is_digit(#[trigger] text[i]) by {
        assert(text[i] == f[i - n - 1]);
    }
    lemma_digits_end_at(text, 0, n);
    lemma_digits_end_at(text, n + 1, end);
    let tail = text.subrange(end, text.len() as int);
    assert(tail =~= seq!['e'] + ex);
    assert(text.subrange(end + 1, text.len() as int) =~= ex);
    lemma_exponent(ex);
    assert(is_float_number(text));
    assert(text.subrange(0, n) + text.subrange(n + 1, end) =~= w + f);
    assert(all_digits(w + f));
    lemma_scaled(false, w + f, f.len() as int, x);
    lemma_scaled(true, w + f, f.len() as int, x);
    assert(is_digit(w[0]) && text[0] == w[0]);
    let minus = seq!['-'] + text;
    assert(minus.subrange(1, minus.len() as int) =~= text);
}

/// A number without an exponent is its digits, less one power of ten for each digit
/// behind the point.
pub proof fn law_plain_decimal_text_is_its_digits(w: Seq<char>, f: Seq<char>)
    requires
        w.len() > 0,
        all_digits(w),
        all_digits(f),
    ensures
        decimal_number(w) matches Some(m) && !m.negative && is_digits_times(m, w, 0),
        decimal_number(w + seq!['.'] + f) matches Some(m) && !m.negative && is_digits_times(
            m,
            w + f,
            -f.len(),
        ),
{
    let text = w + seq!['.'] + f;
    let n = w.len() as int;
    assert(text[n] == '.');
    assert forall|i: int| 0 <= i < n implies is_digit(#[trigger] text[i]) by {
        assert(text[i] == w[i]);
    }
    assert forall|i: int| n + 1 <= i < text.len() implies is_digit(#[trigger] text[i]) by {
        assert(text[i] == f[i - n - 1]);
    }
    lemma_digits_end_at(w, 0, n);
    lemma_digits_end_at(text, 0, n);
    lemma_digits_end_at(text, n + 1, text.len() as int);
    assert(is_float_number(text) && is_float_number(w));
    assert(w.subrange(0, n) =~= w);
    assert(text.subrange(0, n) + text.subrange(n + 1, text.len() as int) =~= w + f);
    assert(all_digits(w + f));
    lemma_scaled(false, w, 0, 0);
    lemma_scaled(false, w + f, f.len() as int, 0);
    assert(is_digit(w[0]) && text[0] == w[0]);
}

proof fn lemma_exponent(ex: Seq<char>)
    requires
        parsed_int(ex) is Some,
    ensures
        is_exponent(seq!['e'] + ex),
{
    let s = seq!['e'] + ex;
    let signed = ex.len() > 0 && (ex[0] == '+' || ex[0] == '-');
    let body = if signed {
        ex.subrange(1, ex.len() as int)
    } else {
        ex
    };
    let from: int = if signed {
        2
    } else {
        1
    };
    assert(body.len() > 0 && all_digits(body));
    assert(s[1] == ex[0]);
    assert forall|i: int| from <= i < s.len() implies is_digit(#[trigger] s[i]) by {
        assert(s[i] == ex[i - 1]);
        if signed {
            assert(body[i - 2] == ex[i - 1]);
        }
    }
    lemma_digits_end_at(s, from, s.len() as int);
}

} // verus!
