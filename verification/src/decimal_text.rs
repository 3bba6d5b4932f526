//! Numbers as decimal texts, and when two of them are the same number.

use crate::numbers::{digits_end, float_number, is_float_number, parse_int, parsed_int, skip_digits};
use crate::text::{chars_of, copy_between, same_chars, trim_end_of, trim_end_of_chars};
use vstd::prelude::*;

verus! {

/// A number in decimal: its sign, its digits without a zero on either end, and
/// the power of ten that its last digit counts. Zero has no digits.
#[verifier::ext_equal]
pub struct DecimalModel {
    pub negative: bool,
    pub digits: Seq<char>,
    pub scale: int,
}

/// The number of a decimal text.
#[derive(Debug)]
pub struct Decimal {
    /// Whether a minus sign stands before it.
    pub negative: bool,
    /// The digits, without a zero on either end.
    pub digits: Vec<char>,
    /// The power of ten that the last digit counts.
    pub scale: i128,
}

impl View for Decimal {
    type V = DecimalModel;

    open spec fn view(&self) -> DecimalModel {
        DecimalModel { negative: self.negative, digits: self.digits@, scale: self.scale as int }
    }
}

/// Digits without the zeros that they start with.
pub open spec fn trim_zeros(s: Seq<char>) -> Seq<char>
    decreases s.len(),
{
    if s.len() > 0 && s[0] == '0' {
        trim_zeros(s.subrange(1, s.len() as int))
    } else {
        s
    }
}

/// A number whose digits, with their last `fraction` behind the point, are
/// multiplied by ten to the power of `exponent`.
pub open spec fn scaled(
    negative: bool,
    digits: Seq<char>,
    fraction: int,
    exponent: Option<i64>,
) -> Option<DecimalModel> {
    let kept = trim_end_of(digits, '0');
    let significant = trim_zeros(kept);
    if significant.len() == 0 {
        Some(DecimalModel { negative, digits: Seq::empty(), scale: 0 })
    } else {
        match exponent {
            Some(x) => Some(
                DecimalModel {
                    negative,
                    digits: significant,
                    scale: x - fraction + (digits.len() - kept.len()),
                },
            ),
            None => None,
        }
    }
}

/// The number that digits, with an optional point among them and an optional
/// exponent, stand for; none where the exponent is beyond 64 bits.
pub open spec fn unsigned_number(negative: bool, body: Seq<char>) -> Option<DecimalModel> {
    let whole = digits_end(body, 0);
    let point = whole < body.len() && body[whole] == '.';
    let end = if point {
        digits_end(body, whole + 1)
    } else {
        whole
    };
    if !is_float_number(body) {
        None
    } else {
        scaled(
            negative,
            if point {
                body.subrange(0, whole) + body.subrange(whole + 1, end)
            } else {
                body.subrange(0, whole)
            },
            if point {
                end - whole - 1
            } else {
                0
            },
            if end == body.len() {
                Some(0i64)
            } else {
                parsed_int(body.subrange(end + 1, body.len() as int))
            },
        )
    }
}

/// The number that a decimal text stands for.
pub open spec fn decimal_number(s: Seq<char>) -> Option<DecimalModel> {
    if s.len() > 0 && (s[0] == '+' || s[0] == '-') {
        unsigned_number(s[0] == '-', s.subrange(1, s.len() as int))
    } else {
        unsigned_number(false, s)
    }
}

/// Whether two texts stand for the same number, down to the last digit and the
/// sign of a zero.
pub open spec fn same_number(a: Seq<char>, b: Seq<char>) -> bool {
    decimal_number(a) is Some && decimal_number(a) == decimal_number(b)
}

fn drop_zeros(s: &Vec<char>) -> (r: Vec<char>)
    ensures
        r@ == trim_zeros(s@),
{
    let mut i: usize = 0;
    assert(s@.subrange(0, s@.len() as int) =~= s@);
    while i < s.len() && s[i] == '0'
        invariant
            i <= s@.len(),
            trim_zeros(s@.subrange(i as int, s@.len() as int)) == trim_zeros(s@),
        decreases s@.len() - i,
    {
        assert(s@.subrange(i as int, s@.len() as int).subrange(1, s@.len() - i) =~= s@.subrange(
            i + 1,
            s@.len() as int,
        ));
        i += 1;
    }
    copy_between(s, i, s.len())
}

proof fn lemma_trimmed_length(s: Seq<char>, c: char)
    ensures
        trim_end_of(s, c).len() <= s.len(),
    decreases s.len(),
{
    if s.len() > 0 && s.last() == c {
        lemma_trimmed_length(s.drop_last(), c);
    }
}

fn scale_digits(
    negative: bool,
    digits: &Vec<char>,
    fraction: usize,
    exponent: Option<i64>,
) -> (r: Option<Decimal>)
    requires
        fraction <= digits@.len(),
    ensures
        match r {
            Some(d) => scaled(negative, digits@, fraction as int, exponent) == Some(d@),
            None => scaled(negative, digits@, fraction as int, exponent) is None,
        },
{
    let kept: Vec<char> = trim_end_of_chars(digits, '0');
    let significant: Vec<char> = drop_zeros(&kept);
    proof {
        lemma_trimmed_length(digits@, '0');
    }
    if significant.len() == 0 {
        let none: Vec<char> = Vec::new();
        assert(none@ =~= Seq::<char>::empty());
        return Some(Decimal { negative, digits: none, scale: 0 });
    }
    match exponent {
        Some(x) => {
            let dropped: usize = digits.len() - kept.len();
            let scale: i128 = x as i128 - fraction as i128 + dropped as i128;
            Some(Decimal { negative, digits: significant, scale })
        },
        None => None,
    }
}

fn read_unsigned(negative: bool, body: &Vec<char>) -> (r: Option<Decimal>)
    ensures
        match r {
            Some(d) => unsigned_number(negative, body@) == Some(d@),
            None => unsigned_number(negative, body@) is None,
        },
{
    if !float_number(body) {
        return None;
    }
    let whole: usize = skip_digits(body, 0);
    let point: bool = whole < body.len() && body[whole] == '.';
    let end: usize = if point {
        skip_digits(body, whole + 1)
    } else {
        whole
    };
    let exponent: Option<i64> = if end == body.len() {
        Some(0)
    } else {
        parse_int(&copy_between(body, end + 1, body.len()))
    };
    let mut digits: Vec<char> = copy_between(body, 0, whole);
    let mut fraction: usize = 0;
    if point {
        let mut behind: Vec<char> = copy_between(body, whole + 1, end);
        fraction = behind.len();
        digits.append(&mut behind);
    }
    scale_digits(negative, &digits, fraction, exponent)
}

/// Reads the number that a decimal text stands for.
pub fn read_decimal(s: &Vec<char>) -> (r: Option<Decimal>)
    ensures
        match r {
            Some(d) => decimal_number(s@) == Some(d@),
            None => decimal_number(s@) is None,
        },
{
    if s.len() > 0 && (s[0] == '+' || s[0] == '-') {
        read_unsigned(s[0] == '-', &copy_between(s, 1, s.len()))
    } else {
        read_unsigned(false, s)
    }
}

/// Whether two texts stand for the same number.
pub fn is_same_number(a: &str, b: &str) -> (r: bool)
    ensures
        r == same_number(a@, b@),
{
    match (read_decimal(&chars_of(a)), read_decimal(&chars_of(b))) {
        (Some(x), Some(y)) => x.negative == y.negative && x.scale == y.scale && same_chars(
            &x.digits,
            &y.digits,
        ),
        _ => false,
    }
}

} // verus!
