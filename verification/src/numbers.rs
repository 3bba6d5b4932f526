//! Numbers written as text.

use crate::text::{copy_between, is_text, lower_chars, lowered, text_of};
use vstd::prelude::*;

verus! {

/// The character of a decimal digit.
pub open spec fn digit_char(d: nat) -> char {
    (48 + d) as char
}

/// `n` in decimal, without leading zeros.
pub open spec fn decimal(n: nat) -> Seq<char>
    decreases n,
{
    if n < 10 {
        seq![digit_char(n)]
    } else {
        decimal(n / 10).push(digit_char(n % 10))
    }
}

/// `n` in decimal, with a leading `-` where it is negative.
pub open spec fn signed_decimal(n: int) -> Seq<char> {
    if n < 0 {
        seq!['-'] + decimal((-n) as nat)
    } else {
        decimal(n as nat)
    }
}

/// Whether `c` is one of `0` to `9`.
pub open spec fn is_digit(c: char) -> bool {
    '0' <= c <= '9'
}

/// Whether every character of `s` is a decimal digit.
pub open spec fn all_digits(s: Seq<char>) -> bool {
    forall|i: int| 0 <= i < s.len() ==> is_digit(#[trigger] s[i])
}

/// The number that a sequence of decimal digits stands for.
pub open spec fn digits_value(s: Seq<char>) -> nat
    decreases s.len(),
{
    if s.len() == 0 {
        0
    } else {
        (digits_value(s.drop_last()) * 10 + (s.last() as nat - 48)) as nat
    }
}

/// The index that a text stands for: an optional `+`, then one digit or more,
/// with a value that a `usize` holds.
pub open spec fn parsed_index(s: Seq<char>) -> Option<usize> {
    let body = if s.len() > 0 && s[0] == '+' {
        s.subrange(1, s.len() as int)
    } else {
        s
    };
    if body.len() > 0 && all_digits(body) && digits_value(body) <= usize::MAX {
        Some(digits_value(body) as usize)
    } else {
        None
    }
}

/// A text is an `i64` when it is an optional sign and one digit or more whose
/// signed value an `i64` holds.
pub open spec fn parsed_int(s: Seq<char>) -> Option<i64> {
    let negative = s.len() > 0 && s[0] == '-';
    let body = if s.len() > 0 && (s[0] == '+' || s[0] == '-') {
        s.subrange(1, s.len() as int)
    } else {
        s
    };
    let magnitude = digits_value(body) as int;
    let n = if negative {
        -magnitude
    } else {
        magnitude
    };
    if body.len() > 0 && all_digits(body) && i64::MIN <= n <= i64::MAX {
        Some(n as i64)
    } else {
        None
    }
}

/// Appending a digit to a sequence multiplies by ten and adds.
pub proof fn lemma_digits_value_push(s: Seq<char>, c: char)
    ensures
        is_digit(c) ==> digits_value(s.push(c)) == digits_value(s) * 10 + (c as nat - 48),
{
    assert(s.push(c).drop_last() =~= s);
}

/// A longer sequence of digits never stands for less.
pub proof fn lemma_digits_value_grows(s: Seq<char>, k: int)
    requires
        0 <= k <= s.len(),
        all_digits(s),
    ensures
        digits_value(s.subrange(0, k)) <= digits_value(s),
    decreases s.len() - k,
{
    if k < s.len() {
        let longer = s.subrange(0, k + 1);
        assert(longer.drop_last() =~= s.subrange(0, k));
        assert(is_digit(s[k]));
        assert(longer.last() == s[k]);
        lemma_digits_value_grows(s, k + 1);
    } else {
        assert(s.subrange(0, k) =~= s);
    }
}

/// The digits of a decimal are digits and give the number back.
pub proof fn lemma_decimal_value(n: nat)
    ensures
        all_digits(decimal(n)),
        decimal(n).len() >= 1,
        digits_value(decimal(n)) == n,
    decreases n,
{
    if n < 10 {
        let s = seq![digit_char(n)];
        assert(s.drop_last() =~= Seq::<char>::empty());
        assert(digits_value(s.drop_last()) == 0);
        assert(s.last() as nat == 48 + n);
    } else {
        lemma_decimal_value(n / 10);
        lemma_digits_value_push(decimal(n / 10), digit_char(n % 10));
        assert(digit_char(n % 10) as nat == 48 + n % 10);
    }
}

/// Reading back what was written: an index in decimal parses to itself.
pub proof fn law_decimal_parses_back(n: usize)
    ensures
        parsed_index(decimal(n as nat)) == Some(n),
{
    lemma_decimal_value(n as nat);
    let s = decimal(n as nat);
    assert(is_digit(s[0]));
}

/// The character of `d`.
pub fn digit(d: u8) -> (r: char)
    requires
        d < 10,
    ensures
        r == digit_char(d as nat),
{
    (48 + d) as char
}

/// `n` in decimal.
pub fn unsigned_text(n: u64) -> (r: String)
    ensures
        r@ == decimal(n as nat),
{
    let mut digits: Vec<char> = Vec::new();
    let mut rest: u64 = n;
    // The digits come out last first: `decimal(n)` is `decimal(rest)` followed
    // by `digits` backwards.
    while rest >= 10
        invariant
            decimal(n as nat) == decimal(rest as nat) + digits@.reverse(),
        decreases rest,
    {
        let ghost before = digits@;
        digits.push(digit((rest % 10) as u8));
        assert(digits@.reverse() =~= seq![digit_char((rest % 10) as nat)] + before.reverse());
        assert(decimal(rest as nat) + before.reverse() =~= decimal((rest / 10) as nat) + (seq![
            digit_char((rest % 10) as nat),
        ] + before.reverse()));
        rest = rest / 10;
    }
    let ghost before = digits@;
    digits.push(digit(rest as u8));
    assert(digits@.reverse() =~= decimal(rest as nat) + before.reverse());
    let mut out: Vec<char> = Vec::new();
    let mut i: usize = digits.len();
    while i > 0
        invariant
            i <= digits@.len(),
            out@ == digits@.reverse().subrange(0, digits@.len() - i),
        decreases i,
    {
        assert(digits@.reverse()[digits@.len() - i] == digits@[i - 1]);
        assert(digits@.reverse().subrange(0, digits@.len() - i + 1)
            =~= digits@.reverse().subrange(0, digits@.len() - i).push(digits@[i - 1]));
        out.push(digits[i - 1]);
        i -= 1;
    }
    assert(out@ =~= digits@.reverse());
    text_of(&out)
}

/// `n` in decimal.
pub fn index_text(n: usize) -> (r: String)
    ensures
        r@ == decimal(n as nat),
{
    unsigned_text(n as u64)
}

/// `n` in decimal, with its sign where it is negative.
pub fn signed_text(n: i64) -> (r: String)
    ensures
        r@ == signed_decimal(n as int),
{
    if n < 0 {
        let magnitude: u64 = if n == i64::MIN {
            0x8000_0000_0000_0000
        } else {
            (-n) as u64
        };
        let mut out: String = String::new();
        out.push('-');
        let digits: String = unsigned_text(magnitude);
        out.push_str(digits.as_str());
        assert(out@ =~= signed_decimal(n as int));
        out
    } else {
        unsigned_text(n as u64)
    }
}

/// Reads the digits of `s` from `from` on: their value where they are all
/// digits, at least one, and at most `limit` in value.
fn read_digits(s: &Vec<char>, from: usize, limit: u64) -> (r: Option<u64>)
    requires
        from <= s@.len(),
    ensures
        ({
            let body = s@.subrange(from as int, s@.len() as int);
            r == if body.len() > 0 && all_digits(body) && digits_value(body) <= limit {
                Some(digits_value(body) as u64)
            } else {
                None
            }
        }),
{
    let ghost body = s@.subrange(from as int, s@.len() as int);
    if from >= s.len() {
        return None;
    }
    let mut total: u64 = 0;
    let mut i: usize = from;
    assert(body.subrange(0, 0) =~= Seq::<char>::empty());
    while i < s.len()
        invariant
            from <= i <= s@.len(),
            body == s@.subrange(from as int, s@.len() as int),
            forall|k: int| 0 <= k < i - from ==> is_digit(#[trigger] body[k]),
            total == digits_value(body.subrange(0, i - from)),
            total <= limit,
        decreases s@.len() - i,
    {
        let c: char = s[i];
        assert(body[i - from] == c);
        if !('0' <= c && c <= '9') {
            return None;
        }
        let d: u64 = (c as u32 - 48) as u64;
        proof {
            assert(body.subrange(0, i - from + 1) =~= body.subrange(0, i - from).push(c));
            lemma_digits_value_push(body.subrange(0, i - from), c);
        }
        if total > (u64::MAX - d) / 10 || total * 10 + d > limit {
            proof {
                if all_digits(body) {
                    lemma_digits_value_grows(body, i - from + 1);
                }
            }
            return None;
        }
        total = total * 10 + d;
        i += 1;
    }
    assert(body.subrange(0, body.len() as int) =~= body);
    Some(total)
}

/// The index that `s` stands for, if any.
pub fn parse_index(s: &Vec<char>) -> (r: Option<usize>)
    ensures
        r == parsed_index(s@),
{
    let from: usize = if s.len() > 0 && s[0] == '+' {
        1
    } else {
        0
    };
    assert(s@.subrange(0, s@.len() as int) =~= s@);
    match read_digits(s, from, usize::MAX as u64) {
        Some(n) => Some(n as usize),
        None => None,
    }
}

/// The `i64` that `s` stands for, if any.
pub fn parse_int(s: &Vec<char>) -> (r: Option<i64>)
    ensures
        r == parsed_int(s@),
{
    let negative: bool = s.len() > 0 && s[0] == '-';
    let from: usize = if s.len() > 0 && (s[0] == '+' || s[0] == '-') {
        1
    } else {
        0
    };
    assert(s@.subrange(0, s@.len() as int) =~= s@);
    let limit: u64 = if negative {
        0x8000_0000_0000_0000
    } else {
        0x7fff_ffff_ffff_ffff
    };
    match read_digits(s, from, limit) {
        Some(n) => {
            if negative {
                if n == 0x8000_0000_0000_0000 {
                    Some(i64::MIN)
                } else {
                    Some(-(n as i64))
                }
            } else {
                Some(n as i64)
            }
        },
        None => None,
    }
}

// ---------------------------------------------------------------------------
// Floats, as texts
// ---------------------------------------------------------------------------

/// Where the run of digits that starts at `from` ends.
pub open spec fn digits_end(s: Seq<char>, from: int) -> int
    decreases s.len() - from,
{
    if 0 <= from < s.len() && is_digit(s[from]) {
        digits_end(s, from + 1)
    } else {
        from
    }
}

/// Whether `s` is `e` or `E`, an optional sign, and one digit or more.
pub open spec fn is_exponent(s: Seq<char>) -> bool {
    let from: int = if s.len() > 1 && (s[1] == '+' || s[1] == '-') {
        2
    } else {
        1
    };
    &&& s.len() > 0
    &&& s[0] == 'e' || s[0] == 'E'
    &&& from < s.len()
    &&& digits_end(s, from) == s.len()
}

/// Whether `s` is digits with at most one point among or around them, at least
/// one digit, and an optional exponent.
pub open spec fn is_float_number(s: Seq<char>) -> bool {
    let whole = digits_end(s, 0);
    let point = whole < s.len() && s[whole] == '.';
    let end = if point {
        digits_end(s, whole + 1)
    } else {
        whole
    };
    &&& whole > 0 || (point && end > whole + 1)
    &&& end == s.len() || is_exponent(s.subrange(end, s.len() as int))
}

/// Whether a text reads as a 64-bit float: an optional sign, then a number,
/// `inf`, `infinity` or `nan` in any case.
pub open spec fn is_float_text(s: Seq<char>) -> bool {
    let body = if s.len() > 0 && (s[0] == '+' || s[0] == '-') {
        s.subrange(1, s.len() as int)
    } else {
        s
    };
    ||| is_float_number(body)
    ||| lowered(body) == "inf"@
    ||| lowered(body) == "infinity"@
    ||| lowered(body) == "nan"@
}

/// `digits_end` does not go backwards or past the end.
pub proof fn lemma_digits_end(s: Seq<char>, from: int)
    requires
        0 <= from <= s.len(),
    ensures
        from <= digits_end(s, from) <= s.len(),
    decreases s.len() - from,
{
    if from < s.len() && is_digit(s[from]) {
        lemma_digits_end(s, from + 1);
    }
}

/// Finds the end of the run of digits that starts at `from`.
pub fn skip_digits(s: &Vec<char>, from: usize) -> (r: usize)
    requires
        from <= s@.len(),
    ensures
        r == digits_end(s@, from as int),
        from <= r <= s@.len(),
{
    let mut i: usize = from;
    while i < s.len() && '0' <= s[i] && s[i] <= '9'
        invariant
            from <= i <= s@.len(),
            digits_end(s@, i as int) == digits_end(s@, from as int),
        decreases s@.len() - i,
    {
        i += 1;
    }
    i
}

/// Whether `s` reads as a number with an optional fraction and exponent.
pub fn float_number(s: &Vec<char>) -> (r: bool)
    ensures
        r == is_float_number(s@),
{
    let whole: usize = skip_digits(s, 0);
    let point: bool = whole < s.len() && s[whole] == '.';
    let end: usize = if point {
        skip_digits(s, whole + 1)
    } else {
        whole
    };
    if !(whole > 0 || (point && end > whole + 1)) {
        return false;
    }
    if end == s.len() {
        return true;
    }
    let tail: Vec<char> = copy_between(s, end, s.len());
    if !(tail[0] == 'e' || tail[0] == 'E') {
        return false;
    }
    let from: usize = if tail.len() > 1 && (tail[1] == '+' || tail[1] == '-') {
        2
    } else {
        1
    };
    from < tail.len() && skip_digits(&tail, from) == tail.len()
}

/// Whether `s` reads as a 64-bit float.
pub fn float_text(s: &Vec<char>) -> (r: bool)
    ensures
        r == is_float_text(s@),
{
    let from: usize = if s.len() > 0 && (s[0] == '+' || s[0] == '-') {
        1
    } else {
        0
    };
    let body: Vec<char> = copy_between(s, from, s.len());
    assert(s@.subrange(0, s@.len() as int) =~= s@);
    let low: Vec<char> = lower_chars(&body);
    float_number(&body) || is_text(&low, "inf") || is_text(&low, "infinity") || is_text(
        &low,
        "nan",
    )
}

} // verus!
