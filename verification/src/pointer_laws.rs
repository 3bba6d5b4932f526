//! How pointers, positions and texts are written and compared.

use crate::atomic_write::staging_dir_of;
use crate::error::Fault;
use crate::numbers::{all_digits, decimal, digits_value, is_digit, parsed_index, parsed_int};
use crate::pointer::{canonical, escaped, parsed_pointer, unescaped, Seg};
use crate::suggest::text_before;
use vstd::prelude::*;

verus! {

/// Joined keys are written joined, a slash is written as a tilde and a one, a
/// tilde as a tilde and a zero, and every other character as itself.
pub proof fn law_keys_are_escaped(a: Seq<char>, c: char, b: Seq<char>)
    ensures
        escaped(a + b) == escaped(a) + escaped(b),
        escaped(seq![c]) == (if c == '/' {
            seq!['~', '1']
        } else if c == '~' {
            seq!['~', '0']
        } else {
            seq![c]
        }),
    decreases a.len(),
{
    assert(seq![c].subrange(1, 1) =~= Seq::<char>::empty());
    assert(escaped(Seq::<char>::empty()) == Seq::<char>::empty());
    assert(escaped(seq![c]) =~= crate::pointer::escaped_char(c));
    if a.len() == 0 {
        assert(a + b =~= b);
    } else {
        let rest = a.subrange(1, a.len() as int);
        law_keys_are_escaped(rest, c, b);
        assert((a + b).subrange(1, (a + b).len() as int) =~= rest + b);
        assert(escaped(a + b) =~= escaped(a) + escaped(b));
    }
}

/// A tilde that neither a zero nor a one follows stands for nothing.
pub proof fn law_lone_tilde_is_refused(before: Seq<char>, after: Seq<char>)
    requires
        !before.contains('~'),
        after.len() > 0 ==> after[0] != '0' && after[0] != '1',
    ensures
        unescaped(before + seq!['~'] + after) is Err,
    decreases before.len(),
{
    let s = before + seq!['~'] + after;
    if before.len() == 0 {
        assert(s[0] == '~');
        if after.len() > 0 {
            assert(s[1] == after[0]);
        }
    } else {
        let rest = before.subrange(1, before.len() as int);
        assert(s[0] == before[0]);
        assert(before.contains(before[0]));
        assert forall|i: int| 0 <= i < rest.len() implies rest[i] != '~' by {
            assert(before.contains(before[i + 1]));
        }
        law_lone_tilde_is_refused(rest, after);
        assert(s.subrange(1, s.len() as int) =~= rest + seq!['~'] + after);
    }
}

/// The root is written as nothing. Below a node comes a slash, and then the key
/// or the digits of the position.
pub proof fn law_pointer_is_written_segment_by_segment(p: Seq<Seg>, key: Seq<char>, n: nat)
    ensures
        canonical(Seq::empty()) == Seq::<char>::empty(),
        canonical(p.push(Seg::Key(key))) == canonical(p) + seq!['/'] + escaped(key),
        canonical(p.push(Seg::Index(n))) == canonical(p) + seq!['/'] + decimal(n),
{
    assert(p.push(Seg::Key(key)).drop_last() =~= p);
    assert(p.push(Seg::Index(n)).drop_last() =~= p);
}

/// A text that is not empty and does not start with a slash is no pointer.
pub proof fn law_pointer_starts_with_a_slash(s: Seq<char>)
    requires
        s.len() > 0,
        s[0] != '/',
    ensures
        parsed_pointer(s) matches Err(Fault::Path { pointer, kind, .. }) && pointer == s && kind
            is TypeMismatch,
{
}

/// Decimal digits: another digit behind a number makes it ten times as large and
/// adds itself. A number below ten is one digit.
pub proof fn law_decimal_goes_on_by_tens(n: nat, d: nat)
    requires
        d < 10,
        n > 0,
    ensures
        decimal(d).len() == 1 && decimal(d)[0] as int == '0' as int + d,
        decimal(10 * n + d) == decimal(n).push(decimal(d)[0]),
        digits_value(decimal(d)) == d,
        digits_value(decimal(n).push(decimal(d)[0])) == 10 * digits_value(decimal(n)) + d,
{
    let s = decimal(n).push(decimal(d)[0]);
    assert(s.drop_last() =~= decimal(n));
    assert((10 * n + d) / 10 == n && (10 * n + d) % 10 == d) by (nonlinear_arith)
        requires
            d < 10,
    ;
    assert(decimal(d).drop_last() =~= Seq::<char>::empty());
    assert(digits_value(Seq::<char>::empty()) == 0);
}

/// Whether a text is digits, with at most a plus before them.
pub open spec fn is_position_text(s: Seq<char>) -> bool {
    &&& s.len() > 0
    &&& s[s.len() - 1] != '+'
    &&& forall|i: int|
        0 <= i < s.len() ==> '0' <= #[trigger] s[i] <= '9' || (i == 0 && s[i] == '+')
}

/// A text names a position exactly where it is digits, with at most a plus before
/// them, and not too large. The plus and zeros in front do not count, and a digit
/// behind makes the position ten times as large and adds itself.
pub proof fn law_position_is_its_digits(s: Seq<char>, c: char)
    ensures
        parsed_index(s) is Some ==> is_position_text(s),
        is_position_text(s) && s.len() < 10 ==> parsed_index(s) is Some,
        '0' <= c <= '9' ==> parsed_index(seq![c]) == Some((c as u32 - '0' as u32) as usize),
        parsed_index(s) matches Some(n) ==> '0' <= c <= '9' && 10 * n + (c as int - '0' as int)
            <= usize::MAX ==> parsed_index(s.push(c)) == Some(
            (10 * n + (c as int - '0' as int)) as usize,
        ),
        parsed_index(s) matches Some(n) ==> s[0] != '+' ==> parsed_index(seq!['+'] + s) == Some(n)
            && parsed_index(seq!['0'] + s) == Some(n),
{
    let body = if s.len() > 0 && s[0] == '+' {
        s.subrange(1, s.len() as int)
    } else {
        s
    };
    if parsed_index(s) is Some {
        assert(forall|i: int|
            0 <= i < body.len() ==> is_digit(#[trigger] body[i]));
        assert forall|i: int| 0 <= i < s.len() implies '0' <= #[trigger] s[i] <= '9' || (i == 0
            && s[i] == '+') by {
            if s[0] == '+' {
                if i > 0 {
                    assert(body[i - 1] == s[i]);
                }
            } else {
                assert(body[i] == s[i]);
            }
        }
        assert(body[body.len() - 1] == s[s.len() - 1]);
    }
    if is_position_text(s) && s.len() < 10 {
        assert forall|i: int| 0 <= i < body.len() implies is_digit(#[trigger] body[i]) by {
            if s[0] == '+' {
                assert(body[i] == s[i + 1]);
            }
        }
        lemma_few_digits(body);
    }
    if '0' <= c <= '9' {
        let one = seq![c];
        assert(one.drop_last() =~= Seq::<char>::empty());
        assert(digits_value(Seq::<char>::empty()) == 0);
        assert(digits_value(one) == c as nat - 48);
        assert(all_digits(one));
        if parsed_index(s) is Some {
            let more = s.push(c);
            let longer = body.push(c);
            assert(longer.drop_last() =~= body);
            assert(all_digits(longer));
            if s[0] == '+' {
                assert(more.subrange(1, more.len() as int) =~= longer);
            }
        }
    }
    if parsed_index(s) is Some && s[0] != '+' {
        let plus = seq!['+'] + s;
        assert(plus.subrange(1, plus.len() as int) =~= s);
        let zero = seq!['0'] + s;
        assert(all_digits(zero));
        lemma_zero_in_front(s);
    }
}

proof fn lemma_few_digits(s: Seq<char>)
    requires
        all_digits(s),
        s.len() < 10,
    ensures
        digits_value(s) < 1_000_000_000,
{
    lemma_digits_below(s);
    assert(ten_to(0) == 1);
    assert(ten_to(1) == 10);
    assert(ten_to(2) == 100);
    assert(ten_to(3) == 1_000);
    assert(ten_to(4) == 10_000);
    assert(ten_to(5) == 100_000);
    assert(ten_to(6) == 1_000_000);
    assert(ten_to(7) == 10_000_000);
    assert(ten_to(8) == 100_000_000);
    assert(ten_to(9) == 1_000_000_000);
}

/// A power of ten.
pub open spec fn ten_to(n: nat) -> nat
    decreases n,
{
    if n == 0 {
        1
    } else {
        10 * ten_to((n - 1) as nat)
    }
}

proof fn lemma_digits_below(s: Seq<char>)
    requires
        all_digits(s),
    ensures
        digits_value(s) < ten_to(s.len()),
    decreases s.len(),
{
    if s.len() > 0 {
        assert forall|i: int| 0 <= i < s.drop_last().len() implies is_digit(
            #[trigger] s.drop_last()[i],
        ) by {
            assert(is_digit(s[i]));
        }
        lemma_digits_below(s.drop_last());
        assert(is_digit(s[s.len() - 1]));
    }
}

pub proof fn lemma_zero_in_front(s: Seq<char>)
    ensures
        digits_value(seq!['0'] + s) == digits_value(s),
    decreases s.len(),
{
    let zero = seq!['0'] + s;
    if s.len() == 0 {
        assert(zero.drop_last() =~= Seq::<char>::empty());
        assert(digits_value(Seq::<char>::empty()) == 0);
    } else {
        lemma_zero_in_front(s.drop_last());
        assert(zero.drop_last() =~= seq!['0'] + s.drop_last());
        assert(zero.last() == s.last());
    }
}

/// A minus before a number that is read makes it negative, and a plus leaves it.
pub proof fn law_sign_goes_before_the_digits(s: Seq<char>, c: char)
    requires
        s.len() > 0,
        '0' <= s[0] <= '9',
    ensures
        parsed_int(s) matches Some(n) ==> n >= 0 && parsed_int(seq!['-'] + s) == Some(-n as i64)
            && parsed_int(seq!['+'] + s) == Some(n),
        parsed_int(s) matches Some(n) ==> '0' <= c <= '9' && 10 * n + (c as int - '0' as int)
            <= i64::MAX ==> parsed_int(s.push(c)) == Some((10 * n + (c as int - '0' as int)) as i64),
        '0' <= c <= '9' ==> parsed_int(seq![c]) == Some((c as int - '0' as int) as i64),
        parsed_int(s) is Some ==> forall|i: int|
            0 <= i < s.len() ==> '0' <= #[trigger] s[i] <= '9',
{
    let minus = seq!['-'] + s;
    let plus = seq!['+'] + s;
    assert(minus.subrange(1, minus.len() as int) =~= s);
    assert(plus.subrange(1, plus.len() as int) =~= s);
    if '0' <= c <= '9' {
        let one = seq![c];
        assert(one.drop_last() =~= Seq::<char>::empty());
        assert(digits_value(Seq::<char>::empty()) == 0);
        assert(all_digits(one));
        if parsed_int(s) is Some {
            assert(s.push(c).drop_last() =~= s);
            assert(all_digits(s.push(c)));
        }
    }
    if parsed_int(s) is Some {
        assert(forall|i: int| 0 <= i < s.len() ==> is_digit(#[trigger] s[i]));
    }
}

/// Whether two texts agree up to position `k`, and there the first one ends or
/// has the smaller character.
pub open spec fn is_smaller_at(a: Seq<char>, b: Seq<char>, k: int) -> bool {
    &&& 0 <= k <= a.len() && k < b.len()
    &&& forall|i: int| 0 <= i < k ==> #[trigger] a[i] == b[i]
    &&& k == a.len() || a[k] < b[k]
}

proof fn lemma_smaller_below(a: Seq<char>, b: Seq<char>, k: int)
    requires
        is_smaller_at(a, b, k),
    ensures
        text_before(a, b),
    decreases k,
{
    if k > 0 {
        let x = a.subrange(1, a.len() as int);
        let y = b.subrange(1, b.len() as int);
        assert(a[0] == b[0]);
        assert forall|i: int| 0 <= i < k - 1 implies #[trigger] x[i] == y[i] by {
            assert(a[i + 1] == b[i + 1]);
        }
        lemma_smaller_below(x, y, k - 1);
    }
}

proof fn lemma_differs_somewhere(a: Seq<char>, b: Seq<char>) -> (k: int)
    requires
        text_before(a, b),
    ensures
        is_smaller_at(a, b, k),
    decreases b.len(),
{
    if a.len() == 0 || a[0] != b[0] {
        0
    } else {
        let x = a.subrange(1, a.len() as int);
        let y = b.subrange(1, b.len() as int);
        let k = lemma_differs_somewhere(x, y);
        assert forall|i: int| 0 <= i < k + 1 implies #[trigger] a[i] == b[i] by {
            if i > 0 {
                assert(x[i - 1] == y[i - 1]);
            }
        }
        k + 1
    }
}

/// Texts are in the order of their characters: one comes before another exactly
/// where, at the first place at which they differ, it ends or has the smaller
/// character.
pub proof fn law_texts_are_in_the_order_of_characters(a: Seq<char>, b: Seq<char>)
    ensures
        text_before(a, b) <==> exists|k: int| #[trigger] is_smaller_at(a, b, k),
{
    if text_before(a, b) {
        let k = lemma_differs_somewhere(a, b);
        assert(is_smaller_at(a, b, k));
    }
    if exists|k: int| #[trigger] is_smaller_at(a, b, k) {
        let k = choose|k: int| #[trigger] is_smaller_at(a, b, k);
        lemma_smaller_below(a, b, k);
    }
}

/// New contents are prepared in the directory of the target, so that they can be
/// moved over it; an empty one is the current one, and a root has none.
pub proof fn law_contents_are_prepared_next_to_the_target(parent: Seq<char>)
    ensures
        staging_dir_of(None) is None,
        parent.len() > 0 ==> staging_dir_of(Some(parent)) == Some(parent),
        staging_dir_of(Some(Seq::empty())) == Some(seq!['.']),
{
    reveal_strlit(".");
    assert("."@ =~= seq!['.']);
}

} // verus!
