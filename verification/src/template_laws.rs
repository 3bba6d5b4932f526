//! Masking and putting back: what was masked comes back as it was.

use crate::numbers::{decimal, is_digit, lemma_decimal_value};
use crate::template_guard::{
    braced, in_order, masked, masked_to, matched_to, originals, placeholder, replaced,
    restored_text,
};
use crate::text::has_prefix;
use crate::utf8_text::utf8_lossy;
use vstd::prelude::*;
use vstd::utf8::{
    decode_utf8, decode_utf8_encode_utf8, decode_utf8_split, encode_utf8, encode_utf8_decode_utf8,
    encode_utf8_valid_utf8, is_char_boundary, is_char_boundary_iff_not_is_continuation_byte,
    is_char_boundary_start_end_of_seq, pop_first_scalar, valid_utf8, valid_utf8_concat,
    valid_utf8_split,
};

verus! {

// ---------------------------------------------------------------------------
// Replacing a text that occurs once
// ---------------------------------------------------------------------------

/// Whether `part` occurs in `s` at position `i`.
pub open spec fn occurs_at(s: Seq<char>, part: Seq<char>, i: int) -> bool {
    0 <= i <= s.len() && has_prefix(s.subrange(i, s.len() as int), part)
}

/// Whether `part` occurs in `s`.
pub open spec fn occurs(s: Seq<char>, part: Seq<char>) -> bool {
    exists|i: int| occurs_at(s, part, i)
}

proof fn lemma_replaced_none(s: Seq<char>, from: Seq<char>, to: Seq<char>)
    requires
        from.len() > 0,
        !occurs(s, from),
    ensures
        replaced(s, from, to) == s,
    decreases s.len(),
{
    if s.len() > 0 {
        let rest = s.subrange(1, s.len() as int);
        assert(s.subrange(0, s.len() as int) =~= s);
        assert(!occurs_at(s, from, 0));
        assert forall|i: int| !occurs_at(rest, from, i) by {
            if occurs_at(rest, from, i) {
                assert(rest.subrange(i, rest.len() as int) =~= s.subrange(i + 1, s.len() as int));
                assert(occurs_at(s, from, i + 1));
            }
        }
        lemma_replaced_none(rest, from, to);
        assert(seq![s[0]] + rest =~= s);
    }
}

proof fn lemma_replaced_once(a: Seq<char>, from: Seq<char>, b: Seq<char>, to: Seq<char>)
    requires
        from.len() > 0,
        forall|i: int| #[trigger]
            occurs_at(a + from + b, from, i) ==> a.len() <= i < a.len() + from.len(),
    ensures
        replaced(a + from + b, from, to) == a + to + b,
    decreases a.len(),
{
    let s = a + from + b;
    assert(s.subrange(0, s.len() as int) =~= s);
    if a.len() == 0 {
        assert(s.subrange(0, from.len() as int) =~= from);
        assert(s.subrange(from.len() as int, s.len() as int) =~= b);
        assert forall|i: int| !occurs_at(b, from, i) by {
            if occurs_at(b, from, i) {
                assert(b.subrange(i, b.len() as int) =~= s.subrange(
                    i + from.len(),
                    s.len() as int,
                ));
                assert(occurs_at(s, from, i + from.len()));
            }
        }
        lemma_replaced_none(b, from, to);
        assert(a + to + b =~= to + b);
    } else {
        let shorter = a.subrange(1, a.len() as int);
        let rest = shorter + from + b;
        assert(s.subrange(1, s.len() as int) =~= rest);
        assert(!occurs_at(s, from, 0));
        assert forall|i: int| #[trigger] occurs_at(rest, from, i) implies shorter.len() <= i
            < shorter.len() + from.len() by {
            assert(rest.subrange(i, rest.len() as int) =~= s.subrange(i + 1, s.len() as int));
            assert(occurs_at(s, from, i + 1));
        }
        lemma_replaced_once(shorter, from, b, to);
        assert(seq![s[0]] + (shorter + to + b) =~= a + to + b);
    }
}

// ---------------------------------------------------------------------------
// Cutting text at the matches
// ---------------------------------------------------------------------------

/// The text of `bytes[a..b]`.
pub open spec fn text_in(bytes: Seq<u8>, a: int, b: int) -> Seq<char> {
    decode_utf8(bytes.subrange(a, b))
}

proof fn lemma_cut(bytes: Seq<u8>, a: int, b: int)
    requires
        valid_utf8(bytes),
        0 <= a <= b <= bytes.len(),
        is_char_boundary(bytes, a),
        is_char_boundary(bytes, b),
    ensures
        valid_utf8(bytes.subrange(a, b)),
        is_char_boundary(bytes.subrange(0, b), a),
{
    let front = bytes.subrange(0, b);
    valid_utf8_split(bytes, b);
    if a < b {
        is_char_boundary_iff_not_is_continuation_byte(bytes, a);
        is_char_boundary_iff_not_is_continuation_byte(front, a);
        assert(front[a] == bytes[a]);
    } else {
        is_char_boundary_start_end_of_seq(front);
    }
    valid_utf8_split(front, a);
    assert(front.subrange(a, front.len() as int) =~= bytes.subrange(a, b));
}

proof fn lemma_join(bytes: Seq<u8>, a: int, b: int, c: int)
    requires
        valid_utf8(bytes),
        0 <= a <= b <= c <= bytes.len(),
        is_char_boundary(bytes, a),
        is_char_boundary(bytes, b),
        is_char_boundary(bytes, c),
    ensures
        text_in(bytes, a, c) == text_in(bytes, a, b) + text_in(bytes, b, c),
{
    let whole = bytes.subrange(a, c);
    lemma_cut(bytes, a, c);
    if b < c {
        is_char_boundary_iff_not_is_continuation_byte(bytes, b);
        is_char_boundary_iff_not_is_continuation_byte(whole, b - a);
        assert(whole[b - a] == bytes[b]);
    } else {
        is_char_boundary_start_end_of_seq(whole);
    }
    decode_utf8_split(whole, b - a);
    assert(whole.subrange(0, b - a) =~= bytes.subrange(a, b));
    assert(whole.subrange(b - a, whole.len() as int) =~= bytes.subrange(b, c));
}

/// The text of two runs of UTF-8 is that of the first and that of the second.
pub proof fn lemma_text_of_two(x: Seq<u8>, y: Seq<u8>)
    requires
        valid_utf8(x),
        valid_utf8(y),
    ensures
        valid_utf8(x + y),
        decode_utf8(x + y) == decode_utf8(x) + decode_utf8(y),
{
    let whole = x + y;
    valid_utf8_concat(x, y);
    assert(whole.subrange(0, x.len() as int) =~= x);
    assert(whole.subrange(x.len() as int, whole.len() as int) =~= y);
    if y.len() > 0 {
        is_char_boundary_start_end_of_seq(y);
        is_char_boundary_iff_not_is_continuation_byte(y, 0);
        is_char_boundary_iff_not_is_continuation_byte(whole, x.len() as int);
        assert(whole[x.len() as int] == y[0]);
    } else {
        is_char_boundary_start_end_of_seq(whole);
    }
    decode_utf8_split(whole, x.len() as int);
}

/// A single byte character is followed by a boundary.
proof fn lemma_behind_ascii(bytes: Seq<u8>, i: int)
    requires
        valid_utf8(bytes),
        0 <= i < bytes.len(),
        bytes[i] < 0x80,
    ensures
        is_char_boundary(bytes, i),
        is_char_boundary(bytes, i + 1),
{
    is_char_boundary_iff_not_is_continuation_byte(bytes, i);
    if i + 1 < bytes.len() {
        valid_utf8_split(bytes, i);
        let rest = bytes.subrange(i, bytes.len() as int);
        let behind = pop_first_scalar(rest);
        assert(rest[0] == bytes[i]);
        assert(valid_utf8(behind));
        assert(behind[0] == bytes[i + 1]);
        is_char_boundary_start_end_of_seq(behind);
        is_char_boundary_iff_not_is_continuation_byte(behind, 0);
        is_char_boundary_iff_not_is_continuation_byte(bytes, i + 1);
    } else {
        is_char_boundary_start_end_of_seq(bytes);
    }
}

proof fn lemma_match_boundaries(bytes: Seq<u8>, ms: Seq<(usize, usize)>, k: int)
    requires
        valid_utf8(bytes),
        in_order(ms, bytes.len()),
        braced(bytes, ms),
        0 <= k < ms.len(),
    ensures
        is_char_boundary(bytes, ms[k].0 as int),
        is_char_boundary(bytes, ms[k].1 as int),
        0 <= matched_to(ms, k) <= ms[k].0 < ms[k].1 <= bytes.len(),
        is_char_boundary(bytes, matched_to(ms, k)),
{
    lemma_behind_ascii(bytes, ms[k].0 as int);
    lemma_behind_ascii(bytes, ms[k].1 - 1);
    if k > 0 {
        assert(ms[k - 1].1 <= ms[k].0);
        lemma_behind_ascii(bytes, ms[k - 1].1 - 1);
    } else {
        is_char_boundary_start_end_of_seq(bytes);
    }
}

proof fn lemma_matched_to(bytes: Seq<u8>, ms: Seq<(usize, usize)>, k: int)
    requires
        valid_utf8(bytes),
        in_order(ms, bytes.len()),
        braced(bytes, ms),
        0 <= k <= ms.len(),
    ensures
        0 <= matched_to(ms, k) <= bytes.len(),
        is_char_boundary(bytes, matched_to(ms, k)),
        is_char_boundary(bytes, 0),
        is_char_boundary(bytes, bytes.len() as int),
{
    is_char_boundary_start_end_of_seq(bytes);
    if k > 0 {
        lemma_match_boundaries(bytes, ms, k - 1);
    }
}

/// The text behind the first `k` matches, the others masked.
pub open spec fn masked_text_from(bytes: Seq<u8>, ms: Seq<(usize, usize)>, k: int) -> Seq<char>
    decreases ms.len() - k,
{
    if k >= ms.len() {
        text_in(bytes, matched_to(ms, k), bytes.len() as int)
    } else {
        text_in(bytes, matched_to(ms, k), ms[k].0 as int) + placeholder(k as nat)
            + masked_text_from(bytes, ms, k + 1)
    }
}

/// The text with the first `k` matches as they were and the others masked.
pub open spec fn half_restored(bytes: Seq<u8>, ms: Seq<(usize, usize)>, k: int) -> Seq<char> {
    text_in(bytes, 0, matched_to(ms, k)) + masked_text_from(bytes, ms, k)
}

proof fn lemma_masked_text(bytes: Seq<u8>, ms: Seq<(usize, usize)>, k: int)
    requires
        valid_utf8(bytes),
        in_order(ms, bytes.len()),
        braced(bytes, ms),
        0 <= k <= ms.len(),
    ensures
        valid_utf8(masked_to(bytes, ms, k)),
        decode_utf8(masked_to(bytes, ms, k)) + masked_text_from(bytes, ms, k) == masked_text_from(
            bytes,
            ms,
            0,
        ),
    decreases k,
{
    if k > 0 {
        lemma_masked_text(bytes, ms, k - 1);
        lemma_match_boundaries(bytes, ms, k - 1);
        let before = masked_to(bytes, ms, k - 1);
        let gap = bytes.subrange(matched_to(ms, k - 1), ms[k - 1].0 as int);
        let mask = placeholder((k - 1) as nat);
        lemma_cut(bytes, matched_to(ms, k - 1), ms[k - 1].0 as int);
        encode_utf8_valid_utf8(mask);
        encode_utf8_decode_utf8(mask);
        lemma_text_of_two(before, gap);
        lemma_text_of_two(before + gap, encode_utf8(mask));
        assert(decode_utf8(masked_to(bytes, ms, k)) + masked_text_from(bytes, ms, k)
            =~= decode_utf8(before) + masked_text_from(bytes, ms, k - 1));
    } else {
        assert(decode_utf8(masked_to(bytes, ms, 0)) =~= Seq::<char>::empty());
    }
}

proof fn lemma_masked_is_text(bytes: Seq<u8>, ms: Seq<(usize, usize)>)
    requires
        valid_utf8(bytes),
        in_order(ms, bytes.len()),
        braced(bytes, ms),
    ensures
        utf8_lossy(masked(bytes, ms)) == half_restored(bytes, ms, 0),
{
    let n = ms.len() as int;
    lemma_masked_text(bytes, ms, n);
    lemma_matched_to(bytes, ms, n);
    lemma_cut(bytes, matched_to(ms, n), bytes.len() as int);
    lemma_text_of_two(
        masked_to(bytes, ms, n),
        bytes.subrange(matched_to(ms, n), bytes.len() as int),
    );
    assert(bytes.subrange(0, 0) =~= Seq::<u8>::empty());
    assert(text_in(bytes, 0, 0) =~= Seq::<char>::empty());
    assert(half_restored(bytes, ms, 0) =~= masked_text_from(bytes, ms, 0));
}

/// The half-restored text around placeholder `k`.
proof fn lemma_half_restored(bytes: Seq<u8>, ms: Seq<(usize, usize)>, k: int)
    requires
        valid_utf8(bytes),
        in_order(ms, bytes.len()),
        braced(bytes, ms),
        0 <= k < ms.len(),
    ensures
        half_restored(bytes, ms, k) == text_in(bytes, 0, ms[k].0 as int) + placeholder(k as nat)
            + masked_text_from(bytes, ms, k + 1),
        half_restored(bytes, ms, k + 1) == text_in(bytes, 0, ms[k].0 as int) + text_in(
            bytes,
            ms[k].0 as int,
            ms[k].1 as int,
        ) + masked_text_from(bytes, ms, k + 1),
{
    lemma_match_boundaries(bytes, ms, k);
    lemma_matched_to(bytes, ms, 0);
    lemma_join(bytes, 0, matched_to(ms, k), ms[k].0 as int);
    lemma_join(bytes, 0, ms[k].0 as int, ms[k].1 as int);
    assert(half_restored(bytes, ms, k) =~= text_in(bytes, 0, ms[k].0 as int) + placeholder(
        k as nat,
    ) + masked_text_from(bytes, ms, k + 1));
}

// ---------------------------------------------------------------------------
// The law
// ---------------------------------------------------------------------------

/// Whether each placeholder can be told from the text around it: when its turn
/// comes, it occurs nowhere but where it was put. An occurrence that begins
/// inside it does no harm.
pub open spec fn unmistakable(bytes: Seq<u8>, ms: Seq<(usize, usize)>) -> bool {
    forall|k: int, i: int|
        0 <= k < ms.len() && #[trigger] occurs_at(
            half_restored(bytes, ms, k),
            placeholder(k as nat),
            i,
        ) ==> text_in(bytes, 0, ms[k].0 as int).len() <= i < text_in(
            bytes,
            0,
            ms[k].0 as int,
        ).len() + placeholder(k as nat).len()
}

proof fn lemma_put_back(bytes: Seq<u8>, ms: Seq<(usize, usize)>, k: int)
    requires
        valid_utf8(bytes),
        in_order(ms, bytes.len()),
        braced(bytes, ms),
        unmistakable(bytes, ms),
        0 <= k <= ms.len(),
    ensures
        restored_text(half_restored(bytes, ms, 0), originals(bytes, ms), k) == half_restored(
            bytes,
            ms,
            k,
        ),
    decreases k,
{
    if k > 0 {
        let at = k - 1;
        lemma_put_back(bytes, ms, at);
        lemma_half_restored(bytes, ms, at);
        lemma_match_boundaries(bytes, ms, at);
        lemma_cut(bytes, ms[at].0 as int, ms[at].1 as int);
        let a = text_in(bytes, 0, ms[at].0 as int);
        let mask = placeholder(at as nat);
        let b = masked_text_from(bytes, ms, k);
        reveal_strlit("__DQ_TPL_");
        assert forall|i: int| #[trigger] occurs_at(a + mask + b, mask, i) implies a.len() <= i
            < a.len() + mask.len() by {
            assert(occurs_at(half_restored(bytes, ms, at), mask, i));
        }
        lemma_replaced_once(a, mask, b, originals(bytes, ms)[at].1);
    }
}

/// What was masked comes back: for every text whose placeholders are
/// unmistakable, putting the matches back gives the bytes as they were.
pub proof fn law_masking_is_undone(bytes: Seq<u8>, ms: Seq<(usize, usize)>)
    requires
        valid_utf8(bytes),
        in_order(ms, bytes.len()),
        braced(bytes, ms),
        unmistakable(bytes, ms),
    ensures
        encode_utf8(
            restored_text(
                utf8_lossy(masked(bytes, ms)),
                originals(bytes, ms),
                originals(bytes, ms).len() as int,
            ),
        ) == bytes,
{
    let n = ms.len() as int;
    lemma_masked_is_text(bytes, ms);
    lemma_put_back(bytes, ms, n);
    lemma_matched_to(bytes, ms, n);
    lemma_join(bytes, 0, matched_to(ms, n), bytes.len() as int);
    assert(bytes.subrange(0, bytes.len() as int) =~= bytes);
    decode_utf8_encode_utf8(bytes);
}

// ---------------------------------------------------------------------------
// Text without the core of a placeholder
// ---------------------------------------------------------------------------

/// A placeholder without the underscores in front.
spec fn core_of(n: nat) -> Seq<char> {
    "DQ_TPL_"@ + decimal(n) + "__"@
}

proof fn lemma_core(n: nat)
    ensures
        placeholder(n) == "__"@ + core_of(n),
        core_of(n).len() >= 10,
        placeholder(n).len() == core_of(n).len() + 2,
        forall|i: int| 0 <= i < placeholder(n).len() && placeholder(n)[i] == 'D' ==> i == 2,
        forall|i: int| 0 <= i < 7 ==> !is_digit(#[trigger] placeholder(n)[i]),
        is_digit(core_of(n)[7]),
        core_of(n)[0] == 'D',
        has_prefix(core_of(n), "DQ_TPL_"@),
{
    reveal_strlit("__DQ_TPL_");
    reveal_strlit("DQ_TPL_");
    reveal_strlit("__");
    lemma_decimal_value(n);
    let digits = decimal(n);
    assert(placeholder(n) =~= "__"@ + core_of(n));
    assert(is_digit(digits[0]));
    assert(core_of(n)[7] == digits[0]);
    assert(core_of(n).subrange(0, 7) =~= "DQ_TPL_"@);
    assert forall|i: int| 0 <= i < placeholder(n).len() && placeholder(n)[i] == 'D' implies i
        == 2 by {
        if 9 <= i < 9 + digits.len() {
            assert(is_digit(digits[i - 9]));
        }
    }
}

/// Two placeholders that start in the same place are the same.
proof fn lemma_same_core(k: nat, q: nat, behind: Seq<char>)
    requires
        has_prefix(core_of(k) + behind, core_of(q)),
    ensures
        k == q,
{
    reveal_strlit("DQ_TPL_");
    reveal_strlit("__");
    lemma_decimal_value(k);
    lemma_decimal_value(q);
    let (a, b) = (decimal(k), decimal(q));
    let s = core_of(k) + behind;
    let found = s.subrange(0, core_of(q).len() as int);
    assert(found == core_of(q));
    assert forall|i: int| 0 <= i < core_of(q).len() implies core_of(q)[i] == s[i] by {
        assert(found[i] == s[i]);
    }
    if a.len() < b.len() {
        assert(core_of(q)[7 + a.len() as int] == b[a.len() as int]);
        assert(s[7 + a.len() as int] == '_');
        assert(is_digit(b[a.len() as int]));
    } else if b.len() < a.len() {
        assert(s[7 + b.len() as int] == a[b.len() as int]);
        assert(core_of(q)[7 + b.len() as int] == '_');
        assert(is_digit(a[b.len() as int]));
    } else {
        assert forall|i: int| 0 <= i < a.len() implies a[i] == b[i] by {
            assert(s[7 + i] == a[i]);
            assert(core_of(q)[7 + i] == b[i]);
        }
        assert(a =~= b);
    }
}

/// Where a text occurs, its characters stand.
proof fn lemma_occurrence(s: Seq<char>, part: Seq<char>, i: int)
    requires
        occurs_at(s, part, i),
    ensures
        i + part.len() <= s.len(),
        forall|j: int| 0 <= j < part.len() ==> s[i + j] == #[trigger] part[j],
{
    let rest = s.subrange(i, s.len() as int);
    assert forall|j: int| 0 <= j < part.len() implies s[i + j] == #[trigger] part[j] by {
        assert(rest.subrange(0, part.len() as int)[j] == s[i + j]);
    }
}

proof fn lemma_occurrence_is(s: Seq<char>, part: Seq<char>, i: int)
    requires
        0 <= i,
        i + part.len() <= s.len(),
        forall|j: int| 0 <= j < part.len() ==> s[i + j] == #[trigger] part[j],
    ensures
        occurs_at(s, part, i),
{
    assert(s.subrange(i, s.len() as int).subrange(0, part.len() as int) =~= part);
}

/// The core of a placeholder does not occur in a part of a text that lacks what
/// it starts with.
proof fn lemma_no_core_in_part(bytes: Seq<u8>, a: int, b: int, t: int)
    requires
        valid_utf8(bytes),
        0 <= a <= b <= bytes.len(),
        is_char_boundary(bytes, a),
        is_char_boundary(bytes, b),
        !occurs(decode_utf8(bytes), "DQ_TPL_"@),
        0 <= t,
        t + 8 <= text_in(bytes, a, b).len(),
    ensures
        exists|j: int| 0 <= j < 7 && text_in(bytes, a, b)[t + j] != #[trigger] "DQ_TPL_"@[j],
{
    reveal_strlit("DQ_TPL_");
    is_char_boundary_start_end_of_seq(bytes);
    lemma_join(bytes, 0, a, b);
    lemma_join(bytes, 0, b, bytes.len() as int);
    assert(bytes.subrange(0, bytes.len() as int) =~= bytes);
    let whole = decode_utf8(bytes);
    let at = text_in(bytes, 0, a).len() + t;
    if forall|j: int| 0 <= j < 7 ==> text_in(bytes, a, b)[t + j] == #[trigger] "DQ_TPL_"@[j] {
        assert forall|j: int| 0 <= j < 7 implies whole[at + j] == #[trigger] "DQ_TPL_"@[j] by {
            assert(whole[at + j] == text_in(bytes, a, b)[t + j]);
        }
        lemma_occurrence_is(whole, "DQ_TPL_"@, at);
    }
}

/// Where the core of a placeholder occurs behind a cut, it is one that was put
/// there.
proof fn lemma_core_is_put(
    bytes: Seq<u8>,
    ms: Seq<(usize, usize)>,
    u: int,
    k: int,
    q: nat,
    t: int,
)
    requires
        valid_utf8(bytes),
        in_order(ms, bytes.len()),
        braced(bytes, ms),
        !occurs(decode_utf8(bytes), "DQ_TPL_"@),
        0 <= k <= ms.len(),
        0 <= u <= matched_to(ms, k),
        is_char_boundary(bytes, u),
        occurs_at(
            text_in(bytes, u, matched_to(ms, k)) + masked_text_from(bytes, ms, k),
            core_of(q),
            t,
        ),
    ensures
        q >= k,
        q == k ==> k < ms.len() && t == text_in(bytes, u, ms[k].0 as int).len() + 2,
    decreases ms.len() - k,
{
    let w = text_in(bytes, u, matched_to(ms, k)) + masked_text_from(bytes, ms, k);
    let core = core_of(q);
    lemma_core(q);
    lemma_occurrence(w, core, t);
    reveal_strlit("DQ_TPL_");
    assert(core.subrange(0, 7)[0] == core[0]);
    assert forall|j: int| 0 <= j < 7 implies w[t + j] == #[trigger] "DQ_TPL_"@[j] by {
        assert(core.subrange(0, 7)[j] == core[j]);
    }
    assert(w[t + 7] == core[7]);
    assert(w[t] == core[0]);
    lemma_matched_to(bytes, ms, k);
    if k == ms.len() {
        lemma_join(bytes, u, matched_to(ms, k), bytes.len() as int);
        lemma_no_core_in_part(bytes, u, bytes.len() as int, t);
    } else {
        lemma_match_boundaries(bytes, ms, k);
        lemma_join(bytes, u, matched_to(ms, k), ms[k].0 as int);
        let x = text_in(bytes, u, ms[k].0 as int);
        let mask = placeholder(k as nat);
        let y = masked_text_from(bytes, ms, k + 1);
        assert(w =~= x + mask + y);
        lemma_core(k as nat);
        if t + 8 <= x.len() {
            assert forall|j: int| 0 <= j < 7 implies x[t + j] == #[trigger] "DQ_TPL_"@[j] by {
                assert(w[t + j] == x[t + j]);
            }
            lemma_no_core_in_part(bytes, u, ms[k].0 as int, t);
        } else if t < x.len() {
            assert(w[t + 7] == mask[t + 7 - x.len()]);
        } else if t < x.len() + mask.len() {
            assert(w[t] == mask[t - x.len()]);
            assert(w.subrange(t, w.len() as int) =~= core_of(k as nat) + y);
            lemma_same_core(k as nat, q, y);
        } else {
            let next = t - x.len() - mask.len();
            let end = matched_to(ms, k + 1);
            assert(bytes.subrange(end, end) =~= Seq::<u8>::empty());
            assert(text_in(bytes, end, end) =~= Seq::<char>::empty());
            assert(text_in(bytes, end, end) + y =~= y);
            assert(y.subrange(next, y.len() as int) =~= w.subrange(t, w.len() as int));
            lemma_core_is_put(bytes, ms, end, k + 1, q, next);
        }
    }
}

/// A text that nowhere holds `DQ_TPL_` comes back from masking as it was.
pub proof fn law_masking_plain_text_is_undone(bytes: Seq<u8>, ms: Seq<(usize, usize)>)
    requires
        valid_utf8(bytes),
        in_order(ms, bytes.len()),
        braced(bytes, ms),
        !occurs(decode_utf8(bytes), "DQ_TPL_"@),
    ensures
        unmistakable(bytes, ms),
        encode_utf8(
            restored_text(
                utf8_lossy(masked(bytes, ms)),
                originals(bytes, ms),
                originals(bytes, ms).len() as int,
            ),
        ) == bytes,
{
    assert forall|k: int, i: int|
        0 <= k < ms.len() && #[trigger] occurs_at(
            half_restored(bytes, ms, k),
            placeholder(k as nat),
            i,
        ) implies text_in(bytes, 0, ms[k].0 as int).len() <= i < text_in(
        bytes,
        0,
        ms[k].0 as int,
    ).len() + placeholder(k as nat).len() by {
        let s = half_restored(bytes, ms, k);
        let mask = placeholder(k as nat);
        let core = core_of(k as nat);
        lemma_core(k as nat);
        reveal_strlit("__");
        lemma_occurrence(s, mask, i);
        assert forall|j: int| 0 <= j < core.len() implies s[i + 2 + j] == #[trigger] core[j] by {
            assert(mask[2 + j] == core[j]);
        }
        lemma_occurrence_is(s, core, i + 2);
        lemma_matched_to(bytes, ms, k);
        lemma_core_is_put(bytes, ms, 0, k, k as nat, i + 2);
    }
    law_masking_is_undone(bytes, ms);
}

} // verus!
