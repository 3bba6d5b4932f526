//! What the text helpers do: cutting, trimming and lowering texts.

use crate::text::{
    ascii_lower, find_from, has_prefix, is_white, lowered, split_on, trim, trim_end, trim_end_of,
    trim_start,
};
use vstd::prelude::*;

verus! {

/// Pieces one behind the other, with a character between them.
pub open spec fn pieces_joined(pieces: Seq<Seq<char>>, c: char) -> Seq<char>
    decreases pieces.len(),
{
    if pieces.len() == 0 {
        Seq::empty()
    } else if pieces.len() == 1 {
        pieces[0]
    } else {
        pieces[0].push(c) + pieces_joined(pieces.subrange(1, pieces.len() as int), c)
    }
}

proof fn lemma_found(s: Seq<char>, c: char, from: int)
    requires
        0 <= from <= s.len(),
    ensures
        from <= find_from(s, c, from) <= s.len(),
        forall|i: int| from <= i < find_from(s, c, from) ==> #[trigger] s[i] != c,
        find_from(s, c, from) < s.len() ==> s[find_from(s, c, from)] == c,
    decreases s.len() - from,
{
    if from < s.len() && s[from] != c {
        lemma_found(s, c, from + 1);
    }
}

/// What is found is the first one at or behind the start, and the end where
/// there is none.
pub proof fn law_found_is_the_first(s: Seq<char>, c: char, from: int)
    requires
        0 <= from <= s.len(),
    ensures
        from <= find_from(s, c, from) <= s.len(),
        forall|i: int| from <= i < find_from(s, c, from) ==> #[trigger] s[i] != c,
        find_from(s, c, from) < s.len() ==> s[find_from(s, c, from)] == c,
{
    lemma_found(s, c, from);
}

/// Cutting a text loses nothing: no piece holds the character, and with it
/// between them the pieces are the text.
pub proof fn law_pieces_make_up_the_text(s: Seq<char>, c: char)
    ensures
        split_on(s, c).len() > 0,
        pieces_joined(split_on(s, c), c) == s,
        forall|k: int, i: int|
            0 <= k < split_on(s, c).len() && 0 <= i < split_on(s, c)[k].len()
                ==> #[trigger] split_on(s, c)[k][i] != c,
    decreases s.len(),
{
    lemma_found(s, c, 0);
    let end = find_from(s, c, 0);
    let pieces = split_on(s, c);
    if end < s.len() {
        let tail = s.subrange(end + 1, s.len() as int);
        law_pieces_make_up_the_text(tail, c);
        assert(pieces.subrange(1, pieces.len() as int) =~= split_on(tail, c));
        assert(pieces[0] == s.subrange(0, end));
        assert(s.subrange(0, end).push(c) + tail =~= s);
        assert forall|k: int, i: int|
            0 <= k < pieces.len() && 0 <= i < pieces[k].len() implies #[trigger] pieces[k][i]
            != c by {
            if k > 0 {
                assert(pieces[k] == split_on(tail, c)[k - 1]);
            }
        }
    } else {
        assert(pieces[0] == s);
    }
}

/// Whether a text is another one without the white space around it.
pub open spec fn is_trimmed(t: Seq<char>, s: Seq<char>, front: bool, back: bool) -> bool {
    exists|a: int, b: int|
        {
            &&& 0 <= a <= b <= s.len()
            &&& t == #[trigger] s.subrange(a, b)
            &&& forall|i: int| 0 <= i < a ==> is_white(#[trigger] s[i])
            &&& forall|i: int| b <= i < s.len() ==> is_white(#[trigger] s[i])
            &&& !front ==> a == 0
            &&& !back ==> b == s.len()
            &&& front && t.len() > 0 ==> !is_white(t[0])
            &&& back && t.len() > 0 ==> !is_white(t.last())
        }
}

pub proof fn lemma_trim_start(s: Seq<char>) -> (a: int)
    ensures
        0 <= a <= s.len(),
        trim_start(s) == s.subrange(a, s.len() as int),
        forall|i: int| 0 <= i < a ==> is_white(#[trigger] s[i]),
        a < s.len() ==> !is_white(s[a]),
    decreases s.len(),
{
    if s.len() > 0 && is_white(s[0]) {
        let tail = s.subrange(1, s.len() as int);
        let a = lemma_trim_start(tail);
        assert(tail.subrange(a, tail.len() as int) =~= s.subrange(a + 1, s.len() as int));
        assert forall|i: int| 0 <= i < a + 1 implies is_white(#[trigger] s[i]) by {
            if i > 0 {
                assert(tail[i - 1] == s[i]);
            }
        }
        a + 1
    } else {
        assert(s.subrange(0, s.len() as int) =~= s);
        0
    }
}

pub proof fn lemma_trim_end(s: Seq<char>) -> (b: int)
    ensures
        0 <= b <= s.len(),
        trim_end(s) == s.subrange(0, b),
        forall|i: int| b <= i < s.len() ==> is_white(#[trigger] s[i]),
        b > 0 ==> !is_white(s[b - 1]),
    decreases s.len(),
{
    if s.len() > 0 && is_white(s.last()) {
        let b = lemma_trim_end(s.drop_last());
        assert(s.drop_last().subrange(0, b) =~= s.subrange(0, b));
        assert forall|i: int| b <= i < s.len() implies is_white(#[trigger] s[i]) by {
            if i < s.len() - 1 {
                assert(s.drop_last()[i] == s[i]);
            }
        }
        b
    } else {
        assert(s.subrange(0, s.len() as int) =~= s);
        s.len() as int
    }
}

/// Trimming takes away white space at the ends, all of it, and nothing else.
pub proof fn law_trimming_takes_white_space_only(s: Seq<char>)
    ensures
        is_trimmed(trim_start(s), s, true, false),
        is_trimmed(trim_end(s), s, false, true),
        is_trimmed(trim(s), s, true, true),
{
    let a = lemma_trim_start(s);
    assert(trim_start(s) == s.subrange(a, s.len() as int));
    let b = lemma_trim_end(s);
    assert(trim_end(s) == s.subrange(0, b));
    let t = trim_start(s);
    let c = lemma_trim_end(t);
    assert(t.subrange(0, c) =~= s.subrange(a, a + c));
    assert forall|i: int| a + c <= i < s.len() implies is_white(#[trigger] s[i]) by {
        assert(t[i - a] == s[i]);
    }
    assert(is_trimmed(trim(s), s, true, true)) by {
        assert(trim(s) == s.subrange(a, a + c));
        if c > 0 {
            assert(trim(s)[0] == s[a]);
            assert(trim(s).last() == t[c - 1]);
        }
    }
}

/// Dropping a character from the end drops all of its run there and nothing
/// else.
pub proof fn law_end_of_run_is_dropped(s: Seq<char>, c: char)
    ensures
        trim_end_of(s, c).len() <= s.len(),
        trim_end_of(s, c) == s.subrange(0, trim_end_of(s, c).len() as int),
        forall|i: int| trim_end_of(s, c).len() <= i < s.len() ==> #[trigger] s[i] == c,
        trim_end_of(s, c).len() > 0 ==> trim_end_of(s, c).last() != c,
    decreases s.len(),
{
    if s.len() > 0 && s.last() == c {
        law_end_of_run_is_dropped(s.drop_last(), c);
        let n = trim_end_of(s, c).len() as int;
        assert(s.drop_last().subrange(0, n) =~= s.subrange(0, n));
        assert forall|i: int| n <= i < s.len() implies #[trigger] s[i] == c by {
            if i < s.len() - 1 {
                assert(s.drop_last()[i] == s[i]);
            }
        }
    } else {
        assert(s.subrange(0, s.len() as int) =~= s);
    }
}

/// A text starts with another one exactly if it is that one and something
/// behind it.
pub proof fn law_prefix_and_rest(s: Seq<char>, prefix: Seq<char>)
    ensures
        has_prefix(s, prefix) <==> exists|rest: Seq<char>| s == prefix + rest,
{
    if has_prefix(s, prefix) {
        let rest = s.subrange(prefix.len() as int, s.len() as int);
        assert(s =~= prefix + rest);
    }
    if exists|rest: Seq<char>| s == prefix + rest {
        let rest = choose|rest: Seq<char>| s == prefix + rest;
        assert(s.subrange(0, prefix.len() as int) =~= prefix);
    }
}

/// Lowering keeps a text as long as it is, makes each of the letters from `A` to
/// `Z` the small one, and leaves every other character.
pub proof fn law_lowering_changes_capitals_only(s: Seq<char>)
    ensures
        lowered(s).len() == s.len(),
        forall|i: int|
            0 <= i < s.len() ==> if 'A' <= s[i] <= 'Z' {
                'a' <= #[trigger] lowered(s)[i] <= 'z' && lowered(s)[i] as u32 - 'a' as u32
                    == s[i] as u32 - 'A' as u32
            } else {
                lowered(s)[i] == s[i]
            },
        lowered(lowered(s)) == lowered(s),
{
    assert forall|i: int| 0 <= i < s.len() implies if 'A' <= s[i] <= 'Z' {
        'a' <= #[trigger] lowered(s)[i] <= 'z' && lowered(s)[i] as u32 - 'a' as u32 == s[i] as u32
            - 'A' as u32
    } else {
        lowered(s)[i] == s[i]
    } by {
        assert(lowered(s)[i] == ascii_lower(s[i]));
    }
    assert(lowered(lowered(s)) =~= lowered(s));
}

} // verus!
