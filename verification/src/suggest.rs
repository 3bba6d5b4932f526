//! Close-key suggestions for a key that is missing.

use crate::error::texts;
use crate::text::{chars_of, text_of};
use vstd::prelude::*;

verus! {

/// The smaller of three numbers.
pub open spec fn least(x: nat, y: nat, z: nat) -> nat {
    if x <= y && x <= z {
        x
    } else if y <= z {
        y
    } else {
        z
    }
}

/// The edit distance between the first `i` characters of `a` and the first `j`
/// of `b`: how many insertions, deletions and replacements lead from one to
/// the other.
pub open spec fn edits(a: Seq<char>, b: Seq<char>, i: nat, j: nat) -> nat
    decreases i + j,
{
    if i == 0 {
        j
    } else if j == 0 {
        i
    } else {
        least(
            edits(a, b, i, (j - 1) as nat) + 1,
            edits(a, b, (i - 1) as nat, j) + 1,
            edits(a, b, (i - 1) as nat, (j - 1) as nat) + if a[i - 1] == b[j - 1] {
                0nat
            } else {
                1nat
            },
        )
    }
}

/// The edit distance between two texts.
pub open spec fn edit_distance(a: Seq<char>, b: Seq<char>) -> nat {
    edits(a, b, a.len(), b.len())
}

/// No more edits are needed than the longer side has characters, and no fewer
/// than the lengths differ by.
pub proof fn lemma_edits_bounds(a: Seq<char>, b: Seq<char>, i: nat, j: nat)
    ensures
        i <= j ==> edits(a, b, i, j) <= j,
        j <= i ==> edits(a, b, i, j) <= i,
        i - j <= edits(a, b, i, j),
        j - i <= edits(a, b, i, j),
    decreases i + j,
{
    if i > 0 && j > 0 {
        lemma_edits_bounds(a, b, i, (j - 1) as nat);
        lemma_edits_bounds(a, b, (i - 1) as nat, j);
        lemma_edits_bounds(a, b, (i - 1) as nat, (j - 1) as nat);
    }
}

/// Two prefixes are zero edits apart exactly when they are the same.
proof fn lemma_edits_zero(a: Seq<char>, b: Seq<char>, i: nat, j: nat)
    requires
        i <= a.len(),
        j <= b.len(),
    ensures
        edits(a, b, i, j) == 0 <==> a.subrange(0, i as int) == b.subrange(0, j as int),
    decreases i + j,
{
    let p = a.subrange(0, i as int);
    let q = b.subrange(0, j as int);
    if i == 0 || j == 0 {
        if i == j {
            assert(p =~= q);
        } else {
            assert(p.len() != q.len());
        }
    } else {
        let p1 = a.subrange(0, i - 1);
        let q1 = b.subrange(0, j - 1);
        lemma_edits_zero(a, b, (i - 1) as nat, (j - 1) as nat);
        assert(p.drop_last() =~= p1);
        assert(q.drop_last() =~= q1);
        if p == q {
            assert(a[i - 1] == p.last() && b[j - 1] == q.last());
            assert(p1 == q1);
        } else if p1 == q1 && a[i - 1] == b[j - 1] {
            assert(p =~= p1.push(a[i - 1]));
            assert(q =~= q1.push(b[j - 1]));
        }
    }
}

/// The edit distance is zero exactly between equal texts.
pub proof fn law_distance_zero(a: Seq<char>, b: Seq<char>)
    ensures
        edit_distance(a, b) == 0 <==> a == b,
{
    lemma_edits_zero(a, b, a.len(), b.len());
    assert(a.subrange(0, a.len() as int) =~= a);
    assert(b.subrange(0, b.len() as int) =~= b);
}

/// Edits can be undone one by one.
proof fn lemma_edits_symmetric(a: Seq<char>, b: Seq<char>, i: nat, j: nat)
    ensures
        edits(a, b, i, j) == edits(b, a, j, i),
    decreases i + j,
{
    if i > 0 && j > 0 {
        lemma_edits_symmetric(a, b, i, (j - 1) as nat);
        lemma_edits_symmetric(a, b, (i - 1) as nat, j);
        lemma_edits_symmetric(a, b, (i - 1) as nat, (j - 1) as nat);
    }
}

/// The edit distance is the same in both directions.
pub proof fn law_distance_symmetric(a: Seq<char>, b: Seq<char>)
    ensures
        edit_distance(a, b) == edit_distance(b, a),
{
    lemma_edits_symmetric(a, b, a.len(), b.len());
}

fn smallest(x: usize, y: usize, z: usize) -> (r: usize)
    ensures
        r == least(x as nat, y as nat, z as nat),
{
    if x <= y && x <= z {
        x
    } else if y <= z {
        y
    } else {
        z
    }
}

/// Computes the edit distance with two rows of the table of prefixes.
pub fn levenshtein(a: &Vec<char>, b: &Vec<char>) -> (r: usize)
    ensures
        r == edit_distance(a@, b@),
{
    let m: usize = a.len();
    let n: usize = b.len();
    if m == 0 {
        return n;
    }
    if n == 0 {
        return m;
    }
    // `prev[j]` is the distance from the first `i` characters of `a`.
    let mut prev: Vec<usize> = Vec::new();
    let mut k: usize = 0;
    prev.push(0);
    while k < n
        invariant
            k <= n == b@.len(),
            prev@.len() == k + 1,
            forall|j: int| 0 <= j <= k ==> #[trigger] prev@[j] == edits(a@, b@, 0, j as nat),
        decreases n - k,
    {
        k += 1;
        prev.push(k);
    }
    let mut i: usize = 0;
    while i < m
        invariant
            i <= m == a@.len(),
            n == b@.len(),
            prev@.len() == n + 1,
            forall|j: int|
                0 <= j <= n ==> #[trigger] prev@[j] == edits(a@, b@, i as nat, j as nat),
        decreases m - i,
    {
        let ghost row = (i + 1) as nat;
        let mut curr: Vec<usize> = Vec::new();
        curr.push(i + 1);
        let mut j: usize = 0;
        while j < n
            invariant
                i < m == a@.len(),
                row == i + 1,
                j <= n == b@.len(),
                prev@.len() == n + 1,
                curr@.len() == j + 1,
                forall|l: int|
                    0 <= l <= n ==> #[trigger] prev@[l] == edits(a@, b@, i as nat, l as nat),
                forall|l: int| 0 <= l <= j ==> #[trigger] curr@[l] == edits(a@, b@, row, l as nat),
            decreases n - j,
        {
            let cost: usize = if a[i] == b[j] {
                0
            } else {
                1
            };
            proof {
                lemma_edits_bounds(a@, b@, row, (j + 1) as nat);
                assert(curr@[j as int] == edits(a@, b@, row, j as nat));
                assert(prev@[j + 1] == edits(a@, b@, i as nat, (j + 1) as nat));
                assert(prev@[j as int] == edits(a@, b@, i as nat, j as nat));
            }
            // A sum that would not fit is never the smallest of the three.
            let best: usize = smallest(
                curr[j].saturating_add(1),
                prev[j + 1].saturating_add(1),
                prev[j].saturating_add(cost),
            );
            curr.push(best);
            j += 1;
        }
        prev = curr;
        i += 1;
    }
    prev[n]
}

/// Whether `a` comes before `b` in the order of characters.
pub open spec fn text_before(a: Seq<char>, b: Seq<char>) -> bool
    decreases b.len(),
{
    if b.len() == 0 {
        false
    } else if a.len() == 0 {
        true
    } else if a[0] != b[0] {
        a[0] < b[0]
    } else {
        text_before(a.subrange(1, a.len() as int), b.subrange(1, b.len() as int))
    }
}

/// Whether `a` comes before `b` in the order of characters.
pub fn comes_before(a: &Vec<char>, b: &Vec<char>) -> (r: bool)
    ensures
        r == text_before(a@, b@),
{
    let mut i: usize = 0;
    assert(a@.subrange(0, a@.len() as int) =~= a@);
    assert(b@.subrange(0, b@.len() as int) =~= b@);
    while i < a.len() && i < b.len()
        invariant
            i <= a@.len(),
            i <= b@.len(),
            text_before(a@, b@) == text_before(
                a@.subrange(i as int, a@.len() as int),
                b@.subrange(i as int, b@.len() as int),
            ),
        decreases a@.len() - i,
    {
        let ghost p = a@.subrange(i as int, a@.len() as int);
        let ghost q = b@.subrange(i as int, b@.len() as int);
        assert(p.subrange(1, p.len() as int) =~= a@.subrange(i + 1, a@.len() as int));
        assert(q.subrange(1, q.len() as int) =~= b@.subrange(i + 1, b@.len() as int));
        if a[i] != b[i] {
            return a[i] < b[i];
        }
        i += 1;
    }
    i < b.len()
}

/// A candidate with its distance.
pub open spec fn ranks_before(x: (nat, Seq<char>), y: (nat, Seq<char>)) -> bool {
    x.0 < y.0 || (x.0 == y.0 && text_before(x.1, y.1))
}

/// `list` with `item` put in front of the first entry that ranks behind it.
pub open spec fn ranked_in(
    list: Seq<(nat, Seq<char>)>,
    item: (nat, Seq<char>),
) -> Seq<(nat, Seq<char>)>
    decreases list.len(),
{
    if list.len() == 0 {
        seq![item]
    } else if ranks_before(item, list[0]) {
        seq![item] + list
    } else {
        seq![list[0]] + ranked_in(list.subrange(1, list.len() as int), item)
    }
}

/// The candidates at most two edits away from `missing`, nearest first, and in
/// the order of characters where the distance is the same.
pub open spec fn ranked(missing: Seq<char>, candidates: Seq<Seq<char>>) -> Seq<(nat, Seq<char>)>
    decreases candidates.len(),
{
    if candidates.len() == 0 {
        Seq::empty()
    } else {
        let before = ranked(missing, candidates.drop_last());
        let d = edit_distance(missing, candidates.last());
        if d <= 2 {
            ranked_in(before, (d, candidates.last()))
        } else {
            before
        }
    }
}

/// The first three of the ranked candidates.
pub open spec fn suggestions(missing: Seq<char>, candidates: Seq<Seq<char>>) -> Seq<Seq<char>> {
    let list = ranked(missing, candidates);
    Seq::new(
        if list.len() < 3 {
            list.len()
        } else {
            3
        },
        |i: int| list[i].1,
    )
}

/// Whether nothing in `list` ranks before what stands in front of it.
pub open spec fn in_rank_order(list: Seq<(nat, Seq<char>)>) -> bool {
    forall|i: int, j: int|
        0 <= i < j < list.len() ==> !ranks_before(#[trigger] list[j], #[trigger] list[i])
}

/// The order of texts is transitive.
proof fn lemma_text_before_transitive(a: Seq<char>, b: Seq<char>, c: Seq<char>)
    requires
        !text_before(b, a),
        !text_before(c, b),
    ensures
        !text_before(c, a),
    decreases c.len(),
{
    if a.len() > 0 && b.len() > 0 && c.len() > 0 && a[0] == b[0] && b[0] == c[0] {
        lemma_text_before_transitive(
            a.subrange(1, a.len() as int),
            b.subrange(1, b.len() as int),
            c.subrange(1, c.len() as int),
        );
    }
}

/// Two texts never come before each other.
pub proof fn lemma_text_before_one_way(a: Seq<char>, b: Seq<char>)
    requires
        text_before(a, b),
    ensures
        !text_before(b, a),
    decreases b.len(),
{
    if a.len() > 0 && b.len() > 0 && a[0] == b[0] {
        lemma_text_before_one_way(a.subrange(1, a.len() as int), b.subrange(1, b.len() as int));
    }
}

/// Putting an item in keeps the order, and adds that item only.
proof fn lemma_ranked_in(list: Seq<(nat, Seq<char>)>, item: (nat, Seq<char>))
    requires
        in_rank_order(list),
    ensures
        in_rank_order(ranked_in(list, item)),
        ranked_in(list, item).len() == list.len() + 1,
        forall|k: int|
            0 <= k < ranked_in(list, item).len() ==> (#[trigger] ranked_in(list, item)[k] == item
                || list.contains(ranked_in(list, item)[k])),
    decreases list.len(),
{
    if list.len() == 0 {
    } else if ranks_before(item, list[0]) {
        let r = ranked_in(list, item);
        assert(r =~= seq![item] + list);
        assert forall|i: int, j: int| 0 <= i < j < r.len() implies !ranks_before(
            #[trigger] r[j],
            #[trigger] r[i],
        ) by {
            assert(r[j] == list[j - 1]);
            if i > 0 {
                assert(r[i] == list[i - 1]);
            } else {
                if ranks_before(list[j - 1], item) {
                    if j - 1 == 0 {
                        if item.0 == list[0].0 {
                            lemma_text_before_one_way(item.1, list[0].1);
                        }
                    } else {
                        assert(!ranks_before(list[j - 1], list[0]));
                        if list[j - 1].0 == list[0].0 && item.0 == list[0].0 {
                            lemma_text_before_one_way(item.1, list[0].1);
                            lemma_text_before_transitive(item.1, list[0].1, list[j - 1].1);
                        }
                    }
                }
            }
        }
        assert forall|k: int| 0 <= k < r.len() implies (#[trigger] r[k] == item || list.contains(
            r[k],
        )) by {
            if k > 0 {
                assert(r[k] == list[k - 1]);
            }
        }
    } else {
        let rest = list.subrange(1, list.len() as int);
        assert forall|i: int, j: int| 0 <= i < j < rest.len() implies !ranks_before(
            #[trigger] rest[j],
            #[trigger] rest[i],
        ) by {
            assert(rest[i] == list[i + 1]);
            assert(rest[j] == list[j + 1]);
        }
        lemma_ranked_in(rest, item);
        let tail = ranked_in(rest, item);
        let r = ranked_in(list, item);
        assert(r =~= seq![list[0]] + tail);
        assert forall|k: int| 0 <= k < r.len() implies (#[trigger] r[k] == item || list.contains(
            r[k],
        )) by {
            if k == 0 {
                assert(list.contains(list[0]));
            } else {
                assert(r[k] == tail[k - 1]);
                if tail[k - 1] != item {
                    let w = choose|w: int| 0 <= w < rest.len() && rest[w] == tail[k - 1];
                    assert(list[w + 1] == r[k]);
                }
            }
        }
        assert forall|i: int, j: int| 0 <= i < j < r.len() implies !ranks_before(
            #[trigger] r[j],
            #[trigger] r[i],
        ) by {
            assert(r[j] == tail[j - 1]);
            if i > 0 {
                assert(r[i] == tail[i - 1]);
            } else if tail[j - 1] != item {
                assert(rest.contains(tail[j - 1]));
                let w = choose|w: int| 0 <= w < rest.len() && rest[w] == tail[j - 1];
                assert(rest[w] == list[w + 1]);
            }
        }
    }
}

/// Whether `x` is a candidate at a distance of at most two.
pub open spec fn is_close(x: (nat, Seq<char>), missing: Seq<char>, candidates: Seq<Seq<char>>) -> bool {
    &&& candidates.contains(x.1)
    &&& x.0 == edit_distance(missing, x.1)
    &&& x.0 <= 2
}

/// The ranked candidates are close, and in rank order.
pub proof fn lemma_ranked(missing: Seq<char>, candidates: Seq<Seq<char>>)
    ensures
        in_rank_order(ranked(missing, candidates)),
        forall|k: int|
            0 <= k < ranked(missing, candidates).len() ==> is_close(
                #[trigger] ranked(missing, candidates)[k],
                missing,
                candidates,
            ),
    decreases candidates.len(),
{
    if candidates.len() > 0 {
        let front = candidates.drop_last();
        let last = candidates.last();
        lemma_ranked(missing, front);
        let before = ranked(missing, front);
        let d = edit_distance(missing, last);
        let r = ranked(missing, candidates);
        if d <= 2 {
            lemma_ranked_in(before, (d, last));
        }
        assert forall|k: int| 0 <= k < r.len() implies is_close(
            #[trigger] r[k],
            missing,
            candidates,
        ) by {
            if d <= 2 && r[k] == (d, last) {
                assert(candidates[candidates.len() - 1] == last);
            } else {
                assert(before.contains(r[k]));
                let w = choose|w: int| 0 <= w < before.len() && before[w] == r[k];
                assert(is_close(before[w], missing, front));
                let v = choose|v: int| 0 <= v < front.len() && front[v] == r[k].1;
                assert(candidates[v] == r[k].1);
            }
        }
    }
}

/// At most three keys are suggested; each is a candidate at most two edits
/// away; nearer ones come first, and equally near ones in the order of
/// characters.
pub proof fn law_suggestions(missing: Seq<char>, candidates: Seq<Seq<char>>)
    ensures
        suggestions(missing, candidates).len() <= 3,
        forall|k: int|
            0 <= k < suggestions(missing, candidates).len() ==> candidates.contains(
                #[trigger] suggestions(missing, candidates)[k],
            ) && edit_distance(missing, suggestions(missing, candidates)[k]) <= 2,
        forall|i: int, j: int|
            0 <= i < j < suggestions(missing, candidates).len() ==> !ranks_before(
                (
                    edit_distance(missing, #[trigger] suggestions(missing, candidates)[j]),
                    suggestions(missing, candidates)[j],
                ),
                (
                    edit_distance(missing, #[trigger] suggestions(missing, candidates)[i]),
                    suggestions(missing, candidates)[i],
                ),
            ),
{
    lemma_ranked(missing, candidates);
    let list = ranked(missing, candidates);
    let s = suggestions(missing, candidates);
    assert forall|k: int| 0 <= k < s.len() implies candidates.contains(#[trigger] s[k])
        && edit_distance(missing, s[k]) <= 2 by {
        assert(is_close(list[k], missing, candidates));
    }
    assert forall|i: int, j: int| 0 <= i < j < s.len() implies !ranks_before(
        (edit_distance(missing, #[trigger] s[j]), s[j]),
        (edit_distance(missing, #[trigger] s[i]), s[i]),
    ) by {
        assert(is_close(list[i], missing, candidates));
        assert(is_close(list[j], missing, candidates));
        assert(!ranks_before(list[j], list[i]));
    }
}

/// The texts of a slice of strings.
pub open spec fn names(s: Seq<&str>) -> Seq<Seq<char>> {
    Seq::new(s.len(), |i: int| s[i]@)
}

/// The models of scored candidates.
pub open spec fn scores(s: Seq<(usize, Vec<char>)>) -> Seq<(nat, Seq<char>)> {
    Seq::new(s.len(), |i: int| (s[i].0 as nat, s[i].1@))
}

/// Where the first entry stands that ranks behind the item, it is put.
proof fn lemma_ranked_in_at(list: Seq<(nat, Seq<char>)>, item: (nat, Seq<char>), at: int)
    requires
        0 <= at <= list.len(),
        forall|k: int| 0 <= k < at ==> !ranks_before(item, #[trigger] list[k]),
        at < list.len() ==> ranks_before(item, list[at]),
    ensures
        ranked_in(list, item) == list.insert(at, item),
    decreases list.len(),
{
    if list.len() == 0 {
        assert(ranked_in(list, item) =~= list.insert(at, item));
    } else if at == 0 {
        assert(ranked_in(list, item) =~= list.insert(at, item));
    } else {
        let rest = list.subrange(1, list.len() as int);
        assert(!ranks_before(item, list[0]));
        assert forall|k: int| 0 <= k < at - 1 implies !ranks_before(item, #[trigger] rest[k]) by {
            assert(rest[k] == list[k + 1]);
        }
        lemma_ranked_in_at(rest, item, at - 1);
        assert(ranked_in(list, item) =~= list.insert(at, item));
    }
}

/// Suggests up to three of `candidates` at most two edits away from `missing`.
pub fn did_you_mean(missing: &str, candidates: &[&str]) -> (r: Vec<String>)
    ensures
        texts(r@) == suggestions(missing@, names(candidates@)),
{
    let wanted: Vec<char> = chars_of(missing);
    let ghost all = names(candidates@);
    let mut scored: Vec<(usize, Vec<char>)> = Vec::new();
    let mut i: usize = 0;
    assert(all.subrange(0, 0) =~= Seq::<Seq<char>>::empty());
    assert(scores(scored@) =~= ranked(missing@, all.subrange(0, 0)));
    while i < candidates.len()
        invariant
            wanted@ == missing@,
            all == names(candidates@),
            i <= candidates@.len(),
            scores(scored@) == ranked(missing@, all.subrange(0, i as int)),
        decreases candidates@.len() - i,
    {
        let ghost longer = all.subrange(0, i + 1);
        assert(longer.drop_last() =~= all.subrange(0, i as int));
        let key: Vec<char> = chars_of(candidates[i]);
        assert(longer.last() == key@);
        let d: usize = levenshtein(&wanted, &key);
        if d <= 2 {
            let ghost item = (d as nat, key@);
            let ghost list = scores(scored@);
            let mut at: usize = 0;
            while at < scored.len() && !(d < scored[at].0 || (d == scored[at].0 && comes_before(
                &key,
                &scored[at].1,
            )))
                invariant
                    at <= scored@.len(),
                    list == scores(scored@),
                    item == (d as nat, key@),
                    forall|k: int| 0 <= k < at ==> !ranks_before(item, #[trigger] list[k]),
                decreases scored@.len() - at,
            {
                at += 1;
            }
            proof {
                lemma_ranked_in_at(list, item, at as int);
            }
            scored.insert(at, (d, key));
            assert(scores(scored@) =~= list.insert(at as int, item));
        }
        i += 1;
    }
    assert(all.subrange(0, all.len() as int) =~= all);
    let mut out: Vec<String> = Vec::new();
    let mut k: usize = 0;
    while k < scored.len() && k < 3
        invariant
            k <= 3,
            k <= scored@.len(),
            out@.len() == k,
            forall|l: int| 0 <= l < k ==> (#[trigger] out@[l])@ == scored@[l].1@,
        decreases scored@.len() - k,
    {
        out.push(text_of(&scored[k].1));
        k += 1;
    }
    assert(texts(out@) =~= suggestions(missing@, all));
    out
}

} // verus!
