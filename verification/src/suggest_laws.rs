//! What the edit distance measures, and what is suggested by it.

use crate::suggest::{
    edit_distance, edits, in_rank_order, is_close, law_distance_symmetric, law_distance_zero,
    lemma_edits_bounds, lemma_ranked, ranked, ranked_in, ranks_before, suggestions,
};
use vstd::prelude::*;

verus! {

// ---------------------------------------------------------------------------
// The distance
// ---------------------------------------------------------------------------

/// The distance is at least the difference of the lengths and at most the
/// greater of them.
pub proof fn law_distance_bounds(a: Seq<char>, b: Seq<char>)
    ensures
        edit_distance(a, b) >= a.len() - b.len(),
        edit_distance(a, b) >= b.len() - a.len(),
        edit_distance(a, b) <= a.len() || edit_distance(a, b) <= b.len(),
{
    lemma_edits_bounds(a, b, a.len(), b.len());
}

proof fn lemma_triangle(a: Seq<char>, b: Seq<char>, c: Seq<char>, i: nat, j: nat, k: nat)
    ensures
        edits(a, c, i, k) <= edits(a, b, i, j) + edits(b, c, j, k),
    decreases i + j + k,
{
    lemma_edits_bounds(a, b, i, j);
    lemma_edits_bounds(b, c, j, k);
    lemma_edits_bounds(a, c, i, k);
    if i > 0 && j > 0 && k > 0 {
        let i1 = (i - 1) as nat;
        let j1 = (j - 1) as nat;
        let k1 = (k - 1) as nat;
        lemma_triangle(a, b, c, i1, j, k);
        lemma_triangle(a, b, c, i, j, k1);
        lemma_triangle(a, b, c, i, j1, k);
        lemma_triangle(a, b, c, i, j1, k1);
        lemma_triangle(a, b, c, i1, j1, k);
        lemma_triangle(a, b, c, i1, j1, k1);
    }
}

/// No detour is shorter: the distance between two texts is at most the sum of
/// their distances from a third.
pub proof fn law_distance_triangle(a: Seq<char>, b: Seq<char>, c: Seq<char>)
    ensures
        edit_distance(a, c) <= edit_distance(a, b) + edit_distance(b, c),
{
    lemma_triangle(a, b, c, a.len(), b.len(), c.len());
}

/// Whether `y` is `x` with one character put in at `k`.
pub open spec fn gains_at(x: Seq<char>, y: Seq<char>, k: int) -> bool {
    0 <= k <= x.len() && y.len() == x.len() + 1 && y == x.insert(k, y[k])
}

/// Whether `y` is `x` with the character at `k` replaced.
pub open spec fn swaps_at(x: Seq<char>, y: Seq<char>, k: int) -> bool {
    0 <= k < x.len() && y.len() == x.len() && y == x.update(k, y[k])
}

/// Whether `y` is `x` with one character put in, taken out or replaced at `k`.
pub open spec fn edited_at(x: Seq<char>, y: Seq<char>, k: int) -> bool {
    gains_at(x, y, k) || gains_at(y, x, k) || swaps_at(x, y, k)
}

/// Whether one character put in, taken out or replaced leads from `x` to `y`.
pub open spec fn one_edit(x: Seq<char>, y: Seq<char>) -> bool {
    exists|k: int| edited_at(x, y, k)
}

/// Whether `n` edits of one character each lead from `a` to `b`.
pub open spec fn leads(a: Seq<char>, b: Seq<char>, n: nat) -> bool
    decreases n,
{
    if n == 0 {
        a == b
    } else {
        exists|c: Seq<char>| #[trigger] one_edit(a, c) && leads(c, b, (n - 1) as nat)
    }
}

/// Characters that are the same on both sides cost nothing.
proof fn lemma_shared(a: Seq<char>, b: Seq<char>, i: nat, j: nat, n: nat)
    requires
        i + n <= a.len(),
        j + n <= b.len(),
        forall|k: int| 0 <= k < n ==> #[trigger] a[i + k] == b[j + k],
    ensures
        edits(a, b, i + n, j + n) <= edits(a, b, i, j),
    decreases n,
{
    if n > 0 {
        lemma_shared(a, b, i, j, (n - 1) as nat);
        assert(a[i + (n - 1)] == b[j + (n - 1)]);
    }
}

proof fn lemma_gain(x: Seq<char>, y: Seq<char>, k: int)
    requires
        gains_at(x, y, k),
    ensures
        edit_distance(x, y) <= 1,
{
    assert forall|l: int| 0 <= l < k implies #[trigger] x[0 + l] == y[0 + l] by {}
    lemma_shared(x, y, 0, 0, k as nat);
    lemma_edits_bounds(x, y, k as nat, (k + 1) as nat);
    assert(edits(x, y, k as nat, (k + 1) as nat) <= 1);
    let n = (x.len() - k) as nat;
    assert forall|l: int| 0 <= l < n implies #[trigger] x[k + l] == y[k + 1 + l] by {}
    lemma_shared(x, y, k as nat, (k + 1) as nat, n);
}

proof fn lemma_swap(x: Seq<char>, y: Seq<char>, k: int)
    requires
        swaps_at(x, y, k),
    ensures
        edit_distance(x, y) <= 1,
{
    assert forall|l: int| 0 <= l < k implies #[trigger] x[0 + l] == y[0 + l] by {}
    lemma_shared(x, y, 0, 0, k as nat);
    assert(edits(x, y, (k + 1) as nat, (k + 1) as nat) <= 1);
    let n = (x.len() - k - 1) as nat;
    assert forall|l: int| 0 <= l < n implies #[trigger] x[k + 1 + l] == y[k + 1 + l] by {}
    lemma_shared(x, y, (k + 1) as nat, (k + 1) as nat, n);
}

/// One edit is a distance of at most one.
pub proof fn law_one_edit_is_near(x: Seq<char>, y: Seq<char>)
    requires
        one_edit(x, y),
    ensures
        edit_distance(x, y) <= 1,
{
    let k = choose|k: int| edited_at(x, y, k);
    if gains_at(x, y, k) {
        lemma_gain(x, y, k);
    } else if gains_at(y, x, k) {
        lemma_gain(y, x, k);
        law_distance_symmetric(x, y);
    } else {
        lemma_swap(x, y, k);
    }
}

/// Fewer edits than the distance do not lead from one text to the other.
pub proof fn law_distance_is_least(a: Seq<char>, b: Seq<char>, n: nat)
    requires
        leads(a, b, n),
    ensures
        edit_distance(a, b) <= n,
    decreases n,
{
    if n == 0 {
        law_distance_zero(a, b);
    } else {
        let c = choose|c: Seq<char>| #[trigger] one_edit(a, c) && leads(c, b, (n - 1) as nat);
        law_one_edit_is_near(a, c);
        law_distance_is_least(c, b, (n - 1) as nat);
        law_distance_triangle(a, c, b);
    }
}

proof fn lemma_leads_on(a: Seq<char>, b: Seq<char>, c: Seq<char>, n: nat)
    requires
        leads(a, b, n),
        one_edit(b, c),
    ensures
        leads(a, c, n + 1),
    decreases n,
{
    if n == 0 {
        assert(leads(c, c, 0));
        assert(one_edit(a, c) && leads(c, c, (n + 1 - 1) as nat));
    } else {
        let d = choose|d: Seq<char>| #[trigger] one_edit(a, d) && leads(d, b, (n - 1) as nat);
        lemma_leads_on(d, b, c, (n - 1) as nat);
        assert(one_edit(a, d) && leads(d, c, (n + 1 - 1) as nat));
    }
}

proof fn lemma_one_edit_pushed(x: Seq<char>, y: Seq<char>, c: char)
    requires
        one_edit(x, y),
    ensures
        one_edit(x.push(c), y.push(c)),
{
    let k = choose|k: int| edited_at(x, y, k);
    if gains_at(x, y, k) {
        assert(y.push(c) =~= x.push(c).insert(k, y[k]));
    } else if gains_at(y, x, k) {
        assert(x.push(c) =~= y.push(c).insert(k, x[k]));
    } else {
        assert(y.push(c) =~= x.push(c).update(k, y[k]));
    }
    assert(edited_at(x.push(c), y.push(c), k));
}

proof fn lemma_leads_pushed(a: Seq<char>, b: Seq<char>, n: nat, c: char)
    requires
        leads(a, b, n),
    ensures
        leads(a.push(c), b.push(c), n),
    decreases n,
{
    if n > 0 {
        let d = choose|d: Seq<char>| #[trigger] one_edit(a, d) && leads(d, b, (n - 1) as nat);
        lemma_one_edit_pushed(a, d, c);
        lemma_leads_pushed(d, b, (n - 1) as nat, c);
    }
}

proof fn lemma_leads(a: Seq<char>, b: Seq<char>, i: nat, j: nat)
    requires
        i <= a.len(),
        j <= b.len(),
    ensures
        leads(a.subrange(0, i as int), b.subrange(0, j as int), edits(a, b, i, j)),
    decreases i + j,
{
    let x = a.subrange(0, i as int);
    let y = b.subrange(0, j as int);
    let n = edits(a, b, i, j);
    if i == 0 && j == 0 {
        assert(x =~= y);
    } else {
        let x1 = a.subrange(0, i - 1);
        let y1 = b.subrange(0, j - 1);
        if j > 0 && n == edits(a, b, i, (j - 1) as nat) + 1 {
            lemma_leads(a, b, i, (j - 1) as nat);
            assert(y =~= y1.insert(j - 1, y[j - 1]));
            assert(edited_at(y1, y, j - 1));
            lemma_leads_on(x, y1, y, edits(a, b, i, (j - 1) as nat));
        } else if i > 0 && n == edits(a, b, (i - 1) as nat, j) + 1 {
            lemma_leads(a, b, (i - 1) as nat, j);
            assert(x =~= x1.insert(i - 1, x[i - 1]));
            assert(edited_at(x, x1, i - 1));
            assert(one_edit(x, x1) && leads(x1, y, (n - 1) as nat));
        } else {
            let before = edits(a, b, (i - 1) as nat, (j - 1) as nat);
            lemma_leads(a, b, (i - 1) as nat, (j - 1) as nat);
            let c = a[i - 1];
            lemma_leads_pushed(x1, y1, before, c);
            assert(x =~= x1.push(c));
            if c == b[j - 1] {
                assert(y =~= y1.push(c));
            } else {
                assert(y =~= y1.push(c).update(j - 1, y[j - 1]));
                assert(edited_at(y1.push(c), y, j - 1));
                lemma_leads_on(x, y1.push(c), y, before);
            }
        }
    }
}

/// As many edits as the distance says lead from one text to the other.
pub proof fn law_distance_is_reached(a: Seq<char>, b: Seq<char>)
    ensures
        leads(a, b, edit_distance(a, b)),
{
    lemma_leads(a, b, a.len(), b.len());
    assert(a.subrange(0, a.len() as int) =~= a);
    assert(b.subrange(0, b.len() as int) =~= b);
}

// ---------------------------------------------------------------------------
// The suggestions
// ---------------------------------------------------------------------------

/// The candidates at most two edits away from `missing`, with their distance, in
/// the order given.
pub open spec fn close_ones(missing: Seq<char>, candidates: Seq<Seq<char>>) -> Seq<
    (nat, Seq<char>),
>
    decreases candidates.len(),
{
    if candidates.len() == 0 {
        Seq::empty()
    } else {
        let before = close_ones(missing, candidates.drop_last());
        let d = edit_distance(missing, candidates.last());
        if d <= 2 {
            before.push((d, candidates.last()))
        } else {
            before
        }
    }
}

proof fn lemma_ranked_in_adds(list: Seq<(nat, Seq<char>)>, item: (nat, Seq<char>))
    ensures
        exists|at: int| 0 <= at <= list.len() && ranked_in(list, item) == list.insert(at, item),
    decreases list.len(),
{
    if list.len() == 0 || ranks_before(item, list[0]) {
        assert(ranked_in(list, item) =~= list.insert(0, item));
    } else {
        let rest = list.subrange(1, list.len() as int);
        lemma_ranked_in_adds(rest, item);
        let at = choose|at: int|
            0 <= at <= rest.len() && ranked_in(rest, item) == rest.insert(at, item);
        assert(ranked_in(list, item) =~= list.insert(at + 1, item));
    }
}

/// The ranking is the close candidates, each as often as it is given, sorted by
/// distance and then by the order of characters.
pub proof fn law_ranking_sorts_the_close_candidates(
    missing: Seq<char>,
    candidates: Seq<Seq<char>>,
)
    ensures
        in_rank_order(ranked(missing, candidates)),
        ranked(missing, candidates).to_multiset() == close_ones(missing, candidates).to_multiset(),
    decreases candidates.len(),
{
    broadcast use vstd::seq_lib::group_to_multiset_ensures;

    lemma_ranked(missing, candidates);
    if candidates.len() > 0 {
        let front = candidates.drop_last();
        law_ranking_sorts_the_close_candidates(missing, front);
        let d = edit_distance(missing, candidates.last());
        if d <= 2 {
            let item = (d, candidates.last());
            let list = ranked(missing, front);
            lemma_ranked_in_adds(list, item);
            let at = choose|at: int|
                0 <= at <= list.len() && ranked_in(list, item) == list.insert(at, item);
            let after = list.insert(at, item);
            assert(after.remove(at) =~= list);
            assert(after[at] == item);
            assert(after.contains(item));
            assert(after.to_multiset() =~= list.to_multiset().insert(item));
        }
    }
}

proof fn lemma_close_ones(missing: Seq<char>, candidates: Seq<Seq<char>>, w: int)
    requires
        0 <= w < candidates.len(),
        edit_distance(missing, candidates[w]) <= 2,
    ensures
        close_ones(missing, candidates).contains(
            (edit_distance(missing, candidates[w]), candidates[w]),
        ),
    decreases candidates.len(),
{
    let item = (edit_distance(missing, candidates[w]), candidates[w]);
    let all = close_ones(missing, candidates);
    let before = close_ones(missing, candidates.drop_last());
    if w == candidates.len() - 1 {
        assert(all[all.len() - 1] == item);
    } else {
        lemma_close_ones(missing, candidates.drop_last(), w);
        let k = choose|k: int| 0 <= k < before.len() && before[k] == item;
        assert(all[k] == item);
    }
}

/// A close candidate that is not suggested ranks before none of the three that
/// are.
pub proof fn law_no_better_candidate_is_left_out(
    missing: Seq<char>,
    candidates: Seq<Seq<char>>,
    w: int,
)
    requires
        0 <= w < candidates.len(),
        edit_distance(missing, candidates[w]) <= 2,
    ensures
        ({
            let chosen = suggestions(missing, candidates);
            chosen.contains(candidates[w]) || (chosen.len() == 3 && forall|k: int|
                0 <= k < 3 ==> !ranks_before(
                    (edit_distance(missing, candidates[w]), candidates[w]),
                    (edit_distance(missing, #[trigger] chosen[k]), chosen[k]),
                ))
        }),
{
    broadcast use vstd::seq_lib::group_to_multiset_ensures;

    let item = (edit_distance(missing, candidates[w]), candidates[w]);
    let list = ranked(missing, candidates);
    let chosen = suggestions(missing, candidates);
    law_ranking_sorts_the_close_candidates(missing, candidates);
    lemma_close_ones(missing, candidates, w);
    lemma_ranked(missing, candidates);
    assert(close_ones(missing, candidates).to_multiset().count(item) > 0);
    assert(list.contains(item));
    let p = choose|p: int| 0 <= p < list.len() && list[p] == item;
    if p < 3 {
        assert(chosen[p] == candidates[w]);
    } else {
        assert forall|k: int| 0 <= k < 3 implies !ranks_before(
            item,
            (edit_distance(missing, #[trigger] chosen[k]), chosen[k]),
        ) by {
            assert(is_close(list[k], missing, candidates));
            assert(!ranks_before(list[p], list[k]));
        }
    }
}

} // verus!
