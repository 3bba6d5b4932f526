//! The nodes of a JSON value level by level.

use crate::numbers::{is_digit, parsed_int, signed_decimal};
use crate::parsers::json_spelling::{is_big_literal, is_spelled};
use crate::parsers::tokens::{
    held_from, number_tree, planted, planted_items, planted_table, planted_tree, NumberRule,
    TokenModel,
};
use crate::value::{has_key, key_index, lemma_key_index, unique_keys, Tree};
use crate::write_laws::law_integer_reads_back;
use vstd::prelude::*;

verus! {

/// The node of a value by itself.
pub open spec fn node_token(t: Tree) -> TokenModel {
    match t {
        Tree::Null => TokenModel::Blank,
        Tree::Bool(b) => TokenModel::Truth(b),
        Tree::Int(n) => TokenModel::Numeral(signed_decimal(n)),
        Tree::BigInt(s) | Tree::BigFloat(s) | Tree::Float(s) => TokenModel::Numeral(s),
        Tree::String(s) => TokenModel::Words(s),
        Tree::Array(items) => TokenModel::List(items.len()),
        Tree::Object(entries) => TokenModel::Table(
            Seq::new(entries.len(), |i: int| entries[i].0),
        ),
    }
}

/// The values that a value holds.
pub open spec fn held_values(t: Tree) -> Seq<Tree> {
    match t {
        Tree::Array(items) => items,
        Tree::Object(entries) => Seq::new(entries.len(), |i: int| entries[i].1),
        _ => Seq::empty(),
    }
}

/// How many values there are in a value, itself included.
pub open spec fn size(t: Tree) -> nat
    decreases t, 0nat,
{
    match t {
        Tree::Array(items) => 1 + sizes(items, items.len()),
        Tree::Object(entries) => 1 + entry_sizes(entries, entries.len()),
        _ => 1,
    }
}

/// How many values there are in the first `k` values.
pub open spec fn sizes(values: Seq<Tree>, k: nat) -> nat
    decreases values, k,
{
    if k == 0 || k > values.len() {
        0
    } else {
        sizes(values, (k - 1) as nat) + size(values[k - 1])
    }
}

/// How many values there are in the first `k` entries.
pub open spec fn entry_sizes(entries: Seq<(Seq<char>, Tree)>, k: nat) -> nat
    decreases entries, k,
{
    if k == 0 || k > entries.len() {
        0
    } else {
        entry_sizes(entries, (k - 1) as nat) + size(entries[k - 1].1)
    }
}

/// The queue behind its first value, what that value holds joining at the end.
pub open spec fn moved_up(queue: Seq<Tree>) -> Seq<Tree> {
    queue.drop_first() + held_values(queue[0])
}

/// A queue of values and all that they hold, level by level.
pub open spec fn levels(queue: Seq<Tree>) -> Seq<Tree>
    decreases sizes(queue, queue.len()),
{
    if queue.len() == 0 {
        Seq::empty()
    } else {
        proof {
            lemma_moving_up(queue);
        }
        seq![queue[0]] + levels(moved_up(queue))
    }
}

/// The nodes of a value level by level.
pub open spec fn level_tokens(t: Tree) -> Seq<TokenModel> {
    let values = levels(seq![t]);
    Seq::new(values.len(), |i: int| node_token(values[i]))
}

proof fn lemma_sizes_agree(a: Seq<Tree>, b: Seq<Tree>, k: nat)
    requires
        k <= a.len(),
        k <= b.len(),
        forall|i: int| 0 <= i < k ==> #[trigger] a[i] == b[i],
    ensures
        sizes(a, k) == sizes(b, k),
    decreases k,
{
    if k > 0 {
        lemma_sizes_agree(a, b, (k - 1) as nat);
        assert(a[k - 1] == b[k - 1]);
    }
}

proof fn lemma_sizes_add(a: Seq<Tree>, b: Seq<Tree>, k: nat)
    requires
        k <= b.len(),
    ensures
        sizes(a + b, a.len() + k) == sizes(a, a.len()) + sizes(b, k),
    decreases k,
{
    if k == 0 {
        lemma_sizes_agree(a + b, a, a.len());
    } else {
        lemma_sizes_add(a, b, (k - 1) as nat);
        assert((a + b)[a.len() + k - 1] == b[k - 1]);
    }
}

proof fn lemma_entry_sizes(entries: Seq<(Seq<char>, Tree)>, k: nat)
    requires
        k <= entries.len(),
    ensures
        entry_sizes(entries, k) == sizes(held_values(Tree::Object(entries)), k),
    decreases k,
{
    if k > 0 {
        lemma_entry_sizes(entries, (k - 1) as nat);
        assert(held_values(Tree::Object(entries))[k - 1] == entries[k - 1].1);
    }
}

/// Moving a queue up leaves fewer values to come.
pub proof fn lemma_moving_up(queue: Seq<Tree>)
    requires
        queue.len() > 0,
    ensures
        sizes(moved_up(queue), moved_up(queue).len()) < sizes(queue, queue.len()),
{
    let first = queue[0];
    let rest = queue.drop_first();
    let held = held_values(first);
    assert(queue =~= seq![first] + rest);
    lemma_sizes_add(seq![first], rest, rest.len());
    assert(sizes(seq![first], 1) == size(first)) by {
        assert(sizes(seq![first], 0) == 0);
        assert(seq![first][0] == first);
    }
    lemma_sizes_add(rest, held, held.len());
    match first {
        Tree::Object(entries) => {
            lemma_entry_sizes(entries, entries.len());
        },
        _ => {},
    }
}

/// A queue stands at the front of its levels.
proof fn lemma_queue_first(queue: Seq<Tree>)
    ensures
        levels(queue).len() >= queue.len(),
        forall|i: int| 0 <= i < queue.len() ==> #[trigger] levels(queue)[i] == queue[i],
    decreases sizes(queue, queue.len()),
{
    if queue.len() > 0 {
        let next = moved_up(queue);
        lemma_moving_up(queue);
        lemma_queue_first(next);
        assert forall|i: int| 0 <= i < queue.len() implies #[trigger] levels(queue)[i]
            == queue[i] by {
            if i > 0 {
                assert(levels(queue)[i] == levels(next)[i - 1]);
                assert(next[i - 1] == queue[i]);
            }
        }
    }
}

/// How many values the first `i` values hold.
spec fn held_before(values: Seq<Tree>, i: int) -> int
    decreases i,
{
    if i <= 0 {
        0
    } else {
        held_before(values, i - 1) + held_values(values[i - 1]).len()
    }
}

proof fn lemma_held_behind(first: Tree, values: Seq<Tree>, i: int)
    requires
        0 <= i <= values.len(),
    ensures
        held_before(seq![first] + values, i + 1) == held_values(first).len() + held_before(
            values,
            i,
        ),
    decreases i,
{
    let all = seq![first] + values;
    if i == 0 {
        assert(held_before(all, 0) == 0);
        assert(all[0] == first);
    } else {
        lemma_held_behind(first, values, i - 1);
        assert(all[i] == values[i - 1]);
    }
}

/// What a value of the levels holds stands behind the queue and all that the
/// values before it hold.
proof fn lemma_held_place(queue: Seq<Tree>, i: int, k: int)
    requires
        0 <= i < levels(queue).len(),
        0 <= k < held_values(levels(queue)[i]).len(),
    ensures
        ({
            let at = queue.len() + held_before(levels(queue), i) + k;
            &&& i < at < levels(queue).len()
            &&& levels(queue)[at] == held_values(levels(queue)[i])[k]
        }),
    decreases sizes(queue, queue.len()),
{
    let next = moved_up(queue);
    let all = levels(queue);
    let behind = levels(next);
    let first = queue[0];
    assert(queue.len() > 0);
    lemma_moving_up(queue);
    lemma_queue_first(next);
    assert(all == seq![first] + behind);
    if i == 0 {
        let at = queue.len() + k;
        assert(held_before(all, 0) == 0);
        assert(next[at - 1] == held_values(first)[k]);
        assert(behind[at - 1] == next[at - 1]);
        assert(all[at] == behind[at - 1]);
    } else {
        assert(all[i] == behind[i - 1]);
        lemma_held_place(next, i - 1, k);
        lemma_held_behind(first, behind, i - 1);
        let at = next.len() + held_before(behind, i - 1) + k;
        assert(all[at + 1] == behind[at]);
    }
}

/// Whether `values` are a value and all that it holds, level by level, and
/// `tokens` are their nodes.
spec fn lists_levels(tokens: Seq<TokenModel>, values: Seq<Tree>, t: Tree) -> bool {
    &&& 0 < tokens.len() == values.len()
    &&& values[0] == t
    &&& forall|i: int| 0 <= i < values.len() ==> #[trigger] tokens[i] == node_token(values[i])
    &&& forall|i: int, k: int|
        0 <= i < values.len() && 0 <= k < held_values(values[i]).len() ==> #[trigger] is_held(
            tokens,
            values,
            i,
            k,
        )
}

/// Whether value `k` of those that value `i` holds stands where the tokens have
/// it.
spec fn is_held(tokens: Seq<TokenModel>, values: Seq<Tree>, i: int, k: int) -> bool {
    let at = held_from(tokens, i) + k;
    i < at < values.len() && values[at] == held_values(values[i])[k]
}

proof fn lemma_starts(values: Seq<Tree>, tokens: Seq<TokenModel>, i: int)
    requires
        tokens.len() == values.len(),
        forall|i: int| 0 <= i < values.len() ==> #[trigger] tokens[i] == node_token(values[i]),
        0 <= i <= values.len(),
    ensures
        held_from(tokens, i) == 1 + held_before(values, i),
    decreases i,
{
    if i > 0 {
        lemma_starts(values, tokens, i - 1);
        assert(tokens[i - 1] == node_token(values[i - 1]));
    }
}

proof fn lemma_lists_levels(t: Tree)
    ensures
        lists_levels(level_tokens(t), levels(seq![t]), t),
{
    let queue = seq![t];
    let values = levels(queue);
    let tokens = level_tokens(t);
    lemma_queue_first(queue);
    assert(values[0] == queue[0]);
    assert forall|i: int, k: int|
        0 <= i < values.len() && 0 <= k < held_values(values[i]).len() implies #[trigger] is_held(
        tokens,
        values,
        i,
        k,
    ) by {
        lemma_held_place(queue, i, k);
        lemma_starts(values, tokens, i);
    }
}

/// The decimal text of a 64-bit integer is read as that integer.
pub proof fn lemma_decimal_is_read(n: i64)
    ensures
        parsed_int(signed_decimal(n as int)) == Some(n),
{
    law_integer_reads_back(n);
}

proof fn lemma_big_literal(s: Seq<char>)
    requires
        is_big_literal(s),
    ensures
        number_tree(NumberRule::Json, s) == Tree::BigInt(s),
{
    assert forall|i: int| 0 <= i < s.len() implies (#[trigger] s[i]) != '.' && s[i] != 'e' && s[i]
        != 'E' by {
        if s[0] == '-' {
            if i > 0 {
                assert(is_digit(s.subrange(1, s.len() as int)[i - 1]));
            }
        } else {
            assert(is_digit(s[i]));
        }
    }
}

proof fn lemma_planted(tokens: Seq<TokenModel>, values: Seq<Tree>, t: Tree, i: int, depth: nat)
    requires
        lists_levels(tokens, values, t),
        0 <= i < values.len(),
        is_spelled(values[i], depth),
    ensures
        planted(tokens, NumberRule::Json, i) == values[i],
    decreases tokens.len() - i, 1nat, 0nat,
{
    assert(tokens[i] == node_token(values[i]));
    match values[i] {
        Tree::Int(n) => {
            law_integer_reads_back(n as i64);
        },
        Tree::BigInt(s) => {
            lemma_big_literal(s);
        },
        Tree::Array(items) => {
            lemma_planted_items(tokens, values, t, i, items, (depth - 1) as nat, items.len());
            assert(items.subrange(0, items.len() as int) =~= items);
        },
        Tree::Object(entries) => {
            lemma_planted_table(tokens, values, t, i, entries, (depth - 1) as nat, entries.len());
            assert(entries.subrange(0, entries.len() as int) =~= entries);
        },
        _ => {},
    }
}

proof fn lemma_planted_items(
    tokens: Seq<TokenModel>,
    values: Seq<Tree>,
    t: Tree,
    i: int,
    items: Seq<Tree>,
    depth: nat,
    k: nat,
)
    requires
        lists_levels(tokens, values, t),
        0 <= i < values.len(),
        values[i] == Tree::Array(items),
        forall|j: int| 0 <= j < items.len() ==> is_spelled(#[trigger] items[j], depth),
        k <= items.len(),
    ensures
        planted_items(tokens, NumberRule::Json, i, k) == items.subrange(0, k as int),
    decreases tokens.len() - i, 0nat, k,
{
    if k > 0 {
        lemma_planted_items(tokens, values, t, i, items, depth, (k - 1) as nat);
        let at = held_from(tokens, i) + k - 1;
        assert(is_held(tokens, values, i, k - 1));
        lemma_planted(tokens, values, t, at, depth);
        assert(items.subrange(0, k as int) =~= items.subrange(0, k - 1).push(items[k - 1]));
    } else {
        assert(items.subrange(0, 0) =~= Seq::<Tree>::empty());
    }
}

proof fn lemma_planted_table(
    tokens: Seq<TokenModel>,
    values: Seq<Tree>,
    t: Tree,
    i: int,
    entries: Seq<(Seq<char>, Tree)>,
    depth: nat,
    k: nat,
)
    requires
        lists_levels(tokens, values, t),
        0 <= i < values.len(),
        values[i] == Tree::Object(entries),
        unique_keys(entries),
        forall|j: int| 0 <= j < entries.len() ==> is_spelled((#[trigger] entries[j]).1, depth),
        k <= entries.len(),
    ensures
        planted_table(
            tokens,
            NumberRule::Json,
            i,
            Seq::new(entries.len(), |j: int| entries[j].0),
            k,
        ) == entries.subrange(0, k as int),
    decreases tokens.len() - i, 0nat, k,
{
    if k > 0 {
        lemma_planted_table(tokens, values, t, i, entries, depth, (k - 1) as nat);
        let at = held_from(tokens, i) + k - 1;
        assert(is_held(tokens, values, i, k - 1));
        lemma_planted(tokens, values, t, at, depth);
        let before = entries.subrange(0, k - 1);
        let key = entries[k - 1].0;
        lemma_key_index(before, key);
        assert(!has_key(before, key)) by {
            if has_key(before, key) {
                let j = key_index(before, key);
                assert(before[j] == entries[j]);
            }
        }
        assert(entries.subrange(0, k as int) =~= before.push(entries[k - 1]));
    } else {
        assert(entries.subrange(0, 0) =~= Seq::<(Seq<char>, Tree)>::empty());
    }
}

/// The nodes of a spelled value, level by level, make that value again.
pub proof fn law_levels_make_the_value(t: Tree, depth: nat)
    requires
        is_spelled(t, depth),
    ensures
        planted_tree(level_tokens(t), NumberRule::Json) == t,
{
    lemma_lists_levels(t);
    lemma_planted(level_tokens(t), levels(seq![t]), t, 0, depth);
}

} // verus!
