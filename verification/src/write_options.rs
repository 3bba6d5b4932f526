//! Options of the writers.

use crate::suggest::{comes_before, text_before};
use crate::text::chars_of;
use crate::value::{entry_trees, lemma_array_view, lemma_object_view, trees, Tree, Value, ValueMap};
use vstd::prelude::*;

verus! {

/// How a document is written anew. By default nothing is changed.
#[derive(Debug, Clone, Copy)]
pub struct WriteOptions {
    /// Whether the keys of every object are put in order.
    pub sort_keys: bool,
    /// Spaces per level where the format has a choice; none for the compact
    /// layout.
    pub indent: Option<u8>,
}

impl Default for WriteOptions {
    fn default() -> (r: WriteOptions)
        ensures
            r == (WriteOptions { sort_keys: false, indent: None }),
    {
        WriteOptions { sort_keys: false, indent: None }
    }
}

/// The entries with one more put in front of the first whose key comes behind
/// its own.
pub open spec fn placed(
    entries: Seq<(Seq<char>, Tree)>,
    entry: (Seq<char>, Tree),
    k: int,
) -> Seq<(Seq<char>, Tree)>
    decreases k,
{
    if k <= 0 || !text_before(entry.0, entries[k - 1].0) {
        entries.insert(k, entry)
    } else {
        placed(entries, entry, k - 1)
    }
}

/// The entries in the order of their keys.
pub open spec fn sorted(entries: Seq<(Seq<char>, Tree)>) -> Seq<(Seq<char>, Tree)>
    decreases entries.len(),
{
    if entries.len() == 0 {
        entries
    } else {
        let before = sorted(entries.drop_last());
        placed(before, entries.last(), before.len() as int)
    }
}

/// A value with the keys of every object in order.
pub open spec fn canonical_tree(t: Tree) -> Tree
    decreases t, 0nat,
{
    match t {
        Tree::Array(items) => Tree::Array(canonical_items(items, items.len())),
        Tree::Object(entries) => Tree::Object(sorted(canonical_entries(entries, entries.len()))),
        _ => t,
    }
}

/// The first `k` items, the keys of every object in order.
pub open spec fn canonical_items(items: Seq<Tree>, k: nat) -> Seq<Tree>
    decreases items, k,
{
    if k == 0 || k > items.len() {
        Seq::empty()
    } else {
        canonical_items(items, (k - 1) as nat).push(canonical_tree(items[k - 1]))
    }
}

/// The first `k` entries, the keys of every object below them in order.
pub open spec fn canonical_entries(entries: Seq<(Seq<char>, Tree)>, k: nat) -> Seq<
    (Seq<char>, Tree),
>
    decreases entries, k,
{
    if k == 0 || k > entries.len() {
        Seq::empty()
    } else {
        canonical_entries(entries, (k - 1) as nat).push(
            (entries[k - 1].0, canonical_tree(entries[k - 1].1)),
        )
    }
}

fn place(entries: &mut Vec<(String, Value)>, key: String, value: Value)
    ensures
        entry_trees(final(entries)@) == placed(
            entry_trees(old(entries)@),
            (key@, value@),
            old(entries)@.len() as int,
        ),
{
    let ghost all = entry_trees(entries@);
    let ghost entry = (key@, value@);
    let chars: Vec<char> = chars_of(key.as_str());
    let mut k: usize = entries.len();
    while k > 0 && comes_before(&chars, &chars_of(entries[k - 1].0.as_str()))
        invariant
            k <= entries@.len(),
            all == entry_trees(entries@),
            chars@ == entry.0,
            entries@ == old(entries)@,
            placed(all, entry, k as int) == placed(all, entry, entries@.len() as int),
        decreases k,
    {
        assert(all[k - 1].0 == entries@[k - 1].0@);
        k -= 1;
    }
    assert(k > 0 ==> all[k - 1].0 == entries@[k - 1].0@);
    entries.insert(k, (key, value));
    assert(entry_trees(entries@) =~= all.insert(k as int, entry));
}

/// A copy with the keys of every object in order.
pub fn canonicalize_keys(v: &Value) -> (r: Value)
    ensures
        r@ == canonical_tree(v@),
    decreases v, 1int,
{
    broadcast use {lemma_array_view, lemma_object_view};

    match v {
        Value::Array(items) => Value::Array(canonicalize_items(items)),
        Value::Object(map) => Value::Object(canonicalize_map(map)),
        other => other.clone(),
    }
}

fn canonicalize_items(items: &Vec<Value>) -> (r: Vec<Value>)
    ensures
        trees(r@) == canonical_items(trees(items@), items@.len()),
    decreases items, 0int,
{
    let ghost all = trees(items@);
    let mut out: Vec<Value> = Vec::new();
    assert(trees(out@) =~= Seq::<Tree>::empty());
    let mut i: usize = 0;
    while i < items.len()
        invariant
            i <= items@.len(),
            all == trees(items@),
            trees(out@) == canonical_items(all, i as nat),
        decreases items@.len() - i,
    {
        assert(decreases_to!(*items => items@));
        assert(decreases_to!(items@ => items@[i as int]));
        let ghost before = trees(out@);
        let item: Value = canonicalize_keys(&items[i]);
        let ghost shown = item@;
        out.push(item);
        assert(all[i as int] == items@[i as int]@);
        assert(trees(out@) =~= before.push(shown));
        i += 1;
    }
    out
}

proof fn lemma_sorted_step(entries: Seq<(Seq<char>, Tree)>, k: nat)
    requires
        k < entries.len(),
    ensures
        ({
            let before = sorted(canonical_entries(entries, k));
            sorted(canonical_entries(entries, k + 1)) == placed(
                before,
                (entries[k as int].0, canonical_tree(entries[k as int].1)),
                before.len() as int,
            )
        }),
{
    let next = canonical_entries(entries, k + 1);
    assert(next.drop_last() =~= canonical_entries(entries, k));
    assert(next.last() == (entries[k as int].0, canonical_tree(entries[k as int].1)));
}

fn canonicalize_map(map: &ValueMap) -> (r: ValueMap)
    ensures
        r@ == sorted(canonical_entries(map@, map@.len())),
    decreases map, 0int,
{
    let mut out: Vec<(String, Value)> = Vec::new();
    assert(entry_trees(out@) =~= Seq::<(Seq<char>, Tree)>::empty());
    let mut i: usize = 0;
    while i < map.entries.len()
        invariant
            i <= map.entries@.len(),
            entry_trees(out@) == sorted(canonical_entries(map@, i as nat)),
        decreases map.entries@.len() - i,
    {
        assert(decreases_to!(*map => map.entries));
        assert(decreases_to!(map.entries => map.entries@));
        assert(decreases_to!(map.entries@ => map.entries@[i as int]));
        assert(decreases_to!(map.entries@[i as int] => map.entries@[i as int].1));
        let key: String = map.entries[i].0.clone();
        let value: Value = canonicalize_keys(&map.entries[i].1);
        proof {
            assert(map@[i as int] == (map.entries@[i as int].0@, map.entries@[i as int].1@));
            lemma_sorted_step(map@, i as nat);
        }
        place(&mut out, key, value);
        i += 1;
    }
    ValueMap { entries: out }
}

// ---------------------------------------------------------------------------
// Laws
// ---------------------------------------------------------------------------

/// Whether no key comes before the one in front of it.
pub open spec fn in_key_order(entries: Seq<(Seq<char>, Tree)>) -> bool {
    forall|i: int|
        0 < i < entries.len() ==> !text_before((#[trigger] entries[i]).0, entries[i - 1].0)
}

proof fn lemma_placed(entries: Seq<(Seq<char>, Tree)>, entry: (Seq<char>, Tree), k: int)
    requires
        in_key_order(entries),
        0 <= k <= entries.len(),
        k < entries.len() ==> text_before(entry.0, entries[k].0),
    ensures
        in_key_order(placed(entries, entry, k)),
        placed(entries, entry, k).to_multiset() == entries.to_multiset().insert(entry),
    decreases k,
{
    broadcast use vstd::seq_lib::group_to_multiset_ensures;

    if k <= 0 || !text_before(entry.0, entries[k - 1].0) {
        let after = entries.insert(k, entry);
        assert forall|i: int| 0 < i < after.len() implies !text_before(
            (#[trigger] after[i]).0,
            after[i - 1].0,
        ) by {
            if i < k {
                assert(after[i] == entries[i]);
                assert(after[i - 1] == entries[i - 1]);
            } else if i == k {
                assert(after[i - 1] == entries[i - 1]);
            } else if i == k + 1 {
                assert(after[i] == entries[k]);
                assert(after[i - 1] == entry);
                crate::suggest::lemma_text_before_one_way(entry.0, entries[k].0);
            } else {
                assert(after[i] == entries[i - 1]);
                assert(after[i - 1] == entries[i - 2]);
            }
        }
        vstd::seq_lib::to_multiset_insert(entries, k, entry);
    } else {
        lemma_placed(entries, entry, k - 1);
    }
}

/// Putting keys in order leaves the entries as they are but for their order.
pub proof fn law_sorted_is_a_permutation_in_order(entries: Seq<(Seq<char>, Tree)>)
    ensures
        in_key_order(sorted(entries)),
        sorted(entries).to_multiset() == entries.to_multiset(),
    decreases entries.len(),
{
    broadcast use vstd::seq_lib::group_to_multiset_ensures;

    if entries.len() > 0 {
        law_sorted_is_a_permutation_in_order(entries.drop_last());
        let before = sorted(entries.drop_last());
        lemma_placed(before, entries.last(), before.len() as int);
        assert(entries.drop_last().push(entries.last()) =~= entries);
    }
}

} // verus!
