//! Values in the form that any serialiser can hold.

use crate::value::{
    entry_trees, lemma_array_view, lemma_object_view, trees, Tree, Value, ValueMap,
};
use vstd::prelude::*;

verus! {

/// A value for a serialiser: a number that no 64-bit number stands for is its
/// literal, as a string.
pub open spec fn serialised(t: Tree) -> Tree
    decreases t, 0nat,
{
    match t {
        Tree::BigInt(s) | Tree::BigFloat(s) => Tree::String(s),
        Tree::Array(items) => Tree::Array(serialised_items(items, items.len())),
        Tree::Object(entries) => Tree::Object(serialised_entries(entries, entries.len())),
        _ => t,
    }
}

/// The first `k` items for a serialiser.
pub open spec fn serialised_items(items: Seq<Tree>, k: nat) -> Seq<Tree>
    decreases items, k,
{
    if k == 0 || k > items.len() {
        Seq::empty()
    } else {
        serialised_items(items, (k - 1) as nat).push(serialised(items[k - 1]))
    }
}

/// The first `k` entries for a serialiser.
pub open spec fn serialised_entries(entries: Seq<(Seq<char>, Tree)>, k: nat) -> Seq<
    (Seq<char>, Tree),
>
    decreases entries, k,
{
    if k == 0 || k > entries.len() {
        Seq::empty()
    } else {
        serialised_entries(entries, (k - 1) as nat).push(
            (entries[k - 1].0, serialised(entries[k - 1].1)),
        )
    }
}

impl Value {
    /// The value for a serialiser.
    pub fn serial_form(&self) -> (r: Value)
        ensures
            r@ == serialised(self@),
        decreases self, 1int,
    {
        broadcast use {lemma_array_view, lemma_object_view};

        match self {
            Value::BigInt(s) => Value::String(s.clone()),
            Value::BigFloat(s) => Value::String(s.clone()),
            Value::Array(items) => Value::Array(serial_items(items)),
            Value::Object(map) => Value::Object(serial_entries(map)),
            Value::Null => Value::Null,
            Value::Bool(b) => Value::Bool(*b),
            Value::Int(n) => Value::Int(*n),
            Value::Float(s) => Value::Float(s.clone()),
            Value::String(s) => Value::String(s.clone()),
        }
    }
}

fn serial_items(items: &Vec<Value>) -> (r: Vec<Value>)
    ensures
        trees(r@) == serialised_items(trees(items@), items@.len()),
    decreases items, 0int,
{
    let ghost all = trees(items@);
    let mut out: Vec<Value> = Vec::new();
    assert(trees(out@) =~= Seq::<Tree>::empty());
    let mut i: usize = 0;
    while i < items.len()
        invariant
            i <= items@.len(),
            all == trees(items@),
            trees(out@) == serialised_items(all, i as nat),
        decreases items@.len() - i,
    {
        assert(all[i as int] == items@[i as int]@);
        assert(decreases_to!(*items => items@));
        assert(decreases_to!(items@ => items@[i as int]));
        let ghost before = trees(out@);
        let one: Value = items[i].serial_form();
        let ghost shown = one@;
        out.push(one);
        assert(trees(out@) =~= before.push(shown));
        i += 1;
    }
    out
}

fn serial_entries(map: &ValueMap) -> (r: ValueMap)
    ensures
        r@ == serialised_entries(map@, map@.len()),
    decreases map, 0int,
{
    let mut out: Vec<(String, Value)> = Vec::new();
    assert(entry_trees(out@) =~= Seq::<(Seq<char>, Tree)>::empty());
    let mut i: usize = 0;
    while i < map.entries.len()
        invariant
            i <= map.entries@.len(),
            entry_trees(out@) == serialised_entries(map@, i as nat),
        decreases map.entries@.len() - i,
    {
        assert(map@[i as int] == (map.entries@[i as int].0@, map.entries@[i as int].1@));
        assert(decreases_to!(*map => map.entries));
        assert(decreases_to!(map.entries => map.entries@));
        assert(decreases_to!(map.entries@ => map.entries@[i as int]));
        assert(decreases_to!(map.entries@[i as int] => map.entries@[i as int].1));
        let ghost before = entry_trees(out@);
        let one: Value = map.entries[i].1.serial_form();
        let ghost shown = one@;
        out.push((map.entries[i].0.clone(), one));
        assert(entry_trees(out@) =~= before.push((map@[i as int].0, shown)));
        i += 1;
    }
    ValueMap { entries: out }
}

/// Whether every number in a value is a 64-bit number.
pub open spec fn is_plain(t: Tree) -> bool
    decreases t, 0nat,
{
    match t {
        Tree::BigInt(_) | Tree::BigFloat(_) => false,
        Tree::Array(items) => plain_items(items, items.len()),
        Tree::Object(entries) => plain_entries(entries, entries.len()),
        _ => true,
    }
}

/// Whether every number in the first `k` items is a 64-bit number.
pub open spec fn plain_items(items: Seq<Tree>, k: nat) -> bool
    decreases items, k,
{
    k == 0 || k > items.len() || (plain_items(items, (k - 1) as nat) && is_plain(items[k - 1]))
}

/// Whether every number in the first `k` entries is a 64-bit number.
pub open spec fn plain_entries(entries: Seq<(Seq<char>, Tree)>, k: nat) -> bool
    decreases entries, k,
{
    k == 0 || k > entries.len() || (plain_entries(entries, (k - 1) as nat) && is_plain(
        entries[k - 1].1,
    ))
}

/// A value without numbers beyond 64 bits goes to a serialiser as it is.
pub proof fn law_plain_values_are_serialised_as_they_are(t: Tree)
    requires
        is_plain(t),
    ensures
        serialised(t) == t,
    decreases t, 0nat,
{
    match t {
        Tree::Array(items) => {
            lemma_plain_items(items, items.len());
            assert(items.subrange(0, items.len() as int) =~= items);
        },
        Tree::Object(entries) => {
            lemma_plain_entries(entries, entries.len());
            assert(entries.subrange(0, entries.len() as int) =~= entries);
        },
        _ => {},
    }
}

proof fn lemma_plain_items(items: Seq<Tree>, k: nat)
    requires
        k <= items.len(),
        plain_items(items, k),
    ensures
        serialised_items(items, k) == items.subrange(0, k as int),
    decreases items, k,
{
    if k > 0 {
        lemma_plain_items(items, (k - 1) as nat);
        law_plain_values_are_serialised_as_they_are(items[k - 1]);
        assert(items.subrange(0, k as int) =~= items.subrange(0, k - 1).push(items[k - 1]));
    } else {
        assert(items.subrange(0, 0) =~= Seq::<Tree>::empty());
    }
}

proof fn lemma_plain_entries(entries: Seq<(Seq<char>, Tree)>, k: nat)
    requires
        k <= entries.len(),
        plain_entries(entries, k),
    ensures
        serialised_entries(entries, k) == entries.subrange(0, k as int),
    decreases entries, k,
{
    if k > 0 {
        lemma_plain_entries(entries, (k - 1) as nat);
        assert(decreases_to!(entries => entries[k - 1]));
        assert(decreases_to!(entries[k - 1] => entries[k - 1].1));
        law_plain_values_are_serialised_as_they_are(entries[k - 1].1);
        assert(entries.subrange(0, k as int) =~= entries.subrange(0, k - 1).push(entries[k - 1]));
    } else {
        assert(entries.subrange(0, 0) =~= Seq::<(Seq<char>, Tree)>::empty());
    }
}

} // verus!
