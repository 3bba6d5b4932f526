//! When two values are the same.
//!
//! Objects are compared without regard to the order of their keys, and floats
//! as numbers: no NaN equals another, and the two zeros are equal.

use crate::text::same_text;
use crate::value::{
    lemma_array_view, lemma_key_index_is, lemma_object_view, lookup, trees, unique_keys, Tree,
    Value, ValueMap,
};
use vstd::prelude::*;
use vstd::std_specs::cmp::PartialEqSpecImpl;

verus! {

/// Whether a text is that of a zero.
pub open spec fn is_zero_text(s: Seq<char>) -> bool {
    s == "0"@ || s == "-0"@
}

/// Whether two floats are the same number.
pub open spec fn same_float(a: Seq<char>, b: Seq<char>) -> bool {
    a != "NaN"@ && (a == b || (is_zero_text(a) && is_zero_text(b)))
}

/// Whether two values are the same.
pub open spec fn same_tree(a: Tree, b: Tree) -> bool
    decreases a, 0nat,
{
    match (a, b) {
        (Tree::Null, Tree::Null) => true,
        (Tree::Bool(x), Tree::Bool(y)) => x == y,
        (Tree::Int(x), Tree::Int(y)) => x == y,
        (Tree::BigInt(x), Tree::BigInt(y)) => x == y,
        (Tree::Float(x), Tree::Float(y)) => same_float(x, y),
        (Tree::BigFloat(x), Tree::BigFloat(y)) => x == y,
        (Tree::String(x), Tree::String(y)) => x == y,
        (Tree::Array(x), Tree::Array(y)) => x.len() == y.len() && same_items(x, y, x.len()),
        (Tree::Object(x), Tree::Object(y)) => x.len() == y.len() && same_entries(x, y, x.len()),
        _ => false,
    }
}

/// Whether the first `k` items are the same.
pub open spec fn same_items(a: Seq<Tree>, b: Seq<Tree>, k: nat) -> bool
    decreases a, k,
{
    if k == 0 || k > a.len() {
        true
    } else {
        same_items(a, b, (k - 1) as nat) && same_tree(a[k - 1], b[k - 1])
    }
}

/// Whether the first `k` entries stand in `b` too, each under its key.
pub open spec fn same_entries(
    a: Seq<(Seq<char>, Tree)>,
    b: Seq<(Seq<char>, Tree)>,
    k: nat,
) -> bool
    decreases a, k,
{
    if k == 0 || k > a.len() {
        true
    } else {
        same_entries(a, b, (k - 1) as nat) && (match lookup(b, a[k - 1].0) {
            Some(t) => same_tree(a[k - 1].1, t),
            None => false,
        })
    }
}

fn zero_text(s: &str) -> (r: bool)
    ensures
        r == is_zero_text(s@),
{
    same_text(s, "0") || same_text(s, "-0")
}

/// Whether two values are the same.
pub fn same_value(a: &Value, b: &Value) -> (r: bool)
    ensures
        r == same_tree(a@, b@),
    decreases a, 1int,
{
    broadcast use {lemma_array_view, lemma_object_view};

    match (a, b) {
        (Value::Null, Value::Null) => true,
        (Value::Bool(x), Value::Bool(y)) => *x == *y,
        (Value::Int(x), Value::Int(y)) => *x == *y,
        (Value::BigInt(x), Value::BigInt(y)) => same_text(x.as_str(), y.as_str()),
        (Value::Float(x), Value::Float(y)) => !same_text(x.as_str(), "NaN") && (same_text(
            x.as_str(),
            y.as_str(),
        ) || (zero_text(x.as_str()) && zero_text(y.as_str()))),
        (Value::BigFloat(x), Value::BigFloat(y)) => same_text(x.as_str(), y.as_str()),
        (Value::String(x), Value::String(y)) => same_text(x.as_str(), y.as_str()),
        (Value::Array(x), Value::Array(y)) => same_lists(x, y),
        (Value::Object(x), Value::Object(y)) => same_maps(x, y),
        _ => false,
    }
}

proof fn lemma_items_differ(a: Seq<Tree>, b: Seq<Tree>, k: nat, n: nat)
    requires
        k <= n <= a.len(),
        !same_items(a, b, k),
    ensures
        !same_items(a, b, n),
    decreases n - k,
{
    if k < n {
        lemma_items_differ(a, b, k, (n - 1) as nat);
    }
}

proof fn lemma_entries_differ(
    a: Seq<(Seq<char>, Tree)>,
    b: Seq<(Seq<char>, Tree)>,
    k: nat,
    n: nat,
)
    requires
        k <= n <= a.len(),
        !same_entries(a, b, k),
    ensures
        !same_entries(a, b, n),
    decreases n - k,
{
    if k < n {
        lemma_entries_differ(a, b, k, (n - 1) as nat);
    }
}

fn same_lists(a: &Vec<Value>, b: &Vec<Value>) -> (r: bool)
    ensures
        r == same_tree(Tree::Array(trees(a@)), Tree::Array(trees(b@))),
    decreases a, 0int,
{
    let ghost x = trees(a@);
    let ghost y = trees(b@);
    if a.len() != b.len() {
        return false;
    }
    let mut i: usize = 0;
    while i < a.len()
        invariant
            i <= a@.len() == b@.len(),
            x == trees(a@),
            y == trees(b@),
            same_items(x, y, i as nat),
        decreases a@.len() - i,
    {
        assert(x[i as int] == a@[i as int]@);
        assert(y[i as int] == b@[i as int]@);
        assert(decreases_to!(*a => a@));
        assert(decreases_to!(a@ => a@[i as int]));
        let ghost next = same_items(x, y, (i + 1) as nat);
        if !same_value(&a[i], &b[i]) {
            proof {
                lemma_items_differ(x, y, (i + 1) as nat, x.len());
            }
            return false;
        }
        i += 1;
    }
    true
}

fn same_maps(a: &ValueMap, b: &ValueMap) -> (r: bool)
    ensures
        r == same_tree(Tree::Object(a@), Tree::Object(b@)),
    decreases a, 0int,
{
    if a.entries.len() != b.entries.len() {
        return false;
    }
    let mut i: usize = 0;
    while i < a.entries.len()
        invariant
            i <= a.entries@.len() == b.entries@.len(),
            same_entries(a@, b@, i as nat),
        decreases a.entries@.len() - i,
    {
        assert(a@[i as int] == (a.entries@[i as int].0@, a.entries@[i as int].1@));
        assert(decreases_to!(*a => a.entries));
        assert(decreases_to!(a.entries => a.entries@));
        assert(decreases_to!(a.entries@ => a.entries@[i as int]));
        assert(decreases_to!(a.entries@[i as int] => a.entries@[i as int].1));
        let ghost next = same_entries(a@, b@, (i + 1) as nat);
        let same: bool = match b.get(a.entries[i].0.as_str()) {
            Some(v) => same_value(&a.entries[i].1, v),
            None => false,
        };
        if !same {
            proof {
                lemma_entries_differ(a@, b@, (i + 1) as nat, a@.len());
            }
            return false;
        }
        i += 1;
    }
    true
}

impl PartialEq for Value {
    fn eq(&self, other: &Value) -> (r: bool) {
        same_value(self, other)
    }
}

impl PartialEqSpecImpl for Value {
    open spec fn obeys_eq_spec() -> bool {
        true
    }

    open spec fn eq_spec(&self, other: &Value) -> bool {
        same_tree(self@, other@)
    }
}

impl PartialEq for ValueMap {
    fn eq(&self, other: &ValueMap) -> (r: bool) {
        same_maps(self, other)
    }
}

impl PartialEqSpecImpl for ValueMap {
    open spec fn obeys_eq_spec() -> bool {
        true
    }

    open spec fn eq_spec(&self, other: &ValueMap) -> bool {
        same_tree(Tree::Object(self@), Tree::Object(other@))
    }
}

/// Whether no key occurs twice in an object of the tree, and no float of it is
/// NaN.
pub open spec fn tidy(t: Tree) -> bool
    decreases t, 0nat,
{
    match t {
        Tree::Float(s) => s != "NaN"@,
        Tree::Array(items) => tidy_items(items, items.len()),
        Tree::Object(entries) => unique_keys(entries) && tidy_entries(entries, entries.len()),
        _ => true,
    }
}

/// Whether the first `k` items are tidy.
pub open spec fn tidy_items(items: Seq<Tree>, k: nat) -> bool
    decreases items, k,
{
    if k == 0 || k > items.len() {
        true
    } else {
        tidy_items(items, (k - 1) as nat) && tidy(items[k - 1])
    }
}

/// Whether the values of the first `k` entries are tidy.
pub open spec fn tidy_entries(entries: Seq<(Seq<char>, Tree)>, k: nat) -> bool
    decreases entries, k,
{
    if k == 0 || k > entries.len() {
        true
    } else {
        tidy_entries(entries, (k - 1) as nat) && tidy(entries[k - 1].1)
    }
}

/// A value is the same as itself, unless a float in it is NaN.
pub proof fn law_same_as_itself(t: Tree)
    requires
        tidy(t),
    ensures
        same_tree(t, t),
    decreases t, 1nat, 0nat,
{
    match t {
        Tree::Array(items) => {
            lemma_items_same(items, items.len());
        },
        Tree::Object(entries) => {
            lemma_entries_same(entries, entries.len());
        },
        _ => {},
    }
}

proof fn lemma_items_same(items: Seq<Tree>, k: nat)
    requires
        k <= items.len(),
        tidy_items(items, k),
    ensures
        same_items(items, items, k),
    decreases items, 0nat, k,
{
    if k > 0 {
        lemma_items_same(items, (k - 1) as nat);
        law_same_as_itself(items[k - 1]);
    }
}

proof fn lemma_entries_same(entries: Seq<(Seq<char>, Tree)>, k: nat)
    requires
        k <= entries.len(),
        unique_keys(entries),
        tidy_entries(entries, k),
    ensures
        same_entries(entries, entries, k),
    decreases entries, 0nat, k,
{
    if k > 0 {
        lemma_entries_same(entries, (k - 1) as nat);
        lemma_key_index_is(entries, entries[k - 1].0, k - 1);
        law_same_as_itself(entries[k - 1].1);
    }
}

} // verus!
