//! Values as JSON can hold them.

use crate::numbers::parsed_int;
use crate::parsers::json_write::{finite_text, is_finite_text};
use crate::parsers::tokens::{is_float_literal, number_tree, NumberRule};
use crate::value::{
    entry_trees, lemma_array_view, lemma_object_view, trees, Tree, Value, ValueMap,
};
use std::str::FromStr;
use vstd::prelude::*;

verus! {

/// Whether `serde_json::Number` reads a literal.
pub uninterp spec fn is_json_number(literal: Seq<char>) -> bool;

/// `serde_json::Number::from_str`, whether it succeeds. The result is a function
/// of the literal; it is only named here.
#[verifier::external_body]
fn json_number(literal: &str) -> (r: bool)
    ensures
        r == is_json_number(literal@),
{
    serde_json::Number::from_str(literal).is_ok()
}

/// A value as JSON can hold it: a float that is not finite, and a literal that
/// is no JSON number, as a string.
pub open spec fn bridged(t: Tree) -> Tree
    decreases t, 0nat,
{
    match t {
        Tree::Float(s) => if is_finite_text(s) {
            t
        } else {
            Tree::String(s)
        },
        Tree::BigInt(s) | Tree::BigFloat(s) => if is_json_number(s) {
            t
        } else {
            Tree::String(s)
        },
        Tree::Array(items) => Tree::Array(bridged_items(items, items.len())),
        Tree::Object(entries) => Tree::Object(bridged_entries(entries, entries.len())),
        _ => t,
    }
}

/// The first `k` items as JSON can hold them.
pub open spec fn bridged_items(items: Seq<Tree>, k: nat) -> Seq<Tree>
    decreases items, k,
{
    if k == 0 || k > items.len() {
        Seq::empty()
    } else {
        bridged_items(items, (k - 1) as nat).push(bridged(items[k - 1]))
    }
}

/// The first `k` entries as JSON can hold them.
pub open spec fn bridged_entries(entries: Seq<(Seq<char>, Tree)>, k: nat) -> Seq<(Seq<char>, Tree)>
    decreases entries, k,
{
    if k == 0 || k > entries.len() {
        Seq::empty()
    } else {
        bridged_entries(entries, (k - 1) as nat).push(
            (entries[k - 1].0, bridged(entries[k - 1].1)),
        )
    }
}

impl Value {
    /// The value as JSON can hold it.
    pub fn bridge_to_json(&self) -> (r: Value)
        ensures
            r@ == bridged(self@),
        decreases self, 1int,
    {
        broadcast use {lemma_array_view, lemma_object_view};

        match self {
            Value::Float(s) => if finite_text(s.as_str()) {
                Value::Float(s.clone())
            } else {
                Value::String(s.clone())
            },
            Value::BigInt(s) => if json_number(s.as_str()) {
                Value::BigInt(s.clone())
            } else {
                Value::String(s.clone())
            },
            Value::BigFloat(s) => if json_number(s.as_str()) {
                Value::BigFloat(s.clone())
            } else {
                Value::String(s.clone())
            },
            Value::Array(items) => Value::Array(bridge_items(items)),
            Value::Object(map) => Value::Object(bridge_entries(map)),
            Value::Null => Value::Null,
            Value::Bool(b) => Value::Bool(*b),
            Value::Int(n) => Value::Int(*n),
            Value::String(s) => Value::String(s.clone()),
        }
    }
}

fn bridge_items(items: &Vec<Value>) -> (r: Vec<Value>)
    ensures
        trees(r@) == bridged_items(trees(items@), items@.len()),
    decreases items, 0int,
{
    let ghost all = trees(items@);
    let mut out: Vec<Value> = Vec::new();
    assert(trees(out@) =~= Seq::<Tree>::empty());
    let mut i: usize = 0;
    while i < items.len()
        invariant
            i <= items@.len(),
            all == trees(items@),
            trees(out@) == bridged_items(all, i as nat),
        decreases items@.len() - i,
    {
        assert(all[i as int] == items@[i as int]@);
        assert(decreases_to!(*items => items@));
        assert(decreases_to!(items@ => items@[i as int]));
        let ghost before = trees(out@);
        let one: Value = items[i].bridge_to_json();
        let ghost shown = one@;
        out.push(one);
        assert(trees(out@) =~= before.push(shown));
        i += 1;
    }
    out
}

fn bridge_entries(map: &ValueMap) -> (r: ValueMap)
    ensures
        r@ == bridged_entries(map@, map@.len()),
    decreases map, 0int,
{
    let mut out: Vec<(String, Value)> = Vec::new();
    assert(entry_trees(out@) =~= Seq::<(Seq<char>, Tree)>::empty());
    let mut i: usize = 0;
    while i < map.entries.len()
        invariant
            i <= map.entries@.len(),
            entry_trees(out@) == bridged_entries(map@, i as nat),
        decreases map.entries@.len() - i,
    {
        assert(map@[i as int] == (map.entries@[i as int].0@, map.entries@[i as int].1@));
        assert(decreases_to!(*map => map.entries));
        assert(decreases_to!(map.entries => map.entries@));
        assert(decreases_to!(map.entries@ => map.entries@[i as int]));
        assert(decreases_to!(map.entries@[i as int] => map.entries@[i as int].1));
        let ghost before = entry_trees(out@);
        let one: Value = map.entries[i].1.bridge_to_json();
        let ghost shown = one@;
        out.push((map.entries[i].0.clone(), one));
        assert(entry_trees(out@) =~= before.push((map@[i as int].0, shown)));
        i += 1;
    }
    ValueMap { entries: out }
}

/// The literal of an integer that does not fit survives the way to JSON and
/// back: it stays a number, and reading it gives the same literal.
pub proof fn law_big_literal_survives(s: Seq<char>)
    requires
        is_json_number(s),
        parsed_int(s) is None,
        !is_float_literal(s),
    ensures
        bridged(Tree::BigInt(s)) == Tree::BigInt(s),
        number_tree(NumberRule::Json, s) == Tree::BigInt(s),
{
}

} // verus!
