//! Objects brought together.

use crate::error::texts;
use crate::value::{
    inserted, law_insert_lookup, lemma_key_index, lemma_key_index_is, lemma_object_view, lookup,
    unique_keys, Tree, Value, ValueMap,
};
use vstd::prelude::*;

verus! {

/// Entries with the first `k` of others put in.
pub open spec fn merged(
    existing: Seq<(Seq<char>, Tree)>,
    incoming: Seq<(Seq<char>, Tree)>,
    k: int,
) -> Seq<(Seq<char>, Tree)>
    decreases k,
{
    if k <= 0 {
        existing
    } else {
        inserted(merged(existing, incoming, k - 1), incoming[k - 1].0, incoming[k - 1].1)
    }
}

/// Entries with a value under `key`: an object is merged with one that is there
/// already, anything else replaces what was there.
pub open spec fn merged_into(
    parent: Seq<(Seq<char>, Tree)>,
    key: Seq<char>,
    incoming: Tree,
) -> Seq<(Seq<char>, Tree)> {
    match (lookup(parent, key), incoming) {
        (Some(Tree::Object(existing)), Tree::Object(new)) => inserted(
            parent,
            key,
            Tree::Object(merged(existing, new, new.len() as int)),
        ),
        _ => inserted(parent, key, incoming),
    }
}

/// Puts the entries of `incoming` into `existing`.
pub fn merge_maps(existing: &mut ValueMap, incoming: &ValueMap)
    ensures
        final(existing)@ == merged(old(existing)@, incoming@, incoming@.len() as int),
{
    let mut i: usize = 0;
    while i < incoming.entries.len()
        invariant
            i <= incoming.entries@.len(),
            existing@ == merged(old(existing)@, incoming@, i as int),
        decreases incoming.entries@.len() - i,
    {
        assert(incoming@[i as int] == (
            incoming.entries@[i as int].0@,
            incoming.entries@[i as int].1@,
        ));
        existing.insert(incoming.entries[i].0.clone(), incoming.entries[i].1.clone());
        i += 1;
    }
}

/// Puts a value under `key`, merged with an object that is there already.
pub fn merge_into(parent: &mut ValueMap, key: String, incoming: Value)
    ensures
        final(parent)@ == merged_into(old(parent)@, key@, incoming@),
{
    let at: usize = parent.position(key.as_str());
    match incoming {
        Value::Object(new) => {
            proof {
                lemma_object_view(new);
            }
            if at < parent.entries.len() {
                proof {
                    lemma_key_index(parent@, key@);
                }
                let ghost before = parent@;
                assert(before[at as int] == (
                    parent.entries@[at as int].0@,
                    parent.entries@[at as int].1@,
                ));
                match &mut parent.entries[at].1 {
                    Value::Object(existing) => {
                        proof {
                            lemma_object_view(*existing);
                        }
                        merge_maps(existing, &new);
                        proof {
                            lemma_object_view(*existing);
                        }
                        assert(parent@ =~= merged_into(before, key@, Tree::Object(new@)));
                        return ;
                    },
                    _ => {},
                }
                assert(parent@ =~= before);
            }
            parent.insert(key, Value::Object(new));
        },
        other => {
            parent.insert(key, other);
        },
    }
}

/// The entries below an object; none below anything else.
pub open spec fn entries_below(t: Option<Tree>) -> Seq<(Seq<char>, Tree)> {
    match t {
        Some(Tree::Object(entries)) => entries,
        _ => Seq::empty(),
    }
}

/// Entries with an object merged in under a path of keys, from key `i` on. What
/// stands in the way and is no object gives way to one.
pub open spec fn placed_under(
    parent: Seq<(Seq<char>, Tree)>,
    path: Seq<Seq<char>>,
    i: int,
    body: Tree,
) -> Seq<(Seq<char>, Tree)>
    decreases path.len() - i,
{
    if !(0 <= i < path.len()) {
        parent
    } else if i + 1 == path.len() {
        merged_into(parent, path[i], body)
    } else {
        inserted(
            parent,
            path[i],
            Tree::Object(placed_under(entries_below(lookup(parent, path[i])), path, i + 1, body)),
        )
    }
}

/// Merges an object in under a path of keys, from key `i` on.
pub fn place_under(parent: &mut ValueMap, path: &Vec<String>, i: usize, body: Value)
    requires
        i < path@.len(),
    ensures
        final(parent)@ == placed_under(old(parent)@, texts(path@), i as int, body@),
    decreases path@.len() - i,
{
    let ghost keys = texts(path@);
    assert(keys[i as int] == path@[i as int]@);
    let last: usize = path.len() - 1;
    if i == last {
        merge_into(parent, path[i].clone(), body);
        return ;
    }
    let ghost before = parent@;
    let at: usize = parent.position(path[i].as_str());
    if at < parent.entries.len() {
        proof {
            lemma_key_index(parent@, keys[i as int]);
        }
        assert(before[at as int] == (
            parent.entries@[at as int].0@,
            parent.entries@[at as int].1@,
        ));
        match &mut parent.entries[at].1 {
            Value::Object(inner) => {
                proof {
                    lemma_object_view(*inner);
                }
                place_under(inner, path, i + 1, body);
                proof {
                    lemma_object_view(*inner);
                }
                assert(parent@ =~= placed_under(before, keys, i as int, body@));
                return ;
            },
            _ => {},
        }
        assert(parent@ =~= before);
    }
    let mut inner: ValueMap = ValueMap::new();
    place_under(&mut inner, path, i + 1, body);
    proof {
        lemma_object_view(inner);
    }
    parent.insert(path[i].clone(), Value::Object(inner));
}

/// An object that is merged in is found where it was put: under the path of
/// keys stands an object that holds all of its entries.
pub proof fn law_placed_is_found(
    parent: Seq<(Seq<char>, Tree)>,
    key: Seq<char>,
    body: Seq<(Seq<char>, Tree)>,
    i: int,
)
    requires
        0 <= i < body.len(),
        unique_keys(body),
    ensures
        match lookup(merged_into(parent, key, Tree::Object(body)), key) {
            Some(Tree::Object(found)) => lookup(found, body[i].0) == Some(body[i].1),
            _ => false,
        },
{
    law_insert_lookup(parent, key, Tree::Object(body), key);
    match lookup(parent, key) {
        Some(Tree::Object(existing)) => {
            let all = merged(existing, body, body.len() as int);
            law_insert_lookup(parent, key, Tree::Object(all), key);
            lemma_merged_lookup(existing, body, body.len() as int, i);
        },
        _ => {
            lemma_key_index_is(body, body[i].0, i);
        },
    }
}

proof fn lemma_merged_lookup(
    existing: Seq<(Seq<char>, Tree)>,
    incoming: Seq<(Seq<char>, Tree)>,
    k: int,
    i: int,
)
    requires
        0 <= i < k <= incoming.len(),
        unique_keys(incoming),
    ensures
        lookup(merged(existing, incoming, k), incoming[i].0) == Some(incoming[i].1),
    decreases k,
{
    law_insert_lookup(
        merged(existing, incoming, k - 1),
        incoming[k - 1].0,
        incoming[k - 1].1,
        incoming[i].0,
    );
    if i < k - 1 {
        lemma_merged_lookup(existing, incoming, k - 1, i);
    }
}

} // verus!
