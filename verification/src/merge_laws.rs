//! Bringing objects together loses nothing, and what an HCL body says is found
//! in its object.

use crate::parsers::hcl::{block_path, body_entries};
use crate::parsers::hcl_nodes::HclModel;
use crate::parsers::merging::{entries_below, merged, merged_into, placed_under};
use crate::parsers::tokens::{planted_tree, NumberRule};
use crate::value::{
    inserted, law_insert_keeps_keys_unique, law_insert_lookup, lemma_key_index, lemma_key_index_is,
    lookup, unique_keys, Tree,
};
use vstd::prelude::*;

verus! {

proof fn lemma_merged(
    existing: Seq<(Seq<char>, Tree)>,
    incoming: Seq<(Seq<char>, Tree)>,
    k: int,
    key: Seq<char>,
)
    requires
        0 <= k <= incoming.len(),
    ensures
        (forall|i: int| 0 <= i < k ==> (#[trigger] incoming[i]).0 != key) ==> lookup(
            merged(existing, incoming, k),
            key,
        ) == lookup(existing, key),
        forall|i: int|
            0 <= i < k && (#[trigger] incoming[i]).0 == key && (forall|j: int|
                i < j < k ==> (#[trigger] incoming[j]).0 != key) ==> lookup(
                merged(existing, incoming, k),
                key,
            ) == Some(incoming[i].1),
        unique_keys(existing) ==> unique_keys(merged(existing, incoming, k)),
    decreases k,
{
    if k > 0 {
        let before = merged(existing, incoming, k - 1);
        lemma_merged(existing, incoming, k - 1, key);
        law_insert_lookup(before, incoming[k - 1].0, incoming[k - 1].1, key);
        if unique_keys(existing) {
            law_insert_keeps_keys_unique(before, incoming[k - 1].0, incoming[k - 1].1);
        }
    }
}

/// Where an object stands under the key already, merging another one in loses
/// nothing: every key that the other does not hold is still found there with its
/// old value, every key that it does hold is found with the new one, and there
/// are no others.
pub proof fn law_merging_loses_nothing(
    parent: Seq<(Seq<char>, Tree)>,
    key: Seq<char>,
    existing: Seq<(Seq<char>, Tree)>,
    incoming: Seq<(Seq<char>, Tree)>,
    inner: Seq<char>,
)
    requires
        lookup(parent, key) == Some(Tree::Object(existing)),
        unique_keys(incoming),
    ensures
        ({
            &&& lookup(merged_into(parent, key, Tree::Object(incoming)), key) matches Some(
                Tree::Object(found),
            )
            &&& lookup(incoming, inner) is None ==> lookup(found, inner) == lookup(existing, inner)
            &&& lookup(incoming, inner) is Some ==> lookup(found, inner) == lookup(incoming, inner)
            &&& unique_keys(existing) ==> unique_keys(found)
        }),
{
    let all = merged(existing, incoming, incoming.len() as int);
    law_insert_lookup(parent, key, Tree::Object(all), key);
    lemma_merged(existing, incoming, incoming.len() as int, inner);
    lemma_key_index(incoming, inner);
    if lookup(incoming, inner) is Some {
        let at = crate::value::key_index(incoming, inner);
        assert(incoming[at].0 == inner);
        assert forall|j: int| at < j < incoming.len() implies (#[trigger] incoming[j]).0
            != inner by {
            assert(incoming[at].0 != incoming[j].0);
        }
    }
}

/// Merging under a key leaves every other key as it was.
pub proof fn law_merging_leaves_other_keys(
    parent: Seq<(Seq<char>, Tree)>,
    key: Seq<char>,
    incoming: Tree,
    other: Seq<char>,
)
    requires
        other != key,
    ensures
        lookup(merged_into(parent, key, incoming), other) == lookup(parent, other),
{
    law_insert_lookup(parent, key, incoming, other);
    if let (Some(Tree::Object(existing)), Tree::Object(new)) = (lookup(parent, key), incoming) {
        let all = Tree::Object(merged(existing, new, new.len() as int));
        law_insert_lookup(parent, key, all, other);
    }
}

/// Merging under a key keeps every key unique.
pub proof fn law_merging_keeps_keys_unique(
    parent: Seq<(Seq<char>, Tree)>,
    key: Seq<char>,
    incoming: Tree,
)
    requires
        unique_keys(parent),
    ensures
        unique_keys(merged_into(parent, key, incoming)),
{
    law_insert_keeps_keys_unique(parent, key, incoming);
    if let (Some(Tree::Object(existing)), Tree::Object(new)) = (lookup(parent, key), incoming) {
        let all = Tree::Object(merged(existing, new, new.len() as int));
        law_insert_keeps_keys_unique(parent, key, all);
    }
}

/// Where no object stands under the key, or what comes is none, what comes is
/// found there.
pub proof fn law_merging_replaces_what_is_no_object(
    parent: Seq<(Seq<char>, Tree)>,
    key: Seq<char>,
    incoming: Tree,
)
    requires
        !(lookup(parent, key) matches Some(t) && t is Object) || !(incoming is Object),
    ensures
        lookup(merged_into(parent, key, incoming), key) == Some(incoming),
{
    law_insert_lookup(parent, key, incoming, key);
}

/// What is found under a path of keys, from key `i` on.
pub open spec fn found_at(entries: Seq<(Seq<char>, Tree)>, path: Seq<Seq<char>>, i: int) -> Option<
    Tree,
>
    decreases path.len() - i,
{
    if !(0 <= i < path.len()) {
        None
    } else if i + 1 == path.len() {
        lookup(entries, path[i])
    } else {
        match lookup(entries, path[i]) {
            Some(Tree::Object(inner)) => found_at(inner, path, i + 1),
            _ => None,
        }
    }
}

/// An object that is placed under a path of keys is found there: all that it
/// holds, and of what an object held there before all that it does not hold.
pub proof fn law_placing_loses_nothing(
    parent: Seq<(Seq<char>, Tree)>,
    path: Seq<Seq<char>>,
    i: int,
    body: Seq<(Seq<char>, Tree)>,
    inner: Seq<char>,
)
    requires
        0 <= i < path.len(),
        unique_keys(body),
    ensures
        ({
            &&& found_at(placed_under(parent, path, i, Tree::Object(body)), path, i) matches Some(
                Tree::Object(found),
            )
            &&& lookup(body, inner) is Some ==> lookup(found, inner) == lookup(body, inner)
            &&& lookup(body, inner) is None ==> lookup(found, inner) == (match found_at(
                parent,
                path,
                i,
            ) {
                Some(Tree::Object(existing)) => lookup(existing, inner),
                _ => None,
            })
        }),
    decreases path.len() - i,
{
    let t = Tree::Object(body);
    if i + 1 == path.len() {
        match lookup(parent, path[i]) {
            Some(Tree::Object(existing)) => {
                law_merging_loses_nothing(parent, path[i], existing, body, inner);
            },
            _ => {
                law_merging_replaces_what_is_no_object(parent, path[i], t);
            },
        }
    } else {
        let below = entries_below(lookup(parent, path[i]));
        law_placing_loses_nothing(below, path, i + 1, body, inner);
        law_insert_lookup(
            parent,
            path[i],
            Tree::Object(placed_under(below, path, i + 1, t)),
            path[i],
        );
        if !(lookup(parent, path[i]) matches Some(t) && t is Object) {
            assert(below =~= Seq::<(Seq<char>, Tree)>::empty());
            lemma_key_index_is(below, path[i + 1], 0);
            assert(lookup(below, path[i + 1]) is None);
            assert(found_at(below, path, i + 1) is None);
        }
    }
}

/// Placing an object leaves alone what stands under another first key, and below
/// the first key what stands under another second one, and so on.
pub proof fn law_placing_leaves_other_paths(
    parent: Seq<(Seq<char>, Tree)>,
    path: Seq<Seq<char>>,
    other: Seq<Seq<char>>,
    i: int,
    at: int,
    body: Tree,
)
    requires
        0 <= i <= at < path.len(),
        at < other.len(),
        path[at] != other[at],
        forall|k: int| i <= k < at ==> path[k] == #[trigger] other[k],
    ensures
        found_at(placed_under(parent, path, i, body), other, i) == found_at(parent, other, i),
    decreases at - i,
{
    if i + 1 == path.len() {
        assert(i == at);
        law_merging_leaves_other_keys(parent, path[i], body, other[i]);
    } else {
        let below = entries_below(lookup(parent, path[i]));
        let inner = Tree::Object(placed_under(below, path, i + 1, body));
        law_insert_lookup(parent, path[i], inner, other[i]);
        if i < at {
            assert(path[i] == other[i]);
            law_insert_lookup(parent, path[i], inner, path[i]);
            law_placing_leaves_other_paths(below, path, other, i + 1, at, body);
            if !(lookup(parent, path[i]) matches Some(t) && t is Object) {
                assert(below =~= Seq::<(Seq<char>, Tree)>::empty());
                lemma_key_index_is(below, other[i + 1], 0);
                assert(lookup(below, other[i + 1]) is None);
                assert(found_at(below, other, i + 1) is None);
            }
        }
    }
}

// ---------------------------------------------------------------------------
// HCL bodies
// ---------------------------------------------------------------------------

/// The position behind the body that node `k` lies in, `depth` blocks deeper:
/// behind the close that matches.
pub open spec fn behind_body(nodes: Seq<HclModel>, k: int, depth: nat) -> int
    decreases nodes.len() - k,
{
    if !(0 <= k < nodes.len()) {
        k
    } else {
        match nodes[k] {
            HclModel::Close => if depth == 0 {
                k + 1
            } else {
                behind_body(nodes, k + 1, (depth - 1) as nat)
            },
            HclModel::Open(_, _) => behind_body(nodes, k + 1, depth + 1),
            HclModel::Attribute(_, _) => behind_body(nodes, k + 1, depth),
        }
    }
}

proof fn lemma_behind(nodes: Seq<HclModel>, k: int, depth: nat)
    requires
        0 <= k <= nodes.len(),
    ensures
        k <= behind_body(nodes, k, depth) <= nodes.len(),
        k < nodes.len() ==> k < behind_body(nodes, k, depth),
    decreases nodes.len() - k,
{
    if k < nodes.len() {
        match nodes[k] {
            HclModel::Close => {
                if depth > 0 {
                    lemma_behind(nodes, k + 1, (depth - 1) as nat);
                }
            },
            HclModel::Open(_, _) => {
                lemma_behind(nodes, k + 1, depth + 1);
            },
            HclModel::Attribute(_, _) => {
                lemma_behind(nodes, k + 1, depth);
            },
        }
    }
}

proof fn lemma_behind_nested(nodes: Seq<HclModel>, k: int, inner: nat, outer: nat)
    requires
        0 <= k <= nodes.len(),
    ensures
        behind_body(nodes, k, inner + 1 + outer) == behind_body(
            nodes,
            behind_body(nodes, k, inner),
            outer,
        ),
    decreases nodes.len() - k,
{
    lemma_behind(nodes, k, inner);
    if k < nodes.len() {
        match nodes[k] {
            HclModel::Close => {
                if inner > 0 {
                    lemma_behind_nested(nodes, k + 1, (inner - 1) as nat, outer);
                }
            },
            HclModel::Open(_, _) => {
                lemma_behind_nested(nodes, k + 1, inner + 1, outer);
            },
            HclModel::Attribute(_, _) => {
                lemma_behind_nested(nodes, k + 1, inner, outer);
            },
        }
    }
}

/// A body ends behind the close that matches it, or at the end.
pub proof fn law_body_ends_at_its_close(
    nodes: Seq<HclModel>,
    k: int,
    so_far: Seq<(Seq<char>, Tree)>,
)
    requires
        0 <= k <= nodes.len(),
    ensures
        body_entries(nodes, k, so_far).1 == behind_body(nodes, k, 0),
    decreases nodes.len() - k,
{
    if k < nodes.len() {
        match nodes[k] {
            HclModel::Close => {},
            HclModel::Attribute(key, tokens) => {
                law_body_ends_at_its_close(
                    nodes,
                    k + 1,
                    inserted(so_far, key, planted_tree(tokens, NumberRule::Json)),
                );
            },
            HclModel::Open(identifier, labels) => {
                law_body_ends_at_its_close(nodes, k + 1, Seq::empty());
                lemma_behind(nodes, k + 1, 0);
                lemma_behind_nested(nodes, k + 1, 0, 0);
                let (inner, next) = body_entries(nodes, k + 1, Seq::empty());
                law_body_ends_at_its_close(
                    nodes,
                    next,
                    placed_under(so_far, block_path(identifier, labels), 0, Tree::Object(inner)),
                );
            },
        }
    }
}

/// Whether an attribute or a block of a body, from node `k` on, stands under a
/// key.
pub open spec fn is_named_from(nodes: Seq<HclModel>, k: int, key: Seq<char>) -> bool
    decreases nodes.len() - k,
{
    if !(0 <= k < nodes.len()) {
        false
    } else {
        match nodes[k] {
            HclModel::Close => false,
            HclModel::Attribute(name, _) => name == key || is_named_from(nodes, k + 1, key),
            HclModel::Open(identifier, _) => {
                let next = behind_body(nodes, k + 1, 0);
                identifier == key || (k < next <= nodes.len() && is_named_from(nodes, next, key))
            },
        }
    }
}

/// What a body does not name stays as it was.
pub proof fn law_body_keeps_what_it_does_not_name(
    nodes: Seq<HclModel>,
    k: int,
    so_far: Seq<(Seq<char>, Tree)>,
    key: Seq<char>,
)
    requires
        0 <= k <= nodes.len(),
        !is_named_from(nodes, k, key),
    ensures
        lookup(body_entries(nodes, k, so_far).0, key) == lookup(so_far, key),
    decreases nodes.len() - k,
{
    if k < nodes.len() {
        match nodes[k] {
            HclModel::Close => {},
            HclModel::Attribute(name, tokens) => {
                let value = planted_tree(tokens, NumberRule::Json);
                law_insert_lookup(so_far, name, value, key);
                law_body_keeps_what_it_does_not_name(
                    nodes,
                    k + 1,
                    inserted(so_far, name, value),
                    key,
                );
            },
            HclModel::Open(identifier, labels) => {
                law_body_ends_at_its_close(nodes, k + 1, Seq::empty());
                lemma_behind(nodes, k + 1, 0);
                let (inner, next) = body_entries(nodes, k + 1, Seq::empty());
                let path = block_path(identifier, labels);
                let placed = placed_under(so_far, path, 0, Tree::Object(inner));
                lemma_first_key(so_far, path, Tree::Object(inner), key);
                law_body_keeps_what_it_does_not_name(nodes, next, placed, key);
            },
        }
    }
}

proof fn lemma_first_key(
    parent: Seq<(Seq<char>, Tree)>,
    path: Seq<Seq<char>>,
    body: Tree,
    key: Seq<char>,
)
    requires
        path.len() > 0,
        path[0] != key,
    ensures
        lookup(placed_under(parent, path, 0, body), key) == lookup(parent, key),
{
    let other = seq![key];
    law_placing_leaves_other_paths(parent, path, other, 0, 0, body);
    assert(found_at(parent, other, 0) == lookup(parent, key));
}

/// An attribute that nothing behind it in its body renames is found under its
/// key with its value.
pub proof fn law_attribute_is_found(
    nodes: Seq<HclModel>,
    k: int,
    so_far: Seq<(Seq<char>, Tree)>,
)
    requires
        0 <= k < nodes.len(),
        nodes[k] matches HclModel::Attribute(name, _) && !is_named_from(nodes, k + 1, name),
    ensures
        nodes[k] matches HclModel::Attribute(name, tokens) && lookup(
            body_entries(nodes, k, so_far).0,
            name,
        ) == Some(planted_tree(tokens, NumberRule::Json)),
{
    if let HclModel::Attribute(name, tokens) = nodes[k] {
        let value = planted_tree(tokens, NumberRule::Json);
        law_insert_lookup(so_far, name, value, name);
        law_body_keeps_what_it_does_not_name(nodes, k + 1, inserted(so_far, name, value), name);
    }
}

proof fn lemma_entries_unique(nodes: Seq<HclModel>, k: int, so_far: Seq<(Seq<char>, Tree)>)
    requires
        0 <= k <= nodes.len(),
        unique_keys(so_far),
    ensures
        unique_keys(body_entries(nodes, k, so_far).0),
    decreases nodes.len() - k,
{
    if k < nodes.len() {
        match nodes[k] {
            HclModel::Close => {},
            HclModel::Attribute(name, tokens) => {
                let value = planted_tree(tokens, NumberRule::Json);
                law_insert_keeps_keys_unique(so_far, name, value);
                lemma_entries_unique(nodes, k + 1, inserted(so_far, name, value));
            },
            HclModel::Open(identifier, labels) => {
                law_body_ends_at_its_close(nodes, k + 1, Seq::empty());
                lemma_behind(nodes, k + 1, 0);
                let (inner, next) = body_entries(nodes, k + 1, Seq::empty());
                let path = block_path(identifier, labels);
                let placed = placed_under(so_far, path, 0, Tree::Object(inner));
                lemma_placed_unique(so_far, path, Tree::Object(inner));
                lemma_entries_unique(nodes, next, placed);
            },
        }
    }
}

proof fn lemma_placed_unique(parent: Seq<(Seq<char>, Tree)>, path: Seq<Seq<char>>, body: Tree)
    requires
        path.len() > 0,
        unique_keys(parent),
    ensures
        unique_keys(placed_under(parent, path, 0, body)),
{
    if path.len() == 1 {
        law_merging_keeps_keys_unique(parent, path[0], body);
    } else {
        let below = entries_below(lookup(parent, path[0]));
        law_insert_keeps_keys_unique(
            parent,
            path[0],
            Tree::Object(placed_under(below, path, 1, body)),
        );
    }
}

/// A block that nothing behind it in its body renames is found under its
/// identifier and its labels: it holds all that its own body says, and of what
/// stood there before all that its body does not name.
pub proof fn law_block_is_found(
    nodes: Seq<HclModel>,
    k: int,
    so_far: Seq<(Seq<char>, Tree)>,
    inner: Seq<char>,
)
    requires
        0 <= k < nodes.len(),
        nodes[k] matches HclModel::Open(identifier, _) && !is_named_from(
            nodes,
            behind_body(nodes, k + 1, 0),
            identifier,
        ),
    ensures
        ({
            &&& nodes[k] matches HclModel::Open(identifier, labels)
            &&& found_at(
                body_entries(nodes, k, so_far).0,
                seq![identifier] + labels,
                0,
            ) matches Some(Tree::Object(found))
            &&& {
                let body = body_entries(nodes, k + 1, Seq::empty()).0;
                if lookup(body, inner) is Some {
                    lookup(found, inner) == lookup(body, inner)
                } else {
                    lookup(found, inner) == (match found_at(so_far, seq![identifier] + labels, 0) {
                        Some(Tree::Object(existing)) => lookup(existing, inner),
                        _ => None,
                    })
                }
            }
        }),
{
    if let HclModel::Open(identifier, labels) = nodes[k] {
        law_body_ends_at_its_close(nodes, k + 1, Seq::empty());
        lemma_behind(nodes, k + 1, 0);
        let (body, next) = body_entries(nodes, k + 1, Seq::empty());
        let path = block_path(identifier, labels);
        let placed = placed_under(so_far, path, 0, Tree::Object(body));
        assert(path =~= seq![identifier] + labels);
        lemma_entries_unique(nodes, k + 1, Seq::empty());
        law_placing_loses_nothing(so_far, path, 0, body, inner);
        law_body_keeps_what_it_does_not_name(nodes, next, placed, identifier);
        assert(path[0] == identifier);
        let after = body_entries(nodes, k, so_far).0;
        assert(lookup(after, path[0]) == lookup(placed, path[0]));
        assert(found_at(after, path, 0) == found_at(placed, path, 0));
    }
}

} // verus!
