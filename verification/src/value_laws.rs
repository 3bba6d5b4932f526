//! What values are, and what happens to them on the way through the library.

use crate::decimal_text::same_number;
use crate::json_bridge::{bridged, bridged_entries, bridged_items, is_json_number};
use crate::number_laws::law_integer_text_is_the_number;
use crate::numbers::parsed_int;
use crate::parsers::json_write::is_finite_text;
use crate::parsers::tokens::{
    formed_number_tree, is_float_literal, json_number_tree, key_text_of, yaml_number_tree,
    FormsModel, TokenModel,
};
use crate::serial::{serialised, serialised_entries, serialised_items};
use crate::value::{
    key_index, lemma_key_index, lemma_key_index_is, lookup, scalar_text_of, type_label_of,
    unique_keys, Tree,
};
use crate::value_eq::{same_entries, same_items, same_tree};
use crate::write_options::{
    canonical_entries, canonical_items, canonical_tree, in_key_order,
    law_sorted_is_a_permutation_in_order, sorted,
};
use vstd::prelude::*;

verus! {

// ---------------------------------------------------------------------------
// Scalars as texts
// ---------------------------------------------------------------------------

/// The text of a scalar tells the scalar: a truth value is its word, an integer
/// reads back as the same integer, a text is itself. Nothing else has a text.
pub proof fn law_scalar_text_tells_the_scalar(t: Tree)
    ensures
        match t {
            Tree::Null => scalar_text_of(t) matches Some(s) && s.len() == 0,
            Tree::Bool(b) => scalar_text_of(t) == Some(
                if b {
                    seq!['t', 'r', 'u', 'e']
                } else {
                    seq!['f', 'a', 'l', 's', 'e']
                },
            ),
            Tree::Int(n) => i64::MIN <= n <= i64::MAX ==> (scalar_text_of(t) matches Some(s)
                && parsed_int(s) matches Some(m) && m == n),
            Tree::BigInt(text) => scalar_text_of(t) == Some(text),
            Tree::BigFloat(text) => scalar_text_of(t) == Some(text),
            Tree::Float(text) => scalar_text_of(t) == Some(text),
            Tree::String(text) => scalar_text_of(t) == Some(text),
            Tree::Array(_) => scalar_text_of(t) is None,
            Tree::Object(_) => scalar_text_of(t) is None,
        },
{
    reveal_strlit("true");
    reveal_strlit("false");
    assert("true"@ =~= seq!['t', 'r', 'u', 'e']);
    assert("false"@ =~= seq!['f', 'a', 'l', 's', 'e']);
    if let Tree::Int(n) = t {
        if i64::MIN <= n <= i64::MAX {
            law_integer_text_is_the_number(n);
        }
    }
}

/// Whether two values are of the same type, an integer or a float being of one
/// type whatever its size.
pub open spec fn same_type(a: Tree, b: Tree) -> bool {
    match a {
        Tree::Null => b is Null,
        Tree::Bool(_) => b is Bool,
        Tree::Int(_) | Tree::BigInt(_) => b is Int || b is BigInt,
        Tree::Float(_) | Tree::BigFloat(_) => b is Float || b is BigFloat,
        Tree::String(_) => b is String,
        Tree::Array(_) => b is Array,
        Tree::Object(_) => b is Object,
    }
}

/// The label of a value names its type: values have the same label exactly if
/// they are of the same type.
pub proof fn law_label_names_the_type(a: Tree, b: Tree)
    ensures
        type_label_of(a) == type_label_of(b) <==> same_type(a, b),
{
    reveal_strlit("null");
    reveal_strlit("bool");
    reveal_strlit("int");
    reveal_strlit("float");
    reveal_strlit("string");
    reveal_strlit("array");
    reveal_strlit("object");
    assert("null"@[0] == 'n' && "bool"@[0] == 'b' && "int"@[0] == 'i' && "float"@[0] == 'f'
        && "string"@[0] == 's' && "array"@[0] == 'a' && "object"@[0] == 'o');
}

// ---------------------------------------------------------------------------
// Numbers
// ---------------------------------------------------------------------------

/// A JSON number loses nothing: an integer that fits is that integer, a float is
/// one only where it is the same number down to the last digit, and any other
/// number keeps its literal.
pub proof fn law_json_number_loses_nothing(literal: Seq<char>, forms: FormsModel)
    ensures
        match json_number_tree(literal, forms) {
            Tree::Int(n) => parsed_int(literal) matches Some(m) && m == n,
            Tree::Float(text) => parsed_int(literal) is None && is_float_literal(literal)
                && same_number(literal, text),
            Tree::BigInt(text) => parsed_int(literal) is None && !is_float_literal(literal) && text
                == literal,
            Tree::BigFloat(text) => parsed_int(literal) is None && is_float_literal(literal) && text
                == literal,
            _ => false,
        },
        parsed_int(literal) is Some ==> json_number_tree(literal, forms) is Int,
        parsed_int(literal) is None && is_float_literal(literal) && (forms.real matches Some(text)
            && is_finite_text(text) && same_number(literal, text)) ==> json_number_tree(
            literal,
            forms,
        ) == Tree::Float(forms.real->Some_0),
{
}

/// A YAML or TOML number is the integer or the float that was read of it, and
/// keeps its literal where there is neither.
pub proof fn law_formed_number_is_what_was_read(literal: Seq<char>, forms: FormsModel)
    ensures
        forms.whole matches Some(n) ==> {
            &&& yaml_number_tree(literal, forms) == Tree::Int(n as int)
            &&& formed_number_tree(literal, forms) == Tree::Int(n as int)
        },
        forms.whole is None ==> match yaml_number_tree(literal, forms) {
            Tree::Float(text) => forms.float && forms.real == Some(text),
            Tree::BigInt(text) => text == literal && (!forms.float || forms.real is None),
            Tree::BigFloat(text) => text == literal && forms.float && (forms.real matches Some(found)
                && !is_finite_text(found)),
            _ => false,
        },
        forms.whole is None ==> match formed_number_tree(literal, forms) {
            Tree::Float(text) => forms.float && forms.real == Some(text),
            Tree::BigInt(text) => text == literal && !forms.float,
            Tree::BigFloat(text) => text == literal && forms.float && forms.real is None,
            _ => false,
        },
{
}

/// A key that is no text is the text that it is written as.
pub proof fn law_keys_keep_their_text(token: TokenModel, shown: Seq<char>)
    ensures
        match token {
            TokenModel::Words(s) => key_text_of(token, shown) == s,
            TokenModel::Numeral(s) => key_text_of(token, shown) == s,
            TokenModel::Truth(b) => Some(key_text_of(token, shown)) == scalar_text_of(
                Tree::Bool(b),
            ),
            TokenModel::Blank => key_text_of(token, shown).len() == 0,
            _ => key_text_of(token, shown) == shown,
        },
{
}

// ---------------------------------------------------------------------------
// Equality
// ---------------------------------------------------------------------------

/// Values that hold nothing are the same exactly if they are equal, but for
/// floats: those are the same number, and a NaN is the same as nothing.
pub proof fn law_same_scalars_are_equal(a: Tree, b: Tree)
    requires
        !(a is Array) && !(a is Object),
    ensures
        !(a is Float) ==> (same_tree(a, b) <==> a == b),
        a matches Tree::Float(x) ==> (same_tree(a, b) <==> x != "NaN"@ && (b matches Tree::Float(y)
            && (x == y || ((x == "0"@ || x == "-0"@) && (y == "0"@ || y == "-0"@))))),
{
}

proof fn lemma_same_items(a: Seq<Tree>, b: Seq<Tree>, k: nat)
    requires
        k <= a.len(),
    ensures
        same_items(a, b, k) <==> forall|i: int| 0 <= i < k ==> same_tree(#[trigger] a[i], b[i]),
    decreases k,
{
    if k > 0 {
        lemma_same_items(a, b, (k - 1) as nat);
        if forall|i: int| 0 <= i < k ==> same_tree(#[trigger] a[i], b[i]) {
            assert(same_tree(a[k - 1], b[k - 1]));
        }
    }
}

/// Arrays are the same exactly if they have as many items, and the items at each
/// place are the same.
pub proof fn law_same_arrays_have_the_same_items(a: Seq<Tree>, b: Tree)
    ensures
        same_tree(Tree::Array(a), b) <==> (b matches Tree::Array(items) && items.len() == a.len()
            && forall|i: int| 0 <= i < a.len() ==> same_tree(#[trigger] a[i], items[i])),
{
    if let Tree::Array(items) = b {
        lemma_same_items(a, items, a.len());
    }
}

proof fn lemma_same_entries(a: Seq<(Seq<char>, Tree)>, b: Seq<(Seq<char>, Tree)>, k: nat)
    requires
        k <= a.len(),
    ensures
        same_entries(a, b, k) <==> forall|i: int|
            0 <= i < k ==> (lookup(b, (#[trigger] a[i]).0) matches Some(t) && same_tree(a[i].1, t)),
    decreases k,
{
    if k > 0 {
        lemma_same_entries(a, b, (k - 1) as nat);
        if forall|i: int|
            0 <= i < k ==> (lookup(b, (#[trigger] a[i]).0) matches Some(t) && same_tree(a[i].1, t)) {
            assert(lookup(b, a[k - 1].0) matches Some(t) && same_tree(a[k - 1].1, t));
        }
    }
}

/// The keys of entries without duplicates, as a set.
spec fn key_set(entries: Seq<(Seq<char>, Tree)>) -> Set<Seq<char>> {
    entries.map_values(|e: (Seq<char>, Tree)| e.0).to_set()
}

proof fn lemma_key_set(entries: Seq<(Seq<char>, Tree)>)
    requires
        unique_keys(entries),
    ensures
        key_set(entries).finite(),
        key_set(entries).len() == entries.len(),
        forall|key: Seq<char>| #[trigger]
            key_set(entries).contains(key) <==> lookup(entries, key) is Some,
{
    let keys = entries.map_values(|e: (Seq<char>, Tree)| e.0);
    assert(keys.no_duplicates()) by {
        assert forall|i: int, j: int|
            0 <= i < keys.len() && 0 <= j < keys.len() && i != j implies keys[i] != keys[j] by {
            if i < j {
                assert(entries[i].0 != entries[j].0);
            } else {
                assert(entries[j].0 != entries[i].0);
            }
        }
    }
    keys.unique_seq_to_set();
    assert forall|key: Seq<char>| #[trigger]
        key_set(entries).contains(key) <==> lookup(entries, key) is Some by {
        lemma_key_index(entries, key);
        if key_set(entries).contains(key) {
            let i = choose|i: int| 0 <= i < keys.len() && keys[i] == key;
            assert(entries[i].0 == key);
        }
        if lookup(entries, key) is Some {
            assert(keys[key_index(entries, key)] == key);
        }
    }
}

/// Objects without duplicate keys are the same exactly if they hold the same
/// values under the same keys, in whatever order.
pub proof fn law_same_objects_hold_the_same(
    a: Seq<(Seq<char>, Tree)>,
    b: Seq<(Seq<char>, Tree)>,
)
    requires
        unique_keys(a),
        unique_keys(b),
    ensures
        same_tree(Tree::Object(a), Tree::Object(b)) <==> forall|key: Seq<char>|
            match (#[trigger] lookup(a, key), lookup(b, key)) {
                (Some(x), Some(y)) => same_tree(x, y),
                (None, None) => true,
                _ => false,
            },
{
    lemma_same_entries(a, b, a.len());
    lemma_key_set(a);
    lemma_key_set(b);
    if same_tree(Tree::Object(a), Tree::Object(b)) {
        assert(key_set(a).subset_of(key_set(b))) by {
            assert forall|key: Seq<char>| key_set(a).contains(key) implies key_set(b).contains(
                key,
            ) by {
                assert(lookup(a, key) is Some);
                lemma_key_index(a, key);
                assert(a[key_index(a, key)].0 == key);
            }
        }
        vstd::set_lib::lemma_subset_equality(key_set(a), key_set(b));
        assert forall|key: Seq<char>|
            match (#[trigger] lookup(a, key), lookup(b, key)) {
                (Some(x), Some(y)) => same_tree(x, y),
                (None, None) => true,
                _ => false,
            } by {
            assert(key_set(a).contains(key) <==> key_set(b).contains(key));
            lemma_key_index(a, key);
            if lookup(a, key) is Some {
                assert(a[key_index(a, key)].0 == key);
            }
        }
    }
    if forall|key: Seq<char>|
        match (#[trigger] lookup(a, key), lookup(b, key)) {
            (Some(x), Some(y)) => same_tree(x, y),
            (None, None) => true,
            _ => false,
        } {
        assert(key_set(a) =~= key_set(b)) by {
            assert forall|key: Seq<char>| key_set(a).contains(key) <==> key_set(b).contains(key) by {
                assert(lookup(a, key) is Some <==> lookup(b, key) is Some);
            }
        }
        assert forall|i: int| 0 <= i < a.len() implies (lookup(b, (#[trigger] a[i]).0) matches Some(t)
            && same_tree(a[i].1, t)) by {
            assert forall|k: int| 0 <= k < i implies (#[trigger] a[k]).0 != a[i].0 by {}
            lemma_key_index_is(a, a[i].0, i);
            assert(lookup(a, a[i].0) == Some(a[i].1));
        }
    }
}

// ---------------------------------------------------------------------------
// Values for other libraries
// ---------------------------------------------------------------------------

proof fn lemma_bridged_items(items: Seq<Tree>, k: nat)
    requires
        k <= items.len(),
    ensures
        bridged_items(items, k).len() == k,
        forall|i: int| 0 <= i < k ==> #[trigger] bridged_items(items, k)[i] == bridged(items[i]),
    decreases k,
{
    if k > 0 {
        lemma_bridged_items(items, (k - 1) as nat);
    }
}

proof fn lemma_bridged_entries(entries: Seq<(Seq<char>, Tree)>, k: nat)
    requires
        k <= entries.len(),
    ensures
        bridged_entries(entries, k).len() == k,
        forall|i: int|
            0 <= i < k ==> #[trigger] bridged_entries(entries, k)[i] == (
                entries[i].0,
                bridged(entries[i].1),
            ),
    decreases k,
{
    if k > 0 {
        lemma_bridged_entries(entries, (k - 1) as nat);
    }
}

/// A value on its way to JSON keeps all that JSON can hold: everything but a
/// float that is not finite and a literal that is no JSON number stays as it is,
/// at its place and under its key. Those are texts.
pub proof fn law_bridging_keeps_what_json_can_hold(t: Tree)
    ensures
        match t {
            Tree::Null | Tree::Bool(_) | Tree::Int(_) | Tree::String(_) => bridged(t) == t,
            Tree::Float(s) => bridged(t) == (if is_finite_text(s) {
                t
            } else {
                Tree::String(s)
            }),
            Tree::BigInt(s) => bridged(t) == (if is_json_number(s) {
                t
            } else {
                Tree::String(s)
            }),
            Tree::BigFloat(s) => bridged(t) == (if is_json_number(s) {
                t
            } else {
                Tree::String(s)
            }),
            Tree::Array(items) => {
                &&& bridged(t) matches Tree::Array(after)
                &&& after.len() == items.len()
                &&& forall|i: int|
                    0 <= i < items.len() ==> #[trigger] after[i] == bridged(items[i])
            },
            Tree::Object(entries) => {
                &&& bridged(t) matches Tree::Object(after)
                &&& after.len() == entries.len()
                &&& forall|i: int|
                    0 <= i < entries.len() ==> #[trigger] after[i] == (
                        entries[i].0,
                        bridged(entries[i].1),
                    )
            },
        },
{
    match t {
        Tree::Array(items) => {
            lemma_bridged_items(items, items.len());
        },
        Tree::Object(entries) => {
            lemma_bridged_entries(entries, entries.len());
        },
        _ => {},
    }
}

proof fn lemma_serialised_items(items: Seq<Tree>, k: nat)
    requires
        k <= items.len(),
    ensures
        serialised_items(items, k).len() == k,
        forall|i: int|
            0 <= i < k ==> #[trigger] serialised_items(items, k)[i] == serialised(items[i]),
    decreases k,
{
    if k > 0 {
        lemma_serialised_items(items, (k - 1) as nat);
    }
}

proof fn lemma_serialised_entries(entries: Seq<(Seq<char>, Tree)>, k: nat)
    requires
        k <= entries.len(),
    ensures
        serialised_entries(entries, k).len() == k,
        forall|i: int|
            0 <= i < k ==> #[trigger] serialised_entries(entries, k)[i] == (
                entries[i].0,
                serialised(entries[i].1),
            ),
    decreases k,
{
    if k > 0 {
        lemma_serialised_entries(entries, (k - 1) as nat);
    }
}

/// A value on its way to a serialiser keeps everything at its place and under its
/// key; only a number that no 64-bit number stands for is its literal, as a text.
pub proof fn law_serialising_keeps_the_value(t: Tree)
    ensures
        match t {
            Tree::Null | Tree::Bool(_) | Tree::Int(_) | Tree::Float(_) | Tree::String(_) =>
                serialised(t) == t,
            Tree::BigInt(s) => serialised(t) == Tree::String(s),
            Tree::BigFloat(s) => serialised(t) == Tree::String(s),
            Tree::Array(items) => {
                &&& serialised(t) matches Tree::Array(after)
                &&& after.len() == items.len()
                &&& forall|i: int|
                    0 <= i < items.len() ==> #[trigger] after[i] == serialised(items[i])
            },
            Tree::Object(entries) => {
                &&& serialised(t) matches Tree::Object(after)
                &&& after.len() == entries.len()
                &&& forall|i: int|
                    0 <= i < entries.len() ==> #[trigger] after[i] == (
                        entries[i].0,
                        serialised(entries[i].1),
                    )
            },
        },
{
    match t {
        Tree::Array(items) => {
            lemma_serialised_items(items, items.len());
        },
        Tree::Object(entries) => {
            lemma_serialised_entries(entries, entries.len());
        },
        _ => {},
    }
}

// ---------------------------------------------------------------------------
// Keys in order
// ---------------------------------------------------------------------------

proof fn lemma_canonical_items(items: Seq<Tree>, k: nat)
    requires
        k <= items.len(),
    ensures
        canonical_items(items, k).len() == k,
        forall|i: int|
            0 <= i < k ==> #[trigger] canonical_items(items, k)[i] == canonical_tree(items[i]),
    decreases k,
{
    if k > 0 {
        lemma_canonical_items(items, (k - 1) as nat);
    }
}

proof fn lemma_canonical_entries(entries: Seq<(Seq<char>, Tree)>, k: nat)
    requires
        k <= entries.len(),
    ensures
        canonical_entries(entries, k).len() == k,
        forall|i: int|
            0 <= i < k ==> #[trigger] canonical_entries(entries, k)[i] == (
                entries[i].0,
                canonical_tree(entries[i].1),
            ),
    decreases k,
{
    if k > 0 {
        lemma_canonical_entries(entries, (k - 1) as nat);
    }
}

/// Putting keys in order changes nothing but the order: an object holds under
/// every key what it held there, itself in order, an array holds its items in
/// their places, and a scalar stays as it is. The keys of every object come in
/// order.
pub proof fn law_ordering_keys_keeps_the_value(t: Tree, key: Seq<char>)
    requires
        t matches Tree::Object(entries) ==> unique_keys(entries),
    ensures
        match t {
            Tree::Array(items) => {
                &&& canonical_tree(t) matches Tree::Array(after)
                &&& after.len() == items.len()
                &&& forall|i: int|
                    0 <= i < items.len() ==> #[trigger] after[i] == canonical_tree(items[i])
            },
            Tree::Object(entries) => {
                &&& canonical_tree(t) matches Tree::Object(after)
                &&& after.len() == entries.len()
                &&& in_key_order(after)
                &&& match lookup(entries, key) {
                    Some(value) => lookup(after, key) == Some(canonical_tree(value)),
                    None => lookup(after, key) is None,
                }
            },
            _ => canonical_tree(t) == t,
        },
{
    match t {
        Tree::Array(items) => {
            lemma_canonical_items(items, items.len());
        },
        Tree::Object(entries) => {
            let mapped = canonical_entries(entries, entries.len());
            let after = sorted(mapped);
            lemma_canonical_entries(entries, entries.len());
            law_sorted_is_a_permutation_in_order(mapped);
            assert(unique_keys(mapped)) by {
                assert forall|i: int, j: int| 0 <= i < j < mapped.len() implies (
                #[trigger] mapped[i]).0 != (#[trigger] mapped[j]).0 by {
                    assert(entries[i].0 != entries[j].0);
                }
            }
            lemma_same_lookup(mapped, after, key);
            lemma_key_index(entries, key);
            if lookup(entries, key) is Some {
                let at = key_index(entries, key);
                assert(mapped[at] == (entries[at].0, canonical_tree(entries[at].1)));
                assert forall|k: int| 0 <= k < at implies (#[trigger] mapped[k]).0 != key by {
                    assert(entries[k].0 != key);
                }
                lemma_key_index_is(mapped, key, at);
            } else {
                assert forall|k: int| 0 <= k < mapped.len() implies (#[trigger] mapped[k]).0
                    != key by {
                    assert(entries[k].0 != key);
                }
                lemma_key_index_is(mapped, key, mapped.len() as int);
            }
        },
        _ => {},
    }
}

/// What is found under a key does not depend on the order of the entries.
proof fn lemma_same_lookup(
    a: Seq<(Seq<char>, Tree)>,
    b: Seq<(Seq<char>, Tree)>,
    key: Seq<char>,
)
    requires
        unique_keys(a),
        a.to_multiset() == b.to_multiset(),
    ensures
        a.len() == b.len(),
        lookup(a, key) == lookup(b, key),
{
    a.to_multiset_ensures();
    b.to_multiset_ensures();
    lemma_key_index(a, key);
    lemma_key_index(b, key);
    if lookup(b, key) is Some {
        let entry = b[key_index(b, key)];
        assert(b.contains(entry));
        assert(b.to_multiset().count(entry) > 0);
        assert(a.contains(entry));
        let i = choose|i: int| 0 <= i < a.len() && a[i] == entry;
        assert(a[i].0 == key);
        let at = key_index(a, key);
        if at < i {
            assert(a[at].0 != a[i].0);
        }
        assert(at == i);
    }
    if lookup(a, key) is Some {
        let entry = a[key_index(a, key)];
        assert(a.contains(entry));
        assert(a.to_multiset().count(entry) > 0);
        assert(b.contains(entry));
        let i = choose|i: int| 0 <= i < b.len() && b[i] == entry;
        assert(b[i].0 == key);
        assert(lookup(b, key) is Some);
    }
}

} // verus!
