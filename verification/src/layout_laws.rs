//! What is laid out for a writer is the value: the same nodes in the same order,
//! each of its own type.

use crate::decimal_text::decimal_number;
use crate::number_laws::{law_float_token_is_the_number, lemma_number_chars};
use crate::parsers::layout::{
    laid_out, laid_out_entries, laid_out_items, scalar_piece, PieceModel, Target,
};
use crate::parsers::yaml_render::yaml_float;
use crate::value::Tree;
use crate::yaml_scalar_laws::same_float;
use vstd::prelude::*;

verus! {

/// How many nodes a value has.
pub open spec fn node_count(t: Tree) -> nat
    decreases t, 0nat,
{
    match t {
        Tree::Array(items) => 1 + item_nodes(items, items.len()),
        Tree::Object(entries) => 1 + entry_nodes(entries, entries.len()),
        _ => 1,
    }
}

/// How many nodes the first `k` items have.
pub open spec fn item_nodes(items: Seq<Tree>, k: nat) -> nat
    decreases items, k,
{
    if k == 0 || k > items.len() {
        0
    } else {
        item_nodes(items, (k - 1) as nat) + node_count(items[k - 1])
    }
}

/// How many nodes the values of the first `k` entries have.
pub open spec fn entry_nodes(entries: Seq<(Seq<char>, Tree)>, k: nat) -> nat
    decreases entries, k,
{
    if k == 0 || k > entries.len() {
        0
    } else {
        entry_nodes(entries, (k - 1) as nat) + node_count(entries[k - 1].1)
    }
}

/// Whether a text is that of a float that is not finite.
pub open spec fn is_not_finite(s: Seq<char>) -> bool {
    s == "NaN"@ || s == "inf"@ || s == "-inf"@
}

/// Whether a piece is a scalar, of its own type: a number stays a number, and a
/// text a text. A number that no 64-bit number stands for is a text, and HCL has
/// no floats that are not finite.
pub open spec fn is_scalar_piece(target: Target, p: PieceModel, t: Tree) -> bool {
    match t {
        Tree::Null => p == PieceModel::Blank,
        Tree::Bool(b) => p == PieceModel::Truth(b),
        Tree::Int(n) => p == PieceModel::Whole(n),
        Tree::BigInt(s) => p == PieceModel::Words(s),
        Tree::BigFloat(s) => p == PieceModel::Words(s),
        Tree::String(s) => p == PieceModel::Words(s),
        Tree::Float(s) => if target == Target::Hcl && is_not_finite(s) {
            p == PieceModel::Blank
        } else if target == Target::Yaml {
            p matches PieceModel::Real(r) && same_float(r, s)
        } else {
            p == PieceModel::Real(s)
        },
        _ => false,
    }
}

/// Whether the pieces from `at` on are a value.
pub open spec fn pieces_are(target: Target, pieces: Seq<PieceModel>, at: int, t: Tree) -> bool
    decreases t, 0nat,
{
    &&& 0 <= at && at + node_count(t) <= pieces.len()
    &&& match t {
        Tree::Array(items) => pieces[at] == PieceModel::List(items.len()) && pieces_are_items(
            target,
            pieces,
            at + 1,
            items,
            items.len(),
        ),
        Tree::Object(entries) => {
            &&& pieces[at] matches PieceModel::Table(keys)
            &&& keys.len() == entries.len()
            &&& forall|i: int| 0 <= i < keys.len() ==> #[trigger] keys[i] == entries[i].0
            &&& pieces_are_values(target, pieces, at + 1, entries, entries.len())
        },
        _ => is_scalar_piece(target, pieces[at], t),
    }
}

/// Whether the pieces from `at` on are the first `k` items, one behind the other.
pub open spec fn pieces_are_items(
    target: Target,
    pieces: Seq<PieceModel>,
    at: int,
    items: Seq<Tree>,
    k: nat,
) -> bool
    decreases items, k,
{
    k > 0 && k <= items.len() ==> {
        &&& pieces_are_items(target, pieces, at, items, (k - 1) as nat)
        &&& pieces_are(target, pieces, at + item_nodes(items, (k - 1) as nat), items[k - 1])
    }
}

/// Whether the pieces from `at` on are the values of the first `k` entries, one
/// behind the other.
pub open spec fn pieces_are_values(
    target: Target,
    pieces: Seq<PieceModel>,
    at: int,
    entries: Seq<(Seq<char>, Tree)>,
    k: nat,
) -> bool
    decreases entries, k,
{
    k > 0 && k <= entries.len() ==> {
        &&& pieces_are_values(target, pieces, at, entries, (k - 1) as nat)
        &&& pieces_are(target, pieces, at + entry_nodes(entries, (k - 1) as nat), entries[k - 1].1)
    }
}

/// Whether every float of a value is one: a decimal number, or not finite.
pub open spec fn floats_are_floats(t: Tree) -> bool
    decreases t, 0nat,
{
    match t {
        Tree::Array(items) => item_floats_are_floats(items, items.len()),
        Tree::Object(entries) => entry_floats_are_floats(entries, entries.len()),
        Tree::Float(s) => decimal_number(s) is Some || is_not_finite(s),
        _ => true,
    }
}

/// Whether every float of the first `k` items is one.
pub open spec fn item_floats_are_floats(items: Seq<Tree>, k: nat) -> bool
    decreases items, k,
{
    k > 0 && k <= items.len() ==> {
        &&& item_floats_are_floats(items, (k - 1) as nat)
        &&& floats_are_floats(items[k - 1])
    }
}

/// Whether every float of the first `k` entries is one.
pub open spec fn entry_floats_are_floats(entries: Seq<(Seq<char>, Tree)>, k: nat) -> bool
    decreases entries, k,
{
    k > 0 && k <= entries.len() ==> {
        &&& entry_floats_are_floats(entries, (k - 1) as nat)
        &&& floats_are_floats(entries[k - 1].1)
    }
}

/// Whether a value holds neither a null nor a number that no 64-bit number
/// stands for.
pub open spec fn toml_can_hold(t: Tree) -> bool
    decreases t, 0nat,
{
    match t {
        Tree::Null | Tree::BigInt(_) | Tree::BigFloat(_) => false,
        Tree::Array(items) => toml_can_hold_items(items, items.len()),
        Tree::Object(entries) => toml_can_hold_values(entries, entries.len()),
        _ => true,
    }
}

/// Whether the first `k` items hold no such value.
pub open spec fn toml_can_hold_items(items: Seq<Tree>, k: nat) -> bool
    decreases items, k,
{
    k > 0 && k <= items.len() ==> {
        &&& toml_can_hold_items(items, (k - 1) as nat)
        &&& toml_can_hold(items[k - 1])
    }
}

/// Whether the values of the first `k` entries hold no such value.
pub open spec fn toml_can_hold_values(entries: Seq<(Seq<char>, Tree)>, k: nat) -> bool
    decreases entries, k,
{
    k > 0 && k <= entries.len() ==> {
        &&& toml_can_hold_values(entries, (k - 1) as nat)
        &&& toml_can_hold(entries[k - 1].1)
    }
}

proof fn lemma_scalar(target: Target, t: Tree)
    requires
        !(t is Array) && !(t is Object),
        floats_are_floats(t),
    ensures
        scalar_piece(target, t) is Ok <==> (target == Target::Toml ==> toml_can_hold(t)),
        scalar_piece(target, t) matches Ok(p) ==> is_scalar_piece(target, p, t),
{
    if let Tree::Float(s) = t {
        reveal_strlit("NaN");
        reveal_strlit("inf");
        reveal_strlit("-inf");
        reveal_strlit(".nan");
        reveal_strlit(".inf");
        reveal_strlit("-.inf");
        assert("NaN"@[0] == 'N' && "inf"@[0] == 'i' && "-inf"@[0] == '-' && "-inf"@[1] == 'i');
        if decimal_number(s) is Some {
            lemma_number_chars(s);
            law_float_token_is_the_number(s);
            assert(!is_not_finite(s));
            assert(same_float(yaml_float(s), s));
        } else {
            assert(crate::text::lowered(".nan"@) =~= ".nan"@);
            assert(crate::text::lowered(".inf"@) =~= ".inf"@);
            assert("-.inf"@.subrange(1, 5) =~= ".inf"@);
            assert(same_float(yaml_float(s), s));
        }
    }
}

/// Where a value is laid out does not depend on what stands around it.
proof fn lemma_moved(
    target: Target,
    pieces: Seq<PieceModel>,
    at: int,
    around: Seq<PieceModel>,
    to: int,
    t: Tree,
)
    requires
        pieces_are(target, pieces, at, t),
        0 <= to && to + node_count(t) <= around.len(),
        forall|i: int| 0 <= i < node_count(t) ==> pieces[at + i] == #[trigger] around[to + i],
    ensures
        pieces_are(target, around, to, t),
    decreases t, 0nat,
{
    assert(pieces[at + 0] == around[to + 0]);
    match t {
        Tree::Array(items) => {
            assert forall|i: int| 0 <= i < item_nodes(items, items.len()) implies pieces[at + 1 + i]
                == #[trigger] around[to + 1 + i] by {
                assert(around[to + (1 + i)] == pieces[at + (1 + i)]);
            }
            lemma_items_moved(target, pieces, at + 1, around, to + 1, items, items.len());
        },
        Tree::Object(entries) => {
            assert forall|i: int| 0 <= i < entry_nodes(entries, entries.len()) implies pieces[at + 1
                + i] == #[trigger] around[to + 1 + i] by {
                assert(around[to + (1 + i)] == pieces[at + (1 + i)]);
            }
            lemma_values_moved(target, pieces, at + 1, around, to + 1, entries, entries.len());
        },
        _ => {},
    }
}

proof fn lemma_items_moved(
    target: Target,
    pieces: Seq<PieceModel>,
    at: int,
    around: Seq<PieceModel>,
    to: int,
    items: Seq<Tree>,
    k: nat,
)
    requires
        k <= items.len(),
        pieces_are_items(target, pieces, at, items, k),
        0 <= to && to + item_nodes(items, k) <= around.len(),
        forall|i: int| 0 <= i < item_nodes(items, k) ==> pieces[at + i] == #[trigger] around[to + i],
    ensures
        pieces_are_items(target, around, to, items, k),
    decreases items, k,
{
    if k > 0 {
        let before = item_nodes(items, (k - 1) as nat);
        lemma_items_moved(target, pieces, at, around, to, items, (k - 1) as nat);
        assert forall|i: int| 0 <= i < node_count(items[k - 1]) implies pieces[at + before + i]
            == #[trigger] around[to + before + i] by {
            assert(around[to + (before + i)] == pieces[at + (before + i)]);
        }
        lemma_moved(target, pieces, at + before, around, to + before, items[k - 1]);
    }
}

proof fn lemma_values_moved(
    target: Target,
    pieces: Seq<PieceModel>,
    at: int,
    around: Seq<PieceModel>,
    to: int,
    entries: Seq<(Seq<char>, Tree)>,
    k: nat,
)
    requires
        k <= entries.len(),
        pieces_are_values(target, pieces, at, entries, k),
        0 <= to && to + entry_nodes(entries, k) <= around.len(),
        forall|i: int|
            0 <= i < entry_nodes(entries, k) ==> pieces[at + i] == #[trigger] around[to + i],
    ensures
        pieces_are_values(target, around, to, entries, k),
    decreases entries, k,
{
    if k > 0 {
        let before = entry_nodes(entries, (k - 1) as nat);
        lemma_values_moved(target, pieces, at, around, to, entries, (k - 1) as nat);
        assert forall|i: int| 0 <= i < node_count(entries[k - 1].1) implies pieces[at + before + i]
            == #[trigger] around[to + before + i] by {
            assert(around[to + (before + i)] == pieces[at + (before + i)]);
        }
        assert(decreases_to!(entries => entries[k - 1]));
        assert(decreases_to!(entries[k - 1] => entries[k - 1].1));
        lemma_moved(target, pieces, at + before, around, to + before, entries[k - 1].1);
    }
}

/// A value is laid out node by node: as many pieces as it has nodes, a list or a
/// table with as many parts and the same keys for each collection, and for each
/// scalar a piece of the same type with the same value. No float becomes a text.
pub proof fn law_layout_is_the_value(target: Target, t: Tree)
    requires
        floats_are_floats(t),
    ensures
        laid_out(target, t) is Ok <==> (target == Target::Toml ==> toml_can_hold(t)),
        laid_out(target, t) matches Ok(pieces) ==> {
            &&& pieces.len() == node_count(t)
            &&& pieces_are(target, pieces, 0, t)
        },
    decreases t, 0nat,
{
    match t {
        Tree::Array(items) => {
            lemma_items_laid_out(target, items, items.len());
            if let Ok(rest) = laid_out_items(target, items, items.len()) {
                let pieces = laid_out(target, t)->Ok_0;
                lemma_items_moved(target, rest, 0, pieces, 1, items, items.len());
            }
        },
        Tree::Object(entries) => {
            lemma_values_laid_out(target, entries, entries.len());
            if let Ok(rest) = laid_out_entries(target, entries, entries.len()) {
                let pieces = laid_out(target, t)->Ok_0;
                lemma_values_moved(target, rest, 0, pieces, 1, entries, entries.len());
            }
        },
        _ => {
            lemma_scalar(target, t);
        },
    }
}

proof fn lemma_items_laid_out(target: Target, items: Seq<Tree>, k: nat)
    requires
        k <= items.len(),
        item_floats_are_floats(items, k),
    ensures
        laid_out_items(target, items, k) is Ok <==> (target == Target::Toml ==> toml_can_hold_items(
            items,
            k,
        )),
        laid_out_items(target, items, k) matches Ok(pieces) ==> {
            &&& pieces.len() == item_nodes(items, k)
            &&& pieces_are_items(target, pieces, 0, items, k)
        },
    decreases items, k,
{
    if k > 0 {
        lemma_items_laid_out(target, items, (k - 1) as nat);
        law_layout_is_the_value(target, items[k - 1]);
        if let Ok(pieces) = laid_out_items(target, items, k) {
            let before = laid_out_items(target, items, (k - 1) as nat)->Ok_0;
            let one = laid_out(target, items[k - 1])->Ok_0;
            assert(pieces == before + one);
            lemma_items_moved(target, before, 0, pieces, 0, items, (k - 1) as nat);
            lemma_moved(target, one, 0, pieces, before.len() as int, items[k - 1]);
        }
    }
}

proof fn lemma_values_laid_out(target: Target, entries: Seq<(Seq<char>, Tree)>, k: nat)
    requires
        k <= entries.len(),
        entry_floats_are_floats(entries, k),
    ensures
        laid_out_entries(target, entries, k) is Ok <==> (target == Target::Toml
            ==> toml_can_hold_values(entries, k)),
        laid_out_entries(target, entries, k) matches Ok(pieces) ==> {
            &&& pieces.len() == entry_nodes(entries, k)
            &&& pieces_are_values(target, pieces, 0, entries, k)
        },
    decreases entries, k,
{
    if k > 0 {
        lemma_values_laid_out(target, entries, (k - 1) as nat);
        assert(decreases_to!(entries => entries[k - 1]));
        assert(decreases_to!(entries[k - 1] => entries[k - 1].1));
        law_layout_is_the_value(target, entries[k - 1].1);
        if let Ok(pieces) = laid_out_entries(target, entries, k) {
            let before = laid_out_entries(target, entries, (k - 1) as nat)->Ok_0;
            let one = laid_out(target, entries[k - 1].1)->Ok_0;
            assert(pieces == before + one);
            lemma_values_moved(target, before, 0, pieces, 0, entries, (k - 1) as nat);
            lemma_moved(target, one, 0, pieces, before.len() as int, entries[k - 1].1);
        }
    }
}

} // verus!
