//! TOML documents that read back as they were written.

use crate::error::Fault;
use crate::numbers::decimal;
use crate::parsers::layout::{
    entry_keys, laid_out, laid_out_entries, laid_out_items, PieceModel, Target,
};
use crate::parsers::toml::toml_one;
use crate::parsers::toml_nodes::{
    holds_quote_run, is_writable, toml_text, ShapeModel, TomlFaultModel, TomlNodeModel,
};
use crate::parsers::toml_walk::{
    walked_entries, walked_items, walked_node, Places, WalkedEntries, WalkedItems,
};
use crate::pointer::escaped;
use crate::spans::SpanContext;
use crate::value::{has_key, key_index, lemma_key_index, unique_keys, Tree};
use crate::value_eq::same_tree;
use vstd::prelude::*;
use vstd::utf8::{decode_utf8, encode_utf8_decode_utf8, encode_utf8_valid_utf8, valid_utf8};

verus! {

/// Whether a value reads back: it holds no nulls, no floats, no numbers beyond 64
/// bits and no text with too many quotes in a row, the keys of its objects are
/// distinct, and it is nested at most `depth` deep.
pub open spec fn is_toml_plain(t: Tree, depth: nat) -> bool
    decreases t,
{
    match t {
        Tree::Bool(_) => true,
        Tree::String(s) => !holds_quote_run(s),
        Tree::Int(n) => i64::MIN <= n <= i64::MAX,
        Tree::Null | Tree::BigInt(_) | Tree::Float(_) | Tree::BigFloat(_) => false,
        Tree::Array(items) => depth > 0 && forall|i: int|
            0 <= i < items.len() ==> is_toml_plain(#[trigger] items[i], (depth - 1) as nat),
        Tree::Object(entries) => depth > 0 && unique_keys(entries) && forall|i: int|
            0 <= i < entries.len() ==> is_toml_plain(
                (#[trigger] entries[i]).1,
                (depth - 1) as nat,
            ),
    }
}

/// How deep a value that reads back is nested at most.
pub open spec fn toml_depth() -> nat {
    80
}

/// Whether a value is a document that reads back: an object, as a document is a
/// table.
pub open spec fn is_toml_document(t: Tree) -> bool {
    t is Object && is_toml_plain(t, toml_depth())
}

/// Whether a text is what is written of a document that reads back.
pub open spec fn spells_toml_text(text: Seq<char>, t: Tree) -> bool {
    &&& is_toml_document(t)
    &&& laid_out(Target::Toml, t) matches Ok(pieces) && toml_text(pieces) == Ok::<_, Seq<char>>(text)
}

/// Whether bytes are those of a document that reads back.
pub open spec fn spells_toml(bytes: Seq<u8>, t: Tree) -> bool {
    is_toml_document(t) && toml_one(t) == (bytes, Ok::<(), Fault>(()))
}

/// Whether a layout is that of a document that reads back.
pub open spec fn is_toml_document_layout(pieces: Seq<PieceModel>) -> bool {
    exists|t: Tree|
        is_toml_document(t) && #[trigger] laid_out(Target::Toml, t) == Ok::<_, Fault>(pieces)
}

/// The bytes of a document that reads back are a text that is written of it.
pub proof fn lemma_bytes_spell_text(bytes: Seq<u8>, t: Tree)
    requires
        spells_toml(bytes, t),
    ensures
        valid_utf8(bytes),
        spells_toml_text(decode_utf8(bytes), t),
{
    let text = toml_text(laid_out(Target::Toml, t)->Ok_0)->Ok_0;
    encode_utf8_valid_utf8(text);
    encode_utf8_decode_utf8(text);
}

proof fn lemma_laid_out(t: Tree, depth: nat)
    requires
        is_toml_plain(t, depth),
    ensures
        laid_out(Target::Toml, t) matches Ok(pieces) && is_writable(pieces),
    decreases t, 0nat,
{
    match t {
        Tree::Array(items) => {
            lemma_items_laid_out(items, items.len(), (depth - 1) as nat);
        },
        Tree::Object(entries) => {
            lemma_entries_laid_out(entries, entries.len(), (depth - 1) as nat);
        },
        _ => {},
    }
}

proof fn lemma_items_laid_out(items: Seq<Tree>, k: nat, depth: nat)
    requires
        forall|i: int| 0 <= i < items.len() ==> is_toml_plain(#[trigger] items[i], depth),
    ensures
        laid_out_items(Target::Toml, items, k) matches Ok(pieces) && is_writable(pieces),
    decreases items, k,
{
    if 0 < k <= items.len() {
        lemma_items_laid_out(items, (k - 1) as nat, depth);
        assert(decreases_to!(items => items[k - 1]));
        lemma_laid_out(items[k - 1], depth);
    }
}

proof fn lemma_entries_laid_out(entries: Seq<(Seq<char>, Tree)>, k: nat, depth: nat)
    requires
        forall|i: int| 0 <= i < entries.len() ==> is_toml_plain((#[trigger] entries[i]).1, depth),
    ensures
        laid_out_entries(Target::Toml, entries, k) matches Ok(pieces) && is_writable(pieces),
    decreases entries, k,
{
    if 0 < k <= entries.len() {
        lemma_entries_laid_out(entries, (k - 1) as nat, depth);
        assert(decreases_to!(entries => entries[k - 1]));
        assert(decreases_to!(entries[k - 1] => entries[k - 1].1));
        lemma_laid_out(entries[k - 1].1, depth);
    }
}

/// A document that reads back has a layout, which is that of such a document.
pub proof fn lemma_document_layout(t: Tree)
    requires
        is_toml_document(t),
    ensures
        laid_out(Target::Toml, t) matches Ok(pieces) && is_toml_document_layout(pieces)
            && is_writable(pieces),
{
    lemma_laid_out(t, toml_depth());
}

/// Whether nothing is blank in a layout.
pub open spec fn no_blanks(pieces: Seq<PieceModel>) -> bool {
    forall|i: int| 0 <= i < pieces.len() ==> !((#[trigger] pieces[i]) is Blank)
}

/// Nothing is blank in the layout of a value.
pub proof fn lemma_no_blanks(t: Tree)
    ensures
        laid_out(Target::Toml, t) matches Ok(pieces) ==> no_blanks(pieces),
    decreases t, 0nat,
{
    match t {
        Tree::Array(items) => {
            lemma_items_no_blanks(items, items.len());
        },
        Tree::Object(entries) => {
            lemma_entries_no_blanks(entries, entries.len());
        },
        _ => {},
    }
}

proof fn lemma_items_no_blanks(items: Seq<Tree>, k: nat)
    ensures
        laid_out_items(Target::Toml, items, k) matches Ok(pieces) ==> no_blanks(pieces),
    decreases items, k,
{
    if 0 < k <= items.len() {
        lemma_items_no_blanks(items, (k - 1) as nat);
        assert(decreases_to!(items => items[k - 1]));
        lemma_no_blanks(items[k - 1]);
    }
}

proof fn lemma_entries_no_blanks(entries: Seq<(Seq<char>, Tree)>, k: nat)
    ensures
        laid_out_entries(Target::Toml, entries, k) matches Ok(pieces) ==> no_blanks(pieces),
    decreases entries, k,
{
    if 0 < k <= entries.len() {
        lemma_entries_no_blanks(entries, (k - 1) as nat);
        assert(decreases_to!(entries => entries[k - 1]));
        assert(decreases_to!(entries[k - 1] => entries[k - 1].1));
        lemma_no_blanks(entries[k - 1].1);
    }
}

// ---------------------------------------------------------------------------
// The nodes of a document
// ---------------------------------------------------------------------------

/// Whether the node at `k` is that of a value by itself.
pub open spec fn is_toml_node(nodes: Seq<TomlNodeModel>, k: int, t: Tree) -> bool {
    0 <= k < nodes.len() && match t {
        Tree::Bool(b) => nodes[k].shape == ShapeModel::Truth(b),
        Tree::Int(n) => nodes[k].shape == ShapeModel::Whole(n),
        Tree::String(s) => nodes[k].shape == ShapeModel::Words(s),
        Tree::Array(items) => nodes[k].shape == ShapeModel::List(items.len()) || nodes[k].shape
            == ShapeModel::Tables(items.len()),
        Tree::Object(entries) => unique_keys(entries) && (nodes[k].shape == ShapeModel::Table(
            entry_keys(entries),
        ) || nodes[k].shape == ShapeModel::Inline(entry_keys(entries))),
        _ => false,
    }
}

/// The position behind the nodes of a value that stand from `k` on, each
/// collection before what it holds; nothing where they do not stand there.
pub open spec fn toml_end(nodes: Seq<TomlNodeModel>, k: int, t: Tree) -> Option<int>
    decreases t, 0nat,
{
    if !is_toml_node(nodes, k, t) {
        None
    } else {
        match t {
            Tree::Array(items) => toml_items_end(nodes, k + 1, items, 0),
            Tree::Object(entries) => toml_entries_end(nodes, k + 1, entries, 0),
            _ => Some(k + 1),
        }
    }
}

/// The position behind the nodes of the items from item `i` on.
pub open spec fn toml_items_end(
    nodes: Seq<TomlNodeModel>,
    k: int,
    items: Seq<Tree>,
    i: nat,
) -> Option<int>
    decreases items, items.len() - i,
{
    if i >= items.len() {
        Some(k)
    } else {
        match toml_end(nodes, k, items[i as int]) {
            Some(next) => toml_items_end(nodes, next, items, i + 1),
            None => None,
        }
    }
}

/// The position behind the nodes of the values from entry `i` on.
pub open spec fn toml_entries_end(
    nodes: Seq<TomlNodeModel>,
    k: int,
    entries: Seq<(Seq<char>, Tree)>,
    i: nat,
) -> Option<int>
    decreases entries, entries.len() - i,
{
    if i >= entries.len() {
        Some(k)
    } else {
        match toml_end(nodes, k, entries[i as int].1) {
            Some(next) => toml_entries_end(nodes, next, entries, i + 1),
            None => None,
        }
    }
}

/// Whether nodes are those of a value that equals `t`; the keys of its objects
/// may stand in another order.
pub open spec fn lists_toml(nodes: Seq<TomlNodeModel>, t: Tree) -> bool {
    exists|u: Tree| #[trigger] same_tree(t, u) && toml_end(nodes, 0, u) == Some(nodes.len() as int)
}

/// Whether nodes that were read are those of the document that was written, if
/// one that reads back was.
pub open spec fn gives_nodes(text: Seq<char>, nodes: Seq<TomlNodeModel>) -> bool {
    forall|t: Tree| #[trigger] spells_toml_text(text, t) ==> lists_toml(nodes, t)
}

/// Whether there is no objection to a document that was written and reads back.
pub open spec fn no_toml_objection(text: Seq<char>, fault: Option<TomlFaultModel>) -> bool {
    forall|t: Tree| #[trigger] spells_toml_text(text, t) ==> fault is None
}

// ---------------------------------------------------------------------------
// The value of the nodes
// ---------------------------------------------------------------------------

/// The walk over the nodes of a value comes to that value.
pub proof fn lemma_walked(
    bytes: Seq<u8>,
    nodes: Seq<TomlNodeModel>,
    k: int,
    path: Seq<Seq<char>>,
    context: SpanContext,
    places: Places,
    t: Tree,
)
    requires
        toml_end(nodes, k, t) is Some,
    ensures
        walked_node(bytes, nodes, k, path, context, places).value == t,
        walked_node(bytes, nodes, k, path, context, places).next == toml_end(nodes, k, t)->0,
        k < toml_end(nodes, k, t)->0 <= nodes.len(),
    decreases t, 0nat,
{
    match t {
        Tree::Array(items) => {
            assert(items.subrange(0, 0) =~= Seq::<Tree>::empty());
            let so_far = WalkedItems { items: Seq::empty(), next: k + 1, places };
            let inner = if nodes[k].shape is List {
                SpanContext::FlowSeqItem
            } else {
                SpanContext::BlockMapValue
            };
            lemma_walked_items(bytes, nodes, path, inner, so_far, items, 0);
        },
        Tree::Object(entries) => {
            assert(entries.subrange(0, 0) =~= Seq::<(Seq<char>, Tree)>::empty());
            let so_far = WalkedEntries { entries: Seq::empty(), next: k + 1, places };
            let inner = if nodes[k].shape is Inline {
                SpanContext::FlowMapValue
            } else {
                SpanContext::BlockMapValue
            };
            lemma_walked_entries(bytes, nodes, path, inner, so_far, entries, 0);
        },
        _ => {},
    }
}

proof fn lemma_walked_items(
    bytes: Seq<u8>,
    nodes: Seq<TomlNodeModel>,
    path: Seq<Seq<char>>,
    context: SpanContext,
    so_far: WalkedItems,
    items: Seq<Tree>,
    i: nat,
)
    requires
        i <= items.len(),
        0 <= so_far.next <= nodes.len(),
        so_far.items == items.subrange(0, i as int),
        toml_items_end(nodes, so_far.next, items, i) is Some,
    ensures
        ({
            let w = walked_items(bytes, nodes, items.len(), i, path, context, so_far);
            &&& w.items == items
            &&& w.next == toml_items_end(nodes, so_far.next, items, i)->0
            &&& so_far.next <= w.next <= nodes.len()
        }),
    decreases items, items.len() - i,
{
    if i < items.len() {
        let below = path.push(decimal(i));
        assert(decreases_to!(items => items[i as int]));
        lemma_walked(bytes, nodes, so_far.next, below, context, so_far.places, items[i as int]);
        let one = walked_node(bytes, nodes, so_far.next, below, context, so_far.places);
        let onward = WalkedItems {
            items: so_far.items.push(one.value),
            next: one.next,
            places: one.places,
        };
        assert(onward.items =~= items.subrange(0, i as int + 1));
        lemma_walked_items(bytes, nodes, path, context, onward, items, i + 1);
    } else {
        assert(items.subrange(0, i as int) =~= items);
    }
}

proof fn lemma_walked_entries(
    bytes: Seq<u8>,
    nodes: Seq<TomlNodeModel>,
    path: Seq<Seq<char>>,
    context: SpanContext,
    so_far: WalkedEntries,
    entries: Seq<(Seq<char>, Tree)>,
    i: nat,
)
    requires
        i <= entries.len(),
        unique_keys(entries),
        0 <= so_far.next <= nodes.len(),
        so_far.entries == entries.subrange(0, i as int),
        toml_entries_end(nodes, so_far.next, entries, i) is Some,
    ensures
        ({
            let w = walked_entries(bytes, nodes, entry_keys(entries), i, path, context, so_far);
            &&& w.entries == entries
            &&& w.next == toml_entries_end(nodes, so_far.next, entries, i)->0
            &&& so_far.next <= w.next <= nodes.len()
        }),
    decreases entries, entries.len() - i,
{
    if i < entries.len() {
        let (key, value) = entries[i as int];
        let below = path.push(escaped(key));
        assert(decreases_to!(entries => entries[i as int]));
        assert(decreases_to!(entries[i as int] => entries[i as int].1));
        lemma_walked(bytes, nodes, so_far.next, below, context, so_far.places, value);
        let one = walked_node(bytes, nodes, so_far.next, below, context, so_far.places);
        lemma_key_index(so_far.entries, key);
        assert(!has_key(so_far.entries, key)) by {
            if has_key(so_far.entries, key) {
                let j = key_index(so_far.entries, key);
                assert(so_far.entries[j] == entries[j]);
            }
        }
        let onward = WalkedEntries {
            entries: so_far.entries.push((key, one.value)),
            next: one.next,
            places: one.places,
        };
        assert(onward.entries =~= entries.subrange(0, i as int + 1));
        lemma_walked_entries(bytes, nodes, path, context, onward, entries, i + 1);
    } else {
        assert(entries.subrange(0, i as int) =~= entries);
    }
}

/// The nodes of a document that reads back make a value that equals it.
pub proof fn lemma_nodes_make_the_value(bytes: Seq<u8>, nodes: Seq<TomlNodeModel>, t: Tree)
    requires
        lists_toml(nodes, t),
    ensures
        same_tree(
            t,
            walked_node(
                bytes,
                nodes,
                0,
                Seq::empty(),
                SpanContext::BlockMapValue,
                Seq::empty(),
            ).value,
        ),
{
    let u = choose|u: Tree| #[trigger]
        same_tree(t, u) && toml_end(nodes, 0, u) == Some(nodes.len() as int);
    lemma_walked(bytes, nodes, 0, Seq::empty(), SpanContext::BlockMapValue, Seq::empty(), u);
}

} // verus!
