//! HCL documents that read back as they were written.

use crate::error::Fault;
use crate::parsers::hcl::{body_entries, hcl_written};
use crate::parsers::hcl_nodes::{hcl_text, HclFaultModel, HclModel};
use crate::parsers::layout::{
    entry_keys, laid_out, laid_out_entries, laid_out_items, PieceModel, Target,
};
use crate::parsers::level_order::held_values;
use crate::parsers::tokens::{
    held_from, planted, planted_items, planted_table, planted_tree, NumberRule, TokenModel,
};
use crate::value::{has_key, key_index, lemma_key_index, unique_keys, Tree};
use vstd::prelude::*;
use vstd::utf8::{decode_utf8, encode_utf8_decode_utf8, encode_utf8_valid_utf8, valid_utf8};

verus! {

/// Whether a character starts a template, if a brace follows.
pub open spec fn is_template_sign(c: char) -> bool {
    c == '$' || c == '%'
}

/// Whether a text reads back: what would start a template in it does not stand
/// behind another such sign.
pub open spec fn is_hcl_text(s: Seq<char>) -> bool {
    forall|i: int|
        0 <= i < s.len() - 2 && is_template_sign(#[trigger] s[i]) && is_template_sign(s[i + 1])
            ==> s[i + 2] != '{'
}

/// Whether a text is a name that an attribute can have: letters, digits, `_` and
/// `-`, the first of them no digit and no `-`.
pub open spec fn is_hcl_name(s: Seq<char>) -> bool {
    &&& s.len() > 0
    &&& is_hcl_name_start(s[0])
    &&& forall|i: int|
        0 <= i < s.len() ==> is_hcl_name_start(#[trigger] s[i]) || '0' <= s[i] <= '9' || s[i] == '-'
}

/// Whether a character is a letter or `_`.
pub open spec fn is_hcl_name_start(c: char) -> bool {
    'a' <= c <= 'z' || 'A' <= c <= 'Z' || c == '_'
}

/// Whether a value reads back: it holds no floats and no numbers beyond 64 bits,
/// its texts read back, the keys of its objects are distinct, and it is nested
/// at most `depth` deep.
pub open spec fn is_hcl_plain(t: Tree, depth: nat) -> bool
    decreases t,
{
    match t {
        Tree::Null | Tree::Bool(_) => true,
        Tree::Int(n) => i64::MIN <= n <= i64::MAX,
        Tree::String(s) => is_hcl_text(s),
        Tree::BigInt(_) | Tree::Float(_) | Tree::BigFloat(_) => false,
        Tree::Array(items) => depth > 0 && forall|i: int|
            0 <= i < items.len() ==> is_hcl_plain(#[trigger] items[i], (depth - 1) as nat),
        Tree::Object(entries) => depth > 0 && unique_keys(entries) && forall|i: int|
            0 <= i < entries.len() ==> is_hcl_text((#[trigger] entries[i]).0) && is_hcl_plain(
                entries[i].1,
                (depth - 1) as nat,
            ),
    }
}

/// How deep the value of an attribute that reads back is nested at most.
pub open spec fn hcl_depth() -> nat {
    64
}

/// Whether entries are those of a document that reads back.
pub open spec fn are_hcl_attributes(entries: Seq<(Seq<char>, Tree)>) -> bool {
    &&& unique_keys(entries)
    &&& forall|i: int|
        0 <= i < entries.len() ==> is_hcl_name((#[trigger] entries[i]).0) && is_hcl_plain(
            entries[i].1,
            hcl_depth(),
        )
}

/// Whether a value is a document that reads back.
pub open spec fn is_hcl_document(t: Tree) -> bool {
    t matches Tree::Object(entries) && are_hcl_attributes(entries)
}

/// Whether a text is what is written of a document that reads back.
pub open spec fn spells_hcl_text(text: Seq<char>, t: Tree) -> bool {
    &&& is_hcl_document(t)
    &&& laid_out(Target::Hcl, t) matches Ok(pieces) && hcl_text(pieces) == Ok::<_, Seq<char>>(text)
}

/// Whether bytes are those of a document that reads back.
pub open spec fn spells_hcl(bytes: Seq<u8>, t: Tree) -> bool {
    is_hcl_document(t) && hcl_written(t) == (bytes, Ok::<(), Fault>(()))
}

/// Whether a layout is that of a document that reads back.
pub open spec fn is_hcl_document_layout(pieces: Seq<PieceModel>) -> bool {
    exists|t: Tree|
        is_hcl_document(t) && #[trigger] laid_out(Target::Hcl, t) == Ok::<_, Fault>(pieces)
}

/// The bytes of a document that reads back are a text that is written of it.
pub proof fn lemma_bytes_spell_text(bytes: Seq<u8>, t: Tree)
    requires
        spells_hcl(bytes, t),
    ensures
        valid_utf8(bytes),
        spells_hcl_text(decode_utf8(bytes), t),
{
    let text = hcl_text(laid_out(Target::Hcl, t)->Ok_0)->Ok_0;
    encode_utf8_valid_utf8(text);
    encode_utf8_decode_utf8(text);
}

proof fn lemma_laid_out(t: Tree)
    ensures
        laid_out(Target::Hcl, t) is Ok,
    decreases t, 0nat,
{
    match t {
        Tree::Array(items) => {
            lemma_items_laid_out(items, items.len());
        },
        Tree::Object(entries) => {
            lemma_entries_laid_out(entries, entries.len());
        },
        _ => {},
    }
}

proof fn lemma_items_laid_out(items: Seq<Tree>, k: nat)
    ensures
        laid_out_items(Target::Hcl, items, k) is Ok,
    decreases items, k,
{
    if 0 < k <= items.len() {
        lemma_items_laid_out(items, (k - 1) as nat);
        assert(decreases_to!(items => items[k - 1]));
        lemma_laid_out(items[k - 1]);
    }
}

proof fn lemma_entries_laid_out(entries: Seq<(Seq<char>, Tree)>, k: nat)
    ensures
        laid_out_entries(Target::Hcl, entries, k) is Ok,
    decreases entries, k,
{
    if 0 < k <= entries.len() {
        lemma_entries_laid_out(entries, (k - 1) as nat);
        assert(decreases_to!(entries => entries[k - 1]));
        assert(decreases_to!(entries[k - 1] => entries[k - 1].1));
        lemma_laid_out(entries[k - 1].1);
    }
}

/// A document that reads back has a layout, which is that of such a document.
pub proof fn lemma_document_layout(t: Tree)
    requires
        is_hcl_document(t),
    ensures
        laid_out(Target::Hcl, t) matches Ok(pieces) && is_hcl_document_layout(pieces),
{
    lemma_laid_out(t);
}

// ---------------------------------------------------------------------------
// The nodes of a document
// ---------------------------------------------------------------------------

/// Whether a token is the node of a value by itself.
pub open spec fn is_hcl_node(token: TokenModel, t: Tree) -> bool {
    match t {
        Tree::Null => token == TokenModel::Blank,
        Tree::Bool(b) => token == TokenModel::Truth(b),
        Tree::Int(n) => token matches TokenModel::Forms(forms, _) && forms.whole == Some(n as i64),
        Tree::String(s) => token == TokenModel::Words(s),
        Tree::Array(items) => token == TokenModel::List(items.len()),
        Tree::Object(entries) => token == TokenModel::Table(entry_keys(entries)),
        Tree::BigInt(_) | Tree::Float(_) | Tree::BigFloat(_) => false,
    }
}

/// Whether value `k` of those that value `i` holds stands where the tokens have
/// it.
pub open spec fn hcl_stands(tokens: Seq<TokenModel>, values: Seq<Tree>, i: int, k: int) -> bool {
    let at = held_from(tokens, i) + k;
    i < at < values.len() && values[at] == held_values(values[i])[k]
}

/// Whether `values` are a value and all that it holds, level by level, and
/// `tokens` are their nodes.
pub open spec fn lists_hcl(tokens: Seq<TokenModel>, values: Seq<Tree>, t: Tree) -> bool {
    &&& 0 < tokens.len() == values.len()
    &&& values[0] == t
    &&& forall|i: int| 0 <= i < values.len() ==> is_hcl_node(#[trigger] tokens[i], values[i])
    &&& forall|i: int, k: int|
        0 <= i < values.len() && 0 <= k < held_values(values[i]).len() ==> #[trigger] hcl_stands(
            tokens,
            values,
            i,
            k,
        )
}

/// Whether tokens are the nodes of a value, level by level.
pub open spec fn is_hcl_layout(tokens: Seq<TokenModel>, t: Tree) -> bool {
    exists|values: Seq<Tree>| lists_hcl(tokens, values, t)
}

/// Whether a node is the attribute that an entry is written as.
pub open spec fn is_attribute_of(node: HclModel, entry: (Seq<char>, Tree)) -> bool {
    node matches HclModel::Attribute(key, tokens) && key == entry.0 && is_hcl_layout(
        tokens,
        entry.1,
    )
}

/// Whether nodes are the attributes that the entries of a document are written
/// as, in order.
pub open spec fn lists_attributes(nodes: Seq<HclModel>, t: Tree) -> bool {
    t matches Tree::Object(entries) && nodes.len() == entries.len() && forall|i: int|
        0 <= i < nodes.len() ==> is_attribute_of(#[trigger] nodes[i], entries[i])
}

/// Whether nodes that were read are those of the document that was written, if
/// one that reads back was.
pub open spec fn gives_attributes(text: Seq<char>, nodes: Seq<HclModel>) -> bool {
    forall|t: Tree| #[trigger] spells_hcl_text(text, t) ==> lists_attributes(nodes, t)
}

/// Whether there is no objection to a document that was written and reads back.
pub open spec fn no_hcl_objection(text: Seq<char>, fault: Option<HclFaultModel>) -> bool {
    forall|t: Tree| #[trigger] spells_hcl_text(text, t) ==> fault is None
}

// ---------------------------------------------------------------------------
// The value of the nodes
// ---------------------------------------------------------------------------

proof fn lemma_planted(tokens: Seq<TokenModel>, values: Seq<Tree>, t: Tree, i: int, depth: nat)
    requires
        lists_hcl(tokens, values, t),
        0 <= i < values.len(),
        is_hcl_plain(values[i], depth),
    ensures
        planted(tokens, NumberRule::Json, i) == values[i],
    decreases tokens.len() - i, 1nat, 0nat,
{
    assert(is_hcl_node(tokens[i], values[i]));
    match values[i] {
        Tree::Array(items) => {
            lemma_planted_items(tokens, values, t, i, items, (depth - 1) as nat, items.len());
            assert(items.subrange(0, items.len() as int) =~= items);
        },
        Tree::Object(entries) => {
            lemma_planted_table(tokens, values, t, i, entries, (depth - 1) as nat, entries.len());
            assert(entries.subrange(0, entries.len() as int) =~= entries);
        },
        _ => {},
    }
}

proof fn lemma_planted_items(
    tokens: Seq<TokenModel>,
    values: Seq<Tree>,
    t: Tree,
    i: int,
    items: Seq<Tree>,
    depth: nat,
    k: nat,
)
    requires
        lists_hcl(tokens, values, t),
        0 <= i < values.len(),
        values[i] == Tree::Array(items),
        forall|j: int| 0 <= j < items.len() ==> is_hcl_plain(#[trigger] items[j], depth),
        k <= items.len(),
    ensures
        planted_items(tokens, NumberRule::Json, i, k) == items.subrange(0, k as int),
    decreases tokens.len() - i, 0nat, k,
{
    if k > 0 {
        lemma_planted_items(tokens, values, t, i, items, depth, (k - 1) as nat);
        assert(hcl_stands(tokens, values, i, k - 1));
        lemma_planted(tokens, values, t, held_from(tokens, i) + k - 1, depth);
        assert(items.subrange(0, k as int) =~= items.subrange(0, k - 1).push(items[k - 1]));
    } else {
        assert(items.subrange(0, 0) =~= Seq::<Tree>::empty());
    }
}

/// An entry whose key is new joins those before it at the end.
proof fn lemma_entry_joins(entries: Seq<(Seq<char>, Tree)>, k: int)
    requires
        unique_keys(entries),
        0 < k <= entries.len(),
    ensures
        !has_key(entries.subrange(0, k - 1), entries[k - 1].0),
        entries.subrange(0, k) == entries.subrange(0, k - 1).push(entries[k - 1]),
{
    let before = entries.subrange(0, k - 1);
    let key = entries[k - 1].0;
    lemma_key_index(before, key);
    if has_key(before, key) {
        let j = key_index(before, key);
        assert(before[j] == entries[j]);
    }
    assert(entries.subrange(0, k) =~= before.push(entries[k - 1]));
}

proof fn lemma_planted_table(
    tokens: Seq<TokenModel>,
    values: Seq<Tree>,
    t: Tree,
    i: int,
    entries: Seq<(Seq<char>, Tree)>,
    depth: nat,
    k: nat,
)
    requires
        lists_hcl(tokens, values, t),
        0 <= i < values.len(),
        values[i] == Tree::Object(entries),
        unique_keys(entries),
        forall|j: int| 0 <= j < entries.len() ==> is_hcl_plain((#[trigger] entries[j]).1, depth),
        k <= entries.len(),
    ensures
        planted_table(tokens, NumberRule::Json, i, entry_keys(entries), k) == entries.subrange(
            0,
            k as int,
        ),
    decreases tokens.len() - i, 0nat, k,
{
    if k > 0 {
        lemma_planted_table(tokens, values, t, i, entries, depth, (k - 1) as nat);
        assert(hcl_stands(tokens, values, i, k - 1));
        lemma_planted(tokens, values, t, held_from(tokens, i) + k - 1, depth);
        lemma_entry_joins(entries, k as int);
        lemma_key_index(entries.subrange(0, k - 1), entries[k - 1].0);
    } else {
        assert(entries.subrange(0, 0) =~= Seq::<(Seq<char>, Tree)>::empty());
    }
}

proof fn lemma_attributes_read(nodes: Seq<HclModel>, entries: Seq<(Seq<char>, Tree)>, k: int)
    requires
        are_hcl_attributes(entries),
        lists_attributes(nodes, Tree::Object(entries)),
        0 <= k <= nodes.len(),
    ensures
        body_entries(nodes, k, entries.subrange(0, k)).0 == entries,
    decreases nodes.len() - k,
{
    let t = Tree::Object(entries);
    assert(t->Object_0 == entries);
    if k < nodes.len() {
        assert(is_attribute_of(nodes[k], entries[k]));
        let tokens = nodes[k]->Attribute_1;
        let value = entries[k].1;
        let values = choose|values: Seq<Tree>| lists_hcl(tokens, values, value);
        lemma_planted(tokens, values, value, 0, hcl_depth());
        assert(planted_tree(tokens, NumberRule::Json) == value);
        lemma_entry_joins(entries, k + 1);
        lemma_key_index(entries.subrange(0, k), entries[k].0);
        lemma_attributes_read(nodes, entries, k + 1);
    } else {
        assert(entries.subrange(0, k) =~= entries);
    }
}

/// The attributes of a document that reads back make that document again.
pub proof fn lemma_attributes_make_the_value(nodes: Seq<HclModel>, t: Tree)
    requires
        is_hcl_document(t),
        lists_attributes(nodes, t),
    ensures
        Tree::Object(body_entries(nodes, 0, Seq::empty()).0) == t,
{
    let entries = t->Object_0;
    assert(entries.subrange(0, 0) =~= Seq::<(Seq<char>, Tree)>::empty());
    lemma_attributes_read(nodes, entries, 0);
}

} // verus!
