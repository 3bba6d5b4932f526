//! YAML documents that read back as they were written.

use crate::error::Fault;
use crate::numbers::signed_decimal;
use crate::parsers::layout::{laid_out, laid_out_entries, laid_out_items, PieceModel, Target};
use crate::parsers::level_order::lemma_decimal_is_read;
use crate::parsers::tokens::{
    held_from, planted, planted_items, planted_mapping, planted_tree, NumberRule, TokenModel,
};
use crate::parsers::yaml::yaml_one;
use crate::parsers::yaml_values::YamlFaultModel;
use crate::value::{has_key, key_index, lemma_key_index, unique_keys, Tree};
use vstd::prelude::*;

verus! {

/// Whether a character is a letter or a digit.
pub open spec fn is_alphanumeric(c: char) -> bool {
    'a' <= c <= 'z' || 'A' <= c <= 'Z' || '0' <= c <= '9'
}

/// Whether a text is made of letters, digits, blanks, and `_`, `-`, `.` and `/`,
/// and starts and ends with a letter or a digit. The empty text is one too.
pub open spec fn is_yaml_word(s: Seq<char>) -> bool {
    s.len() > 0 ==> {
        &&& is_alphanumeric(s[0])
        &&& is_alphanumeric(s.last())
        &&& forall|i: int|
            0 <= i < s.len() ==> is_alphanumeric(#[trigger] s[i]) || s[i] == ' ' || s[i] == '_' || s[i]
                == '-' || s[i] == '.' || s[i] == '/'
    }
}

/// Whether a value reads back: it holds no floats and no numbers beyond 64 bits,
/// its texts are plain words, the keys of its objects are distinct, and it is
/// nested at most `depth` deep.
pub open spec fn is_yaml_plain(t: Tree, depth: nat) -> bool
    decreases t,
{
    match t {
        Tree::Null | Tree::Bool(_) => true,
        Tree::Int(n) => i64::MIN <= n <= i64::MAX,
        Tree::String(s) => is_yaml_word(s),
        Tree::BigInt(_) | Tree::Float(_) | Tree::BigFloat(_) => false,
        Tree::Array(items) => depth > 0 && forall|i: int|
            0 <= i < items.len() ==> is_yaml_plain(#[trigger] items[i], (depth - 1) as nat),
        Tree::Object(entries) => depth > 0 && unique_keys(entries) && forall|i: int|
            0 <= i < entries.len() ==> is_yaml_word((#[trigger] entries[i]).0) && is_yaml_plain(
                entries[i].1,
                (depth - 1) as nat,
            ),
    }
}

/// How deep a value that reads back is nested at most.
pub open spec fn yaml_depth() -> nat {
    100
}

/// Whether bytes are those of a value that reads back.
pub open spec fn spells_yaml(bytes: Seq<u8>, t: Tree) -> bool {
    is_yaml_plain(t, yaml_depth()) && yaml_one(t) == (bytes, Ok::<(), Fault>(()))
}

/// Whether a layout is that of a value that reads back.
pub open spec fn is_plain_layout(pieces: Seq<PieceModel>) -> bool {
    exists|t: Tree|
        is_yaml_plain(t, yaml_depth()) && #[trigger] laid_out(Target::Yaml, t) == Ok::<_, Fault>(pieces)
}

proof fn lemma_laid_out(t: Tree)
    ensures
        laid_out(Target::Yaml, t) is Ok,
    decreases t, 0nat,
{
    match t {
        Tree::Array(items) => {
            lemma_items_laid_out(items, items.len());
        },
        Tree::Object(entries) => {
            lemma_entries_laid_out(entries, entries.len());
        },
        _ => {},
    }
}

proof fn lemma_items_laid_out(items: Seq<Tree>, k: nat)
    ensures
        laid_out_items(Target::Yaml, items, k) is Ok,
    decreases items, k,
{
    if 0 < k <= items.len() {
        lemma_items_laid_out(items, (k - 1) as nat);
        assert(decreases_to!(items => items[k - 1]));
        lemma_laid_out(items[k - 1]);
    }
}

proof fn lemma_entries_laid_out(entries: Seq<(Seq<char>, Tree)>, k: nat)
    ensures
        laid_out_entries(Target::Yaml, entries, k) is Ok,
    decreases entries, k,
{
    if 0 < k <= entries.len() {
        lemma_entries_laid_out(entries, (k - 1) as nat);
        assert(decreases_to!(entries => entries[k - 1]));
        assert(decreases_to!(entries[k - 1] => entries[k - 1].1));
        lemma_laid_out(entries[k - 1].1);
    }
}

/// A value that reads back has a layout, which is that of such a value.
pub proof fn lemma_plain_layout(t: Tree)
    requires
        is_yaml_plain(t, yaml_depth()),
    ensures
        laid_out(Target::Yaml, t) matches Ok(pieces) && is_plain_layout(pieces),
{
    lemma_laid_out(t);
}

// ---------------------------------------------------------------------------
// The nodes of a document
// ---------------------------------------------------------------------------

/// Whether a token is the node of a value by itself.
pub open spec fn is_yaml_node(token: TokenModel, t: Tree) -> bool {
    match t {
        Tree::Null => token == TokenModel::Blank,
        Tree::Bool(b) => token == TokenModel::Truth(b),
        Tree::Int(n) => token == TokenModel::Numeral(signed_decimal(n)),
        Tree::BigInt(s) | Tree::Float(s) | Tree::BigFloat(s) => token == TokenModel::Numeral(s),
        Tree::String(s) => token == TokenModel::Words(s),
        Tree::Array(items) => token == TokenModel::List(items.len()),
        Tree::Object(entries) => token matches TokenModel::Mapping(shown) && shown.len()
            == entries.len(),
    }
}

/// The values that a value holds; the keys of an object are among them, each
/// before its value.
pub open spec fn yaml_held(t: Tree) -> Seq<Tree> {
    match t {
        Tree::Array(items) => items,
        Tree::Object(entries) => Seq::new(
            2 * entries.len(),
            |i: int|
                if i % 2 == 0 {
                    Tree::String(entries[i / 2].0)
                } else {
                    entries[i / 2].1
                },
        ),
        _ => Seq::empty(),
    }
}

/// Whether value `k` of those that value `i` holds stands where the tokens have
/// it.
pub open spec fn yaml_stands(tokens: Seq<TokenModel>, values: Seq<Tree>, i: int, k: int) -> bool {
    let at = held_from(tokens, i) + k;
    i < at < values.len() && values[at] == yaml_held(values[i])[k]
}

/// Whether `values` are a value and all that it holds, level by level, and
/// `tokens` are their nodes.
pub open spec fn lists_yaml(tokens: Seq<TokenModel>, values: Seq<Tree>, t: Tree) -> bool {
    &&& 0 < tokens.len() == values.len()
    &&& values[0] == t
    &&& forall|i: int| 0 <= i < values.len() ==> is_yaml_node(#[trigger] tokens[i], values[i])
    &&& forall|i: int, k: int|
        0 <= i < values.len() && 0 <= k < yaml_held(values[i]).len() ==> #[trigger] yaml_stands(
            tokens,
            values,
            i,
            k,
        )
}

/// Whether tokens are the nodes of a value, level by level.
pub open spec fn is_yaml_layout(tokens: Seq<TokenModel>, t: Tree) -> bool {
    exists|values: Seq<Tree>| lists_yaml(tokens, values, t)
}

/// Whether documents that were read are the one that was written, if one that
/// reads back was.
pub open spec fn gives_document(bytes: Seq<u8>, documents: Seq<Seq<TokenModel>>) -> bool {
    forall|t: Tree| #[trigger]
        spells_yaml(bytes, t) ==> documents.len() == 1 && is_yaml_layout(documents[0], t)
}

/// Whether there is no objection to a document that was written and reads back.
pub open spec fn no_objection(bytes: Seq<u8>, fault: Option<YamlFaultModel>) -> bool {
    forall|t: Tree| #[trigger] spells_yaml(bytes, t) ==> fault is None
}

// ---------------------------------------------------------------------------
// The value of the nodes
// ---------------------------------------------------------------------------

proof fn lemma_planted(tokens: Seq<TokenModel>, values: Seq<Tree>, t: Tree, i: int, depth: nat)
    requires
        lists_yaml(tokens, values, t),
        0 <= i < values.len(),
        is_yaml_plain(values[i], depth),
    ensures
        planted(tokens, NumberRule::Yaml, i) == values[i],
    decreases tokens.len() - i, 1nat, 0nat,
{
    assert(is_yaml_node(tokens[i], values[i]));
    match values[i] {
        Tree::Int(n) => {
            lemma_decimal_is_read(n as i64);
        },
        Tree::Array(items) => {
            lemma_planted_items(tokens, values, t, i, items, (depth - 1) as nat, items.len());
            assert(items.subrange(0, items.len() as int) =~= items);
        },
        Tree::Object(entries) => {
            lemma_planted_mapping(
                tokens,
                values,
                t,
                i,
                tokens[i]->Mapping_0,
                entries,
                (depth - 1) as nat,
                entries.len(),
            );
            assert(entries.subrange(0, entries.len() as int) =~= entries);
        },
        _ => {},
    }
}

proof fn lemma_planted_items(
    tokens: Seq<TokenModel>,
    values: Seq<Tree>,
    t: Tree,
    i: int,
    items: Seq<Tree>,
    depth: nat,
    k: nat,
)
    requires
        lists_yaml(tokens, values, t),
        0 <= i < values.len(),
        values[i] == Tree::Array(items),
        forall|j: int| 0 <= j < items.len() ==> is_yaml_plain(#[trigger] items[j], depth),
        k <= items.len(),
    ensures
        planted_items(tokens, NumberRule::Yaml, i, k) == items.subrange(0, k as int),
    decreases tokens.len() - i, 0nat, k,
{
    if k > 0 {
        lemma_planted_items(tokens, values, t, i, items, depth, (k - 1) as nat);
        assert(yaml_stands(tokens, values, i, k - 1));
        lemma_planted(tokens, values, t, held_from(tokens, i) + k - 1, depth);
        assert(items.subrange(0, k as int) =~= items.subrange(0, k - 1).push(items[k - 1]));
    } else {
        assert(items.subrange(0, 0) =~= Seq::<Tree>::empty());
    }
}

proof fn lemma_planted_mapping(
    tokens: Seq<TokenModel>,
    values: Seq<Tree>,
    t: Tree,
    i: int,
    shown: Seq<Seq<char>>,
    entries: Seq<(Seq<char>, Tree)>,
    depth: nat,
    k: nat,
)
    requires
        lists_yaml(tokens, values, t),
        0 <= i < values.len(),
        values[i] == Tree::Object(entries),
        unique_keys(entries),
        forall|j: int| 0 <= j < entries.len() ==> is_yaml_plain((#[trigger] entries[j]).1, depth),
        k <= entries.len(),
    ensures
        planted_mapping(tokens, NumberRule::Yaml, i, shown, k) == entries.subrange(0, k as int),
    decreases tokens.len() - i, 0nat, k,
{
    if k > 0 {
        lemma_planted_mapping(tokens, values, t, i, shown, entries, depth, (k - 1) as nat);
        let at = held_from(tokens, i) + 2 * k - 1;
        assert(yaml_stands(tokens, values, i, 2 * k - 2));
        assert(yaml_stands(tokens, values, i, 2 * k - 1));
        assert((2 * k - 2) / 2 == k - 1 && (2 * k - 2) % 2 == 0);
        assert((2 * k - 1) / 2 == k - 1 && (2 * k - 1) % 2 == 1);
        assert(values[at] == entries[k - 1].1);
        assert(values[at - 1] == Tree::String(entries[k - 1].0));
        assert(is_yaml_node(tokens[at - 1], values[at - 1]));
        lemma_planted(tokens, values, t, at, depth);
        let before = entries.subrange(0, k - 1);
        let key = entries[k - 1].0;
        lemma_key_index(before, key);
        assert(!has_key(before, key)) by {
            if has_key(before, key) {
                let j = key_index(before, key);
                assert(before[j] == entries[j]);
            }
        }
        assert(entries.subrange(0, k as int) =~= before.push(entries[k - 1]));
    } else {
        assert(entries.subrange(0, 0) =~= Seq::<(Seq<char>, Tree)>::empty());
    }
}

/// The nodes of a value that reads back make that value again.
pub proof fn lemma_layout_makes_the_value(tokens: Seq<TokenModel>, t: Tree, depth: nat)
    requires
        is_yaml_layout(tokens, t),
        is_yaml_plain(t, depth),
    ensures
        planted_tree(tokens, NumberRule::Yaml) == t,
{
    let values = choose|values: Seq<Tree>| lists_yaml(tokens, values, t);
    lemma_planted(tokens, values, t, 0, depth);
}

} // verus!
