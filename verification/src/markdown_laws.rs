//! The value tree of a Markdown text holds what the parsed nodes hold, each at
//! its place.

use crate::document::{DocModel, FrontmatterKind};
use crate::parsers::markdown::{header_tree, markdown_value, markdown_written, nodes_tree};
use crate::parsers::markdown_nodes::{
    github_options, node_shape, node_tree, place_tree, shaped, sibling_trees, subtree_end,
    text_within, word_end, word_start, NodeModel, PayloadModel,
};
use crate::text::is_white;
use crate::value::{lemma_key_index_is, lookup, Tree};
use crate::value_eq::same_tree;
use vstd::prelude::*;

verus! {

/// No two names of kinds are the same.
proof fn lemma_names()
    ensures
        "document"@.len() == 8 && "document"@[0] == 'd' && "document"@[2] == 'c',
        "heading"@.len() == 7 && "heading"@[0] == 'h' && "heading"@[2] == 'a',
        "paragraph"@.len() == 9 && "paragraph"@[0] == 'p' && "paragraph"@[2] == 'r',
        "code_block"@.len() == 10 && "code_block"@[0] == 'c' && "code_block"@[2] == 'd',
        "block_quote"@.len() == 11 && "block_quote"@[0] == 'b' && "block_quote"@[2] == 'o',
        "list"@.len() == 4 && "list"@[0] == 'l' && "list"@[2] == 's',
        "item"@.len() == 4 && "item"@[0] == 'i' && "item"@[2] == 'e',
        "taskitem"@.len() == 8 && "taskitem"@[0] == 't' && "taskitem"@[2] == 's',
        "thematic_break"@.len() == 14 && "thematic_break"@[0] == 't' && "thematic_break"@[2] == 'e',
        "html_block"@.len() == 10 && "html_block"@[0] == 'h' && "html_block"@[2] == 'm',
        "frontmatter"@.len() == 11 && "frontmatter"@[0] == 'f' && "frontmatter"@[2] == 'o',
        "table"@.len() == 5 && "table"@[0] == 't' && "table"@[2] == 'b',
        "table_row"@.len() == 9 && "table_row"@[0] == 't' && "table_row"@[2] == 'b',
        "table_cell"@.len() == 10 && "table_cell"@[0] == 't' && "table_cell"@[2] == 'b',
        "footnote_definition"@.len() == 19 && "footnote_definition"@[0] == 'f' && "footnote_definition"@[2] == 'o',
        "text"@.len() == 4 && "text"@[0] == 't' && "text"@[2] == 'x',
        "softbreak"@.len() == 9 && "softbreak"@[0] == 's' && "softbreak"@[2] == 'f',
        "linebreak"@.len() == 9 && "linebreak"@[0] == 'l' && "linebreak"@[2] == 'n',
        "code"@.len() == 4 && "code"@[0] == 'c' && "code"@[2] == 'd',
        "html_inline"@.len() == 11 && "html_inline"@[0] == 'h' && "html_inline"@[2] == 'm',
        "emph"@.len() == 4 && "emph"@[0] == 'e' && "emph"@[2] == 'p',
        "strong"@.len() == 6 && "strong"@[0] == 's' && "strong"@[2] == 'r',
        "strikethrough"@.len() == 13 && "strikethrough"@[0] == 's' && "strikethrough"@[2] == 'r',
        "link"@.len() == 4 && "link"@[0] == 'l' && "link"@[2] == 'n',
        "image"@.len() == 5 && "image"@[0] == 'i' && "image"@[2] == 'a',
        "footnote_reference"@.len() == 18 && "footnote_reference"@[0] == 'f' && "footnote_reference"@[2] == 'o',
{
    reveal_strlit("document");
    reveal_strlit("heading");
    reveal_strlit("paragraph");
    reveal_strlit("code_block");
    reveal_strlit("block_quote");
    reveal_strlit("list");
    reveal_strlit("item");
    reveal_strlit("taskitem");
    reveal_strlit("thematic_break");
    reveal_strlit("html_block");
    reveal_strlit("frontmatter");
    reveal_strlit("table");
    reveal_strlit("table_row");
    reveal_strlit("table_cell");
    reveal_strlit("footnote_definition");
    reveal_strlit("text");
    reveal_strlit("softbreak");
    reveal_strlit("linebreak");
    reveal_strlit("code");
    reveal_strlit("html_inline");
    reveal_strlit("emph");
    reveal_strlit("strong");
    reveal_strlit("strikethrough");
    reveal_strlit("link");
    reveal_strlit("image");
    reveal_strlit("footnote_reference");
}

/// No two keys are the same.
proof fn lemma_keys()
    ensures
        "type"@.len() == 4 && "type"@[0] == 't' && "type"@[2] == 'p',
        "value"@.len() == 5 && "value"@[0] == 'v' && "value"@[2] == 'l',
        "children"@.len() == 8 && "children"@[0] == 'c' && "children"@[2] == 'i',
        "position"@.len() == 8 && "position"@[0] == 'p' && "position"@[2] == 's',
        "level"@.len() == 5 && "level"@[0] == 'l' && "level"@[2] == 'v',
        "fenced"@.len() == 6 && "fenced"@[0] == 'f' && "fenced"@[2] == 'n',
        "lang"@.len() == 4 && "lang"@[0] == 'l' && "lang"@[2] == 'n',
        "info"@.len() == 4 && "info"@[0] == 'i' && "info"@[2] == 'f',
        "ordered"@.len() == 7 && "ordered"@[0] == 'o' && "ordered"@[2] == 'd',
        "start"@.len() == 5 && "start"@[0] == 's' && "start"@[2] == 'a',
        "tight"@.len() == 5 && "tight"@[0] == 't' && "tight"@[2] == 'g',
        "checked"@.len() == 7 && "checked"@[0] == 'c' && "checked"@[2] == 'e',
        "header"@.len() == 6 && "header"@[0] == 'h' && "header"@[2] == 'a',
        "name"@.len() == 4 && "name"@[0] == 'n' && "name"@[2] == 'm',
        "url"@.len() == 3 && "url"@[0] == 'u' && "url"@[2] == 'l',
        "title"@.len() == 5 && "title"@[0] == 't' && "title"@[2] == 't',
        "alt"@.len() == 3 && "alt"@[0] == 'a' && "alt"@[2] == 't',
        "line"@.len() == 4 && "line"@[0] == 'l' && "line"@[2] == 'n',
        "column"@.len() == 6 && "column"@[0] == 'c' && "column"@[2] == 'l',
        "end"@.len() == 3 && "end"@[0] == 'e' && "end"@[2] == 'd',
        "frontmatter"@.len() == 11 && "frontmatter"@[0] == 'f' && "frontmatter"@[2] == 'o',
        "kind"@.len() == 4 && "kind"@[0] == 'k' && "kind"@[2] == 'n',
{
    reveal_strlit("type");
    reveal_strlit("value");
    reveal_strlit("children");
    reveal_strlit("position");
    reveal_strlit("level");
    reveal_strlit("fenced");
    reveal_strlit("lang");
    reveal_strlit("info");
    reveal_strlit("ordered");
    reveal_strlit("start");
    reveal_strlit("tight");
    reveal_strlit("checked");
    reveal_strlit("header");
    reveal_strlit("name");
    reveal_strlit("url");
    reveal_strlit("title");
    reveal_strlit("alt");
    reveal_strlit("line");
    reveal_strlit("column");
    reveal_strlit("end");
    reveal_strlit("frontmatter");
    reveal_strlit("kind");
}

/// What an object holds under a key.
pub open spec fn field(t: Tree, key: Seq<char>) -> Option<Tree> {
    match t {
        Tree::Object(entries) => lookup(entries, key),
        _ => None,
    }
}

/// The fields of a node behind its type.
spec fn shape_at(nodes: Seq<NodeModel>, i: int) -> (Seq<char>, Seq<(Seq<char>, Tree)>, bool) {
    let end = subtree_end(nodes, i, i + 1);
    node_shape(
        nodes[i].name,
        nodes[i].payload,
        sibling_trees(nodes, i + 1, end),
        text_within(nodes, i, end),
    )
}

proof fn lemma_type(nodes: Seq<NodeModel>, i: int)
    requires
        0 <= i < nodes.len(),
    ensures
        field(node_tree(nodes, i), "type"@) == Some(Tree::String(shape_at(nodes, i).0)),
{
    let shape = shape_at(nodes, i);
    assert(node_tree(nodes, i) == shaped(shape, nodes[i].place));
    let entries = node_tree(nodes, i)->Object_0;
    assert(entries[0] == ("type"@, Tree::String(shape.0)));
    lemma_key_index_is(entries, "type"@, 0);
}

proof fn lemma_field(nodes: Seq<NodeModel>, i: int, k: int)
    requires
        0 <= i < nodes.len(),
        0 <= k < shape_at(nodes, i).1.len(),
        shape_at(nodes, i).1[k].0 != "type"@,
        forall|j: int|
            0 <= j < k ==> (#[trigger] shape_at(nodes, i).1[j]).0 != shape_at(nodes, i).1[k].0,
    ensures
        field(node_tree(nodes, i), shape_at(nodes, i).1[k].0) == Some(shape_at(nodes, i).1[k].1),
{
    let shape = shape_at(nodes, i);
    assert(node_tree(nodes, i) == shaped(shape, nodes[i].place));
    let entries = node_tree(nodes, i)->Object_0;
    assert forall|j: int| 0 <= j <= k implies #[trigger] entries[j + 1] == shape.1[j] by {}
    assert(entries[k + 1] == shape.1[k]);
    assert forall|j: int| 0 <= j < k + 1 implies (#[trigger] entries[j]).0 != shape.1[k].0 by {
        if j > 0 {
            assert(entries[(j - 1) + 1] == shape.1[j - 1]);
        }
    }
    lemma_key_index_is(entries, shape.1[k].0, k + 1);
}

/// Whether a node of this kind is a block.
pub open spec fn is_block(name: Seq<char>) -> bool {
    name == "document"@ || name == "heading"@ || name == "paragraph"@ || name == "code_block"@
        || name == "block_quote"@ || name == "list"@ || name == "item"@ || name == "taskitem"@
        || name == "thematic_break"@ || name == "html_block"@ || name == "frontmatter"@ || name
        == "table"@ || name == "table_row"@ || name == "table_cell"@ || name
        == "footnote_definition"@
}

/// Whether a node of this kind is an inline.
pub open spec fn is_inline(name: Seq<char>) -> bool {
    name == "text"@ || name == "softbreak"@ || name == "linebreak"@ || name == "code"@ || name
        == "html_inline"@ || name == "emph"@ || name == "strong"@ || name == "strikethrough"@
        || name == "link"@ || name == "image"@ || name == "footnote_reference"@
}

/// Whether a node of this kind holds other nodes.
pub open spec fn holds_children(name: Seq<char>) -> bool {
    name == "document"@ || name == "heading"@ || name == "paragraph"@ || name == "block_quote"@
        || name == "list"@ || name == "item"@ || name == "taskitem"@ || name == "table"@ || name
        == "table_row"@ || name == "table_cell"@ || name == "footnote_definition"@ || name
        == "emph"@ || name == "strong"@ || name == "strikethrough"@ || name == "link"@
}

/// Every object says of what kind its node is: by the name of the kind, but for
/// the few that have another name there.
pub proof fn law_node_says_its_kind(nodes: Seq<NodeModel>, i: int)
    requires
        0 <= i < nodes.len(),
    ensures
        ({
            let name = nodes[i].name;
            let kind = field(node_tree(nodes, i), "type"@);
            if name == "item"@ || name == "taskitem"@ {
                kind == Some(Tree::String("list_item"@))
            } else if name == "frontmatter"@ {
                kind == Some(Tree::String("html_block"@))
            } else if name == "softbreak"@ {
                kind == Some(Tree::String("soft_break"@))
            } else if name == "linebreak"@ {
                kind == Some(Tree::String("line_break"@))
            } else if name == "emph"@ {
                kind == Some(Tree::String("emphasis"@))
            } else if is_block(name) || is_inline(name) {
                kind == Some(Tree::String(name))
            } else {
                kind == Some(Tree::String("unknown"@))
            }
        }),
{
    lemma_names();
    lemma_type(nodes, i);
}

/// The text of a text, of code and of HTML stands in its object as it was read.
pub proof fn law_node_keeps_its_text(nodes: Seq<NodeModel>, i: int, text: Seq<char>)
    requires
        0 <= i < nodes.len(),
        nodes[i].payload == PayloadModel::Words(text),
    ensures
        ({
            let name = nodes[i].name;
            let shown = Some(Tree::String(text));
            &&& name == "text"@ || name == "code"@ || name == "html_inline"@ || name
                == "html_block"@ || name == "frontmatter"@ ==> field(node_tree(nodes, i), "value"@)
                == shown
            &&& name == "footnote_definition"@ || name == "footnote_reference"@ ==> field(
                node_tree(nodes, i),
                "name"@,
            ) == shown
        }),
{
    lemma_names();
    lemma_keys();
    let name = nodes[i].name;
    if name == "text"@ || name == "code"@ || name == "html_inline"@ || name == "html_block"@ || name
        == "frontmatter"@ || name == "footnote_definition"@ || name == "footnote_reference"@ {
        lemma_field(nodes, i, 0);
    }
}

/// A node of a kind that is not mapped shows its text for diagnosis.
pub proof fn law_unknown_node_shows_itself(nodes: Seq<NodeModel>, i: int, text: Seq<char>)
    requires
        0 <= i < nodes.len(),
        nodes[i].payload == PayloadModel::Bare(text),
        !is_block(nodes[i].name),
        !is_inline(nodes[i].name),
    ensures
        field(node_tree(nodes, i), "value"@) == Some(Tree::String(text)),
{
    lemma_keys();
    lemma_field(nodes, i, 0);
}

/// A text without white space behind which a text goes on with some, or ends.
pub open spec fn is_first_word(word: Seq<char>, text: Seq<char>) -> bool {
    exists|from: int|
        {
            &&& 0 <= from && from + word.len() <= text.len()
            &&& word.len() > 0
            &&& word == #[trigger] text.subrange(from, from + word.len())
            &&& forall|i: int| 0 <= i < from ==> is_white(#[trigger] text[i])
            &&& forall|i: int| from <= i < from + word.len() ==> !is_white(#[trigger] text[i])
            &&& from + word.len() < text.len() ==> is_white(text[from + word.len()])
        }
}

proof fn lemma_word_start(s: Seq<char>, k: int)
    requires
        0 <= k <= s.len(),
    ensures
        k <= word_start(s, k) <= s.len(),
        forall|i: int| k <= i < word_start(s, k) ==> is_white(#[trigger] s[i]),
        word_start(s, k) < s.len() ==> !is_white(s[word_start(s, k)]),
    decreases s.len() - k,
{
    if k < s.len() && is_white(s[k]) {
        lemma_word_start(s, k + 1);
    }
}

proof fn lemma_word_end(s: Seq<char>, k: int)
    requires
        0 <= k <= s.len(),
    ensures
        k <= word_end(s, k) <= s.len(),
        forall|i: int| k <= i < word_end(s, k) ==> !is_white(#[trigger] s[i]),
        word_end(s, k) < s.len() ==> is_white(s[word_end(s, k)]),
    decreases s.len() - k,
{
    if k < s.len() && !is_white(s[k]) {
        lemma_word_end(s, k + 1);
    }
}

/// A code block shows whether it is fenced, its info string, its text, and as
/// its language the first word of the info string.
pub proof fn law_code_block_keeps_its_text(
    nodes: Seq<NodeModel>,
    i: int,
    fenced: bool,
    info: Seq<char>,
    text: Seq<char>,
)
    requires
        0 <= i < nodes.len(),
        nodes[i].name == "code_block"@,
        nodes[i].payload == PayloadModel::Fence(fenced, info, text),
    ensures
        ({
            let t = node_tree(nodes, i);
            &&& field(t, "fenced"@) == Some(Tree::Bool(fenced))
            &&& field(t, "info"@) == Some(Tree::String(info))
            &&& field(t, "value"@) == Some(Tree::String(text))
            &&& match field(t, "lang"@) {
                Some(Tree::String(word)) => is_first_word(word, info),
                Some(Tree::Null) => forall|k: int|
                    0 <= k < info.len() ==> is_white(#[trigger] info[k]),
                _ => false,
            }
        }),
{
    lemma_names();
    lemma_keys();
    lemma_field(nodes, i, 0);
    lemma_field(nodes, i, 1);
    lemma_field(nodes, i, 2);
    lemma_field(nodes, i, 3);
    lemma_word_start(info, 0);
    let from = word_start(info, 0);
    if from < info.len() {
        lemma_word_end(info, from);
        let word = info.subrange(from, word_end(info, from));
        assert(word == info.subrange(from, from + word.len()));
        assert(is_first_word(word, info));
    }
}

/// A heading shows its level, a list how it counts, a task whether it is done,
/// a row whether it is the header.
pub proof fn law_block_keeps_its_marks(nodes: Seq<NodeModel>, i: int)
    requires
        0 <= i < nodes.len(),
    ensures
        ({
            let t = node_tree(nodes, i);
            let name = nodes[i].name;
            &&& name == "heading"@ ==> (nodes[i].payload matches PayloadModel::Level(n) ==> field(
                t,
                "level"@,
            ) == Some(Tree::Int(n)))
            &&& name == "list"@ ==> (nodes[i].payload matches PayloadModel::Listing(
                ordered,
                start,
                tight,
            ) ==> {
                &&& field(t, "ordered"@) == Some(Tree::Bool(ordered))
                &&& ordered ==> field(t, "start"@) == Some(Tree::Int(start))
                &&& !ordered ==> field(t, "start"@) == Some(Tree::Null)
                &&& field(t, "tight"@) == Some(Tree::Bool(tight))
            })
            &&& name == "taskitem"@ ==> (nodes[i].payload matches PayloadModel::Mark(symbol)
                ==> field(t, "checked"@) == Some(Tree::Bool(symbol is Some)))
            &&& name == "item"@ ==> field(t, "checked"@) == Some(Tree::Null)
            &&& name == "table_row"@ ==> (nodes[i].payload matches PayloadModel::Flag(header)
                ==> field(t, "header"@) == Some(Tree::Bool(header)))
        }),
{
    lemma_names();
    lemma_keys();
    let name = nodes[i].name;
    if name == "heading"@ || name == "taskitem"@ || name == "item"@ || name == "table_row"@ || name
        == "list"@ {
        lemma_field(nodes, i, 0);
    }
    if name == "list"@ {
        lemma_field(nodes, i, 1);
        lemma_field(nodes, i, 2);
    }
}

/// The texts of the text nodes from `from` to `to`, one behind the other.
pub open spec fn texts_between(nodes: Seq<NodeModel>, from: int, to: int) -> Seq<char>
    decreases to - from,
{
    if from >= to {
        Seq::empty()
    } else {
        (match nodes[from].payload {
            PayloadModel::Words(s) if nodes[from].name == "text"@ => s,
            _ => Seq::empty(),
        }) + texts_between(nodes, from + 1, to)
    }
}

proof fn lemma_texts_split(nodes: Seq<NodeModel>, from: int, mid: int, to: int)
    requires
        from <= mid <= to,
    ensures
        texts_between(nodes, from, to) == texts_between(nodes, from, mid) + texts_between(
            nodes,
            mid,
            to,
        ),
    decreases mid - from,
{
    if from < mid {
        lemma_texts_split(nodes, from + 1, mid, to);
    }
    assert(texts_between(nodes, from, to) =~= texts_between(nodes, from, mid) + texts_between(
        nodes,
        mid,
        to,
    ));
}

proof fn lemma_text_within(nodes: Seq<NodeModel>, from: int, to: int)
    requires
        from <= to,
    ensures
        text_within(nodes, from, to) == texts_between(nodes, from, to),
    decreases to - from,
{
    if from < to {
        lemma_text_within(nodes, from, to - 1);
        lemma_texts_split(nodes, from, to - 1, to);
        assert(texts_between(nodes, to, to) =~= Seq::<char>::empty());
        assert(text_within(nodes, from, to) =~= texts_between(nodes, from, to));
    }
}

/// Where the nodes below node `i` end.
pub open spec fn ends_at(nodes: Seq<NodeModel>, i: int, end: int) -> bool {
    &&& i < end <= nodes.len()
    &&& forall|k: int| i < k < end ==> nodes[i].depth < (#[trigger] nodes[k]).depth
    &&& end < nodes.len() ==> nodes[end].depth <= nodes[i].depth
}

proof fn lemma_end(nodes: Seq<NodeModel>, i: int, k: int)
    requires
        0 <= i < k <= nodes.len(),
        forall|j: int| i < j < k ==> nodes[i].depth < (#[trigger] nodes[j]).depth,
    ensures
        k <= subtree_end(nodes, i, k),
        ends_at(nodes, i, subtree_end(nodes, i, k)),
    decreases nodes.len() - k,
{
    if k < nodes.len() && nodes[k].depth > nodes[i].depth {
        lemma_end(nodes, i, k + 1);
    }
}

proof fn lemma_one_end(nodes: Seq<NodeModel>, i: int, a: int, b: int)
    requires
        0 <= i,
        ends_at(nodes, i, a),
        ends_at(nodes, i, b),
    ensures
        a == b,
{
    if a < b {
        assert(nodes[a].depth > nodes[i].depth);
    } else if b < a {
        assert(nodes[b].depth > nodes[i].depth);
    }
}

/// A link and an image show where they lead and their title, and an image the
/// text that stands below it.
pub proof fn law_link_keeps_its_target(
    nodes: Seq<NodeModel>,
    i: int,
    end: int,
    url: Seq<char>,
    title: Seq<char>,
)
    requires
        0 <= i < nodes.len(),
        ends_at(nodes, i, end),
        nodes[i].name == "link"@ || nodes[i].name == "image"@,
        nodes[i].payload == PayloadModel::Target(url, title),
    ensures
        ({
            let t = node_tree(nodes, i);
            &&& field(t, "url"@) == Some(Tree::String(url))
            &&& title.len() > 0 ==> field(t, "title"@) == Some(Tree::String(title))
            &&& title.len() == 0 ==> field(t, "title"@) == Some(Tree::Null)
            &&& nodes[i].name == "image"@ ==> field(t, "alt"@) == Some(
                Tree::String(texts_between(nodes, i, end)),
            )
        }),
{
    lemma_names();
    lemma_keys();
    lemma_end(nodes, i, i + 1);
    lemma_one_end(nodes, i, subtree_end(nodes, i, i + 1), end);
    lemma_text_within(nodes, i, end);
    lemma_field(nodes, i, 0);
    lemma_field(nodes, i, 1);
    lemma_field(nodes, i, 2);
}

/// Every block, and every node that is not mapped, shows its position: the lines
/// and columns of its start and its end.
pub proof fn law_block_keeps_its_place(nodes: Seq<NodeModel>, i: int)
    requires
        0 <= i < nodes.len(),
    ensures
        ({
            let t = node_tree(nodes, i);
            let place = nodes[i].place;
            if is_inline(nodes[i].name) {
                field(t, "position"@) is None
            } else {
                &&& field(t, "position"@) matches Some(p)
                &&& field(p, "start"@) matches Some(start)
                &&& field(p, "end"@) matches Some(end)
                &&& field(start, "line"@) == Some(Tree::Int(place.0))
                &&& field(start, "column"@) == Some(Tree::Int(place.1))
                &&& field(end, "line"@) == Some(Tree::Int(place.2))
                &&& field(end, "column"@) == Some(Tree::Int(place.3))
            }
        }),
{
    lemma_names();
    lemma_keys();
    let shape = shape_at(nodes, i);
    let t = node_tree(nodes, i);
    assert(t == shaped(shape, nodes[i].place));
    let entries = t->Object_0;
    assert forall|j: int| 0 <= j < shape.1.len() implies (#[trigger] shape.1[j]).0 != "position"@
        && entries[j + 1] == shape.1[j] by {}
    assert forall|j: int| 0 <= j < shape.1.len() + 1 implies (#[trigger] entries[j]).0
        != "position"@ by {
        if j > 0 {
            assert(shape.1[j - 1].0 != "position"@);
            assert(entries[(j - 1) + 1] == shape.1[j - 1]);
        }
    }
    assert(shape.2 == !is_inline(nodes[i].name));
    lemma_key_index_is(entries, "position"@, shape.1.len() as int + 1);
    if shape.2 {
        let p = place_tree(nodes[i].place);
        lemma_place(nodes[i].place);
        assert(field(t, "position"@) == Some(p));
    }
}

proof fn lemma_place(place: (int, int, int, int))
    ensures
        ({
            let p = place_tree(place);
            &&& field(p, "start"@) matches Some(start)
            &&& field(p, "end"@) matches Some(end)
            &&& field(start, "line"@) == Some(Tree::Int(place.0))
            &&& field(start, "column"@) == Some(Tree::Int(place.1))
            &&& field(end, "line"@) == Some(Tree::Int(place.2))
            &&& field(end, "column"@) == Some(Tree::Int(place.3))
        }),
{
    lemma_keys();
    let p = place_tree(place)->Object_0;
    lemma_key_index_is(p, "start"@, 0);
    lemma_key_index_is(p, "end"@, 1);
    lemma_key_index_is(p[0].1->Object_0, "line"@, 0);
    lemma_key_index_is(p[0].1->Object_0, "column"@, 1);
    lemma_key_index_is(p[1].1->Object_0, "line"@, 0);
    lemma_key_index_is(p[1].1->Object_0, "column"@, 1);
}

/// Whether `starts` are the nodes that stand side by side from `from` to `to`:
/// the first is at `from`, each of the others is the first that does not lie
/// below the one before, and the last ends at `to`.
pub open spec fn are_siblings(nodes: Seq<NodeModel>, starts: Seq<int>, from: int, to: int) -> bool {
    if starts.len() == 0 {
        from == to
    } else {
        &&& starts[0] == from
        &&& forall|k: int|
            0 <= k < starts.len() ==> ends_at(
                nodes,
                #[trigger] starts[k],
                if k + 1 < starts.len() {
                    starts[k + 1]
                } else {
                    to
                },
            )
    }
}

/// Whether every node from `from` to `to` lies at least as deep as the one at
/// `from`, so that none is cut off from its siblings.
pub open spec fn nodes_are_nested(nodes: Seq<NodeModel>, from: int, to: int) -> bool {
    &&& 0 <= from <= to <= nodes.len()
    &&& forall|k: int|
        from <= k < to && from < to ==> nodes[from].depth <= (#[trigger] nodes[k]).depth
    &&& to < nodes.len() && from < to ==> nodes[to].depth <= nodes[from].depth
}

proof fn lemma_siblings(nodes: Seq<NodeModel>, from: int, to: int) -> (starts: Seq<int>)
    requires
        nodes_are_nested(nodes, from, to),
    ensures
        are_siblings(nodes, starts, from, to),
        sibling_trees(nodes, from, to).len() == starts.len(),
        forall|k: int|
            0 <= k < starts.len() ==> #[trigger] sibling_trees(nodes, from, to)[k] == node_tree(
                nodes,
                starts[k],
            ),
        forall|k: int| 0 <= k < starts.len() ==> from <= #[trigger] starts[k] < to,
    decreases to - from,
{
    if from == to {
        assert(sibling_trees(nodes, from, to) =~= Seq::<Tree>::empty());
        Seq::empty()
    } else {
        let next = subtree_end(nodes, from, from + 1);
        lemma_end(nodes, from, from + 1);
        if next > to {
            assert(nodes[to].depth > nodes[from].depth);
        }
        assert(next < to ==> nodes[next].depth == nodes[from].depth);
        let rest = lemma_siblings(nodes, next, to);
        let starts = seq![from] + rest;
        let whole = sibling_trees(nodes, from, to);
        assert(whole == seq![node_tree(nodes, from)] + sibling_trees(nodes, next, to));
        assert forall|k: int| 0 <= k < starts.len() implies ends_at(
            nodes,
            #[trigger] starts[k],
            if k + 1 < starts.len() {
                starts[k + 1]
            } else {
                to
            },
        ) by {
            if k > 0 {
                assert(starts[k] == rest[k - 1]);
                if k + 1 < starts.len() {
                    assert(starts[k + 1] == rest[k]);
                }
            } else if rest.len() > 0 {
                assert(starts[1] == rest[0]);
            }
        }
        assert forall|k: int| 0 <= k < starts.len() implies #[trigger] whole[k] == node_tree(
            nodes,
            starts[k],
        ) by {
            if k > 0 {
                assert(whole[k] == sibling_trees(nodes, next, to)[k - 1]);
                assert(starts[k] == rest[k - 1]);
            }
        }
        assert forall|k: int| 0 <= k < starts.len() implies from <= #[trigger] starts[k] < to by {
            if k > 0 {
                assert(starts[k] == rest[k - 1]);
            }
        }
        starts
    }
}

/// Whether the nodes right below a node lie at its depth and one more, and no
/// node between them is less deep.
pub open spec fn is_nested(nodes: Seq<NodeModel>, i: int, end: int) -> bool {
    ends_at(nodes, i, end) && nodes_are_nested(nodes, i + 1, end)
}

/// A node that holds others shows under `children` exactly the nodes right below
/// it, in their order.
pub proof fn law_children_are_the_nodes_below(nodes: Seq<NodeModel>, i: int, end: int)
    requires
        0 <= i < nodes.len(),
        is_nested(nodes, i, end),
        holds_children(nodes[i].name),
    ensures
        exists|starts: Seq<int>|
            {
                &&& #[trigger] are_siblings(nodes, starts, i + 1, end)
                &&& field(node_tree(nodes, i), "children"@) == Some(
                    Tree::Array(starts.map_values(|j: int| node_tree(nodes, j))),
                )
            },
{
    lemma_names();
    lemma_keys();
    lemma_end(nodes, i, i + 1);
    lemma_one_end(nodes, i, subtree_end(nodes, i, i + 1), end);
    let starts = lemma_siblings(nodes, i + 1, end);
    let name = nodes[i].name;
    let k: int = if name == "list"@ {
        3
    } else if name == "link"@ {
        2
    } else if name == "heading"@ || name == "item"@ || name == "taskitem"@ || name == "table_row"@
        || name == "footnote_definition"@ {
        1
    } else {
        0
    };
    lemma_field(nodes, i, k);
    assert(sibling_trees(nodes, i + 1, end) =~= starts.map_values(|j: int| node_tree(nodes, j)));
}

/// A document shows its header, the nodes right below its root in their order,
/// and its position.
pub proof fn law_document_holds_its_parts(header: Tree, nodes: Seq<NodeModel>, end: int)
    requires
        nodes.len() > 0,
        is_nested(nodes, 0, end),
    ensures
        ({
            let t = nodes_tree(header, nodes);
            &&& field(t, "type"@) == Some(Tree::String("document"@))
            &&& field(t, "frontmatter"@) == Some(header)
            &&& exists|starts: Seq<int>|
                {
                    &&& #[trigger] are_siblings(nodes, starts, 1, end)
                    &&& field(t, "children"@) == Some(
                        Tree::Array(starts.map_values(|j: int| node_tree(nodes, j))),
                    )
                }
            &&& field(t, "position"@) matches Some(p)
            &&& field(p, "start"@) matches Some(a)
            &&& field(p, "end"@) matches Some(b)
            &&& field(a, "line"@) == Some(Tree::Int(nodes[0].place.0))
            &&& field(a, "column"@) == Some(Tree::Int(nodes[0].place.1))
            &&& field(b, "line"@) == Some(Tree::Int(nodes[0].place.2))
            &&& field(b, "column"@) == Some(Tree::Int(nodes[0].place.3))
        }),
{
    lemma_keys();
    lemma_end(nodes, 0, 1);
    lemma_one_end(nodes, 0, subtree_end(nodes, 0, 1), end);
    let starts = lemma_siblings(nodes, 1, end);
    assert(sibling_trees(nodes, 1, end) =~= starts.map_values(|j: int| node_tree(nodes, j)));
    let entries = nodes_tree(header, nodes)->Object_0;
    lemma_key_index_is(entries, "type"@, 0);
    lemma_key_index_is(entries, "frontmatter"@, 1);
    lemma_key_index_is(entries, "children"@, 2);
    lemma_key_index_is(entries, "position"@, 3);
    lemma_place(nodes[0].place);
}

// ---------------------------------------------------------------------------
// The text of a document
// ---------------------------------------------------------------------------

/// The text that a value tree shows: that of its texts and images, in order.
pub open spec fn prose(t: Tree) -> Seq<char>
    decreases t, 0nat,
{
    match t {
        Tree::Object(entries) => if lookup(entries, "type"@) == Some(Tree::String("text"@)) {
            match lookup(entries, "value"@) {
                Some(Tree::String(s)) => s,
                _ => Seq::empty(),
            }
        } else if lookup(entries, "type"@) == Some(Tree::String("image"@)) {
            match lookup(entries, "alt"@) {
                Some(Tree::String(s)) => s,
                _ => Seq::empty(),
            }
        } else {
            entry_prose(entries, entries.len())
        },
        Tree::Array(items) => item_prose(items, items.len()),
        _ => Seq::empty(),
    }
}

/// The text that the first `k` items show.
pub open spec fn item_prose(items: Seq<Tree>, k: nat) -> Seq<char>
    decreases items, k,
{
    if k == 0 || k > items.len() {
        Seq::empty()
    } else {
        item_prose(items, (k - 1) as nat) + prose(items[k - 1])
    }
}

/// The text that the values of the first `k` entries show.
pub open spec fn entry_prose(entries: Seq<(Seq<char>, Tree)>, k: nat) -> Seq<char>
    decreases entries, k,
{
    if k == 0 || k > entries.len() {
        Seq::empty()
    } else {
        entry_prose(entries, (k - 1) as nat) + prose(entries[k - 1].1)
    }
}

proof fn lemma_place_prose(place: (int, int, int, int))
    ensures
        prose(place_tree(place)).len() == 0,
{
    lemma_keys();
    let p = place_tree(place)->Object_0;
    lemma_key_index_is(p, "type"@, 2);
    lemma_key_index_is(p[0].1->Object_0, "type"@, 2);
    lemma_key_index_is(p[1].1->Object_0, "type"@, 2);
    let a = p[0].1->Object_0;
    let b = p[1].1->Object_0;
    reveal_with_fuel(entry_prose, 3);
    assert(prose(a[0].1).len() == 0 && prose(a[1].1).len() == 0);
    assert(entry_prose(a, 1).len() == 0);
    assert(entry_prose(a, 2).len() == 0);
    assert(prose(p[0].1).len() == 0);
    assert(prose(b[0].1).len() == 0 && prose(b[1].1).len() == 0);
    assert(entry_prose(b, 1).len() == 0);
    assert(entry_prose(b, 2).len() == 0);
    assert(prose(p[1].1).len() == 0);
    assert(entry_prose(p, 1).len() == 0);
    assert(entry_prose(p, 2).len() == 0);
}

/// The text of a node that holds others is that of its children.
proof fn lemma_entries_prose(entries: Seq<(Seq<char>, Tree)>, at: int, k: nat)
    requires
        k <= entries.len(),
        forall|j: int|
            0 <= j < entries.len() && j != at ==> prose((#[trigger] entries[j]).1).len() == 0,
    ensures
        entry_prose(entries, k) == (if 0 <= at < k {
            prose(entries[at].1)
        } else {
            Seq::<char>::empty()
        }),
    decreases k,
{
    if k > 0 {
        lemma_entries_prose(entries, at, (k - 1) as nat);
        assert(entries[k - 1].1 == entries[k - 1].1);
        assert(entry_prose(entries, k) =~= (if 0 <= at < k {
            prose(entries[at].1)
        } else {
            Seq::<char>::empty()
        }));
    }
}

/// Whether the nodes of a subtree are nested, and nothing lies below one that
/// holds nothing.
pub open spec fn is_sound(nodes: Seq<NodeModel>) -> bool {
    &&& forall|i: int, end: int|
        0 <= i < nodes.len() && #[trigger] ends_at(nodes, i, end) ==> {
            &&& nodes_are_nested(nodes, i + 1, end)
            &&& !holds_children(nodes[i].name) && nodes[i].name != "image"@ ==> end == i + 1
        }
    &&& forall|i: int|
        0 <= i < nodes.len() && (#[trigger] nodes[i]).name == "text"@ ==> nodes[i].payload is Words
}

/// The text that a node shows is that of the text nodes from it to the end of
/// what lies below it, in the order in which they were read.
pub proof fn law_texts_are_kept_in_order(nodes: Seq<NodeModel>, i: int, end: int)
    requires
        0 <= i < nodes.len(),
        is_sound(nodes),
        ends_at(nodes, i, end),
    ensures
        prose(node_tree(nodes, i)) == texts_between(nodes, i, end),
    decreases nodes.len() - i, 0nat,
{
    lemma_names();
    lemma_keys();
    lemma_end(nodes, i, i + 1);
    lemma_one_end(nodes, i, subtree_end(nodes, i, i + 1), end);
    lemma_text_within(nodes, i, end);
    lemma_type(nodes, i);
    law_node_says_its_kind(nodes, i);
    reveal_strlit("list_item");
    reveal_strlit("soft_break");
    reveal_strlit("line_break");
    reveal_strlit("emphasis");
    reveal_strlit("unknown");
    assert("list_item"@.len() == 9 && "soft_break"@.len() == 10 && "line_break"@.len() == 10
        && "emphasis"@.len() == 8 && "unknown"@.len() == 7);
    let shape = shape_at(nodes, i);
    let t = node_tree(nodes, i);
    assert(t == shaped(shape, nodes[i].place));
    let entries = t->Object_0;
    let name = nodes[i].name;
    lemma_texts_split(nodes, i, i + 1, end);
    assert(texts_between(nodes, i + 1, i + 1) =~= Seq::<char>::empty());
    if name == "text"@ {
        law_node_keeps_its_text(nodes, i, nodes[i].payload->Words_0);
        assert(texts_between(nodes, i + 1, end) =~= Seq::<char>::empty());
        assert(prose(t) =~= texts_between(nodes, i, end));
    } else if name == "image"@ {
        lemma_field(nodes, i, 1);
    } else {
        let at: int = if !holds_children(name) {
            -1
        } else if name == "list"@ {
            4
        } else if name == "link"@ {
            3
        } else if name == "heading"@ || name == "item"@ || name == "taskitem"@ || name
            == "table_row"@ || name == "footnote_definition"@ {
            2
        } else {
            1
        };
        lemma_place_prose(nodes[i].place);
        assert forall|j: int| 0 <= j < entries.len() && j != at implies prose(
            (#[trigger] entries[j]).1,
        ).len() == 0 by {
            if 0 < j <= shape.1.len() {
                assert(entries[j] == shape.1[j - 1]);
            }
        }
        lemma_entries_prose(entries, at, entries.len());
        if holds_children(name) {
            assert(entries[at] == shape.1[at - 1]);
            lemma_siblings_prose(nodes, i + 1, end);
            let items = sibling_trees(nodes, i + 1, end);
            assert(entries[at].1 == Tree::Array(items));
            assert(prose(entries[at].1) == item_prose(items, items.len()));
        }
        assert(prose(t) =~= texts_between(nodes, i, end));
    }
}

proof fn lemma_item_prose_front(items: Seq<Tree>, k: nat)
    requires
        0 < k <= items.len(),
    ensures
        item_prose(items, k) == prose(items[0]) + item_prose(
            items.subrange(1, items.len() as int),
            (k - 1) as nat,
        ),
    decreases k,
{
    let rest = items.subrange(1, items.len() as int);
    if k == 1 {
        assert(item_prose(items, 0) =~= Seq::<char>::empty());
        assert(item_prose(rest, 0) =~= Seq::<char>::empty());
        assert(item_prose(items, 1) =~= prose(items[0]) + item_prose(rest, 0));
    } else {
        lemma_item_prose_front(items, (k - 1) as nat);
        assert(rest[k - 2] == items[k - 1]);
        assert(item_prose(items, k) =~= prose(items[0]) + item_prose(rest, (k - 1) as nat));
    }
}

proof fn lemma_siblings_prose(nodes: Seq<NodeModel>, from: int, to: int)
    requires
        is_sound(nodes),
        nodes_are_nested(nodes, from, to),
    ensures
        item_prose(sibling_trees(nodes, from, to), sibling_trees(nodes, from, to).len())
            == texts_between(nodes, from, to),
    decreases nodes.len() - from, 1nat,
{
    if from < to {
        let next = subtree_end(nodes, from, from + 1);
        lemma_end(nodes, from, from + 1);
        if next > to {
            assert(nodes[to].depth > nodes[from].depth);
        }
        assert(next < to ==> nodes[next].depth == nodes[from].depth);
        law_texts_are_kept_in_order(nodes, from, next);
        lemma_siblings_prose(nodes, next, to);
        lemma_texts_split(nodes, from, next, to);
        let whole = sibling_trees(nodes, from, to);
        let rest = sibling_trees(nodes, next, to);
        assert(whole == seq![node_tree(nodes, from)] + rest);
        lemma_item_prose_front(whole, whole.len());
        assert(whole.subrange(1, whole.len() as int) =~= rest);
    } else {
        assert(sibling_trees(nodes, from, to) =~= Seq::<Tree>::empty());
        assert(item_prose(Seq::<Tree>::empty(), 0) =~= texts_between(nodes, from, to));
    }
}

/// The text that a document shows is that of all the text nodes below its root,
/// in the order in which they were read.
pub proof fn law_document_shows_every_text(header: Tree, nodes: Seq<NodeModel>, end: int)
    requires
        nodes.len() > 0,
        is_sound(nodes),
        ends_at(nodes, 0, end),
    ensures
        ({
            &&& field(nodes_tree(header, nodes), "children"@) matches Some(children)
            &&& prose(children) == texts_between(nodes, 1, end)
        }),
{
    lemma_keys();
    lemma_end(nodes, 0, 1);
    lemma_one_end(nodes, 0, subtree_end(nodes, 0, 1), end);
    lemma_siblings_prose(nodes, 1, end);
    let entries = nodes_tree(header, nodes)->Object_0;
    lemma_key_index_is(entries, "children"@, 2);
}

/// A document shows its header by the name of its format and its value.
pub proof fn law_header_is_shown(kind: FrontmatterKind, value: Tree)
    ensures
        field(header_tree(kind, value), "value"@) == Some(value),
        field(header_tree(kind, value), "kind"@) == Some(
            Tree::String(
                match kind {
                    FrontmatterKind::Yaml => seq!['y', 'a', 'm', 'l'],
                    FrontmatterKind::Toml => seq!['t', 'o', 'm', 'l'],
                    FrontmatterKind::Json => seq!['j', 's', 'o', 'n'],
                },
            ),
        ),
{
    lemma_keys();
    reveal_strlit("yaml");
    reveal_strlit("toml");
    reveal_strlit("json");
    assert("yaml"@ =~= seq!['y', 'a', 'm', 'l']);
    assert("toml"@ =~= seq!['t', 'o', 'm', 'l']);
    assert("json"@ =~= seq!['j', 's', 'o', 'n']);
    let entries = header_tree(kind, value)->Object_0;
    lemma_key_index_is(entries, "kind"@, 0);
    lemma_key_index_is(entries, "value"@, 1);
}

/// A Markdown document is written only as it was read: where its value is not that
/// of its source, nothing is written.
pub proof fn law_changed_markdown_is_refused(doc: DocModel)
    ensures
        markdown_written(doc).1 is Ok ==> markdown_written(doc).0 == doc.bytes,
        markdown_written(doc).1 is Err ==> markdown_written(doc).0.len() == 0,
        doc.bytes.len() > 0 ==> (markdown_written(doc).1 is Ok <==> (markdown_value(
            doc.bytes,
        ) matches Ok(read) && same_tree(read, doc.value))),
{
    if doc.bytes.len() == 0 {
        assert(doc.bytes =~= Seq::<u8>::empty());
    }
}

/// Tables, strikethrough, autolinks, task lists and footnotes are all read.
pub proof fn law_every_extension_is_read()
    ensures
        ({
            let read = github_options();
            read.table && read.strikethrough && read.autolink && read.tasklist && read.footnotes
        }),
{
}

} // verus!
