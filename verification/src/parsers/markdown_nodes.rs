//! The syntax tree of a Markdown text, and the value tree made of it.
//!
//! Each node becomes an object with a `type` and the fields of that type.
//! Blocks carry their `position`; inlines do not.

use crate::parsers::markdown_nodes::MdPayload::{
    Bare, Fence, Flag, Level, Listing, Mark, Target, Words,
};
use crate::text::{chars_of, is_white, same_text, text_between, white};
use crate::value::{entry_trees, lemma_array_view, lemma_object_view, trees, Tree, Value, ValueMap};
use comrak::nodes::ListType::Ordered;
use comrak::nodes::NodeValue;
use comrak::nodes::NodeValue::{
    Code, CodeBlock, FootnoteDefinition, FootnoteReference, FrontMatter, Heading, HtmlBlock,
    HtmlInline, Image, Link, List, TableRow, TaskItem,
};
use comrak::{parse_document, Arena, Options};
use vstd::prelude::*;

verus! {

// ---------------------------------------------------------------------------
// The syntax tree
// ---------------------------------------------------------------------------

/// Which extensions of Markdown are read.
#[derive(Debug, Clone, Copy)]
pub struct MarkdownOptions {
    /// Tables.
    pub table: bool,
    /// Strikethrough.
    pub strikethrough: bool,
    /// Bare links.
    pub autolink: bool,
    /// Task lists.
    pub tasklist: bool,
    /// Footnotes.
    pub footnotes: bool,
}

/// What a node carries besides its children.
#[derive(Debug)]
pub enum MdPayload {
    /// The level of a heading.
    Level(u8),
    /// A code block: whether it is fenced, its info string, its text.
    Fence(bool, String, String),
    /// A list: whether it is ordered, its first number, whether it is tight.
    Listing(bool, i64, bool),
    /// Whether a table row is the header.
    Flag(bool),
    /// The symbol that marks a task as done.
    Mark(Option<char>),
    /// A text or a name.
    Words(String),
    /// The URL and the title of a link or an image.
    Target(String, String),
    /// Nothing; the text shows the node for diagnosis.
    Bare(String),
}

/// One node of the syntax tree. The nodes stand in the order in which a reader
/// meets them, each before its children, and the depth tells them apart.
#[derive(Debug)]
pub struct MdNode {
    /// The name of the node's kind.
    pub name: String,
    /// What the node carries.
    pub payload: MdPayload,
    /// How deep the node lies.
    pub depth: usize,
    /// Start line and column, end line and column.
    pub place: (i64, i64, i64, i64),
}

/// What an [`MdPayload`] is, mathematically.
pub enum PayloadModel {
    Level(int),
    Fence(bool, Seq<char>, Seq<char>),
    Listing(bool, int, bool),
    Flag(bool),
    Mark(Option<char>),
    Words(Seq<char>),
    Target(Seq<char>, Seq<char>),
    Bare(Seq<char>),
}

/// What an [`MdNode`] is, mathematically.
pub struct NodeModel {
    pub name: Seq<char>,
    pub payload: PayloadModel,
    pub depth: int,
    pub place: (int, int, int, int),
}

impl View for MdPayload {
    type V = PayloadModel;

    open spec fn view(&self) -> PayloadModel {
        match self {
            MdPayload::Level(n) => PayloadModel::Level(*n as int),
            MdPayload::Fence(f, info, text) => PayloadModel::Fence(*f, info@, text@),
            MdPayload::Listing(o, start, tight) => PayloadModel::Listing(*o, *start as int, *tight),
            MdPayload::Flag(f) => PayloadModel::Flag(*f),
            MdPayload::Mark(symbol) => PayloadModel::Mark(*symbol),
            MdPayload::Words(s) => PayloadModel::Words(s@),
            MdPayload::Target(url, title) => PayloadModel::Target(url@, title@),
            MdPayload::Bare(s) => PayloadModel::Bare(s@),
        }
    }
}

impl View for MdNode {
    type V = NodeModel;

    open spec fn view(&self) -> NodeModel {
        NodeModel {
            name: self.name@,
            payload: self.payload@,
            depth: self.depth as int,
            place: (
                self.place.0 as int,
                self.place.1 as int,
                self.place.2 as int,
                self.place.3 as int,
            ),
        }
    }
}

/// The models of a sequence of nodes.
pub open spec fn node_models(nodes: Seq<MdNode>) -> Seq<NodeModel> {
    Seq::new(nodes.len(), |i: int| nodes[i]@)
}

/// The outside type of what a node holds.
#[verifier::external_type_specification]
#[verifier::external_body]
pub struct ExNodeValue(comrak::nodes::NodeValue);

/// The text or the name that a `comrak::nodes::NodeValue` carries, taken over as
/// it is; a text for diagnosis where there is neither.
#[verifier::external_body]
fn wording_of(value: &NodeValue) -> MdPayload {
    match value {
        HtmlBlock(h) => Words(h.literal.clone()),
        Code(c) => Words(c.literal.clone()),
        FootnoteDefinition(d) => Words(d.name.clone()),
        FootnoteReference(r) => Words(r.name.clone()),
        HtmlInline(s) | FrontMatter(s) => Words(s.clone()),
        _ => value.text().map_or_else(|| Bare(format!("{value:?}")), |t| Words(t.to_owned())),
    }
}

/// The fields of a `comrak::nodes::NodeValue` that the value tree shows, taken
/// over as they are.
#[verifier::external_body]
fn payload_of(value: &NodeValue) -> MdPayload {
    match value {
        Heading(h) => Level(h.level),
        CodeBlock(c) => Fence(c.fenced, c.info.clone(), c.literal.clone()),
        List(l) => Listing(l.list_type == Ordered, l.start as i64, l.tight),
        TaskItem(t) => Mark(t.symbol),
        TableRow(header) => Flag(*header),
        Link(l) | Image(l) => Target(l.url.clone(), l.title.clone()),
        _ => wording_of(value),
    }
}

/// What `comrak::parse_document` reads out of a text.
pub uninterp spec fn markdown_nodes(text: Seq<char>, options: MarkdownOptions) -> Seq<NodeModel>;

/// `comrak::parse_document`, its tree laid out by `descendants`, which starts
/// with the root. The name of a node is `NodeValue::xml_node_name`. The result
/// is a function of the text and the options; it is only named here.
#[verifier::external_body]
pub(crate) fn read_nodes(text: &str, o: MarkdownOptions) -> (r: Vec<MdNode>)
    ensures
        node_models(r@) == markdown_nodes(text@, o),
        r@.len() > 0,
{
    let mut opts = Options::default();
    opts.extension.table = o.table;
    opts.extension.strikethrough = o.strikethrough;
    opts.extension.autolink = o.autolink;
    opts.extension.tasklist = o.tasklist;
    opts.extension.footnotes = o.footnotes;
    let arena = Arena::new();
    parse_document(&arena, text, &opts).descendants().map(|n| {
        let d = n.data();
        let (a, b) = (d.sourcepos.start, d.sourcepos.end);
        let place = (a.line as i64, a.column as i64, b.line as i64, b.column as i64);
        let name = d.value.xml_node_name().to_owned();
        MdNode { name, payload: payload_of(&d.value), depth: n.ancestors().count(), place }
    }).collect()
}

/// The extensions that are read: those of GitHub.
pub open spec fn github_options() -> MarkdownOptions {
    MarkdownOptions {
        table: true,
        strikethrough: true,
        autolink: true,
        tasklist: true,
        footnotes: true,
    }
}

/// The extensions that are read.
pub fn build_options() -> (r: MarkdownOptions)
    ensures
        r == github_options(),
{
    MarkdownOptions {
        table: true,
        strikethrough: true,
        autolink: true,
        tasklist: true,
        footnotes: true,
    }
}

// ---------------------------------------------------------------------------
// The value tree
// ---------------------------------------------------------------------------

/// The first node behind node `i`'s subtree, looked for from `k` on.
pub open spec fn subtree_end(nodes: Seq<NodeModel>, i: int, k: int) -> int
    decreases nodes.len() - k,
{
    if 0 <= k < nodes.len() && nodes[k].depth > nodes[i].depth {
        subtree_end(nodes, i, k + 1)
    } else {
        k
    }
}

proof fn lemma_subtree_end(nodes: Seq<NodeModel>, i: int, k: int)
    requires
        0 <= k <= nodes.len(),
    ensures
        k <= subtree_end(nodes, i, k) <= nodes.len(),
    decreases nodes.len() - k,
{
    if k < nodes.len() && nodes[k].depth > nodes[i].depth {
        lemma_subtree_end(nodes, i, k + 1);
    }
}

/// The position of a node as a value.
pub open spec fn place_tree(place: (int, int, int, int)) -> Tree {
    Tree::Object(
        seq![
            (
                "start"@,
                Tree::Object(
                    seq![("line"@, Tree::Int(place.0)), ("column"@, Tree::Int(place.1))],
                ),
            ),
            (
                "end"@,
                Tree::Object(
                    seq![("line"@, Tree::Int(place.2)), ("column"@, Tree::Int(place.3))],
                ),
            ),
        ],
    )
}

/// The text that a node carries.
pub open spec fn words_of(p: PayloadModel) -> Seq<char> {
    match p {
        PayloadModel::Words(s) => s,
        _ => Seq::empty(),
    }
}

/// The flag that a node carries: a task with a mark is done.
pub open spec fn flag_of(p: PayloadModel) -> bool {
    match p {
        PayloadModel::Flag(f) => f,
        PayloadModel::Mark(symbol) => symbol is Some,
        _ => false,
    }
}

/// A text, or null where it is empty.
pub open spec fn text_or_null(s: Seq<char>) -> Tree {
    if s.len() == 0 {
        Tree::Null
    } else {
        Tree::String(s)
    }
}

/// The first position from `k` on that holds white space, or the end.
pub open spec fn word_end(s: Seq<char>, k: int) -> int
    decreases s.len() - k,
{
    if 0 <= k < s.len() && !is_white(s[k]) {
        word_end(s, k + 1)
    } else {
        k
    }
}

/// The first position from `k` on that holds no white space, or the end.
pub open spec fn word_start(s: Seq<char>, k: int) -> int
    decreases s.len() - k,
{
    if 0 <= k < s.len() && is_white(s[k]) {
        word_start(s, k + 1)
    } else {
        k
    }
}

/// The first word of a text.
pub open spec fn first_word(s: Seq<char>) -> Option<Seq<char>> {
    let from = word_start(s, 0);
    if from >= s.len() {
        None
    } else {
        Some(s.subrange(from, word_end(s, from)))
    }
}

/// The type of a node, its fields, and whether it shows its position.
pub open spec fn node_shape(
    name: Seq<char>,
    payload: PayloadModel,
    children: Seq<Tree>,
    alt: Seq<char>,
) -> (Seq<char>, Seq<(Seq<char>, Tree)>, bool) {
    let inside = ("children"@, Tree::Array(children));
    if name == "document"@ {
        ("document"@, seq![inside], true)
    } else if name == "heading"@ {
        (
            "heading"@,
            seq![
                (
                    "level"@,
                    Tree::Int(
                        match payload {
                            PayloadModel::Level(n) => n,
                            _ => 0,
                        },
                    ),
                ),
                inside,
            ],
            true,
        )
    } else if name == "paragraph"@ {
        ("paragraph"@, seq![inside], true)
    } else if name == "code_block"@ {
        let (fenced, info, text) = match payload {
            PayloadModel::Fence(f, i, t) => (f, i, t),
            _ => (false, Seq::empty(), Seq::empty()),
        };
        (
            "code_block"@,
            seq![
                ("fenced"@, Tree::Bool(fenced)),
                (
                    "lang"@,
                    match first_word(info) {
                        Some(w) => Tree::String(w),
                        None => Tree::Null,
                    },
                ),
                ("info"@, Tree::String(info)),
                ("value"@, Tree::String(text)),
            ],
            true,
        )
    } else if name == "block_quote"@ {
        ("block_quote"@, seq![inside], true)
    } else if name == "list"@ {
        let (ordered, start, tight) = match payload {
            PayloadModel::Listing(o, s, t) => (o, s, t),
            _ => (false, 0, false),
        };
        (
            "list"@,
            seq![
                ("ordered"@, Tree::Bool(ordered)),
                (
                    "start"@,
                    if ordered {
                        Tree::Int(start)
                    } else {
                        Tree::Null
                    },
                ),
                ("tight"@, Tree::Bool(tight)),
                inside,
            ],
            true,
        )
    } else if name == "item"@ {
        ("list_item"@, seq![("checked"@, Tree::Null), inside], true)
    } else if name == "taskitem"@ {
        ("list_item"@, seq![("checked"@, Tree::Bool(flag_of(payload))), inside], true)
    } else if name == "thematic_break"@ {
        ("thematic_break"@, Seq::empty(), true)
    } else if name == "html_block"@ || name == "frontmatter"@ {
        ("html_block"@, seq![("value"@, Tree::String(words_of(payload)))], true)
    } else if name == "table"@ {
        ("table"@, seq![inside], true)
    } else if name == "table_row"@ {
        ("table_row"@, seq![("header"@, Tree::Bool(flag_of(payload))), inside], true)
    } else if name == "table_cell"@ {
        ("table_cell"@, seq![inside], true)
    } else if name == "footnote_definition"@ {
        (
            "footnote_definition"@,
            seq![("name"@, Tree::String(words_of(payload))), inside],
            true,
        )
    } else {
        inline_shape(name, payload, children, alt)
    }
}

/// The type of an inline node, its fields, and whether it shows its position.
/// A node of a kind that is not mapped shows itself for diagnosis.
pub open spec fn inline_shape(
    name: Seq<char>,
    payload: PayloadModel,
    children: Seq<Tree>,
    alt: Seq<char>,
) -> (Seq<char>, Seq<(Seq<char>, Tree)>, bool) {
    let inside = ("children"@, Tree::Array(children));
    let value = ("value"@, Tree::String(words_of(payload)));
    let (url, title) = match payload {
        PayloadModel::Target(u, t) => (u, t),
        _ => (Seq::empty(), Seq::empty()),
    };
    if name == "text"@ {
        ("text"@, seq![value], false)
    } else if name == "softbreak"@ {
        ("soft_break"@, Seq::empty(), false)
    } else if name == "linebreak"@ {
        ("line_break"@, Seq::empty(), false)
    } else if name == "code"@ {
        ("code"@, seq![value], false)
    } else if name == "html_inline"@ {
        ("html_inline"@, seq![value], false)
    } else if name == "emph"@ {
        ("emphasis"@, seq![inside], false)
    } else if name == "strong"@ {
        ("strong"@, seq![inside], false)
    } else if name == "strikethrough"@ {
        ("strikethrough"@, seq![inside], false)
    } else if name == "link"@ {
        (
            "link"@,
            seq![("url"@, Tree::String(url)), ("title"@, text_or_null(title)), inside],
            false,
        )
    } else if name == "image"@ {
        (
            "image"@,
            seq![
                ("url"@, Tree::String(url)),
                ("alt"@, Tree::String(alt)),
                ("title"@, text_or_null(title)),
            ],
            false,
        )
    } else if name == "footnote_reference"@ {
        ("footnote_reference"@, seq![("name"@, Tree::String(words_of(payload)))], false)
    } else {
        (
            "unknown"@,
            seq![
                (
                    "value"@,
                    Tree::String(
                        match payload {
                            PayloadModel::Bare(s) => s,
                            _ => Seq::empty(),
                        },
                    ),
                ),
            ],
            true,
        )
    }
}

/// A node as a value: its type, its fields, and the position of a block.
pub open spec fn shaped(
    shape: (Seq<char>, Seq<(Seq<char>, Tree)>, bool),
    place: (int, int, int, int),
) -> Tree {
    let start = seq![("type"@, Tree::String(shape.0))] + shape.1;
    if shape.2 {
        Tree::Object(start.push(("position"@, place_tree(place))))
    } else {
        Tree::Object(start)
    }
}

/// The texts of all text nodes from `from` to `to`, one behind the other.
pub open spec fn text_within(nodes: Seq<NodeModel>, from: int, to: int) -> Seq<char>
    decreases to - from,
{
    if from >= to {
        Seq::empty()
    } else {
        text_within(nodes, from, to - 1) + if nodes[to - 1].name == "text"@ {
            words_of(nodes[to - 1].payload)
        } else {
            Seq::empty()
        }
    }
}

/// Node `i` as a value.
pub open spec fn node_tree(nodes: Seq<NodeModel>, i: int) -> Tree
    decreases nodes.len() - i, 0nat,
{
    if 0 <= i < nodes.len() {
        let end = subtree_end(nodes, i, i + 1);
        shaped(
            node_shape(
                nodes[i].name,
                nodes[i].payload,
                sibling_trees(nodes, i + 1, end),
                text_within(nodes, i, end),
            ),
            nodes[i].place,
        )
    } else {
        Tree::Null
    }
}

/// The nodes that stand side by side from `from` to `to`, as values.
pub open spec fn sibling_trees(nodes: Seq<NodeModel>, from: int, to: int) -> Seq<Tree>
    decreases nodes.len() - from, 1nat,
{
    if 0 <= from < to && to <= nodes.len() {
        let next = subtree_end(nodes, from, from + 1);
        if from < next <= nodes.len() {
            seq![node_tree(nodes, from)] + sibling_trees(nodes, next, to)
        } else {
            Seq::empty()
        }
    } else {
        Seq::empty()
    }
}

fn entry(key: &str, value: Value) -> (r: (String, Value))
    ensures
        r.0@ == key@,
        r.1@ == value@,
{
    (key.to_owned(), value)
}

fn text_value(s: &str) -> (r: Value)
    ensures
        r@ == Tree::String(s@),
{
    Value::String(s.to_owned())
}

fn place_pair(line: i64, column: i64) -> (r: Value)
    ensures
        r@ == Tree::Object(
            seq![("line"@, Tree::Int(line as int)), ("column"@, Tree::Int(column as int))],
        ),
{
    let map: ValueMap = ValueMap {
        entries: vec![entry("line", Value::Int(line)), entry("column", Value::Int(column))],
    };
    proof {
        lemma_object_view(map);
        assert(map@ =~= seq![
            ("line"@, Tree::Int(line as int)),
            ("column"@, Tree::Int(column as int)),
        ]);
    }
    Value::Object(map)
}

/// The position of a node as a value.
pub fn place_value(place: (i64, i64, i64, i64)) -> (r: Value)
    ensures
        r@ == place_tree(
            (place.0 as int, place.1 as int, place.2 as int, place.3 as int),
        ),
{
    let map: ValueMap = ValueMap {
        entries: vec![
            entry("start", place_pair(place.0, place.1)),
            entry("end", place_pair(place.2, place.3)),
        ],
    };
    proof {
        lemma_object_view(map);
        assert(Tree::Object(map@) == place_tree(
            (place.0 as int, place.1 as int, place.2 as int, place.3 as int),
        )) by {
            assert(map@ =~= place_tree(
                (place.0 as int, place.1 as int, place.2 as int, place.3 as int),
            )->Object_0);
        }
    }
    Value::Object(map)
}

/// The first word of a text.
pub fn first_whitespace_token(s: &str) -> (r: Option<String>)
    ensures
        match r {
            Some(w) => first_word(s@) == Some(w@),
            None => first_word(s@) is None,
        },
{
    let chars: Vec<char> = chars_of(s);
    let mut from: usize = 0;
    while from < chars.len() && white(chars[from])
        invariant
            from <= chars@.len(),
            word_start(chars@, 0) == word_start(chars@, from as int),
        decreases chars@.len() - from,
    {
        from += 1;
    }
    if from >= chars.len() {
        return None;
    }
    let mut to: usize = from;
    while to < chars.len() && !white(chars[to])
        invariant
            from <= to <= chars@.len(),
            word_end(chars@, from as int) == word_end(chars@, to as int),
        decreases chars@.len() - to,
    {
        to += 1;
    }
    Some(text_between(&chars, from, to))
}

fn payload_words(p: &MdPayload) -> (r: String)
    ensures
        r@ == words_of(p@),
{
    match p {
        MdPayload::Words(s) => s.clone(),
        _ => {
            let empty: String = String::new();
            assert(empty@ =~= Seq::<char>::empty());
            empty
        },
    }
}

fn payload_flag(p: &MdPayload) -> (r: bool)
    ensures
        r == flag_of(p@),
{
    match p {
        MdPayload::Flag(f) => *f,
        MdPayload::Mark(symbol) => symbol.is_some(),
        _ => false,
    }
}

fn title_value(s: String) -> (r: Value)
    ensures
        r@ == text_or_null(s@),
{
    if chars_of(s.as_str()).len() == 0 {
        Value::Null
    } else {
        Value::String(s)
    }
}

/// What [`node_fields`] gives back.
pub open spec fn shape_model(r: (&'static str, Vec<(String, Value)>, bool)) -> (
    Seq<char>,
    Seq<(Seq<char>, Tree)>,
    bool,
) {
    (r.0@, entry_trees(r.1@), r.2)
}

fn code_block_fields(p: &MdPayload) -> (r: Vec<(String, Value)>)
    ensures
        forall|children: Seq<Tree>, alt: Seq<char>|
            entry_trees(r@) == #[trigger] node_shape("code_block"@, p@, children, alt).1,
{
    let empty: String = String::new();
    assert(empty@ =~= Seq::<char>::empty());
    let (fenced, info, text): (bool, String, String) = match p {
        MdPayload::Fence(f, i, t) => (*f, i.clone(), t.clone()),
        _ => (false, empty.clone(), empty.clone()),
    };
    let lang: Value = match first_whitespace_token(info.as_str()) {
        Some(w) => Value::String(w),
        None => Value::Null,
    };
    let r: Vec<(String, Value)> = vec![
        entry("fenced", Value::Bool(fenced)),
        entry("lang", lang),
        entry("info", text_value(info.as_str())),
        entry("value", text_value(text.as_str())),
    ];
    proof {
        reveal_strlit("document");
        reveal_strlit("heading");
        reveal_strlit("paragraph");
        reveal_strlit("code_block");
        assert("code_block"@.len() == 10 && "document"@.len() == 8 && "heading"@.len() == 7
            && "paragraph"@.len() == 9);
        assert forall|children: Seq<Tree>, alt: Seq<char>|
            entry_trees(r@) == #[trigger] node_shape("code_block"@, p@, children, alt).1 by {
            assert(entry_trees(r@) =~= node_shape("code_block"@, p@, children, alt).1);
        }
    }
    r
}

/// The type of a node, its fields, and whether it shows its position.
pub fn node_fields(name: &str, payload: &MdPayload, children: Vec<Value>, alt: String) -> (r: (
    &'static str,
    Vec<(String, Value)>,
    bool,
))
    ensures
        shape_model(r) == node_shape(name@, payload@, trees(children@), alt@),
{
    let ghost want = node_shape(name@, payload@, trees(children@), alt@);
    proof {
        lemma_array_view(children);
    }
    if same_text(name, "code_block") {
        let fields: Vec<(String, Value)> = code_block_fields(payload);
        return ("code_block", fields, true);
    }
    let mut fields: Vec<(String, Value)> = Vec::new();
    let (kind, positioned): (&'static str, bool) = if same_text(name, "document") {
        fields.push(entry("children", Value::Array(children)));
        ("document", true)
    } else if same_text(name, "heading") {
        let level: i64 = match payload {
            MdPayload::Level(n) => *n as i64,
            _ => 0,
        };
        fields.push(entry("level", Value::Int(level)));
        fields.push(entry("children", Value::Array(children)));
        ("heading", true)
    } else if same_text(name, "paragraph") {
        fields.push(entry("children", Value::Array(children)));
        ("paragraph", true)
    } else if same_text(name, "block_quote") {
        fields.push(entry("children", Value::Array(children)));
        ("block_quote", true)
    } else if same_text(name, "list") {
        let (ordered, start, tight): (bool, i64, bool) = match payload {
            MdPayload::Listing(o, s, t) => (*o, *s, *t),
            _ => (false, 0, false),
        };
        fields.push(entry("ordered", Value::Bool(ordered)));
        fields.push(
            entry(
                "start",
                if ordered {
                    Value::Int(start)
                } else {
                    Value::Null
                },
            ),
        );
        fields.push(entry("tight", Value::Bool(tight)));
        fields.push(entry("children", Value::Array(children)));
        ("list", true)
    } else if same_text(name, "item") {
        fields.push(entry("checked", Value::Null));
        fields.push(entry("children", Value::Array(children)));
        ("list_item", true)
    } else if same_text(name, "taskitem") {
        fields.push(entry("checked", Value::Bool(payload_flag(payload))));
        fields.push(entry("children", Value::Array(children)));
        ("list_item", true)
    } else if same_text(name, "thematic_break") {
        ("thematic_break", true)
    } else if same_text(name, "html_block") || same_text(name, "frontmatter") {
        fields.push(entry("value", Value::String(payload_words(payload))));
        ("html_block", true)
    } else if same_text(name, "table") {
        fields.push(entry("children", Value::Array(children)));
        ("table", true)
    } else if same_text(name, "table_row") {
        fields.push(entry("header", Value::Bool(payload_flag(payload))));
        fields.push(entry("children", Value::Array(children)));
        ("table_row", true)
    } else if same_text(name, "table_cell") {
        fields.push(entry("children", Value::Array(children)));
        ("table_cell", true)
    } else if same_text(name, "footnote_definition") {
        fields.push(entry("name", Value::String(payload_words(payload))));
        fields.push(entry("children", Value::Array(children)));
        ("footnote_definition", true)
    } else {
        return inline_fields(name, payload, children, alt);
    };
    assert(kind@ == want.0);
    assert(positioned == want.2);
    assert(entry_trees(fields@) =~= want.1);
    (kind, fields, positioned)
}

fn inline_fields(name: &str, payload: &MdPayload, children: Vec<Value>, alt: String) -> (r: (
    &'static str,
    Vec<(String, Value)>,
    bool,
))
    ensures
        shape_model(r) == inline_shape(name@, payload@, trees(children@), alt@),
{
    let ghost want = inline_shape(name@, payload@, trees(children@), alt@);
    proof {
        lemma_array_view(children);
    }
    let empty: String = String::new();
    assert(empty@ =~= Seq::<char>::empty());
    let mut fields: Vec<(String, Value)> = Vec::new();
    let (kind, positioned): (&'static str, bool) = if same_text(name, "text") {
        fields.push(entry("value", Value::String(payload_words(payload))));
        ("text", false)
    } else if same_text(name, "softbreak") {
        ("soft_break", false)
    } else if same_text(name, "linebreak") {
        ("line_break", false)
    } else if same_text(name, "code") {
        fields.push(entry("value", Value::String(payload_words(payload))));
        ("code", false)
    } else if same_text(name, "html_inline") {
        fields.push(entry("value", Value::String(payload_words(payload))));
        ("html_inline", false)
    } else if same_text(name, "emph") {
        fields.push(entry("children", Value::Array(children)));
        ("emphasis", false)
    } else if same_text(name, "strong") {
        fields.push(entry("children", Value::Array(children)));
        ("strong", false)
    } else if same_text(name, "strikethrough") {
        fields.push(entry("children", Value::Array(children)));
        ("strikethrough", false)
    } else if same_text(name, "link") {
        let (url, title): (String, String) = match payload {
            MdPayload::Target(u, t) => (u.clone(), t.clone()),
            _ => (empty.clone(), empty.clone()),
        };
        fields.push(entry("url", Value::String(url)));
        fields.push(entry("title", title_value(title)));
        fields.push(entry("children", Value::Array(children)));
        ("link", false)
    } else if same_text(name, "image") {
        let (url, title): (String, String) = match payload {
            MdPayload::Target(u, t) => (u.clone(), t.clone()),
            _ => (empty.clone(), empty.clone()),
        };
        fields.push(entry("url", Value::String(url)));
        fields.push(entry("alt", Value::String(alt)));
        fields.push(entry("title", title_value(title)));
        ("image", false)
    } else if same_text(name, "footnote_reference") {
        fields.push(entry("name", Value::String(payload_words(payload))));
        ("footnote_reference", false)
    } else {
        let shown: String = match payload {
            MdPayload::Bare(s) => s.clone(),
            _ => empty.clone(),
        };
        fields.push(entry("value", Value::String(shown)));
        ("unknown", true)
    };
    assert(kind@ == want.0);
    assert(positioned == want.2);
    assert(entry_trees(fields@) =~= want.1);
    (kind, fields, positioned)
}

pub(crate) fn find_subtree_end(nodes: &Vec<MdNode>, i: usize) -> (r: usize)
    requires
        i < nodes@.len(),
    ensures
        r == subtree_end(node_models(nodes@), i as int, i + 1),
        i < r <= nodes@.len(),
{
    let ghost models = node_models(nodes@);
    let n: usize = nodes.len();
    let mut k: usize = i + 1;
    while k < n && nodes[k].depth > nodes[i].depth
        invariant
            i < k <= n,
            n == nodes@.len(),
            models == node_models(nodes@),
            subtree_end(models, i as int, i + 1) == subtree_end(models, i as int, k as int),
        decreases nodes@.len() - k,
    {
        assert(models[k as int].depth == nodes@[k as int].depth);
        k += 1;
    }
    assert(k < nodes@.len() ==> models[k as int].depth == nodes@[k as int].depth);
    k
}

fn collect_text(nodes: &Vec<MdNode>, from: usize, to: usize) -> (r: String)
    requires
        from <= to <= nodes@.len(),
    ensures
        r@ == text_within(node_models(nodes@), from as int, to as int),
{
    let ghost models = node_models(nodes@);
    let mut out: String = String::new();
    assert(out@ =~= Seq::<char>::empty());
    let mut i: usize = from;
    while i < to
        invariant
            from <= i <= to <= nodes@.len(),
            models == node_models(nodes@),
            out@ == text_within(models, from as int, i as int),
        decreases to - i,
    {
        assert(models[i as int] == nodes@[i as int]@);
        let ghost before = out@;
        if same_text(nodes[i].name.as_str(), "text") {
            let words: String = payload_words(&nodes[i].payload);
            out.push_str(words.as_str());
        }
        assert(out@ =~= text_within(models, from as int, i + 1));
        i += 1;
    }
    out
}

/// Node `i` as a value.
pub fn node_to_value(nodes: &Vec<MdNode>, i: usize) -> (r: Value)
    requires
        i < nodes@.len(),
    ensures
        r@ == node_tree(node_models(nodes@), i as int),
    decreases nodes@.len() - i, 0int,
{
    let ghost models = node_models(nodes@);
    assert(models[i as int] == nodes@[i as int]@);
    let end: usize = find_subtree_end(nodes, i);
    let children: Vec<Value> = sibling_values(nodes, i + 1, end);
    let alt: String = collect_text(nodes, i, end);
    let (kind, fields, positioned) = node_fields(
        nodes[i].name.as_str(),
        &nodes[i].payload,
        children,
        alt,
    );
    let ghost shape = (kind@, entry_trees(fields@), positioned);
    let ghost inner = fields@;
    let mut all: Vec<(String, Value)> = vec![entry("type", text_value(kind))];
    let mut rest: Vec<(String, Value)> = fields;
    let ghost first = all@;
    all.append(&mut rest);
    assert(all@ =~= first + inner);
    assert(entry_trees(all@) =~= seq![("type"@, Tree::String(kind@))] + entry_trees(inner));
    if positioned {
        let ghost before = entry_trees(all@);
        all.push(entry("position", place_value(nodes[i].place)));
        assert(entry_trees(all@) =~= before.push(("position"@, place_tree(models[i as int].place))));
    }
    let map: ValueMap = ValueMap { entries: all };
    proof {
        lemma_object_view(map);
    }
    assert(Tree::Object(map@) == shaped(shape, models[i as int].place));
    Value::Object(map)
}

/// The nodes that stand side by side from `from` to `to`, as values.
pub fn sibling_values(nodes: &Vec<MdNode>, from: usize, to: usize) -> (r: Vec<Value>)
    requires
        from <= to <= nodes@.len(),
    ensures
        trees(r@) == sibling_trees(node_models(nodes@), from as int, to as int),
    decreases nodes@.len() - from, 1int,
{
    let ghost models = node_models(nodes@);
    let mut out: Vec<Value> = Vec::new();
    assert(trees(out@) =~= Seq::<Tree>::empty());
    let mut at: usize = from;
    assert(trees(out@) + sibling_trees(models, at as int, to as int) =~= sibling_trees(
        models,
        from as int,
        to as int,
    ));
    while at < to
        invariant
            from <= at,
            to <= nodes@.len(),
            models == node_models(nodes@),
            trees(out@) + sibling_trees(models, at as int, to as int) == sibling_trees(
                models,
                from as int,
                to as int,
            ),
        decreases nodes@.len() - at,
    {
        let next: usize = find_subtree_end(nodes, at);
        let ghost before = trees(out@);
        let ghost rest = sibling_trees(models, next as int, to as int);
        let value: Value = node_to_value(nodes, at);
        let ghost shown = value@;
        out.push(value);
        assert(trees(out@) =~= before.push(shown));
        assert(before + (seq![shown] + rest) =~= before.push(shown) + rest);
        at = next;
    }
    assert(sibling_trees(models, at as int, to as int) =~= Seq::<Tree>::empty());
    assert(trees(out@) + Seq::<Tree>::empty() =~= trees(out@));
    out
}

} // verus!
