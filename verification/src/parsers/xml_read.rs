//! From XML markup events to a value tree.
//!
//! An element becomes an object under its tag name, always inside an array.
//! Its attributes stand under `@attrs`, its text under `#text`, and its
//! CDATA blocks, processing instructions and comments in arrays under
//! `#cdata`, `#pi` and `#comments`. The XML declaration stands at the top under
//! `#xml`.

use crate::error::{unplaced_parse, unplaced_parse_error, texts, Error, Fault};
use crate::numbers::{decimal, index_text};
use crate::parsers::xml_events::{
    attr_models, char_reference, entity_text, line_ends_normalised, pieces, predefined_entity,
    read_attributes, read_declaration, read_events, text_content, xml_attributes,
    xml_char_reference, xml_declaration, xml_reading, AttrModel, DeclModel, XmlAttr, XmlEvent,
    XmlKind, XmlPiece, XmlReading,
};
use crate::parsers::xml_collected::{holds_plain_document, law_what_was_read_is_written_back};
use crate::parsers::xml_round_trip::{is_clean_document, lemma_spelled_reads, spells_xml};
use crate::position::{byte_pos_to_line_col, char_line_col, snippet_at, snippet_for_pos};
use crate::text::{chars_of, joined, same_text, trim, trim_chars};
use crate::utf8_text::{checked_text, lossy_text, utf8_fault_text, utf8_lossy};
use crate::bytes::copy_bytes;
use crate::value::{
    inserted, lemma_array_view, lemma_key_index, lemma_key_index_is, lemma_object_view, lookup,
    key_index, trees, Tree, Value, ValueMap,
};
use vstd::prelude::*;
use vstd::utf8::{decode_utf8, encode_utf8, valid_utf8};

verus! {

// ---------------------------------------------------------------------------
// Groups of children
// ---------------------------------------------------------------------------

/// The models of children grouped by tag.
pub open spec fn group_models(groups: Seq<(String, Vec<Value>)>) -> Seq<(Seq<char>, Seq<Tree>)> {
    Seq::new(groups.len(), |i: int| (groups[i].0@, trees(groups[i].1@)))
}

/// The groups with one more child under a tag.
pub open spec fn grouped(
    groups: Seq<(Seq<char>, Seq<Tree>)>,
    tag: Seq<char>,
    child: Tree,
) -> Seq<(Seq<char>, Seq<Tree>)> {
    match lookup(groups, tag) {
        Some(before) => inserted(groups, tag, before.push(child)),
        None => inserted(groups, tag, seq![child]),
    }
}

/// The number of children in the first `k` groups.
pub open spec fn group_total(groups: Seq<(Seq<char>, Seq<Tree>)>, k: int) -> nat
    decreases k,
{
    if k <= 0 {
        0
    } else {
        group_total(groups, k - 1) + groups[k - 1].1.len()
    }
}

/// The entries with the first `k` groups put in, each as an array.
pub open spec fn with_groups(
    entries: Seq<(Seq<char>, Tree)>,
    groups: Seq<(Seq<char>, Seq<Tree>)>,
    k: int,
) -> Seq<(Seq<char>, Tree)>
    decreases k,
{
    if k <= 0 {
        entries
    } else {
        inserted(
            with_groups(entries, groups, k - 1),
            groups[k - 1].0,
            Tree::Array(groups[k - 1].1),
        )
    }
}

/// Texts as string values.
pub open spec fn string_trees(s: Seq<Seq<char>>) -> Seq<Tree> {
    Seq::new(s.len(), |i: int| Tree::String(s[i]))
}

/// The entries with a list of texts under `key`, where the list is not empty.
pub open spec fn with_list(
    entries: Seq<(Seq<char>, Tree)>,
    key: Seq<char>,
    items: Seq<Seq<char>>,
) -> Seq<(Seq<char>, Tree)> {
    if items.len() == 0 {
        entries
    } else {
        inserted(entries, key, Tree::Array(string_trees(items)))
    }
}

/// One more child makes the total one larger.
proof fn lemma_grouped_total(groups: Seq<(Seq<char>, Seq<Tree>)>, tag: Seq<char>, child: Tree)
    ensures
        group_total(grouped(groups, tag, child), grouped(groups, tag, child).len() as int)
            == group_total(groups, groups.len() as int) + 1,
{
    let after = grouped(groups, tag, child);
    let at = key_index(groups, tag);
    lemma_key_index(groups, tag);
    if at < groups.len() {
        lemma_total_update(groups, at, after[at], groups.len() as int);
        assert(after =~= groups.update(at, after[at]));
    } else {
        lemma_total_same(groups, after, groups.len() as int);
        assert(after.len() == groups.len() + 1);
    }
}

proof fn lemma_total_same(
    a: Seq<(Seq<char>, Seq<Tree>)>,
    b: Seq<(Seq<char>, Seq<Tree>)>,
    k: int,
)
    requires
        forall|i: int| 0 <= i < k ==> a[i] == b[i],
    ensures
        group_total(a, k) == group_total(b, k),
    decreases k,
{
    if k > 0 {
        lemma_total_same(a, b, k - 1);
    }
}

proof fn lemma_total_update(
    a: Seq<(Seq<char>, Seq<Tree>)>,
    at: int,
    group: (Seq<char>, Seq<Tree>),
    k: int,
)
    requires
        0 <= at < a.len(),
        at < k <= a.len(),
    ensures
        group_total(a.update(at, group), k) == group_total(a, k) + group.1.len() - a[at].1.len(),
    decreases k,
{
    if at < k - 1 {
        lemma_total_update(a, at, group, k - 1);
    } else {
        lemma_total_same(a, a.update(at, group), at);
    }
}

fn group_position(groups: &Vec<(String, Vec<Value>)>, tag: &str) -> (r: usize)
    ensures
        r == key_index(group_models(groups@), tag@),
        r <= groups@.len(),
{
    let ghost models = group_models(groups@);
    let mut i: usize = 0;
    while i < groups.len()
        invariant
            i <= groups@.len(),
            models == group_models(groups@),
            forall|k: int| 0 <= k < i ==> (#[trigger] models[k]).0 != tag@,
        decreases groups@.len() - i,
    {
        assert(models[i as int].0 == groups@[i as int].0@);
        if same_text(groups[i].0.as_str(), tag) {
            proof {
                lemma_key_index_is(models, tag@, i as int);
            }
            return i;
        }
        i += 1;
    }
    proof {
        lemma_key_index_is(models, tag@, i as int);
    }
    i
}

fn push_child(groups: &mut Vec<(String, Vec<Value>)>, tag: &str, child: Value)
    ensures
        group_models(final(groups)@) == grouped(group_models(old(groups)@), tag@, child@),
{
    let ghost before = group_models(groups@);
    let at: usize = group_position(groups, tag);
    proof {
        lemma_key_index(before, tag@);
    }
    if at < groups.len() {
        let ghost items = groups@[at as int].1@;
        let ghost name = groups@[at as int].0;
        groups[at].1.push(child);
        assert(groups@[at as int].0 == name);
        assert(groups@[at as int].1@ == items.push(child));
        assert(trees(items.push(child)) =~= trees(items).push(child@));
        assert(group_models(groups@) =~= grouped(before, tag@, child@));
    } else {
        let one: Vec<Value> = vec![child];
        assert(trees(one@) =~= seq![child@]);
        groups.push((tag.to_owned(), one));
        assert(group_models(groups@) =~= grouped(before, tag@, child@));
    }
}

/// The texts as string values.
fn string_values(items: &Vec<String>) -> (r: Vec<Value>)
    ensures
        trees(r@) == string_trees(texts(items@)),
{
    let mut out: Vec<Value> = Vec::new();
    let mut i: usize = 0;
    while i < items.len()
        invariant
            i <= items@.len(),
            out@.len() == i,
            forall|k: int| 0 <= k < i ==> (#[trigger] out@[k])@ == Tree::String(items@[k]@),
        decreases items@.len() - i,
    {
        out.push(Value::String(items[i].clone()));
        i += 1;
    }
    assert(trees(out@) =~= string_trees(texts(items@)));
    out
}

fn insert_list(map: &mut ValueMap, key: &str, items: &Vec<String>)
    ensures
        final(map)@ == with_list(old(map)@, key@, texts(items@)),
{
    broadcast use lemma_array_view;

    if items.len() > 0 {
        map.insert(key.to_owned(), Value::Array(string_values(items)));
    }
}

fn insert_groups(map: &mut ValueMap, groups: Vec<(String, Vec<Value>)>)
    ensures
        final(map)@ == with_groups(
            old(map)@,
            group_models(groups@),
            groups@.len() as int,
        ),
{
    let ghost all = group_models(groups@);
    let ghost n = groups@.len() as int;
    let ghost whole = groups@;
    let mut rest: Vec<(String, Vec<Value>)> = groups;
    let ghost mut k: int = 0;
    while rest.len() > 0
        invariant
            0 <= k <= n,
            n == whole.len(),
            all == group_models(whole),
            rest@ == whole.subrange(k, n),
            map@ == with_groups(old(map)@, all, k),
        decreases rest@.len(),
    {
        assert(rest@[0] == whole[k]);
        let (name, items) = rest.remove(0);
        assert(all[k] == (name@, trees(items@)));
        proof {
            lemma_array_view(items);
        }
        map.insert(name, Value::Array(items));
        proof {
            assert(map@ == with_groups(old(map)@, all, k + 1));
            assert(rest@ =~= whole.subrange(k + 1, n));
            k = k + 1;
        }
    }
}

// ---------------------------------------------------------------------------
// Open elements
// ---------------------------------------------------------------------------

/// An element that is not closed yet.
#[derive(Debug)]
pub struct Frame {
    /// Tag name, with its namespace prefix.
    pub tag: String,
    /// Attributes.
    pub attrs: ValueMap,
    /// Children grouped by tag name.
    pub children: Vec<(String, Vec<Value>)>,
    /// Text content so far.
    pub text: String,
    /// Whether text other than white space was seen.
    pub has_text: bool,
    /// CDATA blocks.
    pub cdata: Vec<String>,
    /// Processing instructions.
    pub pi: Vec<String>,
    /// Comments.
    pub comments: Vec<String>,
    /// Whether a child element was seen.
    pub saw_element: bool,
    /// Whether both text and child elements were seen.
    pub saw_mixed: bool,
}

/// What a [`Frame`] is, mathematically.
pub struct FrameModel {
    pub tag: Seq<char>,
    pub attrs: Seq<(Seq<char>, Tree)>,
    pub children: Seq<(Seq<char>, Seq<Tree>)>,
    pub text: Seq<char>,
    pub has_text: bool,
    pub cdata: Seq<Seq<char>>,
    pub pi: Seq<Seq<char>>,
    pub comments: Seq<Seq<char>>,
    pub saw_element: bool,
    pub saw_mixed: bool,
}

impl View for Frame {
    type V = FrameModel;

    open spec fn view(&self) -> FrameModel {
        FrameModel {
            tag: self.tag@,
            attrs: self.attrs@,
            children: group_models(self.children@),
            text: self.text@,
            has_text: self.has_text,
            cdata: texts(self.cdata@),
            pi: texts(self.pi@),
            comments: texts(self.comments@),
            saw_element: self.saw_element,
            saw_mixed: self.saw_mixed,
        }
    }
}

/// An element with nothing in it but its attributes.
pub open spec fn opened(tag: Seq<char>, attrs: Seq<(Seq<char>, Tree)>) -> FrameModel {
    FrameModel {
        tag,
        attrs,
        children: Seq::empty(),
        text: Seq::empty(),
        has_text: false,
        cdata: Seq::empty(),
        pi: Seq::empty(),
        comments: Seq::empty(),
        saw_element: false,
        saw_mixed: false,
    }
}

/// The value of a closed element: what it holds, under the conventional keys,
/// then its children. Text of white space alone is left out.
pub open spec fn finalised(f: FrameModel) -> Tree {
    let none = Seq::<(Seq<char>, Tree)>::empty();
    let a = if f.attrs.len() == 0 {
        none
    } else {
        inserted(none, "@attrs"@, Tree::Object(f.attrs))
    };
    let b = if f.has_text {
        inserted(a, "#text"@, Tree::String(f.text))
    } else {
        a
    };
    let c = with_list(b, "#cdata"@, f.cdata);
    let d = with_list(c, "#pi"@, f.pi);
    let e = with_list(d, "#comments"@, f.comments);
    Tree::Object(with_groups(e, f.children, f.children.len() as int))
}

impl Frame {
    /// An element with nothing in it yet.
    pub fn new(tag: String) -> (r: Frame)
        ensures
            r@ == opened(tag@, Seq::empty()),
    {
        let r: Frame = Frame {
            tag,
            attrs: ValueMap::new(),
            children: Vec::new(),
            text: String::new(),
            has_text: false,
            cdata: Vec::new(),
            pi: Vec::new(),
            comments: Vec::new(),
            saw_element: false,
            saw_mixed: false,
        };
        assert(r.text@ =~= Seq::<char>::empty());
        assert(group_models(r.children@) =~= Seq::<(Seq<char>, Seq<Tree>)>::empty());
        assert(texts(r.cdata@) =~= Seq::<Seq<char>>::empty());
        r
    }

    /// The value of the element.
    pub fn finalise(self) -> (r: Value)
        ensures
            r@ == finalised(self@),
    {
        broadcast use lemma_object_view;

        let mut out: ValueMap = ValueMap::new();
        if !self.attrs.is_empty() {
            out.insert("@attrs".to_owned(), Value::Object(self.attrs));
        }
        if self.has_text {
            out.insert("#text".to_owned(), Value::String(self.text));
        }
        insert_list(&mut out, "#cdata", &self.cdata);
        insert_list(&mut out, "#pi", &self.pi);
        insert_list(&mut out, "#comments", &self.comments);
        insert_groups(&mut out, self.children);
        Value::Object(out)
    }
}

// ---------------------------------------------------------------------------
// Tags, references and faults
// ---------------------------------------------------------------------------

/// A parse fault at a byte position.
pub open spec fn placed_fault(text: Seq<char>, pos: int, message: Seq<char>) -> Fault {
    let bytes = encode_utf8(text);
    Fault::Parse {
        file: None,
        line: char_line_col(bytes, pos).0,
        col: char_line_col(bytes, pos).1,
        start: pos,
        end: pos,
        snippet: snippet_at(bytes, pos),
        message,
    }
}

/// A parse error at a byte position.
pub fn placed_error(text: &str, pos: usize, message: String) -> (r: Error)
    ensures
        r@ == placed_fault(text@, pos as int, message@),
{
    let (line, col) = byte_pos_to_line_col(text, pos);
    let snippet: String = snippet_for_pos(text, pos);
    Error::Parse { file: None, line, col, span: pos..pos, snippet, message }
}

/// White space as XML has it.
pub open spec fn is_xml_space(b: u8) -> bool {
    b == 32u8 || b == 13u8 || b == 10u8 || b == 9u8
}

/// The first white space from `k` on, or the end.
pub open spec fn name_end(bytes: Seq<u8>, k: int) -> int
    decreases bytes.len() - k,
{
    if 0 <= k < bytes.len() && !is_xml_space(bytes[k]) {
        name_end(bytes, k + 1)
    } else {
        k
    }
}

/// The number of bytes of a tag's name.
pub open spec fn tag_len(content: Seq<char>) -> int {
    name_end(encode_utf8(content), 0)
}

/// The name of a tag: what stands before the first white space.
pub open spec fn tag_name(content: Seq<char>) -> Seq<char> {
    utf8_lossy(encode_utf8(content).subrange(0, tag_len(content)))
}

/// The attributes made of the first `k` of a list, or the first complaint.
pub open spec fn attrs_read(list: Seq<AttrModel>, k: int) -> Result<Seq<(Seq<char>, Tree)>, Fault>
    decreases k,
{
    if k <= 0 {
        Ok(Seq::empty())
    } else {
        match attrs_read(list, k - 1) {
            Err(f) => Err(f),
            Ok(before) => match list[k - 1] {
                AttrModel::Pair(name, value) => Ok(inserted(before, name, Tree::String(value))),
                AttrModel::BadValue(m) => Err(
                    unplaced_parse("XML parse error: malformed attribute value: "@ + m),
                ),
                AttrModel::Malformed(m) => Err(
                    unplaced_parse("XML parse error: malformed attribute: "@ + m),
                ),
            },
        }
    }
}

/// The element that a tag's content opens.
pub open spec fn started(content: Seq<char>) -> Result<FrameModel, Fault> {
    let list = xml_attributes(content, tag_len(content));
    match attrs_read(list, list.len() as int) {
        Ok(attrs) => Ok(opened(tag_name(content), attrs)),
        Err(f) => Err(f),
    }
}

proof fn lemma_attrs_fail(list: Seq<AttrModel>, k: int, n: int)
    requires
        0 <= k <= n,
        attrs_read(list, k) is Err,
    ensures
        attrs_read(list, n) == attrs_read(list, k),
    decreases n - k,
{
    if k < n {
        lemma_attrs_fail(list, k, n - 1);
    }
}

fn find_name_end(bytes: &[u8]) -> (r: usize)
    ensures
        r == name_end(bytes@, 0),
        r <= bytes@.len(),
{
    let mut k: usize = 0;
    while k < bytes.len() && !(bytes[k] == 32 || bytes[k] == 13 || bytes[k] == 10 || bytes[k] == 9)
        invariant
            k <= bytes@.len(),
            name_end(bytes@, 0) == name_end(bytes@, k as int),
        decreases bytes@.len() - k,
    {
        k += 1;
    }
    k
}

/// Builds an element from the attributes of its tag.
pub fn frame_of_attributes(tag: String, list: &Vec<XmlAttr>) -> (r: Result<Frame, Error>)
    ensures
        match (r, attrs_read(attr_models(list@), list@.len() as int)) {
            (Ok(f), Ok(attrs)) => f@ == opened(tag@, attrs),
            (Err(e), Err(f)) => e@ == f,
            _ => false,
        },
{
    let ghost models = attr_models(list@);
    let ghost name = tag@;
    let mut frame: Frame = Frame::new(tag);
    let mut i: usize = 0;
    while i < list.len()
        invariant
            i <= list@.len(),
            models == attr_models(list@),
            attrs_read(models, i as int) == Ok::<_, Fault>(frame.attrs@),
            frame@ == opened(name, frame.attrs@),
        decreases list@.len() - i,
    {
        assert(models[i as int] == list@[i as int]@);
        let ghost next = attrs_read(models, i + 1);
        match &list[i] {
            XmlAttr::Pair(key, value) => {
                frame.attrs.insert(key.clone(), Value::String(value.clone()));
            },
            XmlAttr::BadValue(message) => {
                proof {
                    lemma_attrs_fail(models, i + 1, models.len() as int);
                }
                return Err(
                    unplaced_parse_error(
                        joined("XML parse error: malformed attribute value: ", message.as_str()),
                    ),
                );
            },
            XmlAttr::Malformed(message) => {
                proof {
                    lemma_attrs_fail(models, i + 1, models.len() as int);
                }
                return Err(
                    unplaced_parse_error(
                        joined("XML parse error: malformed attribute: ", message.as_str()),
                    ),
                );
            },
        }
        i += 1;
    }
    Ok(frame)
}

fn build_start_frame(content: &str) -> (r: Result<Frame, Error>)
    ensures
        match (r, started(content@)) {
            (Ok(f), Ok(m)) => f@ == m,
            (Err(e), Err(f)) => e@ == f,
            _ => false,
        },
{
    let bytes: &[u8] = content.as_bytes();
    let n: usize = find_name_end(bytes);
    let raw: Vec<u8> = copy_bytes(bytes, 0, n);
    let tag: String = lossy_text(raw.as_slice());
    let list: Vec<XmlAttr> = read_attributes(content, n);
    frame_of_attributes(tag, &list)
}

/// What a reference stands for, given what the numeric reading of it gave:
/// the character for a numeric one, the text for a predefined entity. Any
/// other entity is undeclared.
pub open spec fn reference_text(
    content: Seq<char>,
    numeric: Result<Option<char>, Seq<char>>,
) -> Result<Seq<char>, Seq<char>> {
    if content.len() > 0 && content[0] == '#' {
        match numeric {
            Ok(Some(c)) => Ok(seq![c]),
            Ok(None) => Ok(Seq::empty()),
            Err(m) => Err("XML parse error: malformed character reference: "@ + m),
        }
    } else {
        match predefined_entity(content) {
            Some(text) => Ok(text),
            None => Err("XML parse error: undeclared entity reference '&"@ + content + ";'"@),
        }
    }
}

/// Resolves a reference, given what the numeric reading of it gave.
pub fn resolve_general_ref(content: &str, numeric: Result<Option<char>, String>) -> (r: Result<
    String,
    String,
>)
    ensures
        match (
            r,
            reference_text(
                content@,
                match numeric {
                    Ok(c) => Ok(c),
                    Err(m) => Err(m@),
                },
            ),
        ) {
            (Ok(t), Ok(m)) => t@ == m,
            (Err(t), Err(m)) => t@ == m,
            _ => false,
        },
{
    let chars: Vec<char> = chars_of(content);
    if chars.len() > 0 && chars[0] == '#' {
        return match numeric {
            Ok(Some(c)) => {
                let mut out: String = String::new();
                out.push(c);
                assert(out@ =~= seq![c]);
                Ok(out)
            },
            Ok(None) => {
                let out: String = String::new();
                assert(out@ =~= Seq::<char>::empty());
                Ok(out)
            },
            Err(message) => Err(
                joined("XML parse error: malformed character reference: ", message.as_str()),
            ),
        };
    }
    match entity_text(content) {
        Some(text) => Ok(text.to_owned()),
        None => {
            let head: String = joined("XML parse error: undeclared entity reference '&", content);
            Err(joined(head.as_str(), ";'"))
        },
    }
}

// ---------------------------------------------------------------------------
// The state of a reading
// ---------------------------------------------------------------------------

/// Something worth telling the user of a document that was read.
#[derive(Debug)]
pub enum XmlNote {
    /// A `<!DOCTYPE ...>` was left out.
    Doctype,
    /// An element, given by its path, holds both text and child elements, whose
    /// relative positions are lost.
    MixedContent(String),
}

/// What an [`XmlNote`] is, mathematically.
pub enum NoteModel {
    Doctype,
    MixedContent(Seq<char>),
}

impl View for XmlNote {
    type V = NoteModel;

    open spec fn view(&self) -> NoteModel {
        match self {
            XmlNote::Doctype => NoteModel::Doctype,
            XmlNote::MixedContent(path) => NoteModel::MixedContent(path@),
        }
    }
}

/// The models of a sequence of notes.
pub open spec fn note_models(notes: Seq<XmlNote>) -> Seq<NoteModel> {
    Seq::new(notes.len(), |i: int| notes[i]@)
}

/// The models of a sequence of open elements.
pub open spec fn frame_models(frames: Seq<Frame>) -> Seq<FrameModel> {
    Seq::new(frames.len(), |i: int| frames[i]@)
}

/// What was read so far.
#[derive(Debug)]
pub struct XmlState {
    /// Entries of the top-level object.
    pub top: ValueMap,
    /// Top-level elements grouped by tag name.
    pub children: Vec<(String, Vec<Value>)>,
    /// How many top-level elements there are.
    pub roots: usize,
    /// Top-level processing instructions.
    pub pi: Vec<String>,
    /// Top-level comments.
    pub comments: Vec<String>,
    /// The open elements, outermost first.
    pub stack: Vec<Frame>,
    /// What is worth telling the user.
    pub notes: Vec<XmlNote>,
}

/// What an [`XmlState`] is, mathematically.
pub struct XmlModel {
    pub top: Seq<(Seq<char>, Tree)>,
    pub children: Seq<(Seq<char>, Seq<Tree>)>,
    pub pi: Seq<Seq<char>>,
    pub comments: Seq<Seq<char>>,
    pub stack: Seq<FrameModel>,
    pub notes: Seq<NoteModel>,
}

impl View for XmlState {
    type V = XmlModel;

    open spec fn view(&self) -> XmlModel {
        XmlModel {
            top: self.top@,
            children: group_models(self.children@),
            pi: texts(self.pi@),
            comments: texts(self.comments@),
            stack: frame_models(self.stack@),
            notes: note_models(self.notes@),
        }
    }
}

/// Nothing read yet.
pub open spec fn xml_start() -> XmlModel {
    XmlModel {
        top: Seq::empty(),
        children: Seq::empty(),
        pi: Seq::empty(),
        comments: Seq::empty(),
        stack: Seq::empty(),
        notes: Seq::empty(),
    }
}

/// The state with the innermost open element replaced.
pub open spec fn with_last(m: XmlModel, f: FrameModel) -> XmlModel {
    XmlModel { stack: m.stack.update(m.stack.len() - 1, f), ..m }
}

/// The state with a processing instruction added to the innermost open
/// element, or to the top.
pub open spec fn pi_added(m: XmlModel, raw: Seq<char>) -> XmlModel {
    if m.stack.len() > 0 {
        with_last(m, FrameModel { pi: m.stack.last().pi.push(raw), ..m.stack.last() })
    } else {
        XmlModel { pi: m.pi.push(raw), ..m }
    }
}

/// The state with a comment added to the innermost open element, or to the
/// top.
pub open spec fn comment_added(m: XmlModel, text: Seq<char>) -> XmlModel {
    if m.stack.len() > 0 {
        with_last(m, FrameModel { comments: m.stack.last().comments.push(text), ..m.stack.last() })
    } else {
        XmlModel { comments: m.comments.push(text), ..m }
    }
}

/// The state with a child added to the innermost open element, or to the top.
pub open spec fn child_added(m: XmlModel, tag: Seq<char>, child: Tree) -> XmlModel {
    if m.stack.len() > 0 {
        with_last(
            m,
            FrameModel { children: grouped(m.stack.last().children, tag, child), ..m.stack.last() },
        )
    } else {
        XmlModel { children: grouped(m.children, tag, child), ..m }
    }
}

/// The innermost open element, where there is one, has seen a child element.
pub open spec fn element_seen(m: XmlModel) -> XmlModel {
    if m.stack.len() > 0 {
        let f = m.stack.last();
        with_last(m, FrameModel { saw_element: true, saw_mixed: f.saw_mixed || f.has_text, ..f })
    } else {
        m
    }
}

/// The innermost open element, where there is one, has got more text; only
/// text that `counts` makes it an element with text.
pub open spec fn text_added(m: XmlModel, text: Seq<char>, counts: bool) -> XmlModel {
    if m.stack.len() > 0 {
        let f = m.stack.last();
        with_last(
            m,
            FrameModel {
                text: f.text + text,
                has_text: f.has_text || counts,
                saw_mixed: f.saw_mixed || (counts && f.saw_element),
                ..f
            },
        )
    } else {
        m
    }
}

/// The path from the outermost of the first `k` open elements to the last.
pub open spec fn stack_path(stack: Seq<FrameModel>, k: int) -> Seq<char>
    decreases k,
{
    if k <= 0 {
        Seq::empty()
    } else {
        stack_path(stack, k - 1) + "/"@ + stack[k - 1].tag
    }
}

/// The path of an element inside the open ones.
pub open spec fn element_path_of(stack: Seq<FrameModel>, tag: Seq<char>) -> Seq<char> {
    stack_path(stack, stack.len() as int) + "/"@ + tag
}

/// The state in which an element has been closed: it is a child of what is
/// open, and mixed content is noted.
pub open spec fn closed(m: XmlModel, f: FrameModel) -> XmlModel {
    let noted = if f.saw_mixed {
        XmlModel {
            notes: m.notes.push(NoteModel::MixedContent(element_path_of(m.stack, f.tag))),
            ..m
        }
    } else {
        m
    };
    child_added(noted, f.tag, finalised(f))
}

/// The entries of the declaration object.
pub open spec fn declaration_entries(d: DeclModel) -> Seq<(Seq<char>, Tree)> {
    let a = Seq::<(Seq<char>, Tree)>::empty();
    let b = match d.version {
        Some(v) => inserted(a, "version"@, Tree::String(v)),
        None => a,
    };
    let c = match d.encoding {
        Some(v) => inserted(b, "encoding"@, Tree::String(v)),
        None => b,
    };
    match d.standalone {
        Some(v) => inserted(c, "standalone"@, Tree::String(v)),
        None => c,
    }
}

/// The parts of a declaration; one too short to hold its name has none.
pub open spec fn declaration_of(content: Seq<char>) -> DeclModel {
    if encode_utf8(content).len() >= 3 {
        xml_declaration(content)
    } else {
        DeclModel { version: None, encoding: None, standalone: None }
    }
}

/// What one event makes of the state.
pub open spec fn xml_step(m: XmlModel, text: Seq<char>, e: XmlPiece) -> Result<XmlModel, Fault> {
    match e.kind {
        XmlKind::Declaration => if m.stack.len() > 0 {
            Ok(pi_added(m, e.content))
        } else {
            Ok(
                XmlModel {
                    top: inserted(
                        m.top,
                        "#xml"@,
                        Tree::Object(declaration_entries(declaration_of(e.content))),
                    ),
                    ..m
                },
            )
        },
        XmlKind::Doctype => Ok(XmlModel { notes: m.notes.push(NoteModel::Doctype), ..m }),
        XmlKind::Processing => Ok(pi_added(m, e.content)),
        XmlKind::Remark => Ok(comment_added(m, line_ends_normalised(e.content))),
        XmlKind::Opening => match started(e.content) {
            Ok(f) => Ok(XmlModel { stack: element_seen(m).stack.push(f), ..element_seen(m) }),
            Err(f) => Err(f),
        },
        XmlKind::Lone => match started(e.content) {
            Ok(f) => Ok(closed(element_seen(m), f)),
            Err(f) => Err(f),
        },
        XmlKind::Closing => if m.stack.len() == 0 {
            Err(
                placed_fault(
                    text,
                    e.pos,
                    "XML parse error: unexpected closing tag </"@ + e.content + ">"@,
                ),
            )
        } else if e.content != m.stack.last().tag {
            Err(
                placed_fault(
                    text,
                    e.pos,
                    "XML parse error: closing tag </"@ + e.content + "> does not match <"@
                        + m.stack.last().tag + ">"@,
                ),
            )
        } else {
            Ok(closed(XmlModel { stack: m.stack.drop_last(), ..m }, m.stack.last()))
        },
        XmlKind::Words => {
            let shown = line_ends_normalised(e.content);
            Ok(text_added(m, shown, trim(shown).len() > 0))
        },
        XmlKind::Verbatim => if m.stack.len() > 0 {
            Ok(
                with_last(
                    m,
                    FrameModel { cdata: m.stack.last().cdata.push(e.content), ..m.stack.last() },
                ),
            )
        } else {
            Ok(m)
        },
        XmlKind::Reference => match reference_text(e.content, xml_char_reference(e.content)) {
            Ok(shown) => Ok(text_added(m, shown, true)),
            Err(message) => Err(placed_fault(text, e.pos, message)),
        },
    }
}

/// What the first `k` events make of the state.
pub open spec fn xml_run(text: Seq<char>, events: Seq<XmlPiece>, k: int) -> Result<XmlModel, Fault>
    decreases k,
{
    if k <= 0 {
        Ok(xml_start())
    } else {
        match xml_run(text, events, k - 1) {
            Ok(m) => xml_step(m, text, events[k - 1]),
            Err(f) => Err(f),
        }
    }
}

/// The value of a document that was read to its end.
pub open spec fn xml_value(m: XmlModel) -> Tree {
    let a = with_list(m.top, "#pi"@, m.pi);
    let b = with_list(a, "#comments"@, m.comments);
    Tree::Object(with_groups(b, m.children, m.children.len() as int))
}

/// What a reading comes to. A document has exactly one root element.
pub open spec fn xml_outcome(text: Seq<char>, reading: XmlReading) -> Result<
    (Tree, Seq<NoteModel>),
    Fault,
> {
    match xml_run(text, reading.events, reading.events.len() as int) {
        Err(f) => Err(f),
        Ok(m) => match reading.complaint {
            Some(message) => Err(
                placed_fault(text, reading.end, "XML parse error: "@ + message),
            ),
            None => {
                let roots = group_total(m.children, m.children.len() as int);
                if roots != 1 {
                    Err(
                        placed_fault(
                            text,
                            reading.end,
                            "XML must have exactly one root element; found "@ + decimal(roots),
                        ),
                    )
                } else {
                    Ok((xml_value(m), m.notes))
                }
            },
        },
    }
}

fn element_path(stack: &Vec<Frame>, tag: &str) -> (r: String)
    ensures
        r@ == element_path_of(frame_models(stack@), tag@),
{
    let ghost models = frame_models(stack@);
    let mut path: String = String::new();
    assert(path@ =~= Seq::<char>::empty());
    let mut i: usize = 0;
    while i < stack.len()
        invariant
            i <= stack@.len(),
            models == frame_models(stack@),
            path@ == stack_path(models, i as int),
        decreases stack@.len() - i,
    {
        assert(models[i as int].tag == stack@[i as int].tag@);
        path.push_str("/");
        path.push_str(stack[i].tag.as_str());
        i += 1;
    }
    path.push_str("/");
    path.push_str(tag);
    path
}

impl XmlState {
    /// The count of roots is that of the top-level elements.
    pub open spec fn wf(self) -> bool {
        self.roots == group_total(group_models(self.children@), self.children@.len() as int)
    }

    /// Nothing read yet.
    pub fn new() -> (r: XmlState)
        ensures
            r@ == xml_start(),
            r.wf(),
            r.roots == 0,
    {
        let r: XmlState = XmlState {
            top: ValueMap::new(),
            children: Vec::new(),
            roots: 0,
            pi: Vec::new(),
            comments: Vec::new(),
            stack: Vec::new(),
            notes: Vec::new(),
        };
        assert(group_models(r.children@) =~= Seq::<(Seq<char>, Seq<Tree>)>::empty());
        assert(texts(r.pi@) =~= Seq::<Seq<char>>::empty());
        assert(frame_models(r.stack@) =~= Seq::<FrameModel>::empty());
        assert(note_models(r.notes@) =~= Seq::<NoteModel>::empty());
        r
    }

    fn push_pi(&mut self, raw: String)
        requires
            old(self).wf(),
        ensures
            final(self)@ == pi_added(old(self)@, raw@),
            final(self).wf(),
            final(self).roots == old(self).roots,
    {
        let n: usize = self.stack.len();
        if n > 0 {
            let ghost before = self.stack@[n - 1];
            self.stack[n - 1].pi.push(raw);
            assert(texts(self.stack@[n - 1].pi@) =~= texts(before.pi@).push(raw@));
            assert(frame_models(self.stack@) =~= frame_models(old(self).stack@).update(
                n - 1,
                FrameModel { pi: before@.pi.push(raw@), ..before@ },
            ));
        } else {
            self.pi.push(raw);
            assert(texts(self.pi@) =~= texts(old(self).pi@).push(raw@));
        }
    }

    fn push_comment(&mut self, text: String)
        requires
            old(self).wf(),
        ensures
            final(self)@ == comment_added(old(self)@, text@),
            final(self).wf(),
            final(self).roots == old(self).roots,
    {
        let n: usize = self.stack.len();
        if n > 0 {
            let ghost before = self.stack@[n - 1];
            self.stack[n - 1].comments.push(text);
            assert(texts(self.stack@[n - 1].comments@) =~= texts(before.comments@).push(text@));
            assert(frame_models(self.stack@) =~= frame_models(old(self).stack@).update(
                n - 1,
                FrameModel { comments: before@.comments.push(text@), ..before@ },
            ));
        } else {
            self.comments.push(text);
            assert(texts(self.comments@) =~= texts(old(self).comments@).push(text@));
        }
    }

    fn append_child(&mut self, tag: &str, child: Value)
        requires
            old(self).wf(),
            old(self).roots < usize::MAX,
        ensures
            final(self)@ == child_added(old(self)@, tag@, child@),
            final(self).wf(),
            final(self).roots <= old(self).roots + 1,
    {
        let n: usize = self.stack.len();
        if n > 0 {
            let ghost before = self.stack@[n - 1];
            push_child(&mut self.stack[n - 1].children, tag, child);
            assert(frame_models(self.stack@) =~= frame_models(old(self).stack@).update(
                n - 1,
                FrameModel { children: grouped(before@.children, tag@, child@), ..before@ },
            ));
        } else {
            proof {
                lemma_grouped_total(group_models(self.children@), tag@, child@);
            }
            push_child(&mut self.children, tag, child);
            assert(self.children@.len() == group_models(self.children@).len());
            self.roots = self.roots + 1;
        }
    }

    fn see_element(&mut self)
        requires
            old(self).wf(),
        ensures
            final(self)@ == element_seen(old(self)@),
            final(self).wf(),
            final(self).roots == old(self).roots,
    {
        let n: usize = self.stack.len();
        if n > 0 {
            let ghost before = self.stack@[n - 1];
            let mixed: bool = self.stack[n - 1].saw_mixed || self.stack[n - 1].has_text;
            self.stack[n - 1].saw_element = true;
            self.stack[n - 1].saw_mixed = mixed;
            assert(frame_models(self.stack@) =~= frame_models(old(self).stack@).update(
                n - 1,
                FrameModel { saw_element: true, saw_mixed: mixed, ..before@ },
            ));
        }
    }

    fn add_text(&mut self, text: &str, counts: bool)
        requires
            old(self).wf(),
        ensures
            final(self)@ == text_added(old(self)@, text@, counts),
            final(self).wf(),
            final(self).roots == old(self).roots,
    {
        let n: usize = self.stack.len();
        if n > 0 {
            let ghost before = self.stack@[n - 1];
            let mixed: bool = self.stack[n - 1].saw_mixed || (counts && self.stack[n
                - 1].saw_element);
            let has_text: bool = self.stack[n - 1].has_text || counts;
            self.stack[n - 1].text.push_str(text);
            self.stack[n - 1].has_text = has_text;
            self.stack[n - 1].saw_mixed = mixed;
            assert(frame_models(self.stack@) =~= frame_models(old(self).stack@).update(
                n - 1,
                FrameModel { text: before@.text + text@, has_text, saw_mixed: mixed, ..before@ },
            ));
        }
    }

    fn close(&mut self, frame: Frame)
        requires
            old(self).wf(),
            old(self).roots < usize::MAX,
        ensures
            final(self)@ == closed(old(self)@, frame@),
            final(self).wf(),
            final(self).roots <= old(self).roots + 1,
    {
        let tag: String = frame.tag.clone();
        if frame.saw_mixed {
            let path: String = element_path(&self.stack, tag.as_str());
            let note: XmlNote = XmlNote::MixedContent(path);
            let ghost shown = note@;
            self.notes.push(note);
            assert(note_models(self.notes@) =~= note_models(old(self).notes@).push(shown));
        }
        let value: Value = frame.finalise();
        self.append_child(tag.as_str(), value);
    }

    fn declare(&mut self, content: &str)
        requires
            old(self).wf(),
        ensures
            final(self)@ == (XmlModel {
                top: inserted(
                    old(self)@.top,
                    "#xml"@,
                    Tree::Object(declaration_entries(declaration_of(content@))),
                ),
                ..old(self)@
            }),
            final(self).wf(),
            final(self).roots == old(self).roots,
    {
        broadcast use lemma_object_view;

        let (version, encoding, standalone) = if content.as_bytes().len() >= 3 {
            read_declaration(content)
        } else {
            (None, None, None)
        };
        let mut entries: ValueMap = ValueMap::new();
        match version {
            Some(v) => entries.insert("version".to_owned(), Value::String(v)),
            None => {},
        }
        match encoding {
            Some(v) => entries.insert("encoding".to_owned(), Value::String(v)),
            None => {},
        }
        match standalone {
            Some(v) => entries.insert("standalone".to_owned(), Value::String(v)),
            None => {},
        }
        self.top.insert("#xml".to_owned(), Value::Object(entries));
    }

    fn end_element(&mut self, text: &str, event: &XmlEvent) -> (r: Result<(), Error>)
        requires
            old(self).wf(),
            old(self).roots < usize::MAX,
            event.kind == XmlKind::Closing,
        ensures
            match (r, xml_step(old(self)@, text@, event@)) {
                (Ok(_), Ok(m)) => final(self)@ == m && final(self).wf() && final(self).roots <= old(
                    self,
                ).roots + 1,
                (Err(e), Err(f)) => e@ == f,
                _ => false,
            },
    {
        let ghost models = frame_models(self.stack@);
        match self.stack.pop() {
            None => {
                let head: String = joined(
                    "XML parse error: unexpected closing tag </",
                    event.content.as_str(),
                );
                Err(placed_error(text, event.pos, joined(head.as_str(), ">")))
            },
            Some(frame) => {
                assert(models.last() == frame@);
                assert(frame_models(self.stack@) =~= models.drop_last());
                if !same_text(event.content.as_str(), frame.tag.as_str()) {
                    let a: String = joined(
                        "XML parse error: closing tag </",
                        event.content.as_str(),
                    );
                    let b: String = joined(a.as_str(), "> does not match <");
                    let c: String = joined(b.as_str(), frame.tag.as_str());
                    return Err(placed_error(text, event.pos, joined(c.as_str(), ">")));
                }
                self.close(frame);
                Ok(())
            },
        }
    }

    /// Takes one event in.
    pub fn step(&mut self, text: &str, event: &XmlEvent) -> (r: Result<(), Error>)
        requires
            old(self).wf(),
            old(self).roots < usize::MAX,
        ensures
            match (r, xml_step(old(self)@, text@, event@)) {
                (Ok(_), Ok(m)) => final(self)@ == m && final(self).wf() && final(self).roots <= old(
                    self,
                ).roots + 1,
                (Err(e), Err(f)) => e@ == f,
                _ => false,
            },
    {
        match event.kind {
            XmlKind::Declaration => {
                if self.stack.len() > 0 {
                    self.push_pi(event.content.clone());
                } else {
                    self.declare(event.content.as_str());
                }
            },
            XmlKind::Doctype => {
                self.notes.push(XmlNote::Doctype);
                assert(note_models(self.notes@) =~= note_models(old(self).notes@).push(
                    NoteModel::Doctype,
                ));
            },
            XmlKind::Processing => self.push_pi(event.content.clone()),
            XmlKind::Remark => match text_content(event.content.as_str()) {
                Ok(shown) => self.push_comment(shown),
                Err(message) => {
                    return Err(
                        unplaced_parse_error(
                            joined(
                                "XML parse error: malformed text/comment: ",
                                message.as_str(),
                            ),
                        ),
                    );
                },
            },
            XmlKind::Opening => match build_start_frame(event.content.as_str()) {
                Ok(frame) => {
                    self.see_element();
                    let ghost before = self.stack@;
                    let ghost shown = frame@;
                    self.stack.push(frame);
                    assert(frame_models(self.stack@) =~= frame_models(before).push(shown));
                },
                Err(e) => {
                    return Err(e);
                },
            },
            XmlKind::Lone => match build_start_frame(event.content.as_str()) {
                Ok(frame) => {
                    self.see_element();
                    self.close(frame);
                },
                Err(e) => {
                    return Err(e);
                },
            },
            XmlKind::Closing => {
                return self.end_element(text, event);
            },
            XmlKind::Words => match text_content(event.content.as_str()) {
                Ok(shown) => {
                    let counts: bool = trim_chars(&chars_of(shown.as_str())).len() > 0;
                    self.add_text(shown.as_str(), counts);
                },
                Err(message) => {
                    return Err(
                        unplaced_parse_error(
                            joined(
                                "XML parse error: malformed text/comment: ",
                                message.as_str(),
                            ),
                        ),
                    );
                },
            },
            XmlKind::Verbatim => {
                let n: usize = self.stack.len();
                if n > 0 {
                    let ghost before = self.stack@[n - 1];
                    self.stack[n - 1].cdata.push(event.content.clone());
                    assert(texts(self.stack@[n - 1].cdata@) =~= texts(before.cdata@).push(
                        event.content@,
                    ));
                    assert(frame_models(self.stack@) =~= frame_models(old(self).stack@).update(
                        n - 1,
                        FrameModel { cdata: before@.cdata.push(event.content@), ..before@ },
                    ));
                }
            },
            XmlKind::Reference => {
                let numeric: Result<Option<char>, String> = char_reference(event.content.as_str());
                match resolve_general_ref(event.content.as_str(), numeric) {
                    Ok(shown) => self.add_text(shown.as_str(), true),
                    Err(message) => {
                        return Err(placed_error(text, event.pos, message));
                    },
                }
            },
        }
        Ok(())
    }

    /// The value of a document that was read to its end.
    fn into_value(self) -> (r: Value)
        ensures
            r@ == xml_value(self@),
    {
        broadcast use lemma_object_view;

        let mut top: ValueMap = self.top;
        insert_list(&mut top, "#pi", &self.pi);
        insert_list(&mut top, "#comments", &self.comments);
        insert_groups(&mut top, self.children);
        Value::Object(top)
    }
}

proof fn lemma_run_fails(text: Seq<char>, events: Seq<XmlPiece>, k: int, n: int)
    requires
        0 <= k <= n,
        xml_run(text, events, k) is Err,
    ensures
        xml_run(text, events, n) == xml_run(text, events, k),
    decreases n - k,
{
    if k < n {
        lemma_run_fails(text, events, k, n - 1);
    }
}

/// The outcome of parsing that also has something to tell.
pub open spec fn noted_agrees(
    r: Result<(Value, Vec<XmlNote>), Error>,
    model: Result<(Tree, Seq<NoteModel>), Fault>,
) -> bool {
    match (r, model) {
        (Ok((v, notes)), Ok((t, ns))) => v@ == t && note_models(notes@) == ns,
        (Err(e), Err(f)) => e@ == f,
        _ => false,
    }
}

/// Folds the events of a text into its value tree.
pub fn fold_events(
    text: &str,
    events: &Vec<XmlEvent>,
    end: usize,
    complaint: Option<String>,
) -> (r: Result<(Value, Vec<XmlNote>), Error>)
    ensures
        noted_agrees(
            r,
            xml_outcome(
                text@,
                XmlReading {
                    events: pieces(events@),
                    end: end as int,
                    complaint: match complaint {
                        Some(message) => Some(message@),
                        None => None,
                    },
                },
            ),
        ),
{
    let ghost models = pieces(events@);
    let mut state: XmlState = XmlState::new();
    let mut i: usize = 0;
    while i < events.len()
        invariant
            i <= events@.len(),
            models == pieces(events@),
            state.wf(),
            state.roots <= i,
            xml_run(text@, models, i as int) == Ok::<_, Fault>(state@),
        decreases events@.len() - i,
    {
        assert(models[i as int] == events@[i as int]@);
        let ghost next = xml_run(text@, models, i + 1);
        match state.step(text, &events[i]) {
            Ok(()) => {},
            Err(e) => {
                proof {
                    lemma_run_fails(text@, models, i + 1, models.len() as int);
                }
                return Err(e);
            },
        }
        i += 1;
    }
    match complaint {
        Some(message) => {
            return Err(placed_error(text, end, joined("XML parse error: ", message.as_str())));
        },
        None => {},
    }
    if state.roots != 1 {
        let count: String = index_text(state.roots);
        return Err(
            placed_error(
                text,
                end,
                joined("XML must have exactly one root element; found ", count.as_str()),
            ),
        );
    }
    let mut notes: Vec<XmlNote> = Vec::new();
    let ghost model = state@;
    std::mem::swap(&mut notes, &mut state.notes);
    assert(note_models(notes@) == model.notes);
    let value: Value = state.into_value();
    Ok((value, notes))
}

/// What the bytes of an XML document come to.
pub open spec fn xml_parsed(bytes: Seq<u8>) -> Result<(Tree, Seq<NoteModel>), Fault> {
    if valid_utf8(bytes) {
        let text = decode_utf8(bytes);
        xml_outcome(text, xml_reading(text))
    } else {
        Err(unplaced_parse("invalid UTF-8 in XML input: "@ + utf8_fault_text(bytes)))
    }
}

/// Parses XML into a value tree, with what is worth telling the user. The bytes
/// that are written of a document that reads back give that document, and what
/// is read is such a document where its names and texts stay as they are when
/// they are written.
pub fn parse_xml(bytes: &[u8]) -> (r: Result<(Value, Vec<XmlNote>), Error>)
    ensures
        noted_agrees(r, xml_parsed(bytes@)),
        forall|t: Tree| #[trigger] spells_xml(bytes@, t) ==> (r matches Ok((v, _)) && v@ == t),
        r matches Ok((v, _)) ==> holds_plain_document(v@) ==> is_clean_document(v@),
{
    proof {
        lemma_spelled_reads(bytes@);
        law_what_was_read_is_written_back(bytes@);
    }
    match checked_text(bytes) {
        Ok(text) => {
            let (events, end, complaint) = read_events(text.as_str());
            fold_events(text.as_str(), &events, end, complaint)
        },
        Err(message) => Err(
            unplaced_parse_error(joined("invalid UTF-8 in XML input: ", message.as_str())),
        ),
    }
}

} // verus!
