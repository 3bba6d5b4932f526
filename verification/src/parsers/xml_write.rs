//! From a value tree to XML.

use crate::error::{format_fault, Error, Fault};
use crate::numbers::{decimal, index_text};
use crate::text::{chars_of, joined, same_text};
use crate::value::{
    lemma_array_view, lemma_object_view, lookup, scalar_text_of, trees, Tree, Value, ValueMap,
};
use quick_xml::events::{BytesCData, BytesDecl, BytesEnd, BytesPI, BytesStart, BytesText, Event};
use quick_xml::Writer;
use vstd::prelude::*;
use vstd::utf8::encode_utf8;

verus! {

// ---------------------------------------------------------------------------
// Markup
// ---------------------------------------------------------------------------

/// A character as XML text has it.
pub open spec fn xml_escaped_char(c: char) -> Seq<char> {
    if c == '<' {
        "&lt;"@
    } else if c == '>' {
        "&gt;"@
    } else if c == '&' {
        "&amp;"@
    } else if c == '\'' {
        "&apos;"@
    } else if c == '"' {
        "&quot;"@
    } else {
        seq![c]
    }
}

/// A text as XML has it.
pub open spec fn xml_escaped(s: Seq<char>) -> Seq<char>
    decreases s.len(),
{
    if s.len() == 0 {
        s
    } else {
        xml_escaped(s.drop_last()) + xml_escaped_char(s.last())
    }
}

/// The texts of a sequence of attributes.
pub open spec fn attr_texts(attrs: Seq<(String, String)>) -> Seq<(Seq<char>, Seq<char>)> {
    Seq::new(attrs.len(), |i: int| (attrs[i].0@, attrs[i].1@))
}

/// The first `k` attributes as a tag has them.
pub open spec fn attrs_text(attrs: Seq<(Seq<char>, Seq<char>)>, k: int) -> Seq<char>
    decreases k,
{
    if k <= 0 {
        Seq::empty()
    } else {
        attrs_text(attrs, k - 1) + " "@ + attrs[k - 1].0 + "=\""@ + xml_escaped(attrs[k - 1].1)
            + "\""@
    }
}

/// `<tag ...>`
pub open spec fn opening_tag(tag: Seq<char>, attrs: Seq<(Seq<char>, Seq<char>)>) -> Seq<char> {
    "<"@ + tag + attrs_text(attrs, attrs.len() as int) + ">"@
}

/// `<tag .../>`
pub open spec fn lone_tag(tag: Seq<char>, attrs: Seq<(Seq<char>, Seq<char>)>) -> Seq<char> {
    "<"@ + tag + attrs_text(attrs, attrs.len() as int) + "/>"@
}

/// `</tag>`
pub open spec fn closing_tag(tag: Seq<char>) -> Seq<char> {
    "</"@ + tag + ">"@
}

/// `<?xml ...?>`
pub open spec fn declaration_text(
    version: Seq<char>,
    encoding: Option<Seq<char>>,
    standalone: Option<Seq<char>>,
) -> Seq<char> {
    "<?xml version=\""@ + version + (match encoding {
        Some(e) => "\" encoding=\""@ + e,
        None => Seq::empty(),
    }) + (match standalone {
        Some(s) => "\" standalone=\""@ + s,
        None => Seq::empty(),
    }) + "\"?>"@
}

/// A list of items of one kind that an element holds.
#[derive(Debug, Clone, Copy, PartialEq, Eq, Structural)]
pub enum ListKind {
    /// `<!-- ... -->`
    Comments,
    /// `<?...?>`
    Instructions,
    /// `<![CDATA[...]]>`
    Cdata,
}

/// Whether what ends a comment stands at `i`.
pub open spec fn comment_ends_at(s: Seq<char>, i: int) -> bool {
    0 <= i && i + 2 < s.len() && s[i] == '-' && s[i + 1] == '-' && s[i + 2] == '>'
}

/// Whether a text holds what ends a comment.
pub open spec fn holds_comment_end(s: Seq<char>) -> bool {
    exists|i: int| #[trigger] comment_ends_at(s, i)
}

/// One item of such a list as XML has it. A comment is written as it is; only
/// one that holds what would end it is escaped.
pub open spec fn listed_text(kind: ListKind, s: Seq<char>) -> Seq<char> {
    match kind {
        ListKind::Comments => if holds_comment_end(s) {
            "<!--"@ + xml_escaped(s) + "-->"@
        } else {
            "<!--"@ + s + "-->"@
        },
        ListKind::Instructions => "<?"@ + s + "?>"@,
        ListKind::Cdata => "<![CDATA["@ + s + "]]>"@,
    }
}

/// `quick_xml::Writer` writes an opening tag made by `BytesStart::push_attribute`:
/// the name as it is, and behind it each attribute with its value escaped.
/// Writing to a vector does not fail.
#[verifier::external_body]
fn emit_opening(w: &mut Vec<u8>, tag: &str, attrs: &Vec<(String, String)>)
    ensures
        final(w)@ == old(w)@ + encode_utf8(opening_tag(tag@, attr_texts(attrs@))),
{
    let mut start = BytesStart::new(tag);
    for (name, value) in attrs {
        start.push_attribute((name.as_str(), value.as_str()));
    }
    let _ = Writer::new(w).write_event(Event::Start(start));
}

/// `quick_xml::Writer` writes a tag that closes itself, made by
/// `BytesStart::push_attribute`. Writing to a vector does not fail.
#[verifier::external_body]
fn emit_lone(w: &mut Vec<u8>, tag: &str, attrs: &Vec<(String, String)>)
    ensures
        final(w)@ == old(w)@ + encode_utf8(lone_tag(tag@, attr_texts(attrs@))),
{
    let mut start = BytesStart::new(tag);
    for (name, value) in attrs {
        start.push_attribute((name.as_str(), value.as_str()));
    }
    let _ = Writer::new(w).write_event(Event::Empty(start));
}

/// `quick_xml::Writer` writes a closing tag. Writing to a vector does not fail.
#[verifier::external_body]
fn emit_closing(w: &mut Vec<u8>, tag: &str)
    ensures
        final(w)@ == old(w)@ + encode_utf8(closing_tag(tag@)),
{
    let _ = Writer::new(w).write_event(Event::End(BytesEnd::new(tag)));
}

/// `quick_xml::Writer` writes `BytesText::new`, which escapes the text. Writing
/// to a vector does not fail.
#[verifier::external_body]
fn emit_text(w: &mut Vec<u8>, text: &str)
    ensures
        final(w)@ == old(w)@ + encode_utf8(xml_escaped(text@)),
{
    let _ = Writer::new(w).write_event(Event::Text(BytesText::new(text)));
}

/// `quick_xml::Writer` writes `BytesText::from_escaped` as it is. Writing to a
/// vector does not fail.
#[verifier::external_body]
fn emit_raw_text(w: &mut Vec<u8>, text: &str)
    ensures
        final(w)@ == old(w)@ + encode_utf8(text@),
{
    let _ = Writer::new(w).write_event(Event::Text(BytesText::from_escaped(text)));
}

/// `quick_xml::Writer` writes a comment made of `BytesText::from_escaped` as it
/// is. Writing to a vector does not fail.
#[verifier::external_body]
fn emit_comment(w: &mut Vec<u8>, text: &str)
    ensures
        final(w)@ == old(w)@ + encode_utf8("<!--"@ + text@ + "-->"@),
{
    let _ = Writer::new(w).write_event(Event::Comment(BytesText::from_escaped(text)));
}

/// `quick_xml::Writer` writes a comment made of `BytesText::new`, which escapes
/// the text. Writing to a vector does not fail.
#[verifier::external_body]
fn emit_escaped_comment(w: &mut Vec<u8>, text: &str)
    ensures
        final(w)@ == old(w)@ + encode_utf8("<!--"@ + xml_escaped(text@) + "-->"@),
{
    let _ = Writer::new(w).write_event(Event::Comment(BytesText::new(text)));
}

/// `quick_xml::Writer` writes a processing instruction as it is. Writing to a
/// vector does not fail.
#[verifier::external_body]
fn emit_instruction(w: &mut Vec<u8>, text: &str)
    ensures
        final(w)@ == old(w)@ + encode_utf8(listed_text(ListKind::Instructions, text@)),
{
    let _ = Writer::new(w).write_event(Event::PI(BytesPI::new(text)));
}

/// `quick_xml::Writer` writes a CDATA block as it is. Writing to a vector does
/// not fail.
#[verifier::external_body]
fn emit_cdata(w: &mut Vec<u8>, text: &str)
    ensures
        final(w)@ == old(w)@ + encode_utf8(listed_text(ListKind::Cdata, text@)),
{
    let _ = Writer::new(w).write_event(Event::CData(BytesCData::new(text)));
}

/// The text of an optional string slice.
pub open spec fn optional_str(s: Option<&str>) -> Option<Seq<char>> {
    match s {
        Some(text) => Some(text@),
        None => None,
    }
}

/// `quick_xml::Writer` writes `BytesDecl::new`: the version and, where they are
/// given, the encoding and the standalone part, as they are. Writing to a
/// vector does not fail.
#[verifier::external_body]
fn emit_declaration(
    w: &mut Vec<u8>,
    version: &str,
    encoding: Option<&str>,
    standalone: Option<&str>,
)
    ensures
        final(w)@ == old(w)@ + encode_utf8(
            declaration_text(version@, optional_str(encoding), optional_str(standalone)),
        ),
{
    let _ = Writer::new(w).write_event(Event::Decl(BytesDecl::new(version, encoding, standalone)));
}

// ---------------------------------------------------------------------------
// Elements
// ---------------------------------------------------------------------------

/// Whether a key is one of the fixed ones, and no tag name.
pub open spec fn conventional(k: Seq<char>) -> bool {
    k == "#xml"@ || k == "@attrs"@ || k == "#text"@ || k == "#cdata"@ || k == "#pi"@ || k
        == "#comments"@
}

/// Whether a key is one of the fixed ones, and no tag name.
pub fn is_conventional(k: &str) -> (r: bool)
    ensures
        r == conventional(k@),
{
    same_text(k, "#xml") || same_text(k, "@attrs") || same_text(k, "#text") || same_text(
        k,
        "#cdata",
    ) || same_text(k, "#pi") || same_text(k, "#comments")
}

/// Whether a value is an array with something in it.
pub open spec fn is_filled_array(t: Tree) -> bool {
    t is Array && t->Array_0.len() > 0
}

fn non_empty_array(v: &Value) -> (r: bool)
    ensures
        r == is_filled_array(v@),
{
    broadcast use lemma_array_view;

    match v {
        Value::Array(items) => items.len() > 0,
        _ => false,
    }
}

/// Whether the list under `key` has something in it.
pub open spec fn has_list(body: Seq<(Seq<char>, Tree)>, key: Seq<char>) -> bool {
    match lookup(body, key) {
        Some(t) => is_filled_array(t),
        None => false,
    }
}

/// Whether the text of an element is there, and not null.
pub open spec fn has_text(body: Seq<(Seq<char>, Tree)>) -> bool {
    match lookup(body, "#text"@) {
        Some(Tree::Null) => false,
        Some(_) => true,
        None => false,
    }
}

/// Whether an element has a child element among its first `k` entries.
pub open spec fn has_children(body: Seq<(Seq<char>, Tree)>, k: int) -> bool {
    exists|i: int|
        0 <= i < k && !conventional((#[trigger] body[i]).0) && is_filled_array(body[i].1)
}

/// A fault of the XML writer.
pub open spec fn xml_fault(message: Seq<char>) -> Fault {
    format_fault("xml"@, message)
}

fn xml_error(message: String) -> (r: Error)
    ensures
        r@ == xml_fault(message@),
{
    Error::Format { format: "xml", message }
}

/// The attributes made of the first `k` entries; each must be a scalar.
pub open spec fn attr_pairs(tag: Seq<char>, attrs: Seq<(Seq<char>, Tree)>, k: int) -> Result<
    Seq<(Seq<char>, Seq<char>)>,
    Fault,
>
    decreases k,
{
    if k <= 0 {
        Ok(Seq::empty())
    } else {
        match attr_pairs(tag, attrs, k - 1) {
            Err(f) => Err(f),
            Ok(before) => match scalar_text_of(attrs[k - 1].1) {
                Some(text) => Ok(before.push((attrs[k - 1].0, text))),
                None => Err(
                    xml_fault(
                        "XML write: attribute '"@ + attrs[k - 1].0 + "' on <"@ + tag
                            + "> must be a scalar (got non-scalar)"@,
                    ),
                ),
            },
        }
    }
}

/// The attributes of an element.
pub open spec fn element_attrs(tag: Seq<char>, body: Seq<(Seq<char>, Tree)>) -> Result<
    Seq<(Seq<char>, Seq<char>)>,
    Fault,
> {
    match lookup(body, "@attrs"@) {
        Some(Tree::Object(attrs)) => attr_pairs(tag, attrs, attrs.len() as int),
        _ => Ok(Seq::empty()),
    }
}

/// A new line at indentation `pad`, in the pretty layout only.
pub open spec fn indent_break(pad: Seq<char>, pretty: bool) -> Seq<u8> {
    if pretty {
        encode_utf8("\n"@ + pad)
    } else {
        Seq::empty()
    }
}

/// The first `k` items of a list, each on a line of its own in the pretty
/// layout; what is not a string is left out.
pub open spec fn listed(
    kind: ListKind,
    items: Seq<Tree>,
    k: int,
    pad: Seq<char>,
    pretty: bool,
) -> Seq<u8>
    decreases k,
{
    if k <= 0 {
        Seq::empty()
    } else {
        listed(kind, items, k - 1, pad, pretty) + (match items[k - 1] {
            Tree::String(s) => indent_break(pad, pretty) + encode_utf8(listed_text(kind, s)),
            _ => Seq::empty(),
        })
    }
}

/// The list under `key`.
pub open spec fn list_bytes(
    kind: ListKind,
    list: Option<Tree>,
    pad: Seq<char>,
    pretty: bool,
) -> Seq<u8> {
    match list {
        Some(Tree::Array(items)) => listed(kind, items, items.len() as int, pad, pretty),
        _ => Seq::empty(),
    }
}

/// An element that holds only a text.
pub open spec fn text_element(tag: Seq<char>, text: Seq<char>) -> Seq<u8> {
    encode_utf8(opening_tag(tag, Seq::empty())) + encode_utf8(xml_escaped(text)) + encode_utf8(
        closing_tag(tag),
    )
}

/// The text of an element.
pub open spec fn text_bytes(body: Seq<(Seq<char>, Tree)>) -> Seq<u8> {
    match lookup(body, "#text"@) {
        Some(Tree::String(s)) => encode_utf8(xml_escaped(s)),
        _ => Seq::empty(),
    }
}

/// What stands in an element before its child elements.
pub open spec fn element_head(
    body: Seq<(Seq<char>, Tree)>,
    pad: Seq<char>,
    pretty: bool,
) -> Seq<u8> {
    list_bytes(ListKind::Comments, lookup(body, "#comments"@), pad, pretty) + list_bytes(
        ListKind::Instructions,
        lookup(body, "#pi"@),
        pad,
        pretty,
    ) + text_bytes(body) + list_bytes(ListKind::Cdata, lookup(body, "#cdata"@), pad, false)
}

/// Whether an element has anything to stand between its tags.
pub open spec fn has_content(body: Seq<(Seq<char>, Tree)>) -> bool {
    has_text(body) || has_list(body, "#cdata"@) || has_list(body, "#pi"@) || has_list(
        body,
        "#comments"@,
    ) || has_children(body, body.len() as int)
}

/// Whether the children of an element stand on lines of their own: it has
/// some, and no text.
pub open spec fn is_pretty(body: Seq<(Seq<char>, Tree)>) -> bool {
    has_children(body, body.len() as int) && !has_text(body)
}

/// An element at indentation `pad`: comments, instructions, text, CDATA, then
/// child elements. One with nothing to stand between its tags closes itself.
pub open spec fn xml_element(
    tag: Seq<char>,
    body: Seq<(Seq<char>, Tree)>,
    pad: Seq<char>,
) -> Result<Seq<u8>, Fault>
    decreases body, body.len() + 1,
{
    match element_attrs(tag, body) {
        Err(f) => Err(f),
        Ok(attrs) => if !has_content(body) {
            Ok(encode_utf8(lone_tag(tag, attrs)))
        } else {
            let inner = pad + "  "@;
            let pretty = is_pretty(body);
            match xml_children(tag, body, body.len(), inner, pretty) {
                Err(f) => Err(f),
                Ok(children) => Ok(
                    encode_utf8(opening_tag(tag, attrs)) + element_head(body, inner, pretty)
                        + children + indent_break(pad, pretty) + encode_utf8(closing_tag(tag)),
                ),
            }
        },
    }
}

/// The child elements among the first `k` entries of an element.
pub open spec fn xml_children(
    tag: Seq<char>,
    body: Seq<(Seq<char>, Tree)>,
    k: nat,
    pad: Seq<char>,
    pretty: bool,
) -> Result<Seq<u8>, Fault>
    decreases body, k,
{
    if k == 0 || k > body.len() {
        Ok(Seq::empty())
    } else {
        match xml_children(tag, body, (k - 1) as nat, pad, pretty) {
            Err(f) => Err(f),
            Ok(before) => if conventional(body[k - 1].0) {
                Ok(before)
            } else {
                match body[k - 1].1 {
                    Tree::Array(items) => match xml_items(
                        tag,
                        body[k - 1].0,
                        items,
                        items.len(),
                        pad,
                        pretty,
                    ) {
                        Ok(bytes) => Ok(before + bytes),
                        Err(f) => Err(f),
                    },
                    _ => Err(
                        xml_fault(
                            "XML write: child '"@ + body[k - 1].0 + "' under <"@ + tag
                                + "> must be an Array of element maps"@,
                        ),
                    ),
                }
            },
        }
    }
}

/// The first `k` elements of one name inside an element.
pub open spec fn xml_items(
    tag: Seq<char>,
    name: Seq<char>,
    items: Seq<Tree>,
    k: nat,
    pad: Seq<char>,
    pretty: bool,
) -> Result<Seq<u8>, Fault>
    decreases items, k,
{
    if k == 0 || k > items.len() {
        Ok(Seq::empty())
    } else {
        match xml_items(tag, name, items, (k - 1) as nat, pad, pretty) {
            Err(f) => Err(f),
            Ok(before) => {
                let item = match items[k - 1] {
                    Tree::Object(body) => xml_element(name, body, pad),
                    Tree::Array(_) => Err(
                        xml_fault(
                            "XML write: nested arrays are not representable; child '"@ + name
                                + "' under <"@ + tag + ">"@,
                        ),
                    ),
                    Tree::Null => Ok(encode_utf8(lone_tag(name, Seq::empty()))),
                    t => Ok(text_element(name, scalar_text_of(t)->Some_0)),
                };
                match item {
                    Ok(bytes) => Ok(before + indent_break(pad, pretty) + bytes),
                    Err(f) => Err(f),
                }
            },
        }
    }
}

// ---------------------------------------------------------------------------
// Documents
// ---------------------------------------------------------------------------

/// The string under `key`.
pub open spec fn string_under(entries: Seq<(Seq<char>, Tree)>, key: Seq<char>) -> Option<
    Seq<char>,
> {
    match lookup(entries, key) {
        Some(Tree::String(s)) => Some(s),
        _ => None,
    }
}

/// The declaration of a document, where it has one.
pub open spec fn declaration_bytes(top: Seq<(Seq<char>, Tree)>) -> Seq<u8> {
    match lookup(top, "#xml"@) {
        Some(Tree::Object(d)) => encode_utf8(
            declaration_text(
                match string_under(d, "version"@) {
                    Some(v) => v,
                    None => "1.0"@,
                },
                string_under(d, "encoding"@),
                string_under(d, "standalone"@),
            ),
        ),
        _ => Seq::empty(),
    }
}

/// The position of the first entry from `k` on whose key is no fixed one.
pub open spec fn root_index(top: Seq<(Seq<char>, Tree)>, k: int) -> int
    decreases top.len() - k,
{
    if 0 <= k < top.len() && conventional(top[k].0) {
        root_index(top, k + 1)
    } else {
        k
    }
}

/// Whether a key is one that stands above the root element.
pub open spec fn is_top_key(k: Seq<char>) -> bool {
    k == "#xml"@ || k == "#pi"@ || k == "#comments"@
}

/// The position of the first entry from `k` on that is neither the root at
/// `root` nor stands above it.
pub open spec fn stray_index(top: Seq<(Seq<char>, Tree)>, root: int, k: int) -> int
    decreases top.len() - k,
{
    if 0 <= k < top.len() && (k == root || is_top_key(top[k].0)) {
        stray_index(top, root, k + 1)
    } else {
        k
    }
}

/// The root element under a tag.
pub open spec fn root_bytes(tag: Seq<char>, roots: Option<Tree>) -> Result<Seq<u8>, Fault> {
    match roots {
        Some(Tree::Array(items)) => if items.len() != 1 {
            Err(
                xml_fault(
                    "XML write: root element '"@ + tag
                        + "' must occur exactly once at the top level (got "@ + decimal(items.len())
                        + ")"@,
                ),
            )
        } else {
            match items[0] {
                Tree::Object(body) => xml_element(tag, body, Seq::empty()),
                _ => Err(xml_fault("XML write: root element '"@ + tag + "' must be a Map"@)),
            }
        },
        _ => Err(
            xml_fault(
                "XML write: root '"@ + tag + "' must be a one-element Array (got non-array)"@,
            ),
        ),
    }
}

/// A value tree as an XML document: the declaration, the instructions and
/// comments above the root, then the root, which is the entry with a tag name
/// for its key. There is one root, and nothing else beside it.
pub open spec fn xml_rendered(t: Tree) -> Result<Seq<u8>, Fault> {
    match t {
        Tree::Object(top) => {
            let at = root_index(top, 0);
            if at >= top.len() {
                Err(
                    xml_fault(
                        "XML write requires a root element; top-level map has no element-shaped key"@,
                    ),
                )
            } else if stray_index(top, at, 0) < top.len() {
                Err(
                    xml_fault(
                        "XML write requires exactly one root element; top-level map also holds '"@
                            + top[stray_index(top, at, 0)].0 + "'"@,
                    ),
                )
            } else {
                match root_bytes(top[at].0, lookup(top, top[at].0)) {
                    Ok(root) => Ok(
                        declaration_bytes(top) + list_bytes(
                            ListKind::Instructions,
                            lookup(top, "#pi"@),
                            Seq::empty(),
                            false,
                        ) + list_bytes(
                            ListKind::Comments,
                            lookup(top, "#comments"@),
                            Seq::empty(),
                            false,
                        ) + root,
                    ),
                    Err(f) => Err(f),
                }
            }
        },
        _ => Err(xml_fault("top-level XML value must be a map (object)"@)),
    }
}

// ---------------------------------------------------------------------------
// The writer
// ---------------------------------------------------------------------------

/// Whether what was written is what the model gives.
pub open spec fn written(
    r: Result<(), Error>,
    model: Result<Seq<u8>, Fault>,
    before: Seq<u8>,
    after: Seq<u8>,
) -> bool {
    match (r, model) {
        (Ok(_), Ok(bytes)) => after == before + bytes,
        (Err(e), Err(f)) => e@ == f,
        _ => false,
    }
}

fn write_indent_break(w: &mut Vec<u8>, pad: &str, pretty: bool)
    ensures
        final(w)@ == old(w)@ + indent_break(pad@, pretty),
{
    if pretty {
        let text: String = joined("\n", pad);
        emit_raw_text(w, text.as_str());
    } else {
        assert(w@ + Seq::<u8>::empty() =~= w@);
    }
}

/// Whether a text holds what ends a comment.
pub fn has_comment_end(s: &Vec<char>) -> (r: bool)
    ensures
        r == holds_comment_end(s@),
{
    let mut i: usize = 0;
    while i < s.len() && s.len() - i > 2
        invariant
            i <= s@.len(),
            forall|k: int| 0 <= k < i ==> !#[trigger] comment_ends_at(s@, k),
        decreases s@.len() - i,
    {
        if s[i] == '-' && s[i + 1] == '-' && s[i + 2] == '>' {
            assert(comment_ends_at(s@, i as int));
            return true;
        }
        i += 1;
    }
    false
}

fn emit_listed(w: &mut Vec<u8>, kind: ListKind, text: &str)
    ensures
        final(w)@ == old(w)@ + encode_utf8(listed_text(kind, text@)),
{
    match kind {
        ListKind::Comments => if has_comment_end(&chars_of(text)) {
            emit_escaped_comment(w, text)
        } else {
            emit_comment(w, text)
        },
        ListKind::Instructions => emit_instruction(w, text),
        ListKind::Cdata => emit_cdata(w, text),
    }
}

fn write_list(w: &mut Vec<u8>, kind: ListKind, list: Option<&Value>, pad: &str, pretty: bool)
    ensures
        final(w)@ == old(w)@ + list_bytes(
            kind,
            match list {
                Some(v) => Some(v@),
                None => None,
            },
            pad@,
            pretty,
        ),
{
    broadcast use lemma_array_view;

    let items: &Vec<Value> = match list {
        Some(Value::Array(items)) => items,
        _ => {
            assert(w@ + Seq::<u8>::empty() =~= w@);
            return;
        },
    };
    let ghost all = trees(items@);
    let mut i: usize = 0;
    assert(w@ =~= old(w)@ + listed(kind, all, 0, pad@, pretty));
    while i < items.len()
        invariant
            i <= items@.len(),
            all == trees(items@),
            w@ == old(w)@ + listed(kind, all, i as int, pad@, pretty),
        decreases items@.len() - i,
    {
        assert(all[i as int] == items@[i as int]@);
        match &items[i] {
            Value::String(s) => {
                write_indent_break(w, pad, pretty);
                emit_listed(w, kind, s.as_str());
            },
            _ => {},
        }
        assert(w@ =~= old(w)@ + listed(kind, all, i + 1, pad@, pretty));
        i += 1;
    }
}

proof fn lemma_pairs_fail(tag: Seq<char>, attrs: Seq<(Seq<char>, Tree)>, k: int, n: int)
    requires
        0 <= k <= n,
        attr_pairs(tag, attrs, k) is Err,
    ensures
        attr_pairs(tag, attrs, n) == attr_pairs(tag, attrs, k),
    decreases n - k,
{
    if k < n {
        lemma_pairs_fail(tag, attrs, k, n - 1);
    }
}

fn collect_attrs(tag: &str, body: &ValueMap) -> (r: Result<Vec<(String, String)>, Error>)
    ensures
        match (r, element_attrs(tag@, body@)) {
            (Ok(pairs), Ok(m)) => attr_texts(pairs@) == m,
            (Err(e), Err(f)) => e@ == f,
            _ => false,
        },
{
    broadcast use lemma_object_view;

    let mut out: Vec<(String, String)> = Vec::new();
    assert(attr_texts(out@) =~= Seq::<(Seq<char>, Seq<char>)>::empty());
    let attrs: &ValueMap = match body.get("@attrs") {
        Some(Value::Object(attrs)) => attrs,
        _ => {
            return Ok(out);
        },
    };
    let mut i: usize = 0;
    while i < attrs.entries.len()
        invariant
            i <= attrs.entries@.len(),
            element_attrs(tag@, body@) == attr_pairs(tag@, attrs@, attrs@.len() as int),
            attr_pairs(tag@, attrs@, i as int) == Ok::<_, Fault>(attr_texts(out@)),
        decreases attrs.entries@.len() - i,
    {
        let ghost next = attr_pairs(tag@, attrs@, i + 1);
        assert(attrs@[i as int] == (attrs.entries@[i as int].0@, attrs.entries@[i as int].1@));
        match attrs.entries[i].1.scalar_text() {
            Some(text) => {
                let name: String = attrs.entries[i].0.clone();
                let ghost before = attr_texts(out@);
                let ghost pair = (name@, text@);
                out.push((name, text));
                assert(attr_texts(out@) =~= before.push(pair));
            },
            None => {
                proof {
                    lemma_pairs_fail(tag@, attrs@, i + 1, attrs@.len() as int);
                }
                let a: String = joined("XML write: attribute '", attrs.entries[i].0.as_str());
                let b: String = joined(a.as_str(), "' on <");
                let c: String = joined(b.as_str(), tag);
                return Err(
                    xml_error(joined(c.as_str(), "> must be a scalar (got non-scalar)")),
                );
            },
        }
        i += 1;
    }
    Ok(out)
}

fn list_is_filled(body: &ValueMap, key: &str) -> (r: bool)
    ensures
        r == has_list(body@, key@),
{
    match body.get(key) {
        Some(v) => non_empty_array(v),
        None => false,
    }
}

fn text_is_there(body: &ValueMap) -> (r: bool)
    ensures
        r == has_text(body@),
{
    match body.get("#text") {
        Some(Value::Null) => false,
        Some(_) => true,
        None => false,
    }
}

fn child_is_there(body: &ValueMap) -> (r: bool)
    ensures
        r == has_children(body@, body@.len() as int),
{
    let mut i: usize = 0;
    while i < body.entries.len()
        invariant
            i <= body.entries@.len(),
            !has_children(body@, i as int),
        decreases body.entries@.len() - i,
    {
        assert(body@[i as int] == (body.entries@[i as int].0@, body.entries@[i as int].1@));
        if !is_conventional(body.entries[i].0.as_str()) && non_empty_array(&body.entries[i].1) {
            return true;
        }
        i += 1;
    }
    false
}

fn write_text_element(w: &mut Vec<u8>, tag: &str, text: &str)
    ensures
        final(w)@ == old(w)@ + text_element(tag@, text@),
{
    let none: Vec<(String, String)> = Vec::new();
    assert(attr_texts(none@) =~= Seq::<(Seq<char>, Seq<char>)>::empty());
    emit_opening(w, tag, &none);
    emit_text(w, text);
    emit_closing(w, tag);
    assert(w@ =~= old(w)@ + text_element(tag@, text@));
}

fn write_text(w: &mut Vec<u8>, body: &ValueMap)
    ensures
        final(w)@ == old(w)@ + text_bytes(body@),
{
    match body.get("#text") {
        Some(Value::String(s)) => emit_text(w, s.as_str()),
        _ => {
            assert(w@ + Seq::<u8>::empty() =~= w@);
        },
    }
}

fn write_head(w: &mut Vec<u8>, body: &ValueMap, pad: &str, pretty: bool)
    ensures
        final(w)@ == old(w)@ + element_head(body@, pad@, pretty),
{
    let ghost start = w@;
    let comments: Option<&Value> = body.get("#comments");
    write_list(w, ListKind::Comments, comments, pad, pretty);
    let ghost a = list_bytes(ListKind::Comments, lookup(body@, "#comments"@), pad@, pretty);
    assert(w@ == start + a);
    let instructions: Option<&Value> = body.get("#pi");
    write_list(w, ListKind::Instructions, instructions, pad, pretty);
    let ghost b = list_bytes(ListKind::Instructions, lookup(body@, "#pi"@), pad@, pretty);
    assert(w@ == start + a + b);
    write_text(w, body);
    let ghost c = text_bytes(body@);
    assert(w@ == start + a + b + c);
    let cdata: Option<&Value> = body.get("#cdata");
    write_list(w, ListKind::Cdata, cdata, pad, false);
    let ghost d = list_bytes(ListKind::Cdata, lookup(body@, "#cdata"@), pad@, false);
    assert(w@ =~= start + (a + b + c + d));
}

/// Writes an element at indentation `pad`.
pub fn write_element(w: &mut Vec<u8>, tag: &str, body: &ValueMap, pad: &str) -> (r: Result<
    (),
    Error,
>)
    ensures
        written(r, xml_element(tag@, body@, pad@), old(w)@, final(w)@),
    decreases body, 2int,
{
    let attrs: Vec<(String, String)> = match collect_attrs(tag, body) {
        Ok(attrs) => attrs,
        Err(e) => {
            return Err(e);
        },
    };
    let with_text: bool = text_is_there(body);
    let with_children: bool = child_is_there(body);
    if !with_text && !with_children && !list_is_filled(body, "#cdata") && !list_is_filled(
        body,
        "#pi",
    ) && !list_is_filled(body, "#comments") {
        emit_lone(w, tag, &attrs);
        return Ok(());
    }
    let pretty: bool = with_children && !with_text;
    let inner: String = joined(pad, "  ");
    emit_opening(w, tag, &attrs);
    let ghost opened = w@;
    write_head(w, body, inner.as_str(), pretty);
    let ghost headed = w@;
    match write_children(w, tag, body, inner.as_str(), pretty) {
        Ok(()) => {},
        Err(e) => {
            return Err(e);
        },
    }
    let ghost children = xml_children(tag@, body@, body@.len(), inner@, pretty)->Ok_0;
    assert(w@ == headed + children);
    write_indent_break(w, pad, pretty);
    emit_closing(w, tag);
    assert(w@ =~= old(w)@ + xml_element(tag@, body@, pad@)->Ok_0);
    Ok(())
}

proof fn lemma_children_fail(
    tag: Seq<char>,
    body: Seq<(Seq<char>, Tree)>,
    k: nat,
    n: nat,
    pad: Seq<char>,
    pretty: bool,
)
    requires
        k <= n <= body.len(),
        xml_children(tag, body, k, pad, pretty) is Err,
    ensures
        xml_children(tag, body, n, pad, pretty) == xml_children(tag, body, k, pad, pretty),
    decreases n - k,
{
    if k < n {
        lemma_children_fail(tag, body, k, (n - 1) as nat, pad, pretty);
    }
}

fn write_children(w: &mut Vec<u8>, tag: &str, body: &ValueMap, pad: &str, pretty: bool) -> (r:
    Result<(), Error>)
    ensures
        written(r, xml_children(tag@, body@, body@.len(), pad@, pretty), old(w)@, final(w)@),
    decreases body, 1int,
{
    let mut i: usize = 0;
    assert(w@ =~= old(w)@ + Seq::<u8>::empty());
    while i < body.entries.len()
        invariant
            i <= body.entries@.len(),
            xml_children(tag@, body@, i as nat, pad@, pretty) is Ok,
            w@ == old(w)@ + xml_children(tag@, body@, i as nat, pad@, pretty)->Ok_0,
        decreases body.entries@.len() - i,
    {
        let ghost before = xml_children(tag@, body@, i as nat, pad@, pretty)->Ok_0;
        let ghost next = xml_children(tag@, body@, (i + 1) as nat, pad@, pretty);
        assert(body@[i as int] == (body.entries@[i as int].0@, body.entries@[i as int].1@));
        let name: &str = body.entries[i].0.as_str();
        if !is_conventional(name) {
            match &body.entries[i].1 {
                Value::Array(items) => {
                    proof {
                        lemma_array_view(*items);
                    }
                    assert(decreases_to!(*body => body.entries));
                    assert(decreases_to!(body.entries => body.entries@));
                    assert(decreases_to!(body.entries@ => body.entries@[i as int]));
                    assert(decreases_to!(body.entries@[i as int] => body.entries@[i as int].1));
                    assert(decreases_to!(body.entries@[i as int].1 => body.entries@[i as int].1->Array_0));
                    match write_items(w, tag, name, items, pad, pretty) {
                        Ok(()) => {
                            assert(w@ =~= old(w)@ + next->Ok_0);
                        },
                        Err(e) => {
                            proof {
                                lemma_children_fail(
                                    tag@,
                                    body@,
                                    (i + 1) as nat,
                                    body@.len(),
                                    pad@,
                                    pretty,
                                );
                            }
                            return Err(e);
                        },
                    }
                },
                _ => {
                    proof {
                        lemma_children_fail(
                            tag@,
                            body@,
                            (i + 1) as nat,
                            body@.len(),
                            pad@,
                            pretty,
                        );
                    }
                    let a: String = joined("XML write: child '", name);
                    let b: String = joined(a.as_str(), "' under <");
                    let c: String = joined(b.as_str(), tag);
                    return Err(
                        xml_error(joined(c.as_str(), "> must be an Array of element maps")),
                    );
                },
            }
        }
        i += 1;
    }
    Ok(())
}

proof fn lemma_items_fail(
    tag: Seq<char>,
    name: Seq<char>,
    items: Seq<Tree>,
    k: nat,
    n: nat,
    pad: Seq<char>,
    pretty: bool,
)
    requires
        k <= n <= items.len(),
        xml_items(tag, name, items, k, pad, pretty) is Err,
    ensures
        xml_items(tag, name, items, n, pad, pretty) == xml_items(
            tag,
            name,
            items,
            k,
            pad,
            pretty,
        ),
    decreases n - k,
{
    if k < n {
        lemma_items_fail(tag, name, items, k, (n - 1) as nat, pad, pretty);
    }
}

fn write_items(
    w: &mut Vec<u8>,
    tag: &str,
    name: &str,
    items: &Vec<Value>,
    pad: &str,
    pretty: bool,
) -> (r: Result<(), Error>)
    ensures
        written(
            r,
            xml_items(tag@, name@, trees(items@), items@.len(), pad@, pretty),
            old(w)@,
            final(w)@,
        ),
    decreases items, 0int,
{
    let ghost all = trees(items@);
    let mut i: usize = 0;
    assert(w@ =~= old(w)@ + Seq::<u8>::empty());
    while i < items.len()
        invariant
            i <= items@.len(),
            all == trees(items@),
            xml_items(tag@, name@, all, i as nat, pad@, pretty) is Ok,
            w@ == old(w)@ + xml_items(tag@, name@, all, i as nat, pad@, pretty)->Ok_0,
        decreases items@.len() - i,
    {
        let ghost before = xml_items(tag@, name@, all, i as nat, pad@, pretty)->Ok_0;
        let ghost next = xml_items(tag@, name@, all, (i + 1) as nat, pad@, pretty);
        assert(all[i as int] == items@[i as int]@);
        write_indent_break(w, pad, pretty);
        match &items[i] {
            Value::Object(body) => {
                proof {
                    lemma_object_view(*body);
                }
                assert(decreases_to!(*items => items@));
                assert(decreases_to!(items@ => items@[i as int]));
                assert(decreases_to!(items@[i as int] => items@[i as int]->Object_0));
                match write_element(w, name, body, pad) {
                    Ok(()) => {},
                    Err(e) => {
                        proof {
                            lemma_items_fail(
                                tag@,
                                name@,
                                all,
                                (i + 1) as nat,
                                all.len(),
                                pad@,
                                pretty,
                            );
                        }
                        return Err(e);
                    },
                }
            },
            Value::Array(inner) => {
                proof {
                    lemma_array_view(*inner);
                    lemma_items_fail(tag@, name@, all, (i + 1) as nat, all.len(), pad@, pretty);
                }
                let a: String = joined(
                    "XML write: nested arrays are not representable; child '",
                    name,
                );
                let b: String = joined(a.as_str(), "' under <");
                let c: String = joined(b.as_str(), tag);
                return Err(xml_error(joined(c.as_str(), ">")));
            },
            Value::Null => {
                let none: Vec<(String, String)> = Vec::new();
                assert(attr_texts(none@) =~= Seq::<(Seq<char>, Seq<char>)>::empty());
                emit_lone(w, name, &none);
            },
            other => {
                let text: String = match other.scalar_text() {
                    Some(text) => text,
                    None => String::new(),
                };
                write_text_element(w, name, text.as_str());
            },
        }
        assert(w@ =~= old(w)@ + next->Ok_0);
        i += 1;
    }
    Ok(())
}

fn string_at(map: &ValueMap, key: &str) -> (r: Option<String>)
    ensures
        match r {
            Some(s) => string_under(map@, key@) == Some(s@),
            None => string_under(map@, key@) is None,
        },
{
    match map.get(key) {
        Some(Value::String(s)) => Some(s.clone()),
        _ => None,
    }
}

fn slice_of(s: &Option<String>) -> (r: Option<&str>)
    ensures
        optional_str(r) == (match s {
            Some(text) => Some(text@),
            None => None,
        }),
{
    match s {
        Some(text) => Some(text.as_str()),
        None => None,
    }
}

fn write_declaration(w: &mut Vec<u8>, top: &ValueMap)
    ensures
        final(w)@ == old(w)@ + declaration_bytes(top@),
{
    broadcast use lemma_object_view;

    match top.get("#xml") {
        Some(Value::Object(d)) => {
            let version: String = match string_at(d, "version") {
                Some(v) => v,
                None => "1.0".to_owned(),
            };
            let encoding: Option<String> = string_at(d, "encoding");
            let standalone: Option<String> = string_at(d, "standalone");
            emit_declaration(w, version.as_str(), slice_of(&encoding), slice_of(&standalone));
        },
        _ => {
            assert(w@ + Seq::<u8>::empty() =~= w@);
        },
    }
}

/// Whether a key is one that stands above the root element.
pub fn stands_above(k: &str) -> (r: bool)
    ensures
        r == is_top_key(k@),
{
    same_text(k, "#xml") || same_text(k, "#pi") || same_text(k, "#comments")
}

/// Renders a value tree as an XML document.
pub fn render_xml(top: &Value) -> (r: Result<Vec<u8>, Error>)
    ensures
        match (r, xml_rendered(top@)) {
            (Ok(bytes), Ok(m)) => bytes@ == m,
            (Err(e), Err(f)) => e@ == f,
            _ => false,
        },
{
    broadcast use {lemma_array_view, lemma_object_view};

    let map: &ValueMap = match top {
        Value::Object(map) => map,
        _ => {
            return Err(xml_error("top-level XML value must be a map (object)".to_owned()));
        },
    };
    let mut out: Vec<u8> = Vec::new();
    write_declaration(&mut out, map);
    write_list(&mut out, ListKind::Instructions, map.get("#pi"), "", false);
    write_list(&mut out, ListKind::Comments, map.get("#comments"), "", false);
    let ghost head = out@;
    proof {
        reveal_strlit("");
        assert(""@ =~= Seq::<char>::empty());
        assert(head =~= declaration_bytes(map@) + list_bytes(
            ListKind::Instructions,
            lookup(map@, "#pi"@),
            Seq::empty(),
            false,
        ) + list_bytes(ListKind::Comments, lookup(map@, "#comments"@), Seq::empty(), false));
    }
    let mut at: usize = 0;
    while at < map.entries.len() && is_conventional(map.entries[at].0.as_str())
        invariant
            at <= map.entries@.len(),
            root_index(map@, 0) == root_index(map@, at as int),
        decreases map.entries@.len() - at,
    {
        assert(map@[at as int].0 == map.entries@[at as int].0@);
        at += 1;
    }
    if at >= map.entries.len() {
        return Err(
            xml_error(
                "XML write requires a root element; top-level map has no element-shaped key".to_owned(),
            ),
        );
    }
    assert(map@[at as int].0 == map.entries@[at as int].0@);
    let mut other: usize = 0;
    while other < map.entries.len() && (other == at || stands_above(
        map.entries[other].0.as_str(),
    ))
        invariant
            other <= map.entries@.len(),
            stray_index(map@, at as int, 0) == stray_index(map@, at as int, other as int),
        decreases map.entries@.len() - other,
    {
        assert(map@[other as int].0 == map.entries@[other as int].0@);
        other += 1;
    }
    if other < map.entries.len() {
        assert(map@[other as int].0 == map.entries@[other as int].0@);
        let a: String = joined(
            "XML write requires exactly one root element; top-level map also holds '",
            map.entries[other].0.as_str(),
        );
        return Err(xml_error(joined(a.as_str(), "'")));
    }
    let tag: &str = map.entries[at].0.as_str();
    let roots: &Vec<Value> = match map.get(tag) {
        Some(Value::Array(roots)) => roots,
        _ => {
            let a: String = joined("XML write: root '", tag);
            return Err(
                xml_error(joined(a.as_str(), "' must be a one-element Array (got non-array)")),
            );
        },
    };
    if roots.len() != 1 {
        let a: String = joined("XML write: root element '", tag);
        let b: String = joined(a.as_str(), "' must occur exactly once at the top level (got ");
        let count: String = index_text(roots.len());
        let c: String = joined(b.as_str(), count.as_str());
        return Err(xml_error(joined(c.as_str(), ")")));
    }
    assert(trees(roots@)[0] == roots@[0]@);
    match &roots[0] {
        Value::Object(body) => match write_element(&mut out, tag, body, "") {
            Ok(()) => Ok(out),
            Err(e) => Err(e),
        },
        _ => {
            let a: String = joined("XML write: root element '", tag);
            Err(xml_error(joined(a.as_str(), "' must be a Map")))
        },
    }
}

} // verus!
