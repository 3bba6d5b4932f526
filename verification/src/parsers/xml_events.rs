//! Reading XML into markup events.

use crate::parsers::xml_events::XmlKind::{
    Closing, Declaration, Doctype, Processing, Lone, Opening, Reference, Remark, Verbatim, Words,
};
use crate::parsers::xml_marks::{
    attr_pairs_read, gives_marks, is_some_written_declaration, is_some_written_tag, written_attrs,
    written_declaration,
};
use quick_xml::escape::resolve_predefined_entity;
use quick_xml::events::attributes::Attributes;
use quick_xml::events::Event::{
    CData, Comment, Decl, DocType, Empty, End, Eof, Start, Text, PI,
};
use quick_xml::events::{BytesDecl, BytesRef, BytesStart, BytesText};
use quick_xml::{Reader, XmlVersion};
use vstd::prelude::*;
use vstd::utf8::encode_utf8;

verus! {

/// What kind of markup an event stands for.
#[derive(Debug, Clone, Copy, PartialEq, Eq, Structural)]
pub enum XmlKind {
    /// `<tag ...>`
    Opening,
    /// `<tag .../>`
    Lone,
    /// `</tag>`
    Closing,
    /// Text between markup.
    Words,
    /// `<![CDATA[...]]>`
    Verbatim,
    /// `<!-- ... -->`
    Remark,
    /// `<?xml ...?>`
    Declaration,
    /// Any other `<?...?>`
    Processing,
    /// `<!DOCTYPE ...>`
    Doctype,
    /// `&name;`
    Reference,
}

/// One event: its kind, what stands between its delimiters, and the byte
/// position behind it.
#[derive(Debug)]
pub struct XmlEvent {
    /// The kind of markup.
    pub kind: XmlKind,
    /// What stands between the delimiters.
    pub content: String,
    /// The byte position behind the event.
    pub pos: usize,
}

/// What an [`XmlEvent`] is, mathematically.
pub struct XmlPiece {
    pub kind: XmlKind,
    pub content: Seq<char>,
    pub pos: int,
}

impl View for XmlEvent {
    type V = XmlPiece;

    open spec fn view(&self) -> XmlPiece {
        XmlPiece { kind: self.kind, content: self.content@, pos: self.pos as int }
    }
}

/// What reading a whole text gives: the events, the byte position where the
/// reading ended, and the reader's complaint where it did not reach the end.
pub struct XmlReading {
    pub events: Seq<XmlPiece>,
    pub end: int,
    pub complaint: Option<Seq<char>>,
}

/// The models of a sequence of events.
pub open spec fn pieces(events: Seq<XmlEvent>) -> Seq<XmlPiece> {
    Seq::new(events.len(), |i: int| events[i]@)
}

/// The text of an optional string.
pub open spec fn optional_text(s: Option<String>) -> Option<Seq<char>> {
    match s {
        Some(text) => Some(text@),
        None => None,
    }
}

/// What `quick_xml::Reader::read_event` gives for a text, event by event.
pub uninterp spec fn xml_reading(text: Seq<char>) -> XmlReading;

/// What a reading is, mathematically.
pub open spec fn reading_model(r: (Vec<XmlEvent>, usize, Option<String>)) -> XmlReading {
    XmlReading { events: pieces(r.0@), end: r.1 as int, complaint: optional_text(r.2) }
}

/// `quick_xml::Reader::read_event`, called until it reports the end or an
/// error. A text made of pieces that are told apart, each tag closed, is read as
/// those pieces; of other texts the result, a function of the text alone, is
/// only named here.
///
/// In the crate's `reader` module, text is cut off at `<` and `&`
/// (`slice_reader::read_text`), a tag at the first `>` outside quotes
/// (`parser::ElementParser`), a comment at `-->` and a CDATA block at `]]>`
/// (`BangType::feed`), an instruction at `?>` (`parser::PiParser`), and a
/// reference at `;` (`slice_reader::read_ref`). What stands between is handed on
/// as it is (`state::emit_text`, `emit_start`, `emit_end`, `emit_bang` and
/// `emit_question_mark`); a closing tag has to name the innermost open one.
#[verifier::external_body]
pub(crate) fn read_events(text: &str) -> (r: (Vec<XmlEvent>, usize, Option<String>))
    ensures
        xml_reading(text@) == reading_model(r),
        gives_marks(text@, reading_model(r)),
{
    let mut reader = Reader::from_str(text);
    let mut out = Vec::new();
    loop {
        let read = reader.read_event();
        let pos = reader.buffer_position() as usize;
        let event = match read {
            Err(e) => return (out, pos, Some(e.to_string())),
            Ok(Eof) => return (out, pos, None),
            Ok(event) => event,
        };
        let kind = match &event { Start(_) => Opening, Empty(_) => Lone, End(_) => Closing,
            Text(_) => Words, CData(_) => Verbatim, Comment(_) => Remark, Decl(_) => Declaration,
            PI(_) => Processing, DocType(_) => Doctype, _ => Reference };
        out.push(XmlEvent { kind, content: String::from_utf8_lossy(&event).into_owned(), pos });
    }
}

/// One attribute of a tag.
#[derive(Debug)]
pub enum XmlAttr {
    /// A name with its normalised value.
    Pair(String, String),
    /// An attribute whose value cannot be normalised, with the complaint.
    BadValue(String),
    /// A place where no attribute can be read, with the complaint.
    Malformed(String),
}

/// What an [`XmlAttr`] is, mathematically.
pub enum AttrModel {
    Pair(Seq<char>, Seq<char>),
    BadValue(Seq<char>),
    Malformed(Seq<char>),
}

impl View for XmlAttr {
    type V = AttrModel;

    open spec fn view(&self) -> AttrModel {
        match self {
            XmlAttr::Pair(name, value) => AttrModel::Pair(name@, value@),
            XmlAttr::BadValue(message) => AttrModel::BadValue(message@),
            XmlAttr::Malformed(message) => AttrModel::Malformed(message@),
        }
    }
}

/// The models of a sequence of attributes.
pub open spec fn attr_models(attrs: Seq<XmlAttr>) -> Seq<AttrModel> {
    Seq::new(attrs.len(), |i: int| attrs[i]@)
}

/// What `quick_xml::events::attributes::Attributes` reads out of another tag's
/// content behind the first `name_len` bytes.
pub uninterp spec fn attributes_read(content: Seq<char>, name_len: int) -> Seq<AttrModel>;

/// The attributes in a tag's content behind the first `name_len` bytes.
pub open spec fn xml_attributes(content: Seq<char>, name_len: int) -> Seq<AttrModel> {
    if is_some_written_tag(content, name_len) {
        attr_pairs_read(written_attrs(content, name_len))
    } else {
        attributes_read(content, name_len)
    }
}

/// `quick_xml::events::attributes::Attributes` goes through the attributes of a
/// tag, and `Attribute::normalized_value` resolves the predefined entities and
/// normalises the white space of each value. Attributes with distinct names,
/// written in double quotes with their values escaped, are read as they are; of
/// other content the result, a function of the content and the length of the
/// name, is only named here.
///
/// In the crate's `events::attributes` module, `IterState::next` finds each name
/// up to `=` and the value up to the closing quote, and refuses a name that came
/// before; `Attribute::normalized_value` ends in `escape::normalize_xml10_attribute_value`.
#[verifier::external_body]
pub(crate) fn read_attributes(content: &str, name_len: usize) -> (r: Vec<XmlAttr>)
    requires
        name_len <= encode_utf8(content@).len(),
    ensures
        attr_models(r@) == (if is_some_written_tag(content@, name_len as int) {
            attr_pairs_read(written_attrs(content@, name_len as int))
        } else {
            attributes_read(content@, name_len as int)
        }),
{
    Attributes::new(content, name_len).map(|a| match a {
        Err(e) => XmlAttr::Malformed(e.to_string()),
        Ok(a) => match a.normalized_value(XmlVersion::Implicit1_0) {
            Err(e) => XmlAttr::BadValue(e.to_string()),
            Ok(v) => {
                let name = String::from_utf8_lossy(a.key.as_ref()).into_owned();
                XmlAttr::Pair(name, v.into_owned())
            },
        },
    }).collect()
}

/// A text with each line end, `\r\n` or a lone `\r`, turned into `\n`.
pub open spec fn line_ends_normalised(s: Seq<char>) -> Seq<char>
    decreases s.len(),
{
    if s.len() == 0 {
        s
    } else if s[0] == '\r' && s.len() > 1 && s[1] == '\n' {
        seq!['\n'] + line_ends_normalised(s.subrange(2, s.len() as int))
    } else {
        seq![
            if s[0] == '\r' {
                '\n'
            } else {
                s[0]
            },
        ] + line_ends_normalised(s.subrange(1, s.len() as int))
    }
}

/// `quick_xml::events::BytesText::xml_content` of XML 1.0 text: each line end
/// becomes `\n`, and nothing else changes. Text that is already decoded always
/// succeeds.
#[verifier::external_body]
pub(crate) fn text_content(content: &str) -> (r: Result<String, String>)
    ensures
        match r {
            Ok(text) => text@ == line_ends_normalised(content@),
            Err(_) => false,
        },
{
    let text = BytesText::from_escaped(content);
    text.xml_content(XmlVersion::Implicit1_0).map(|c| c.into_owned()).map_err(|e| e.to_string())
}

/// The version, encoding and standalone parts of an XML declaration.
pub struct DeclModel {
    pub version: Option<Seq<char>>,
    pub encoding: Option<Seq<char>>,
    pub standalone: Option<Seq<char>>,
}

/// What `quick_xml::events::BytesDecl` reads out of another declaration's content.
pub uninterp spec fn declaration_read(content: Seq<char>) -> DeclModel;

/// The parts of a declaration.
pub open spec fn xml_declaration(content: Seq<char>) -> DeclModel {
    if is_some_written_declaration(content) {
        written_declaration(content)
    } else {
        declaration_read(content)
    }
}

/// `quick_xml::events::BytesDecl`'s `version`, `encoding` and `standalone`; a
/// part that cannot be read counts as missing. Parts of name characters, written
/// in double quotes, are read as they are; of other content the result, a
/// function of the content, is only named here. The parts stand behind the
/// declaration's name, `xml`.
///
/// In the crate's `events` module, `version` takes the first attribute of the
/// declaration, which has to be named so; `encoding` and `standalone` take the
/// first of those names (`BytesStart::try_get_attribute`).
#[verifier::external_body]
pub(crate) fn read_declaration(content: &str) -> (r: (
    Option<String>,
    Option<String>,
    Option<String>,
))
    requires
        encode_utf8(content@).len() >= 3,
    ensures
        (DeclModel {
            version: optional_text(r.0),
            encoding: optional_text(r.1),
            standalone: optional_text(r.2),
        }) == (if is_some_written_declaration(content@) {
            written_declaration(content@)
        } else {
            declaration_read(content@)
        }),
{
    let decl = BytesDecl::from_start(BytesStart::from_content(content, "xml".len()));
    let version = decl.version().ok().map(|v| String::from_utf8_lossy(&v).into_owned());
    let encoding = decl.encoding().and_then(|v| v.ok());
    let standalone = decl.standalone().and_then(|v| v.ok());
    (
        version,
        encoding.map(|v| String::from_utf8_lossy(&v).into_owned()),
        standalone.map(|v| String::from_utf8_lossy(&v).into_owned()),
    )
}

/// What `quick_xml::events::BytesRef::resolve_char_ref` makes of the content of
/// a reference: the character that a numeric reference stands for, nothing for
/// a named one, or a complaint.
pub uninterp spec fn xml_char_reference(content: Seq<char>) -> Result<Option<char>, Seq<char>>;

/// `quick_xml::events::BytesRef::resolve_char_ref`. The result is a function of
/// the content; it is only named here.
#[verifier::external_body]
pub(crate) fn char_reference(content: &str) -> (r: Result<Option<char>, String>)
    ensures
        xml_char_reference(content@) == (match r {
            Ok(c) => Ok(c),
            Err(message) => Err(message@),
        }),
{
    BytesRef::new(content).resolve_char_ref().map_err(|e| e.to_string())
}

/// What a predefined entity stands for.
pub open spec fn predefined_entity(name: Seq<char>) -> Option<Seq<char>> {
    if name == "lt"@ {
        Some("<"@)
    } else if name == "gt"@ {
        Some(">"@)
    } else if name == "amp"@ {
        Some("&"@)
    } else if name == "apos"@ {
        Some("'"@)
    } else if name == "quot"@ {
        Some("\""@)
    } else {
        None
    }
}

/// `quick_xml::escape::resolve_predefined_entity` knows the five entities of
/// XML, and no other.
#[verifier::external_body]
pub(crate) fn entity_text(name: &str) -> (r: Option<&'static str>)
    ensures
        predefined_entity(name@) == (match r {
            Some(text) => Some(text@),
            None => None,
        }),
{
    resolve_predefined_entity(name)
}

} // verus!
