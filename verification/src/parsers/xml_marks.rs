//! Markup as it is written, piece by piece.

use crate::parsers::xml_events::{predefined_entity, AttrModel, DeclModel, XmlKind, XmlPiece, XmlReading};
use crate::parsers::xml_write::{
    attrs_text, closing_tag, declaration_text, holds_comment_end, lone_tag, opening_tag,
};
use vstd::prelude::*;
use vstd::utf8::encode_utf8;

verus! {

/// A piece of markup, or of the text between markup.
pub enum Mark {
    /// `<tag ...>`
    Opening(Seq<char>, Seq<(Seq<char>, Seq<char>)>),
    /// `<tag .../>`
    Lone(Seq<char>, Seq<(Seq<char>, Seq<char>)>),
    /// `</tag>`
    Closing(Seq<char>),
    /// Text between markup.
    Words(Seq<char>),
    /// `&name;`
    Reference(Seq<char>),
    /// `<!-- ... -->`
    Remark(Seq<char>),
    /// `<?...?>`
    Processing(Seq<char>),
    /// `<![CDATA[...]]>`
    Verbatim(Seq<char>),
    /// `<?xml ...?>`, with its version, encoding and standalone parts.
    Declaration(Seq<char>, Option<Seq<char>>, Option<Seq<char>>),
}

/// What stands between the delimiters of a declaration.
pub open spec fn declaration_content(
    version: Seq<char>,
    encoding: Option<Seq<char>>,
    standalone: Option<Seq<char>>,
) -> Seq<char> {
    "xml version=\""@ + version + (match encoding {
        Some(e) => "\" encoding=\""@ + e,
        None => Seq::empty(),
    }) + (match standalone {
        Some(s) => "\" standalone=\""@ + s,
        None => Seq::empty(),
    }) + "\""@
}

/// A piece as it is written.
pub open spec fn mark_text(m: Mark) -> Seq<char> {
    match m {
        Mark::Opening(tag, attrs) => opening_tag(tag, attrs),
        Mark::Lone(tag, attrs) => lone_tag(tag, attrs),
        Mark::Closing(tag) => closing_tag(tag),
        Mark::Words(s) => s,
        Mark::Reference(name) => "&"@ + name + ";"@,
        Mark::Remark(s) => "<!--"@ + s + "-->"@,
        Mark::Processing(s) => "<?"@ + s + "?>"@,
        Mark::Verbatim(s) => "<![CDATA["@ + s + "]]>"@,
        Mark::Declaration(v, e, s) => declaration_text(v, e, s),
    }
}

/// The first `k` pieces as they are written.
pub open spec fn marks_text(marks: Seq<Mark>, k: int) -> Seq<char>
    decreases k,
{
    if k <= 0 {
        Seq::empty()
    } else {
        marks_text(marks, k - 1) + mark_text(marks[k - 1])
    }
}

/// The kind of event that a piece is read as.
pub open spec fn mark_kind(m: Mark) -> XmlKind {
    match m {
        Mark::Opening(_, _) => XmlKind::Opening,
        Mark::Lone(_, _) => XmlKind::Lone,
        Mark::Closing(_) => XmlKind::Closing,
        Mark::Words(_) => XmlKind::Words,
        Mark::Reference(_) => XmlKind::Reference,
        Mark::Remark(_) => XmlKind::Remark,
        Mark::Processing(_) => XmlKind::Processing,
        Mark::Verbatim(_) => XmlKind::Verbatim,
        Mark::Declaration(_, _, _) => XmlKind::Declaration,
    }
}

/// What stands between the delimiters of a piece.
pub open spec fn mark_content(m: Mark) -> Seq<char> {
    match m {
        Mark::Opening(tag, attrs) | Mark::Lone(tag, attrs) => tag + attrs_text(
            attrs,
            attrs.len() as int,
        ),
        Mark::Closing(s) | Mark::Words(s) | Mark::Reference(s) | Mark::Remark(s)
        | Mark::Processing(s) | Mark::Verbatim(s) => s,
        Mark::Declaration(v, e, s) => declaration_content(v, e, s),
    }
}

// ---------------------------------------------------------------------------
// Pieces that are told apart
// ---------------------------------------------------------------------------

/// Whether a character may stand in a name: it is no white space, and has no
/// meaning of its own in a tag.
pub open spec fn is_name_char(c: char) -> bool {
    !(c == ' ' || c == '\t' || c == '\r' || c == '\n' || c == '<' || c == '>' || c == '&' || c
        == '\'' || c == '"' || c == '/' || c == '=' || c == '?')
}

/// Whether every character may stand in a name.
pub open spec fn all_name_chars(s: Seq<char>) -> bool {
    forall|i: int| 0 <= i < s.len() ==> is_name_char(#[trigger] s[i])
}

/// Whether a text can be a name.
pub open spec fn is_xml_name(s: Seq<char>) -> bool {
    s.len() > 0 && s[0] != '!' && all_name_chars(s)
}

/// Whether a text holds a character.
pub open spec fn holds_char(s: Seq<char>, c: char) -> bool {
    exists|i: int| 0 <= i < s.len() && #[trigger] s[i] == c
}

/// Whether the value of an attribute stays as it is when white space is made
/// blanks.
pub open spec fn is_attr_value(s: Seq<char>) -> bool {
    !holds_char(s, '\t') && !holds_char(s, '\r') && !holds_char(s, '\n')
}

/// Whether attributes have distinct names, and values that stay as they are.
pub open spec fn attrs_plain(attrs: Seq<(Seq<char>, Seq<char>)>) -> bool {
    &&& forall|i: int|
        0 <= i < attrs.len() ==> is_xml_name((#[trigger] attrs[i]).0) && is_attr_value(attrs[i].1)
    &&& forall|i: int, j: int|
        0 <= i < j < attrs.len() ==> (#[trigger] attrs[i]).0 != (#[trigger] attrs[j]).0
}

/// Whether a text can be an instruction: it starts with a name character, does
/// not hold what ends one, and is no declaration.
pub open spec fn is_instruction(s: Seq<char>) -> bool {
    &&& s.len() > 0 && is_name_char(s[0])
    &&& forall|i: int| 0 <= i < s.len() - 1 ==> !((#[trigger] s[i]) == '?' && s[i + 1] == '>')
    &&& !(s.len() >= 3 && s[0] == 'x' && s[1] == 'm' && s[2] == 'l' && (s.len() == 3 || s[3] == ' '
        || s[3] == '\t' || s[3] == '\r' || s[3] == '\n'))
}

/// Whether a text can be a CDATA block: it does not hold what ends one.
pub open spec fn is_verbatim(s: Seq<char>) -> bool {
    forall|i: int|
        0 <= i < s.len() - 2 ==> !((#[trigger] s[i]) == ']' && s[i + 1] == ']' && s[i + 2] == '>')
}

/// Whether the parts of a declaration are made of name characters.
pub open spec fn is_declaration(
    version: Seq<char>,
    encoding: Option<Seq<char>>,
    standalone: Option<Seq<char>>,
) -> bool {
    &&& all_name_chars(version)
    &&& encoding matches Some(e) ==> all_name_chars(e)
    &&& standalone matches Some(s) ==> all_name_chars(s)
}

/// Whether a piece is told apart from what stands around it.
pub open spec fn is_plain(m: Mark) -> bool {
    match m {
        Mark::Opening(tag, attrs) | Mark::Lone(tag, attrs) => is_xml_name(tag) && attrs_plain(
            attrs,
        ),
        Mark::Closing(tag) => is_xml_name(tag),
        Mark::Words(s) => s.len() > 0 && !holds_char(s, '<') && !holds_char(s, '&'),
        Mark::Reference(name) => predefined_entity(name) is Some,
        Mark::Remark(s) => !holds_comment_end(s),
        Mark::Processing(s) => is_instruction(s),
        Mark::Verbatim(s) => is_verbatim(s),
        Mark::Declaration(v, e, s) => is_declaration(v, e, s),
    }
}

/// The open tags behind one more piece; nothing where a tag closes what is not
/// open.
pub open spec fn tags_behind(open: Seq<Seq<char>>, m: Mark) -> Option<Seq<Seq<char>>> {
    match m {
        Mark::Opening(tag, _) => Some(open.push(tag)),
        Mark::Closing(tag) => if open.len() > 0 && open.last() == tag {
            Some(open.drop_last())
        } else {
            None
        },
        _ => Some(open),
    }
}

/// The open tags behind the first `k` pieces, `open` being open before them.
pub open spec fn open_tags(open: Seq<Seq<char>>, marks: Seq<Mark>, k: int) -> Option<
    Seq<Seq<char>>,
>
    decreases k,
{
    if k <= 0 {
        Some(open)
    } else {
        match open_tags(open, marks, k - 1) {
            Some(tags) => tags_behind(tags, marks[k - 1]),
            None => None,
        }
    }
}

/// Whether no text stands right behind text, nor at the start.
pub open spec fn words_apart(marks: Seq<Mark>) -> bool {
    &&& marks.len() > 0 ==> !(marks[0] is Words)
    &&& forall|i: int|
        0 < i < marks.len() ==> !((#[trigger] marks[i]) is Words && marks[i - 1] is Words)
}

/// Whether a text is made of pieces that are told apart, each tag closed.
pub open spec fn spells_marks(text: Seq<char>, marks: Seq<Mark>) -> bool {
    &&& text == marks_text(marks, marks.len() as int)
    &&& forall|i: int| 0 <= i < marks.len() ==> is_plain(#[trigger] marks[i])
    &&& words_apart(marks)
    &&& open_tags(Seq::empty(), marks, marks.len() as int) == Some(Seq::<Seq<char>>::empty())
}

/// Whether events are those of pieces.
pub open spec fn same_marks(events: Seq<XmlPiece>, marks: Seq<Mark>) -> bool {
    &&& events.len() == marks.len()
    &&& forall|i: int|
        0 <= i < marks.len() ==> (#[trigger] events[i]).kind == mark_kind(marks[i])
            && events[i].content == mark_content(marks[i])
}

/// Whether a reading gives the pieces that the text is made of, if it is made of
/// pieces that are told apart.
pub open spec fn gives_marks(text: Seq<char>, reading: XmlReading) -> bool {
    forall|marks: Seq<Mark>| #[trigger]
        spells_marks(text, marks) ==> reading.complaint is None && same_marks(
            reading.events,
            marks,
        )
}

// ---------------------------------------------------------------------------
// Tags and declarations
// ---------------------------------------------------------------------------

/// Whether the content of a tag is a name, of that many bytes, and attributes as
/// they are written.
pub open spec fn is_written_tag(
    content: Seq<char>,
    name_len: int,
    tag: Seq<char>,
    attrs: Seq<(Seq<char>, Seq<char>)>,
) -> bool {
    &&& is_xml_name(tag)
    &&& attrs_plain(attrs)
    &&& content == tag + attrs_text(attrs, attrs.len() as int)
    &&& name_len == encode_utf8(tag).len()
}

/// Names with their values.
pub open spec fn attr_pairs_read(attrs: Seq<(Seq<char>, Seq<char>)>) -> Seq<AttrModel> {
    Seq::new(attrs.len(), |i: int| AttrModel::Pair(attrs[i].0, attrs[i].1))
}

/// Whether the content of a tag is as it is written.
pub open spec fn is_some_written_tag(content: Seq<char>, name_len: int) -> bool {
    exists|tag: Seq<char>, attrs: Seq<(Seq<char>, Seq<char>)>| #[trigger]
        is_written_tag(content, name_len, tag, attrs)
}

/// The attributes in the content of a tag that is as it is written.
pub open spec fn written_attrs(content: Seq<char>, name_len: int) -> Seq<(Seq<char>, Seq<char>)> {
    (choose|tag: Seq<char>, attrs: Seq<(Seq<char>, Seq<char>)>| #[trigger]
        is_written_tag(content, name_len, tag, attrs)).1
}

/// Whether the content of a declaration is made of these parts as they are
/// written.
pub open spec fn is_written_declaration(content: Seq<char>, parts: DeclModel) -> bool {
    &&& parts.version is Some
    &&& is_declaration(parts.version->Some_0, parts.encoding, parts.standalone)
    &&& content == declaration_content(parts.version->Some_0, parts.encoding, parts.standalone)
}

/// Whether the content of a declaration is as it is written.
pub open spec fn is_some_written_declaration(content: Seq<char>) -> bool {
    exists|parts: DeclModel| #[trigger] is_written_declaration(content, parts)
}

/// The parts of a declaration that is as it is written.
pub open spec fn written_declaration(content: Seq<char>) -> DeclModel {
    choose|parts: DeclModel| #[trigger] is_written_declaration(content, parts)
}

} // verus!
