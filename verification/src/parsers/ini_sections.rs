//! INI sections, read and written by the `rust-ini` crate.

use crate::text::is_white;
use ini::{Ini, LineSeparator, WriteOption};
use vstd::prelude::*;
use vstd::utf8::encode_utf8;

verus! {

/// A section: its name, where it has one, and its properties in order.
#[derive(Debug)]
pub struct IniSection {
    /// The name; none before the first header.
    pub name: Option<String>,
    /// The properties.
    pub entries: Vec<(String, String)>,
}

/// What an [`IniSection`] is, mathematically.
#[verifier::ext_equal]
pub struct SectionModel {
    pub name: Option<Seq<char>>,
    pub entries: Seq<(Seq<char>, Seq<char>)>,
}

/// Pairs of texts, mathematically.
pub open spec fn text_pairs(pairs: Seq<(String, String)>) -> Seq<(Seq<char>, Seq<char>)> {
    Seq::new(pairs.len(), |i: int| (pairs[i].0@, pairs[i].1@))
}

impl View for IniSection {
    type V = SectionModel;

    open spec fn view(&self) -> SectionModel {
        SectionModel {
            name: match self.name {
                Some(s) => Some(s@),
                None => None,
            },
            entries: text_pairs(self.entries@),
        }
    }
}

/// The models of sections.
pub open spec fn section_models(sections: Seq<IniSection>) -> Seq<SectionModel> {
    Seq::new(sections.len(), |i: int| sections[i]@)
}

/// What the reader objects to.
#[derive(Debug)]
pub struct IniFault {
    /// The line.
    pub line: usize,
    /// The column.
    pub col: usize,
    /// What is wrong.
    pub message: String,
}

/// What an [`IniFault`] is, mathematically.
pub struct IniFaultModel {
    pub line: nat,
    pub col: nat,
    pub message: Seq<char>,
}

impl View for IniFault {
    type V = IniFaultModel;

    open spec fn view(&self) -> IniFaultModel {
        IniFaultModel { line: self.line as nat, col: self.col as nat, message: self.message@ }
    }
}

// ---------------------------------------------------------------------------
// Sections that read back
// ---------------------------------------------------------------------------

/// Whether a text is written as it is, and stays as it is when white space
/// around it is dropped.
pub open spec fn is_bare_text(s: Seq<char>) -> bool {
    &&& forall|i: int|
        0 <= i < s.len() ==> (#[trigger] s[i]) != '\\' && s[i] as u32 >= 0x20 && s[i] as u32 != 0x7f
    &&& s.len() > 0 ==> !is_white(s[0]) && !is_white(s.last())
}

/// Whether a text can be the name of a section.
pub open spec fn is_section_name(s: Seq<char>) -> bool {
    is_bare_text(s) && s.len() > 0 && forall|i: int| 0 <= i < s.len() ==> #[trigger] s[i] != ']'
}

/// Whether a text can be a key.
pub open spec fn is_ini_key(s: Seq<char>) -> bool {
    &&& is_bare_text(s)
    &&& s.len() > 0 && s[0] != ';' && s[0] != '#' && s[0] != '['
    &&& forall|i: int| 0 <= i < s.len() ==> (#[trigger] s[i]) != '=' && s[i] != ':'
}

/// Whether a text can be a value: it does not start with a quote.
pub open spec fn is_ini_value(s: Seq<char>) -> bool {
    is_bare_text(s) && (s.len() > 0 ==> s[0] != '"' && s[0] != '\'')
}

/// Whether the properties of a section read back: there is one, the keys are
/// distinct, and nothing is escaped.
pub open spec fn plain_properties(entries: Seq<(Seq<char>, Seq<char>)>) -> bool {
    &&& entries.len() > 0
    &&& forall|i: int|
        0 <= i < entries.len() ==> is_ini_key((#[trigger] entries[i]).0) && is_ini_value(
            entries[i].1,
        )
    &&& forall|i: int, j: int|
        0 <= i < j < entries.len() ==> (#[trigger] entries[i]).0 != (#[trigger] entries[j]).0
}

/// Whether sections read back: their names are distinct, only the first may be
/// without one, and so do their properties.
pub open spec fn plain_sections(sections: Seq<SectionModel>) -> bool {
    &&& forall|i: int|
        0 <= i < sections.len() ==> plain_properties((#[trigger] sections[i]).entries) && (
        match sections[i].name {
            Some(name) => is_section_name(name),
            None => i == 0,
        })
    &&& forall|i: int, j: int|
        0 <= i < j < sections.len() ==> (#[trigger] sections[i]).name != (
        #[trigger] sections[j]).name
}

/// Sections as they are read: the one without a name is always there, and first.
pub open spec fn with_general(sections: Seq<SectionModel>) -> Seq<SectionModel> {
    if sections.len() > 0 && sections[0].name is None {
        sections
    } else {
        seq![SectionModel { name: None, entries: Seq::empty() }] + sections
    }
}

/// Whether what was read are the sections that the text was written of, if it
/// was written of sections that read back.
pub open spec fn gives_sections(
    text: Seq<char>,
    read: Result<Seq<SectionModel>, IniFaultModel>,
) -> bool {
    forall|sections: Seq<SectionModel>|
        plain_sections(sections) && text == #[trigger] ini_text(sections) ==> read == Ok::<
            Seq<SectionModel>,
            IniFaultModel,
        >(with_general(sections))
}

/// The model of a reading.
pub open spec fn sections_model(r: Result<Vec<IniSection>, IniFault>) -> Result<
    Seq<SectionModel>,
    IniFaultModel,
> {
    match r {
        Ok(sections) => Ok(section_models(sections@)),
        Err(fault) => Err(fault@),
    }
}

/// What `ini::Ini::load_from_str` reads out of a text, or its objection.
pub uninterp spec fn ini_sections(text: Seq<char>) -> Result<Seq<SectionModel>, IniFaultModel>;

/// `ini::Ini::load_from_str`, the sections that `iter` gives, each with the
/// properties that its own `iter` gives. Plain sections that were written are
/// read as they are, behind the one without a name, which is always there; of
/// other texts the result, a function of the text, is only named here.
#[verifier::external_body]
pub(crate) fn read_sections(text: &str) -> (r: Result<Vec<IniSection>, IniFault>)
    ensures
        ini_sections(text@) == sections_model(r),
        gives_sections(text@, sections_model(r)),
{
    let plain = |e: ini::ParseError| IniFault { line: e.line, col: e.col, message: e.msg.into_owned() };
    let loaded = Ini::load_from_str(text).map_err(plain)?;
    Ok(loaded.iter().map(|(name, props)| IniSection {
        name: name.map(str::to_owned),
        entries: props.iter().map(|(k, v)| (k.to_owned(), v.to_owned())).collect(),
    }).collect())
}

/// What `ini::Ini::write_to_opt` writes for sections.
pub uninterp spec fn ini_text(sections: Seq<SectionModel>) -> Seq<char>;

/// `ini::Ini::write_to_opt` on a `Vec`, with the default options but for lines
/// that end in a newline on every system, for sections that were put in one
/// after the other with `with_section` and `set`. It writes text; which one is a
/// function of the sections and only named here.
#[verifier::external_body]
pub(crate) fn write_sections(sections: &Vec<IniSection>) -> (r: Vec<u8>)
    ensures
        r@ == encode_utf8(ini_text(section_models(sections@))),
{
    let (mut whole, mut out) = (Ini::new(), Vec::new());
    for section in sections {
        let mut setter = whole.with_section(section.name.clone());
        for (key, value) in &section.entries {
            setter.set(key.clone(), value.clone());
        }
    }
    let opt = WriteOption { line_separator: LineSeparator::CR, ..WriteOption::default() };
    let _ = whole.write_to_opt(&mut out, opt);
    out
}

} // verus!
