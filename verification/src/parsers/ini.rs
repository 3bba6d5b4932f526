//! INI and `.properties` files: texts under keys in sections.
//!
//! A document is an object of sections, each an object of strings. What stands
//! before the first header is in the section with the empty name. Comments and
//! quotes are not kept.

use crate::bytes::append_bytes;
use crate::document::{bare, DocModel, Document};
use crate::error::{
    format_fault, unplaced_parse, unplaced_parse_error, Error, Fault,
};
use crate::format::{emitted, extension_list, Emission, Format};
use crate::format_tag::FormatTag;
use crate::parsers::ini_sections::{
    gives_sections, ini_sections, ini_text, is_ini_key, is_ini_value, is_section_name,
    plain_properties, plain_sections, read_sections, section_models, text_pairs, with_general,
    write_sections, IniFault, IniFaultModel, IniSection, SectionModel,
};
use crate::parsers::merging::{merge_into, merged_into};
use crate::position::wrapped;
use crate::text::joined;
use crate::utf8_text::{checked_text, utf8_fault_text};
use crate::value::{
    inserted, lemma_key_index_is, lemma_object_view, lookup, scalar_text_of, type_label_of,
    unique_keys, Tree, Value, ValueMap,
};
use crate::write_options::{canonical_tree, canonicalize_keys, WriteOptions};
use vstd::prelude::*;
use vstd::utf8::{
    decode_utf8, encode_utf8, encode_utf8_decode_utf8, encode_utf8_valid_utf8, valid_utf8,
};

verus! {

/// INI / `.properties` format implementation.
#[derive(Debug, Clone, Copy)]
pub struct Ini;

// ---------------------------------------------------------------------------
// Reading
// ---------------------------------------------------------------------------

/// The first `k` properties of a section; of equal keys the last one counts.
pub open spec fn properties(pairs: Seq<(Seq<char>, Seq<char>)>, k: int) -> Seq<(Seq<char>, Tree)>
    decreases k,
{
    if k <= 0 {
        Seq::empty()
    } else {
        inserted(properties(pairs, k - 1), pairs[k - 1].0, Tree::String(pairs[k - 1].1))
    }
}

/// The object with one more section. Sections of one name are one object; one
/// without a name or properties is not shown.
pub open spec fn section_added(top: Seq<(Seq<char>, Tree)>, section: SectionModel) -> Seq<
    (Seq<char>, Tree),
> {
    if section.name is None && section.entries.len() == 0 {
        top
    } else {
        merged_into(
            top,
            match section.name {
                Some(name) => name,
                None => Seq::empty(),
            },
            Tree::Object(properties(section.entries, section.entries.len() as int)),
        )
    }
}

/// The object of the first `k` sections.
pub open spec fn sections_read(sections: Seq<SectionModel>, k: int) -> Seq<(Seq<char>, Tree)>
    decreases k,
{
    if k <= 0 {
        Seq::empty()
    } else {
        section_added(sections_read(sections, k - 1), sections[k - 1])
    }
}

/// The fault that an objection stands for.
pub open spec fn ini_fault(f: IniFaultModel) -> Fault {
    Fault::Parse {
        file: None,
        line: wrapped(f.line),
        col: wrapped(f.col),
        start: 0,
        end: 0,
        snippet: Seq::empty(),
        message: f.message,
    }
}

/// The object of INI bytes.
pub open spec fn ini_parsed(bytes: Seq<u8>) -> Result<Tree, Fault> {
    if !valid_utf8(bytes) {
        Err(unplaced_parse("invalid UTF-8 in INI input: "@ + utf8_fault_text(bytes)))
    } else {
        match ini_sections(decode_utf8(bytes)) {
            Err(f) => Err(ini_fault(f)),
            Ok(sections) => Ok(Tree::Object(sections_read(sections, sections.len() as int))),
        }
    }
}

fn reader_error(fault: IniFault) -> (r: Error)
    ensures
        r@ == ini_fault(fault@),
{
    let line: u32 = (fault.line as u64 % 0x1_0000_0000) as u32;
    let col: u32 = (fault.col as u64 % 0x1_0000_0000) as u32;
    let empty: String = String::new();
    assert(empty@ =~= Seq::<char>::empty());
    Error::Parse { file: None, line, col, span: 0..0, snippet: empty, message: fault.message }
}

fn properties_of(pairs: &Vec<(String, String)>) -> (r: ValueMap)
    ensures
        r@ == properties(text_pairs(pairs@), pairs@.len() as int),
{
    let ghost all = text_pairs(pairs@);
    let mut map: ValueMap = ValueMap::new();
    let mut i: usize = 0;
    while i < pairs.len()
        invariant
            i <= pairs@.len(),
            all == text_pairs(pairs@),
            map@ == properties(all, i as int),
        decreases pairs@.len() - i,
    {
        assert(all[i as int] == (pairs@[i as int].0@, pairs@[i as int].1@));
        map.insert(pairs[i].0.clone(), Value::String(pairs[i].1.clone()));
        i += 1;
    }
    map
}

fn add_section(top: &mut ValueMap, section: &IniSection)
    ensures
        final(top)@ == section_added(old(top)@, section@),
{
    if section.name.is_none() && section.entries.len() == 0 {
        return ;
    }
    let key: String = match &section.name {
        Some(name) => name.clone(),
        None => {
            let empty: String = String::new();
            assert(empty@ =~= Seq::<char>::empty());
            empty
        },
    };
    let map: ValueMap = properties_of(&section.entries);
    proof {
        lemma_object_view(map);
    }
    merge_into(top, key, Value::Object(map));
}

/// The object of sections.
pub fn sections_value(sections: &Vec<IniSection>) -> (r: ValueMap)
    ensures
        r@ == sections_read(section_models(sections@), sections@.len() as int),
{
    let ghost all = section_models(sections@);
    let mut top: ValueMap = ValueMap::new();
    let mut i: usize = 0;
    while i < sections.len()
        invariant
            i <= sections@.len(),
            all == section_models(sections@),
            top@ == sections_read(all, i as int),
        decreases sections@.len() - i,
    {
        assert(all[i as int] == sections@[i as int]@);
        add_section(&mut top, &sections[i]);
        i += 1;
    }
    top
}

// ---------------------------------------------------------------------------
// Writing
// ---------------------------------------------------------------------------

/// The first `k` properties of a section as texts.
pub open spec fn property_texts(
    section: Seq<char>,
    entries: Seq<(Seq<char>, Tree)>,
    k: int,
) -> Result<Seq<(Seq<char>, Seq<char>)>, Fault>
    decreases k,
{
    if k <= 0 {
        Ok(Seq::empty())
    } else {
        match property_texts(section, entries, k - 1) {
            Err(f) => Err(f),
            Ok(before) => match scalar_text_of(entries[k - 1].1) {
                Some(text) => Ok(before.push((entries[k - 1].0, text))),
                None => Err(
                    format_fault(
                        "ini"@,
                        "section '"@ + section + "' key '"@ + entries[k - 1].0 + "': nested "@
                            + type_label_of(entries[k - 1].1) + " cannot be serialized to INI"@,
                    ),
                ),
            },
        }
    }
}

/// The name of a section as it is written: an empty one is none.
pub open spec fn section_name(key: Seq<char>) -> Option<Seq<char>> {
    if key.len() == 0 {
        None
    } else {
        Some(key)
    }
}

/// One entry of the top object as a section.
pub open spec fn section_to_write(key: Seq<char>, value: Tree) -> Result<SectionModel, Fault> {
    match value {
        Tree::Object(entries) => match property_texts(key, entries, entries.len() as int) {
            Ok(pairs) => Ok(SectionModel { name: section_name(key), entries: pairs }),
            Err(f) => Err(f),
        },
        _ => Err(
            format_fault(
                "ini"@,
                "section '"@ + key + "' must be a map of string values, got "@ + type_label_of(
                    value,
                ),
            ),
        ),
    }
}

/// The first `k` entries of the top object as sections.
pub open spec fn sections_to_write(top: Seq<(Seq<char>, Tree)>, k: int) -> Result<
    Seq<SectionModel>,
    Fault,
>
    decreases k,
{
    if k <= 0 {
        Ok(Seq::empty())
    } else {
        match sections_to_write(top, k - 1) {
            Err(f) => Err(f),
            Ok(before) => match section_to_write(top[k - 1].0, top[k - 1].1) {
                Ok(section) => Ok(before.push(section)),
                Err(f) => Err(f),
            },
        }
    }
}

/// What the writer makes of a value.
pub open spec fn ini_written(t: Tree) -> Emission {
    match t {
        Tree::Object(top) => match sections_to_write(top, top.len() as int) {
            Ok(sections) => (encode_utf8(ini_text(sections)), Ok(())),
            Err(f) => (Seq::empty(), Err(f)),
        },
        _ => (
            Seq::empty(),
            Err(
                format_fault(
                    "ini"@,
                    "expected top-level map<section, map<key, string>>, got "@ + type_label_of(t),
                ),
            ),
        ),
    }
}

fn ini_error(message: String) -> (r: Error)
    ensures
        r@ == format_fault("ini"@, message@),
{
    Error::Format { format: "ini", message }
}

/// The text that is written for a property.
pub fn scalar_to_ini_string(section: &str, key: &str, val: &Value) -> (r: Result<String, Error>)
    ensures
        match (r, scalar_text_of(val@)) {
            (Ok(text), Some(m)) => text@ == m,
            (Err(e), None) => e@ == format_fault(
                "ini"@,
                "section '"@ + section@ + "' key '"@ + key@ + "': nested "@ + type_label_of(val@)
                    + " cannot be serialized to INI"@,
            ),
            _ => false,
        },
{
    match val.scalar_text() {
        Some(text) => Ok(text),
        None => {
            let mut message: String = joined("section '", section);
            message.push_str("' key '");
            message.push_str(key);
            message.push_str("': nested ");
            message.push_str(val.type_label());
            message.push_str(" cannot be serialized to INI");
            Err(ini_error(message))
        },
    }
}

proof fn lemma_properties_fail(
    section: Seq<char>,
    entries: Seq<(Seq<char>, Tree)>,
    k: int,
    n: int,
)
    requires
        0 <= k <= n,
        property_texts(section, entries, k) is Err,
    ensures
        property_texts(section, entries, n) == property_texts(section, entries, k),
    decreases n - k,
{
    if k < n {
        lemma_properties_fail(section, entries, k, n - 1);
    }
}

fn texts_of(section: &str, map: &ValueMap) -> (r: Result<Vec<(String, String)>, Error>)
    ensures
        match (r, property_texts(section@, map@, map@.len() as int)) {
            (Ok(pairs), Ok(m)) => text_pairs(pairs@) == m,
            (Err(e), Err(f)) => e@ == f,
            _ => false,
        },
{
    let mut pairs: Vec<(String, String)> = Vec::new();
    assert(text_pairs(pairs@) =~= Seq::<(Seq<char>, Seq<char>)>::empty());
    let mut i: usize = 0;
    while i < map.entries.len()
        invariant
            i <= map.entries@.len(),
            property_texts(section@, map@, i as int) == Ok::<_, Fault>(text_pairs(pairs@)),
        decreases map.entries@.len() - i,
    {
        assert(map@[i as int] == (map.entries@[i as int].0@, map.entries@[i as int].1@));
        let ghost before = text_pairs(pairs@);
        let ghost next = property_texts(section@, map@, i + 1);
        match scalar_to_ini_string(section, map.entries[i].0.as_str(), &map.entries[i].1) {
            Ok(text) => {
                let ghost shown = text@;
                pairs.push((map.entries[i].0.clone(), text));
                assert(text_pairs(pairs@) =~= before.push((map@[i as int].0, shown)));
            },
            Err(e) => {
                proof {
                    lemma_properties_fail(section@, map@, i + 1, map@.len() as int);
                }
                return Err(e);
            },
        }
        i += 1;
    }
    Ok(pairs)
}

fn section_of(key: &str, value: &Value) -> (r: Result<IniSection, Error>)
    ensures
        match (r, section_to_write(key@, value@)) {
            (Ok(section), Ok(m)) => section@ == m,
            (Err(e), Err(f)) => e@ == f,
            _ => false,
        },
{
    match value {
        Value::Object(map) => {
            proof {
                lemma_object_view(*map);
            }
            match texts_of(key, map) {
                Ok(entries) => {
                    let name: Option<String> = if key.is_empty() {
                        None
                    } else {
                        Some(key.to_owned())
                    };
                    Ok(IniSection { name, entries })
                },
                Err(e) => Err(e),
            }
        },
        _ => {
            let mut message: String = joined("section '", key);
            message.push_str("' must be a map of string values, got ");
            message.push_str(value.type_label());
            Err(ini_error(message))
        },
    }
}

proof fn lemma_sections_fail(top: Seq<(Seq<char>, Tree)>, k: int, n: int)
    requires
        0 <= k <= n,
        sections_to_write(top, k) is Err,
    ensures
        sections_to_write(top, n) == sections_to_write(top, k),
    decreases n - k,
{
    if k < n {
        lemma_sections_fail(top, k, n - 1);
    }
}

/// The sections that are written for the top object.
pub fn sections_of(map: &ValueMap) -> (r: Result<Vec<IniSection>, Error>)
    ensures
        match (r, sections_to_write(map@, map@.len() as int)) {
            (Ok(sections), Ok(m)) => section_models(sections@) == m,
            (Err(e), Err(f)) => e@ == f,
            _ => false,
        },
{
    let mut sections: Vec<IniSection> = Vec::new();
    assert(section_models(sections@) =~= Seq::<SectionModel>::empty());
    let mut i: usize = 0;
    while i < map.entries.len()
        invariant
            i <= map.entries@.len(),
            sections_to_write(map@, i as int) == Ok::<_, Fault>(section_models(sections@)),
        decreases map.entries@.len() - i,
    {
        assert(map@[i as int] == (map.entries@[i as int].0@, map.entries@[i as int].1@));
        let ghost before = section_models(sections@);
        let ghost next = sections_to_write(map@, i + 1);
        match section_of(map.entries[i].0.as_str(), &map.entries[i].1) {
            Ok(section) => {
                let ghost shown = section@;
                sections.push(section);
                assert(section_models(sections@) =~= before.push(shown));
            },
            Err(e) => {
                proof {
                    lemma_sections_fail(map@, i + 1, map@.len() as int);
                }
                return Err(e);
            },
        }
        i += 1;
    }
    Ok(sections)
}

/// Appends a value as INI.
pub fn write_ini(v: &Value, w: &mut Vec<u8>) -> (r: Result<(), Error>)
    ensures
        emitted(r, ini_written(v@), old(w)@, final(w)@),
{
    assert(w@ + Seq::<u8>::empty() =~= w@);
    match v {
        Value::Object(map) => {
            proof {
                lemma_object_view(*map);
            }
            match sections_of(map) {
                Ok(sections) => {
                    append_bytes(w, write_sections(&sections).as_slice());
                    Ok(())
                },
                Err(e) => Err(e),
            }
        },
        _ => Err(
            ini_error(
                joined(
                    "expected top-level map<section, map<key, string>>, got ",
                    v.type_label(),
                ),
            ),
        ),
    }
}

// ---------------------------------------------------------------------------
// Reading what was written
// ---------------------------------------------------------------------------

/// The properties of a section as texts.
spec fn section_texts(entries: Seq<(Seq<char>, Tree)>) -> Seq<(Seq<char>, Seq<char>)> {
    Seq::new(entries.len(), |i: int| (entries[i].0, entries[i].1->String_0))
}

/// Whether an entry of the top object is a section that reads back: it has at
/// least one property, all of them strings, with distinct keys, and nothing is
/// escaped.
pub open spec fn is_plain_section(entry: (Seq<char>, Tree)) -> bool {
    &&& entry.0.len() > 0 ==> is_section_name(entry.0)
    &&& entry.1 matches Tree::Object(entries) && entries.len() > 0 && unique_keys(entries)
        && forall|i: int|
        0 <= i < entries.len() ==> is_ini_key((#[trigger] entries[i]).0)
            && entries[i].1 is String && is_ini_value(entries[i].1->String_0)
}

/// Whether a value reads back: its sections do, and only the first may have an
/// empty name.
pub open spec fn is_plain_ini(t: Tree) -> bool {
    match t {
        Tree::Object(top) => unique_keys(top) && forall|i: int|
            0 <= i < top.len() ==> is_plain_section(#[trigger] top[i]) && (i > 0 ==> top[i].0.len()
                > 0),
        _ => false,
    }
}

/// Whether bytes are those of a value that reads back.
pub open spec fn spells_ini(bytes: Seq<u8>, t: Tree) -> bool {
    is_plain_ini(t) && bytes == ini_written(t).0
}

/// The sections of a value.
spec fn all_sections(top: Seq<(Seq<char>, Tree)>) -> Seq<SectionModel> {
    Seq::new(
        top.len(),
        |i: int|
            SectionModel {
                name: section_name(top[i].0),
                entries: section_texts(top[i].1->Object_0),
            },
    )
}

proof fn lemma_property_texts(section: Seq<char>, entries: Seq<(Seq<char>, Tree)>, k: int)
    requires
        forall|i: int| 0 <= i < entries.len() ==> (#[trigger] entries[i]).1 is String,
        0 <= k <= entries.len(),
    ensures
        property_texts(section, entries, k) == Ok::<_, Fault>(
            section_texts(entries).subrange(0, k),
        ),
    decreases k,
{
    let all = section_texts(entries);
    if k == 0 {
        assert(all.subrange(0, 0) =~= Seq::<(Seq<char>, Seq<char>)>::empty());
    } else {
        lemma_property_texts(section, entries, k - 1);
        assert(entries[k - 1].1 is String);
        assert(all.subrange(0, k) =~= all.subrange(0, k - 1).push(all[k - 1]));
    }
}

proof fn lemma_sections_to_write(top: Seq<(Seq<char>, Tree)>, k: int)
    requires
        is_plain_ini(Tree::Object(top)),
        0 <= k <= top.len(),
    ensures
        sections_to_write(top, k) == Ok::<_, Fault>(all_sections(top).subrange(0, k)),
    decreases k,
{
    let all = all_sections(top);
    if k == 0 {
        assert(all.subrange(0, 0) =~= Seq::<SectionModel>::empty());
    } else {
        lemma_sections_to_write(top, k - 1);
        assert(is_plain_section(top[k - 1]));
        let entries = top[k - 1].1->Object_0;
        lemma_property_texts(top[k - 1].0, entries, entries.len() as int);
        assert(section_texts(entries).subrange(0, entries.len() as int) =~= section_texts(entries));
        assert(all.subrange(0, k) =~= all.subrange(0, k - 1).push(all[k - 1]));
    }
}

proof fn lemma_sections_plain(top: Seq<(Seq<char>, Tree)>)
    requires
        is_plain_ini(Tree::Object(top)),
    ensures
        plain_sections(all_sections(top)),
{
    let all = all_sections(top);
    assert forall|i: int| 0 <= i < all.len() implies plain_properties((#[trigger] all[i]).entries)
        && (match all[i].name {
        Some(name) => is_section_name(name),
        None => i == 0,
    }) by {
        assert(is_plain_section(top[i]));
        let entries = top[i].1->Object_0;
        let texts = section_texts(entries);
        assert(all[i].entries == texts);
        assert forall|k: int| 0 <= k < texts.len() implies is_ini_key((#[trigger] texts[k]).0)
            && is_ini_value(texts[k].1) by {
            assert(is_ini_key(entries[k].0));
        }
        assert forall|k: int, l: int| 0 <= k < l < texts.len() implies (#[trigger] texts[k]).0 != (
        #[trigger] texts[l]).0 by {
            assert(entries[k].0 != entries[l].0);
        }
    }
    assert forall|i: int, j: int| 0 <= i < j < all.len() implies (#[trigger] all[i]).name != (
    #[trigger] all[j]).name by {
        assert(top[i].0 != top[j].0);
        assert(is_plain_section(top[j]));
    }
}

proof fn lemma_properties_read(entries: Seq<(Seq<char>, Tree)>, k: int)
    requires
        forall|i: int| 0 <= i < entries.len() ==> (#[trigger] entries[i]).1 is String,
        unique_keys(entries),
        0 <= k <= entries.len(),
    ensures
        properties(section_texts(entries), k) == entries.subrange(0, k),
    decreases k,
{
    if k == 0 {
        assert(entries.subrange(0, 0) =~= Seq::<(Seq<char>, Tree)>::empty());
    } else {
        lemma_properties_read(entries, k - 1);
        let before = entries.subrange(0, k - 1);
        let key = entries[k - 1].0;
        assert(entries[k - 1].1 is String);
        assert forall|i: int| 0 <= i < before.len() implies (#[trigger] before[i]).0 != key by {
            assert(entries[i].0 != entries[k - 1].0);
        }
        lemma_key_index_is(before, key, k - 1);
        assert(entries.subrange(0, k) =~= before.push(entries[k - 1]));
    }
}

proof fn lemma_sections_read(top: Seq<(Seq<char>, Tree)>, sections: Seq<SectionModel>, from: int, k: int)
    requires
        is_plain_ini(Tree::Object(top)),
        sections.len() == from + top.len(),
        0 <= from,
        forall|i: int| 0 <= i < top.len() ==> #[trigger] sections[from + i] == all_sections(top)[i],
        sections_read(sections, from) == Seq::<(Seq<char>, Tree)>::empty(),
        0 <= k <= top.len(),
    ensures
        sections_read(sections, from + k) == top.subrange(0, k),
    decreases k,
{
    if k == 0 {
        assert(top.subrange(0, 0) =~= Seq::<(Seq<char>, Tree)>::empty());
    } else {
        lemma_sections_read(top, sections, from, k - 1);
        assert(is_plain_section(top[k - 1]));
        let entries = top[k - 1].1->Object_0;
        let section = sections[from + (k - 1)];
        assert(section == all_sections(top)[k - 1]);
        lemma_properties_read(entries, entries.len() as int);
        assert(entries.subrange(0, entries.len() as int) =~= entries);
        let before = top.subrange(0, k - 1);
        let key = top[k - 1].0;
        assert(key =~= match section.name {
            Some(name) => name,
            None => Seq::empty(),
        });
        assert forall|i: int| 0 <= i < before.len() implies (#[trigger] before[i]).0 != key by {
            assert(top[i].0 != top[k - 1].0);
        }
        lemma_key_index_is(before, key, k - 1);
        assert(lookup(before, key) is None);
        assert(top.subrange(0, k) =~= before.push(top[k - 1]));
    }
}

proof fn lemma_value_read(top: Seq<(Seq<char>, Tree)>)
    requires
        is_plain_ini(Tree::Object(top)),
    ensures
        ({
            let sections = with_general(all_sections(top));
            sections_read(sections, sections.len() as int) == top
        }),
{
    let all = all_sections(top);
    let sections = with_general(all);
    let from: int = sections.len() - top.len();
    if from == 1 {
        assert(sections_read(sections, 0) == Seq::<(Seq<char>, Tree)>::empty());
        assert(sections[0].name is None && sections[0].entries.len() == 0);
    }
    assert forall|i: int| 0 <= i < top.len() implies #[trigger] sections[from + i] == all[i] by {}
    lemma_sections_read(top, sections, from, top.len() as int);
    assert(top.subrange(0, top.len() as int) =~= top);
}

proof fn lemma_spelled_reads(bytes: Seq<u8>)
    ensures
        forall|t: Tree| #[trigger]
            spells_ini(bytes, t) ==> valid_utf8(bytes) && forall|read: Result<
                Seq<SectionModel>,
                IniFaultModel,
            >| #[trigger]
                gives_sections(decode_utf8(bytes), read) ==> (read matches Ok(sections)
                    && Tree::Object(sections_read(sections, sections.len() as int)) == t),
{
    assert forall|t: Tree| #[trigger] spells_ini(bytes, t) implies valid_utf8(bytes)
        && forall|read: Result<Seq<SectionModel>, IniFaultModel>| #[trigger]
        gives_sections(decode_utf8(bytes), read) ==> (read matches Ok(sections) && Tree::Object(
            sections_read(sections, sections.len() as int),
        ) == t) by {
        let top = t->Object_0;
        assert(t == Tree::Object(top));
        let all = all_sections(top);
        lemma_sections_to_write(top, top.len() as int);
        assert(all.subrange(0, top.len() as int) =~= all);
        lemma_sections_plain(top);
        lemma_value_read(top);
        encode_utf8_valid_utf8(ini_text(all));
        encode_utf8_decode_utf8(ini_text(all));
    }
}

/// A value whose sections are plain is written to the end. Parsing what is
/// written gives it back.
pub proof fn law_plain_sections_are_written(t: Tree)
    requires
        is_plain_ini(t),
    ensures
        ini_written(t).1 is Ok,
        spells_ini(ini_written(t).0, t),
{
    let top = t->Object_0;
    assert(t == Tree::Object(top));
    lemma_sections_to_write(top, top.len() as int);
}

/// Parses INI bytes. Those that were written of plain sections give them back.
pub fn parse_ini(bytes: &[u8]) -> (r: Result<Value, Error>)
    ensures
        match (r, ini_parsed(bytes@)) {
            (Ok(v), Ok(m)) => v@ == m,
            (Err(e), Err(f)) => e@ == f,
            _ => false,
        },
        forall|t: Tree| #[trigger] spells_ini(bytes@, t) ==> (r matches Ok(v) && v@ == t),
{
    proof {
        lemma_spelled_reads(bytes@);
    }
    match checked_text(bytes) {
        Ok(text) => match read_sections(text.as_str()) {
            Ok(sections) => {
                let top: ValueMap = sections_value(&sections);
                proof {
                    lemma_object_view(top);
                }
                Ok(Value::Object(top))
            },
            Err(fault) => Err(reader_error(fault)),
        },
        Err(message) => Err(
            unplaced_parse_error(joined("invalid UTF-8 in INI input: ", message.as_str())),
        ),
    }
}

impl Format for Ini {
    open spec fn tag(&self) -> FormatTag {
        FormatTag::Ini
    }

    open spec fn parses(&self, bytes: Seq<u8>) -> bool {
        true
    }

    open spec fn parse_model(&self, bytes: Seq<u8>) -> Result<DocModel, Fault> {
        match ini_parsed(bytes) {
            Ok(value) => Ok(bare(value, FormatTag::Ini, false)),
            Err(f) => Err(f),
        }
    }

    open spec fn write_model(&self, doc: DocModel) -> Emission {
        ini_written(doc.value)
    }

    open spec fn options_model(&self, doc: DocModel, opts: WriteOptions) -> Emission {
        if opts.sort_keys {
            ini_written(canonical_tree(doc.value))
        } else {
            self.write_model(doc)
        }
    }

    fn name(&self) -> (r: &'static str) {
        FormatTag::Ini.name()
    }

    fn extensions(&self) -> (r: Vec<&'static str>) {
        extension_list(FormatTag::Ini)
    }

    /// Bytes that were written of plain sections give them back.
    fn parse(&self, bytes: &[u8]) -> (r: Result<Document, Error>)
        ensures
            forall|t: Tree| #[trigger] spells_ini(bytes@, t) ==> (r matches Ok(doc) && doc@.value
                == t),
    {
        match parse_ini(bytes) {
            Ok(value) => Ok(Document::value_only(value, FormatTag::Ini)),
            Err(e) => Err(e),
        }
    }

    fn parse_checked(&self, bytes: &[u8]) -> (r: Option<Result<Document, Error>>) {
        Some(self.parse(bytes))
    }

    fn write(&self, doc: &Document, w: &mut Vec<u8>) -> (r: Result<(), Error>) {
        write_ini(doc.value(), w)
    }

    fn write_with_options(&self, doc: &Document, w: &mut Vec<u8>, opts: &WriteOptions) -> (r: Result<
        (),
        Error,
    >) {
        if opts.sort_keys {
            write_ini(&canonicalize_keys(doc.value()), w)
        } else {
            self.write(doc, w)
        }
    }
}

} // verus!
