//! What is written of a document that has its source, and of numbers.

use crate::document::{can_set, rendered, set_model, spliced, DocModel};
use crate::error::Fault;
use crate::format::{Emission, Format};
use crate::format_tag::FormatTag;
use crate::numbers::{decimal, is_digit, lemma_decimal_value, parsed_int, signed_decimal};
use crate::parsers::json::{json_written, written_value, Json};
use crate::parsers::json_places::{edits_to, lemma_spelled_places};
use crate::parsers::json_scan::json_spans;
use crate::parsers::json_spelling::{
    is_spelled, law_written_bytes_spell_the_value, readable_depth, spelling, spells,
};
use crate::parsers::json_write::json_compact;
use crate::parsers::tokens::{is_float_literal, number_tree, NumberRule};
use crate::parsers::toml::{toml_written, Toml};
use crate::pointer::{canonical, Seg};
use crate::tree_edit::set_in;
use crate::value::{key_index, lemma_key_index, Tree};
use crate::write_options::WriteOptions;
use vstd::prelude::*;
use vstd::utf8::encode_utf8;

verus! {

/// Exactly these bytes are written, without an error.
pub open spec fn whole(bytes: Seq<u8>) -> Emission {
    (bytes, Ok(()))
}

/// An unedited JSON document is written as it was read, byte for byte.
pub proof fn law_json_source_is_written_back(bytes: Seq<u8>)
    requires
        bytes.len() > 0,
    ensures
        Json.parse_model(bytes) matches Ok(doc) ==> Json.write_model(doc) == whole(bytes),
{
}

/// A JSON document without source that holds what JSON text spells is written
/// to the end, as bytes that spell its value. Parsing those gives the value
/// back.
pub proof fn law_json_value_is_spelled(doc: DocModel)
    requires
        doc.bytes.len() == 0,
        is_spelled(written_value(doc), readable_depth()),
    ensures
        Json.write_model(doc).1 is Ok,
        spells(Json.write_model(doc).0, written_value(doc)),
{
    law_written_bytes_spell_the_value(written_value(doc), true, 2);
}

/// The same holds of a JSON document that is written under options, in whatever
/// layout, where its keys are not sorted.
pub proof fn law_json_layout_spells_the_value(doc: DocModel, opts: WriteOptions)
    requires
        opts.indent is Some,
        !opts.sort_keys,
        is_spelled(written_value(doc), readable_depth()),
    ensures
        Json.options_model(doc, opts).1 is Ok,
        spells(Json.options_model(doc, opts).0, written_value(doc)),
{
    let t = written_value(doc);
    law_written_bytes_spell_the_value(t, false, 2);
    law_written_bytes_spell_the_value(t, true, opts.indent->Some_0 as nat);
}

/// A scalar that is set in a JSON document whose source is as the writer has it,
/// in whatever layout, leaves such a source of the value that was edited.
/// Parsing it gives that value.
pub proof fn law_json_edit_spells_the_new_value(m: DocModel, p: Seq<Seg>, v: Tree)
    requires
        m.format == FormatTag::Json,
        m.bytes.len() <= usize::MAX,
        spells(m.bytes, m.value),
        json_spans(m.bytes) == Ok::<_, Fault>(m.spans),
        is_spelled(v, 0),
        set_model(m, p, v).1 is Ok,
    ensures
        spells(set_model(m, p, v).0.bytes, set_model(m, p, v).0.value),
{
    let (pretty, step) = choose|pretty: bool, step: nat|
        m.bytes == encode_utf8(#[trigger] spelling(m.value, pretty, step));
    let none = Seq::<char>::empty();
    let n = m.bytes.len() as int;
    let key = canonical(p);
    lemma_spelled_places(m.value, readable_depth(), pretty, step);
    lemma_key_index(m.spans, key);
    let at = key_index(m.spans, key);
    let place = m.spans[at];
    assert(m.span(p) == Some(place.1));
    assert(edits_to(
        m.bytes,
        0,
        n,
        m.value,
        readable_depth(),
        none,
        pretty,
        step,
        none,
        place,
    ));
    assert(none + key =~= key);
    let after = set_in(m.value, p, v).0;
    assert(m.bytes.subrange(0, 0) + encode_utf8(spelling(after, pretty, step)) + m.bytes.subrange(
        n,
        n,
    ) =~= encode_utf8(spelling(after, pretty, step)));
}

/// An unedited TOML document is written as it was read, byte for byte.
pub proof fn law_toml_source_is_written_back(bytes: Seq<u8>)
    requires
        bytes.len() > 0,
    ensures
        Toml.parse_model(bytes) matches Ok(doc) ==> Toml.write_model(doc) == whole(bytes),
{
}

/// An edited JSON or TOML document is written as its source with the new value
/// in place of the old one, and with nothing else changed.
pub proof fn law_edit_is_written_in_place(m: DocModel, p: Seq<Seg>, v: Tree)
    requires
        m.format == FormatTag::Json || m.format == FormatTag::Toml,
        !m.multi,
        can_set(m, p, v),
        set_model(m, p, v).1 is Ok,
        set_model(m, p, v).0.bytes.len() > 0,
    ensures
        ({
            let span = m.span(p)->Some_0;
            let edited = spliced(
                m.bytes,
                span.value_range.start as int,
                span.value_range.end as int,
                rendered(m, span, v),
            );
            &&& m.format == FormatTag::Json ==> json_written(set_model(m, p, v).0) == whole(edited)
            &&& m.format == FormatTag::Toml ==> toml_written(set_model(m, p, v).0) == whole(edited)
        }),
{
}

/// A JSON integer that no 64-bit integer holds is written as it was read, digit
/// for digit.
pub proof fn law_big_integer_is_written_back(literal: Seq<char>)
    requires
        parsed_int(literal) is None,
        !is_float_literal(literal),
    ensures
        number_tree(NumberRule::Json, literal) == Tree::BigInt(literal),
        json_compact(number_tree(NumberRule::Json, literal)) == (literal, true),
{
}

/// A 64-bit integer that was written to JSON reads back as itself.
pub proof fn law_integer_reads_back(n: i64)
    ensures
        json_compact(Tree::Int(n as int)).1,
        number_tree(NumberRule::Json, json_compact(Tree::Int(n as int)).0) == Tree::Int(n as int),
{
    let s = signed_decimal(n as int);
    if n < 0 {
        let digits = decimal((-n) as nat);
        lemma_decimal_value((-n) as nat);
        assert(s.subrange(1, s.len() as int) =~= digits);
    } else {
        lemma_decimal_value(n as nat);
        assert(is_digit(s[0]));
    }
    assert(parsed_int(s) == Some(n));
}

} // verus!
