//! Documents as they are read and written: streams, layouts, provenance and the
//! faults of other readers.

use crate::decimal_text::{decimal_number, same_number};
use crate::document::DocModel;
use crate::error::Fault;
use crate::ir::Origin;
use crate::json_text_laws::{
    is_all_finite, is_json_gap, is_json_text, law_json_is_written_for_the_value,
    numbers_are_numbers,
};
use crate::parsers::hcl::hcl_fault;
use crate::parsers::hcl_nodes::HclFaultModel;
use crate::parsers::ini::ini_fault;
use crate::parsers::ini_sections::IniFaultModel;
use crate::parsers::json::{
    indent_style_from, json_laid_out, json_written_with, nth_line, reader_fault, spaces_from,
    written_value, IndentStyle,
};
use crate::parsers::json_spelling::lemma_encode_two;
use crate::parsers::json_values::JsonFaultModel;
use crate::parsers::json_write::{json_emitted, line_break, spaces};
use crate::parsers::jsonl::{item_text, items_emission};
use crate::parsers::toml::toml_fault;
use crate::parsers::toml_nodes::TomlFaultModel;
use crate::parsers::yaml::{
    stream_value, yaml_document_of, yaml_fault, yaml_one, yaml_provenance, yaml_stream,
};
use crate::parsers::yaml_literals::{
    covered_text, entries_with_literals, items_with_literals, with_literals,
};
use crate::parsers::yaml_spans::WalkModel;
use crate::parsers::yaml_values::YamlFaultModel;
use crate::pointer::parsed_pointer;
use crate::position::{line_col, newlines};
use crate::spans::ValueSpan;
use crate::value::{
    law_insert_lookup, lemma_key_index, lemma_key_index_is, lookup, unique_keys, Tree,
};
use crate::write_options::{canonical_tree, WriteOptions};
use vstd::prelude::*;
use vstd::utf8::{
    decode_utf8, encode_utf8, encode_utf8_decode_utf8, encode_utf8_valid_utf8, valid_utf8,
};

verus! {

// ---------------------------------------------------------------------------
// YAML
// ---------------------------------------------------------------------------

/// Whether a value is another one with the literals of its numbers, at some place.
pub open spec fn has_literals(after: Tree, t: Tree, bytes: Seq<u8>, walk: WalkModel) -> bool {
    exists|place: Seq<char>| after == #[trigger] with_literals(t, place, bytes, walk)
}

/// Whether a text stands somewhere in the source.
pub open spec fn stands_in_source(text: Seq<char>, bytes: Seq<u8>) -> bool {
    exists|span: ValueSpan| #[trigger] covered_text(bytes, span) == Some(text)
}

proof fn lemma_literal_items(
    items: Seq<Tree>,
    k: nat,
    at: Seq<char>,
    bytes: Seq<u8>,
    walk: WalkModel,
)
    requires
        k <= items.len(),
    ensures
        items_with_literals(items, k, at, bytes, walk).len() == k,
        forall|i: int|
            0 <= i < k ==> has_literals(
                #[trigger] items_with_literals(items, k, at, bytes, walk)[i],
                items[i],
                bytes,
                walk,
            ),
    decreases k,
{
    if k > 0 {
        lemma_literal_items(items, (k - 1) as nat, at, bytes, walk);
        let all = items_with_literals(items, k, at, bytes, walk);
        let before = items_with_literals(items, (k - 1) as nat, at, bytes, walk);
        let below = crate::parsers::yaml_literals::place_below(
            at,
            crate::numbers::decimal((k - 1) as nat),
        );
        assert(all[k - 1] == with_literals(items[k - 1], below, bytes, walk));
        assert forall|i: int| 0 <= i < k implies has_literals(
            #[trigger] all[i],
            items[i],
            bytes,
            walk,
        ) by {
            if i < k - 1 {
                assert(all[i] == before[i]);
            }
        }
    }
}

proof fn lemma_literal_entries(
    entries: Seq<(Seq<char>, Tree)>,
    k: nat,
    at: Seq<char>,
    bytes: Seq<u8>,
    walk: WalkModel,
)
    requires
        k <= entries.len(),
    ensures
        entries_with_literals(entries, k, at, bytes, walk).len() == k,
        forall|i: int|
            0 <= i < k ==> (#[trigger] entries_with_literals(entries, k, at, bytes, walk)[i]).0
                == entries[i].0,
        forall|i: int|
            0 <= i < k ==> has_literals(
                (#[trigger] entries_with_literals(entries, k, at, bytes, walk)[i]).1,
                entries[i].1,
                bytes,
                walk,
            ),
    decreases k,
{
    if k > 0 {
        lemma_literal_entries(entries, (k - 1) as nat, at, bytes, walk);
        let all = entries_with_literals(entries, k, at, bytes, walk);
        let before = entries_with_literals(entries, (k - 1) as nat, at, bytes, walk);
        assert forall|i: int| 0 <= i < k implies (#[trigger] all[i]).0 == entries[i].0 by {
            if i < k - 1 {
                assert(all[i] == before[i]);
            }
        }
        let below = crate::parsers::yaml_literals::place_below(
            at,
            crate::pointer::escaped(entries[k - 1].0),
        );
        assert(all[k - 1].1 == with_literals(entries[k - 1].1, below, bytes, walk));
        assert forall|i: int| 0 <= i < k implies has_literals(
            (#[trigger] all[i]).1,
            entries[i].1,
            bytes,
            walk,
        ) by {
            if i < k - 1 {
                assert(all[i] == before[i]);
            }
        }
    }
}

/// Keeping the literals of numbers changes floats only: one whose literal stands
/// for another number than the float becomes that literal. Everything else stays
/// as it is, at its place and under its key.
pub proof fn law_literals_change_floats_only(
    t: Tree,
    place: Seq<char>,
    bytes: Seq<u8>,
    walk: WalkModel,
)
    ensures
        match t {
            Tree::Float(text) => match with_literals(t, place, bytes, walk) {
                Tree::Float(after) => after == text,
                Tree::BigFloat(literal) | Tree::BigInt(literal) => {
                    &&& decimal_number(literal) is Some && !same_number(literal, text)
                    &&& stands_in_source(literal, bytes)
                },
                _ => false,
            },
            Tree::Array(items) => {
                &&& with_literals(t, place, bytes, walk) matches Tree::Array(after)
                &&& after.len() == items.len()
                &&& forall|i: int|
                    0 <= i < items.len() ==> has_literals(
                        #[trigger] after[i],
                        items[i],
                        bytes,
                        walk,
                    )
            },
            Tree::Object(entries) => {
                &&& with_literals(t, place, bytes, walk) matches Tree::Object(after)
                &&& after.len() == entries.len()
                &&& forall|i: int| 0 <= i < entries.len() ==> (#[trigger] after[i]).0 == entries[i].0
                &&& forall|i: int|
                    0 <= i < entries.len() ==> has_literals(
                        (#[trigger] after[i]).1,
                        entries[i].1,
                        bytes,
                        walk,
                    )
            },
            _ => with_literals(t, place, bytes, walk) == t,
        },
{
    let at = crate::parsers::yaml_literals::written_at(
        walk.aliases,
        place,
        walk.aliases.len() as int,
    );
    match t {
        Tree::Float(text) => {
            assert(with_literals(t, place, bytes, walk)
                == crate::parsers::yaml_literals::float_at(text, bytes, lookup(walk.spans, at)));
            if let Some(span) = lookup(walk.spans, at) {
                if let Some(literal) = covered_text(bytes, span) {
                    assert(stands_in_source(literal, bytes));
                }
            }
        },
        Tree::Array(items) => {
            lemma_literal_items(items, items.len(), at, bytes, walk);
        },
        Tree::Object(entries) => {
            lemma_literal_entries(entries, entries.len(), at, bytes, walk);
        },
        _ => {},
    }
}

/// A YAML text without documents is nothing, one with a single document is that
/// document, and one with more is a stream of them in their order.
pub proof fn law_stream_holds_its_documents(values: Seq<Tree>)
    ensures
        ({
            let doc = yaml_document_of(values);
            &&& doc.value == stream_value(values)
            &&& doc.multi <==> values.len() > 1
            &&& values.len() == 0 ==> doc.value is Null
            &&& values.len() == 1 ==> doc.value == values[0]
            &&& values.len() > 1 ==> doc.values() == Some(values)
        }),
{
}

/// The documents of a stream are written in their order, each behind the first
/// after a line of three dashes.
pub proof fn law_stream_is_written_in_order(items: Seq<Tree>, k: int)
    requires
        0 <= k < items.len(),
        yaml_stream(items, k).1 is Ok,
    ensures
        yaml_stream(items, 0) == (Seq::<u8>::empty(), Ok::<(), Fault>(())),
        yaml_stream(items, k + 1).1 == yaml_one(items[k]).1,
        k == 0 ==> yaml_stream(items, 1).0 == yaml_one(items[0]).0,
        k > 0 ==> yaml_stream(items, k + 1).0 == yaml_stream(items, k).0 + encode_utf8(
            seq!['-', '-', '-', '\n'],
        ) + yaml_one(items[k]).0,
{
    reveal_strlit("---\n");
    assert("---\n"@ =~= seq!['-', '-', '-', '\n']);
    if k == 0 {
        assert(yaml_stream(items, 0).0 =~= Seq::<u8>::empty());
        assert(yaml_stream(items, 1).0 =~= yaml_one(items[0]).0);
    }
}

/// The provenance of a YAML value is its place: its pointer and its span, and for
/// a block scalar that its text starts at the first line and column of its own.
pub proof fn law_yaml_provenance_is_the_place(
    entries: Seq<(Seq<char>, ValueSpan)>,
    blocks: Seq<Seq<char>>,
    k: int,
    key: Seq<char>,
)
    requires
        unique_keys(entries),
        0 <= k <= entries.len(),
    ensures
        match lookup(entries.subrange(0, k), key) {
            Some(span) => {
                &&& lookup(yaml_provenance(entries, blocks, k), key) matches Some(
                    Origin::Original { pointer, span: shown, inline_offset },
                )
                &&& shown == Some(span)
                &&& parsed_pointer(key) matches Ok(p) ==> pointer == p
                &&& inline_offset is Some <==> blocks.contains(key)
                &&& inline_offset matches Some(start) ==> start.byte_start == 0 && start.line == 1
                    && start.col == 1
            },
            None => lookup(yaml_provenance(entries, blocks, k), key) is None,
        },
    decreases k,
{
    let part = entries.subrange(0, k);
    lemma_key_index(part, key);
    if k > 0 {
        law_yaml_provenance_is_the_place(entries, blocks, k - 1, key);
        let less = entries.subrange(0, k - 1);
        let before = yaml_provenance(entries, blocks, k - 1);
        let origin = crate::parsers::yaml::yaml_origin(entries[k - 1], blocks);
        law_insert_lookup(before, entries[k - 1].0, origin, key);
        lemma_key_index(less, key);
        if entries[k - 1].0 == key {
            assert forall|i: int| 0 <= i < k - 1 implies (#[trigger] part[i]).0 != key by {
                assert(entries[i].0 != entries[k - 1].0);
            }
            lemma_key_index_is(part, key, k - 1);
        } else {
            let at = crate::value::key_index(less, key);
            assert forall|i: int| 0 <= i < at implies (#[trigger] part[i]).0 != key by {
                assert(less[i] == part[i]);
            }
            if at < k - 1 {
                assert(part[at] == less[at]);
                lemma_key_index_is(part, key, at);
            } else {
                assert forall|i: int| 0 <= i < k implies (#[trigger] part[i]).0 != key by {
                    if i < k - 1 {
                        assert(less[i] == part[i]);
                    }
                }
                lemma_key_index_is(part, key, k);
            }
        }
    } else {
        lemma_key_index_is(yaml_provenance(entries, blocks, k), key, 0);
    }
}

// ---------------------------------------------------------------------------
// JSON
// ---------------------------------------------------------------------------

/// The value that a JSON document is written for under options.
pub open spec fn shown_value(doc: DocModel, opts: WriteOptions) -> Tree {
    if opts.sort_keys {
        canonical_tree(written_value(doc))
    } else {
        written_value(doc)
    }
}

/// A JSON document without a source, or under options, is written as JSON for its
/// value, with its keys in order where that is asked for. That fails exactly where
/// a float is not finite.
pub proof fn law_json_document_is_written_for_its_value(doc: DocModel, opts: WriteOptions)
    requires
        doc.bytes.len() == 0 || opts.sort_keys || opts.indent is Some,
        numbers_are_numbers(shown_value(doc, opts)),
    ensures
        ({
            let written = json_written_with(doc, opts);
            &&& written.1 is Ok <==> is_all_finite(shown_value(doc, opts))
            &&& written.1 is Ok ==> valid_utf8(written.0) && is_json_text(
                decode_utf8(written.0),
                shown_value(doc, opts),
            )
        }),
{
    let t = shown_value(doc, opts);
    let none = Seq::<char>::empty();
    assert(is_json_gap(none));
    law_json_is_written_for_the_value(t, none, false, 2);
    law_json_is_written_for_the_value(t, none, true, 2);
    if let Some(n) = opts.indent {
        law_json_is_written_for_the_value(t, none, true, n as nat);
    }
    let text = json_laid_out(written_value(doc), opts).0;
    encode_utf8_valid_utf8(text);
    encode_utf8_decode_utf8(text);
}

/// Whether a text starts with a bracket, a line end, so many spaces and a quote,
/// and ends with a line end and a bracket.
pub open spec fn is_indented(w: Seq<char>, n: nat) -> bool {
    &&& w.len() >= n + 4
    &&& w[1] == '\n'
    &&& forall|i: int| 2 <= i < n + 2 ==> #[trigger] w[i] == ' '
    &&& w[n as int + 2] == '"'
    &&& w[w.len() - 2] == '\n'
}

/// Whether a value is a collection, and what it holds first is written in quotes.
pub open spec fn starts_with_quote(t: Tree) -> bool {
    match t {
        Tree::Array(items) => items.len() > 0 && items[0] is String,
        Tree::Object(entries) => entries.len() > 0,
        _ => false,
    }
}

proof fn lemma_items_start(items: Seq<Tree>, k: nat, pad: Seq<char>, pretty: bool, step: nat)
    requires
        0 < k <= items.len(),
        items[0] is String,
    ensures
        ({
            let w = crate::parsers::json_write::json_items(items, k, pad, pretty, step).0;
            let gap = line_break(pad, pretty);
            &&& w.len() > gap.len()
            &&& w.subrange(0, gap.len() as int) == gap
            &&& w[gap.len() as int] == '"'
        }),
    decreases k,
{
    let gap = line_break(pad, pretty);
    let w = crate::parsers::json_write::json_items(items, k, pad, pretty, step).0;
    let before = crate::parsers::json_write::json_items(items, (k - 1) as nat, pad, pretty, step);
    if k > 1 {
        lemma_items_start(items, (k - 1) as nat, pad, pretty, step);
        if before.1 {
            assert(w.subrange(0, gap.len() as int) =~= before.0.subrange(0, gap.len() as int));
            assert(w[gap.len() as int] == before.0[gap.len() as int]);
        }
    } else {
        let item = json_emitted(items[0], pad, pretty, step).0;
        assert(item[0] == '"');
        assert(w =~= gap + item);
        assert(w.subrange(0, gap.len() as int) =~= gap);
    }
}

proof fn lemma_members_start(
    entries: Seq<(Seq<char>, Tree)>,
    k: nat,
    pad: Seq<char>,
    pretty: bool,
    step: nat,
)
    requires
        0 < k <= entries.len(),
    ensures
        ({
            let w = crate::parsers::json_write::json_members(entries, k, pad, pretty, step).0;
            let gap = line_break(pad, pretty);
            &&& w.len() > gap.len()
            &&& w.subrange(0, gap.len() as int) == gap
            &&& w[gap.len() as int] == '"'
        }),
    decreases k,
{
    let gap = line_break(pad, pretty);
    let w = crate::parsers::json_write::json_members(entries, k, pad, pretty, step).0;
    let before = crate::parsers::json_write::json_members(
        entries,
        (k - 1) as nat,
        pad,
        pretty,
        step,
    );
    if k > 1 {
        lemma_members_start(entries, (k - 1) as nat, pad, pretty, step);
        if before.1 {
            assert(w.subrange(0, gap.len() as int) =~= before.0.subrange(0, gap.len() as int));
            assert(w[gap.len() as int] == before.0[gap.len() as int]);
        }
    } else {
        let key = crate::parsers::json_write::json_string(entries[0].0);
        let rest = crate::parsers::json_write::colon(pretty) + json_emitted(
            entries[0].1,
            pad,
            pretty,
            step,
        ).0;
        assert(key[0] == '"');
        assert(w =~= gap + key + rest);
        assert(w.subrange(0, gap.len() as int) =~= gap);
    }
}

proof fn lemma_layout(t: Tree, pretty: bool, step: nat)
    requires
        starts_with_quote(t),
        json_emitted(t, Seq::empty(), pretty, step).1,
    ensures
        pretty ==> is_indented(json_emitted(t, Seq::empty(), pretty, step).0, step),
        !pretty ==> json_emitted(t, Seq::empty(), pretty, step).0[1] == '"',
{
    let none = Seq::<char>::empty();
    let pad = none + spaces(step);
    let w = json_emitted(t, none, pretty, step).0;
    let gap = line_break(pad, pretty);
    match t {
        Tree::Array(items) => {
            lemma_items_start(items, items.len(), pad, pretty, step);
            let body = crate::parsers::json_write::json_items(
                items,
                items.len(),
                pad,
                pretty,
                step,
            ).0;
            assert(w == seq!['['] + body + line_break(none, pretty) + seq![']']);
            lemma_bracketed(w, body, gap, pretty, step, '[', ']');
        },
        Tree::Object(entries) => {
            lemma_members_start(entries, entries.len(), pad, pretty, step);
            let body = crate::parsers::json_write::json_members(
                entries,
                entries.len(),
                pad,
                pretty,
                step,
            ).0;
            assert(w == seq!['{'] + body + line_break(none, pretty) + seq!['}']);
            lemma_bracketed(w, body, gap, pretty, step, '{', '}');
        },
        _ => {},
    }
}

proof fn lemma_bracketed(
    w: Seq<char>,
    body: Seq<char>,
    gap: Seq<char>,
    pretty: bool,
    step: nat,
    open: char,
    close: char,
)
    requires
        gap == line_break(Seq::<char>::empty() + spaces(step), pretty),
        w == seq![open] + body + line_break(Seq::<char>::empty(), pretty) + seq![close],
        body.len() > gap.len(),
        body.subrange(0, gap.len() as int) == gap,
        body[gap.len() as int] == '"',
    ensures
        pretty ==> is_indented(w, step),
        !pretty ==> w[1] == '"',
{
    assert(w[1 + gap.len() as int] == body[gap.len() as int]);
    assert forall|i: int| 0 <= i < gap.len() implies w[i + 1] == #[trigger] gap[i] by {
        assert(w[i + 1] == body[i]);
        assert(body.subrange(0, gap.len() as int)[i] == body[i]);
    }
    if pretty {
        assert(gap[0] == '\n');
        assert(w[1] == gap[0]);
        assert forall|i: int| 2 <= i < step + 2 implies #[trigger] w[i] == ' ' by {
            assert(w[(i - 1) + 1] == gap[i - 1]);
        }
        assert(w[w.len() - 2] == '\n');
    }
}

/// A JSON collection that holds something is laid out line by line, what it holds
/// as many spaces deeper as the options say, or two where they say nothing. With
/// an indentation of none, what it holds follows the bracket.
pub proof fn law_json_layout_follows_the_options(t: Tree, opts: WriteOptions)
    requires
        starts_with_quote(t),
        numbers_are_numbers(t),
        is_all_finite(t),
        !opts.sort_keys,
    ensures
        match opts.indent {
            None => is_indented(json_laid_out(t, opts).0, 2),
            Some(n) => if n > 0 {
                is_indented(json_laid_out(t, opts).0, n as nat)
            } else {
                json_laid_out(t, opts).0[1] == '"'
            },
        },
{
    let none = Seq::<char>::empty();
    assert(is_json_gap(none));
    let step: nat = match opts.indent {
        Some(n) => if n > 0 {
            n as nat
        } else {
            2
        },
        None => 2,
    };
    let pretty = opts.indent != Some(0u8);
    law_json_is_written_for_the_value(t, none, pretty, step);
    lemma_layout(t, pretty, step);
}

/// The items of an array are written as JSON lines one by one: JSON for the item,
/// and the end of the line.
pub proof fn law_every_item_is_a_line(items: Seq<Tree>, opts: WriteOptions, k: int)
    requires
        0 <= k < items.len(),
        items_emission(items, opts, k).1 is Ok,
        !opts.sort_keys,
        numbers_are_numbers(items[k]),
    ensures
        items_emission(items, opts, 0).0.len() == 0,
        items_emission(items, opts, k + 1).1 is Ok <==> is_all_finite(items[k]),
        is_all_finite(items[k]) ==> exists|text: Seq<char>|
            {
                &&& #[trigger] is_json_text(text, items[k])
                &&& items_emission(items, opts, k + 1).0 == items_emission(items, opts, k).0
                    + encode_utf8(text.push('\n'))
            },
{
    let none = Seq::<char>::empty();
    assert(is_json_gap(none));
    law_json_is_written_for_the_value(items[k], none, false, 2);
    if let Some(n) = opts.indent {
        law_json_is_written_for_the_value(items[k], none, true, n as nat);
    }
    let text = item_text(items[k], opts).0;
    if is_all_finite(items[k]) {
        reveal_strlit("\n");
        lemma_encode_two(text, "\n"@);
        assert(text + "\n"@ =~= text.push('\n'));
        let before = items_emission(items, opts, k).0;
        assert(before + (encode_utf8(text) + encode_utf8("\n"@)) =~= before + encode_utf8(text)
            + encode_utf8("\n"@));
        assert(is_json_text(text, items[k]));
    }
}

// ---------------------------------------------------------------------------
// Faults
// ---------------------------------------------------------------------------

proof fn lemma_nth_line(bytes: Seq<u8>, n: nat, k: int)
    requires
        0 <= k <= bytes.len(),
        k == 0 || n > 0 || bytes[k - 1] == 10u8,
    ensures
        ({
            let from = nth_line(bytes, n, k);
            &&& k <= from <= bytes.len() + 1
            &&& from <= bytes.len() ==> {
                &&& newlines(bytes, from) == newlines(bytes, k) + n
                &&& from == 0 || bytes[from - 1] == 10u8
            }
        }),
    decreases bytes.len() - k,
{
    if n > 0 && k < bytes.len() {
        if bytes[k] == 10u8 {
            lemma_nth_line(bytes, (n - 1) as nat, k + 1);
        } else {
            lemma_nth_line(bytes, n, k + 1);
        }
    }
}

/// A fault that a JSON reader places on a line points at the start of that line:
/// so many newlines come before it, and it is the first byte behind the last of
/// them. Its line, its column and its message are those of the reader.
pub proof fn law_json_fault_points_at_its_line(bytes: Seq<u8>, f: JsonFaultModel)
    requires
        0 < f.line < 0x1_0000_0000,
        0 <= f.col < 0x1_0000_0000,
    ensures
        ({
            &&& reader_fault(bytes, f) matches Fault::Parse {
                line,
                col,
                start,
                end,
                message,
                ..
            }
            &&& line == f.line && col == f.col && message == f.message
            &&& end > start ==> {
                &&& 0 <= start < bytes.len() && end == start + 1
                &&& newlines(bytes, start) == f.line - 1
                &&& start == 0 || bytes[start - 1] == 10u8
            }
        }),
{
    lemma_nth_line(bytes, (f.line - 1) as nat, 0);
}

/// Faults of other readers keep their place and their message.
pub proof fn law_faults_keep_their_message(
    bytes: Seq<u8>,
    yaml: YamlFaultModel,
    toml: TomlFaultModel,
    hcl: HclFaultModel,
    ini: IniFaultModel,
)
    ensures
        yaml_fault(yaml) matches Fault::Parse { line, col, message, .. } && line == yaml.line && col
            == yaml.col && message == yaml.message,
        toml_fault(bytes, toml) matches Fault::Parse { line, col, start, end, message, .. }
            && message == toml.message && (line, col) == line_col(bytes, start) && (
        toml.span matches Some((from, to)) ==> start == from && end == to),
        hcl_fault(hcl) matches Fault::Parse { line, col, message, .. } && message == hcl.message && (
        hcl.place matches Some((at, column)) ==> line == at as int % 0x1_0000_0000 && col
            == column as int % 0x1_0000_0000),
        ini_fault(ini) matches Fault::Parse { line, col, message, .. } && message == ini.message
            && line == ini.line % 0x1_0000_0000 && col == ini.col % 0x1_0000_0000,
{
}

// ---------------------------------------------------------------------------
// Indentation
// ---------------------------------------------------------------------------

/// Whether a line starts at a position with a space or a tab.
pub open spec fn indents_at(bytes: Seq<u8>, k: int) -> bool {
    &&& k == 0 || bytes[k - 1] == 10u8
    &&& bytes[k] == 9u8 || bytes[k] == 32u8
}

/// Whether so many spaces, and no more, stand at a position.
pub open spec fn spaces_at(bytes: Seq<u8>, k: int, n: int) -> bool {
    &&& 0 <= n && k + n <= bytes.len()
    &&& forall|i: int| k <= i < k + n ==> #[trigger] bytes[i] == 32u8
    &&& k + n < bytes.len() ==> bytes[k + n] != 32u8
}

proof fn lemma_spaces(bytes: Seq<u8>, k: int)
    requires
        0 <= k <= bytes.len(),
    ensures
        spaces_at(bytes, k, spaces_from(bytes, k) as int),
    decreases bytes.len() - k,
{
    if k < bytes.len() && bytes[k] == 32u8 {
        lemma_spaces(bytes, k + 1);
        let n = spaces_from(bytes, k) as int;
        assert forall|i: int| k <= i < k + n implies #[trigger] bytes[i] == 32u8 by {}
    }
}

proof fn lemma_indent(bytes: Seq<u8>, from: int, k: int)
    requires
        0 <= from <= k <= bytes.len(),
        forall|i: int| from <= i < k ==> !#[trigger] indents_at(bytes, i),
    ensures
        indent_style_from(bytes, from) == indent_style_from(bytes, k),
    decreases k - from,
{
    if from < k {
        assert(!indents_at(bytes, from));
        lemma_indent(bytes, from + 1, k);
    }
}

/// The indentation of a text is that of its first indented line: a tab, four
/// spaces where there is a multiple of four, and two otherwise.
pub proof fn law_indentation_is_that_of_the_first_indented_line(bytes: Seq<u8>, k: int, n: int)
    requires
        0 <= k <= bytes.len(),
        forall|i: int| 0 <= i < k ==> !#[trigger] indents_at(bytes, i),
        k < bytes.len() ==> indents_at(bytes, k),
        k < bytes.len() ==> spaces_at(bytes, k, n),
    ensures
        ({
            let style = indent_style_from(bytes, 0);
            if k < bytes.len() && bytes[k] == 9u8 {
                style == IndentStyle::Tab
            } else if k < bytes.len() && n >= 4 && n % 4 == 0 {
                style == IndentStyle::FourSpace
            } else {
                style == IndentStyle::TwoSpace
            }
        }),
{
    lemma_indent(bytes, 0, k);
    if k < bytes.len() {
        lemma_spaces(bytes, k);
        let m = spaces_from(bytes, k) as int;
        if m < n {
            assert(bytes[k + m] == 32u8);
        } else if n < m {
            assert(bytes[k + n] == 32u8);
        }
    }
}

} // verus!
