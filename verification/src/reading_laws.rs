//! What a document is read as: what the bytes of each format say.

use crate::dispatch::parsed_as;
use crate::docker_laws::{
    instructions_before, is_last_of_each, is_row_of, law_every_instruction_has_its_row,
};
use crate::document::provenance_of;
use crate::env_line_laws::{last_assigned, law_last_assignment_counts};
use crate::error::Fault;
use crate::format_tag::FormatTag;
use crate::merge_laws::{
    behind_body, found_at, is_named_from, law_attribute_is_found, law_block_is_found,
    law_body_ends_at_its_close,
};
use crate::numbers::decimal;
use crate::parsers::csv::Dialect;
use crate::parsers::csv_records::{csv_header, csv_records};
use crate::parsers::dockerfile_lines::docker_lines;
use crate::parsers::frontmatter::{header_value, split_header};
use crate::parsers::hcl::body_entries;
use crate::parsers::hcl_nodes::{hcl_fault_of, hcl_nodes, HclModel};
use crate::parsers::ini_sections::ini_sections;
use crate::parsers::json_scan::json_spans;
use crate::parsers::json_values::json_tokens;
use crate::parsers::markdown::{header_tree, nodes_tree};
use crate::parsers::markdown_nodes::{github_options, markdown_nodes};
use crate::parsers::tokens::{planted_tree, NumberRule};
use crate::parsers::toml_nodes::{toml_fault_of, toml_nodes};
use crate::parsers::xml_events::xml_reading;
use crate::parsers::xml_read::{group_total, xml_parsed, xml_run, xml_value, XmlModel};
use crate::parsers::yaml::yaml_editable;
use crate::parsers::yaml_literals::with_literals;
use crate::parsers::yaml_spans::yaml_walk;
use crate::parsers::yaml_values::{yaml_documents, yaml_stream_fault};
use crate::spans::SpanContext;
use crate::table_laws::{
    holds_no_pattern, is_blank_line, is_line_without_end, is_section, last_value,
    law_every_cell_is_read, law_every_line_is_read, law_every_pattern_is_listed,
    law_every_property_is_read, line_content, named_cells, patterns_before, values_before,
};
use crate::text::split_on;
use crate::toml_place_laws::{
    is_part, is_value_of, law_nodes_make_the_value, part_nodes, places_follow, TomlPart,
};
use crate::value::{lookup, unique_keys, Tree};
use vstd::prelude::*;
use vstd::utf8::{decode_utf8, encode_utf8, valid_utf8};

verus! {

/// A Dockerfile is read as an array with a row for each of its instructions, in
/// order, and is refused exactly where it is no text or has an instruction that is
/// none.
pub proof fn law_dockerfile_is_read(bytes: Seq<u8>)
    ensures
        parsed_as(FormatTag::Dockerfile, bytes) is Ok <==> valid_utf8(bytes) && docker_lines(
            decode_utf8(bytes),
        ) is Ok,
        parsed_as(FormatTag::Dockerfile, bytes) matches Ok(doc) ==> {
            let lines = docker_lines(decode_utf8(bytes))->Ok_0;
            lines.len() < i64::MAX ==> {
                &&& doc.value matches Tree::Array(rows)
                &&& rows.len() == instructions_before(lines, lines.len() as int)
                &&& forall|i: int|
                    0 <= i < lines.len() && !((#[trigger] lines[i]) is Nothing) ==> is_row_of(
                        rows[instructions_before(lines, i)],
                        lines[i],
                        instructions_before(lines, i) + 1,
                    )
            }
        },
{
    if valid_utf8(bytes) && docker_lines(decode_utf8(bytes)) is Ok {
        let lines = docker_lines(decode_utf8(bytes))->Ok_0;
        if lines.len() < i64::MAX {
            law_every_instruction_has_its_row(lines, lines.len() as int);
        }
    }
}

/// A table is read as an array with an object for each record behind the header,
/// in order, with every cell under the name of its column. Cells stand between
/// commas, or between tabs.
pub proof fn law_table_is_read(mark: u8, bytes: Seq<u8>)
    requires
        mark == 44 || mark == 9,
        forall|i: int|
            0 <= i < csv_records(bytes, mark).len() && (#[trigger] csv_records(bytes, mark)[i])
                is Ok ==> csv_records(bytes, mark)[i]->Ok_0.len() <= usize::MAX,
    ensures
        ({
            let tag = if mark == 9 {
                FormatTag::Tsv
            } else {
                FormatTag::Csv
            };
            let records = csv_records(bytes, mark);
            &&& csv_header(bytes, mark) is Err ==> parsed_as(tag, bytes) is Err
            &&& csv_header(bytes, mark) matches Ok(headers) ==> match parsed_as(tag, bytes) {
                Ok(doc) => {
                    &&& doc.value matches Tree::Array(rows)
                    &&& rows.len() == records.len()
                    &&& forall|i: int|
                        0 <= i < records.len() ==> ((#[trigger] records[i]) matches Ok(fields)
                            && is_last_of_each(
                            rows[i],
                            named_cells(headers, fields),
                            |s: Seq<char>| Tree::String(s),
                        ))
                },
                Err(_) => exists|i: int| 0 <= i < records.len() && (#[trigger] records[i]) is Err,
            }
        }),
{
    let dialect = if mark == 9 {
        Dialect::Tsv
    } else {
        Dialect::Csv
    };
    let records = csv_records(bytes, mark);
    if let Ok(headers) = csv_header(bytes, mark) {
        law_every_cell_is_read(dialect, headers, records, records.len() as int);
    }
}

/// An INI text is read as an object of its sections, each an object with every
/// property of the sections of its name.
pub proof fn law_ini_is_read(bytes: Seq<u8>, name: Seq<char>, key: Seq<char>)
    ensures
        parsed_as(FormatTag::Ini, bytes) is Ok <==> valid_utf8(bytes) && ini_sections(
            decode_utf8(bytes),
        ) is Ok,
        parsed_as(FormatTag::Ini, bytes) matches Ok(doc) ==> {
            let sections = ini_sections(decode_utf8(bytes))->Ok_0;
            let n = sections.len() as int;
            &&& doc.value matches Tree::Object(top)
            &&& match lookup(top, name) {
                Some(Tree::Object(entries)) => {
                    &&& is_section(sections, n, name)
                    &&& lookup(entries, key) == (match last_value(sections, n, name, key) {
                        Some(text) => Some(Tree::String(text)),
                        None => None,
                    })
                },
                Some(_) => false,
                None => !is_section(sections, n, name),
            }
        },
{
    if valid_utf8(bytes) && ini_sections(decode_utf8(bytes)) is Ok {
        let sections = ini_sections(decode_utf8(bytes))->Ok_0;
        law_every_property_is_read(sections, sections.len() as int, name, key);
    }
}

/// An environment file is read as an object with the last value that its lines
/// assign to each name, and nothing else.
pub proof fn law_environment_is_read(bytes: Seq<u8>, key: Seq<char>)
    ensures
        parsed_as(FormatTag::DotEnv, bytes) matches Ok(doc) ==> {
            let lines = split_on(decode_utf8(bytes), '\n');
            &&& valid_utf8(bytes)
            &&& doc.value matches Tree::Object(entries)
            &&& unique_keys(entries)
            &&& lookup(entries, key) == (match last_assigned(lines, lines.len() as int, key) {
                Some(value) => Some(Tree::String(value)),
                None => None,
            })
        },
{
    let lines = split_on(decode_utf8(bytes), '\n');
    law_last_assignment_counts(lines, lines.len() as int, key);
}

/// An ignore list is read as an array of the patterns of its lines, in order.
pub proof fn law_ignore_list_is_read(bytes: Seq<u8>)
    ensures
        parsed_as(FormatTag::IgnoreList, bytes) is Ok <==> valid_utf8(bytes),
        parsed_as(FormatTag::IgnoreList, bytes) matches Ok(doc) ==> {
            let lines = split_on(decode_utf8(bytes), '\n');
            &&& doc.value matches Tree::Array(items)
            &&& items.len() == patterns_before(lines, lines.len() as int)
            &&& forall|i: int|
                0 <= i < lines.len() && !holds_no_pattern(#[trigger] lines[i]) ==> (
                items[patterns_before(lines, i)] matches Tree::String(p) && is_line_without_end(
                    p,
                    lines[i],
                ))
        },
{
    let lines = split_on(decode_utf8(bytes), '\n');
    law_every_pattern_is_listed(lines, lines.len() as int);
}

/// JSON lines are read as an array with the value of each line that is not blank,
/// in order.
pub proof fn law_json_lines_are_read(bytes: Seq<u8>)
    ensures
        parsed_as(FormatTag::Jsonl, bytes) matches Ok(doc) ==> {
            let lines = split_on(decode_utf8(bytes), '\n');
            &&& valid_utf8(bytes)
            &&& doc.value matches Tree::Array(items)
            &&& items.len() == values_before(lines, lines.len() as int)
            &&& forall|i: int|
                0 <= i < lines.len() && !is_blank_line(#[trigger] lines[i]) ==> (parsed_as(
                    FormatTag::Json,
                    encode_utf8(line_content(lines[i])),
                ) matches Ok(one) && one.value == items[values_before(lines, i)])
        },
{
    let lines = split_on(decode_utf8(bytes), '\n');
    law_every_line_is_read(lines, lines.len() as int);
}

/// JSON is read as the value of its tokens. It keeps its source, and each place
/// names its path.
pub proof fn law_json_is_read(bytes: Seq<u8>)
    ensures
        parsed_as(FormatTag::Json, bytes) matches Ok(doc) ==> {
            &&& json_tokens(bytes) matches Ok(tokens)
            &&& doc.value == planted_tree(tokens, NumberRule::Json)
            &&& doc.bytes == bytes
            &&& json_spans(bytes) == Ok::<_, Fault>(doc.spans)
            &&& doc.provenance == provenance_of(doc.spans)
            &&& !doc.multi
        },
{
}

/// YAML that is read for editing has the value that it has otherwise, its source,
/// and the places that a walk over its source finds.
pub proof fn law_yaml_is_read_for_editing(bytes: Seq<u8>)
    ensures
        yaml_editable(bytes) matches Ok(doc) ==> {
            &&& parsed_as(FormatTag::Yaml, bytes) matches Ok(plain) && doc.value == plain.value
            &&& yaml_walk(bytes) matches Ok(walk) && doc.spans == walk.spans
            &&& doc.bytes == bytes
            &&& doc.format == FormatTag::Yaml
        },
        yaml_editable(bytes) is Ok <==> yaml_stream_fault(bytes) is None && yaml_walk(bytes) is Ok,
{
}

/// TOML is read as the value that its nodes say, with every value placed where its
/// node stands. It keeps its source.
pub proof fn law_toml_is_read(bytes: Seq<u8>, t: TomlPart)
    requires
        is_part(t),
        toml_nodes(decode_utf8(bytes)) == part_nodes(t),
    ensures
        parsed_as(FormatTag::Toml, bytes) is Ok <==> valid_utf8(bytes) && toml_fault_of(
            decode_utf8(bytes),
        ) is None,
        parsed_as(FormatTag::Toml, bytes) matches Ok(doc) ==> {
            &&& is_value_of(doc.value, bytes, t)
            &&& places_follow(
                bytes,
                t,
                Seq::empty(),
                SpanContext::BlockMapValue,
                Seq::empty(),
                doc.spans,
            )
            &&& doc.bytes == bytes
            &&& doc.provenance == provenance_of(doc.spans)
        },
{
    law_nodes_make_the_value(
        bytes,
        toml_nodes(decode_utf8(bytes)),
        t,
        0,
        Seq::empty(),
        SpanContext::BlockMapValue,
        Seq::empty(),
    );
}

/// Where a document stands in a stream: below its number, or alone at the root.
pub open spec fn stream_place(n: nat, i: nat) -> Seq<char> {
    if n > 1 {
        seq!['/'] + decimal(i)
    } else {
        Seq::empty()
    }
}

/// Whether values are those of the documents of a stream, in order, their floats
/// with the literals that the source shows.
pub open spec fn are_documents(values: Seq<Tree>, bytes: Seq<u8>) -> bool {
    let documents = yaml_documents(bytes);
    &&& values.len() == documents.len()
    &&& forall|i: int|
        0 <= i < values.len() ==> {
            let read = planted_tree(documents[i], NumberRule::Yaml);
            match yaml_walk(bytes) {
                Ok(walk) => #[trigger] values[i] == with_literals(
                    read,
                    stream_place(documents.len(), i as nat),
                    bytes,
                    walk,
                ),
                Err(_) => values[i] == read,
            }
        }
}

/// YAML is read as the value of its document, as null where it has none, and as
/// the array of its documents where it has more than one.
pub proof fn law_yaml_is_read(bytes: Seq<u8>)
    ensures
        parsed_as(FormatTag::Yaml, bytes) is Ok <==> yaml_stream_fault(bytes) is None,
        parsed_as(FormatTag::Yaml, bytes) matches Ok(doc) ==> {
            let n = yaml_documents(bytes).len();
            &&& doc.multi <==> n > 1
            &&& n == 0 ==> doc.value == Tree::Null
            &&& n == 1 ==> are_documents(seq![doc.value], bytes)
            &&& n > 1 ==> (doc.value matches Tree::Array(values) && are_documents(values, bytes))
        },
{
    let documents = yaml_documents(bytes);
    if let Ok(doc) = parsed_as(FormatTag::Yaml, bytes) {
        let read = crate::parsers::yaml::document_trees(documents);
        let values = crate::parsers::yaml::values_with_literals(read, bytes);
        assert(values.len() == documents.len());
        assert(are_documents(values, bytes)) by {
            assert forall|i: int| 0 <= i < values.len() implies ({
                let one = planted_tree(documents[i], NumberRule::Yaml);
                match yaml_walk(bytes) {
                    Ok(walk) => #[trigger] values[i] == with_literals(
                        one,
                        stream_place(documents.len(), i as nat),
                        bytes,
                        walk,
                    ),
                    Err(_) => values[i] == one,
                }
            }) by {
                assert(read[i] == planted_tree(documents[i], NumberRule::Yaml));
                reveal_strlit("/");
                assert("/"@ =~= seq!['/']);
                assert(Seq::<char>::empty() + "/"@ + decimal(i as nat) =~= seq!['/'] + decimal(
                    i as nat,
                ));
            }
        }
        if documents.len() == 1 {
            assert(values =~= seq![doc.value]);
        }
    }
}

/// Whether the nodes from `from` on are at the level of a node, and it is one of
/// them.
pub open spec fn is_beside(nodes: Seq<HclModel>, from: int, k: int) -> bool
    decreases nodes.len() - from,
{
    if !(0 <= from <= k < nodes.len()) {
        false
    } else if from == k {
        true
    } else {
        match nodes[from] {
            HclModel::Close => false,
            HclModel::Attribute(_, _) => is_beside(nodes, from + 1, k),
            HclModel::Open(_, _) => {
                let next = behind_body(nodes, from + 1, 0);
                from < next <= k && is_beside(nodes, next, k)
            },
        }
    }
}

proof fn lemma_entries_go_on(
    nodes: Seq<HclModel>,
    from: int,
    k: int,
    so_far: Seq<(Seq<char>, Tree)>,
) -> (before: Seq<(Seq<char>, Tree)>)
    requires
        is_beside(nodes, from, k),
    ensures
        body_entries(nodes, from, so_far) == body_entries(nodes, k, before),
    decreases nodes.len() - from,
{
    if from == k {
        so_far
    } else {
        match nodes[from] {
            HclModel::Close => so_far,
            HclModel::Attribute(key, tokens) => {
                let more = crate::value::inserted(
                    so_far,
                    key,
                    planted_tree(tokens, NumberRule::Json),
                );
                assert(body_entries(nodes, from, so_far) == body_entries(nodes, from + 1, more));
                lemma_entries_go_on(nodes, from + 1, k, more)
            },
            HclModel::Open(identifier, labels) => {
                law_body_ends_at_its_close(nodes, from + 1, Seq::empty());
                let next = behind_body(nodes, from + 1, 0);
                let more = crate::parsers::merging::placed_under(
                    so_far,
                    crate::parsers::hcl::block_path(identifier, labels),
                    0,
                    Tree::Object(body_entries(nodes, from + 1, Seq::empty()).0),
                );
                assert(body_entries(nodes, from, so_far) == body_entries(nodes, next, more));
                lemma_entries_go_on(nodes, next, k, more)
            },
        }
    }
}

/// HCL is read as an object: an attribute at the top is found under its name, and
/// a block under its identifier and its labels with all that its body says, unless
/// something behind it has the same name.
pub proof fn law_hcl_is_read(bytes: Seq<u8>, k: int, inner: Seq<char>)
    ensures
        parsed_as(FormatTag::Hcl, bytes) is Ok <==> valid_utf8(bytes) && hcl_fault_of(
            decode_utf8(bytes),
        ) is None,
        parsed_as(FormatTag::Hcl, bytes) matches Ok(doc) ==> {
            let nodes = hcl_nodes(decode_utf8(bytes));
            &&& doc.value matches Tree::Object(entries)
            &&& is_beside(nodes, 0, k) ==> match nodes[k] {
                HclModel::Attribute(name, tokens) => !is_named_from(nodes, k + 1, name) ==> lookup(
                    entries,
                    name,
                ) == Some(planted_tree(tokens, NumberRule::Json)),
                HclModel::Open(identifier, labels) => !is_named_from(
                    nodes,
                    behind_body(nodes, k + 1, 0),
                    identifier,
                ) ==> (found_at(entries, seq![identifier] + labels, 0) matches Some(
                    Tree::Object(found),
                ) && (lookup(body_entries(nodes, k + 1, Seq::empty()).0, inner) matches Some(v)
                    ==> lookup(found, inner) == Some(v))),
                HclModel::Close => true,
            }
        },
{
    let nodes = hcl_nodes(decode_utf8(bytes));
    if is_beside(nodes, 0, k) {
        let before = lemma_entries_go_on(nodes, 0, k, Seq::empty());
        match nodes[k] {
            HclModel::Attribute(name, _) => {
                if !is_named_from(nodes, k + 1, name) {
                    law_attribute_is_found(nodes, k, before);
                }
            },
            HclModel::Open(identifier, _) => {
                if !is_named_from(nodes, behind_body(nodes, k + 1, 0), identifier) {
                    law_block_is_found(nodes, k, before, inner);
                }
            },
            HclModel::Close => {},
        }
    }
}

/// Whether a state is that behind all events of a text that has one root.
pub open spec fn is_behind_all(text: Seq<char>, m: XmlModel) -> bool {
    let events = xml_reading(text).events;
    &&& xml_run(text, events, events.len() as int) == Ok::<XmlModel, Fault>(m)
    &&& group_total(m.children, m.children.len() as int) == 1
}

/// XML is read as what stands behind its last event. It is refused where the
/// reader complains and where there is not exactly one root.
pub proof fn law_xml_is_read(bytes: Seq<u8>)
    ensures
        parsed_as(FormatTag::Xml, bytes) matches Ok(doc) ==> {
            &&& valid_utf8(bytes)
            &&& xml_reading(decode_utf8(bytes)).complaint is None
            &&& exists|m: XmlModel| #[trigger]
                is_behind_all(decode_utf8(bytes), m) && doc.value == xml_value(m)
        },
        xml_parsed(bytes) matches Ok((value, notes)) ==> exists|m: XmlModel| #[trigger]
            is_behind_all(decode_utf8(bytes), m) && value == xml_value(m) && notes == m.notes,
        valid_utf8(bytes) && xml_reading(decode_utf8(bytes)).complaint is None && (exists|
            m: XmlModel,
        | #[trigger] is_behind_all(decode_utf8(bytes), m)) ==> parsed_as(FormatTag::Xml, bytes) is Ok,
{
    let text = decode_utf8(bytes);
    let events = xml_reading(text).events;
    if let Ok(m) = xml_run(text, events, events.len() as int) {
        if group_total(m.children, m.children.len() as int) == 1 {
            assert(is_behind_all(text, m));
        }
    }
}

/// Markdown is read as the document that its nodes make. A header before it is
/// shown with its format and its value, and the nodes are those of what follows;
/// without one all of the text is body. The source is kept.
pub proof fn law_markdown_is_read(bytes: Seq<u8>)
    ensures
        parsed_as(FormatTag::Markdown, bytes) matches Ok(doc) ==> {
            &&& doc.bytes == bytes
            &&& match split_header(bytes) {
                Some((kind, header, body)) => header_value(kind, header) matches Ok(value)
                    && valid_utf8(body) && doc.value == nodes_tree(
                    header_tree(kind, value),
                    markdown_nodes(decode_utf8(body), github_options()),
                ),
                None => valid_utf8(bytes) && doc.value == nodes_tree(
                    Tree::Null,
                    markdown_nodes(decode_utf8(bytes), github_options()),
                ),
            }
        },
{
}

} // verus!
