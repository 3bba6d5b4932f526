//! What writers write of a document, and what an edit that is refused reports.

use crate::dispatch::{parsed_as, written_as};
use crate::document::{del_model, set_model, DocModel};
use crate::dotenv_laws::{as_texts, is_env_key, is_env_value, law_env_reads_back};
use crate::edit_laws::{child_at, named_index};
use crate::error::{Fault, PathFault};
use crate::format_tag::{format_name, FormatTag};
use crate::layout_laws::{
    floats_are_floats, law_layout_is_the_value, node_count, pieces_are, toml_can_hold,
};
use crate::parsers::csv::{csv_written, Dialect};
use crate::parsers::hcl_nodes::hcl_text;
use crate::parsers::ini::sections_to_write;
use crate::parsers::ini_sections::{ini_text, SectionModel};
use crate::parsers::jsonl::items_emission;
use crate::parsers::layout::{laid_out, PieceModel, Target};
use crate::parsers::toml_nodes::toml_text;
use crate::parsers::yaml::yaml_stream;
use crate::parsers::yaml_values::yaml_text;
use crate::pointer::{canonical, Seg};
use crate::table_laws::{
    are_rows, fits_header, fits_section, is_section_of, law_every_cell_is_written,
    law_every_property_is_written, says_scalar,
};
use crate::textual_edit::renderer_of;
use crate::tree_edit::{deleted_in, set_in, set_item};
use crate::value::{lookup, type_label_of, unique_keys, Tree};
use crate::value_laws::law_scalar_text_tells_the_scalar;
use crate::write_options::{canonical_tree, WriteOptions};
use vstd::prelude::*;
use vstd::utf8::encode_utf8;

verus! {

/// Whether pieces are the nodes of a value, in order.
pub open spec fn is_layout_of(target: Target, pieces: Seq<PieceModel>, t: Tree) -> bool {
    pieces.len() == node_count(t) && pieces_are(target, pieces, 0, t)
}

/// Whether bytes are what the YAML writer makes of pieces.
pub open spec fn is_yaml_of(bytes: Seq<u8>, pieces: Seq<PieceModel>, t: Tree) -> bool {
    &&& is_layout_of(Target::Yaml, pieces, t)
    &&& yaml_text(pieces) matches Ok(text) && bytes == encode_utf8(text)
}

/// Whether bytes are what the TOML writer makes of pieces.
pub open spec fn is_toml_of(bytes: Seq<u8>, pieces: Seq<PieceModel>, t: Tree) -> bool {
    &&& is_layout_of(Target::Toml, pieces, t)
    &&& toml_text(pieces) matches Ok(text) && bytes == encode_utf8(text)
}

/// Whether bytes are what the HCL writer makes of pieces.
pub open spec fn is_hcl_of(bytes: Seq<u8>, pieces: Seq<PieceModel>, t: Tree) -> bool {
    &&& is_layout_of(Target::Hcl, pieces, t)
    &&& hcl_text(pieces) matches Ok(text) && bytes == encode_utf8(text)
}

/// The value that is to be written: with its keys in order where that is asked for.
pub open spec fn asked_for(t: Tree, opts: WriteOptions) -> Tree {
    if opts.sort_keys {
        canonical_tree(t)
    } else {
        t
    }
}

/// What is written of a YAML document is written for its value.
pub proof fn law_yaml_is_written_for_the_value(doc: DocModel, opts: WriteOptions)
    requires
        !doc.multi,
        floats_are_floats(asked_for(doc.value, opts)),
        written_as(FormatTag::Yaml, doc, opts).1 is Ok,
    ensures
        exists|pieces: Seq<PieceModel>|
            #[trigger] is_yaml_of(
                written_as(FormatTag::Yaml, doc, opts).0,
                pieces,
                asked_for(doc.value, opts),
            ),
{
    let t = asked_for(doc.value, opts);
    law_layout_is_the_value(Target::Yaml, t);
    let pieces = laid_out(Target::Yaml, t)->Ok_0;
    assert(is_yaml_of(written_as(FormatTag::Yaml, doc, opts).0, pieces, t));
}

/// A stream is written as YAML document by document, in order, with the keys of
/// each in order where that is asked for.
pub proof fn law_yaml_stream_is_written(doc: DocModel, opts: WriteOptions, items: Seq<Tree>)
    requires
        doc.multi,
        doc.value == Tree::Array(items),
    ensures
        written_as(FormatTag::Yaml, doc, opts) == yaml_stream(
            Seq::new(items.len(), |i: int| asked_for(items[i], opts)),
            items.len() as int,
        ),
{
    let shown = Seq::new(items.len(), |i: int| asked_for(items[i], opts));
    if opts.sort_keys {
        assert(shown =~= crate::parsers::yaml::canonical_trees(items));
    } else {
        assert(shown =~= items);
    }
}

/// A TOML document keeps its source where it has one and its keys may stay as they
/// are; what is written of it otherwise is written for its value. A stream, and a
/// value that TOML has no word for, are not written at all.
pub proof fn law_toml_is_written_for_the_value(doc: DocModel, opts: WriteOptions)
    requires
        floats_are_floats(asked_for(doc.value, opts)),
    ensures
        ({
            let written = written_as(FormatTag::Toml, doc, opts);
            let keeps = doc.bytes.len() > 0 && !opts.sort_keys;
            let t = asked_for(doc.value, opts);
            &&& doc.multi ==> written.1 is Err
            &&& !doc.multi && keeps ==> written == (doc.bytes, Ok::<(), Fault>(()))
            &&& !doc.multi && !keeps && !toml_can_hold(t) ==> written.1 is Err
            &&& !doc.multi && !keeps && written.1 is Ok ==> exists|pieces: Seq<PieceModel>|
                #[trigger] is_toml_of(written.0, pieces, t)
            &&& written.1 is Err ==> written.0.len() == 0
        }),
{
    let t = asked_for(doc.value, opts);
    let written = written_as(FormatTag::Toml, doc, opts);
    law_layout_is_the_value(Target::Toml, t);
    if !doc.multi && !(doc.bytes.len() > 0 && !opts.sort_keys) && written.1 is Ok {
        let pieces = laid_out(Target::Toml, t)->Ok_0;
        assert(is_toml_of(written.0, pieces, t));
    }
}

/// What is written of an HCL document is written for its value.
pub proof fn law_hcl_is_written_for_the_value(doc: DocModel, opts: WriteOptions)
    requires
        floats_are_floats(doc.value),
        written_as(FormatTag::Hcl, doc, opts).1 is Ok,
    ensures
        exists|pieces: Seq<PieceModel>|
            #[trigger] is_hcl_of(written_as(FormatTag::Hcl, doc, opts).0, pieces, doc.value),
{
    law_layout_is_the_value(Target::Hcl, doc.value);
    let pieces = laid_out(Target::Hcl, doc.value)->Ok_0;
    assert(is_hcl_of(written_as(FormatTag::Hcl, doc, opts).0, pieces, doc.value));
}

/// Rows are written as a table, with commas between the cells or with tabs: the
/// header holds the keys of the first row, and every cell what its row holds under
/// its header. Nothing is written of no rows.
pub proof fn law_table_is_written(
    tag: FormatTag,
    dialect: Dialect,
    doc: DocModel,
    opts: WriteOptions,
    items: Seq<Tree>,
    first: Seq<(Seq<char>, Tree)>,
)
    requires
        (tag == FormatTag::Csv && dialect == Dialect::Csv) || (tag == FormatTag::Tsv && dialect
            == Dialect::Tsv),
        doc.value == Tree::Array(items),
        items.len() > 0 ==> items[0] == Tree::Object(first),
    ensures
        ({
            let headers = first.map_values(|e: (Seq<char>, Tree)| e.0);
            let written = written_as(tag, doc, opts);
            &&& items.len() == 0 ==> written == (Seq::<u8>::empty(), Ok::<(), Fault>(()))
            &&& items.len() > 0 ==> (written.1 is Ok <==> forall|i: int|
                0 <= i < items.len() ==> fits_header(#[trigger] items[i], headers))
            &&& items.len() > 0 && written.1 is Ok ==> exists|table: Seq<Seq<Seq<char>>>|
                #[trigger] are_rows(written.0, dialect, table, items, headers)
        }),
{
    if items.len() > 0 {
        law_every_cell_is_written(dialect, items, first);
        assert(written_as(tag, doc, opts) == csv_written(Tree::Array(items), dialect));
    }
}

/// Whether bytes are the text of sections, and these are the entries of an object
/// in order.
pub open spec fn are_sections(
    bytes: Seq<u8>,
    sections: Seq<SectionModel>,
    top: Seq<(Seq<char>, Tree)>,
) -> bool {
    &&& bytes == encode_utf8(ini_text(sections))
    &&& sections.len() == top.len()
    &&& forall|i: int|
        0 <= i < top.len() ==> is_section_of(#[trigger] sections[i], top[i].0, top[i].1)
}

/// An object is written as INI with a section for each entry, in order. That fails
/// exactly where an entry is no object or holds a collection.
pub proof fn law_sections_are_written(
    doc: DocModel,
    opts: WriteOptions,
    top: Seq<(Seq<char>, Tree)>,
)
    requires
        asked_for(doc.value, opts) == Tree::Object(top),
    ensures
        ({
            let written = written_as(FormatTag::Ini, doc, opts);
            &&& written.1 is Ok <==> forall|i: int|
                0 <= i < top.len() ==> fits_section((#[trigger] top[i]).1)
            &&& written.1 is Ok ==> exists|sections: Seq<SectionModel>|
                #[trigger] are_sections(written.0, sections, top)
        }),
{
    law_every_property_is_written(top, top.len() as int);
    if let Ok(sections) = sections_to_write(top, top.len() as int) {
        assert(are_sections(written_as(FormatTag::Ini, doc, opts).0, sections, top));
    }
}

/// What is assigned in an environment file that was written is read back: every
/// name with its text.
pub proof fn law_environment_is_written(
    doc: DocModel,
    opts: WriteOptions,
    entries: Seq<(Seq<char>, Tree)>,
)
    requires
        doc.value == Tree::Object(entries),
        unique_keys(entries),
        forall|i: int|
            0 <= i < entries.len() ==> is_env_key((#[trigger] entries[i]).0) && is_env_value(
                entries[i].1,
            ),
    ensures
        ({
            let written = written_as(FormatTag::DotEnv, doc, opts);
            &&& written.1 is Ok
            &&& parsed_as(FormatTag::DotEnv, written.0) matches Ok(read)
            &&& read.value matches Tree::Object(found)
            &&& found.len() == entries.len()
            &&& forall|i: int|
                0 <= i < entries.len() ==> (#[trigger] found[i]).0 == entries[i].0 && (
                found[i].1 matches Tree::String(text) && says_scalar(text, entries[i].1))
        }),
{
    law_env_reads_back(entries);
    assert forall|i: int| 0 <= i < entries.len() implies (#[trigger] as_texts(entries)[i]).0
        == entries[i].0 && (as_texts(entries)[i].1 matches Tree::String(text) && says_scalar(
        text,
        entries[i].1,
    )) by {
        law_scalar_text_tells_the_scalar(entries[i].1);
    }
}

/// An array is written as JSON lines item by item, any other value as one line, and
/// a stream not at all.
pub proof fn law_json_lines_are_written(doc: DocModel, opts: WriteOptions)
    ensures
        ({
            let written = written_as(FormatTag::Jsonl, doc, opts);
            &&& doc.multi ==> written.1 is Err && written.0.len() == 0
            &&& !doc.multi ==> match doc.value {
                Tree::Array(items) => written == items_emission(items, opts, items.len() as int),
                one => written == items_emission(seq![one], opts, 1),
            }
        }),
{
    if !doc.multi && !(doc.value is Array) {
        let one = seq![doc.value];
        reveal_with_fuel(items_emission, 2);
        let written = written_as(FormatTag::Jsonl, doc, opts);
        assert(one[0] == doc.value);
        assert(items_emission(one, opts, 1).0 =~= written.0);
    }
}

/// A value of a shape that a format has no word for is refused, and nothing is
/// written.
pub proof fn law_wrong_shape_is_not_written(doc: DocModel, opts: WriteOptions)
    ensures
        !(doc.value is Array) ==> written_as(FormatTag::Csv, doc, opts).1 is Err && written_as(
            FormatTag::Tsv,
            doc,
            opts,
        ).1 is Err,
        !(asked_for(doc.value, opts) is Object) ==> written_as(FormatTag::Ini, doc, opts).1 is Err,
        !(doc.value is Object) ==> written_as(FormatTag::DotEnv, doc, opts).1 is Err,
{
}

/// Dockerfiles and ignore lists are not written, whatever they hold, and the fault
/// names the format.
pub proof fn law_read_only_formats_are_not_written(doc: DocModel, opts: WriteOptions)
    ensures
        ({
            let docker = written_as(FormatTag::Dockerfile, doc, opts);
            let list = written_as(FormatTag::IgnoreList, doc, opts);
            &&& docker.0.len() == 0 && list.0.len() == 0
            &&& docker.1 matches Err(Fault::Format { format, .. }) && format == format_name(
                FormatTag::Dockerfile,
            )
            &&& list.1 matches Err(Fault::Format { format, .. }) && format == "ignore-list"@
        }),
{
}

/// Why a value cannot be put somewhere: below a scalar, and at a position in an
/// object, there is nothing; in an array a name is no position, a position behind
/// the end is out of bounds, and a dash stands for the end only as the last
/// segment. Elsewhere it is why the value cannot be put below the child, a missing
/// child of an object being an empty object.
pub proof fn law_refused_value_is_told_why(t: Tree, p: Seq<Seg>, v: Tree)
    requires
        p.len() > 0,
    ensures
        ({
            let rest = p.subrange(1, p.len() as int);
            let why = set_in(t, p, v).1;
            match (t, p[0]) {
                (Tree::Object(entries), Seg::Key(k)) => why == set_in(
                    match lookup(entries, k) {
                        Some(child) => child,
                        None => Tree::Object(Seq::empty()),
                    },
                    rest,
                    v,
                ).1,
                (Tree::Array(items), seg) => if seg == Seg::Key("-"@) {
                    if rest.len() == 0 {
                        why is None
                    } else {
                        why == Some(
                            PathFault::TypeMismatch {
                                expected: "leaf segment"@,
                                found: "array-append marker '-' used mid-path"@,
                            },
                        )
                    }
                } else {
                    match named_index(seg) {
                        Some(i) => if i < items.len() {
                            why == set_in(items[i as int], rest, v).1
                        } else {
                            why == Some(PathFault::OutOfBounds)
                        },
                        None => why == Some(
                            PathFault::TypeMismatch {
                                expected: "array index"@,
                                found: "non-numeric key"@,
                            },
                        ),
                    }
                },
                _ => why == Some(
                    PathFault::TypeMismatch {
                        expected: "object or array"@,
                        found: type_label_of(t),
                    },
                ),
            }
        }),
{
    let rest = p.subrange(1, p.len() as int);
    match (t, p[0]) {
        (Tree::Object(entries), Seg::Key(k)) => {
            crate::value::lemma_key_index(entries, k);
        },
        (Tree::Array(items), seg) => {
            if seg != Seg::Key("-"@) {
                if let Some(i) = named_index(seg) {
                    assert(set_in(t, p, v) == set_item(items, i, rest, v));
                    if i < items.len() {
                        assert(set_item(items, i, rest, v).1 == set_in(
                            items[i as int],
                            rest,
                            v,
                        ).1);
                    }
                }
            }
        },
        _ => {},
    }
}

/// Why a node cannot be taken out: the root cannot, a missing key is missing, a
/// position behind the end is out of bounds, a name is no position, and below a
/// scalar there is nothing. Elsewhere it is why it cannot be taken out of the child.
pub proof fn law_refused_removal_is_told_why(t: Tree, p: Seq<Seg>)
    ensures
        ({
            let why = deleted_in(t, p).1;
            if p.len() == 0 {
                why == Some(
                    PathFault::TypeMismatch { expected: "non-root pointer"@, found: "root"@ },
                )
            } else {
                let rest = p.subrange(1, p.len() as int);
                match child_at(t, p[0]) {
                    Some(child) => rest.len() > 0 ==> why == deleted_in(child, rest).1,
                    None => match (t, p[0]) {
                        (Tree::Object(_), Seg::Key(_)) => why == Some(PathFault::MissingKey),
                        (Tree::Array(_), seg) => if named_index(seg) is Some {
                            why == Some(PathFault::OutOfBounds)
                        } else {
                            why matches Some(PathFault::TypeMismatch { expected, .. }) && expected
                                == "array index"@
                        },
                        _ => why == Some(
                            PathFault::TypeMismatch {
                                expected: "object or array"@,
                                found: type_label_of(t),
                            },
                        ),
                    },
                }
            }
        }),
{
    reveal_strlit("-");
    if p.len() > 0 {
        assert(crate::numbers::parsed_index("-"@) is None) by {
            assert(!crate::numbers::is_digit("-"@[0]));
        }
        let rest = p.subrange(1, p.len() as int);
        match t {
            Tree::Object(entries) => {
                if let Seg::Key(k) = p[0] {
                    crate::value::lemma_key_index(entries, k);
                }
            },
            Tree::Array(items) => {
                if let Some(i) = named_index(p[0]) {
                    assert(deleted_in(t, p) == crate::tree_edit::deleted_item(items, i, rest));
                    if i < items.len() && rest.len() > 0 {
                        assert(crate::tree_edit::deleted_item(items, i, rest).1 == deleted_in(
                            items[i as int],
                            rest,
                        ).1);
                    }
                }
            },
            _ => {},
        }
    }
}

/// An edit of a document that is refused says why: a document without places and a
/// format without a renderer cannot be edited at all, and otherwise the fault names
/// the path.
pub proof fn law_refused_edit_names_its_path(m: DocModel, p: Seq<Seg>, v: Tree)
    ensures
        set_model(m, p, v).1 matches Err(f) ==> if m.spans.len() == 0 || renderer_of(m.format)
            is None {
            f is WriteUnavailable
        } else {
            f matches Fault::Path { pointer, kind, .. } && pointer == canonical(p) && if m.span(p)
                is None {
                kind == PathFault::MissingKey
            } else {
                set_in(m.value, p, v).1 == Some(kind)
            }
        },
        del_model(m, p).1 matches Err(f) ==> if m.spans.len() == 0 {
            f is WriteUnavailable
        } else {
            f matches Fault::Path { pointer, kind, .. } && pointer == canonical(p) && if p.len()
                > 0 && m.span(p) is None {
                kind == PathFault::MissingKey
            } else {
                deleted_in(m.value, p).1 == Some(kind)
            }
        },
{
}

} // verus!
