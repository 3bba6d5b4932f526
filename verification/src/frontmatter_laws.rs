//! What a header that was written reads back as.

use crate::dispatch::parsed_as;
use crate::document::{bare, FrontmatterKind};
use crate::error::Fault;
use crate::format_tag::FormatTag;
use crate::parsers::frontmatter::{
    behind_line, byte_at, closing_brace, closing_line, delimited, ends_line, fences,
    frontmatter_document, frontmatter_written, headed, header_emission, header_value,
    json_body_start, json_delimited, marker_line, scan_end, split_header, stands_at,
    FRONTMATTER_SCAN_LIMIT,
};
use crate::parsers::json_braces::lemma_object_closes;
use crate::parsers::json_spelling::{is_spelled, readable_depth, spells};
use crate::parsers::toml_spelling::{is_toml_document, spells_toml};
use crate::parsers::yaml_spelling::{is_yaml_plain, spells_yaml, yaml_depth};
use crate::position::line_end;
use crate::value::Tree;
use crate::value_eq::same_tree;
use crate::write_laws::law_json_value_is_spelled;
use vstd::prelude::*;
use vstd::utf8::{encode_utf8, is_ascii_chars, is_ascii_chars_encode_utf8};

verus! {

/// Whether no line of a header is the marker, and the last one ends.
pub open spec fn holds_no_marker(header: Seq<u8>, marker: u8) -> bool {
    &&& header.len() > 0 ==> header.last() == 10u8
    &&& forall|i: int| 0 <= i < header.len() ==> !#[trigger] marker_line(header, i, marker)
}

/// Whether what is written around a header shows where it ends.
pub open spec fn stands_alone(kind: FrontmatterKind, header: Seq<u8>) -> bool {
    match kind {
        FrontmatterKind::Yaml => holds_no_marker(header, 45u8),
        FrontmatterKind::Toml => holds_no_marker(header, 43u8),
        FrontmatterKind::Json => byte_at(header, 0) == Some(123u8) && closing_brace(
            header,
            0,
            header.len() as int,
            0,
            false,
            false,
        ) == Some(header.len() - 1),
    }
}

/// Whether the end of a header is within what is looked through for it.
pub open spec fn is_in_reach(header: Seq<u8>) -> bool {
    header.len() + 4 < FRONTMATTER_SCAN_LIMIT
}

/// A header with what is written around it, and the body behind.
pub open spec fn fenced(kind: FrontmatterKind, header: Seq<u8>, body: Seq<u8>) -> Seq<u8> {
    encode_utf8(fences(kind).0) + header + encode_utf8(fences(kind).1) + body
}

proof fn lemma_line_ends(bytes: Seq<u8>, k: int, p: int)
    requires
        0 <= k <= p < bytes.len(),
        bytes[p] == 10u8,
    ensures
        k <= line_end(bytes, k) <= p,
        bytes[line_end(bytes, k)] == 10u8,
    decreases p - k,
{
    if bytes[k] != 10u8 {
        lemma_line_ends(bytes, k + 1, p);
    }
}

proof fn lemma_closes(bytes: Seq<u8>, marker: u8, header: Seq<u8>, body: Seq<u8>, k: int)
    requires
        marker != 10u8,
        holds_no_marker(header, marker),
        is_in_reach(header),
        bytes == seq![marker, marker, marker, 10u8] + header + seq![marker, marker, marker, 10u8]
            + body,
        4 <= k <= 4 + header.len(),
        bytes[k - 1] == 10u8,
    ensures
        closing_line(bytes, marker, k, scan_end(bytes)) == Some(4 + header.len() as int),
    decreases bytes.len() - k,
{
    let end = 4 + header.len() as int;
    assert(forall|i: int| 0 <= i < header.len() ==> bytes[i + 4] == #[trigger] header[i]);
    assert(bytes[end] == marker && bytes[end + 1] == marker && bytes[end + 2] == marker && bytes[end
        + 3] == 10u8);
    if k == end {
        assert(stands_at(bytes, k, marker));
        assert(ends_line(bytes, k + 3));
        assert(marker_line(bytes, k, marker));
    } else {
        let last = header.len() - 1;
        assert(header[last] == 10u8 && bytes[end - 1] == 10u8);
        if marker_line(bytes, k, marker) {
            assert(k + 3 < end);
            assert(bytes[k] == header[k - 4] && bytes[k + 1] == header[k - 3] && bytes[k + 2]
                == header[k - 2] && bytes[k + 3] == header[k - 1]);
            if k < header.len() {
                assert(bytes[k + 4] == header[k]);
            }
            if k > 4 {
                assert(bytes[k - 1] == header[k - 5]);
            }
            assert(stands_at(header, k - 4, marker));
            assert(ends_line(header, k - 1));
            assert(marker_line(header, k - 4, marker));
        }
        lemma_line_ends(bytes, k, end - 1);
        lemma_closes(bytes, marker, header, body, line_end(bytes, k) + 1);
    }
}

proof fn lemma_delimited(marker: u8, header: Seq<u8>, body: Seq<u8>)
    requires
        marker != 10u8,
        holds_no_marker(header, marker),
        is_in_reach(header),
    ensures
        delimited(
            seq![marker, marker, marker, 10u8] + header + seq![marker, marker, marker, 10u8] + body,
            marker,
        ) == Some((header, body)),
{
    let fence = seq![marker, marker, marker, 10u8];
    let bytes = fence + header + fence + body;
    let end = 4 + header.len() as int;
    assert(bytes[0] == fence[0] && bytes[1] == fence[1] && bytes[2] == fence[2] && bytes[3]
        == fence[3]);
    assert(stands_at(bytes, 0, marker));
    lemma_closes(bytes, marker, header, body, 4);
    assert(bytes[end + 3] == 10u8);
    assert(behind_line(bytes, end + 3) == end + 4);
    assert(bytes.subrange(4, end) =~= header);
    assert(bytes.subrange(end + 4, bytes.len() as int) =~= body);
}

proof fn lemma_brace_closes(
    header: Seq<u8>,
    bytes: Seq<u8>,
    k: int,
    stop: int,
    depth: nat,
    in_string: bool,
    escaped: bool,
)
    requires
        0 <= k,
        header.len() <= bytes.len(),
        header.len() <= stop,
        forall|i: int| 0 <= i < header.len() ==> bytes[i] == #[trigger] header[i],
        closing_brace(header, k, header.len() as int, depth, in_string, escaped) is Some,
    ensures
        closing_brace(bytes, k, stop, depth, in_string, escaped) == closing_brace(
            header,
            k,
            header.len() as int,
            depth,
            in_string,
            escaped,
        ),
    decreases header.len() - k,
{
    let b = header[k];
    assert(bytes[k] == b);
    if escaped {
        lemma_brace_closes(header, bytes, k + 1, stop, depth, in_string, false);
    } else if in_string {
        lemma_brace_closes(header, bytes, k + 1, stop, depth, b != 34u8, b == 92u8);
    } else if b == 34u8 {
        lemma_brace_closes(header, bytes, k + 1, stop, depth, true, false);
    } else if b == 123u8 {
        lemma_brace_closes(header, bytes, k + 1, stop, depth + 1, false, false);
    } else if b == 125u8 {
        if depth > 1 {
            lemma_brace_closes(header, bytes, k + 1, stop, (depth - 1) as nat, false, false);
        }
    } else {
        lemma_brace_closes(header, bytes, k + 1, stop, depth, false, false);
    }
}

proof fn lemma_json_delimited(header: Seq<u8>, body: Seq<u8>)
    requires
        stands_alone(FrontmatterKind::Json, header),
        is_in_reach(header),
    ensures
        json_delimited(header + seq![10u8, 10u8] + body) == Some((header, body)),
{
    let bytes = header + seq![10u8, 10u8] + body;
    let n = header.len() as int;
    assert(forall|i: int| 0 <= i < header.len() ==> bytes[i] == #[trigger] header[i]);
    assert(bytes[0] == header[0]);
    lemma_brace_closes(header, bytes, 0, scan_end(bytes), 0, false, false);
    assert(bytes[n] == 10u8 && bytes[n + 1] == 10u8);
    assert(json_body_start(bytes, n) == Some(n + 2));
    assert(bytes.subrange(0, n) =~= header);
    assert(bytes.subrange(n + 2, bytes.len() as int) =~= body);
}

/// The bytes of what is written around a header.
proof fn lemma_fences()
    ensures
        encode_utf8("---\n"@) == seq![45u8, 45u8, 45u8, 10u8],
        encode_utf8("+++\n"@) == seq![43u8, 43u8, 43u8, 10u8],
        encode_utf8("\n\n"@) == seq![10u8, 10u8],
        encode_utf8(Seq::<char>::empty()) == Seq::<u8>::empty(),
{
    reveal_strlit("---\n");
    reveal_strlit("+++\n");
    reveal_strlit("\n\n");
    assert(is_ascii_chars("---\n"@));
    assert(is_ascii_chars("+++\n"@));
    assert(is_ascii_chars("\n\n"@));
    is_ascii_chars_encode_utf8("---\n"@);
    is_ascii_chars_encode_utf8("+++\n"@);
    is_ascii_chars_encode_utf8("\n\n"@);
    assert(encode_utf8("---\n"@) =~= seq![45u8, 45u8, 45u8, 10u8]);
    assert(encode_utf8("+++\n"@) =~= seq![43u8, 43u8, 43u8, 10u8]);
    assert(encode_utf8("\n\n"@) =~= seq![10u8, 10u8]);
    assert(encode_utf8(Seq::<char>::empty()) =~= Seq::<u8>::empty());
}

/// A header that shows its end, and a body behind it, are taken apart again as
/// they were put together.
pub proof fn law_fenced_header_is_split(kind: FrontmatterKind, header: Seq<u8>, body: Seq<u8>)
    requires
        stands_alone(kind, header),
        is_in_reach(header),
    ensures
        split_header(fenced(kind, header, body)) == Some((kind, header, body)),
{
    let bytes = fenced(kind, header, body);
    lemma_fences();
    match kind {
        FrontmatterKind::Yaml => {
            lemma_delimited(45u8, header, body);
        },
        FrontmatterKind::Toml => {
            lemma_delimited(43u8, header, body);
            assert(bytes[0] == 43u8);
        },
        FrontmatterKind::Json => {
            lemma_json_delimited(header, body);
            assert(bytes =~= header + seq![10u8, 10u8] + body);
            assert(bytes[0] == header[0]);
        },
    }
}

/// A header between lines of three dashes is YAML, one between lines of three
/// pluses is TOML, and an object before a blank line is JSON. The body is all that
/// follows.
pub proof fn law_fence_tells_the_format(header: Seq<u8>, body: Seq<u8>)
    requires
        is_in_reach(header),
    ensures
        holds_no_marker(header, 45u8) ==> split_header(
            seq![45u8, 45u8, 45u8, 10u8] + header + seq![45u8, 45u8, 45u8, 10u8] + body,
        ) == Some((FrontmatterKind::Yaml, header, body)),
        holds_no_marker(header, 43u8) ==> split_header(
            seq![43u8, 43u8, 43u8, 10u8] + header + seq![43u8, 43u8, 43u8, 10u8] + body,
        ) == Some((FrontmatterKind::Toml, header, body)),
        stands_alone(FrontmatterKind::Json, header) ==> split_header(
            header + seq![10u8, 10u8] + body,
        ) == Some((FrontmatterKind::Json, header, body)),
{
    lemma_fences();
    if holds_no_marker(header, 45u8) {
        law_fenced_header_is_split(FrontmatterKind::Yaml, header, body);
    }
    if holds_no_marker(header, 43u8) {
        law_fenced_header_is_split(FrontmatterKind::Toml, header, body);
    }
    if stands_alone(FrontmatterKind::Json, header) {
        law_fenced_header_is_split(FrontmatterKind::Json, header, body);
        assert(Seq::<u8>::empty() + header =~= header);
    }
}

/// The value of a document is what its header says in the format of its fence.
pub proof fn law_header_is_read_in_its_format(kind: FrontmatterKind, header: Seq<u8>, body: Seq<u8>)
    requires
        stands_alone(kind, header),
        is_in_reach(header),
    ensures
        frontmatter_document(fenced(kind, header, body)) matches Ok(doc) ==> {
            let alone = match kind {
                FrontmatterKind::Yaml => parsed_as(FormatTag::Yaml, header),
                FrontmatterKind::Toml => parsed_as(FormatTag::Toml, header),
                FrontmatterKind::Json => parsed_as(FormatTag::Json, header),
            };
            &&& alone matches Ok(read) && doc.value == read.value
            &&& doc.payload == Some((kind, body))
            &&& doc.format == FormatTag::Frontmatter
        },
{
    law_fenced_header_is_split(kind, header, body);
}

/// A header that was written with a body behind it is read as what was written
/// of its value reads, and the body is the same.
pub proof fn law_written_header_is_read_back(kind: FrontmatterKind, value: Tree, body: Seq<u8>)
    requires
        value != Tree::Object(Seq::empty()),
        header_emission(kind, value).1 is Ok,
        stands_alone(kind, header_emission(kind, value).0),
        is_in_reach(header_emission(kind, value).0),
    ensures
        frontmatter_written(headed(value, kind, body)).1 is Ok,
        frontmatter_document(frontmatter_written(headed(value, kind, body)).0) == (match header_value(
            kind,
            header_emission(kind, value).0,
        ) {
            Ok(read) => Ok::<_, Fault>(headed(read, kind, body)),
            Err(f) => Err(f),
        }),
{
    let header = header_emission(kind, value).0;
    match value {
        Tree::Object(entries) => {
            if entries.len() == 0 {
                assert(entries =~= Seq::empty());
            }
        },
        _ => {},
    }
    law_fenced_header_is_split(kind, header, body);
}

// ---------------------------------------------------------------------------
// The value of a header
// ---------------------------------------------------------------------------

/// Whether a header is what is written of a value that its format reads back.
pub open spec fn spells_header(kind: FrontmatterKind, header: Seq<u8>, t: Tree) -> bool {
    match kind {
        FrontmatterKind::Yaml => spells_yaml(header, t),
        FrontmatterKind::Toml => spells_toml(header, t),
        FrontmatterKind::Json => spells(header, t),
    }
}

/// Whether a header of value `t` may read as `u`. TOML has an order of its own
/// for keys.
pub open spec fn reads_as(kind: FrontmatterKind, t: Tree, u: Tree) -> bool {
    if kind == FrontmatterKind::Toml {
        same_tree(t, u)
    } else {
        u == t
    }
}

/// Whether a format reads back what is written of a value as a header.
pub open spec fn is_header(kind: FrontmatterKind, t: Tree) -> bool {
    &&& t != Tree::Object(Seq::empty())
    &&& match kind {
        FrontmatterKind::Yaml => is_yaml_plain(t, yaml_depth()),
        FrontmatterKind::Toml => is_toml_document(t),
        FrontmatterKind::Json => is_spelled(t, readable_depth()),
    }
    &&& stands_alone(kind, header_emission(kind, t).0)
    &&& is_in_reach(header_emission(kind, t).0)
}

/// What is written of an object as a JSON header shows where it ends.
pub proof fn law_json_header_stands_alone(t: Tree)
    requires
        t is Object,
        is_spelled(t, readable_depth()),
    ensures
        stands_alone(FrontmatterKind::Json, header_emission(FrontmatterKind::Json, t).0),
{
    law_json_value_is_spelled(bare(t, FormatTag::Json, false));
    lemma_object_closes(header_emission(FrontmatterKind::Json, t).0, t);
}

/// Whether bytes are what is written of a header that reads back and a body.
pub open spec fn spells_headed(
    bytes: Seq<u8>,
    kind: FrontmatterKind,
    t: Tree,
    body: Seq<u8>,
) -> bool {
    is_header(kind, t) && frontmatter_written(headed(t, kind, body)) == (bytes, Ok::<(), Fault>(()))
}

/// What is written of a header that reads back and a body is taken apart into
/// that header and that body.
pub proof fn lemma_headed_is_split(
    bytes: Seq<u8>,
    kind: FrontmatterKind,
    t: Tree,
    body: Seq<u8>,
)
    requires
        spells_headed(bytes, kind, t, body),
    ensures
        split_header(bytes) matches Some((k, header, rest)) && k == kind && rest == body
            && spells_header(kind, header, t),
{
    let header = header_emission(kind, t).0;
    match t {
        Tree::Object(entries) => {
            if entries.len() == 0 {
                assert(entries =~= Seq::empty());
            }
        },
        _ => {},
    }
    assert(bytes == fenced(kind, header, body));
    law_fenced_header_is_split(kind, header, body);
    if kind == FrontmatterKind::Json {
        law_json_value_is_spelled(bare(t, FormatTag::Json, false));
    }
}

} // verus!
