//! A header before a text: YAML between lines of `---`, TOML between lines of
//! `+++`, or a JSON object with a blank line behind it.
//!
//! The header is a value tree, the body is kept as bytes. Without a header the
//! whole input is body, and the value is an empty object.

use crate::bytes::{append_bytes, append_text, copy_bytes};
use crate::document::{bare, DocModel, Document, FrontmatterKind, FrontmatterPayload};
use crate::error::{format_fault, Error, Fault};
use crate::format::{emitted, extension_list, Emission, Format};
use crate::format_tag::FormatTag;
use crate::frontmatter_laws::{lemma_headed_is_split, reads_as, spells_headed, spells_header};
use crate::parsers::json::{
    json_document, json_keys_parse, json_written, parse_with_spans as json_parse_with_spans, Json,
};
use crate::parsers::toml::{
    parse_with_spans as toml_parse_with_spans, toml_document, toml_keys_parse, toml_written, Toml,
};
use crate::parsers::yaml::{yaml_document, yaml_written, Yaml};
use crate::position::{find_line_end, line_end};
use crate::value::{lemma_object_view, Tree, Value, ValueMap};
use crate::write_options::WriteOptions;
use vstd::prelude::*;
use vstd::slice::slice_subrange;
use vstd::utf8::encode_utf8;

verus! {

/// How far into the input the end of a header is looked for.
pub const FRONTMATTER_SCAN_LIMIT: usize = 65536;

/// Markdown frontmatter format implementation.
#[derive(Debug, Clone, Copy)]
pub struct Frontmatter;

// ---------------------------------------------------------------------------
// Between lines of a marker
// ---------------------------------------------------------------------------

/// The byte at `k`; nothing behind the end.
pub open spec fn byte_at(bytes: Seq<u8>, k: int) -> Option<u8> {
    if 0 <= k < bytes.len() {
        Some(bytes[k])
    } else {
        None
    }
}

/// Whether three bytes stand at `at`.
pub open spec fn stands_at(bytes: Seq<u8>, at: int, marker: u8) -> bool {
    0 <= at && at + 3 <= bytes.len() && bytes[at] == marker && bytes[at + 1] == marker && bytes[at
        + 2] == marker
}

/// Whether a line ends at `at`: with a newline, a carriage return before one or
/// before the end, or the end.
pub open spec fn ends_line(bytes: Seq<u8>, at: int) -> bool {
    match byte_at(bytes, at) {
        None => true,
        Some(b) => b == 10u8 || (b == 13u8 && (match byte_at(bytes, at + 1) {
            None => true,
            Some(next) => next == 10u8,
        })),
    }
}

/// Where the header starts: behind a first line that is the marker.
pub open spec fn header_start(bytes: Seq<u8>, marker: u8) -> Option<int> {
    if !stands_at(bytes, 0, marker) {
        None
    } else if byte_at(bytes, 3) == Some(13u8) && byte_at(bytes, 4) == Some(10u8) {
        Some(5int)
    } else if byte_at(bytes, 3) == Some(10u8) {
        Some(4int)
    } else {
        None
    }
}

/// Whether a line that is the marker starts at `at`.
pub open spec fn marker_line(bytes: Seq<u8>, at: int, marker: u8) -> bool {
    (at == 0 || byte_at(bytes, at - 1) == Some(10u8)) && stands_at(bytes, at, marker) && ends_line(
        bytes,
        at + 3,
    )
}

/// The first line from `k` on that is the marker and starts before `stop`.
pub open spec fn closing_line(bytes: Seq<u8>, marker: u8, k: int, stop: int) -> Option<int>
    decreases bytes.len() + 1 - k,
{
    if !(0 <= k < stop) {
        None
    } else if marker_line(bytes, k, marker) {
        Some(k)
    } else if k <= line_end(bytes, k) < bytes.len() {
        closing_line(bytes, marker, line_end(bytes, k) + 1, stop)
    } else {
        None
    }
}

/// The position behind an end of line at `k`.
pub open spec fn behind_line(bytes: Seq<u8>, k: int) -> int {
    let a = if byte_at(bytes, k) == Some(13u8) {
        k + 1
    } else {
        k
    };
    if byte_at(bytes, a) == Some(10u8) {
        a + 1
    } else {
        a
    }
}

/// How far into the input the end of a header is looked for.
pub open spec fn scan_end(bytes: Seq<u8>) -> int {
    if bytes.len() < FRONTMATTER_SCAN_LIMIT {
        bytes.len() as int
    } else {
        FRONTMATTER_SCAN_LIMIT as int
    }
}

/// The header and the body of bytes that start with a marker line.
pub open spec fn delimited(bytes: Seq<u8>, marker: u8) -> Option<(Seq<u8>, Seq<u8>)> {
    match header_start(bytes, marker) {
        None => None,
        Some(start) => match closing_line(bytes, marker, start, scan_end(bytes)) {
            None => None,
            Some(end) => Some(
                (
                    bytes.subrange(start, end),
                    bytes.subrange(behind_line(bytes, end + 3), bytes.len() as int),
                ),
            ),
        },
    }
}

fn has_byte(bytes: &[u8], k: usize, b: u8) -> (r: bool)
    ensures
        r == (byte_at(bytes@, k as int) == Some(b)),
        r ==> k < bytes@.len() <= usize::MAX,
{
    k < bytes.len() && bytes[k] == b
}

fn marker_at(bytes: &[u8], at: usize, marker: u8) -> (r: bool)
    ensures
        r == stands_at(bytes@, at as int, marker),
{
    at < bytes.len() && bytes.len() - at >= 3 && bytes[at] == marker && bytes[at + 1] == marker
        && bytes[at + 2] == marker
}

/// Whether a line ends at `at`.
pub fn line_ends_at(bytes: &[u8], at: usize) -> (r: bool)
    ensures
        r == ends_line(bytes@, at as int),
{
    if at >= bytes.len() || bytes[at] == 10 {
        return true;
    }
    bytes[at] == 13 && (at + 1 == bytes.len() || bytes[at + 1] == 10)
}

/// Where the header starts.
pub fn strip_open_delim(bytes: &[u8], marker: u8) -> (r: Option<usize>)
    ensures
        match r {
            Some(start) => header_start(bytes@, marker) == Some(start as int) && start
                <= bytes@.len(),
            None => header_start(bytes@, marker) is None,
        },
{
    if !marker_at(bytes, 0, marker) {
        return None;
    }
    if has_byte(bytes, 3, 13) && has_byte(bytes, 4, 10) {
        return Some(5);
    }
    if has_byte(bytes, 3, 10) {
        return Some(4);
    }
    None
}

fn skip_line_end(bytes: &[u8], k: usize) -> (r: usize)
    requires
        k <= bytes@.len(),
    ensures
        r == behind_line(bytes@, k as int),
        k <= r <= bytes@.len(),
{
    let mut at: usize = k;
    if has_byte(bytes, at, 13) {
        at += 1;
    }
    if has_byte(bytes, at, 10) {
        at += 1;
    }
    at
}

fn find_closing_line(bytes: &[u8], marker: u8, start: usize, stop: usize) -> (r: Option<usize>)
    requires
        stop <= bytes@.len(),
    ensures
        match r {
            Some(at) => closing_line(bytes@, marker, start as int, stop as int) == Some(at as int)
                && start <= at && at + 3 <= bytes@.len(),
            None => closing_line(bytes@, marker, start as int, stop as int) is None,
        },
{
    let mut at: usize = start;
    while at < stop
        invariant
            start <= at,
            stop <= bytes@.len(),
            closing_line(bytes@, marker, at as int, stop as int) == closing_line(
                bytes@,
                marker,
                start as int,
                stop as int,
            ),
        decreases bytes@.len() + 1 - at,
    {
        if (at == 0 || bytes[at - 1] == 10) && marker_at(bytes, at, marker) && line_ends_at(
            bytes,
            at + 3,
        ) {
            return Some(at);
        }
        let end: usize = find_line_end(bytes, at);
        if end >= bytes.len() {
            return None;
        }
        at = end + 1;
    }
    None
}

fn stop_of(bytes: &[u8]) -> (r: usize)
    ensures
        r == scan_end(bytes@),
        r <= bytes@.len(),
{
    if bytes.len() < FRONTMATTER_SCAN_LIMIT {
        bytes.len()
    } else {
        FRONTMATTER_SCAN_LIMIT
    }
}

/// Finds the header and the body of bytes that start with a marker line.
pub fn detect_delimited_frontmatter<'a>(bytes: &'a [u8], marker: u8) -> (r: Option<
    (&'a [u8], &'a [u8]),
>)
    ensures
        match r {
            Some((header, body)) => delimited(bytes@, marker) == Some((header@, body@)),
            None => delimited(bytes@, marker) is None,
        },
{
    let start: usize = match strip_open_delim(bytes, marker) {
        Some(start) => start,
        None => {
            return None;
        },
    };
    let n: usize = bytes.len();
    match find_closing_line(bytes, marker, start, stop_of(bytes)) {
        Some(end) => {
            let body: usize = skip_line_end(bytes, end + 3);
            Some((slice_subrange(bytes, start, end), slice_subrange(bytes, body, n)))
        },
        None => None,
    }
}

/// Finds a YAML header and the body behind it.
pub fn detect_yaml_frontmatter<'a>(bytes: &'a [u8]) -> (r: Option<(&'a [u8], &'a [u8])>)
    ensures
        match r {
            Some((header, body)) => delimited(bytes@, 45u8) == Some((header@, body@)),
            None => delimited(bytes@, 45u8) is None,
        },
{
    detect_delimited_frontmatter(bytes, 45)
}

/// Finds a TOML header and the body behind it.
pub fn detect_toml_frontmatter<'a>(bytes: &'a [u8]) -> (r: Option<(&'a [u8], &'a [u8])>)
    ensures
        match r {
            Some((header, body)) => delimited(bytes@, 43u8) == Some((header@, body@)),
            None => delimited(bytes@, 43u8) is None,
        },
{
    detect_delimited_frontmatter(bytes, 43)
}

// ---------------------------------------------------------------------------
// A JSON object
// ---------------------------------------------------------------------------

/// The brace that closes the first object, looked for from `k` on, before
/// `stop`. `depth` braces are open; braces in strings do not count.
pub open spec fn closing_brace(
    bytes: Seq<u8>,
    k: int,
    stop: int,
    depth: nat,
    in_string: bool,
    escaped: bool,
) -> Option<int>
    decreases stop - k,
{
    if !(0 <= k < stop) {
        None
    } else {
        let b = bytes[k];
        if escaped {
            closing_brace(bytes, k + 1, stop, depth, in_string, false)
        } else if in_string {
            closing_brace(bytes, k + 1, stop, depth, b != 34u8, b == 92u8)
        } else if b == 34u8 {
            closing_brace(bytes, k + 1, stop, depth, true, false)
        } else if b == 123u8 {
            closing_brace(bytes, k + 1, stop, depth + 1, false, false)
        } else if b == 125u8 {
            if depth <= 1 {
                Some(k)
            } else {
                closing_brace(bytes, k + 1, stop, (depth - 1) as nat, false, false)
            }
        } else {
            closing_brace(bytes, k + 1, stop, depth, false, false)
        }
    }
}

/// Where the body starts behind a JSON header that ends before `k`: behind the
/// end of its line and a blank one. Either may be missing at the end.
pub open spec fn json_body_start(bytes: Seq<u8>, k: int) -> Option<int> {
    let a = if byte_at(bytes, k) == Some(13u8) {
        k + 1
    } else {
        k
    };
    if a < bytes.len() && bytes[a] != 10u8 {
        None
    } else {
        let b = if a < bytes.len() {
            a + 1
        } else {
            a
        };
        let c = if byte_at(bytes, b) == Some(13u8) {
            b + 1
        } else {
            b
        };
        if c >= bytes.len() {
            Some(c)
        } else if bytes[c] == 10u8 {
            Some(c + 1)
        } else {
            None
        }
    }
}

/// The header and the body of bytes that start with a JSON object.
pub open spec fn json_delimited(bytes: Seq<u8>) -> Option<(Seq<u8>, Seq<u8>)> {
    if byte_at(bytes, 0) != Some(123u8) {
        None
    } else {
        match closing_brace(bytes, 0, scan_end(bytes), 0, false, false) {
            None => None,
            Some(close) => match json_body_start(bytes, close + 1) {
                None => None,
                Some(start) => Some(
                    (bytes.subrange(0, close + 1), bytes.subrange(start, bytes.len() as int)),
                ),
            },
        }
    }
}

fn find_closing_brace(bytes: &[u8], stop: usize) -> (r: Option<usize>)
    requires
        stop <= bytes@.len(),
    ensures
        match r {
            Some(at) => closing_brace(bytes@, 0, stop as int, 0, false, false) == Some(at as int)
                && at < stop,
            None => closing_brace(bytes@, 0, stop as int, 0, false, false) is None,
        },
{
    let mut depth: usize = 0;
    let mut in_string: bool = false;
    let mut escaped: bool = false;
    let mut i: usize = 0;
    while i < stop
        invariant
            i <= stop <= bytes@.len(),
            depth <= i,
            closing_brace(bytes@, i as int, stop as int, depth as nat, in_string, escaped)
                == closing_brace(bytes@, 0, stop as int, 0, false, false),
        decreases stop - i,
    {
        let b: u8 = bytes[i];
        if escaped {
            escaped = false;
        } else if in_string {
            if b == 92 {
                escaped = true;
            } else if b == 34 {
                in_string = false;
            }
        } else if b == 34 {
            in_string = true;
        } else if b == 123 {
            depth += 1;
        } else if b == 125 {
            if depth <= 1 {
                return Some(i);
            }
            depth -= 1;
        }
        i += 1;
    }
    None
}

fn find_json_body(bytes: &[u8], k: usize) -> (r: Option<usize>)
    requires
        k <= bytes@.len(),
    ensures
        match r {
            Some(at) => json_body_start(bytes@, k as int) == Some(at as int) && k <= at
                <= bytes@.len(),
            None => json_body_start(bytes@, k as int) is None,
        },
{
    let mut at: usize = k;
    if has_byte(bytes, at, 13) {
        at += 1;
    }
    if has_byte(bytes, at, 10) {
        at += 1;
    } else if at != bytes.len() {
        return None;
    }
    if has_byte(bytes, at, 13) {
        at += 1;
    }
    if has_byte(bytes, at, 10) {
        Some(at + 1)
    } else if at == bytes.len() {
        Some(at)
    } else {
        None
    }
}

/// Finds a JSON header and the body behind it.
pub fn detect_json_frontmatter<'a>(bytes: &'a [u8]) -> (r: Option<(&'a [u8], &'a [u8])>)
    ensures
        match r {
            Some((header, body)) => json_delimited(bytes@) == Some((header@, body@)),
            None => json_delimited(bytes@) is None,
        },
{
    if !has_byte(bytes, 0, 123) {
        return None;
    }
    match find_closing_brace(bytes, stop_of(bytes)) {
        Some(close) => match find_json_body(bytes, close + 1) {
            Some(start) => Some(
                (slice_subrange(bytes, 0, close + 1), slice_subrange(bytes, start, bytes.len())),
            ),
            None => None,
        },
        None => None,
    }
}

// ---------------------------------------------------------------------------
// Headers
// ---------------------------------------------------------------------------

/// The header of bytes, the format it is in, and the body behind it.
pub open spec fn split_header(bytes: Seq<u8>) -> Option<(FrontmatterKind, Seq<u8>, Seq<u8>)> {
    match delimited(bytes, 45u8) {
        Some((header, body)) => Some((FrontmatterKind::Yaml, header, body)),
        None => match delimited(bytes, 43u8) {
            Some((header, body)) => Some((FrontmatterKind::Toml, header, body)),
            None => match json_delimited(bytes) {
                Some((header, body)) => Some((FrontmatterKind::Json, header, body)),
                None => None,
            },
        },
    }
}

/// The value of a header.
pub open spec fn header_value(kind: FrontmatterKind, header: Seq<u8>) -> Result<Tree, Fault> {
    let doc = match kind {
        FrontmatterKind::Yaml => yaml_document(header),
        FrontmatterKind::Toml => toml_document(header),
        FrontmatterKind::Json => json_document(header),
    };
    match doc {
        Ok(d) => Ok(d.value),
        Err(f) => Err(f),
    }
}

/// Whether a header has no empty key on the way to a scalar. YAML headers may.
pub open spec fn header_parses(kind: FrontmatterKind, header: Seq<u8>) -> bool {
    match kind {
        FrontmatterKind::Yaml => true,
        FrontmatterKind::Toml => toml_keys_parse(header),
        FrontmatterKind::Json => json_keys_parse(header),
    }
}

/// Splits bytes into a header and a body.
pub fn find_header<'a>(bytes: &'a [u8]) -> (r: Option<(FrontmatterKind, &'a [u8], &'a [u8])>)
    ensures
        match r {
            Some((kind, header, body)) => split_header(bytes@) == Some((kind, header@, body@)),
            None => split_header(bytes@) is None,
        },
{
    match detect_yaml_frontmatter(bytes) {
        Some((header, body)) => {
            return Some((FrontmatterKind::Yaml, header, body));
        },
        None => {},
    }
    match detect_toml_frontmatter(bytes) {
        Some((header, body)) => {
            return Some((FrontmatterKind::Toml, header, body));
        },
        None => {},
    }
    match detect_json_frontmatter(bytes) {
        Some((header, body)) => Some((FrontmatterKind::Json, header, body)),
        None => None,
    }
}

/// Reads the value of a header.
pub fn read_header(kind: FrontmatterKind, header: &[u8]) -> (r: Result<Value, Error>)
    ensures
        match (r, header_value(kind, header@)) {
            (Ok(v), Ok(m)) => v@ == m,
            (Err(e), Err(f)) => e@ == f,
            _ => false,
        },
        forall|t: Tree| #[trigger] spells_header(kind, header@, t) ==> (r matches Ok(v) && reads_as(
            kind,
            t,
            v@,
        )),
{
    match kind {
        FrontmatterKind::Yaml => match Yaml.parse(header) {
            Ok(doc) => Ok(doc.value().clone()),
            Err(e) => Err(e),
        },
        FrontmatterKind::Toml => match toml_parse_with_spans(header) {
            Ok((value, _spans)) => Ok(value),
            Err(e) => Err(e),
        },
        FrontmatterKind::Json => match json_parse_with_spans(header) {
            Ok((value, _spans)) => Ok(value),
            Err(e) => Err(e),
        },
    }
}

/// Whether a header has no empty key on the way to a scalar.
pub fn check_header(kind: FrontmatterKind, header: &[u8]) -> (r: bool)
    ensures
        r == header_parses(kind, header@),
{
    match kind {
        FrontmatterKind::Yaml => true,
        FrontmatterKind::Toml => Toml.parse_checked(header).is_some(),
        FrontmatterKind::Json => Json.parse_checked(header).is_some(),
    }
}

/// A document with a header and a body.
pub open spec fn headed(value: Tree, kind: FrontmatterKind, body: Seq<u8>) -> DocModel {
    DocModel {
        value,
        bytes: Seq::empty(),
        spans: Seq::empty(),
        format: FormatTag::Frontmatter,
        multi: false,
        payload: Some((kind, body)),
        provenance: Seq::empty(),
    }
}

/// What bytes with a header come to. Without a header all of them are body.
pub open spec fn frontmatter_document(bytes: Seq<u8>) -> Result<DocModel, Fault> {
    match split_header(bytes) {
        Some((kind, header, body)) => match header_value(kind, header) {
            Ok(value) => Ok(headed(value, kind, body)),
            Err(f) => Err(f),
        },
        None => Ok(headed(Tree::Object(Seq::empty()), FrontmatterKind::Yaml, bytes)),
    }
}

/// Whether the header of bytes, where they have one, can be read.
pub open spec fn frontmatter_parses(bytes: Seq<u8>) -> bool {
    match split_header(bytes) {
        Some((kind, header, _)) => header_parses(kind, header),
        None => true,
    }
}

// ---------------------------------------------------------------------------
// Writing
// ---------------------------------------------------------------------------

/// What is written before and behind the header.
pub open spec fn fences(kind: FrontmatterKind) -> (Seq<char>, Seq<char>) {
    match kind {
        FrontmatterKind::Yaml => ("---\n"@, "---\n"@),
        FrontmatterKind::Toml => ("+++\n"@, "+++\n"@),
        FrontmatterKind::Json => (Seq::empty(), "\n\n"@),
    }
}

/// What is written of the header itself.
pub open spec fn header_emission(kind: FrontmatterKind, value: Tree) -> Emission {
    match kind {
        FrontmatterKind::Yaml => yaml_written(bare(value, FormatTag::Yaml, false)),
        FrontmatterKind::Toml => toml_written(bare(value, FormatTag::Toml, false)),
        FrontmatterKind::Json => json_written(bare(value, FormatTag::Json, false)),
    }
}

/// What is written of a header and a body.
pub open spec fn headed_emission(kind: FrontmatterKind, value: Tree, body: Seq<u8>) -> Emission {
    let header = header_emission(kind, value);
    let opened = encode_utf8(fences(kind).0) + header.0;
    if header.1 is Ok {
        (opened + encode_utf8(fences(kind).1) + body, Ok(()))
    } else {
        (opened, header.1)
    }
}

/// What the writer makes of a document. An empty object is no header.
pub open spec fn frontmatter_written(doc: DocModel) -> Emission {
    match doc.payload {
        None => (
            Seq::empty(),
            Err(
                format_fault(
                    "frontmatter"@,
                    "document is not a frontmatter document (no payload)"@,
                ),
            ),
        ),
        Some((kind, body)) => match doc.value {
            Tree::Object(entries) => if entries.len() == 0 {
                (body, Ok(()))
            } else {
                headed_emission(kind, doc.value, body)
            },
            _ => headed_emission(kind, doc.value, body),
        },
    }
}

fn write_headed(value: &Value, kind: FrontmatterKind, body: &[u8], w: &mut Vec<u8>) -> (r: Result<
    (),
    Error,
>)
    ensures
        emitted(r, headed_emission(kind, value@, body@), old(w)@, final(w)@),
{
    let ghost before = w@;
    let ghost header = header_emission(kind, value@);
    proof {
        encode_empty();
    }
    assert(before + Seq::<u8>::empty() =~= before);
    let outcome: Result<(), Error> = match kind {
        FrontmatterKind::Yaml => {
            append_text(w, "---\n");
            Yaml.write(&Document::value_only(value.clone(), FormatTag::Yaml), w)
        },
        FrontmatterKind::Toml => {
            append_text(w, "+++\n");
            Toml.write(&Document::value_only(value.clone(), FormatTag::Toml), w)
        },
        FrontmatterKind::Json => Json.write(
            &Document::value_only(value.clone(), FormatTag::Json),
            w,
        ),
    };
    assert(w@ =~= before + (encode_utf8(fences(kind).0) + header.0));
    match outcome {
        Ok(()) => {},
        Err(e) => {
            return Err(e);
        },
    }
    match kind {
        FrontmatterKind::Yaml => append_text(w, "---\n"),
        FrontmatterKind::Toml => append_text(w, "+++\n"),
        FrontmatterKind::Json => append_text(w, "\n\n"),
    }
    append_bytes(w, body);
    assert(w@ =~= before + headed_emission(kind, value@, body@).0);
    Ok(())
}

/// No characters are no bytes.
proof fn encode_empty()
    ensures
        encode_utf8(Seq::<char>::empty()) == Seq::<u8>::empty(),
{
    assert(encode_utf8(Seq::<char>::empty()) =~= Seq::<u8>::empty());
}

/// Input without a header comes out of a reading and a writing as it went in.
pub proof fn law_body_is_kept(bytes: Seq<u8>)
    requires
        split_header(bytes) is None,
    ensures
        match frontmatter_document(bytes) {
            Ok(doc) => frontmatter_written(doc) == (bytes, Ok::<(), Fault>(())),
            Err(_) => false,
        },
{
}

/// The body behind a header comes out of a reading and a writing as it went in:
/// it ends what is written.
pub proof fn law_body_ends_output(bytes: Seq<u8>)
    requires
        split_header(bytes) is Some,
        frontmatter_document(bytes) is Ok,
        frontmatter_written(frontmatter_document(bytes)->Ok_0).1 is Ok,
    ensures
        ({
            let body = split_header(bytes)->Some_0.2;
            let out = frontmatter_written(frontmatter_document(bytes)->Ok_0).0;
            body.len() <= out.len() && out.subrange(out.len() - body.len(), out.len() as int)
                == body
        }),
{
    let body = split_header(bytes)->Some_0.2;
    let out = frontmatter_written(frontmatter_document(bytes)->Ok_0).0;
    assert(out.subrange(out.len() - body.len(), out.len() as int) =~= body);
}

impl Format for Frontmatter {
    open spec fn tag(&self) -> FormatTag {
        FormatTag::Frontmatter
    }

    open spec fn parses(&self, bytes: Seq<u8>) -> bool {
        frontmatter_parses(bytes)
    }

    open spec fn parse_model(&self, bytes: Seq<u8>) -> Result<DocModel, Fault> {
        frontmatter_document(bytes)
    }

    open spec fn write_model(&self, doc: DocModel) -> Emission {
        frontmatter_written(doc)
    }

    open spec fn options_model(&self, doc: DocModel, opts: WriteOptions) -> Emission {
        self.write_model(doc)
    }

    fn name(&self) -> (r: &'static str) {
        FormatTag::Frontmatter.name()
    }

    fn extensions(&self) -> (r: Vec<&'static str>) {
        extension_list(FormatTag::Frontmatter)
    }

    /// What is written of a header that reads back gives its value back, and the
    /// body behind it.
    fn parse(&self, bytes: &[u8]) -> (r: Result<Document, Error>)
        ensures
            forall|kind: FrontmatterKind, t: Tree, body: Seq<u8>| #[trigger]
                spells_headed(bytes@, kind, t, body) ==> (r matches Ok(doc) && doc@.payload
                    == Some((kind, body)) && reads_as(kind, t, doc@.value)),
    {
        self.parse_checked(bytes).unwrap()
    }

    /// What is written of a header that reads back gives its value back, and the
    /// body behind it; a header with an empty key is not taken.
    fn parse_checked(&self, bytes: &[u8]) -> (r: Option<Result<Document, Error>>)
        ensures
            forall|kind: FrontmatterKind, t: Tree, body: Seq<u8>| #[trigger]
                spells_headed(bytes@, kind, t, body) ==> (match r {
                    Some(Ok(doc)) => doc@.payload == Some((kind, body)) && reads_as(
                        kind,
                        t,
                        doc@.value,
                    ),
                    Some(Err(_)) => false,
                    None => true,
                }),
    {
        proof {
            assert forall|kind: FrontmatterKind, t: Tree, body: Seq<u8>| #[trigger]
                spells_headed(bytes@, kind, t, body) implies (split_header(bytes@) matches Some(
                (k, header, rest),
            ) && k == kind && rest == body && spells_header(kind, header, t)) by {
                lemma_headed_is_split(bytes@, kind, t, body);
            }
        }
        match find_header(bytes) {
            Some((kind, header, body)) => {
                if !check_header(kind, header) {
                    return None;
                }
                match read_header(kind, header) {
                    Ok(value) => {
                        let kept: Vec<u8> = copy_bytes(body, 0, body.len());
                        assert(body@.subrange(0, body@.len() as int) =~= body@);
                        Some(Ok(Document::frontmatter(value, kept, kind)))
                    },
                    Err(e) => Some(Err(e)),
                }
            },
            None => {
                let kept: Vec<u8> = copy_bytes(bytes, 0, bytes.len());
                assert(bytes@.subrange(0, bytes@.len() as int) =~= bytes@);
                let none: ValueMap = ValueMap::new();
                proof {
                    lemma_object_view(none);
                }
                Some(
                    Ok(Document::frontmatter(Value::Object(none), kept, FrontmatterKind::Yaml)),
                )
            },
        }
    }

    fn write(&self, doc: &Document, w: &mut Vec<u8>) -> (r: Result<(), Error>) {
        assert(w@ + Seq::<u8>::empty() =~= w@);
        let payload: &FrontmatterPayload = match doc.frontmatter_payload() {
            Some(payload) => payload,
            None => {
                return Err(
                    Error::Format {
                        format: "frontmatter",
                        message: "document is not a frontmatter document (no payload)".to_owned(),
                    },
                );
            },
        };
        match doc.value() {
            Value::Object(map) => {
                proof {
                    lemma_object_view(*map);
                }
                if map.is_empty() {
                    append_bytes(w, payload.body.as_slice());
                    return Ok(());
                }
            },
            _ => {},
        }
        write_headed(doc.value(), payload.kind, payload.body.as_slice(), w)
    }

    fn write_with_options(&self, doc: &Document, w: &mut Vec<u8>, _opts: &WriteOptions) -> (r: Result<
        (),
        Error,
    >) {
        self.write(doc, w)
    }
}

} // verus!
