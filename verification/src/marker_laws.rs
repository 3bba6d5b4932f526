//! What is shown of a place: template markers, snippets, and how far a pointer
//! leads.

use crate::document::{longest_prefix, no_span_fault};
use crate::edit_ops::OpFault;
use crate::edit_wire::op_fault_text;
use crate::display::fault_text;
use crate::display_laws::is_in;
use crate::error::Fault;
use crate::format_tag::FormatTag;
use crate::numbers::decimal;
use crate::parsers::source_lines::path_text;
use crate::parsers::toml::toml_fault;
use crate::parsers::toml_nodes::TomlFaultModel;
use crate::parsers::yaml_events::ScanFaultModel;
use crate::parsers::yaml_spans::scan_fault;
use crate::pointer::{canonical, escaped, Seg};
use crate::position::{
    boundary_after, boundary_before, is_boundary, line_end, line_start, newlines, newlines_spelled,
    snippet_at, within,
};
use crate::edit_laws::law_line_lies_between_newlines;
use crate::spans::ValueSpan;
use crate::template_guard::{marker_line, marker_snippet};
use crate::text::trim;
use crate::textual_edit::{inserter_of, renderer_of, FormatInserter, FormatRenderer};
use crate::utf8_text::utf8_lossy;
use crate::value::has_key;
use vstd::prelude::*;
use vstd::utf8::is_continuation_byte;

verus! {

/// Whether a range is the line that holds a position.
pub open spec fn is_line_at(bytes: Seq<u8>, k: int, from: int, to: int) -> bool {
    &&& 0 <= from <= k <= to <= bytes.len()
    &&& forall|i: int| from <= i < to ==> #[trigger] bytes[i] != 10u8
    &&& from == 0 || bytes[from - 1] == 10u8
    &&& to == bytes.len() || bytes[to] == 10u8
}

/// A marker is shown by its line: one more than the newlines before it, and of
/// the line what stands between its white space, up to eighty characters.
pub proof fn law_marker_shows_its_line(bytes: Seq<u8>, k: int, from: int, to: int)
    requires
        is_line_at(bytes, k, from, to),
        bytes.len() < u32::MAX,
    ensures
        marker_line(bytes, k) == newlines(bytes, k) + 1,
        ({
            let line = trim(utf8_lossy(bytes.subrange(from, to)));
            let shown = marker_snippet(bytes, k);
            &&& shown.len() <= 80 && shown.len() <= line.len()
            &&& shown == line.subrange(0, shown.len() as int)
            &&& shown.len() < 80 ==> shown == line
        }),
{
    law_line_lies_between_newlines(bytes, k);
    let a = crate::position::line_start(bytes, k);
    let b = crate::position::line_end(bytes, k);
    if a < from {
        assert(bytes[from - 1] != 10u8);
    } else if from < a {
        assert(bytes[a - 1] != 10u8);
    }
    if b < to {
        assert(bytes[b] != 10u8);
    } else if to < b {
        assert(bytes[to] != 10u8);
    }
    lemma_few_newlines(bytes, k);
    let line = trim(utf8_lossy(bytes.subrange(from, to)));
    let shown = marker_snippet(bytes, k);
    assert(shown =~= line.subrange(0, shown.len() as int));
}

proof fn lemma_few_newlines(bytes: Seq<u8>, k: int)
    requires
        0 <= k <= bytes.len(),
    ensures
        newlines(bytes, k) <= k,
    decreases k,
{
    if k > 0 {
        lemma_few_newlines(bytes, k - 1);
    }
}

proof fn lemma_boundary_before(bytes: Seq<u8>, k: int)
    requires
        0 <= k <= bytes.len(),
    ensures
        0 <= boundary_before(bytes, k) <= k,
        is_boundary(bytes, boundary_before(bytes, k)),
        forall|i: int|
            boundary_before(bytes, k) < i <= k && i < bytes.len() ==> is_continuation_byte(
                #[trigger] bytes[i],
            ),
    decreases k,
{
    if !is_boundary(bytes, k) {
        lemma_boundary_before(bytes, k - 1);
    }
}

proof fn lemma_boundary_after(bytes: Seq<u8>, k: int)
    requires
        0 <= k <= bytes.len(),
    ensures
        k <= boundary_after(bytes, k) <= bytes.len(),
        is_boundary(bytes, boundary_after(bytes, k)),
        forall|i: int|
            k <= i < boundary_after(bytes, k) ==> is_continuation_byte(#[trigger] bytes[i]),
    decreases bytes.len() - k,
{
    if !is_boundary(bytes, k) {
        lemma_boundary_after(bytes, k + 1);
    }
}

/// A text with its spelled-out newlines as they were, where it holds no backslash.
pub open spec fn newlines_read(t: Seq<char>) -> Seq<char>
    decreases t.len(),
{
    if t.len() == 0 {
        t
    } else if t.len() > 1 && t[t.len() - 2] == '\\' && t.last() == 'n' {
        newlines_read(t.subrange(0, t.len() - 2)).push('\n')
    } else {
        newlines_read(t.drop_last()).push(t.last())
    }
}

proof fn lemma_newlines_read(s: Seq<char>)
    requires
        forall|i: int| 0 <= i < s.len() ==> #[trigger] s[i] != '\\',
    ensures
        newlines_read(newlines_spelled(s)) == s,
        newlines_spelled(s).len() > 0 ==> newlines_spelled(s).last() != '\\',
        forall|i: int|
            0 <= i < newlines_spelled(s).len() ==> #[trigger] newlines_spelled(s)[i] != '\n',
    decreases s.len(),
{
    if s.len() > 0 {
        assert forall|i: int| 0 <= i < s.drop_last().len() implies #[trigger] s.drop_last()[i]
            != '\\' by {
            assert(s.drop_last()[i] == s[i]);
        }
        lemma_newlines_read(s.drop_last());
        let before = newlines_spelled(s.drop_last());
        let t = newlines_spelled(s);
        if s.last() == '\n' {
            assert(t.subrange(0, t.len() - 2) =~= before);
        } else {
            assert(t.drop_last() =~= before);
            assert(t.last() == s.last());
            assert(s[s.len() - 1] != '\\');
            if t.len() > 1 {
                assert(t[t.len() - 2] == before.last());
            }
        }
        assert forall|i: int| 0 <= i < t.len() implies #[trigger] t[i] != '\n' by {
            if i < before.len() {
                assert(t[i] == before[i]);
            }
        }
        assert(newlines_read(t) =~= s);
    } else {
        assert(newlines_read(newlines_spelled(s)) =~= s);
    }
}

/// Whether a range of bytes is cut between characters, reaches twenty bytes to
/// either side of a position where there are so many, and no further than to the
/// next character.
pub open spec fn is_around(bytes: Seq<u8>, pos: int, from: int, to: int) -> bool {
    let near = if pos < 20 {
        0
    } else {
        pos - 20
    };
    let far = if pos + 20 < bytes.len() {
        pos + 20
    } else {
        bytes.len() as int
    };
    &&& 0 <= from <= near && far <= to <= bytes.len()
    &&& from == 0 || from >= bytes.len() || !is_continuation_byte(bytes[from])
    &&& to == bytes.len() || !is_continuation_byte(bytes[to])
    &&& forall|i: int|
        from < i <= near && i < bytes.len() ==> is_continuation_byte(#[trigger] bytes[i])
    &&& forall|i: int| far <= i < to ==> is_continuation_byte(#[trigger] bytes[i])
}

/// A snippet is the text around a position on one line: its newlines are spelled
/// out, and everything else stays.
pub proof fn law_snippet_is_the_text_around(bytes: Seq<u8>, pos: int)
    requires
        0 <= pos <= bytes.len(),
    ensures
        exists|from: int, to: int|
            {
                &&& #[trigger] is_around(bytes, pos, from, to)
                &&& {
                    let around = utf8_lossy(bytes.subrange(from, to));
                    (forall|i: int| 0 <= i < around.len() ==> #[trigger] around[i] != '\\') ==> {
                        &&& newlines_read(snippet_at(bytes, pos)) == around
                        &&& forall|i: int|
                            0 <= i < snippet_at(bytes, pos).len() ==> #[trigger] snippet_at(
                                bytes,
                                pos,
                            )[i] != '\n'
                    }
                }
            },
{
    let near = if pos < 20 {
        0
    } else {
        pos - 20
    };
    let far = within(bytes, pos + 20);
    lemma_boundary_before(bytes, near);
    lemma_boundary_after(bytes, far);
    let from = boundary_before(bytes, near);
    let to = boundary_after(bytes, far);
    assert(is_around(bytes, pos, from, to));
    let around = utf8_lossy(bytes.subrange(from, to));
    if forall|i: int| 0 <= i < around.len() ==> #[trigger] around[i] != '\\' {
        lemma_newlines_read(around);
    }
}

proof fn lemma_pointer_text(p: Seq<Seg>)
    requires
        p.len() > 0,
    ensures
        canonical(p).len() > 0,
{
    reveal_strlit("/");
}

/// The fault for a pointer without a span names the pointer and how far it leads:
/// to the longest shorter pointer that has a span, or to the root where none has.
pub proof fn law_longest_prefix_is_named(spans: Seq<(Seq<char>, ValueSpan)>, p: Seq<Seg>, k: nat)
    requires
        k <= p.len(),
    ensures
        ({
            let c = longest_prefix(spans, p, k);
            ||| {
                &&& c.len() == 0
                &&& forall|i: int| 0 < i < k ==> !has_key(spans, #[trigger] canonical(p.subrange(0, i)))
            }
            ||| exists|j: int|
                {
                    &&& 0 < j < k && c == #[trigger] canonical(p.subrange(0, j)) && has_key(
                        spans,
                        c,
                    )
                    &&& forall|i: int|
                        j < i < k ==> !has_key(spans, #[trigger] canonical(p.subrange(0, i)))
                }
        }),
        no_span_fault(spans, p) matches Fault::Path { pointer, matched_prefix, .. } && pointer
            == canonical(p) && matched_prefix == longest_prefix(spans, p, p.len()),
    decreases k,
{
    if k > 0 {
        law_longest_prefix_is_named(spans, p, (k - 1) as nat);
        let c = canonical(p.subrange(0, k - 1));
        if k > 1 {
            lemma_pointer_text(p.subrange(0, k - 1));
            if has_key(spans, c) {
                assert(c == canonical(p.subrange(0, k - 1)));
            } else {
                let found = longest_prefix(spans, p, (k - 1) as nat);
                if found.len() > 0 {
                    let j = choose|j: int|
                        {
                            &&& 0 < j < k - 1 && found == #[trigger] canonical(p.subrange(0, j))
                                && has_key(spans, found)
                            &&& forall|i: int|
                                j < i < k - 1 ==> !has_key(
                                    spans,
                                    #[trigger] canonical(p.subrange(0, i)),
                                )
                        };
                    assert forall|i: int| j < i < k implies !has_key(
                        spans,
                        #[trigger] canonical(p.subrange(0, i)),
                    ) by {}
                }
            }
        } else {
            assert(p.subrange(0, 0) =~= Seq::<Seg>::empty());
        }
    }
}

/// An objection to an operation names the field or the operation, or holds the
/// text of what is wrong with the pointer.
pub proof fn law_objection_names_its_cause(f: OpFault)
    ensures
        match f {
            OpFault::DuplicateField(name) => is_in(name, op_fault_text(f)),
            OpFault::UnknownField(name) => is_in(name, op_fault_text(f)),
            OpFault::MissingField(name) => is_in(name, op_fault_text(f)),
            OpFault::InvalidPointer(inner) => is_in(fault_text(inner), op_fault_text(f)),
            OpFault::UnsupportedOp(name) => is_in(name, op_fault_text(f)),
            OpFault::InvalidType(expected) => is_in(expected, op_fault_text(f)),
        },
{
    let w = op_fault_text(f);
    match f {
        OpFault::DuplicateField(name) => {
            lemma_part("duplicate field `"@, name, "`"@);
        },
        OpFault::UnknownField(name) => {
            lemma_part("unknown field `"@, name, "`, expected one of `op`, `path`, `value`"@);
        },
        OpFault::MissingField(name) => {
            lemma_part("missing field `"@, name, "`"@);
        },
        OpFault::InvalidPointer(inner) => {
            let a = "invalid pointer: "@;
            lemma_part(a, fault_text(inner), Seq::empty());
            assert(w =~= a + fault_text(inner) + Seq::<char>::empty());
        },
        OpFault::UnsupportedOp(name) => {
            lemma_part("unsupported op `"@, name, "`; only add/replace/remove are accepted"@);
        },
        OpFault::InvalidType(expected) => {
            let a = "invalid type, expected "@;
            lemma_part(a, expected, Seq::empty());
            assert(w =~= a + expected + Seq::<char>::empty());
        },
    }
}

proof fn lemma_part(before: Seq<char>, part: Seq<char>, behind: Seq<char>)
    ensures
        is_in(part, before + part + behind),
{
    let whole = before + part + behind;
    let i = before.len() as int;
    assert(whole.subrange(i, i + part.len()) =~= part);
}

/// YAML, TOML and JSON can be edited in place, each by a renderer of its own, and
/// no other format can.
pub proof fn law_each_format_has_its_renderer(format: FormatTag)
    ensures
        renderer_of(format) is Some <==> format == FormatTag::Yaml || format == FormatTag::Toml
            || format == FormatTag::Json,
        inserter_of(format) is Some <==> renderer_of(format) is Some,
        renderer_of(format) matches Some(FormatRenderer::Yaml(_)) ==> format == FormatTag::Yaml,
        renderer_of(format) matches Some(FormatRenderer::Toml(_)) ==> format == FormatTag::Toml,
        renderer_of(format) matches Some(FormatRenderer::Json(_)) ==> format == FormatTag::Json,
        inserter_of(format) matches Some(FormatInserter::Yaml(_)) ==> format == FormatTag::Yaml,
        inserter_of(format) matches Some(FormatInserter::Toml(_)) ==> format == FormatTag::Toml,
        inserter_of(format) matches Some(FormatInserter::Json(_)) ==> format == FormatTag::Json,
{
}

/// A fault of a TOML or a YAML source shows the line that it points at, and keeps
/// what is wrong and where.
pub proof fn law_fault_shows_its_line(
    bytes: Seq<u8>,
    toml: TomlFaultModel,
    scan: ScanFaultModel,
    k: int,
    from: int,
    to: int,
)
    requires
        is_line_at(bytes, k, from, to),
        k < bytes.len(),
    ensures
        toml_fault(bytes, toml) matches Fault::Parse { start, snippet, .. } && (start == k
            ==> snippet == utf8_lossy(bytes.subrange(from, to))),
        scan_fault(bytes, scan) matches Fault::Parse {
            start,
            end,
            snippet,
            message,
            line,
            col,
            ..
        } && message == scan.info && start == end && (start == k ==> snippet == utf8_lossy(
            bytes.subrange(from, to),
        )) && (0 <= scan.line <= u32::MAX ==> line == scan.line) && (0 <= scan.col < u32::MAX
            ==> col == scan.col + 1),
{
    lemma_line_at(bytes, k, from, to);
}

proof fn lemma_line_at(bytes: Seq<u8>, k: int, from: int, to: int)
    requires
        is_line_at(bytes, k, from, to),
    ensures
        line_start(bytes, k) == from,
        line_end(bytes, k) == to,
{
    law_line_lies_between_newlines(bytes, k);
    let a = line_start(bytes, k);
    let b = line_end(bytes, k);
    if a < from {
        assert(bytes[from - 1] == 10u8);
    }
    if from < a {
        assert(bytes[a - 1] == 10u8);
    }
    if b < to {
        assert(bytes[b] == 10u8);
    }
    if to < b {
        assert(bytes[to] == 10u8);
    }
}

/// The path that a walk over a source has come is written as the pointer is.
pub proof fn law_walked_path_is_written_as_the_pointer(p: Seq<Seg>)
    ensures
        path_text(
            Seq::new(
                p.len(),
                |i: int|
                    match p[i] {
                        Seg::Key(k) => escaped(k),
                        Seg::Index(n) => decimal(n),
                    },
            ),
        ) == canonical(p),
    decreases p.len(),
{
    let written = Seq::new(
        p.len(),
        |i: int|
            match p[i] {
                Seg::Key(k) => escaped(k),
                Seg::Index(n) => decimal(n),
            },
    );
    if p.len() > 0 {
        let front = p.drop_last();
        law_walked_path_is_written_as_the_pointer(front);
        assert(written.drop_last() =~= Seq::new(
            front.len(),
            |i: int|
                match front[i] {
                    Seg::Key(k) => escaped(k),
                    Seg::Index(n) => decimal(n),
                },
        ));
        reveal_strlit("/");
        assert("/"@ =~= seq!['/']);
    }
}

} // verus!
