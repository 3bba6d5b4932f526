//! What an edit operation stands for, and what a walk that ends early reports.

use crate::document::{provenance_of, replaced_span, DocModel};
use crate::edit_laws::{
    child_at, is_with, is_without, keys_unique_along, law_document_edit_edits_the_value,
    named_index, node_below,
};
use crate::edit_ops::{op_model, op_of, Op, OpFault, OpFieldsModel};
use crate::edit_wire::{fields_read, path_of};
use crate::error::{Fault, PathFault};
use crate::ir::{origin_inline_offset, InlineBaseline, IrModel, Origin};
use crate::pointer::{canonical, parsed_pointer, Seg};
use crate::resolve::{keys_of, resolved, step, walked};
use crate::spans::ValueSpan;
use crate::suggest::suggestions;
use crate::value::{lookup, type_label_of, Tree};
use vstd::prelude::*;

verus! {

/// An operation that is done has done what it says: an addition or a replacement
/// has put its value where its path leads, a removal has taken out what was there,
/// and nothing else has changed.
pub proof fn law_operation_does_what_it_says(m: DocModel, op: Op)
    requires
        keys_unique_along(m.value, path_of(op)),
        op_model(m, op).1 is Ok,
    ensures
        match op {
            Op::Add { path, value } => is_with(op_model(m, op).0.value, m.value, path, value),
            Op::Replace { path, value } => is_with(op_model(m, op).0.value, m.value, path, value),
            Op::Remove { path } => is_without(op_model(m, op).0.value, m.value, path),
        },
        op_model(m, op).0.format == m.format,
{
    match op {
        Op::Add { path, value } => {
            law_document_edit_edits_the_value(m, path, value);
        },
        Op::Replace { path, value } => {
            law_document_edit_edits_the_value(m, path, value);
        },
        Op::Remove { path } => {
            law_document_edit_edits_the_value(m, path, Tree::Null);
        },
    }
}

/// Fields make an operation exactly where they name one that there is, with a
/// path that can be read, without an origin, and with a value where one is needed.
/// It is the one that they name, at that path and with that value.
pub proof fn law_fields_make_the_operation(m: OpFieldsModel)
    ensures
        ({
            let path_reads = m.path matches Some(text) && parsed_pointer(text) is Ok;
            let named = m.op == Some("add"@) || m.op == Some("replace"@);
            op_of(m) is Ok <==> !m.from_seen && path_reads && ((named && m.value is Some) || m.op
                == Some("remove"@))
        }),
        op_of(m) matches Ok(op) ==> {
            &&& m.path matches Some(text)
            &&& parsed_pointer(text) == Ok::<Seq<Seg>, Fault>(path_of(op))
            &&& match op {
                Op::Add { value, .. } => m.op == Some("add"@) && m.value == Some(value),
                Op::Replace { value, .. } => m.op == Some("replace"@) && m.value == Some(value),
                Op::Remove { .. } => m.op == Some("remove"@),
            }
        },
        op_of(m) matches Err(OpFault::UnsupportedOp(name)) ==> m.op == Some(name) && name != "add"@
            && name != "replace"@ && name != "remove"@,
{
    reveal_strlit("add");
    reveal_strlit("replace");
    reveal_strlit("remove");
    assert("add"@.len() == 3 && "replace"@.len() == 7 && "remove"@.len() == 6);
}

/// Whether an object names a field at position `i`.
pub open spec fn names_at(entries: Seq<(Seq<char>, Tree)>, i: int, name: Seq<char>) -> bool {
    0 <= i < entries.len() && entries[i].0 == name
}

/// Whether what was read of a field is what the object says under its name, and
/// nothing where it does not name it.
pub open spec fn field_is(
    entries: Seq<(Seq<char>, Tree)>,
    name: Seq<char>,
    read: Option<Tree>,
) -> bool {
    match read {
        Some(value) => exists|i: int|
            #[trigger] names_at(entries, i, name) && entries[i].1 == value,
        None => forall|i: int| !#[trigger] names_at(entries, i, name),
    }
}

/// A text that was read, as a value.
pub open spec fn as_value(read: Option<Seq<char>>) -> Option<Tree> {
    match read {
        Some(s) => Some(Tree::String(s)),
        None => None,
    }
}

proof fn lemma_field_is_longer(
    entries: Seq<(Seq<char>, Tree)>,
    name: Seq<char>,
    read: Option<Tree>,
    now: Option<Tree>,
)
    requires
        entries.len() > 0,
        field_is(entries.drop_last(), name, read),
        if entries.last().0 == name {
            now == Some(entries.last().1)
        } else {
            now == read
        },
    ensures
        field_is(entries, name, now),
{
    let before = entries.drop_last();
    let last = entries.len() - 1;
    if entries.last().0 == name {
        assert(names_at(entries, last, name));
    } else {
        match read {
            Some(value) => {
                let i = choose|i: int|
                    #[trigger] names_at(before, i, name) && before[i].1 == value;
                assert(names_at(entries, i, name));
            },
            None => {
                assert forall|i: int| !#[trigger] names_at(entries, i, name) by {
                    if names_at(entries, i, name) {
                        assert(i != last);
                        assert(names_at(before, i, name));
                    }
                }
            },
        }
    }
}

/// What is read of an object is what it says: its operation, its path and its
/// value are those under these names, and no other name but that of an origin is
/// taken.
pub proof fn law_fields_are_those_of_the_object(entries: Seq<(Seq<char>, Tree)>)
    ensures
        fields_read(entries, entries.len() as int) matches Ok(m) ==> {
            &&& field_is(entries, "op"@, as_value(m.op))
            &&& field_is(entries, "path"@, as_value(m.path))
            &&& field_is(entries, "value"@, m.value)
            &&& m.from_seen <==> exists|i: int| #[trigger] names_at(entries, i, "from"@)
            &&& forall|i: int|
                0 <= i < entries.len() ==> (#[trigger] entries[i]).0 == "op"@ || entries[i].0
                    == "path"@ || entries[i].0 == "value"@ || entries[i].0 == "from"@
        },
    decreases entries.len(),
{
    reveal_strlit("op");
    reveal_strlit("path");
    reveal_strlit("value");
    reveal_strlit("from");
    assert("op"@.len() == 2 && "path"@.len() == 4 && "value"@.len() == 5 && "from"@.len() == 4);
    assert("path"@[0] == 'p' && "from"@[0] == 'f');
    if fields_read(entries, entries.len() as int) is Ok {
        let m = fields_read(entries, entries.len() as int)->Ok_0;
        if entries.len() > 0 {
            let before = entries.drop_last();
            let last = entries.len() - 1;
            lemma_fields_of_front(entries, last);
            assert(before =~= entries.subrange(0, last));
            law_fields_are_those_of_the_object(before);
            let b = fields_read(before, last)->Ok_0;
            lemma_field_is_longer(entries, "op"@, as_value(b.op), as_value(m.op));
            lemma_field_is_longer(entries, "path"@, as_value(b.path), as_value(m.path));
            lemma_field_is_longer(entries, "value"@, b.value, m.value);
            if entries.last().0 == "from"@ {
                assert(names_at(entries, last, "from"@));
            } else if b.from_seen {
                let i = choose|i: int| #[trigger] names_at(before, i, "from"@);
                assert(names_at(entries, i, "from"@));
            } else {
                assert forall|i: int| !#[trigger] names_at(entries, i, "from"@) by {
                    if names_at(entries, i, "from"@) {
                        assert(names_at(before, i, "from"@));
                    }
                }
            }
            assert forall|i: int| 0 <= i < entries.len() implies (#[trigger] entries[i]).0 == "op"@
                || entries[i].0 == "path"@ || entries[i].0 == "value"@ || entries[i].0
                == "from"@ by {
                if i < last {
                    assert(before[i] == entries[i]);
                }
            }
        }
    }
}

proof fn lemma_fields_of_front(entries: Seq<(Seq<char>, Tree)>, k: int)
    requires
        0 <= k <= entries.len(),
    ensures
        fields_read(entries.subrange(0, k), k) == fields_read(entries, k),
    decreases k,
{
    if k > 0 {
        lemma_fields_of_front(entries, k - 1);
        lemma_fields_of_front(entries.subrange(0, k), k - 1);
        assert(entries.subrange(0, k).subrange(0, k - 1) =~= entries.subrange(0, k - 1));
    }
}

/// Whether segments were understood as they are written, but that a key of digits
/// stands for a position in an array.
pub open spec fn understood(given: Seq<Seg>, taken: Seq<Seg>) -> bool {
    &&& given.len() == taken.len()
    &&& forall|i: int|
        0 <= i < given.len() ==> #[trigger] taken[i] == given[i] || (named_index(given[i])
            matches Some(n) && taken[i] == Seg::Index(n))
}

/// Whether a report names the place where a walk ends and what is the matter
/// there: `taken` has been walked, and there is no child for the next segment.
pub open spec fn reports_end(
    t: Tree,
    p: Seq<Seg>,
    taken: Seq<Seg>,
    matched_prefix: Seq<char>,
    kind: PathFault,
    did_you_mean: Seq<Seq<char>>,
) -> bool {
    let k = taken.len() as int;
    &&& k < p.len()
    &&& understood(p.subrange(0, k), taken)
    &&& matched_prefix == canonical(taken)
    &&& node_below(t, p.subrange(0, k)) matches Some(node)
    &&& child_at(node, p[k]) is None
    &&& match (node, p[k]) {
        (Tree::Object(entries), Seg::Key(key)) => kind == PathFault::MissingKey && did_you_mean
            == suggestions(key, keys_of(entries)),
        (Tree::Array(_), seg) => did_you_mean.len() == 0 && if named_index(seg) is Some {
            kind == PathFault::OutOfBounds
        } else {
            kind == PathFault::TypeMismatch {
                expected: "array index"@,
                found: "non-numeric key"@,
            }
        },
        _ => did_you_mean.len() == 0 && kind == (PathFault::TypeMismatch {
            expected: "object or array"@,
            found: type_label_of(node),
        }),
    }
}

/// Whether a fault tells that a path leads to nothing: it names the whole path,
/// how far it leads, and what is the matter there.
pub open spec fn is_reported(t: Tree, p: Seq<Seg>, f: Fault) -> bool {
    match f {
        Fault::Path { pointer, matched_prefix, kind, did_you_mean } => pointer == canonical(p)
            && exists|walk: Seq<Seg>|
            #[trigger] reports_end(t, p, walk, matched_prefix, kind, did_you_mean),
        _ => false,
    }
}

proof fn lemma_walk_reports(t: Tree, p: Seq<Seg>, k: int, at: Tree, taken: Seq<Seg>)
    requires
        0 <= k <= p.len(),
        taken.len() == k,
        understood(p.subrange(0, k), taken),
        node_below(t, p.subrange(0, k)) == Some(at),
        walked(at, p.subrange(k, p.len() as int), taken, p) is Err,
    ensures
        walked(at, p.subrange(k, p.len() as int), taken, p) matches Err(f) && is_reported(t, p, f),
    decreases p.len() - k,
{
    let rest = p.subrange(k, p.len() as int);
    assert(rest.len() > 0);
    assert(rest[0] == p[k]);
    match step(at, rest[0]) {
        Ok((seg, child)) => {
            assert(child_at(at, p[k]) == Some(child));
            assert(rest.subrange(1, rest.len() as int) =~= p.subrange(k + 1, p.len() as int));
            lemma_node_one_further(t, p, k, at, child);
            let longer = taken.push(seg);
            let front = p.subrange(0, k + 1);
            assert(front.drop_last() =~= p.subrange(0, k));
            assert(understood(front, longer)) by {
                assert forall|i: int| 0 <= i < front.len() implies #[trigger] longer[i] == front[i]
                    || (named_index(front[i]) matches Some(n) && longer[i] == Seg::Index(n)) by {
                    if i < k {
                        assert(p.subrange(0, k)[i] == front[i]);
                        assert(taken[i] == longer[i]);
                    }
                }
            }
            lemma_walk_reports(t, p, k + 1, child, longer);
            assert(walked(at, rest, taken, p) == walked(
                child,
                p.subrange(k + 1, p.len() as int),
                longer,
                p,
            ));
        },
        Err((kind, did_you_mean)) => {
            assert(child_at(at, p[k]) is None);
            let f = Fault::Path {
                pointer: canonical(p),
                matched_prefix: canonical(taken),
                kind,
                did_you_mean,
            };
            if let Fault::Path { pointer, matched_prefix, kind, did_you_mean } = f {
                assert(reports_end(t, p, taken, matched_prefix, kind, did_you_mean));
            }
            assert(is_reported(t, p, f));
            assert(walked(at, rest, taken, p) == Err::<Tree, Fault>(f));
        },
    }
}

proof fn lemma_node_one_further(t: Tree, p: Seq<Seg>, k: int, at: Tree, child: Tree)
    requires
        0 <= k < p.len(),
        node_below(t, p.subrange(0, k)) == Some(at),
        child_at(at, p[k]) == Some(child),
    ensures
        node_below(t, p.subrange(0, k + 1)) == Some(child),
    decreases k,
{
    let front = p.subrange(0, k + 1);
    let rest = front.subrange(1, k + 1);
    if k == 0 {
        assert(node_below(child, rest) == Some(child));
        assert(front[0] == p[0]);
    } else {
        let q = p.subrange(1, p.len() as int);
        let next = child_at(t, p[0])->Some_0;
        assert(p.subrange(0, k)[0] == p[0]);
        assert(p.subrange(0, k).subrange(1, k) =~= q.subrange(0, k - 1));
        lemma_node_one_further(next, q, k - 1, at, child);
        assert(rest =~= q.subrange(0, k));
        assert(front[0] == p[0]);
    }
}

/// A walk that finds nothing reports the whole path, how far it came, and what is
/// the matter there.
pub proof fn law_failed_walk_reports_its_end(t: Tree, p: Seq<Seg>)
    requires
        node_below(t, p) is None,
    ensures
        resolved(t, p) matches Err(f) && is_reported(t, p, f),
{
    crate::edit_laws::law_pointer_leads_from_child_to_child(t, p);
    assert(p.subrange(0, p.len() as int) =~= p);
    assert(p.subrange(0, 0) =~= Seq::<Seg>::empty());
    lemma_walk_reports(t, p, 0, t, Seq::empty());
}

/// Where a node comes from names the path of the node.
pub proof fn law_origin_names_its_path(entries: Seq<(Seq<char>, ValueSpan)>, key: Seq<char>)
    requires
        forall|i: int| 0 <= i < entries.len() ==> parsed_pointer((#[trigger] entries[i]).0) is Ok,
    ensures
        match lookup(provenance_of(entries), key) {
            Some(Origin::Original { pointer, inline_offset, .. }) => canonical(pointer) == key
                && inline_offset is None,
            Some(_) => false,
            None => true,
        },
    decreases entries.len(),
{
    if entries.len() > 0 {
        let front = entries.drop_last();
        law_origin_names_its_path(front, key);
        assert(parsed_pointer(entries[entries.len() - 1].0) is Ok);
        crate::pointer::law_canonical_parse(entries.last().0);
        crate::value::law_insert_lookup(
            provenance_of(front),
            entries.last().0,
            crate::document::span_origin(entries.last()),
            key,
        );
    }
}

/// What a document says of a node under its pointer is what was noted there: where
/// it comes from, its span, and where its own text starts.
pub proof fn law_node_has_what_was_noted(
    m: IrModel,
    p: Seq<Seg>,
    q: Seq<Seg>,
    span: Option<ValueSpan>,
    start: Option<InlineBaseline>,
)
    requires
        lookup(m.provenance, canonical(p)) == Some(
            Origin::Original { pointer: q, span, inline_offset: start },
        ),
    ensures
        m.origin(p) == Some(Origin::Original { pointer: q, span, inline_offset: start }),
        m.span(p) == span,
        origin_inline_offset(m.origin(p)) == start,
{
}

/// The span of a replaced value starts where it started, is as long as what was
/// written, and its lines grow or shrink with it.
pub proof fn law_replaced_span_grows_with_the_value(span: ValueSpan, new_len: nat)
    requires
        span.value_range.start <= span.value_range.end <= span.line_range.end,
        span.line_range.end + new_len <= usize::MAX,
    ensures
        ({
            let now = replaced_span(span, new_len);
            &&& now.value_range.start == span.value_range.start
            &&& now.value_range.end - now.value_range.start == new_len
            &&& now.line_range.start == span.line_range.start
            &&& now.line_range.end - now.value_range.end == span.line_range.end
                - span.value_range.end
            &&& now.indent == span.indent
            &&& now.context == span.context
        }),
{
}

} // verus!
