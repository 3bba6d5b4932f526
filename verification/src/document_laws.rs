//! What holds of every edit of a document.

use crate::document::{
    at_or_below, can_del, can_set, del_model, law_provenance_agrees_with_spans, range_fits,
    rendered, replaced_span, replacement_delta, set_model, spans_outside, spliced, DocModel,
};
use crate::error::Fault;
use crate::pointer::{canonical, Seg};
use crate::resolve::resolved;
use crate::spans::{law_moving_keeps_keys, moved_span, moved_spans, ValueSpan};
use crate::textual_edit::renderer_of;
use crate::tree_edit::{appends, deleted_in, law_set_then_resolve, set_in};
use crate::value::{
    has_key, key_index, law_insert_keeps_keys_unique, law_insert_lookup, lemma_key_index,
    unique_keys, Tree,
};
use vstd::prelude::*;

verus! {

/// A successful set changes no byte outside the span of the old value: what
/// stands before it and what stands behind it are kept.
pub proof fn law_set_keeps_other_bytes(m: DocModel, p: Seq<Seg>, v: Tree)
    requires
        can_set(m, p, v),
        set_model(m, p, v).1 is Ok,
    ensures
        ({
            let span = m.span(p)->Some_0;
            let after = set_model(m, p, v).0.bytes;
            let new = rendered(m, span, v);
            let start = span.value_range.start as int;
            let end = span.value_range.end as int;
            &&& after.subrange(0, start) == m.bytes.subrange(0, start)
            &&& after.subrange(start, start + new.len()) == new
            &&& after.subrange(start + new.len(), after.len() as int) == m.bytes.subrange(
                end,
                m.bytes.len() as int,
            )
        }),
{
    let span = m.span(p)->Some_0;
    let after = set_model(m, p, v).0.bytes;
    let new = rendered(m, span, v);
    let start = span.value_range.start as int;
    let end = span.value_range.end as int;
    assert(after == spliced(m.bytes, start, end, new));
    assert(after.subrange(0, start) =~= m.bytes.subrange(0, start));
    assert(after.subrange(start, start + new.len()) =~= new);
    assert(after.subrange(start + new.len(), after.len() as int) =~= m.bytes.subrange(
        end,
        m.bytes.len() as int,
    ));
}

/// A set that is refused leaves the document as it was. It is refused for want
/// of spans, of a renderer or of the pointer, and where the tree refuses it.
pub proof fn law_refused_set_changes_nothing(m: DocModel, p: Seq<Seg>, v: Tree)
    ensures
        set_model(m, p, v).1 is Err ==> set_model(m, p, v).0 == m,
        m.spans.len() == 0 || renderer_of(m.format) is None || m.span(p) is None || set_in(
            m.value,
            p,
            v,
        ).1 is Some <==> set_model(m, p, v).1 is Err,
{
}

/// A deletion that is refused leaves the document as it was. It is refused for
/// want of spans, at the root, for want of the pointer, and where the tree has no
/// such node.
pub proof fn law_refused_del_changes_nothing(m: DocModel, p: Seq<Seg>)
    ensures
        del_model(m, p).1 is Err ==> del_model(m, p).0 == m,
        m.spans.len() == 0 || p.len() == 0 || m.span(p) is None || deleted_in(m.value, p).1 is Some
            <==> del_model(m, p).1 is Err,
{
}

/// What has been set is read back, unless it was appended to an array.
pub proof fn law_set_is_read_back(m: DocModel, p: Seq<Seg>, v: Tree)
    requires
        set_model(m, p, v).1 is Ok,
        !appends(m.value, p),
    ensures
        resolved(set_model(m, p, v).0.value, p) == Ok::<Tree, Fault>(v),
{
    law_set_then_resolve(m.value, p, v, Seq::empty(), p);
}

/// After a successful set the span of the value covers exactly the bytes that
/// were rendered for it.
pub proof fn law_set_span_covers_new_bytes(m: DocModel, p: Seq<Seg>, v: Tree)
    requires
        can_set(m, p, v),
        set_model(m, p, v).1 is Ok,
    ensures
        ({
            let after = set_model(m, p, v).0;
            let span = after.span(p)->Some_0;
            &&& after.span(p) is Some
            &&& range_fits(span.value_range, after.bytes.len())
            &&& after.bytes.subrange(span.value_range.start as int, span.value_range.end as int)
                == rendered(m, m.span(p)->Some_0, v)
        }),
{
    let span = m.span(p)->Some_0;
    let new = rendered(m, span, v);
    let moved = moved_spans(m.spans, replacement_delta(span, new.len()));
    law_insert_lookup(moved, canonical(p), replaced_span(span, new.len()), canonical(p));
    law_set_keeps_other_bytes(m, p, v);
}

/// After a successful set the span of any other value that did not overlap
/// the replaced one still covers the same bytes.
pub proof fn law_set_keeps_other_spans(m: DocModel, p: Seq<Seg>, v: Tree, q: Seq<Seg>)
    requires
        can_set(m, p, v),
        set_model(m, p, v).1 is Ok,
        canonical(q) != canonical(p),
        m.span(q) is Some,
        range_fits(m.span(q)->Some_0.value_range, m.bytes.len()),
        m.span(q)->Some_0.value_range.end <= m.span(p)->Some_0.value_range.start
            || m.span(p)->Some_0.value_range.end <= m.span(q)->Some_0.value_range.start,
    ensures
        ({
            let after = set_model(m, p, v).0;
            let old_range = m.span(q)->Some_0.value_range;
            let new_range = after.span(q)->Some_0.value_range;
            &&& after.span(q) is Some
            &&& range_fits(new_range, after.bytes.len())
            &&& after.bytes.subrange(new_range.start as int, new_range.end as int)
                == m.bytes.subrange(old_range.start as int, old_range.end as int)
        }),
{
    let span = m.span(p)->Some_0;
    let other = m.span(q)->Some_0;
    let new = rendered(m, span, v);
    let delta = replacement_delta(span, new.len());
    let moved = moved_spans(m.spans, delta);
    law_moving_keeps_keys(m.spans, delta, canonical(q));
    law_insert_lookup(moved, canonical(p), replaced_span(span, new.len()), canonical(q));
    let after = set_model(m, p, v).0;
    let start = span.value_range.start as int;
    let end = span.value_range.end as int;
    assert(after.bytes == spliced(m.bytes, start, end, new));
    assert(after.span(q) == Some(moved_span(other, delta)));
    let range = moved_span(other, delta).value_range;
    assert(after.bytes.subrange(range.start as int, range.end as int) =~= m.bytes.subrange(
        other.value_range.start as int,
        other.value_range.end as int,
    ));
}

/// Dropping spans keeps the others, and their keys stay unique.
pub proof fn lemma_spans_outside(spans: Seq<(Seq<char>, ValueSpan)>, c: Seq<char>)
    ensures
        forall|i: int|
            0 <= i < spans_outside(spans, c).len() ==> !at_or_below(
                (#[trigger] spans_outside(spans, c)[i]).0,
                c,
            ) && spans.contains(spans_outside(spans, c)[i]),
        unique_keys(spans) ==> unique_keys(spans_outside(spans, c)),
    decreases spans.len(),
{
    if spans.len() > 0 {
        let front = spans.drop_last();
        let last = spans.last();
        lemma_spans_outside(front, c);
        let before = spans_outside(front, c);
        let after = spans_outside(spans, c);
        assert forall|i: int| 0 <= i < after.len() implies !at_or_below(
            (#[trigger] after[i]).0,
            c,
        ) && spans.contains(after[i]) by {
            if i < before.len() {
                assert(after[i] == before[i]);
                let w = choose|w: int| 0 <= w < front.len() && front[w] == before[i];
                assert(spans[w] == before[i]);
            } else {
                assert(spans[spans.len() - 1] == last);
            }
        }
        if unique_keys(spans) {
            assert forall|i: int, j: int| 0 <= i < j < front.len() implies (
            #[trigger] front[i]).0 != (#[trigger] front[j]).0 by {
                assert(spans[i].0 != spans[j].0);
            }
            assert forall|i: int, j: int| 0 <= i < j < after.len() implies (
            #[trigger] after[i]).0 != (#[trigger] after[j]).0 by {
                assert(after[i] == before[i]);
                if j < before.len() {
                    assert(after[j] == before[j]);
                } else {
                    let w = choose|w: int| 0 <= w < front.len() && front[w] == before[i];
                    assert(spans[w].0 != spans[spans.len() - 1].0);
                }
            }
        }
    }
}

/// After a successful deletion nothing at or below the pointer has a span.
pub proof fn law_del_drops_the_subtree(m: DocModel, p: Seq<Seg>, key: Seq<char>)
    requires
        del_model(m, p).1 is Ok,
        at_or_below(key, canonical(p)),
    ensures
        !has_key(del_model(m, p).0.spans, key),
{
    let c = canonical(p);
    let kept = spans_outside(m.spans, c);
    let after = del_model(m, p).0.spans;
    lemma_spans_outside(m.spans, c);
    lemma_key_index(after, key);
    if has_key(after, key) {
        let at = key_index(after, key);
        assert(after[at].0 == kept[at].0);
        assert(!at_or_below(kept[at].0, c));
    }
}

/// A successful deletion takes the lines of the value out and nothing else.
pub proof fn law_del_keeps_other_bytes(m: DocModel, p: Seq<Seg>)
    requires
        can_del(m, p),
        del_model(m, p).1 is Ok,
    ensures
        ({
            let lines = m.span(p)->Some_0.line_range;
            del_model(m, p).0.bytes == m.bytes.subrange(0, lines.start as int) + m.bytes.subrange(
                lines.end as int,
                m.bytes.len() as int,
            )
        }),
{
    let lines = m.span(p)->Some_0.line_range;
    assert(del_model(m, p).0.bytes =~= m.bytes.subrange(0, lines.start as int) + m.bytes.subrange(
        lines.end as int,
        m.bytes.len() as int,
    ));
}

/// Edits keep the keys of the span map unique.
pub proof fn law_edits_keep_keys_unique(m: DocModel, p: Seq<Seg>, v: Tree)
    requires
        unique_keys(m.spans),
    ensures
        unique_keys(set_model(m, p, v).0.spans),
        unique_keys(del_model(m, p).0.spans),
{
    if m.span(p) is Some {
        let span = m.span(p)->Some_0;
        let new = rendered(m, span, v);
        let delta = replacement_delta(span, new.len());
        let moved = moved_spans(m.spans, delta);
        law_moving_keeps_keys(m.spans, delta, canonical(p));
        law_insert_keeps_keys_unique(moved, canonical(p), replaced_span(span, new.len()));
        lemma_spans_outside(m.spans, canonical(p));
        law_moving_keeps_keys(
            spans_outside(m.spans, canonical(p)),
            crate::document::deletion_delta(span),
            canonical(p),
        );
    }
}

/// After a successful set the read-only view and the document give the same
/// span for every pointer.
pub proof fn law_view_agrees_after_set(m: DocModel, p: Seq<Seg>, v: Tree, q: Seq<Seg>)
    requires
        unique_keys(m.spans),
        set_model(m, p, v).1 is Ok,
    ensures
        set_model(m, p, v).0.ir().span(q) == set_model(m, p, v).0.span(q),
{
    law_edits_keep_keys_unique(m, p, v);
    law_provenance_agrees_with_spans(set_model(m, p, v).0.spans, canonical(q));
}

/// After a successful deletion the read-only view and the document give the
/// same span for every pointer.
pub proof fn law_view_agrees_after_del(m: DocModel, p: Seq<Seg>, q: Seq<Seg>)
    requires
        unique_keys(m.spans),
        del_model(m, p).1 is Ok,
    ensures
        del_model(m, p).0.ir().span(q) == del_model(m, p).0.span(q),
{
    law_edits_keep_keys_unique(m, p, Tree::Null);
    law_provenance_agrees_with_spans(del_model(m, p).0.spans, canonical(q));
}

} // verus!
