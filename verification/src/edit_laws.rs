//! What edits do to a tree, to positions and to spans.

use crate::document::{
    at_or_below, can_del, del_model, deletion_delta, range_fits, set_model, spans_outside, spliced,
    DocModel,
};
use crate::numbers::parsed_index;
use crate::parsers::source_lines::{blanks_from, indent_at, span_of};
use crate::pointer::{canonical, Seg};
use crate::position::{
    bytes_into_line, char_line_col, chars_into_line, line_col, line_end, line_start, newlines,
};
use crate::resolve::{resolved, step, walked};
use crate::spans::{
    law_moving_keeps_keys, moved_span, SpanContext, SpanRecomputeDelta, ValueSpan,
};
use crate::tree_edit::{deleted_in, deleted_item, set_in, set_item};
use crate::value::{
    has_key, key_index, law_insert_lookup, law_remove_lookup, lemma_key_index, lemma_key_index_is,
    lookup, removed, unique_keys, Tree,
};
use vstd::prelude::*;
use vstd::utf8::is_continuation_byte;

verus! {

// ---------------------------------------------------------------------------
// Reading
// ---------------------------------------------------------------------------

/// The position in an array that a segment names: an index, or a key that is
/// the digits of one.
pub open spec fn named_index(seg: Seg) -> Option<nat> {
    match seg {
        Seg::Index(i) => Some(i),
        Seg::Key(k) => match parsed_index(k) {
            Some(i) => Some(i as nat),
            None => None,
        },
    }
}

/// The child that a segment names: what an object holds under a key, and what an
/// array holds at a position.
pub open spec fn child_at(t: Tree, seg: Seg) -> Option<Tree> {
    match t {
        Tree::Object(entries) => match seg {
            Seg::Key(k) => lookup(entries, k),
            Seg::Index(_) => None,
        },
        Tree::Array(items) => match named_index(seg) {
            Some(i) => if i < items.len() {
                Some(items[i as int])
            } else {
                None
            },
            None => None,
        },
        _ => None,
    }
}

/// The node that segments lead to, one child after the other.
pub open spec fn node_below(t: Tree, p: Seq<Seg>) -> Option<Tree>
    decreases p.len(),
{
    if p.len() == 0 {
        Some(t)
    } else {
        match child_at(t, p[0]) {
            Some(child) => node_below(child, p.subrange(1, p.len() as int)),
            None => None,
        }
    }
}

/// A pointer leads from child to child, and to nothing where one is missing.
pub proof fn law_pointer_leads_from_child_to_child(t: Tree, p: Seq<Seg>)
    ensures
        match node_below(t, p) {
            Some(node) => resolved(t, p) matches Ok(found) && found == node,
            None => resolved(t, p) is Err,
        },
{
    lemma_walk(t, p, Seq::empty(), p);
}

proof fn lemma_walk(t: Tree, rest: Seq<Seg>, matched: Seq<Seg>, whole: Seq<Seg>)
    ensures
        match node_below(t, rest) {
            Some(node) => walked(t, rest, matched, whole) matches Ok(found) && found == node,
            None => walked(t, rest, matched, whole) is Err,
        },
    decreases rest.len(),
{
    if rest.len() > 0 {
        if let Ok((seg, child)) = step(t, rest[0]) {
            assert(child_at(t, rest[0]) == Some(child));
            lemma_walk(child, rest.subrange(1, rest.len() as int), matched.push(seg), whole);
        }
    }
}

// ---------------------------------------------------------------------------
// Taking out
// ---------------------------------------------------------------------------

/// Whether a tree is another one without the node that segments lead to: every
/// other key keeps its value, every item before a taken one keeps its place, and
/// those behind it move up by one.
pub open spec fn is_without(after: Tree, t: Tree, p: Seq<Seg>) -> bool
    decreases p.len(),
{
    if p.len() == 0 {
        false
    } else {
        let rest = p.subrange(1, p.len() as int);
        match t {
            Tree::Object(entries) => {
                &&& after matches Tree::Object(left)
                &&& p[0] matches Seg::Key(k)
                &&& has_key(entries, k)
                &&& forall|other: Seq<char>|
                    other != k ==> #[trigger] lookup(left, other) == lookup(entries, other)
                &&& if rest.len() == 0 {
                    lookup(left, k) is None && left.len() + 1 == entries.len()
                } else {
                    lookup(left, k) matches Some(child) && left.len() == entries.len()
                        && is_without(child, lookup(entries, k)->Some_0, rest)
                }
            },
            Tree::Array(items) => {
                &&& after matches Tree::Array(left)
                &&& named_index(p[0]) matches Some(i)
                &&& i < items.len()
                &&& forall|j: int| 0 <= j < i ==> #[trigger] left[j] == items[j]
                &&& if rest.len() == 0 {
                    &&& left.len() + 1 == items.len()
                    &&& forall|j: int| i <= j < left.len() ==> #[trigger] left[j] == items[j + 1]
                } else {
                    &&& left.len() == items.len()
                    &&& forall|j: int| i < j < left.len() ==> #[trigger] left[j] == items[j]
                    &&& is_without(left[i as int], items[i as int], rest)
                }
            },
            _ => false,
        }
    }
}

/// Whether no object on the way along segments has a key twice.
pub open spec fn keys_unique_along(t: Tree, p: Seq<Seg>) -> bool
    decreases p.len(),
{
    &&& t matches Tree::Object(entries) ==> unique_keys(entries)
    &&& p.len() > 0 ==> (child_at(t, p[0]) matches Some(child) ==> keys_unique_along(
        child,
        p.subrange(1, p.len() as int),
    ))
}

/// Taking a node out takes that node out and nothing else, and fails exactly
/// where there is no such node or it is the root.
pub proof fn law_taking_out_leaves_the_rest(t: Tree, p: Seq<Seg>)
    requires
        keys_unique_along(t, p),
    ensures
        deleted_in(t, p).1 is None <==> p.len() > 0 && node_below(t, p) is Some,
        deleted_in(t, p).1 is None ==> is_without(deleted_in(t, p).0, t, p),
    decreases p.len(), 1nat,
{
    if p.len() > 0 {
        let rest = p.subrange(1, p.len() as int);
        match t {
            Tree::Object(entries) => {
                if let Seg::Key(k) = p[0] {
                    if has_key(entries, k) {
                        let old = entries[key_index(entries, k)].1;
                        lemma_key_index(entries, k);
                        if rest.len() == 0 {
                            assert(node_below(old, rest) is Some);
                            assert forall|other: Seq<char>| other != k implies #[trigger] lookup(
                                removed(entries, k),
                                other,
                            ) == lookup(entries, other) by {
                                law_remove_lookup(entries, k, other);
                            }
                            law_remove_lookup(entries, k, k);
                        } else {
                            law_taking_out_leaves_the_rest(old, rest);
                            let below = deleted_in(old, rest).0;
                            let left = crate::value::inserted(entries, k, below);
                            assert forall|other: Seq<char>| other != k implies #[trigger] lookup(
                                left,
                                other,
                            ) == lookup(entries, other) by {
                                law_insert_lookup(entries, k, below, other);
                            }
                            law_insert_lookup(entries, k, below, k);
                        }
                    }
                }
            },
            Tree::Array(items) => {
                if let Seg::Key(k) = p[0] {
                    lemma_dash_is_no_index();
                }
                if let Some(i) = named_index(p[0]) {
                    assert(deleted_in(t, p) == deleted_item(items, i, rest));
                    if i < items.len() {
                        assert(child_at(t, p[0]) == Some(items[i as int]));
                        if rest.len() > 0 {
                            law_taking_out_leaves_the_rest(items[i as int], rest);
                        } else {
                            assert(node_below(items[i as int], rest) is Some);
                        }
                    }
                }
            },
            _ => {},
        }
    }
}

proof fn lemma_dash_is_no_index()
    ensures
        parsed_index("-"@) is None,
{
    reveal_strlit("-");
    assert("-"@[0] == '-');
    assert(!crate::numbers::is_digit("-"@[0]));
}

// ---------------------------------------------------------------------------
// Putting in
// ---------------------------------------------------------------------------

/// Whether a value can be put where segments lead: through objects always, a
/// missing one being made, through arrays only where there is such an item, and
/// at the end of one with a dash.
pub open spec fn has_room(t: Tree, p: Seq<Seg>) -> bool
    decreases p.len(),
{
    if p.len() == 0 {
        true
    } else {
        let rest = p.subrange(1, p.len() as int);
        match t {
            Tree::Object(entries) => p[0] matches Seg::Key(k) && has_room(
                match lookup(entries, k) {
                    Some(child) => child,
                    None => Tree::Object(Seq::empty()),
                },
                rest,
            ),
            Tree::Array(items) => if p[0] == Seg::Key("-"@) {
                rest.len() == 0
            } else {
                named_index(p[0]) matches Some(i) && i < items.len() && has_room(
                    items[i as int],
                    rest,
                )
            },
            _ => false,
        }
    }
}

/// Whether a tree is another one with a value where segments lead, and nothing
/// else changed.
pub open spec fn is_with(after: Tree, t: Tree, p: Seq<Seg>, v: Tree) -> bool
    decreases p.len(),
{
    if p.len() == 0 {
        after == v
    } else {
        let rest = p.subrange(1, p.len() as int);
        match t {
            Tree::Object(entries) => {
                &&& after matches Tree::Object(now)
                &&& p[0] matches Seg::Key(k)
                &&& forall|other: Seq<char>|
                    other != k ==> #[trigger] lookup(now, other) == lookup(entries, other)
                &&& lookup(now, k) matches Some(child)
                &&& is_with(
                    child,
                    match lookup(entries, k) {
                        Some(old) => old,
                        None => Tree::Object(Seq::empty()),
                    },
                    rest,
                    v,
                )
            },
            Tree::Array(items) => {
                &&& after matches Tree::Array(now)
                &&& if p[0] == Seg::Key("-"@) {
                    &&& rest.len() == 0
                    &&& now.len() == items.len() + 1
                    &&& forall|j: int| 0 <= j < items.len() ==> #[trigger] now[j] == items[j]
                    &&& now.last() == v
                } else {
                    &&& named_index(p[0]) matches Some(i)
                    &&& i < items.len()
                    &&& now.len() == items.len()
                    &&& forall|j: int|
                        0 <= j < items.len() && j != i ==> #[trigger] now[j] == items[j]
                    &&& is_with(now[i as int], items[i as int], rest, v)
                }
            },
            _ => false,
        }
    }
}

/// Putting a value in puts it there and changes nothing else, and succeeds
/// exactly where there is room for it.
pub proof fn law_putting_in_leaves_the_rest(t: Tree, p: Seq<Seg>, v: Tree)
    ensures
        set_in(t, p, v).1 is None <==> has_room(t, p),
        set_in(t, p, v).1 is None ==> is_with(set_in(t, p, v).0, t, p, v),
    decreases p.len(),
{
    if p.len() > 0 {
        let rest = p.subrange(1, p.len() as int);
        match t {
            Tree::Object(entries) => {
                if let Seg::Key(k) = p[0] {
                    let old = crate::tree_edit::child_or_new(entries, k);
                    law_putting_in_leaves_the_rest(old, rest, v);
                    let below = set_in(old, rest, v).0;
                    let now = crate::value::inserted(entries, k, below);
                    assert forall|other: Seq<char>| other != k implies #[trigger] lookup(now, other)
                        == lookup(entries, other) by {
                        law_insert_lookup(entries, k, below, other);
                    }
                    law_insert_lookup(entries, k, below, k);
                }
            },
            Tree::Array(items) => {
                lemma_dash_is_no_index();
                if let Some(i) = named_index(p[0]) {
                    assert(set_in(t, p, v) == set_item(items, i, rest, v));
                    if i < items.len() {
                        law_putting_in_leaves_the_rest(items[i as int], rest, v);
                    }
                }
            },
            _ => {},
        }
    }
}

// ---------------------------------------------------------------------------
// Positions
// ---------------------------------------------------------------------------

/// Lines and columns count from one. Behind a newline the next line starts, and
/// behind any other byte the column goes on by one.
pub proof fn law_line_and_column_count_on(bytes: Seq<u8>, k: int)
    requires
        0 <= k < bytes.len(),
        bytes.len() < u32::MAX,
    ensures
        line_col(bytes, 0) == (1int, 1int),
        bytes[k] == 10u8 ==> line_col(bytes, k + 1) == (line_col(bytes, k).0 + 1, 1int),
        bytes[k] != 10u8 ==> line_col(bytes, k + 1) == (
            line_col(bytes, k).0,
            line_col(bytes, k).1 + 1,
        ),
        line_col(bytes, bytes.len() + k) == line_col(bytes, bytes.len() as int),
{
    lemma_counts_fit(bytes, k);
    lemma_counts_fit(bytes, k + 1);
}

proof fn lemma_counts_fit(bytes: Seq<u8>, k: int)
    requires
        0 <= k <= bytes.len(),
    ensures
        newlines(bytes, k) <= k,
        bytes_into_line(bytes, k) <= k,
        chars_into_line(bytes, k) <= k,
    decreases k,
{
    if k > 0 {
        lemma_counts_fit(bytes, k - 1);
    }
}

/// Where columns are counted in characters, a byte inside a character does not
/// count.
pub proof fn law_columns_count_characters(bytes: Seq<u8>, k: int)
    requires
        0 <= k < bytes.len(),
        bytes.len() < u32::MAX,
    ensures
        char_line_col(bytes, 0) == (1int, 1int),
        bytes[k] == 10u8 ==> char_line_col(bytes, k + 1) == (
            char_line_col(bytes, k).0 + 1,
            1int,
        ),
        bytes[k] != 10u8 && !is_continuation_byte(bytes[k]) ==> char_line_col(bytes, k + 1) == (
            char_line_col(bytes, k).0,
            char_line_col(bytes, k).1 + 1,
        ),
        bytes[k] != 10u8 && is_continuation_byte(bytes[k]) ==> char_line_col(bytes, k + 1)
            == char_line_col(bytes, k),
{
    lemma_counts_fit(bytes, k);
    lemma_counts_fit(bytes, k + 1);
}

/// The line that holds a position goes from behind the newline before it, or the
/// start, to the newline behind it, or the end.
pub proof fn law_line_lies_between_newlines(bytes: Seq<u8>, k: int)
    requires
        0 <= k <= bytes.len(),
    ensures
        0 <= line_start(bytes, k) <= k <= line_end(bytes, k) <= bytes.len(),
        forall|i: int| line_start(bytes, k) <= i < line_end(bytes, k) ==> #[trigger] bytes[i]
            != 10u8,
        line_start(bytes, k) > 0 ==> bytes[line_start(bytes, k) - 1] == 10u8,
        line_end(bytes, k) < bytes.len() ==> bytes[line_end(bytes, k)] == 10u8,
{
    lemma_line_start(bytes, k);
    lemma_line_end(bytes, k);
}

proof fn lemma_line_start(bytes: Seq<u8>, k: int)
    requires
        0 <= k <= bytes.len(),
    ensures
        0 <= line_start(bytes, k) <= k,
        forall|i: int| line_start(bytes, k) <= i < k ==> #[trigger] bytes[i] != 10u8,
        line_start(bytes, k) > 0 ==> bytes[line_start(bytes, k) - 1] == 10u8,
    decreases k,
{
    if k > 0 && bytes[k - 1] != 10u8 {
        lemma_line_start(bytes, k - 1);
    }
}

proof fn lemma_line_end(bytes: Seq<u8>, k: int)
    requires
        0 <= k <= bytes.len(),
    ensures
        k <= line_end(bytes, k) <= bytes.len(),
        forall|i: int| k <= i < line_end(bytes, k) ==> #[trigger] bytes[i] != 10u8,
        line_end(bytes, k) < bytes.len() ==> bytes[line_end(bytes, k)] == 10u8,
    decreases bytes.len() - k,
{
    if k < bytes.len() && bytes[k] != 10u8 {
        lemma_line_end(bytes, k + 1);
    }
}

// ---------------------------------------------------------------------------
// Spans
// ---------------------------------------------------------------------------

/// A span that starts behind the edited bytes moves by as much as they grew or
/// shrank, and keeps its length, its indent and its context.
pub proof fn law_later_span_moves_along(span: ValueSpan, delta: SpanRecomputeDelta)
    requires
        span.value_range.start >= delta.at + delta.old_len,
        span.value_range.start <= span.value_range.end,
        delta.old_len <= span.line_range.start,
        delta.old_len <= span.line_range.end,
        span.value_range.end + delta.new_len <= usize::MAX,
        span.line_range.start + delta.new_len <= usize::MAX,
        span.line_range.end + delta.new_len <= usize::MAX,
    ensures
        ({
            let moved = moved_span(span, delta);
            let by = delta.new_len - delta.old_len;
            &&& moved.value_range.start - span.value_range.start == by
            &&& moved.value_range.end - span.value_range.end == by
            &&& moved.line_range.start - span.line_range.start == by
            &&& moved.line_range.end - span.line_range.end == by
            &&& moved.indent == span.indent
            &&& moved.context == span.context
        }),
{
}

proof fn lemma_blanks(bytes: Seq<u8>, k: int, stop: int)
    requires
        0 <= k <= stop <= bytes.len(),
    ensures
        ({
            let n = blanks_from(bytes, k, stop);
            &&& k + n <= stop
            &&& forall|i: int| k <= i < k + n ==> #[trigger] bytes[i] == 32u8 || bytes[i] == 9u8
            &&& k + n < stop ==> bytes[k + n] != 32u8 && bytes[k + n] != 9u8
        }),
    decreases stop - k,
{
    if k < stop && (bytes[k] == 32u8 || bytes[k] == 9u8) {
        lemma_blanks(bytes, k + 1, stop);
    }
}

/// The span of a value is the range it was given. Outside flow collections its
/// lines go from the start of the line that it starts on to behind the end of the
/// line that it ends on.
pub proof fn law_span_covers_whole_lines(
    bytes: Seq<u8>,
    start: int,
    end: int,
    indent: int,
    context: SpanContext,
)
    requires
        0 <= start <= end <= bytes.len() <= usize::MAX,
        0 <= indent <= u32::MAX,
    ensures
        ({
            let span = span_of(bytes, start, end, indent, context);
            let from = span.line_range.start as int;
            let to = span.line_range.end as int;
            &&& span.value_range.start == start && span.value_range.end == end
            &&& span.indent == indent && span.context == context
            &&& if context == SpanContext::FlowMapValue || context == SpanContext::FlowSeqItem {
                from == start && to == end
            } else {
                &&& 0 <= from <= start && end <= to <= bytes.len()
                &&& from == 0 || bytes[from - 1] == 10u8
                &&& forall|i: int| from <= i < start ==> #[trigger] bytes[i] != 10u8
                &&& forall|i: int| end <= i < to - 1 ==> #[trigger] bytes[i] != 10u8
                &&& to == bytes.len() || (to > end && bytes[to - 1] == 10u8)
            }
        }),
{
    lemma_line_start(bytes, start);
    lemma_line_end(bytes, end);
}

/// The indentation at a position is how many spaces and tabs its line starts with,
/// counted no further than the position.
pub proof fn law_indentation_counts_blanks(bytes: Seq<u8>, index: int)
    requires
        0 <= index <= bytes.len() < u32::MAX,
    ensures
        ({
            let from = line_start(bytes, index);
            let n = indent_at(bytes, index);
            &&& 0 <= n && from + n <= index
            &&& forall|i: int| from <= i < from + n ==> #[trigger] bytes[i] == 32u8 || bytes[i]
                == 9u8
            &&& from + n < index ==> bytes[from + n] != 32u8 && bytes[from + n] != 9u8
        }),
{
    lemma_line_start(bytes, index);
    lemma_blanks(bytes, line_start(bytes, index), index);
}

// ---------------------------------------------------------------------------
// Documents
// ---------------------------------------------------------------------------

/// An edit of a document edits its value: a set puts the value in and changes
/// nothing else of the tree, and a deletion takes the node out and leaves the
/// rest. What else a document says of itself stays.
pub proof fn law_document_edit_edits_the_value(m: DocModel, p: Seq<Seg>, v: Tree)
    requires
        keys_unique_along(m.value, p),
    ensures
        ({
            let set = set_model(m, p, v);
            let del = del_model(m, p);
            &&& set.1 is Ok ==> is_with(set.0.value, m.value, p, v)
            &&& set.1 is Ok ==> set.0.format == m.format && set.0.multi == m.multi && set.0.payload
                == m.payload
            &&& del.1 is Ok ==> is_without(del.0.value, m.value, p)
            &&& del.1 is Ok ==> del.0.format == m.format && del.0.multi == m.multi && del.0.payload
                == m.payload
        }),
{
    law_putting_in_leaves_the_rest(m.value, p, v);
    law_taking_out_leaves_the_rest(m.value, p);
}

proof fn lemma_outside_lookup(
    spans: Seq<(Seq<char>, ValueSpan)>,
    c: Seq<char>,
    key: Seq<char>,
)
    requires
        unique_keys(spans),
        !at_or_below(key, c),
    ensures
        lookup(spans_outside(spans, c), key) == lookup(spans, key),
    decreases spans.len(),
{
    if spans.len() > 0 {
        let front = spans.drop_last();
        let last = spans.last();
        assert(unique_keys(front)) by {
            assert forall|i: int, j: int| 0 <= i < j < front.len() implies (
            #[trigger] front[i]).0 != (#[trigger] front[j]).0 by {
                assert(spans[i].0 != spans[j].0);
            }
        }
        lemma_outside_lookup(front, c, key);
        let before = spans_outside(front, c);
        lemma_pushed_lookup(front, last, key);
        assert(front.push(last) =~= spans);
        if !at_or_below(last.0, c) {
            if last.0 == key {
                assert forall|i: int| 0 <= i < front.len() implies (#[trigger] front[i]).0
                    != key by {
                    assert(spans[i].0 != spans[spans.len() - 1].0);
                }
                lemma_key_index_is(front, key, front.len() as int);
                assert(lookup(front, key) is None);
            }
            lemma_pushed_lookup(before, last, key);
        }
    }
}

proof fn lemma_pushed_lookup(
    spans: Seq<(Seq<char>, ValueSpan)>,
    last: (Seq<char>, ValueSpan),
    key: Seq<char>,
)
    ensures
        lookup(spans.push(last), key) == (if lookup(spans, key) is Some {
            lookup(spans, key)
        } else if last.0 == key {
            Some(last.1)
        } else {
            None
        }),
{
    let longer = spans.push(last);
    lemma_key_index(spans, key);
    let at = key_index(spans, key);
    assert forall|i: int| 0 <= i < at implies (#[trigger] longer[i]).0 != key by {
        assert(longer[i] == spans[i]);
    }
    if at < spans.len() {
        assert(longer[at] == spans[at]);
        lemma_key_index_is(longer, key, at);
    } else if last.0 == key {
        lemma_key_index_is(longer, key, at);
    } else {
        assert forall|i: int| 0 <= i < longer.len() implies (#[trigger] longer[i]).0 != key by {
            if i < spans.len() {
                assert(longer[i] == spans[i]);
            }
        }
        lemma_key_index_is(longer, key, longer.len() as int);
    }
}

/// After a successful deletion the span of any other value outside the deleted
/// lines still covers the same bytes.
pub proof fn law_del_keeps_other_spans(m: DocModel, p: Seq<Seg>, q: Seq<Seg>)
    requires
        can_del(m, p),
        del_model(m, p).1 is Ok,
        unique_keys(m.spans),
        !at_or_below(canonical(q), canonical(p)),
        m.bytes.len() <= usize::MAX,
        m.span(q) is Some,
        range_fits(m.span(q)->Some_0.value_range, m.bytes.len()),
        m.span(q)->Some_0.value_range.end <= m.span(p)->Some_0.line_range.start
            || m.span(p)->Some_0.line_range.end <= m.span(q)->Some_0.value_range.start,
    ensures
        ({
            let after = del_model(m, p).0;
            let old_range = m.span(q)->Some_0.value_range;
            let new_range = after.span(q)->Some_0.value_range;
            &&& after.span(q) is Some
            &&& range_fits(new_range, after.bytes.len())
            &&& after.bytes.subrange(new_range.start as int, new_range.end as int)
                == m.bytes.subrange(old_range.start as int, old_range.end as int)
        }),
{
    let span = m.span(p)->Some_0;
    let other = m.span(q)->Some_0;
    let delta = deletion_delta(span);
    let kept = spans_outside(m.spans, canonical(p));
    lemma_outside_lookup(m.spans, canonical(p), canonical(q));
    law_moving_keeps_keys(kept, delta, canonical(q));
    let after = del_model(m, p).0;
    assert(after.span(q) == Some(moved_span(other, delta)));
    let start = span.line_range.start as int;
    let end = span.line_range.end as int;
    assert(after.bytes == spliced(m.bytes, start, end, Seq::empty()));
    let range = moved_span(other, delta).value_range;
    if other.value_range.end <= span.line_range.start && other.value_range.start
        >= delta.at + delta.old_len {
        assert(start == end);
    }
    assert(after.bytes.subrange(range.start as int, range.end as int) =~= m.bytes.subrange(
        other.value_range.start as int,
        other.value_range.end as int,
    ));
}

} // verus!
