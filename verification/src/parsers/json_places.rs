//! What a scalar of a written JSON text is replaced by.

use crate::document::spliced;
use crate::error::Fault;
use crate::numbers::{decimal, is_digit, lemma_decimal_value};
use crate::parsers::json_scan::{
    array_scanned, item_scanned, items_scanned, json_spans, key_scanned, member_scanned,
    members_scanned, object_scanned, value_scanned, SpanSeq,
};
use crate::parsers::json_spelling::{
    all_blank, behind, ends_at, is_reserved_key, is_spelled, item_parts, lemma_blank_break,
    lemma_close_scans, lemma_emits_whole, lemma_encode_two, lemma_first_byte, lemma_first_char,
    lemma_items_rest, lemma_items_whole, lemma_key_scans, lemma_member_scans, lemma_members_rest,
    lemma_members_whole, lemma_open_scans, lemma_skips, lemma_stands_two, lemma_stands_word,
    lemma_tail_starts, lemma_value_scans, member_part, member_parts, rest, spelling, stands,
};
use crate::parsers::json_write::{
    colon, json_compact, json_emitted, json_items, json_members, json_string, line_break,
    separator, spaces,
};
use crate::parsers::source_lines::{indent_at, path_text, span_of};
use crate::pointer::{
    canonical, escaped, law_unescape_escaped, lemma_canonical_front,
    lemma_canonical_starts_with_slash, lemma_escaped_has_no_slash, lemma_unescaped_plain,
    segment_text, Seg,
};
use crate::spans::{SpanContext, ValueSpan};
use crate::tree_edit::{set_in, set_item};
use crate::value::{
    has_key, inserted, lemma_key_index, lemma_key_index_is, lookup, unique_keys, Tree,
};
use vstd::prelude::*;
use vstd::utf8::{
    encode_utf8, encode_utf8_valid_utf8, is_ascii_chars, is_ascii_chars_encode_utf8,
};

verus! {

// ---------------------------------------------------------------------------
// Pointers
// ---------------------------------------------------------------------------

/// Whether a text is empty or starts a segment.
pub open spec fn starts_segment(x: Seq<char>) -> bool {
    x.len() > 0 ==> x[0] == '/'
}

/// Whether a text is a whole segment.
spec fn is_segment(x: Seq<char>) -> bool {
    forall|i: int| 0 <= i < x.len() ==> (#[trigger] x[i]) != '/'
}

proof fn lemma_segment_is_whole(seg: Seg)
    ensures
        is_segment(segment_text(seg)),
{
    match seg {
        Seg::Key(k) => {
            lemma_escaped_has_no_slash(k);
            assert forall|i: int| 0 <= i < escaped(k).len() implies (#[trigger] escaped(k)[i])
                != '/' by {
                assert(escaped(k).contains(escaped(k)[i]));
            }
        },
        Seg::Index(n) => {
            lemma_decimal_value(n);
            assert forall|i: int| 0 <= i < decimal(n).len() implies (#[trigger] decimal(n)[i])
                != '/' by {
                assert(is_digit(decimal(n)[i]));
            }
        },
    }
}

/// Where a segment ends is where the next one starts.
proof fn lemma_segments_part(a: Seq<char>, x: Seq<char>, b: Seq<char>, y: Seq<char>)
    requires
        a + x == b + y,
        is_segment(a),
        is_segment(b),
        starts_segment(x),
        starts_segment(y),
    ensures
        a == b,
        x == y,
{
    let w = a + x;
    if a.len() < b.len() {
        assert(w[a.len() as int] == b[a.len() as int]);
        assert(w[a.len() as int] == x[0]);
    } else if b.len() < a.len() {
        assert(w[b.len() as int] == a[b.len() as int]);
        assert(w[b.len() as int] == (b + y)[b.len() as int]);
        assert((b + y)[b.len() as int] == y[0]);
    } else {
        assert(a =~= w.subrange(0, a.len() as int));
        assert(b =~= (b + y).subrange(0, b.len() as int));
        assert(x =~= w.subrange(a.len() as int, w.len() as int));
        assert(y =~= (b + y).subrange(b.len() as int, (b + y).len() as int));
    }
}

/// A pointer to what stands below a segment starts with that segment.
proof fn lemma_pointer_below(base: Seq<char>, name: Seq<char>, tail: Seq<char>, q: Seq<Seg>)
    requires
        is_segment(name),
        starts_segment(tail),
        base + ("/"@ + name + tail) == base + canonical(q),
    ensures
        q.len() > 0,
        segment_text(q[0]) == name,
        canonical(q.subrange(1, q.len() as int)) == tail,
{
    reveal_strlit("/");
    let below = "/"@ + name + tail;
    let whole = base + below;
    assert(below =~= whole.subrange(base.len() as int, whole.len() as int));
    assert(canonical(q) =~= (base + canonical(q)).subrange(
        base.len() as int,
        (base + canonical(q)).len() as int,
    ));
    assert(canonical(q) == below);
    assert(below[0] == '/');
    if q.len() == 0 {
        assert(canonical(q).len() == 0);
    }
    lemma_canonical_front(q);
    let next = q.subrange(1, q.len() as int);
    if next.len() > 0 {
        lemma_canonical_starts_with_slash(next);
    }
    lemma_segment_is_whole(q[0]);
    assert(name + tail =~= below.subrange(1, below.len() as int));
    assert(segment_text(q[0]) + canonical(next) =~= canonical(q).subrange(
        1,
        canonical(q).len() as int,
    ));
    lemma_segments_part(segment_text(q[0]), canonical(next), name, tail);
}

// ---------------------------------------------------------------------------
// Texts of containers
// ---------------------------------------------------------------------------

/// What is written before item `i` of an array.
pub open spec fn before_item(
    items: Seq<Tree>,
    i: nat,
    pad: Seq<char>,
    pretty: bool,
    step: nat,
) -> Seq<char> {
    seq!['['] + json_items(items, i, pad, pretty, step).0 + separator(i, pad, pretty)
}

/// What is written of the items behind item `i`, up to item `k`.
spec fn behind_item(
    items: Seq<Tree>,
    i: nat,
    k: nat,
    pad: Seq<char>,
    pretty: bool,
    step: nat,
) -> Seq<char>
    decreases k,
{
    if k <= i + 1 {
        Seq::empty()
    } else {
        behind_item(items, i, (k - 1) as nat, pad, pretty, step) + separator(
            (k - 1) as nat,
            pad,
            pretty,
        ) + json_emitted(items[k - 1], pad, pretty, step).0
    }
}

/// What is written behind item `i` of an array.
spec fn closing_items(
    items: Seq<Tree>,
    i: nat,
    pad: Seq<char>,
    outer: Seq<char>,
    pretty: bool,
    step: nat,
) -> Seq<char> {
    behind_item(items, i, items.len(), pad, pretty, step) + (line_break(outer, pretty) + seq![']'])
}

proof fn lemma_same_items(
    a: Seq<Tree>,
    b: Seq<Tree>,
    k: nat,
    pad: Seq<char>,
    pretty: bool,
    step: nat,
)
    requires
        k <= a.len(),
        k <= b.len(),
        forall|j: int| 0 <= j < k ==> a[j] == #[trigger] b[j],
    ensures
        json_items(a, k, pad, pretty, step) == json_items(b, k, pad, pretty, step),
    decreases k,
{
    if k > 0 {
        lemma_same_items(a, b, (k - 1) as nat, pad, pretty, step);
        assert(a[k - 1] == b[k - 1]);
    }
}

/// The first `k` items with another one at `i`.
proof fn lemma_items_with(
    items: Seq<Tree>,
    i: nat,
    x: Tree,
    k: nat,
    depth: nat,
    pad: Seq<char>,
    pretty: bool,
    step: nat,
)
    requires
        i < k <= items.len(),
        forall|j: int| 0 <= j < items.len() ==> is_spelled(#[trigger] items[j], depth),
        is_spelled(x, depth),
    ensures
        json_items(items.update(i as int, x), k, pad, pretty, step) == (
            json_items(items, i, pad, pretty, step).0 + separator(i, pad, pretty) + json_emitted(
                x,
                pad,
                pretty,
                step,
            ).0 + behind_item(items, i, k, pad, pretty, step),
            true,
        ),
    decreases k,
{
    let with = items.update(i as int, x);
    let j = (k - 1) as nat;
    let head = json_items(items, i, pad, pretty, step).0 + separator(i, pad, pretty) + json_emitted(
        x,
        pad,
        pretty,
        step,
    ).0;
    lemma_emits_whole(x, depth, pad, pretty, step);
    if j == i {
        lemma_same_items(items, with, i, pad, pretty, step);
        lemma_items_whole(items, i, depth, pad, pretty, step);
        assert(behind_item(items, i, k, pad, pretty, step) =~= Seq::<char>::empty());
        assert(head + Seq::<char>::empty() =~= head);
    } else {
        lemma_items_with(items, i, x, j, depth, pad, pretty, step);
        assert(with[j as int] == items[j as int]);
        lemma_emits_whole(items[j as int], depth, pad, pretty, step);
        let tail = behind_item(items, i, j, pad, pretty, step);
        let item = json_emitted(items[j as int], pad, pretty, step).0;
        assert(head + tail + separator(j, pad, pretty) + item =~= head + (tail + separator(
            j,
            pad,
            pretty,
        ) + item));
    }
}

/// The text of an array with another item at `i`: what stands around it stays.
proof fn lemma_array_with(
    items: Seq<Tree>,
    i: nat,
    x: Tree,
    depth: nat,
    outer: Seq<char>,
    pretty: bool,
    step: nat,
)
    requires
        i < items.len(),
        forall|j: int| 0 <= j < items.len() ==> is_spelled(#[trigger] items[j], depth),
        is_spelled(x, depth),
    ensures
        ({
            let pad = outer + spaces(step);
            json_emitted(Tree::Array(items.update(i as int, x)), outer, pretty, step).0
                == before_item(items, i, pad, pretty, step) + json_emitted(x, pad, pretty, step).0
                + closing_items(items, i, pad, outer, pretty, step)
        }),
{
    let pad = outer + spaces(step);
    let with = items.update(i as int, x);
    let t = Tree::Array(with);
    assert(t->Array_0 == with);
    lemma_items_with(items, i, x, items.len(), depth, pad, pretty, step);
    let a = json_items(items, i, pad, pretty, step).0;
    let b = separator(i, pad, pretty);
    let c = json_emitted(x, pad, pretty, step).0;
    let d = behind_item(items, i, items.len(), pad, pretty, step);
    let e = line_break(outer, pretty);
    assert(seq!['['] + (a + b + c + d) + e + seq![']'] =~= (seq!['['] + a + b) + c + (d + (e
        + seq![']'])));
}

/// What is written before the value of member `i` of an object.
pub open spec fn before_member(
    entries: Seq<(Seq<char>, Tree)>,
    i: nat,
    pad: Seq<char>,
    pretty: bool,
    step: nat,
) -> Seq<char> {
    seq!['{'] + json_members(entries, i, pad, pretty, step).0 + separator(i, pad, pretty)
        + json_string(entries[i as int].0) + colon(pretty)
}

/// What is written of the members behind member `i`, up to member `k`.
spec fn behind_member(
    entries: Seq<(Seq<char>, Tree)>,
    i: nat,
    k: nat,
    pad: Seq<char>,
    pretty: bool,
    step: nat,
) -> Seq<char>
    decreases k,
{
    if k <= i + 1 {
        Seq::empty()
    } else {
        behind_member(entries, i, (k - 1) as nat, pad, pretty, step) + separator(
            (k - 1) as nat,
            pad,
            pretty,
        ) + json_string(entries[k - 1].0) + colon(pretty) + json_emitted(
            entries[k - 1].1,
            pad,
            pretty,
            step,
        ).0
    }
}

/// What is written behind the value of member `i` of an object.
spec fn closing_members(
    entries: Seq<(Seq<char>, Tree)>,
    i: nat,
    pad: Seq<char>,
    outer: Seq<char>,
    pretty: bool,
    step: nat,
) -> Seq<char> {
    behind_member(entries, i, entries.len(), pad, pretty, step) + (line_break(outer, pretty)
        + seq!['}'])
}

proof fn lemma_same_members(
    a: Seq<(Seq<char>, Tree)>,
    b: Seq<(Seq<char>, Tree)>,
    k: nat,
    pad: Seq<char>,
    pretty: bool,
    step: nat,
)
    requires
        k <= a.len(),
        k <= b.len(),
        forall|j: int| 0 <= j < k ==> a[j] == #[trigger] b[j],
    ensures
        json_members(a, k, pad, pretty, step) == json_members(b, k, pad, pretty, step),
    decreases k,
{
    if k > 0 {
        lemma_same_members(a, b, (k - 1) as nat, pad, pretty, step);
        assert(a[k - 1] == b[k - 1]);
    }
}

/// The first `k` members with another value for member `i`.
proof fn lemma_members_with(
    entries: Seq<(Seq<char>, Tree)>,
    i: nat,
    x: Tree,
    k: nat,
    depth: nat,
    pad: Seq<char>,
    pretty: bool,
    step: nat,
)
    requires
        i < k <= entries.len(),
        forall|j: int| 0 <= j < entries.len() ==> is_spelled((#[trigger] entries[j]).1, depth),
        is_spelled(x, depth),
    ensures
        json_members(entries.update(i as int, (entries[i as int].0, x)), k, pad, pretty, step) == (
            json_members(entries, i, pad, pretty, step).0 + separator(i, pad, pretty) + json_string(
                entries[i as int].0,
            ) + colon(pretty) + json_emitted(x, pad, pretty, step).0 + behind_member(
                entries,
                i,
                k,
                pad,
                pretty,
                step,
            ),
            true,
        ),
    decreases k,
{
    let with = entries.update(i as int, (entries[i as int].0, x));
    let j = (k - 1) as nat;
    let head = json_members(entries, i, pad, pretty, step).0 + separator(i, pad, pretty)
        + json_string(entries[i as int].0) + colon(pretty) + json_emitted(x, pad, pretty, step).0;
    lemma_emits_whole(x, depth, pad, pretty, step);
    if j == i {
        lemma_same_members(entries, with, i, pad, pretty, step);
        lemma_members_whole(entries, i, depth, pad, pretty, step);
        assert(behind_member(entries, i, k, pad, pretty, step) =~= Seq::<char>::empty());
        assert(head + Seq::<char>::empty() =~= head);
    } else {
        lemma_members_with(entries, i, x, j, depth, pad, pretty, step);
        assert(with[j as int] == entries[j as int]);
        lemma_emits_whole(entries[j as int].1, depth, pad, pretty, step);
        let tail = behind_member(entries, i, j, pad, pretty, step);
        let sep = separator(j, pad, pretty);
        let key = json_string(entries[j as int].0);
        let item = json_emitted(entries[j as int].1, pad, pretty, step).0;
        lemma_five_move(head, tail, sep, key, colon(pretty), item);
    }
}

proof fn lemma_five_move(
    head: Seq<char>,
    a: Seq<char>,
    b: Seq<char>,
    c: Seq<char>,
    d: Seq<char>,
    e: Seq<char>,
)
    ensures
        head + a + b + c + d + e == head + (a + b + c + d + e),
{
    assert(head + a + b + c + d + e =~= head + (a + b + c + d + e));
}

proof fn lemma_braces_move(
    a: Seq<char>,
    b: Seq<char>,
    c: Seq<char>,
    d: Seq<char>,
    x: Seq<char>,
    tail: Seq<char>,
    end: Seq<char>,
)
    ensures
        seq!['{'] + (a + b + c + d + x + tail) + end + seq!['}'] == (seq!['{'] + a + b + c + d) + x
            + (tail + (end + seq!['}'])),
{
    assert(seq!['{'] + (a + b + c + d + x + tail) + end + seq!['}'] =~= (seq!['{'] + a + b + c + d)
        + x + (tail + (end + seq!['}'])));
}

/// The text of an object with another value for member `i`: what stands around
/// it stays.
proof fn lemma_object_with(
    entries: Seq<(Seq<char>, Tree)>,
    i: nat,
    x: Tree,
    depth: nat,
    outer: Seq<char>,
    pretty: bool,
    step: nat,
)
    requires
        i < entries.len(),
        forall|j: int| 0 <= j < entries.len() ==> is_spelled((#[trigger] entries[j]).1, depth),
        is_spelled(x, depth),
    ensures
        ({
            let pad = outer + spaces(step);
            let with = entries.update(i as int, (entries[i as int].0, x));
            json_emitted(Tree::Object(with), outer, pretty, step).0 == before_member(
                entries,
                i,
                pad,
                pretty,
                step,
            ) + json_emitted(x, pad, pretty, step).0 + closing_members(
                entries,
                i,
                pad,
                outer,
                pretty,
                step,
            )
        }),
{
    let pad = outer + spaces(step);
    let with = entries.update(i as int, (entries[i as int].0, x));
    let t = Tree::Object(with);
    assert(t->Object_0 == with);
    lemma_members_with(entries, i, x, entries.len(), depth, pad, pretty, step);
    lemma_braces_move(
        json_members(entries, i, pad, pretty, step).0,
        separator(i, pad, pretty),
        json_string(entries[i as int].0),
        colon(pretty),
        json_emitted(x, pad, pretty, step).0,
        behind_member(entries, i, entries.len(), pad, pretty, step),
        line_break(outer, pretty),
    );
}

// ---------------------------------------------------------------------------
// Edits of one place
// ---------------------------------------------------------------------------

/// Whether a recorded place is one at which a value can be edited in its text:
/// with `t` written from `s` to `e` and `base` pointing at it, a scalar that is
/// put there in the bytes is put there in `t`.
pub open spec fn edits_to(
    bytes: Seq<u8>,
    s: int,
    e: int,
    t: Tree,
    depth: nat,
    pad: Seq<char>,
    pretty: bool,
    step: nat,
    base: Seq<char>,
    place: (Seq<char>, ValueSpan),
) -> bool {
    &&& base.len() <= place.0.len()
    &&& place.0.subrange(0, base.len() as int) == base
    &&& starts_segment(place.0.subrange(base.len() as int, place.0.len() as int))
    &&& forall|q: Seq<Seg>, v: Tree|
        place.0 == base + canonical(q) && is_spelled(v, 0) && (#[trigger] set_in(t, q, v)).1 is None
            ==> is_spelled(set_in(t, q, v).0, depth) && spliced(
            bytes,
            place.1.value_range.start as int,
            place.1.value_range.end as int,
            encode_utf8(json_compact(v).0),
        ) == bytes.subrange(0, s) + encode_utf8(
            json_emitted(set_in(t, q, v).0, pad, pretty, step).0,
        ) + bytes.subrange(e, bytes.len() as int)
}

/// A window into a text that stands in the bytes, with another text in it.
proof fn lemma_window(
    bytes: Seq<u8>,
    s: int,
    a: Seq<char>,
    old: Seq<char>,
    z: Seq<char>,
    new: Seq<char>,
)
    requires
        stands(bytes, s, a + old + z),
    ensures
        ({
            let from = behind(s, a);
            let to = behind(from, old);
            let e = behind(s, a + old + z);
            &&& 0 <= s <= from <= to <= e <= bytes.len()
            &&& bytes.subrange(0, from) + encode_utf8(new) + bytes.subrange(
                to,
                bytes.len() as int,
            ) == bytes.subrange(0, s) + encode_utf8(a + new + z) + bytes.subrange(
                e,
                bytes.len() as int,
            )
        }),
{
    let n = bytes.len() as int;
    let from = behind(s, a);
    let to = behind(from, old);
    let e = behind(s, a + old + z);
    lemma_stands_two(bytes, s, a + old, z);
    lemma_stands_two(bytes, s, a, old);
    lemma_encode_two(a + old, z);
    lemma_encode_two(a, old);
    lemma_encode_two(a + new, z);
    lemma_encode_two(a, new);
    assert(bytes.subrange(0, from) =~= bytes.subrange(0, s) + bytes.subrange(s, from));
    assert(bytes.subrange(to, n) =~= bytes.subrange(to, e) + bytes.subrange(e, n));
    assert(bytes.subrange(s, from) == encode_utf8(a));
    assert(bytes.subrange(to, e) == encode_utf8(z));
    assert(bytes.subrange(0, from) + encode_utf8(new) + bytes.subrange(to, n) =~= bytes.subrange(
        0,
        s,
    ) + (encode_utf8(a) + encode_utf8(new) + encode_utf8(z)) + bytes.subrange(e, n));
}

/// The segment of a place below an item.
proof fn lemma_place_below(base: Seq<char>, name: Seq<char>, key: Seq<char>)
    requires
        (base + "/"@ + name).len() <= key.len(),
        key.subrange(0, (base + "/"@ + name).len() as int) == base + "/"@ + name,
        starts_segment(key.subrange((base + "/"@ + name).len() as int, key.len() as int)),
    ensures
        ({
            let tail = key.subrange((base + "/"@ + name).len() as int, key.len() as int);
            &&& key == base + ("/"@ + name + tail)
            &&& key == base + "/"@ + name + tail
        }),
        base.len() <= key.len(),
        key.subrange(0, base.len() as int) == base,
        starts_segment(key.subrange(base.len() as int, key.len() as int)),
{
    reveal_strlit("/");
    let front = base + "/"@ + name;
    let tail = key.subrange(front.len() as int, key.len() as int);
    assert(key =~= front + tail);
    assert(key =~= base + ("/"@ + name + tail));
    assert(key.subrange(0, base.len() as int) =~= base);
    assert(key.subrange(base.len() as int, key.len() as int) =~= "/"@ + name + tail);
}

/// An item is where an index points that is written as its position.
proof fn lemma_set_at_item(items: Seq<Tree>, i: nat, q: Seq<Seg>, v: Tree)
    requires
        i < items.len(),
        q.len() > 0,
        segment_text(q[0]) == decimal(i),
        set_in(Tree::Array(items), q, v).1 is None,
    ensures
        set_in(Tree::Array(items), q, v) == set_item(items, i, q.subrange(1, q.len() as int), v),
{
    let t = Tree::Array(items);
    assert(t->Array_0 == items);
    lemma_decimal_value(i);
    match q[0] {
        Seg::Index(j) => {
            lemma_decimal_value(j);
        },
        Seg::Key(k) => {
            let d = decimal(i);
            assert forall|j: int| 0 <= j < d.len() implies d[j] != '~' by {
                assert(is_digit(d[j]));
            }
            lemma_unescaped_plain(d);
            law_unescape_escaped(k);
            assert(k == d);
            assert(is_digit(d[0]));
            assert(k != "-"@) by {
                reveal_strlit("-");
            }
            assert(d[0] != '+');
        },
    }
}

/// What edits an item edits the array.
proof fn lemma_item_edits(
    items: Seq<Tree>,
    i: nat,
    depth: nat,
    bytes: Seq<u8>,
    s: int,
    outer: Seq<char>,
    pretty: bool,
    step: nat,
    base: Seq<char>,
    place: (Seq<char>, ValueSpan),
)
    requires
        i < items.len(),
        is_spelled(Tree::Array(items), depth),
        stands(bytes, s, json_emitted(Tree::Array(items), outer, pretty, step).0),
        ({
            let pad = outer + spaces(step);
            let from = behind(s, before_item(items, i, pad, pretty, step));
            let to = behind(from, json_emitted(items[i as int], pad, pretty, step).0);
            edits_to(
                bytes,
                from,
                to,
                items[i as int],
                (depth - 1) as nat,
                pad,
                pretty,
                step,
                base + "/"@ + decimal(i),
                place,
            )
        }),
    ensures
        edits_to(
            bytes,
            s,
            behind(s, json_emitted(Tree::Array(items), outer, pretty, step).0),
            Tree::Array(items),
            depth,
            outer,
            pretty,
            step,
            base,
            place,
        ),
{
    let t = Tree::Array(items);
    assert(t->Array_0 == items);
    let pad = outer + spaces(step);
    let below = (depth - 1) as nat;
    let a = before_item(items, i, pad, pretty, step);
    let z = closing_items(items, i, pad, outer, pretty, step);
    let old = json_emitted(items[i as int], pad, pretty, step).0;
    assert(items.update(i as int, items[i as int]) =~= items);
    lemma_array_with(items, i, items[i as int], below, outer, pretty, step);
    lemma_segment_is_whole(Seg::Index(i));
    lemma_place_below(base, decimal(i), place.0);
    let tail = place.0.subrange((base + "/"@ + decimal(i)).len() as int, place.0.len() as int);
    assert forall|q: Seq<Seg>, v: Tree|
        place.0 == base + canonical(q) && is_spelled(v, 0) && (#[trigger] set_in(t, q, v)).1 is None
        implies is_spelled(set_in(t, q, v).0, depth) && spliced(
        bytes,
        place.1.value_range.start as int,
        place.1.value_range.end as int,
        encode_utf8(json_compact(v).0),
    ) == bytes.subrange(0, s) + encode_utf8(
        json_emitted(set_in(t, q, v).0, outer, pretty, step).0,
    ) + bytes.subrange(
        behind(s, json_emitted(t, outer, pretty, step).0),
        bytes.len() as int,
    ) by {
        lemma_pointer_below(base, decimal(i), tail, q);
        let next = q.subrange(1, q.len() as int);
        lemma_set_at_item(items, i, q, v);
        let x = set_in(items[i as int], next, v).0;
        assert(place.0 == base + "/"@ + decimal(i) + canonical(next));
        assert(is_spelled(x, below));
        let with = Tree::Array(items.update(i as int, x));
        assert(with->Array_0 == items.update(i as int, x));
        lemma_array_with(items, i, x, below, outer, pretty, step);
        lemma_window(bytes, s, a, old, z, json_emitted(x, pad, pretty, step).0);
    }
}

/// A member is where a key points that is its own.
proof fn lemma_set_at_member(entries: Seq<(Seq<char>, Tree)>, i: nat, q: Seq<Seg>, v: Tree)
    requires
        i < entries.len(),
        unique_keys(entries),
        q.len() > 0,
        segment_text(q[0]) == escaped(entries[i as int].0),
        set_in(Tree::Object(entries), q, v).1 is None,
    ensures
        ({
            let below = set_in(entries[i as int].1, q.subrange(1, q.len() as int), v);
            set_in(Tree::Object(entries), q, v) == (
                Tree::Object(entries.update(i as int, (entries[i as int].0, below.0))),
                below.1,
            )
        }),
{
    let t = Tree::Object(entries);
    assert(t->Object_0 == entries);
    let key = entries[i as int].0;
    match q[0] {
        Seg::Key(k) => {
            law_unescape_escaped(k);
            law_unescape_escaped(key);
            assert(k == key);
            lemma_key_index_is(entries, key, i as int);
            assert(has_key(entries, key)) by {
                lemma_key_index(entries, key);
            }
            assert(lookup(entries, key) == Some(entries[i as int].1));
        },
        Seg::Index(_) => {},
    }
}

/// What edits the value of a member edits the object.
proof fn lemma_member_edits(
    entries: Seq<(Seq<char>, Tree)>,
    i: nat,
    depth: nat,
    bytes: Seq<u8>,
    s: int,
    outer: Seq<char>,
    pretty: bool,
    step: nat,
    base: Seq<char>,
    place: (Seq<char>, ValueSpan),
)
    requires
        i < entries.len(),
        is_spelled(Tree::Object(entries), depth),
        stands(bytes, s, json_emitted(Tree::Object(entries), outer, pretty, step).0),
        ({
            let pad = outer + spaces(step);
            let from = behind(s, before_member(entries, i, pad, pretty, step));
            let to = behind(from, json_emitted(entries[i as int].1, pad, pretty, step).0);
            edits_to(
                bytes,
                from,
                to,
                entries[i as int].1,
                (depth - 1) as nat,
                pad,
                pretty,
                step,
                base + "/"@ + escaped(entries[i as int].0),
                place,
            )
        }),
    ensures
        edits_to(
            bytes,
            s,
            behind(s, json_emitted(Tree::Object(entries), outer, pretty, step).0),
            Tree::Object(entries),
            depth,
            outer,
            pretty,
            step,
            base,
            place,
        ),
{
    let t = Tree::Object(entries);
    assert(t->Object_0 == entries);
    let pad = outer + spaces(step);
    let below = (depth - 1) as nat;
    let (key, value) = entries[i as int];
    let a = before_member(entries, i, pad, pretty, step);
    let z = closing_members(entries, i, pad, outer, pretty, step);
    let old = json_emitted(value, pad, pretty, step).0;
    assert(entries.update(i as int, (key, value)) =~= entries);
    lemma_object_with(entries, i, value, below, outer, pretty, step);
    lemma_segment_is_whole(Seg::Key(key));
    lemma_place_below(base, escaped(key), place.0);
    let tail = place.0.subrange((base + "/"@ + escaped(key)).len() as int, place.0.len() as int);
    assert forall|q: Seq<Seg>, v: Tree|
        place.0 == base + canonical(q) && is_spelled(v, 0) && (#[trigger] set_in(t, q, v)).1 is None
        implies is_spelled(set_in(t, q, v).0, depth) && spliced(
        bytes,
        place.1.value_range.start as int,
        place.1.value_range.end as int,
        encode_utf8(json_compact(v).0),
    ) == bytes.subrange(0, s) + encode_utf8(
        json_emitted(set_in(t, q, v).0, outer, pretty, step).0,
    ) + bytes.subrange(
        behind(s, json_emitted(t, outer, pretty, step).0),
        bytes.len() as int,
    ) by {
        lemma_pointer_below(base, escaped(key), tail, q);
        let next = q.subrange(1, q.len() as int);
        lemma_set_at_member(entries, i, q, v);
        let x = set_in(value, next, v).0;
        assert(place.0 == base + "/"@ + escaped(key) + canonical(next));
        assert(is_spelled(x, below));
        let with = entries.update(i as int, (key, x));
        let u = Tree::Object(with);
        assert(u->Object_0 == with);
        assert(unique_keys(with)) by {
            assert forall|j: int, k: int| 0 <= j < k < with.len() implies with[j].0 != with[k].0 by {
                assert(with[j].0 == entries[j].0 && with[k].0 == entries[k].0);
            }
        }
        assert forall|j: int| 0 <= j < with.len() implies !is_reserved_key((#[trigger] with[j]).0)
            && is_spelled(with[j].1, below) by {
            assert(with[j].0 == entries[j].0);
            assert(is_spelled(entries[j].1, below));
        }
        lemma_object_with(entries, i, x, below, outer, pretty, step);
        lemma_window(bytes, s, a, old, z, json_emitted(x, pad, pretty, step).0);
    }
}

// ---------------------------------------------------------------------------
// The places that are recorded
// ---------------------------------------------------------------------------

/// Whether every recorded place is one of `before`, or one at which `t` can be
/// edited in its text.
pub open spec fn all_edit(
    bytes: Seq<u8>,
    s: int,
    e: int,
    t: Tree,
    depth: nat,
    pad: Seq<char>,
    pretty: bool,
    step: nat,
    base: Seq<char>,
    before: SpanSeq,
    after: SpanSeq,
) -> bool {
    forall|j: int|
        0 <= j < after.len() ==> before.contains(#[trigger] after[j]) || edits_to(
            bytes,
            s,
            e,
            t,
            depth,
            pad,
            pretty,
            step,
            base,
            after[j],
        )
}

proof fn lemma_scalar_edits(
    t: Tree,
    depth: nat,
    bytes: Seq<u8>,
    s: int,
    pad: Seq<char>,
    pretty: bool,
    step: nat,
    base: Seq<char>,
    span: ValueSpan,
)
    requires
        is_spelled(t, depth),
        !(t is Array),
        !(t is Object),
        stands(bytes, s, json_emitted(t, pad, pretty, step).0),
        span.value_range.start == s,
        span.value_range.end == behind(s, json_emitted(t, pad, pretty, step).0),
    ensures
        edits_to(
            bytes,
            s,
            behind(s, json_emitted(t, pad, pretty, step).0),
            t,
            depth,
            pad,
            pretty,
            step,
            base,
            (base, span),
        ),
{
    assert(base.subrange(0, base.len() as int) =~= base);
    assert forall|q: Seq<Seg>, v: Tree|
        base == base + canonical(q) && is_spelled(v, 0) && (#[trigger] set_in(t, q, v)).1 is None
        implies is_spelled(set_in(t, q, v).0, depth) && json_emitted(
        set_in(t, q, v).0,
        pad,
        pretty,
        step,
    ) == json_compact(v) by {
        assert((base + canonical(q)).len() == base.len() + canonical(q).len());
        if q.len() > 0 {
            lemma_canonical_starts_with_slash(q);
        }
    }
}

/// The places of a value that stands in the bytes are those at which it can be
/// edited.
#[verifier::spinoff_prover]
pub proof fn lemma_value_places(
    t: Tree,
    depth: nat,
    bytes: Seq<u8>,
    pos: int,
    lead: Seq<char>,
    pad: Seq<char>,
    pretty: bool,
    step: nat,
    path: Seq<Seq<char>>,
    spans: SpanSeq,
    context: SpanContext,
)
    requires
        bytes.len() <= usize::MAX,
        is_spelled(t, depth),
        all_blank(lead),
        all_blank(pad),
        stands(bytes, pos, lead + json_emitted(t, pad, pretty, step).0),
        ends_at(bytes, behind(pos, lead + json_emitted(t, pad, pretty, step).0)),
    ensures
        value_scanned(bytes, pos, path, spans, context) matches Ok((_, more)) && all_edit(
            bytes,
            behind(pos, lead),
            behind(pos, lead + json_emitted(t, pad, pretty, step).0),
            t,
            depth,
            pad,
            pretty,
            step,
            path_text(path),
            spans,
            more,
        ),
    decreases t, 0int,
{
    let w = json_emitted(t, pad, pretty, step).0;
    let p = behind(pos, lead);
    lemma_value_scans(t, depth, bytes, pos, lead, pad, pretty, step, path, spans, context);
    lemma_first_char(t, depth, pad, pretty, step);
    lemma_stands_two(bytes, pos, lead, w);
    lemma_first_byte(bytes, p, w);
    lemma_skips(bytes, pos, lead);
    let e = behind(p, w);
    match t {
        Tree::Array(items) => {
            lemma_opens(t, pad, pretty, step);
            lemma_array_places(items, depth, bytes, p, pad, pretty, step, path, spans);
        },
        Tree::Object(entries) => {
            lemma_opens(t, pad, pretty, step);
            lemma_object_places(entries, depth, bytes, p, pad, pretty, step, path, spans);
        },
        _ => {
            lemma_opens(t, pad, pretty, step);
            let more = value_scanned(bytes, pos, path, spans, context)->Ok_0.1;
            let span = span_of(bytes, p, e, indent_at(bytes, p), context);
            assert(more == inserted(spans, path_text(path), span));
            lemma_scalar_edits(t, depth, bytes, p, pad, pretty, step, path_text(path), span);
            lemma_one_more(spans, path_text(path), span);
        },
    }
}

/// A container starts with what opens it, and a scalar does not.
proof fn lemma_opens(t: Tree, pad: Seq<char>, pretty: bool, step: nat)
    requires
        exists|depth: nat| #[trigger] is_spelled(t, depth),
    ensures
        json_emitted(t, pad, pretty, step).0.len() > 0,
        t is Array <==> json_emitted(t, pad, pretty, step).0[0] == '[',
        t is Object <==> json_emitted(t, pad, pretty, step).0[0] == '{',
{
    let depth = choose|depth: nat| #[trigger] is_spelled(t, depth);
    lemma_first_char(t, depth, pad, pretty, step);
    reveal_strlit("null");
    reveal_strlit("true");
    reveal_strlit("false");
    reveal_strlit("[]");
    reveal_strlit("{}");
    match t {
        Tree::Int(n) => {
            if n < 0 {
                lemma_decimal_value((-n) as nat);
            } else {
                lemma_decimal_value(n as nat);
                assert(is_digit(decimal(n as nat)[0]));
            }
        },
        Tree::BigInt(s) => {
            if s[0] != '-' {
                assert(is_digit(s[0]));
            }
        },
        _ => {},
    }
}

/// Entries with one more are those before, and that one.
proof fn lemma_one_more(spans: SpanSeq, key: Seq<char>, span: ValueSpan)
    ensures
        forall|j: int|
            0 <= j < inserted(spans, key, span).len() ==> spans.contains(
                #[trigger] inserted(spans, key, span)[j],
            ) || inserted(spans, key, span)[j] == (key, span),
{
    lemma_key_index(spans, key);
    assert forall|j: int| 0 <= j < inserted(spans, key, span).len() implies spans.contains(
        #[trigger] inserted(spans, key, span)[j],
    ) || inserted(spans, key, span)[j] == (key, span) by {
        if inserted(spans, key, span)[j] != (key, span) {
            assert(inserted(spans, key, span)[j] == spans[j]);
        }
    }
}

proof fn lemma_array_places(
    items: Seq<Tree>,
    depth: nat,
    bytes: Seq<u8>,
    p: int,
    pad: Seq<char>,
    pretty: bool,
    step: nat,
    path: Seq<Seq<char>>,
    spans: SpanSeq,
)
    requires
        bytes.len() <= usize::MAX,
        is_spelled(Tree::Array(items), depth),
        all_blank(pad),
        stands(bytes, p, json_emitted(Tree::Array(items), pad, pretty, step).0),
    ensures
        array_scanned(bytes, p + 1, path, spans) matches Ok((_, more)) && all_edit(
            bytes,
            p,
            behind(p, json_emitted(Tree::Array(items), pad, pretty, step).0),
            Tree::Array(items),
            depth,
            pad,
            pretty,
            step,
            path_text(path),
            spans,
            more,
        ),
    decreases items, items.len() + 1,
{
    let t = Tree::Array(items);
    assert(t->Array_0 == items);
    let w = json_emitted(t, pad, pretty, step).0;
    if items.len() == 0 {
        reveal_strlit("[]");
        assert(is_ascii_chars(w));
        lemma_stands_word(bytes, p, w);
        assert(bytes[p + 1] == w[1] as u8);
        lemma_kept(spans);
    } else {
        let inner = pad + spaces(step);
        let n = items.len();
        let parts = item_parts(items, inner, pretty, step);
        lemma_items_whole(items, n, (depth - 1) as nat, inner, pretty, step);
        lemma_items_rest(items, n, (depth - 1) as nat, inner, pad, pretty, step);
        assert(w =~= seq!['['] + rest(parts, 0, inner, pad, pretty, ']'));
        let lead = line_break(inner, pretty);
        lemma_blank_break(inner, pretty);
        let body = parts[0] + rest(parts, 1, inner, pad, pretty, ']');
        assert(separator(0, inner, pretty) =~= lead);
        assert(w =~= seq!['['] + (lead + body));
        lemma_first_char(items[0], (depth - 1) as nat, inner, pretty, step);
        assert(body[0] == parts[0][0]);
        lemma_open_scans(bytes, p, '[', lead, body);
        let q = behind(p + 1, lead);
        assert(Seq::<char>::empty() + body =~= body);
        lemma_first_place(bytes, p, '[', lead);
        assert(before_item(items, 0, inner, pretty, step) =~= seq!['['] + lead);
        lemma_items_places(
            items,
            0,
            depth,
            bytes,
            p,
            q,
            Seq::empty(),
            pad,
            pretty,
            step,
            path,
            spans,
        );
    }
}

/// What was there before is kept.
proof fn lemma_kept(spans: SpanSeq)
    ensures
        forall|j: int| 0 <= j < spans.len() ==> spans.contains(#[trigger] spans[j]),
{
}

/// The first item stands behind what opens the container and a new line.
proof fn lemma_first_place(bytes: Seq<u8>, p: int, open: char, lead: Seq<char>)
    requires
        open == '[' || open == '{',
    ensures
        behind(p, seq![open] + lead) == behind(p + 1, lead),
        behind(behind(p + 1, lead), Seq::empty()) == behind(p + 1, lead),
{
    lemma_encode_two(seq![open], lead);
    assert(is_ascii_chars(seq![open]));
    is_ascii_chars_encode_utf8(seq![open]);
    assert(encode_utf8(Seq::<char>::empty()) =~= Seq::<u8>::empty());
}

/// Behind an item and a comma stands the next one.
proof fn lemma_next_place(s: int, a: Seq<char>, part: Seq<char>, next: Seq<char>)
    ensures
        behind(s, a + part + (seq![','] + next)) == behind(behind(behind(s, a), part) + 1, next),
{
    lemma_encode_two(a + part, seq![','] + next);
    lemma_encode_two(a, part);
    lemma_encode_two(seq![','], next);
    assert(is_ascii_chars(seq![',']));
    is_ascii_chars_encode_utf8(seq![',']);
}

proof fn lemma_items_places(
    items: Seq<Tree>,
    i: nat,
    depth: nat,
    bytes: Seq<u8>,
    s: int,
    pos: int,
    lead: Seq<char>,
    outer: Seq<char>,
    pretty: bool,
    step: nat,
    path: Seq<Seq<char>>,
    spans: SpanSeq,
)
    requires
        bytes.len() <= usize::MAX,
        i < items.len(),
        is_spelled(Tree::Array(items), depth),
        all_blank(lead),
        all_blank(outer),
        stands(bytes, s, json_emitted(Tree::Array(items), outer, pretty, step).0),
        ({
            let pad = outer + spaces(step);
            let parts = item_parts(items, pad, pretty, step);
            &&& stands(
                bytes,
                pos,
                lead + (parts[i as int] + rest(parts, i + 1, pad, outer, pretty, ']')),
            )
            &&& behind(pos, lead) == behind(s, before_item(items, i, pad, pretty, step))
        }),
    ensures
        items_scanned(bytes, pos, path, spans, i) matches Ok((_, more)) && all_edit(
            bytes,
            s,
            behind(s, json_emitted(Tree::Array(items), outer, pretty, step).0),
            Tree::Array(items),
            depth,
            outer,
            pretty,
            step,
            path_text(path),
            spans,
            more,
        ),
    decreases items, items.len() - i,
{
    let t = Tree::Array(items);
    assert(t->Array_0 == items);
    let below = (depth - 1) as nat;
    let pad = outer + spaces(step);
    let parts = item_parts(items, pad, pretty, step);
    let tail = rest(parts, i + 1, pad, outer, pretty, ']');
    let part = parts[i as int];
    let base = path_text(path);
    let e = behind(s, json_emitted(t, outer, pretty, step).0);
    assert(lead + (part + tail) =~= (lead + part) + tail);
    lemma_stands_two(bytes, pos, lead + part, tail);
    lemma_stands_two(bytes, pos, lead, part);
    let v = behind(pos, lead + part);
    lemma_tail_starts(bytes, v, parts, i + 1, pad, outer, pretty, ']');
    assert(decreases_to!(items => items[i as int]));
    let inside = path.push(decimal(i));
    assert(inside.drop_last() =~= path);
    lemma_value_scans(
        items[i as int],
        below,
        bytes,
        pos,
        lead,
        pad,
        pretty,
        step,
        inside,
        spans,
        SpanContext::BlockSeqItem,
    );
    lemma_value_places(
        items[i as int],
        below,
        bytes,
        pos,
        lead,
        pad,
        pretty,
        step,
        inside,
        spans,
        SpanContext::BlockSeqItem,
    );
    let more = value_scanned(bytes, pos, inside, spans, SpanContext::BlockSeqItem)->Ok_0.1;
    assert forall|j: int| 0 <= j < more.len() implies spans.contains(#[trigger] more[j])
        || edits_to(bytes, s, e, t, depth, outer, pretty, step, base, more[j]) by {
        if !spans.contains(more[j]) {
            lemma_item_edits(items, i, depth, bytes, s, outer, pretty, step, base, more[j]);
        }
    }
    if i + 1 < items.len() {
        let next = line_break(pad, pretty);
        let body = parts[(i + 1) as int] + rest(parts, i + 2, pad, outer, pretty, ']');
        lemma_blank_break(pad, pretty);
        assert(tail =~= seq![','] + (next + body));
        lemma_stands_two(bytes, v, seq![','], next + body);
        assert(is_ascii_chars(seq![',']));
        lemma_stands_word(bytes, v, seq![',']);
        assert(item_scanned(bytes, pos, path, spans, i) == Ok::<
            (int, SpanSeq, bool),
            Fault,
        >((v + 1, more, true)));
        let a = before_item(items, i, pad, pretty, step);
        lemma_items_whole(items, i, below, pad, pretty, step);
        assert(separator(i + 1, pad, pretty) =~= seq![','] + next);
        assert(json_items(items, i + 1, pad, pretty, step).0 == json_items(
            items,
            i,
            pad,
            pretty,
            step,
        ).0 + separator(i, pad, pretty) + part);
        assert(before_item(items, i + 1, pad, pretty, step) =~= a + part + (seq![','] + next));
        lemma_next_place(s, a, part, next);
        lemma_items_places(
            items,
            i + 1,
            depth,
            bytes,
            s,
            v + 1,
            next,
            outer,
            pretty,
            step,
            path,
            more,
        );
        let all = items_scanned(bytes, v + 1, path, more, i + 1)->Ok_0.1;
        lemma_chained(bytes, s, e, t, depth, outer, pretty, step, base, spans, more, all);
    } else {
        lemma_close_scans(bytes, v, outer, pretty, ']');
        let end = behind(v, tail);
        assert(item_scanned(bytes, pos, path, spans, i) == Ok::<
            (int, SpanSeq, bool),
            Fault,
        >((end, more, false)));
    }
}

/// Places of one part and those of the parts behind it.
proof fn lemma_chained(
    bytes: Seq<u8>,
    s: int,
    e: int,
    t: Tree,
    depth: nat,
    pad: Seq<char>,
    pretty: bool,
    step: nat,
    base: Seq<char>,
    a: SpanSeq,
    b: SpanSeq,
    c: SpanSeq,
)
    requires
        all_edit(bytes, s, e, t, depth, pad, pretty, step, base, a, b),
        all_edit(bytes, s, e, t, depth, pad, pretty, step, base, b, c),
    ensures
        all_edit(bytes, s, e, t, depth, pad, pretty, step, base, a, c),
{
    assert forall|j: int| 0 <= j < c.len() implies a.contains(#[trigger] c[j]) || edits_to(
        bytes,
        s,
        e,
        t,
        depth,
        pad,
        pretty,
        step,
        base,
        c[j],
    ) by {
        if b.contains(c[j]) {
            let k = choose|k: int| 0 <= k < b.len() && b[k] == c[j];
            assert(a.contains(b[k]) || edits_to(
                bytes,
                s,
                e,
                t,
                depth,
                pad,
                pretty,
                step,
                base,
                b[k],
            ));
        }
    }
}

proof fn lemma_object_places(
    entries: Seq<(Seq<char>, Tree)>,
    depth: nat,
    bytes: Seq<u8>,
    p: int,
    pad: Seq<char>,
    pretty: bool,
    step: nat,
    path: Seq<Seq<char>>,
    spans: SpanSeq,
)
    requires
        bytes.len() <= usize::MAX,
        is_spelled(Tree::Object(entries), depth),
        all_blank(pad),
        stands(bytes, p, json_emitted(Tree::Object(entries), pad, pretty, step).0),
    ensures
        object_scanned(bytes, p + 1, path, spans) matches Ok((_, more)) && all_edit(
            bytes,
            p,
            behind(p, json_emitted(Tree::Object(entries), pad, pretty, step).0),
            Tree::Object(entries),
            depth,
            pad,
            pretty,
            step,
            path_text(path),
            spans,
            more,
        ),
    decreases entries, entries.len() + 1,
{
    let t = Tree::Object(entries);
    assert(t->Object_0 == entries);
    let w = json_emitted(t, pad, pretty, step).0;
    if entries.len() == 0 {
        reveal_strlit("{}");
        assert(is_ascii_chars(w));
        lemma_stands_word(bytes, p, w);
        assert(bytes[p + 1] == w[1] as u8);
        lemma_kept(spans);
    } else {
        let inner = pad + spaces(step);
        let n = entries.len();
        let parts = member_parts(entries, inner, pretty, step);
        lemma_members_whole(entries, n, (depth - 1) as nat, inner, pretty, step);
        lemma_members_rest(entries, n, (depth - 1) as nat, inner, pad, pretty, step);
        assert(w =~= seq!['{'] + rest(parts, 0, inner, pad, pretty, '}'));
        let lead = line_break(inner, pretty);
        lemma_blank_break(inner, pretty);
        let body = parts[0] + rest(parts, 1, inner, pad, pretty, '}');
        assert(separator(0, inner, pretty) =~= lead);
        assert(w =~= seq!['{'] + (lead + body));
        assert(body[0] == '"');
        lemma_open_scans(bytes, p, '{', lead, body);
        let q = behind(p + 1, lead);
        assert(Seq::<char>::empty() + body =~= body);
        lemma_first_place(bytes, p, '{', lead);
        assert(head_of(entries, 0, inner, pretty, step) =~= seq!['{'] + lead);
        lemma_members_places(
            entries,
            0,
            depth,
            bytes,
            p,
            q,
            Seq::empty(),
            pad,
            pretty,
            step,
            path,
            spans,
        );
    }
}

/// What is written before member `i` of an object.
spec fn head_of(
    entries: Seq<(Seq<char>, Tree)>,
    i: nat,
    pad: Seq<char>,
    pretty: bool,
    step: nat,
) -> Seq<char> {
    seq!['{'] + json_members(entries, i, pad, pretty, step).0 + separator(i, pad, pretty)
}

/// What is written between the colon and the value of a member.
spec fn gap_of(pretty: bool) -> Seq<char> {
    if pretty {
        seq![' ']
    } else {
        Seq::empty()
    }
}

/// A member that stands in the bytes: its key is read, and its value stands
/// behind the colon.
proof fn lemma_member_stands(
    entry: (Seq<char>, Tree),
    bytes: Seq<u8>,
    pos: int,
    lead: Seq<char>,
    pad: Seq<char>,
    pretty: bool,
    step: nat,
)
    requires
        all_blank(lead),
        stands(bytes, pos, lead + member_part(entry, pad, pretty, step)),
    ensures
        ({
            let item = json_emitted(entry.1, pad, pretty, step).0;
            let gap = gap_of(pretty);
            let at = behind(pos, lead + json_string(entry.0));
            &&& key_scanned(bytes, pos) == Ok::<_, Fault>((entry.0, at + 1))
            &&& all_blank(gap)
            &&& stands(bytes, at + 1, gap + item)
            &&& behind(at + 1, gap + item) == behind(
                pos,
                lead + member_part(entry, pad, pretty, step),
            )
            &&& behind(at + 1, gap + item) == behind(behind(at + 1, gap), item)
            &&& at == behind(behind(pos, lead), json_string(entry.0))
        }),
{
    let (key, value) = entry;
    let item = json_emitted(value, pad, pretty, step).0;
    let gap = gap_of(pretty);
    let after = colon(pretty) + item;
    let at = behind(pos, lead + json_string(key));
    assert(after =~= seq![':'] + (gap + item));
    lemma_key_scans(bytes, pos, lead, key, after);
    lemma_stands_two(bytes, at, seq![':'], gap + item);
    assert(is_ascii_chars(seq![':']));
    lemma_stands_word(bytes, at, seq![':']);
    assert(lead + (json_string(key) + after) =~= (lead + json_string(key)) + after);
    lemma_encode_two(lead + json_string(key), after);
    lemma_encode_two(lead, json_string(key));
    lemma_stands_two(bytes, at + 1, gap, item);
}

/// The value of a member stands behind its key and a colon.
proof fn lemma_member_place(
    entries: Seq<(Seq<char>, Tree)>,
    i: nat,
    s: int,
    pad: Seq<char>,
    pretty: bool,
    step: nat,
)
    requires
        i < entries.len(),
    ensures
        ({
            let gap = gap_of(pretty);
            let at = behind(s, head_of(entries, i, pad, pretty, step));
            behind(s, before_member(entries, i, pad, pretty, step)) == behind(
                behind(at, json_string(entries[i as int].0)) + 1,
                gap,
            )
        }),
{
    let gap = gap_of(pretty);
    let head = head_of(entries, i, pad, pretty, step);
    let key = json_string(entries[i as int].0);
    lemma_encode_two(head + key, colon(pretty));
    lemma_encode_two(head, key);
    assert(colon(pretty) =~= seq![':'] + gap);
    lemma_encode_two(seq![':'], gap);
    assert(is_ascii_chars(seq![':']));
    is_ascii_chars_encode_utf8(seq![':']);
}

proof fn lemma_members_places(
    entries: Seq<(Seq<char>, Tree)>,
    i: nat,
    depth: nat,
    bytes: Seq<u8>,
    s: int,
    pos: int,
    lead: Seq<char>,
    outer: Seq<char>,
    pretty: bool,
    step: nat,
    path: Seq<Seq<char>>,
    spans: SpanSeq,
)
    requires
        bytes.len() <= usize::MAX,
        i < entries.len(),
        is_spelled(Tree::Object(entries), depth),
        all_blank(lead),
        all_blank(outer),
        stands(bytes, s, json_emitted(Tree::Object(entries), outer, pretty, step).0),
        ({
            let pad = outer + spaces(step);
            let parts = member_parts(entries, pad, pretty, step);
            &&& stands(
                bytes,
                pos,
                lead + (parts[i as int] + rest(parts, i + 1, pad, outer, pretty, '}')),
            )
            &&& behind(pos, lead) == behind(s, head_of(entries, i, pad, pretty, step))
        }),
    ensures
        members_scanned(bytes, pos, path, spans) matches Ok((_, more)) && all_edit(
            bytes,
            s,
            behind(s, json_emitted(Tree::Object(entries), outer, pretty, step).0),
            Tree::Object(entries),
            depth,
            outer,
            pretty,
            step,
            path_text(path),
            spans,
            more,
        ),
    decreases entries, entries.len() - i,
{
    let t = Tree::Object(entries);
    assert(t->Object_0 == entries);
    let below = (depth - 1) as nat;
    let pad = outer + spaces(step);
    let parts = member_parts(entries, pad, pretty, step);
    let tail = rest(parts, i + 1, pad, outer, pretty, '}');
    let entry = entries[i as int];
    let part = member_part(entry, pad, pretty, step);
    let base = path_text(path);
    let e = behind(s, json_emitted(t, outer, pretty, step).0);
    assert(parts[i as int] == part);
    assert(lead + (part + tail) =~= (lead + part) + tail);
    lemma_stands_two(bytes, pos, lead + part, tail);
    let v = behind(pos, lead + part);
    lemma_tail_starts(bytes, v, parts, i + 1, pad, outer, pretty, '}');
    assert(decreases_to!(entries => entries[i as int]));
    lemma_member_scans(entry, below, bytes, pos, lead, pad, pretty, step, path, spans);
    lemma_member_places(entries, i, depth, bytes, s, pos, lead, outer, pretty, step, path, spans);
    let q = key_scanned(bytes, pos)->Ok_0.1;
    let inside = path.push(escaped(entry.0));
    let more = value_scanned(bytes, q, inside, spans, SpanContext::BlockMapValue)->Ok_0.1;
    if i + 1 < entries.len() {
        let next = line_break(pad, pretty);
        let body = parts[(i + 1) as int] + rest(parts, i + 2, pad, outer, pretty, '}');
        lemma_blank_break(pad, pretty);
        assert(tail =~= seq![','] + (next + body));
        lemma_stands_two(bytes, v, seq![','], next + body);
        assert(is_ascii_chars(seq![',']));
        lemma_stands_word(bytes, v, seq![',']);
        assert(member_scanned(bytes, pos, path, spans) == Ok::<
            (int, SpanSeq, bool),
            Fault,
        >((v + 1, more, true)));
        let a = head_of(entries, i, pad, pretty, step);
        lemma_members_whole(entries, i, below, pad, pretty, step);
        assert(separator(i + 1, pad, pretty) =~= seq![','] + next);
        lemma_next_head(entries, i, pad, pretty, step);
        lemma_next_place(s, a, part, next);
        lemma_stands_two(bytes, pos, lead, part);
        lemma_members_places(
            entries,
            i + 1,
            depth,
            bytes,
            s,
            v + 1,
            next,
            outer,
            pretty,
            step,
            path,
            more,
        );
        let all = members_scanned(bytes, v + 1, path, more)->Ok_0.1;
        lemma_chained(bytes, s, e, t, depth, outer, pretty, step, base, spans, more, all);
    } else {
        lemma_close_scans(bytes, v, outer, pretty, '}');
        let end = behind(v, tail);
        assert(member_scanned(bytes, pos, path, spans) == Ok::<
            (int, SpanSeq, bool),
            Fault,
        >((end, more, false)));
    }
}

/// What is written before the next member.
proof fn lemma_next_head(
    entries: Seq<(Seq<char>, Tree)>,
    i: nat,
    pad: Seq<char>,
    pretty: bool,
    step: nat,
)
    requires
        i + 1 < entries.len(),
        json_members(entries, i, pad, pretty, step).1,
    ensures
        head_of(entries, i + 1, pad, pretty, step) == head_of(entries, i, pad, pretty, step)
            + member_part(entries[i as int], pad, pretty, step) + (seq![','] + line_break(
            pad,
            pretty,
        )),
{
    let before = json_members(entries, i, pad, pretty, step).0;
    let sep = separator(i, pad, pretty);
    let key = json_string(entries[i as int].0);
    let item = json_emitted(entries[i as int].1, pad, pretty, step).0;
    let next = seq![','] + line_break(pad, pretty);
    assert(separator(i + 1, pad, pretty) =~= next);
    assert(seq!['{'] + (before + sep + key + colon(pretty) + item) + next =~= (seq!['{'] + before
        + sep) + (key + (colon(pretty) + item)) + next);
}

/// The places of a member are those at which its object can be edited.
proof fn lemma_member_places(
    entries: Seq<(Seq<char>, Tree)>,
    i: nat,
    depth: nat,
    bytes: Seq<u8>,
    s: int,
    pos: int,
    lead: Seq<char>,
    outer: Seq<char>,
    pretty: bool,
    step: nat,
    path: Seq<Seq<char>>,
    spans: SpanSeq,
)
    requires
        bytes.len() <= usize::MAX,
        i < entries.len(),
        is_spelled(Tree::Object(entries), depth),
        all_blank(lead),
        all_blank(outer),
        stands(bytes, s, json_emitted(Tree::Object(entries), outer, pretty, step).0),
        ({
            let pad = outer + spaces(step);
            let part = member_part(entries[i as int], pad, pretty, step);
            &&& stands(bytes, pos, lead + part)
            &&& ends_at(bytes, behind(pos, lead + part))
            &&& behind(pos, lead) == behind(s, head_of(entries, i, pad, pretty, step))
        }),
    ensures
        ({
            let inside = path.push(escaped(entries[i as int].0));
            &&& key_scanned(bytes, pos) is Ok
            &&& value_scanned(
                bytes,
                key_scanned(bytes, pos)->Ok_0.1,
                inside,
                spans,
                SpanContext::BlockMapValue,
            ) matches Ok((_, more)) && all_edit(
                bytes,
                s,
                behind(s, json_emitted(Tree::Object(entries), outer, pretty, step).0),
                Tree::Object(entries),
                depth,
                outer,
                pretty,
                step,
                path_text(path),
                spans,
                more,
            )
        }),
    decreases entries[i as int], 1int,
{
    let t = Tree::Object(entries);
    assert(t->Object_0 == entries);
    let below = (depth - 1) as nat;
    let pad = outer + spaces(step);
    let (key, value) = entries[i as int];
    let item = json_emitted(value, pad, pretty, step).0;
    let base = path_text(path);
    let e = behind(s, json_emitted(t, outer, pretty, step).0);
    let gap = gap_of(pretty);
    let at = behind(pos, lead + json_string(key));
    lemma_member_stands(entries[i as int], bytes, pos, lead, pad, pretty, step);
    let inside = path.push(escaped(key));
    assert(inside.drop_last() =~= path);
    assert(decreases_to!(entries[i as int] => entries[i as int].1));
    lemma_value_places(
        value,
        below,
        bytes,
        at + 1,
        gap,
        pad,
        pretty,
        step,
        inside,
        spans,
        SpanContext::BlockMapValue,
    );
    lemma_member_place(entries, i, s, pad, pretty, step);
    let more = value_scanned(bytes, at + 1, inside, spans, SpanContext::BlockMapValue)->Ok_0.1;
    assert forall|j: int| 0 <= j < more.len() implies spans.contains(#[trigger] more[j])
        || edits_to(bytes, s, e, t, depth, outer, pretty, step, base, more[j]) by {
        if !spans.contains(more[j]) {
            lemma_member_edits(entries, i, depth, bytes, s, outer, pretty, step, base, more[j]);
        }
    }
}

/// The places of a value that is written in one of the layouts of the JSON
/// writer are those at which it can be edited.
pub proof fn lemma_spelled_places(t: Tree, depth: nat, pretty: bool, step: nat)
    requires
        is_spelled(t, depth),
        encode_utf8(spelling(t, pretty, step)).len() <= usize::MAX,
    ensures
        ({
            let bytes = encode_utf8(spelling(t, pretty, step));
            let none = Seq::<char>::empty();
            json_spans(bytes) matches Ok(spans) && all_edit(
                bytes,
                0,
                bytes.len() as int,
                t,
                depth,
                none,
                pretty,
                step,
                none,
                Seq::empty(),
                spans,
            )
        }),
{
    let w = spelling(t, pretty, step);
    let bytes = encode_utf8(w);
    let none = Seq::<char>::empty();
    encode_utf8_valid_utf8(w);
    lemma_first_char(t, depth, none, pretty, step);
    assert(none + w =~= w);
    assert(bytes.subrange(0, bytes.len() as int) =~= bytes);
    assert(stands(bytes, 0, w));
    lemma_first_byte(bytes, 0, w);
    assert(encode_utf8(none) =~= Seq::<u8>::empty());
    assert(bytes.subrange(0, 0) =~= encode_utf8(none));
    lemma_skips(bytes, 0, none);
    lemma_value_places(
        t,
        depth,
        bytes,
        0,
        none,
        none,
        pretty,
        step,
        Seq::empty(),
        Seq::empty(),
        SpanContext::BlockMapValue,
    );
}

} // verus!
