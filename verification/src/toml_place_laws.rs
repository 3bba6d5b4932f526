//! The value of a TOML text is what its nodes say, and every value stands where
//! its node stands.

use crate::numbers::decimal;
use crate::parsers::source_lines::{indent_at, path_text, span_of};
use crate::parsers::toml_nodes::{ShapeModel, TomlNodeModel};
use crate::parsers::toml_walk::{
    leaf_value, walked_entries, walked_items, walked_node, Places, Walked, WalkedEntries,
    WalkedItems,
};
use crate::pointer::escaped;
use crate::spans::{SpanContext, ValueSpan};
use crate::utf8_text::utf8_lossy;
use crate::value::{
    has_key, inserted, law_insert_lookup, lemma_key_index_is, lookup, unique_keys, Tree,
};
use vstd::prelude::*;

verus! {

/// A TOML value with what it holds, and where each part stands.
pub enum TomlPart {
    /// A scalar.
    Leaf(ShapeModel, Option<(usize, usize)>),
    /// A list: whether its items are tables of their own, and the items.
    List(bool, Seq<TomlPart>, Option<(usize, usize)>),
    /// A table: whether it is inline, and its keys with their values.
    Table(bool, Seq<(Seq<char>, TomlPart)>, Option<(usize, usize)>),
}

/// The nodes of a part: its own, and those of what it holds.
pub open spec fn part_nodes(t: TomlPart) -> Seq<TomlNodeModel>
    decreases t, 0nat,
{
    match t {
        TomlPart::Leaf(shape, span) => seq![TomlNodeModel { shape, span }],
        TomlPart::List(tables, items, span) => seq![
            TomlNodeModel {
                shape: if tables {
                    ShapeModel::Tables(items.len())
                } else {
                    ShapeModel::List(items.len())
                },
                span,
            },
        ] + item_nodes(items, 0),
        TomlPart::Table(inline, entries, span) => seq![
            TomlNodeModel {
                shape: if inline {
                    ShapeModel::Inline(entries.map_values(|e: (Seq<char>, TomlPart)| e.0))
                } else {
                    ShapeModel::Table(entries.map_values(|e: (Seq<char>, TomlPart)| e.0))
                },
                span,
            },
        ] + entry_nodes(entries, 0),
    }
}

/// The nodes of the items from `i` on.
pub open spec fn item_nodes(items: Seq<TomlPart>, i: nat) -> Seq<TomlNodeModel>
    decreases items, items.len() - i,
{
    if i >= items.len() {
        Seq::empty()
    } else {
        part_nodes(items[i as int]) + item_nodes(items, i + 1)
    }
}

/// The nodes of the values from `i` on.
pub open spec fn entry_nodes(entries: Seq<(Seq<char>, TomlPart)>, i: nat) -> Seq<TomlNodeModel>
    decreases entries, entries.len() - i,
{
    if i >= entries.len() {
        Seq::empty()
    } else {
        part_nodes(entries[i as int].1) + entry_nodes(entries, i + 1)
    }
}

/// Whether every leaf is a scalar, and no key of a table occurs twice.
pub open spec fn is_part(t: TomlPart) -> bool
    decreases t,
{
    match t {
        TomlPart::Leaf(shape, _) => shape is Words || shape is Moment || shape is Whole
            || shape is Real || shape is Truth,
        TomlPart::List(_, items, _) => forall|i: int|
            0 <= i < items.len() ==> is_part(#[trigger] items[i]),
        TomlPart::Table(_, entries, _) => unique_keys(entries) && forall|i: int|
            0 <= i < entries.len() ==> is_part((#[trigger] entries[i]).1),
    }
}

/// Whether a value is what a part says: a scalar with the same content, a list
/// with the same items in order, a table with the same keys and values in order.
pub open spec fn is_value_of(v: Tree, bytes: Seq<u8>, t: TomlPart) -> bool
    decreases t,
{
    match t {
        TomlPart::Leaf(shape, span) => match shape {
            ShapeModel::Words(s) => v == Tree::String(s),
            ShapeModel::Whole(n) => v == Tree::Int(n),
            ShapeModel::Real(s) => v == Tree::Float(s),
            ShapeModel::Truth(b) => v == Tree::Bool(b),
            ShapeModel::Moment(shown) => match span {
                Some((start, end)) => v == (if start <= end <= bytes.len() {
                    Tree::String(utf8_lossy(bytes.subrange(start as int, end as int)))
                } else {
                    Tree::String(shown)
                }),
                None => v == Tree::String(shown),
            },
            _ => false,
        },
        TomlPart::List(_, items, _) => {
            &&& v matches Tree::Array(values)
            &&& values.len() == items.len()
            &&& forall|i: int|
                0 <= i < items.len() ==> is_value_of(values[i], bytes, #[trigger] items[i])
        },
        TomlPart::Table(_, entries, _) => {
            &&& v matches Tree::Object(values)
            &&& values.len() == entries.len()
            &&& forall|i: int|
                0 <= i < entries.len() ==> values[i].0 == (#[trigger] entries[i]).0 && is_value_of(
                    values[i].1,
                    bytes,
                    entries[i].1,
                )
        },
    }
}

/// The context of what a part holds.
pub open spec fn held_context(t: TomlPart) -> SpanContext {
    match t {
        TomlPart::List(tables, _, _) => if tables {
            SpanContext::BlockMapValue
        } else {
            SpanContext::FlowSeqItem
        },
        TomlPart::Table(inline, _, _) => if inline {
            SpanContext::FlowMapValue
        } else {
            SpanContext::BlockMapValue
        },
        _ => SpanContext::BlockMapValue,
    }
}

/// The place of a part by itself: that of a scalar is its own, and so is that of
/// an inline collection that holds nothing.
pub open spec fn own_place(bytes: Seq<u8>, t: TomlPart, context: SpanContext) -> Option<ValueSpan> {
    let (span, around) = match t {
        TomlPart::Leaf(_, span) => (span, context),
        TomlPart::List(tables, items, span) => (
            if !tables && items.len() == 0 {
                span
            } else {
                None
            },
            SpanContext::FlowSeqItem,
        ),
        TomlPart::Table(inline, entries, span) => (
            if inline && entries.len() == 0 {
                span
            } else {
                None
            },
            SpanContext::FlowMapValue,
        ),
    };
    match span {
        Some((start, end)) => Some(
            span_of(bytes, start as int, end as int, indent_at(bytes, start as int), around),
        ),
        None => None,
    }
}

/// The place of the part that positions lead to.
pub open spec fn place_at(bytes: Seq<u8>, t: TomlPart, context: SpanContext, way: Seq<int>) -> Option<
    ValueSpan,
>
    decreases way.len(),
{
    if way.len() == 0 {
        own_place(bytes, t, context)
    } else {
        let rest = way.subrange(1, way.len() as int);
        match t {
            TomlPart::List(_, items, _) => if 0 <= way[0] < items.len() {
                place_at(bytes, items[way[0]], held_context(t), rest)
            } else {
                None
            },
            TomlPart::Table(_, entries, _) => if 0 <= way[0] < entries.len() {
                place_at(bytes, entries[way[0]].1, held_context(t), rest)
            } else {
                None
            },
            _ => None,
        }
    }
}

/// The written segments of positions: the number of an item, the key of a value.
pub open spec fn written_way(t: TomlPart, way: Seq<int>) -> Seq<Seq<char>>
    decreases way.len(),
{
    if way.len() == 0 {
        Seq::empty()
    } else {
        let rest = way.subrange(1, way.len() as int);
        match t {
            TomlPart::List(_, items, _) => seq![decimal(way[0] as nat)] + written_way(
                items[way[0]],
                rest,
            ),
            TomlPart::Table(_, entries, _) => seq![escaped(entries[way[0]].0)] + written_way(
                entries[way[0]].1,
                rest,
            ),
            _ => Seq::empty(),
        }
    }
}

/// Whether the places behind a part are those before it and those of the part:
/// what is new or changed under a pointer is the place of a part to which that
/// pointer leads, and every part that has a place has one under its pointer.
pub open spec fn places_follow(
    bytes: Seq<u8>,
    t: TomlPart,
    path: Seq<Seq<char>>,
    context: SpanContext,
    before: Places,
    after: Places,
) -> bool {
    &&& forall|key: Seq<char>| #[trigger]
        lookup(after, key) == lookup(before, key) || leads_to(
            bytes,
            t,
            path,
            context,
            key,
            lookup(after, key),
        )
    &&& forall|key: Seq<char>| has_key(before, key) ==> #[trigger] has_key(after, key)
    &&& forall|way: Seq<int>| #[trigger]
        place_at(bytes, t, context, way) is Some ==> has_key(
            after,
            path_text(path + written_way(t, way)),
        )
}

/// Whether a pointer leads to a part that has a place, and it is this place.
pub open spec fn leads_to(
    bytes: Seq<u8>,
    t: TomlPart,
    path: Seq<Seq<char>>,
    context: SpanContext,
    key: Seq<char>,
    place: Option<ValueSpan>,
) -> bool {
    exists|way: Seq<int>|
        {
            &&& key == path_text(path + written_way(t, way))
            &&& place is Some && #[trigger] place_at(bytes, t, context, way) == place
        }
}

/// Whether the nodes of a part stand at a position.
pub open spec fn stands_at(nodes: Seq<TomlNodeModel>, k: int, part: Seq<TomlNodeModel>) -> bool {
    &&& 0 <= k && k + part.len() <= nodes.len()
    &&& forall|i: int| 0 <= i < part.len() ==> nodes[k + i] == #[trigger] part[i]
}

proof fn lemma_stands_two(
    nodes: Seq<TomlNodeModel>,
    k: int,
    a: Seq<TomlNodeModel>,
    b: Seq<TomlNodeModel>,
)
    requires
        stands_at(nodes, k, a + b),
    ensures
        stands_at(nodes, k, a),
        stands_at(nodes, k + a.len(), b),
{
    assert forall|i: int| 0 <= i < a.len() implies nodes[k + i] == #[trigger] a[i] by {
        assert((a + b)[i] == a[i]);
    }
    assert forall|i: int| 0 <= i < b.len() implies nodes[k + a.len() + i] == #[trigger] b[i] by {
        assert((a + b)[a.len() + i] == b[i]);
        assert(nodes[k + (a.len() + i)] == (a + b)[a.len() + i]);
    }
}

proof fn lemma_own_place(
    bytes: Seq<u8>,
    t: TomlPart,
    path: Seq<Seq<char>>,
    context: SpanContext,
    before: Places,
)
    requires
        t is Leaf || (t matches TomlPart::List(tables, items, _) && items.len() == 0) || (
        t matches TomlPart::Table(inline, entries, _) && entries.len() == 0),
    ensures
        ({
            let after = match own_place(bytes, t, context) {
                Some(span) => inserted(before, path_text(path), span),
                None => before,
            };
            places_follow(bytes, t, path, context, before, after)
        }),
{
    let here = Seq::<int>::empty();
    assert(path + written_way(t, here) =~= path);
    assert(place_at(bytes, t, context, here) == own_place(bytes, t, context));
    let after = match own_place(bytes, t, context) {
        Some(span) => inserted(before, path_text(path), span),
        None => before,
    };
    assert forall|key: Seq<char>| #[trigger] lookup(after, key) == lookup(before, key) || leads_to(
        bytes,
        t,
        path,
        context,
        key,
        lookup(after, key),
    ) by {
        if let Some(span) = own_place(bytes, t, context) {
            law_insert_lookup(before, path_text(path), span, key);
        }
    }
    assert forall|key: Seq<char>| has_key(before, key) implies #[trigger] has_key(after, key) by {
        if let Some(span) = own_place(bytes, t, context) {
            law_insert_lookup(before, path_text(path), span, key);
            assert(lookup(before, key) is Some);
        }
    }
    assert forall|way: Seq<int>| #[trigger]
        place_at(bytes, t, context, way) is Some implies has_key(
        after,
        path_text(path + written_way(t, way)),
    ) by {
        assert(way.len() == 0);
        assert(way =~= here);
        let span = own_place(bytes, t, context)->Some_0;
        law_insert_lookup(before, path_text(path), span, path_text(path));
        assert(lookup(after, path_text(path)) is Some);
    }
}

/// What follows of one part of a collection follows of the collection.
proof fn lemma_held_places(
    bytes: Seq<u8>,
    t: TomlPart,
    child: TomlPart,
    segment: Seq<char>,
    i: int,
    path: Seq<Seq<char>>,
    context: SpanContext,
    key: Seq<char>,
    place: Option<ValueSpan>,
)
    requires
        match t {
            TomlPart::List(_, items, _) => 0 <= i < items.len() && items[i] == child && segment
                == decimal(i as nat),
            TomlPart::Table(_, entries, _) => 0 <= i < entries.len() && entries[i].1 == child
                && segment == escaped(entries[i].0),
            _ => false,
        },
        leads_to(bytes, child, path.push(segment), held_context(t), key, place),
    ensures
        leads_to(bytes, t, path, context, key, place),
{
    let way = choose|way: Seq<int>|
        {
            &&& key == path_text(path.push(segment) + written_way(child, way))
            &&& place is Some && #[trigger] place_at(bytes, child, held_context(t), way) == place
        };
    let longer = seq![i] + way;
    assert(longer.subrange(1, longer.len() as int) =~= way);
    assert(written_way(t, longer) == seq![segment] + written_way(child, way));
    assert(path + written_way(t, longer) =~= path.push(segment) + written_way(child, way));
    assert(place_at(bytes, t, context, longer) == place);
}

/// Whether the places behind the first `i` parts of a collection are those before
/// it and those of these parts.
spec fn held_follow(
    bytes: Seq<u8>,
    t: TomlPart,
    i: int,
    path: Seq<Seq<char>>,
    context: SpanContext,
    before: Places,
    after: Places,
) -> bool {
    &&& forall|key: Seq<char>| #[trigger]
        lookup(after, key) == lookup(before, key) || leads_to(
            bytes,
            t,
            path,
            context,
            key,
            lookup(after, key),
        )
    &&& forall|key: Seq<char>| has_key(before, key) ==> #[trigger] has_key(after, key)
    &&& forall|way: Seq<int>|
        way.len() > 0 && way[0] < i && #[trigger] place_at(bytes, t, context, way) is Some
            ==> has_key(after, path_text(path + written_way(t, way)))
}

proof fn lemma_one_more(
    bytes: Seq<u8>,
    t: TomlPart,
    child: TomlPart,
    segment: Seq<char>,
    i: int,
    path: Seq<Seq<char>>,
    context: SpanContext,
    before: Places,
    now: Places,
    after: Places,
)
    requires
        match t {
            TomlPart::List(_, items, _) => 0 <= i < items.len() && items[i] == child && segment
                == decimal(i as nat),
            TomlPart::Table(_, entries, _) => 0 <= i < entries.len() && entries[i].1 == child
                && segment == escaped(entries[i].0),
            _ => false,
        },
        held_follow(bytes, t, i, path, context, before, now),
        places_follow(bytes, child, path.push(segment), held_context(t), now, after),
    ensures
        held_follow(bytes, t, i + 1, path, context, before, after),
{
    assert forall|key: Seq<char>| #[trigger] lookup(after, key) == lookup(before, key) || leads_to(
        bytes,
        t,
        path,
        context,
        key,
        lookup(after, key),
    ) by {
        if lookup(after, key) == lookup(now, key) {
            assert(lookup(now, key) == lookup(before, key) || leads_to(
                bytes,
                t,
                path,
                context,
                key,
                lookup(now, key),
            ));
        } else {
            lemma_held_places(
                bytes,
                t,
                child,
                segment,
                i,
                path,
                context,
                key,
                lookup(after, key),
            );
        }
    }
    assert forall|key: Seq<char>| has_key(before, key) implies #[trigger] has_key(after, key) by {
        assert(has_key(now, key));
    }
    assert forall|way: Seq<int>|
        way.len() > 0 && way[0] < i + 1 && #[trigger] place_at(bytes, t, context, way)
            is Some implies has_key(after, path_text(path + written_way(t, way))) by {
        if way[0] < i {
            assert(has_key(now, path_text(path + written_way(t, way))));
        } else {
            let rest = way.subrange(1, way.len() as int);
            assert(place_at(bytes, child, held_context(t), rest) is Some);
            assert(path + written_way(t, way) =~= path.push(segment) + written_way(child, rest));
        }
    }
}

proof fn lemma_all_held(
    bytes: Seq<u8>,
    t: TomlPart,
    n: int,
    path: Seq<Seq<char>>,
    context: SpanContext,
    before: Places,
    after: Places,
)
    requires
        match t {
            TomlPart::List(tables, items, _) => n == items.len() && (tables || n > 0),
            TomlPart::Table(inline, entries, _) => n == entries.len() && (!inline || n > 0),
            _ => false,
        },
        held_follow(bytes, t, n, path, context, before, after),
    ensures
        places_follow(bytes, t, path, context, before, after),
{
    assert forall|way: Seq<int>| #[trigger]
        place_at(bytes, t, context, way) is Some implies has_key(
        after,
        path_text(path + written_way(t, way)),
    ) by {
        if way.len() == 0 {
            assert(own_place(bytes, t, context) is None);
        } else {
            assert(way[0] < n);
        }
    }
}

/// Whether a walk over a part ends behind its nodes with its value and places.
pub open spec fn is_walked(
    w: Walked,
    bytes: Seq<u8>,
    t: TomlPart,
    k: int,
    path: Seq<Seq<char>>,
    context: SpanContext,
    before: Places,
) -> bool {
    &&& is_value_of(w.value, bytes, t)
    &&& w.next == k + part_nodes(t).len()
    &&& places_follow(bytes, t, path, context, before, w.places)
}

/// The value that is read of TOML nodes is what they say, each scalar, key and
/// item at its place, and every value is placed where its node stands, under the
/// pointer that leads to it.
pub proof fn law_nodes_make_the_value(
    bytes: Seq<u8>,
    nodes: Seq<TomlNodeModel>,
    t: TomlPart,
    k: int,
    path: Seq<Seq<char>>,
    context: SpanContext,
    before: Places,
)
    requires
        is_part(t),
        stands_at(nodes, k, part_nodes(t)),
    ensures
        is_walked(
            walked_node(bytes, nodes, k, path, context, before),
            bytes,
            t,
            k,
            path,
            context,
            before,
        ),
    decreases t, 1nat, 0nat,
{
    let w = walked_node(bytes, nodes, k, path, context, before);
    assert(nodes[k + 0] == part_nodes(t)[0]);
    match t {
        TomlPart::Leaf(shape, span) => {
            lemma_own_place(bytes, t, path, context, before);
            assert(w.value == leaf_value(bytes, nodes[k]));
        },
        TomlPart::List(tables, items, span) => {
            let head = seq![part_nodes(t)[0]];
            assert(part_nodes(t) =~= head + item_nodes(items, 0));
            lemma_stands_two(nodes, k, head, item_nodes(items, 0));
            if items.len() == 0 {
                lemma_own_place(bytes, t, path, context, before);
                assert(item_nodes(items, 0).len() == 0);
                if tables {
                    let so_far = WalkedItems { items: Seq::empty(), next: k + 1, places: before };
                    assert(walked_items(
                        bytes,
                        nodes,
                        0,
                        0,
                        path,
                        SpanContext::BlockMapValue,
                        so_far,
                    ) == so_far);
                }
            } else {
                let so_far = WalkedItems { items: Seq::empty(), next: k + 1, places: before };
                assert(held_follow(bytes, t, 0, path, context, before, before));
                lemma_items_walked(bytes, nodes, t, 0, path, context, before, so_far);
            }
        },
        TomlPart::Table(inline, entries, span) => {
            let head = seq![part_nodes(t)[0]];
            assert(part_nodes(t) =~= head + entry_nodes(entries, 0));
            lemma_stands_two(nodes, k, head, entry_nodes(entries, 0));
            let keys = entries.map_values(|e: (Seq<char>, TomlPart)| e.0);
            if entries.len() == 0 {
                lemma_own_place(bytes, t, path, context, before);
                assert(entry_nodes(entries, 0).len() == 0);
                if !inline {
                    let so_far = WalkedEntries {
                        entries: Seq::empty(),
                        next: k + 1,
                        places: before,
                    };
                    assert(walked_entries(
                        bytes,
                        nodes,
                        keys,
                        0,
                        path,
                        SpanContext::BlockMapValue,
                        so_far,
                    ) == so_far);
                }
            } else {
                let so_far = WalkedEntries { entries: Seq::empty(), next: k + 1, places: before };
                assert(held_follow(bytes, t, 0, path, context, before, before));
                lemma_entries_walked(bytes, nodes, t, 0, path, context, before, so_far);
            }
        },
    }
}

proof fn lemma_items_walked(
    bytes: Seq<u8>,
    nodes: Seq<TomlNodeModel>,
    t: TomlPart,
    i: nat,
    path: Seq<Seq<char>>,
    context: SpanContext,
    before: Places,
    so_far: WalkedItems,
)
    requires
        is_part(t),
        t matches TomlPart::List(_, items, _) && i <= items.len() && items.len() > 0 && stands_at(
            nodes,
            so_far.next,
            item_nodes(items, i),
        ) && so_far.items.len() == i && forall|j: int|
            0 <= j < i ==> is_value_of(so_far.items[j], bytes, #[trigger] items[j]),
        held_follow(bytes, t, i as int, path, context, before, so_far.places),
    ensures
        ({
            &&& t matches TomlPart::List(_, items, _)
            &&& {
                let w = walked_items(
                    bytes,
                    nodes,
                    items.len(),
                    i,
                    path,
                    held_context(t),
                    so_far,
                );
                &&& w.items.len() == items.len()
                &&& forall|j: int|
                    0 <= j < items.len() ==> is_value_of(w.items[j], bytes, #[trigger] items[j])
                &&& w.next == so_far.next + item_nodes(items, i).len()
                &&& places_follow(bytes, t, path, context, before, w.places)
            }
        }),
    decreases t, 0nat, t->List_1.len() - i,
{
    let items = t->List_1;
    if i >= items.len() {
        lemma_all_held(bytes, t, items.len() as int, path, context, before, so_far.places);
    } else {
        let child = items[i as int];
        lemma_stands_two(nodes, so_far.next, part_nodes(child), item_nodes(items, i + 1));
        assert(decreases_to!(t => items));
        assert(decreases_to!(items => items[i as int]));
        law_nodes_make_the_value(
            bytes,
            nodes,
            child,
            so_far.next,
            path.push(decimal(i)),
            held_context(t),
            so_far.places,
        );
        let one = walked_node(
            bytes,
            nodes,
            so_far.next,
            path.push(decimal(i)),
            held_context(t),
            so_far.places,
        );
        lemma_one_more(
            bytes,
            t,
            child,
            decimal(i),
            i as int,
            path,
            context,
            before,
            so_far.places,
            one.places,
        );
        let next = WalkedItems {
            items: so_far.items.push(one.value),
            next: one.next,
            places: one.places,
        };
        assert forall|j: int| 0 <= j < i + 1 implies is_value_of(
            next.items[j],
            bytes,
            #[trigger] items[j],
        ) by {
            if j < i {
                assert(next.items[j] == so_far.items[j]);
            }
        }
        lemma_items_walked(bytes, nodes, t, i + 1, path, context, before, next);
    }
}

proof fn lemma_entries_walked(
    bytes: Seq<u8>,
    nodes: Seq<TomlNodeModel>,
    t: TomlPart,
    i: nat,
    path: Seq<Seq<char>>,
    context: SpanContext,
    before: Places,
    so_far: WalkedEntries,
)
    requires
        is_part(t),
        t matches TomlPart::Table(_, entries, _) && i <= entries.len() && entries.len() > 0
            && stands_at(nodes, so_far.next, entry_nodes(entries, i)) && so_far.entries.len() == i
            && forall|j: int|
            0 <= j < i ==> so_far.entries[j].0 == (#[trigger] entries[j]).0 && is_value_of(
                so_far.entries[j].1,
                bytes,
                entries[j].1,
            ),
        held_follow(bytes, t, i as int, path, context, before, so_far.places),
    ensures
        ({
            &&& t matches TomlPart::Table(_, entries, _)
            &&& {
                let w = walked_entries(
                    bytes,
                    nodes,
                    entries.map_values(|e: (Seq<char>, TomlPart)| e.0),
                    i,
                    path,
                    held_context(t),
                    so_far,
                );
                &&& w.entries.len() == entries.len()
                &&& forall|j: int|
                    0 <= j < entries.len() ==> w.entries[j].0 == (#[trigger] entries[j]).0
                        && is_value_of(w.entries[j].1, bytes, entries[j].1)
                &&& w.next == so_far.next + entry_nodes(entries, i).len()
                &&& places_follow(bytes, t, path, context, before, w.places)
            }
        }),
    decreases t, 0nat, t->Table_1.len() - i,
{
    let entries = t->Table_1;
    let keys = entries.map_values(|e: (Seq<char>, TomlPart)| e.0);
    if i >= entries.len() {
        lemma_all_held(bytes, t, entries.len() as int, path, context, before, so_far.places);
    } else {
        let child = entries[i as int].1;
        let key = entries[i as int].0;
        lemma_stands_two(nodes, so_far.next, part_nodes(child), entry_nodes(entries, i + 1));
        assert(decreases_to!(t => entries));
        assert(decreases_to!(entries => entries[i as int]));
        assert(decreases_to!(entries[i as int] => entries[i as int].1));
        law_nodes_make_the_value(
            bytes,
            nodes,
            child,
            so_far.next,
            path.push(escaped(key)),
            held_context(t),
            so_far.places,
        );
        let one = walked_node(
            bytes,
            nodes,
            so_far.next,
            path.push(escaped(key)),
            held_context(t),
            so_far.places,
        );
        lemma_one_more(
            bytes,
            t,
            child,
            escaped(key),
            i as int,
            path,
            context,
            before,
            so_far.places,
            one.places,
        );
        assert(nodes[so_far.next + 0] == part_nodes(child)[0]);
        assert(!(nodes[so_far.next].shape is Missing));
        assert forall|j: int| 0 <= j < so_far.entries.len() implies (
        #[trigger] so_far.entries[j]).0 != key by {
            assert(entries[j].0 != entries[i as int].0);
            assert(so_far.entries[j].0 == entries[j].0);
        }
        lemma_key_index_is(so_far.entries, key, so_far.entries.len() as int);
        let next = WalkedEntries {
            entries: inserted(so_far.entries, keys[i as int], one.value),
            next: one.next,
            places: one.places,
        };
        assert(next.entries == so_far.entries.push((key, one.value)));
        assert forall|j: int| 0 <= j < i + 1 implies next.entries[j].0 == (
        #[trigger] entries[j]).0 && is_value_of(next.entries[j].1, bytes, entries[j].1) by {
            if j < i {
                assert(next.entries[j] == so_far.entries[j]);
            }
        }
        lemma_entries_walked(bytes, nodes, t, i + 1, path, context, before, next);
    }
}

} // verus!
