//! What is noted of YAML nodes beside their places: block scalars, anchors and
//! aliases, and the literals of numbers.

use crate::decimal_text::{decimal_number, same_number};
use crate::number_laws::has_point_or_exponent;
use crate::numbers::decimal;
use crate::parsers::source_lines::path_text;
use crate::parsers::tokens::{is_float_literal, yaml_number_forms};
use crate::parsers::yaml_events::{YamlEventModel, YamlKindModel};
use crate::parsers::yaml_literals::{
    items_with_literals, entries_with_literals, with_literals, written_at,
};
use crate::parsers::yaml_spans::{
    after_nameless, anchor_place, empty_span, key_is_next, value_named, walk_step, FrameModel,
    Ground, WalkModel,
};
use crate::pointer::escaped;
use crate::position::{chars_into_line, within};
use crate::spans::{SpanContext, ValueSpan};
use crate::utf8_text::utf8_lossy;
use crate::value::{lookup, Tree};
use vstd::prelude::*;

verus! {

/// Whether the next node is a value to which a path leads.
pub open spec fn takes_value(m: WalkModel) -> bool {
    m.passed == 0 && after_nameless(m.stack) is None
}

/// The pointer of the next value.
pub open spec fn next_pointer(m: WalkModel) -> Seq<char> {
    path_text(value_named(m).path)
}

/// A block scalar, and no other scalar, is noted as one under its pointer.
pub proof fn law_block_scalar_is_noted(m: WalkModel, g: Ground, e: YamlEventModel, p: Seq<char>)
    requires
        takes_value(m),
        e.kind is Leaf,
    ensures
        walk_step(m, g, e).blocks.contains(p) <==> m.blocks.contains(p) || (e.kind->Leaf_1 && p
            == next_pointer(m)),
{
    if let YamlKindModel::Leaf(_, block) = e.kind {
        let after = walk_step(m, g, e).blocks;
        if block {
            assert(after == m.blocks.push(next_pointer(m)));
            assert(after[m.blocks.len() as int] == next_pointer(m));
            if m.blocks.contains(p) {
                let i = choose|i: int| 0 <= i < m.blocks.len() && m.blocks[i] == p;
                assert(after[i] == p);
            }
            if after.contains(p) {
                let i = choose|i: int| 0 <= i < after.len() && after[i] == p;
                if i < m.blocks.len() {
                    assert(m.blocks[i] == p);
                }
            }
        }
    }
}

/// A key is no value: it is named next, and nothing is noted of it.
pub proof fn law_key_is_named_next(m: WalkModel, g: Ground, e: YamlEventModel)
    requires
        m.passed == 0,
        key_is_next(m.stack),
        e.kind is Leaf,
    ensures
        ({
            let after = walk_step(m, g, e);
            &&& after.spans == m.spans && after.blocks == m.blocks && after.anchors == m.anchors
                && after.aliases == m.aliases && after.path == m.path
            &&& value_named(after).path == m.path.push(escaped(e.kind->Leaf_0))
        }),
{
}

/// The node behind an anchor, a scalar or a collection, is noted under it with its
/// pointer; a node without one is not.
pub proof fn law_anchor_stands_for_its_node(m: WalkModel, g: Ground, e: YamlEventModel)
    requires
        takes_value(m),
        e.kind is Leaf || e.kind is ListOpened || e.kind is MapOpened,
    ensures
        walk_step(m, g, e).anchors == (if e.anchor == 0 {
            m.anchors
        } else {
            m.anchors.push((e.anchor, next_pointer(m)))
        }),
        walk_step(m, g, e).aliases == m.aliases,
{
}

/// Whether the last of the places of an anchor is at position `i`.
pub open spec fn is_last_place(anchors: Seq<(int, Seq<char>)>, anchor: int, i: int) -> bool {
    &&& 0 <= i < anchors.len() && anchors[i].0 == anchor
    &&& forall|j: int| i < j < anchors.len() ==> (#[trigger] anchors[j]).0 != anchor
}

proof fn lemma_anchor_place(anchors: Seq<(int, Seq<char>)>, anchor: int, k: int, i: int)
    requires
        is_last_place(anchors, anchor, i),
        i < k <= anchors.len(),
    ensures
        anchor_place(anchors, anchor, k) == Some(anchors[i].1),
    decreases k,
{
    if i < k - 1 {
        assert(anchors[k - 1].0 != anchor);
        lemma_anchor_place(anchors, anchor, k - 1, i);
    }
}

/// An alias stands for the node that its anchor was last set on. It has no place of
/// its own.
pub proof fn law_alias_stands_for_its_anchor(m: WalkModel, g: Ground, e: YamlEventModel, i: int)
    requires
        takes_value(m),
        e.kind is Reference,
        is_last_place(m.anchors, e.anchor, i),
    ensures
        ({
            let after = walk_step(m, g, e);
            &&& after.aliases == m.aliases.push((next_pointer(m), m.anchors[i].1))
            &&& after.spans == m.spans && after.blocks == m.blocks && after.anchors == m.anchors
        }),
{
    lemma_anchor_place(m.anchors, e.anchor, m.anchors.len() as int, i);
}

/// Whether the last alias at a place is at position `i`.
pub open spec fn is_last_alias(aliases: Seq<(Seq<char>, Seq<char>)>, place: Seq<char>, i: int) -> bool {
    &&& 0 <= i < aliases.len() && aliases[i].0 == place
    &&& forall|j: int| i < j < aliases.len() ==> (#[trigger] aliases[j]).0 != place
}

/// Whether no alias stands at a place.
pub open spec fn is_no_alias(aliases: Seq<(Seq<char>, Seq<char>)>, place: Seq<char>) -> bool {
    forall|j: int| 0 <= j < aliases.len() ==> (#[trigger] aliases[j]).0 != place
}

proof fn lemma_no_alias(aliases: Seq<(Seq<char>, Seq<char>)>, place: Seq<char>, k: int)
    requires
        is_no_alias(aliases, place),
        k <= aliases.len(),
    ensures
        written_at(aliases, place, k) == place,
    decreases k,
{
    if k > 0 {
        assert(aliases[k - 1].0 != place);
        lemma_no_alias(aliases, place, k - 1);
    }
}

proof fn lemma_last_alias(aliases: Seq<(Seq<char>, Seq<char>)>, place: Seq<char>, k: int, i: int)
    requires
        is_last_alias(aliases, place, i),
        i < k <= aliases.len(),
    ensures
        written_at(aliases, place, k) == aliases[i].1,
    decreases k,
{
    if i < k - 1 {
        assert(aliases[k - 1].0 != place);
        lemma_last_alias(aliases, place, k - 1, i);
    }
}

/// A float whose literal says more than the float does is kept as its literal,
/// digit by digit: with a point or an exponent as a float, without as an integer.
pub proof fn law_inexact_literal_is_kept(
    text: Seq<char>,
    place: Seq<char>,
    bytes: Seq<u8>,
    walk: WalkModel,
    span: ValueSpan,
)
    requires
        is_no_alias(walk.aliases, place),
        lookup(walk.spans, place) == Some(span),
        span.value_range.start <= span.value_range.end <= bytes.len(),
    ensures
        ({
            let literal = utf8_lossy(
                bytes.subrange(span.value_range.start as int, span.value_range.end as int),
            );
            let is_its = yaml_number_forms(literal).real == Some(text);
            with_literals(Tree::Float(text), place, bytes, walk) == (if decimal_number(literal)
                is Some && is_its && !same_number(literal, text) {
                if has_point_or_exponent(literal) {
                    Tree::BigFloat(literal)
                } else {
                    Tree::BigInt(literal)
                }
            } else {
                Tree::Float(text)
            })
        }),
{
    lemma_no_alias(walk.aliases, place, walk.aliases.len() as int);
    let literal = utf8_lossy(
        bytes.subrange(span.value_range.start as int, span.value_range.end as int),
    );
    assert(has_point_or_exponent(literal) == is_float_literal(literal)) by {
        if has_point_or_exponent(literal) {
            let i = choose|i: int|
                0 <= i < literal.len() && (#[trigger] literal[i] == '.' || literal[i] == 'e'
                    || literal[i] == 'E');
            assert(literal.contains(literal[i]));
        }
    }
}

/// What stands at an alias has the literals of the node that the alias stands for.
pub proof fn law_alias_has_the_literals_of_its_node(
    t: Tree,
    place: Seq<char>,
    bytes: Seq<u8>,
    walk: WalkModel,
    i: int,
)
    requires
        is_last_alias(walk.aliases, place, i),
        is_no_alias(walk.aliases, walk.aliases[i].1),
    ensures
        with_literals(t, place, bytes, walk) == with_literals(t, walk.aliases[i].1, bytes, walk),
{
    let n = walk.aliases.len() as int;
    lemma_last_alias(walk.aliases, place, n, i);
    lemma_no_alias(walk.aliases, walk.aliases[i].1, n);
}

/// What a collection holds has the literals that stand below its place: an item
/// below its position, a value below its key.
pub proof fn law_literals_are_looked_up_below(
    t: Tree,
    place: Seq<char>,
    bytes: Seq<u8>,
    walk: WalkModel,
    i: int,
)
    requires
        is_no_alias(walk.aliases, place),
        0 <= i,
    ensures
        match (t, with_literals(t, place, bytes, walk)) {
            (Tree::Array(items), Tree::Array(after)) => i < items.len() ==> after[i]
                == with_literals(
                items[i],
                place + seq!['/'] + decimal(i as nat),
                bytes,
                walk,
            ),
            (Tree::Object(entries), Tree::Object(after)) => i < entries.len() ==> after[i].1
                == with_literals(
                entries[i].1,
                place + seq!['/'] + escaped(entries[i].0),
                bytes,
                walk,
            ),
            (Tree::Array(_), _) => false,
            (Tree::Object(_), _) => false,
            _ => true,
        },
{
    lemma_no_alias(walk.aliases, place, walk.aliases.len() as int);
    reveal_strlit("/");
    assert("/"@ =~= seq!['/']);
    match t {
        Tree::Array(items) => {
            if i < items.len() {
                lemma_item_below(items, items.len(), place, bytes, walk, i);
            }
        },
        Tree::Object(entries) => {
            if i < entries.len() {
                lemma_entry_below(entries, entries.len(), place, bytes, walk, i);
            }
        },
        _ => {},
    }
}

proof fn lemma_item_below(
    items: Seq<Tree>,
    k: nat,
    at: Seq<char>,
    bytes: Seq<u8>,
    walk: WalkModel,
    i: int,
)
    requires
        0 <= i < k <= items.len(),
    ensures
        items_with_literals(items, k, at, bytes, walk).len() == k,
        items_with_literals(items, k, at, bytes, walk)[i] == with_literals(
            items[i],
            at + "/"@ + decimal(i as nat),
            bytes,
            walk,
        ),
    decreases k,
{
    lemma_item_count(items, (k - 1) as nat, at, bytes, walk);
    if i < k - 1 {
        lemma_item_below(items, (k - 1) as nat, at, bytes, walk, i);
    }
}

proof fn lemma_item_count(items: Seq<Tree>, k: nat, at: Seq<char>, bytes: Seq<u8>, walk: WalkModel)
    requires
        k <= items.len(),
    ensures
        items_with_literals(items, k, at, bytes, walk).len() == k,
    decreases k,
{
    if k > 0 {
        lemma_item_count(items, (k - 1) as nat, at, bytes, walk);
    }
}

proof fn lemma_entry_below(
    entries: Seq<(Seq<char>, Tree)>,
    k: nat,
    at: Seq<char>,
    bytes: Seq<u8>,
    walk: WalkModel,
    i: int,
)
    requires
        0 <= i < k <= entries.len(),
    ensures
        entries_with_literals(entries, k, at, bytes, walk).len() == k,
        entries_with_literals(entries, k, at, bytes, walk)[i].1 == with_literals(
            entries[i].1,
            at + "/"@ + escaped(entries[i].0),
            bytes,
            walk,
        ),
    decreases k,
{
    lemma_entry_count(entries, (k - 1) as nat, at, bytes, walk);
    if i < k - 1 {
        lemma_entry_below(entries, (k - 1) as nat, at, bytes, walk, i);
    }
}

proof fn lemma_entry_count(
    entries: Seq<(Seq<char>, Tree)>,
    k: nat,
    at: Seq<char>,
    bytes: Seq<u8>,
    walk: WalkModel,
)
    requires
        k <= entries.len(),
    ensures
        entries_with_literals(entries, k, at, bytes, walk).len() == k,
    decreases k,
{
    if k > 0 {
        lemma_entry_count(entries, (k - 1) as nat, at, bytes, walk);
    }
}

/// A collection that holds nothing is placed from its start to its end, indented by
/// its column, in the context of what it would hold.
pub proof fn law_empty_collection_has_a_place(g: Ground, f: FrameModel, end: int)
    requires
        g.bytes.len() < u32::MAX,
        match f {
            FrameModel::Mapping(_, _, start, _) => 0 <= start <= end,
            FrameModel::Sequence(_, _, start) => 0 <= start <= end,
        },
    ensures
        ({
            let (start, context) = match f {
                FrameModel::Mapping(_, flow, start, _) => (
                    start,
                    if flow {
                        SpanContext::FlowMapValue
                    } else {
                        SpanContext::BlockMapValue
                    },
                ),
                FrameModel::Sequence(_, flow, start) => (
                    start,
                    if flow {
                        SpanContext::FlowSeqItem
                    } else {
                        SpanContext::BlockSeqItem
                    },
                ),
            };
            let span = empty_span(g, f, end);
            &&& start <= g.bytes.len() ==> span.value_range.start == start
            &&& end <= g.bytes.len() ==> span.value_range.end == end
            &&& span.context == context
            &&& span.indent == chars_into_line(g.bytes, within(g.bytes, start)) + 1
        }),
{
    let start = crate::parsers::yaml_spans::frame_start(f);
    lemma_few_chars(g.bytes, within(g.bytes, start));
}

proof fn lemma_few_chars(bytes: Seq<u8>, k: int)
    requires
        0 <= k <= bytes.len(),
    ensures
        chars_into_line(bytes, k) <= k,
    decreases k,
{
    if k > 0 {
        lemma_few_chars(bytes, k - 1);
    }
}

} // verus!
