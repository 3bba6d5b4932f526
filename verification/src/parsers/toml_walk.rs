//! From TOML nodes to a value tree, and where each scalar stands.

use crate::bytes::copy_bytes;
use crate::error::texts;
use crate::numbers::{decimal, index_text};
use crate::parsers::source_lines::{
    compute_indent, indent_at, make_span, path_text, pointer_for, span_of,
};
use crate::parsers::toml_nodes::{
    toml_models, ShapeModel, TomlNode, TomlNodeModel, TomlShape,
};
use crate::pointer::{escape_segment, escaped};
use crate::spans::{span_entries, span_map_insert, SpanContext, SpanMap, ValueSpan};
use crate::utf8_text::{lossy_text, utf8_lossy};
use crate::value::{inserted, lemma_array_view, lemma_object_view, trees, Tree, Value, ValueMap};
use vstd::prelude::*;

verus! {

/// Recorded places, in order.
pub type Places = Seq<(Seq<char>, ValueSpan)>;

/// The places with that of one more value, where it is known.
pub open spec fn recorded(
    bytes: Seq<u8>,
    span: Option<(usize, usize)>,
    path: Seq<Seq<char>>,
    context: SpanContext,
    places: Places,
) -> Places {
    match span {
        None => places,
        Some((start, end)) => inserted(
            places,
            path_text(path),
            span_of(bytes, start as int, end as int, indent_at(bytes, start as int), context),
        ),
    }
}

/// What a walk over one node comes to: its value, the position behind it, and
/// the places recorded so far.
#[verifier::ext_equal]
pub struct Walked {
    pub value: Tree,
    pub next: int,
    pub places: Places,
}

/// What a walk over the items of a list comes to.
#[verifier::ext_equal]
pub struct WalkedItems {
    pub items: Seq<Tree>,
    pub next: int,
    pub places: Places,
}

/// What a walk over the entries of a table comes to.
#[verifier::ext_equal]
pub struct WalkedEntries {
    pub entries: Seq<(Seq<char>, Tree)>,
    pub next: int,
    pub places: Places,
}

/// The text of a date or time: as it stands in the source, where that is known.
pub open spec fn moment_text(
    bytes: Seq<u8>,
    span: Option<(usize, usize)>,
    shown: Seq<char>,
) -> Seq<char> {
    match span {
        Some((start, end)) => if start <= end <= bytes.len() {
            utf8_lossy(bytes.subrange(start as int, end as int))
        } else {
            shown
        },
        None => shown,
    }
}

/// The value of a node that holds no others.
pub open spec fn leaf_value(bytes: Seq<u8>, node: TomlNodeModel) -> Tree {
    match node.shape {
        ShapeModel::Words(s) => Tree::String(s),
        ShapeModel::Moment(s) => Tree::String(moment_text(bytes, node.span, s)),
        ShapeModel::Whole(n) => Tree::Int(n),
        ShapeModel::Real(s) => Tree::Float(s),
        ShapeModel::Truth(b) => Tree::Bool(b),
        _ => Tree::Null,
    }
}

/// The walk over the node at `k`, whose written path is `path`. A scalar is
/// recorded in its `context`; so is an inline collection that is empty, as what
/// it would hold were recorded.
pub open spec fn walked_node(
    bytes: Seq<u8>,
    nodes: Seq<TomlNodeModel>,
    k: int,
    path: Seq<Seq<char>>,
    context: SpanContext,
    places: Places,
) -> Walked
    decreases nodes.len() - k, 0nat,
{
    if !(0 <= k < nodes.len()) {
        Walked { value: Tree::Null, next: k, places }
    } else {
        match nodes[k].shape {
            ShapeModel::Missing => Walked { value: Tree::Null, next: k + 1, places },
            ShapeModel::List(n) => if n == 0 {
                Walked {
                    value: Tree::Array(Seq::empty()),
                    next: k + 1,
                    places: recorded(bytes, nodes[k].span, path, SpanContext::FlowSeqItem, places),
                }
            } else {
                let w = walked_items(
                    bytes,
                    nodes,
                    n,
                    0,
                    path,
                    SpanContext::FlowSeqItem,
                    WalkedItems { items: Seq::empty(), next: k + 1, places },
                );
                Walked { value: Tree::Array(w.items), next: w.next, places: w.places }
            },
            ShapeModel::Tables(n) => {
                let w = walked_items(
                    bytes,
                    nodes,
                    n,
                    0,
                    path,
                    SpanContext::BlockMapValue,
                    WalkedItems { items: Seq::empty(), next: k + 1, places },
                );
                Walked { value: Tree::Array(w.items), next: w.next, places: w.places }
            },
            ShapeModel::Inline(keys) => if keys.len() == 0 {
                Walked {
                    value: Tree::Object(Seq::empty()),
                    next: k + 1,
                    places: recorded(bytes, nodes[k].span, path, SpanContext::FlowMapValue, places),
                }
            } else {
                let w = walked_entries(
                    bytes,
                    nodes,
                    keys,
                    0,
                    path,
                    SpanContext::FlowMapValue,
                    WalkedEntries { entries: Seq::empty(), next: k + 1, places },
                );
                Walked { value: Tree::Object(w.entries), next: w.next, places: w.places }
            },
            ShapeModel::Table(keys) => {
                let w = walked_entries(
                    bytes,
                    nodes,
                    keys,
                    0,
                    path,
                    SpanContext::BlockMapValue,
                    WalkedEntries { entries: Seq::empty(), next: k + 1, places },
                );
                Walked { value: Tree::Object(w.entries), next: w.next, places: w.places }
            },
            _ => Walked {
                value: leaf_value(bytes, nodes[k]),
                next: k + 1,
                places: recorded(bytes, nodes[k].span, path, context, places),
            },
        }
    }
}

/// The walk over the items of a list from item `i` of `n` on, `so_far` being
/// what those before came to.
pub open spec fn walked_items(
    bytes: Seq<u8>,
    nodes: Seq<TomlNodeModel>,
    n: nat,
    i: nat,
    path: Seq<Seq<char>>,
    context: SpanContext,
    so_far: WalkedItems,
) -> WalkedItems
    decreases nodes.len() - so_far.next, 1 + (n - i),
{
    if i >= n || !(0 <= so_far.next <= nodes.len()) {
        so_far
    } else {
        let one = walked_node(
            bytes,
            nodes,
            so_far.next,
            path.push(decimal(i)),
            context,
            so_far.places,
        );
        if so_far.next <= one.next <= nodes.len() {
            walked_items(
                bytes,
                nodes,
                n,
                i + 1,
                path,
                context,
                WalkedItems {
                    items: so_far.items.push(one.value),
                    next: one.next,
                    places: one.places,
                },
            )
        } else {
            so_far
        }
    }
}

/// The walk over the entries of a table from key `i` on, `so_far` being what
/// those before came to. A key without a value is passed over.
pub open spec fn walked_entries(
    bytes: Seq<u8>,
    nodes: Seq<TomlNodeModel>,
    keys: Seq<Seq<char>>,
    i: nat,
    path: Seq<Seq<char>>,
    context: SpanContext,
    so_far: WalkedEntries,
) -> WalkedEntries
    decreases nodes.len() - so_far.next, 1 + (keys.len() - i),
{
    if i >= keys.len() || !(0 <= so_far.next <= nodes.len()) {
        so_far
    } else {
        let one = walked_node(
            bytes,
            nodes,
            so_far.next,
            path.push(escaped(keys[i as int])),
            context,
            so_far.places,
        );
        if so_far.next <= one.next <= nodes.len() {
            let entries = if so_far.next < nodes.len() && nodes[so_far.next].shape is Missing {
                so_far.entries
            } else {
                inserted(so_far.entries, keys[i as int], one.value)
            };
            walked_entries(
                bytes,
                nodes,
                keys,
                i + 1,
                path,
                context,
                WalkedEntries { entries, next: one.next, places: one.places },
            )
        } else {
            so_far
        }
    }
}

proof fn lemma_items_go_on(
    bytes: Seq<u8>,
    nodes: Seq<TomlNodeModel>,
    n: nat,
    i: nat,
    path: Seq<Seq<char>>,
    context: SpanContext,
    so_far: WalkedItems,
)
    requires
        0 <= so_far.next <= nodes.len(),
    ensures
        so_far.next <= walked_items(bytes, nodes, n, i, path, context, so_far).next <= nodes.len(),
    decreases n - i,
{
    if i < n {
        let one = walked_node(
            bytes,
            nodes,
            so_far.next,
            path.push(decimal(i)),
            context,
            so_far.places,
        );
        if so_far.next <= one.next <= nodes.len() {
            lemma_items_go_on(
                bytes,
                nodes,
                n,
                i + 1,
                path,
                context,
                WalkedItems {
                    items: so_far.items.push(one.value),
                    next: one.next,
                    places: one.places,
                },
            );
        }
    }
}

proof fn lemma_entries_go_on(
    bytes: Seq<u8>,
    nodes: Seq<TomlNodeModel>,
    keys: Seq<Seq<char>>,
    i: nat,
    path: Seq<Seq<char>>,
    context: SpanContext,
    so_far: WalkedEntries,
)
    requires
        0 <= so_far.next <= nodes.len(),
    ensures
        so_far.next <= walked_entries(bytes, nodes, keys, i, path, context, so_far).next
            <= nodes.len(),
    decreases keys.len() - i,
{
    if i < keys.len() {
        let one = walked_node(
            bytes,
            nodes,
            so_far.next,
            path.push(escaped(keys[i as int])),
            context,
            so_far.places,
        );
        if so_far.next <= one.next <= nodes.len() {
            let entries = if so_far.next < nodes.len() && nodes[so_far.next].shape is Missing {
                so_far.entries
            } else {
                inserted(so_far.entries, keys[i as int], one.value)
            };
            lemma_entries_go_on(
                bytes,
                nodes,
                keys,
                i + 1,
                path,
                context,
                WalkedEntries { entries, next: one.next, places: one.places },
            );
        }
    }
}

/// A walk goes forward, and no further than the nodes.
proof fn lemma_node_goes_on(
    bytes: Seq<u8>,
    nodes: Seq<TomlNodeModel>,
    k: int,
    path: Seq<Seq<char>>,
    context: SpanContext,
    places: Places,
)
    requires
        0 <= k <= nodes.len(),
    ensures
        k <= walked_node(bytes, nodes, k, path, context, places).next <= nodes.len(),
{
    if k < nodes.len() {
        let items = WalkedItems { items: Seq::empty(), next: k + 1, places };
        let entries = WalkedEntries { entries: Seq::empty(), next: k + 1, places };
        match nodes[k].shape {
            ShapeModel::List(n) => {
                lemma_items_go_on(bytes, nodes, n, 0, path, SpanContext::FlowSeqItem, items);
            },
            ShapeModel::Tables(n) => {
                lemma_items_go_on(bytes, nodes, n, 0, path, SpanContext::BlockMapValue, items);
            },
            ShapeModel::Inline(keys) => {
                lemma_entries_go_on(
                    bytes,
                    nodes,
                    keys,
                    0,
                    path,
                    SpanContext::FlowMapValue,
                    entries,
                );
            },
            ShapeModel::Table(keys) => {
                lemma_entries_go_on(
                    bytes,
                    nodes,
                    keys,
                    0,
                    path,
                    SpanContext::BlockMapValue,
                    entries,
                );
            },
            _ => {},
        }
    }
}

/// Records where a value stands, where it is known.
pub fn record_scalar(
    bytes: &[u8],
    span: Option<(usize, usize)>,
    path: &Vec<String>,
    context: SpanContext,
    spans: &mut SpanMap,
)
    ensures
        span_entries(*final(spans)) == recorded(
            bytes@,
            span,
            texts(path@),
            context,
            span_entries(*old(spans)),
        ),
{
    match span {
        None => {},
        Some((start, end)) => {
            let pointer: String = pointer_for(path);
            let indent: u32 = compute_indent(bytes, start);
            let value_span: ValueSpan = make_span(bytes, start, end, indent, context);
            span_map_insert(spans, pointer, value_span);
        },
    }
}

/// The text of a date or time.
fn moment_literal(bytes: &[u8], span: Option<(usize, usize)>, shown: &String) -> (r: String)
    ensures
        r@ == moment_text(bytes@, span, shown@),
{
    match span {
        Some((start, end)) => {
            if start <= end && end <= bytes.len() {
                let literal: Vec<u8> = copy_bytes(bytes, start, end);
                lossy_text(literal.as_slice())
            } else {
                shown.clone()
            }
        },
        None => shown.clone(),
    }
}

/// Walks the node at `k`.
pub fn walk_value_with_context(
    bytes: &[u8],
    nodes: &Vec<TomlNode>,
    k: usize,
    path: &mut Vec<String>,
    context: SpanContext,
    spans: &mut SpanMap,
) -> (r: (Value, usize))
    requires
        k <= nodes@.len(),
    ensures
        texts(final(path)@) == texts(old(path)@),
        (Walked { value: r.0@, next: r.1 as int, places: span_entries(*final(spans)) })
            == walked_node(
            bytes@,
            toml_models(nodes@),
            k as int,
            texts(old(path)@),
            context,
            span_entries(*old(spans)),
        ),
        r.1 <= nodes@.len(),
    decreases nodes@.len() - k, 0nat,
{
    let ghost models = toml_models(nodes@);
    let ghost written = texts(path@);
    let ghost before = span_entries(*spans);
    proof {
        lemma_node_goes_on(bytes@, models, k as int, written, context, before);
    }
    if k >= nodes.len() {
        return (Value::Null, k);
    }
    assert(models[k as int] == nodes@[k as int]@);
    let span: Option<(usize, usize)> = nodes[k].span;
    match &nodes[k].shape {
        TomlShape::Missing => (Value::Null, k + 1),
        TomlShape::List(n) => {
            if *n == 0 {
                record_scalar(bytes, span, path, SpanContext::FlowSeqItem, spans);
                let none: Vec<Value> = Vec::new();
                proof {
                    lemma_array_view(none);
                    assert(trees(none@) =~= Seq::<Tree>::empty());
                }
                return (Value::Array(none), k + 1);
            }
            let (items, next): (Vec<Value>, usize) = walk_items(
                bytes,
                nodes,
                k + 1,
                *n,
                path,
                SpanContext::FlowSeqItem,
                spans,
            );
            proof {
                lemma_array_view(items);
            }
            (Value::Array(items), next)
        },
        TomlShape::Tables(n) => {
            let (items, next): (Vec<Value>, usize) = walk_items(
                bytes,
                nodes,
                k + 1,
                *n,
                path,
                SpanContext::BlockMapValue,
                spans,
            );
            proof {
                lemma_array_view(items);
            }
            (Value::Array(items), next)
        },
        TomlShape::Inline(keys) => {
            if keys.len() == 0 {
                record_scalar(bytes, span, path, SpanContext::FlowMapValue, spans);
                let none: ValueMap = ValueMap::new();
                proof {
                    lemma_object_view(none);
                }
                return (Value::Object(none), k + 1);
            }
            let (map, next): (ValueMap, usize) = walk_table(
                bytes,
                nodes,
                k + 1,
                keys,
                path,
                SpanContext::FlowMapValue,
                spans,
            );
            proof {
                lemma_object_view(map);
            }
            (Value::Object(map), next)
        },
        TomlShape::Table(keys) => {
            let (map, next): (ValueMap, usize) = walk_table(
                bytes,
                nodes,
                k + 1,
                keys,
                path,
                SpanContext::BlockMapValue,
                spans,
            );
            proof {
                lemma_object_view(map);
            }
            (Value::Object(map), next)
        },
        TomlShape::Words(s) => {
            record_scalar(bytes, span, path, context, spans);
            (Value::String(s.clone()), k + 1)
        },
        TomlShape::Moment(s) => {
            record_scalar(bytes, span, path, context, spans);
            (Value::String(moment_literal(bytes, span, s)), k + 1)
        },
        TomlShape::Whole(n) => {
            record_scalar(bytes, span, path, context, spans);
            (Value::Int(*n), k + 1)
        },
        TomlShape::Real(s) => {
            record_scalar(bytes, span, path, context, spans);
            (Value::Float(s.clone()), k + 1)
        },
        TomlShape::Truth(b) => {
            record_scalar(bytes, span, path, context, spans);
            (Value::Bool(*b), k + 1)
        },
    }
}

/// Walks the `n` items of a list, the first of them at `k`.
pub fn walk_items(
    bytes: &[u8],
    nodes: &Vec<TomlNode>,
    k: usize,
    n: usize,
    path: &mut Vec<String>,
    context: SpanContext,
    spans: &mut SpanMap,
) -> (r: (Vec<Value>, usize))
    requires
        k <= nodes@.len(),
    ensures
        texts(final(path)@) == texts(old(path)@),
        (WalkedItems {
            items: trees(r.0@),
            next: r.1 as int,
            places: span_entries(*final(spans)),
        }) == walked_items(
            bytes@,
            toml_models(nodes@),
            n as nat,
            0,
            texts(old(path)@),
            context,
            (WalkedItems {
                items: Seq::empty(),
                next: k as int,
                places: span_entries(*old(spans)),
            }),
        ),
    decreases nodes@.len() - k, 1nat,
{
    let ghost models = toml_models(nodes@);
    let ghost written = texts(path@);
    let ghost whole = walked_items(
        bytes@,
        models,
        n as nat,
        0,
        written,
        context,
        WalkedItems { items: Seq::empty(), next: k as int, places: span_entries(*spans) },
    );
    let mut out: Vec<Value> = Vec::new();
    let mut next: usize = k;
    let mut i: usize = 0;
    assert(trees(out@) =~= Seq::<Tree>::empty());
    while i < n
        invariant
            i <= n,
            k <= next <= nodes@.len(),
            models == toml_models(nodes@),
            texts(path@) == written,
            written == texts(old(path)@),
            whole == walked_items(
                bytes@,
                models,
                n as nat,
                i as nat,
                written,
                context,
                WalkedItems {
                    items: trees(out@),
                    next: next as int,
                    places: span_entries(*spans),
                },
            ),
        decreases n - i,
    {
        let ghost items = trees(out@);
        let ghost before = path@;
        proof {
            lemma_node_goes_on(
                bytes@,
                models,
                next as int,
                written.push(decimal(i as nat)),
                context,
                span_entries(*spans),
            );
        }
        let text: String = index_text(i);
        path.push(text);
        assert(texts(path@) =~= written.push(decimal(i as nat)));
        let (value, after): (Value, usize) = walk_value_with_context(
            bytes,
            nodes,
            next,
            path,
            context,
            spans,
        );
        pop_last(path);
        assert(texts(path@) =~= written);
        let ghost one = value@;
        out.push(value);
        assert(trees(out@) =~= items.push(one));
        next = after;
        i += 1;
    }
    (out, next)
}

/// Walks the entries of a table, the value of the first key at `k`.
pub fn walk_table(
    bytes: &[u8],
    nodes: &Vec<TomlNode>,
    k: usize,
    keys: &Vec<String>,
    path: &mut Vec<String>,
    context: SpanContext,
    spans: &mut SpanMap,
) -> (r: (ValueMap, usize))
    requires
        k <= nodes@.len(),
    ensures
        texts(final(path)@) == texts(old(path)@),
        (WalkedEntries { entries: r.0@, next: r.1 as int, places: span_entries(*final(spans)) })
            == walked_entries(
            bytes@,
            toml_models(nodes@),
            texts(keys@),
            0,
            texts(old(path)@),
            context,
            (WalkedEntries {
                entries: Seq::empty(),
                next: k as int,
                places: span_entries(*old(spans)),
            }),
        ),
    decreases nodes@.len() - k, 1nat,
{
    let ghost models = toml_models(nodes@);
    let ghost names = texts(keys@);
    let ghost written = texts(path@);
    let ghost whole = walked_entries(
        bytes@,
        models,
        names,
        0,
        written,
        context,
        WalkedEntries { entries: Seq::empty(), next: k as int, places: span_entries(*spans) },
    );
    let mut out: ValueMap = ValueMap::new();
    let mut next: usize = k;
    let mut i: usize = 0;
    while i < keys.len()
        invariant
            i <= keys@.len(),
            k <= next <= nodes@.len(),
            models == toml_models(nodes@),
            names == texts(keys@),
            texts(path@) == written,
            written == texts(old(path)@),
            whole == walked_entries(
                bytes@,
                models,
                names,
                i as nat,
                written,
                context,
                WalkedEntries { entries: out@, next: next as int, places: span_entries(*spans) },
            ),
        decreases keys@.len() - i,
    {
        assert(names[i as int] == keys@[i as int]@);
        proof {
            lemma_node_goes_on(
                bytes@,
                models,
                next as int,
                written.push(escaped(names[i as int])),
                context,
                span_entries(*spans),
            );
        }
        let missing: bool = if next < nodes.len() {
            assert(models[next as int] == nodes@[next as int]@);
            match &nodes[next].shape {
                TomlShape::Missing => true,
                _ => false,
            }
        } else {
            false
        };
        let text: String = escape_segment(keys[i].as_str());
        path.push(text);
        assert(texts(path@) =~= written.push(escaped(names[i as int])));
        let (value, after): (Value, usize) = walk_value_with_context(
            bytes,
            nodes,
            next,
            path,
            context,
            spans,
        );
        pop_last(path);
        assert(texts(path@) =~= written);
        if !missing {
            out.insert(keys[i].clone(), value);
        }
        next = after;
        i += 1;
    }
    (out, next)
}

fn pop_last(path: &mut Vec<String>)
    requires
        old(path)@.len() > 0,
    ensures
        texts(final(path)@) == texts(old(path)@).drop_last(),
{
    let _last: Option<String> = path.pop();
    assert(texts(path@) =~= texts(old(path)@).drop_last());
}

} // verus!
