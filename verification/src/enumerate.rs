//! Pre-order enumeration of every node of a document.

use crate::document::{DocModel, Document};
use crate::pointer::{copy_segments, segs, Pointer, Seg, Segment};
use crate::resolve::{step, walked};
use crate::value::{
    lemma_array_view, lemma_key_index_is, lemma_object_view, trees, type_label_of, unique_keys,
    Tree, Value, ValueMap,
};
use vstd::prelude::*;

verus! {

/// A node: its pointer and the name of its type.
pub type NodeModel = (Seq<Seg>, Seq<char>);

/// The nodes of `t` in pre-order, at `path`: a container comes first, its
/// children follow in order.
pub open spec fn nodes_of(t: Tree, path: Seq<Seg>) -> Seq<NodeModel>
    decreases t, 0nat,
{
    seq![(path, type_label_of(t))] + match t {
        Tree::Array(items) => item_nodes(items, items.len(), path),
        Tree::Object(entries) => member_nodes(entries, entries.len(), path),
        _ => Seq::empty(),
    }
}

/// The nodes of the first `k` items.
pub open spec fn item_nodes(items: Seq<Tree>, k: nat, path: Seq<Seg>) -> Seq<NodeModel>
    decreases items, k,
{
    if k == 0 || k > items.len() {
        Seq::empty()
    } else {
        item_nodes(items, (k - 1) as nat, path) + nodes_of(
            items[k - 1],
            path.push(Seg::Index((k - 1) as nat)),
        )
    }
}

/// The nodes of the first `k` members.
pub open spec fn member_nodes(entries: Seq<(Seq<char>, Tree)>, k: nat, path: Seq<Seg>) -> Seq<
    NodeModel,
>
    decreases entries, k,
{
    if k == 0 || k > entries.len() {
        Seq::empty()
    } else {
        member_nodes(entries, (k - 1) as nat, path) + nodes_of(
            entries[k - 1].1,
            path.push(Seg::Key(entries[k - 1].0)),
        )
    }
}

/// The nodes of a document; those of a stream stand below their index.
pub open spec fn document_nodes(m: DocModel) -> Seq<NodeModel> {
    match m.values() {
        Some(items) => item_nodes(items, items.len(), Seq::empty()),
        None => nodes_of(m.value, Seq::empty()),
    }
}

/// The models of enumerated nodes.
pub open spec fn node_models(out: Seq<(Pointer, &'static str)>) -> Seq<NodeModel> {
    Seq::new(out.len(), |i: int| (out[i].0@, out[i].1@))
}

/// Walks the document in pre-order.
pub fn enumerate_pointers(doc: &Document) -> (r: Vec<(Pointer, &'static str)>)
    ensures
        node_models(r@) == document_nodes(doc@),
{
    let mut out: Vec<(Pointer, &'static str)> = Vec::new();
    let mut path: Vec<Segment> = Vec::new();
    assert(segs(path@) =~= Seq::<Seg>::empty());
    assert(node_models(out@) =~= Seq::<NodeModel>::empty());
    match doc.values() {
        Some(items) => {
            let ghost all = trees(items@);
            let mut i: usize = 0;
            while i < items.len()
                invariant
                    i <= items@.len(),
                    all == trees(items@),
                    segs(path@) == Seq::<Seg>::empty(),
                    node_models(out@) == item_nodes(all, i as nat, Seq::empty()),
                decreases items@.len() - i,
            {
                let ghost before = path@;
                path.push(Segment::Index(i));
                assert(segs(path@) =~= Seq::<Seg>::empty().push(Seg::Index(i as nat)));
                walk(&items[i], &mut path, &mut out);
                assert(all[i as int] == items@[i as int]@);
                let _last: Option<Segment> = path.pop();
                assert(segs(path@) =~= Seq::<Seg>::empty());
                i += 1;
            }
        },
        None => {
            walk(doc.value(), &mut path, &mut out);
            assert(node_models(out@) =~= nodes_of(doc@.value, Seq::empty()));
        },
    }
    out
}

/// Appends the nodes of `value` at `path`.
fn walk(value: &Value, path: &mut Vec<Segment>, out: &mut Vec<(Pointer, &'static str)>)
    ensures
        segs(final(path)@) == segs(old(path)@),
        node_models(final(out)@) == node_models(old(out)@) + nodes_of(value@, segs(old(path)@)),
    decreases value, 1int,
{
    broadcast use {lemma_array_view, lemma_object_view};

    let ghost here = segs(path@);
    let ghost start = node_models(out@);
    let pointer: Pointer = Pointer::new(copy_segments(path.as_slice(), path.len()));
    assert(pointer@ =~= here);
    out.push((pointer, value.type_label()));
    let ghost opened = node_models(out@);
    assert(opened =~= start + seq![(here, type_label_of(value@))]);
    match value {
        Value::Array(items) => {
            let ghost all = trees(items@);
            let mut i: usize = 0;
            assert(opened + item_nodes(all, 0, here) =~= opened);
            while i < items.len()
                invariant
                    *value == Value::Array(*items),
                    i <= items@.len(),
                    all == trees(items@),
                    segs(path@) == here,
                    node_models(out@) == opened + item_nodes(all, i as nat, here),
                decreases items@.len() - i,
            {
                let ghost before = item_nodes(all, i as nat, here);
                path.push(Segment::Index(i));
                assert(segs(path@) =~= here.push(Seg::Index(i as nat)));
                assert(decreases_to!(*value => value->Array_0));
                assert(decreases_to!(*items => items@));
                assert(decreases_to!(items@ => items@[i as int]));
                walk(&items[i], path, out);
                assert(all[i as int] == items@[i as int]@);
                assert(node_models(out@) =~= opened + (before + nodes_of(
                    all[i as int],
                    here.push(Seg::Index(i as nat)),
                )));
                let ghost longer = segs(path@);
                let _last: Option<Segment> = path.pop();
                assert(segs(path@) =~= longer.drop_last());
                assert(segs(path@) =~= here);
                i += 1;
            }
        },
        Value::Object(map) => walk_members(map, path, out),
        _ => {},
    }
    assert(node_models(out@) =~= start + nodes_of(value@, here));
}

/// Appends the nodes of the members of `map` at `path`.
fn walk_members(map: &ValueMap, path: &mut Vec<Segment>, out: &mut Vec<(Pointer, &'static str)>)
    ensures
        segs(final(path)@) == segs(old(path)@),
        node_models(final(out)@) == node_models(old(out)@) + member_nodes(
            map@,
            map@.len(),
            segs(old(path)@),
        ),
    decreases map, 0int,
{
    let ghost here = segs(path@);
    let ghost opened = node_models(out@);
    let mut i: usize = 0;
    assert(opened + member_nodes(map@, 0, here) =~= opened);
    while i < map.entries.len()
        invariant
            i <= map.entries@.len(),
            segs(path@) == here,
            node_models(out@) == opened + member_nodes(map@, i as nat, here),
        decreases map.entries@.len() - i,
    {
        let ghost before = member_nodes(map@, i as nat, here);
        path.push(Segment::Key(map.entries[i].0.clone()));
        assert(segs(path@) =~= here.push(Seg::Key(map.entries@[i as int].0@)));
        assert(decreases_to!(*map => map.entries));
        assert(decreases_to!(map.entries => map.entries@));
        assert(decreases_to!(map.entries@ => map.entries@[i as int]));
        assert(decreases_to!(map.entries@[i as int] => map.entries@[i as int].1));
        walk(&map.entries[i].1, path, out);
        assert(map@[i as int] == (map.entries@[i as int].0@, map.entries@[i as int].1@));
        assert(node_models(out@) =~= opened + (before + nodes_of(
            map@[i as int].1,
            here.push(Seg::Key(map@[i as int].0)),
        )));
        let ghost longer = segs(path@);
        let _last: Option<Segment> = path.pop();
        assert(segs(path@) =~= longer.drop_last());
        assert(segs(path@) =~= here);
        i += 1;
    }
}

// ---------------------------------------------------------------------------
// Laws
// ---------------------------------------------------------------------------

/// Whether no object anywhere in `t` has a key twice.
pub open spec fn keys_unique_below(t: Tree) -> bool
    decreases t,
{
    match t {
        Tree::Array(items) => forall|i: int|
            0 <= i < items.len() ==> keys_unique_below(#[trigger] items[i]),
        Tree::Object(entries) => unique_keys(entries) && forall|i: int|
            0 <= i < entries.len() ==> keys_unique_below((#[trigger] entries[i]).1),
        _ => true,
    }
}

/// Whether an enumerated node is what its pointer, taken from `base` on,
/// addresses in `t`.
pub open spec fn addresses(t: Tree, base: Seq<Seg>, node: NodeModel) -> bool {
    let rest = node.0.subrange(base.len() as int, node.0.len() as int);
    &&& base.len() <= node.0.len()
    &&& node.0.subrange(0, base.len() as int) == base
    &&& walked(t, rest, Seq::empty(), node.0) is Ok
    &&& type_label_of(walked(t, rest, Seq::empty(), node.0)->Ok_0) == node.1
}

/// A node below a child is a node below its parent.
proof fn lemma_addresses_up(t: Tree, base: Seq<Seg>, seg: Seg, node: NodeModel)
    requires
        step(t, seg) is Ok,
        addresses(step(t, seg)->Ok_0.1, base.push(seg), node),
    ensures
        addresses(t, base, node),
{
    let child = step(t, seg)->Ok_0.1;
    let longer = base.push(seg);
    let n = node.0.len() as int;
    let rest = node.0.subrange(base.len() as int, n);
    let below = node.0.subrange(longer.len() as int, n);
    assert(node.0.subrange(0, longer.len() as int)[base.len() as int] == seg);
    assert(rest[0] == seg);
    assert(rest.subrange(1, rest.len() as int) =~= below);
    assert(node.0.subrange(0, base.len() as int) =~= longer.drop_last());
    assert(longer.drop_last() =~= base);
    crate::resolve::lemma_walked_same_node(
        child,
        below,
        Seq::empty(),
        node.0,
        Seq::empty().push(step(t, seg)->Ok_0.0),
        node.0,
    );
}

/// Every enumerated pointer leads to a node of the type it is listed with.
pub proof fn law_enumerated_pointers_resolve(t: Tree, base: Seq<Seg>)
    requires
        keys_unique_below(t),
    ensures
        forall|i: int|
            0 <= i < nodes_of(t, base).len() ==> addresses(t, base, #[trigger] nodes_of(t, base)[i]),
    decreases t, 0nat,
{
    let all = nodes_of(t, base);
    assert forall|i: int| 0 <= i < all.len() implies addresses(t, base, #[trigger] all[i]) by {
        if i == 0 {
            assert(all[0] == (base, type_label_of(t)));
            assert(base.subrange(0, base.len() as int) =~= base);
            assert(base.subrange(base.len() as int, base.len() as int) =~= Seq::<Seg>::empty());
        } else {
            match t {
                Tree::Array(items) => {
                    lemma_item_nodes(t, items, items.len(), base);
                    assert(all[i] == item_nodes(items, items.len(), base)[i - 1]);
                },
                Tree::Object(entries) => {
                    lemma_member_nodes(t, entries, entries.len(), base);
                    assert(all[i] == member_nodes(entries, entries.len(), base)[i - 1]);
                },
                _ => {},
            }
        }
    }
}

proof fn lemma_item_nodes(t: Tree, items: Seq<Tree>, k: nat, base: Seq<Seg>)
    requires
        t == Tree::Array(items),
        k <= items.len(),
        keys_unique_below(t),
    ensures
        forall|i: int|
            0 <= i < item_nodes(items, k, base).len() ==> addresses(
                t,
                base,
                #[trigger] item_nodes(items, k, base)[i],
            ),
    decreases items, k,
{
    if k > 0 {
        let at = k - 1;
        let seg = Seg::Index(at as nat);
        lemma_item_nodes(t, items, at as nat, base);
        let before = item_nodes(items, at as nat, base);
        match t {
            Tree::Array(inner) => {
                assert(inner == items);
                assert(forall|i: int| 0 <= i < inner.len() ==> keys_unique_below(#[trigger] inner[i]));
            },
            _ => {},
        }
        assert(keys_unique_below(items[k - 1]));
        law_enumerated_pointers_resolve(items[at], base.push(seg));
        let below = nodes_of(items[at], base.push(seg));
        assert forall|i: int| 0 <= i < item_nodes(items, k, base).len() implies addresses(
            t,
            base,
            #[trigger] item_nodes(items, k, base)[i],
        ) by {
            if i < before.len() {
                assert(item_nodes(items, k, base)[i] == before[i]);
            } else {
                assert(item_nodes(items, k, base)[i] == below[i - before.len()]);
                lemma_addresses_up(t, base, seg, below[i - before.len()]);
            }
        }
    }
}

proof fn lemma_member_nodes(t: Tree, entries: Seq<(Seq<char>, Tree)>, k: nat, base: Seq<Seg>)
    requires
        t == Tree::Object(entries),
        k <= entries.len(),
        keys_unique_below(t),
    ensures
        forall|i: int|
            0 <= i < member_nodes(entries, k, base).len() ==> addresses(
                t,
                base,
                #[trigger] member_nodes(entries, k, base)[i],
            ),
    decreases entries, k,
{
    if k > 0 {
        let at = k - 1;
        let seg = Seg::Key(entries[at].0);
        lemma_member_nodes(t, entries, at as nat, base);
        let before = member_nodes(entries, at as nat, base);
        assert(keys_unique_below(entries[at].1));
        law_enumerated_pointers_resolve(entries[at].1, base.push(seg));
        let below = nodes_of(entries[at].1, base.push(seg));
        assert forall|j: int| 0 <= j < at implies (#[trigger] entries[j]).0 != entries[at].0 by {}
        lemma_key_index_is(entries, entries[at].0, at);
        assert forall|i: int| 0 <= i < member_nodes(entries, k, base).len() implies addresses(
            t,
            base,
            #[trigger] member_nodes(entries, k, base)[i],
        ) by {
            if i < before.len() {
                assert(member_nodes(entries, k, base)[i] == before[i]);
            } else {
                assert(member_nodes(entries, k, base)[i] == below[i - before.len()]);
                lemma_addresses_up(t, base, seg, below[i - before.len()]);
            }
        }
    }
}

} // verus!
