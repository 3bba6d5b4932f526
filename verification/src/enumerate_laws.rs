//! What an enumeration lists: every node once, and its parent before it.

use crate::document::DocModel;
use crate::enumerate::{
    document_nodes, item_nodes, keys_unique_below, member_nodes, nodes_of, NodeModel,
};
use crate::pointer::Seg;
use crate::resolve::{resolved, step, walked};
use crate::value::{key_index, lemma_key_index, type_label_of, unique_keys, Tree};
use vstd::prelude::*;

verus! {

/// Whether a pointer starts with `base`.
pub open spec fn starts_at(p: Seq<Seg>, base: Seq<Seg>) -> bool {
    base.len() <= p.len() && p.subrange(0, base.len() as int) == base
}

proof fn lemma_starts_above(p: Seq<Seg>, base: Seq<Seg>, seg: Seg)
    requires
        starts_at(p, base.push(seg)),
    ensures
        starts_at(p, base),
        p.len() > base.len(),
        p[base.len() as int] == seg,
{
    let longer = base.push(seg);
    assert(p.subrange(0, longer.len() as int)[base.len() as int] == seg);
    assert(p.subrange(0, base.len() as int) =~= longer.drop_last());
    assert(longer.drop_last() =~= base);
}

// ---------------------------------------------------------------------------
// Parents first
// ---------------------------------------------------------------------------

/// Whether a list that follows `base` names every parent before its children:
/// each pointer extends `base` or one that stands before it, by one segment.
pub open spec fn parents_first(list: Seq<NodeModel>, base: Seq<Seg>) -> bool {
    forall|j: int|
        0 <= j < list.len() ==> (#[trigger] list[j]).0.len() > base.len() && starts_at(
            list[j].0,
            base,
        ) && (list[j].0.drop_last() == base || exists|i: int|
            0 <= i < j && (#[trigger] list[i]).0 == list[j].0.drop_last())
}

proof fn lemma_parents_joined(
    before: Seq<NodeModel>,
    node: Seq<char>,
    below: Seq<NodeModel>,
    base: Seq<Seg>,
    seg: Seg,
)
    requires
        parents_first(before, base),
        parents_first(below, base.push(seg)),
    ensures
        parents_first(before + (seq![(base.push(seg), node)] + below), base),
{
    let list = before + (seq![(base.push(seg), node)] + below);
    let n = before.len() as int;
    assert forall|j: int| 0 <= j < list.len() implies (#[trigger] list[j]).0.len() > base.len()
        && starts_at(list[j].0, base) && (list[j].0.drop_last() == base || exists|i: int|
        0 <= i < j && (#[trigger] list[i]).0 == list[j].0.drop_last()) by {
        if j < n {
            assert(list[j] == before[j]);
            if before[j].0.drop_last() != base {
                let i = choose|i: int|
                    0 <= i < j && (#[trigger] before[i]).0 == before[j].0.drop_last();
                assert(list[i] == before[i]);
            }
        } else if j == n {
            assert(list[j].0 == base.push(seg));
            assert(base.push(seg).drop_last() =~= base);
            assert(base.push(seg).subrange(0, base.len() as int) =~= base);
        } else {
            let k = j - n - 1;
            assert(list[j] == below[k]);
            lemma_starts_above(below[k].0, base, seg);
            if below[k].0.drop_last() == base.push(seg) {
                assert(list[n].0 == base.push(seg));
            } else {
                let i = choose|i: int|
                    0 <= i < k && (#[trigger] below[i]).0 == below[k].0.drop_last();
                assert(list[n + 1 + i] == below[i]);
            }
        }
    }
}

proof fn lemma_nodes_below(t: Tree, base: Seq<Seg>)
    ensures
        nodes_of(t, base).len() > 0,
        nodes_of(t, base)[0] == (base, type_label_of(t)),
        parents_first(nodes_of(t, base).subrange(1, nodes_of(t, base).len() as int), base),
    decreases t, 0nat,
{
    let all = nodes_of(t, base);
    let rest = all.subrange(1, all.len() as int);
    match t {
        Tree::Array(items) => {
            lemma_items_below(items, items.len(), base);
            assert(rest =~= item_nodes(items, items.len(), base));
        },
        Tree::Object(entries) => {
            lemma_members_below(entries, entries.len(), base);
            assert(rest =~= member_nodes(entries, entries.len(), base));
        },
        _ => {
            assert(rest.len() == 0);
        },
    }
}

proof fn lemma_items_below(items: Seq<Tree>, k: nat, base: Seq<Seg>)
    ensures
        parents_first(item_nodes(items, k, base), base),
    decreases items, k,
{
    if 0 < k <= items.len() {
        let at = (k - 1) as nat;
        lemma_items_below(items, at, base);
        assert(decreases_to!(items => items[k - 1]));
        let seg = Seg::Index(at);
        lemma_nodes_below(items[k - 1], base.push(seg));
        let child = nodes_of(items[k - 1], base.push(seg));
        let below = child.subrange(1, child.len() as int);
        lemma_parents_joined(
            item_nodes(items, at, base),
            type_label_of(items[k - 1]),
            below,
            base,
            seg,
        );
        assert(child =~= seq![(base.push(seg), type_label_of(items[k - 1]))] + below);
    }
}

proof fn lemma_members_below(entries: Seq<(Seq<char>, Tree)>, k: nat, base: Seq<Seg>)
    ensures
        parents_first(member_nodes(entries, k, base), base),
    decreases entries, k,
{
    if 0 < k <= entries.len() {
        let at = (k - 1) as nat;
        lemma_members_below(entries, at, base);
        assert(decreases_to!(entries => entries[k - 1]));
        assert(decreases_to!(entries[k - 1] => entries[k - 1].1));
        let seg = Seg::Key(entries[k - 1].0);
        let value = entries[k - 1].1;
        lemma_nodes_below(value, base.push(seg));
        let child = nodes_of(value, base.push(seg));
        let below = child.subrange(1, child.len() as int);
        lemma_parents_joined(
            member_nodes(entries, at, base),
            type_label_of(value),
            below,
            base,
            seg,
        );
        assert(child =~= seq![(base.push(seg), type_label_of(value))] + below);
    }
}

/// A container is listed before what it holds: the document itself first, and
/// of every other node the parent stands somewhere before it.
pub proof fn law_parents_are_listed_first(t: Tree, base: Seq<Seg>)
    ensures
        nodes_of(t, base).len() > 0,
        nodes_of(t, base)[0] == (base, type_label_of(t)),
        forall|j: int|
            0 < j < nodes_of(t, base).len() ==> exists|i: int|
                0 <= i < j && (#[trigger] nodes_of(t, base)[i]).0 == (
                #[trigger] nodes_of(t, base)[j]).0.drop_last(),
{
    lemma_nodes_below(t, base);
    let all = nodes_of(t, base);
    let rest = all.subrange(1, all.len() as int);
    assert forall|j: int| 0 < j < all.len() implies exists|i: int|
        0 <= i < j && (#[trigger] all[i]).0 == (#[trigger] all[j]).0.drop_last() by {
        assert(rest[j - 1] == all[j]);
        if all[j].0.drop_last() == base {
            assert(all[0].0 == base);
        } else {
            let i = choose|i: int|
                0 <= i < j - 1 && (#[trigger] rest[i]).0 == rest[j - 1].0.drop_last();
            assert(all[i + 1] == rest[i]);
        }
    }
}

// ---------------------------------------------------------------------------
// Once each
// ---------------------------------------------------------------------------

/// Whether no pointer stands in a list twice.
pub open spec fn listed_once(list: Seq<NodeModel>) -> bool {
    forall|i: int, j: int|
        0 <= i < j < list.len() ==> (#[trigger] list[i]).0 != (#[trigger] list[j]).0
}

proof fn lemma_nodes_start(t: Tree, base: Seq<Seg>)
    ensures
        forall|i: int|
            0 <= i < nodes_of(t, base).len() ==> starts_at((#[trigger] nodes_of(t, base)[i]).0, base),
{
    lemma_nodes_below(t, base);
    let all = nodes_of(t, base);
    let rest = all.subrange(1, all.len() as int);
    assert forall|i: int| 0 <= i < all.len() implies starts_at((#[trigger] all[i]).0, base) by {
        if i == 0 {
            assert(base.subrange(0, base.len() as int) =~= base);
        } else {
            assert(rest[i - 1] == all[i]);
        }
    }
}

/// The pointers of a tree in which no object has a key twice are listed once
/// each.
pub proof fn law_no_pointer_is_listed_twice(t: Tree, base: Seq<Seg>)
    requires
        keys_unique_below(t),
    ensures
        listed_once(nodes_of(t, base)),
    decreases t, 0nat,
{
    let all = nodes_of(t, base);
    lemma_nodes_below(t, base);
    let rest = all.subrange(1, all.len() as int);
    match t {
        Tree::Array(items) => {
            lemma_items_once(t, items, items.len(), base);
            assert(rest =~= item_nodes(items, items.len(), base));
        },
        Tree::Object(entries) => {
            lemma_members_once(t, entries, entries.len(), base);
            assert(rest =~= member_nodes(entries, entries.len(), base));
        },
        _ => {
            assert(rest.len() == 0);
        },
    }
    assert forall|i: int, j: int| 0 <= i < j < all.len() implies (#[trigger] all[i]).0 != (
    #[trigger] all[j]).0 by {
        assert(rest[j - 1] == all[j]);
        if i == 0 {
            assert(rest[j - 1].0.len() > base.len());
        } else {
            assert(rest[i - 1] == all[i]);
        }
    }
}

proof fn lemma_items_once(t: Tree, items: Seq<Tree>, k: nat, base: Seq<Seg>)
    requires
        t == Tree::Array(items),
        k <= items.len(),
        keys_unique_below(t),
    ensures
        listed_once(item_nodes(items, k, base)),
        forall|i: int|
            0 <= i < item_nodes(items, k, base).len() ==> (#[trigger] item_nodes(
                items,
                k,
                base,
            )[i]).0.len() > base.len() && (item_nodes(items, k, base)[i].0[base.len() as int]
                matches Seg::Index(x) && x < k),
    decreases items, k,
{
    if k > 0 {
        let at = (k - 1) as nat;
        let seg = Seg::Index(at);
        lemma_items_once(t, items, at, base);
        let before = item_nodes(items, at, base);
        match t {
            Tree::Array(inner) => {
                assert(inner == items);
                assert(forall|i: int| 0 <= i < inner.len() ==> keys_unique_below(#[trigger] inner[i]));
            },
            _ => {},
        }
        assert(keys_unique_below(items[k - 1]));
        assert(decreases_to!(items => items[k - 1]));
        law_no_pointer_is_listed_twice(items[k - 1], base.push(seg));
        lemma_nodes_start(items[k - 1], base.push(seg));
        let child = nodes_of(items[k - 1], base.push(seg));
        let list = item_nodes(items, k, base);
        assert(list =~= before + child);
        assert forall|i: int| 0 <= i < list.len() implies (#[trigger] list[i]).0.len()
            > base.len() && (list[i].0[base.len() as int] matches Seg::Index(x) && x < k) && (i
            >= before.len() ==> list[i].0[base.len() as int] == seg) by {
            if i < before.len() {
                assert(list[i] == before[i]);
            } else {
                assert(list[i] == child[i - before.len()]);
                lemma_starts_above(list[i].0, base, seg);
            }
        }
        assert forall|i: int, j: int| 0 <= i < j < list.len() implies (#[trigger] list[i]).0 != (
        #[trigger] list[j]).0 by {
            if j < before.len() {
                assert(list[i] == before[i] && list[j] == before[j]);
            } else if i >= before.len() {
                assert(list[i] == child[i - before.len()]);
                assert(list[j] == child[j - before.len()]);
            } else {
                assert(list[i] == before[i]);
                assert(list[j].0[base.len() as int] == seg);
            }
        }
    }
}

proof fn lemma_members_once(t: Tree, entries: Seq<(Seq<char>, Tree)>, k: nat, base: Seq<Seg>)
    requires
        t == Tree::Object(entries),
        k <= entries.len(),
        keys_unique_below(t),
    ensures
        listed_once(member_nodes(entries, k, base)),
        forall|i: int|
            0 <= i < member_nodes(entries, k, base).len() ==> (#[trigger] member_nodes(
                entries,
                k,
                base,
            )[i]).0.len() > base.len() && exists|x: int|
                0 <= x < k && member_nodes(entries, k, base)[i].0[base.len() as int] == Seg::Key(
                    (#[trigger] entries[x]).0,
                ),
    decreases entries, k,
{
    if k > 0 {
        let at = (k - 1) as nat;
        let key = entries[k - 1].0;
        let seg = Seg::Key(key);
        let value = entries[k - 1].1;
        lemma_members_once(t, entries, at, base);
        let before = member_nodes(entries, at, base);
        assert(unique_keys(entries) && keys_unique_below(value));
        assert(decreases_to!(entries => entries[k - 1]));
        assert(decreases_to!(entries[k - 1] => entries[k - 1].1));
        law_no_pointer_is_listed_twice(value, base.push(seg));
        lemma_nodes_start(value, base.push(seg));
        let child = nodes_of(value, base.push(seg));
        let list = member_nodes(entries, k, base);
        assert(list =~= before + child);
        assert forall|i: int| 0 <= i < list.len() implies (#[trigger] list[i]).0.len()
            > base.len() && (exists|x: int|
            0 <= x < k && list[i].0[base.len() as int] == Seg::Key((#[trigger] entries[x]).0)) && (i
            >= before.len() ==> list[i].0[base.len() as int] == seg) by {
            if i < before.len() {
                assert(list[i] == before[i]);
                let x = choose|x: int|
                    0 <= x < at && before[i].0[base.len() as int] == Seg::Key(
                        (#[trigger] entries[x]).0,
                    );
                assert(list[i].0[base.len() as int] == Seg::Key(entries[x].0));
            } else {
                assert(list[i] == child[i - before.len()]);
                lemma_starts_above(list[i].0, base, seg);
                assert(list[i].0[base.len() as int] == Seg::Key(entries[k - 1].0));
            }
        }
        assert forall|i: int, j: int| 0 <= i < j < list.len() implies (#[trigger] list[i]).0 != (
        #[trigger] list[j]).0 by {
            if j < before.len() {
                assert(list[i] == before[i] && list[j] == before[j]);
            } else if i >= before.len() {
                assert(list[i] == child[i - before.len()]);
                assert(list[j] == child[j - before.len()]);
            } else {
                assert(list[i] == before[i]);
                let x = choose|x: int|
                    0 <= x < at && before[i].0[base.len() as int] == Seg::Key(
                        (#[trigger] entries[x]).0,
                    );
                assert(entries[x].0 != key);
                assert(list[j].0[base.len() as int] == seg);
            }
        }
    }
}

// ---------------------------------------------------------------------------
// Every node
// ---------------------------------------------------------------------------

/// A pointer as it is understood on its way through `t`: what is written as a
/// key and leads into an array is an index.
pub open spec fn understood(t: Tree, p: Seq<Seg>) -> Seq<Seg>
    decreases p.len(),
{
    if p.len() == 0 {
        Seq::empty()
    } else {
        match step(t, p[0]) {
            Ok((seg, child)) => seq![seg] + understood(child, p.subrange(1, p.len() as int)),
            Err(_) => Seq::empty(),
        }
    }
}

proof fn lemma_item_listed(items: Seq<Tree>, k: nat, base: Seq<Seg>, x: nat, node: NodeModel)
    requires
        x < k <= items.len(),
        nodes_of(items[x as int], base.push(Seg::Index(x))).contains(node),
    ensures
        item_nodes(items, k, base).contains(node),
    decreases k,
{
    let list = item_nodes(items, k, base);
    let before = item_nodes(items, (k - 1) as nat, base);
    let child = nodes_of(items[k - 1], base.push(Seg::Index((k - 1) as nat)));
    assert(list =~= before + child);
    if x == k - 1 {
        let i = choose|i: int| 0 <= i < child.len() && child[i] == node;
        assert(list[before.len() + i] == node);
    } else {
        lemma_item_listed(items, (k - 1) as nat, base, x, node);
        let i = choose|i: int| 0 <= i < before.len() && before[i] == node;
        assert(list[i] == node);
    }
}

proof fn lemma_member_listed(
    entries: Seq<(Seq<char>, Tree)>,
    k: nat,
    base: Seq<Seg>,
    x: nat,
    node: NodeModel,
)
    requires
        x < k <= entries.len(),
        nodes_of(entries[x as int].1, base.push(Seg::Key(entries[x as int].0))).contains(node),
    ensures
        member_nodes(entries, k, base).contains(node),
    decreases k,
{
    let list = member_nodes(entries, k, base);
    let before = member_nodes(entries, (k - 1) as nat, base);
    let child = nodes_of(entries[k - 1].1, base.push(Seg::Key(entries[k - 1].0)));
    assert(list =~= before + child);
    if x == k - 1 {
        let i = choose|i: int| 0 <= i < child.len() && child[i] == node;
        assert(list[before.len() + i] == node);
    } else {
        lemma_member_listed(entries, (k - 1) as nat, base, x, node);
        let i = choose|i: int| 0 <= i < before.len() && before[i] == node;
        assert(list[i] == node);
    }
}

/// Whatever a pointer leads to is listed, under the pointer as it is understood
/// and with the name of its type.
pub proof fn law_every_node_is_listed(
    t: Tree,
    base: Seq<Seg>,
    p: Seq<Seg>,
    matched: Seq<Seg>,
    whole: Seq<Seg>,
)
    requires
        walked(t, p, matched, whole) is Ok,
    ensures
        nodes_of(t, base).contains(
            (base + understood(t, p), type_label_of(walked(t, p, matched, whole)->Ok_0)),
        ),
    decreases p.len(),
{
    let all = nodes_of(t, base);
    let node = (base + understood(t, p), type_label_of(walked(t, p, matched, whole)->Ok_0));
    if p.len() == 0 {
        assert(base + understood(t, p) =~= base);
        assert(all[0] == node);
    } else {
        let (seg, child) = step(t, p[0])->Ok_0;
        let rest = p.subrange(1, p.len() as int);
        law_every_node_is_listed(child, base.push(seg), rest, matched.push(seg), whole);
        assert(base.push(seg) + understood(child, rest) =~= base + (seq![seg] + understood(
            child,
            rest,
        )));
        match t {
            Tree::Array(items) => {
                let x = seg->Index_0;
                assert(seg == Seg::Index(x) && child == items[x as int]);
                lemma_item_listed(items, items.len(), base, x, node);
                let inner = item_nodes(items, items.len(), base);
                let i = choose|i: int| 0 <= i < inner.len() && inner[i] == node;
                assert(all[i + 1] == node);
            },
            Tree::Object(entries) => {
                let x = key_index(entries, seg->Key_0);
                lemma_key_index(entries, seg->Key_0);
                assert(entries[x].0 == seg->Key_0 && child == entries[x].1);
                lemma_member_listed(entries, entries.len(), base, x as nat, node);
                let inner = member_nodes(entries, entries.len(), base);
                let i = choose|i: int| 0 <= i < inner.len() && inner[i] == node;
                assert(all[i + 1] == node);
            },
            _ => {},
        }
    }
}

// ---------------------------------------------------------------------------
// Documents
// ---------------------------------------------------------------------------

/// The nodes of a document are those of its value; of a stream, all but the
/// array that holds its documents.
pub proof fn law_document_nodes(m: DocModel)
    ensures
        match m.values() {
            Some(_) => nodes_of(m.value, Seq::empty()) == seq![
                (Seq::<Seg>::empty(), type_label_of(m.value)),
            ] + document_nodes(m),
            None => document_nodes(m) == nodes_of(m.value, Seq::empty()),
        },
{
}

/// An enumeration of a document in which no object has a key twice lists no
/// pointer twice.
pub proof fn law_document_pointers_are_listed_once(m: DocModel)
    requires
        keys_unique_below(m.value),
    ensures
        listed_once(document_nodes(m)),
{
    law_document_nodes(m);
    law_no_pointer_is_listed_twice(m.value, Seq::empty());
    if m.values() is Some {
        let all = nodes_of(m.value, Seq::empty());
        let list = document_nodes(m);
        assert forall|i: int, j: int| 0 <= i < j < list.len() implies (#[trigger] list[i]).0 != (
        #[trigger] list[j]).0 by {
            assert(all[i + 1] == list[i] && all[j + 1] == list[j]);
        }
    }
}

/// An enumeration of a document lists whatever a pointer addresses in it, but
/// for the array that holds the documents of a stream.
pub proof fn law_every_document_node_is_listed(m: DocModel, p: Seq<Seg>)
    requires
        resolved(m.value, p) is Ok,
        m.values() is Some ==> p.len() > 0,
    ensures
        document_nodes(m).contains(
            (understood(m.value, p), type_label_of(resolved(m.value, p)->Ok_0)),
        ),
{
    let none = Seq::<Seg>::empty();
    let all = nodes_of(m.value, none);
    let list = document_nodes(m);
    let node = (understood(m.value, p), type_label_of(resolved(m.value, p)->Ok_0));
    law_document_nodes(m);
    law_every_node_is_listed(m.value, none, p, none, p);
    assert(none + understood(m.value, p) =~= understood(m.value, p));
    if m.values() is Some {
        let i = choose|i: int| 0 <= i < all.len() && all[i] == node;
        assert(understood(m.value, p).len() > 0);
        assert(i > 0);
        assert(list[i - 1] == node);
    }
}

} // verus!
