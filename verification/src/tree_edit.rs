//! Setting and deleting values inside a value tree.

use crate::error::{texts, Error, Fault, PathErrorKind, PathFault};
use crate::numbers::{parse_index, parsed_index};
use crate::pointer::{canonical, segs, Pointer, Seg, Segment};
use crate::resolve::{step, walked};
use crate::text::{chars_of, same_text};
use crate::value::{
    has_key, inserted, key_index, law_insert_lookup, lemma_array_view, lemma_key_index,
    lemma_object_view, lookup, removed, trees, type_label_of, Tree, Value, ValueMap,
};
use vstd::prelude::*;

verus! {

/// The child under `k`, or an empty object where there is none.
pub open spec fn child_or_new(entries: Seq<(Seq<char>, Tree)>, k: Seq<char>) -> Tree {
    match lookup(entries, k) {
        Some(child) => child,
        None => Tree::Object(Seq::empty()),
    }
}

/// The segment is of the wrong kind for the container.
pub open spec fn mismatch(expected: Seq<char>, found: Seq<char>) -> PathFault {
    PathFault::TypeMismatch { expected, found }
}

/// `t` after `v` has been put at `p`, and why it could not be put there, if it
/// could not. Missing objects on the way are created, and stay created where
/// the walk fails further down. `-` as the last segment appends to an array.
pub open spec fn set_in(t: Tree, p: Seq<Seg>, v: Tree) -> (Tree, Option<PathFault>)
    decreases p.len(), 0int,
{
    if p.len() == 0 {
        (v, None)
    } else {
        let rest = p.subrange(1, p.len() as int);
        match (t, p[0]) {
            (Tree::Object(entries), Seg::Key(k)) => {
                let below = set_in(child_or_new(entries, k), rest, v);
                (Tree::Object(inserted(entries, k, below.0)), below.1)
            },
            (Tree::Array(items), Seg::Index(i)) => set_item(items, i, rest, v),
            (Tree::Array(items), Seg::Key(k)) => if k == "-"@ {
                if rest.len() == 0 {
                    (Tree::Array(items.push(v)), None)
                } else {
                    (
                        t,
                        Some(
                            mismatch(
                                "leaf segment"@,
                                "array-append marker '-' used mid-path"@,
                            ),
                        ),
                    )
                }
            } else {
                match parsed_index(k) {
                    Some(i) => set_item(items, i as nat, rest, v),
                    None => (t, Some(mismatch("array index"@, "non-numeric key"@))),
                }
            },
            _ => (t, Some(mismatch("object or array"@, type_label_of(t)))),
        }
    }
}

/// `set_in` below item `i` of an array.
pub open spec fn set_item(items: Seq<Tree>, i: nat, rest: Seq<Seg>, v: Tree) -> (
    Tree,
    Option<PathFault>,
)
    decreases rest.len(), 1int,
{
    if i < items.len() {
        let below = set_in(items[i as int], rest, v);
        (Tree::Array(items.update(i as int, below.0)), below.1)
    } else {
        (Tree::Array(items), Some(PathFault::OutOfBounds))
    }
}

/// `t` after the value at `p` has been taken out, and why it could not be, if
/// it could not; then `t` is as it was.
pub open spec fn deleted_in(t: Tree, p: Seq<Seg>) -> (Tree, Option<PathFault>)
    decreases p.len(), 0int,
{
    if p.len() == 0 {
        (t, Some(mismatch("non-root pointer"@, "root"@)))
    } else {
        let rest = p.subrange(1, p.len() as int);
        match (t, p[0]) {
            (Tree::Object(entries), Seg::Key(k)) => if !has_key(entries, k) {
                (t, Some(PathFault::MissingKey))
            } else if rest.len() == 0 {
                (Tree::Object(removed(entries, k)), None)
            } else {
                let below = deleted_in(entries[key_index(entries, k)].1, rest);
                (Tree::Object(inserted(entries, k, below.0)), below.1)
            },
            (Tree::Array(items), Seg::Index(i)) => deleted_item(items, i, rest),
            (Tree::Array(items), Seg::Key(k)) => if k == "-"@ && rest.len() == 0 {
                (t, Some(mismatch("array index"@, "array-append marker '-' is not deletable"@)))
            } else {
                match parsed_index(k) {
                    Some(i) => deleted_item(items, i as nat, rest),
                    None => (t, Some(mismatch("array index"@, "non-numeric key"@))),
                }
            },
            _ => (t, Some(mismatch("object or array"@, type_label_of(t)))),
        }
    }
}

/// `deleted_in` below item `i` of an array.
pub open spec fn deleted_item(items: Seq<Tree>, i: nat, rest: Seq<Seg>) -> (
    Tree,
    Option<PathFault>,
)
    decreases rest.len(), 1int,
{
    if i >= items.len() {
        (Tree::Array(items), Some(PathFault::OutOfBounds))
    } else if rest.len() == 0 {
        (Tree::Array(items.remove(i as int)), None)
    } else {
        let below = deleted_in(items[i as int], rest);
        (Tree::Array(items.update(i as int, below.0)), below.1)
    }
}

/// The error for an edit at `p` that failed.
pub open spec fn edit_fault(p: Seq<Seg>, kind: PathFault) -> Fault {
    Fault::Path {
        pointer: canonical(p),
        matched_prefix: Seq::empty(),
        kind,
        did_you_mean: Seq::empty(),
    }
}

/// The outcome of an edit at `p` that may have failed.
pub open spec fn edit_outcome(p: Seq<Seg>, kind: Option<PathFault>) -> Result<(), Fault> {
    match kind {
        None => Ok(()),
        Some(k) => Err(edit_fault(p, k)),
    }
}

/// The model of an optional error kind.
pub open spec fn kind_model(kind: Option<PathErrorKind>) -> Option<PathFault> {
    match kind {
        Some(k) => Some(k@),
        None => None,
    }
}

/// Sets the value at `segments[i..]` below `node`.
fn set_below(node: &mut Value, segments: &[Segment], i: usize, value: Value) -> (r: Option<
    PathErrorKind,
>)
    requires
        i <= segments@.len(),
    ensures
        ({
            let want = set_in(
                old(node)@,
                segs(segments@).subrange(i as int, segments@.len() as int),
                value@,
            );
            final(node)@ == want.0 && kind_model(r) == want.1
        }),
    decreases segments@.len() - i,
{
    broadcast use {lemma_array_view, lemma_object_view};

    let ghost p = segs(segments@).subrange(i as int, segments@.len() as int);
    if i >= segments.len() {
        *node = value;
        return None;
    }
    let ghost rest = segs(segments@).subrange(i + 1, segments@.len() as int);
    assert(p.subrange(1, p.len() as int) =~= rest);
    assert(p[0] == segments@[i as int]@);
    proof {
        reveal_with_fuel(set_in, 2);
        reveal_with_fuel(set_item, 2);
    }
    let last: bool = i + 1 == segments.len();
    let label: &'static str = node.type_label();
    let ghost before = node@;
    match node {
        Value::Object(map) => match &segments[i] {
            Segment::Key(k) => {
                let ghost entries = map@;
                let mut at: usize = map.position(k.as_str());
                if at >= map.entries.len() {
                    let fresh: Value = Value::Object(ValueMap::new());
                    assert(fresh@ == Tree::Object(Seq::empty()));
                    map.insert(k.clone(), fresh);
                    assert(map@ == entries.push((k@, Tree::Object(Seq::empty()))));
                    assert(map.entries@.len() == map@.len());
                    at = map.entries.len() - 1;
                    assert(map@[at as int].1 == map.entries@[at as int].1@);
                }
                let ghost middle = map@;
                let ghost child = map.entries@[at as int].1@;
                assert(child == middle[at as int].1);
                assert(child == child_or_new(entries, k@));
                let r: Option<PathErrorKind> = set_below(
                    &mut map.entries[at].1,
                    segments,
                    i + 1,
                    value,
                );
                proof {
                    lemma_key_index(entries, k@);
                    let after = map.entries@[at as int].1@;
                    assert forall|j: int| 0 <= j < middle.len() && j != at implies #[trigger] map@[j]
                        == middle[j] by {}
                    assert(map@[at as int] == (middle[at as int].0, after));
                    assert(map@ =~= inserted(entries, k@, after));
                }
                r
            },
            Segment::Index(_) => Some(
                PathErrorKind::TypeMismatch { expected: "object or array", found: label },
            ),
        },
        Value::Array(items) => {
            let ghost before_items = trees(items@);
            assert(before == Tree::Array(before_items));
            let idx: usize = match &segments[i] {
                Segment::Index(n) => *n,
                Segment::Key(k) => {
                    if same_text(k.as_str(), "-") {
                        if last {
                            items.push(value);
                            assert(trees(items@) =~= before_items.push(value@));
                            return None;
                        }
                        return Some(
                            PathErrorKind::TypeMismatch {
                                expected: "leaf segment",
                                found: "array-append marker '-' used mid-path",
                            },
                        );
                    }
                    match parse_index(&chars_of(k.as_str())) {
                        Some(n) => n,
                        None => {
                            return Some(
                                PathErrorKind::TypeMismatch {
                                    expected: "array index",
                                    found: "non-numeric key",
                                },
                            );
                        },
                    }
                },
            };
            if idx >= items.len() {
                return Some(PathErrorKind::OutOfBounds);
            }
            let r: Option<PathErrorKind> = set_below(&mut items[idx], segments, i + 1, value);
            assert(trees(items@) =~= before_items.update(idx as int, items@[idx as int]@));
            r
        },
        _ => Some(PathErrorKind::TypeMismatch { expected: "object or array", found: label }),
    }
}

/// Builds the error for an edit that failed.
fn edit_error(pointer: &Pointer, kind: PathErrorKind) -> (r: Error)
    ensures
        r@ == edit_fault(pointer@, kind@),
{
    let empty: String = String::new();
    let none: Vec<String> = Vec::new();
    assert(empty@ =~= Seq::<char>::empty());
    assert(texts(none@) =~= Seq::<Seq<char>>::empty());
    Error::Path {
        pointer: pointer.as_canonical(),
        matched_prefix: empty,
        kind,
        did_you_mean: none,
    }
}

/// Sets the value at `pointer` inside `root`, creating empty objects on the
/// way as needed.
pub fn set_value_at(root: &mut Value, pointer: &Pointer, value: Value) -> (r: Result<(), Error>)
    ensures
        final(root)@ == set_in(old(root)@, pointer@, value@).0,
        match (r, edit_outcome(pointer@, set_in(old(root)@, pointer@, value@).1)) {
            (Ok(_), Ok(_)) => true,
            (Err(e), Err(f)) => e@ == f,
            _ => false,
        },
{
    let segments: &[Segment] = pointer.segments();
    assert(pointer@.subrange(0, pointer@.len() as int) =~= pointer@);
    match set_below(root, segments, 0, value) {
        None => Ok(()),
        Some(kind) => Err(edit_error(pointer, kind)),
    }
}

/// Deletes the value at `segments[i..]` below `node`.
fn delete_below(node: &mut Value, segments: &[Segment], i: usize) -> (r: Option<PathErrorKind>)
    requires
        i <= segments@.len(),
    ensures
        ({
            let want = deleted_in(
                old(node)@,
                segs(segments@).subrange(i as int, segments@.len() as int),
            );
            final(node)@ == want.0 && kind_model(r) == want.1
        }),
    decreases segments@.len() - i,
{
    broadcast use {lemma_array_view, lemma_object_view};

    let ghost p = segs(segments@).subrange(i as int, segments@.len() as int);
    if i >= segments.len() {
        return Some(
            PathErrorKind::TypeMismatch { expected: "non-root pointer", found: "root" },
        );
    }
    let ghost rest = segs(segments@).subrange(i + 1, segments@.len() as int);
    assert(p.subrange(1, p.len() as int) =~= rest);
    assert(p[0] == segments@[i as int]@);
    proof {
        reveal_with_fuel(deleted_in, 2);
        reveal_with_fuel(deleted_item, 2);
    }
    let last: bool = i + 1 == segments.len();
    let label: &'static str = node.type_label();
    let ghost before = node@;
    match node {
        Value::Object(map) => match &segments[i] {
            Segment::Key(k) => {
                let ghost entries = map@;
                let at: usize = map.position(k.as_str());
                if at >= map.entries.len() {
                    return Some(PathErrorKind::MissingKey);
                }
                if last {
                    let _found: bool = map.shift_remove(k.as_str());
                    return None;
                }
                let r: Option<PathErrorKind> = delete_below(
                    &mut map.entries[at].1,
                    segments,
                    i + 1,
                );
                proof {
                    lemma_key_index(entries, k@);
                    let after = map.entries@[at as int].1@;
                    assert(map@ =~= inserted(entries, k@, after));
                }
                r
            },
            Segment::Index(_) => Some(
                PathErrorKind::TypeMismatch { expected: "object or array", found: label },
            ),
        },
        Value::Array(items) => {
            let ghost before_items = trees(items@);
            assert(before == Tree::Array(before_items));
            let idx: usize = match &segments[i] {
                Segment::Index(n) => *n,
                Segment::Key(k) => {
                    if last && same_text(k.as_str(), "-") {
                        return Some(
                            PathErrorKind::TypeMismatch {
                                expected: "array index",
                                found: "array-append marker '-' is not deletable",
                            },
                        );
                    }
                    match parse_index(&chars_of(k.as_str())) {
                        Some(n) => n,
                        None => {
                            return Some(
                                PathErrorKind::TypeMismatch {
                                    expected: "array index",
                                    found: "non-numeric key",
                                },
                            );
                        },
                    }
                },
            };
            if idx >= items.len() {
                return Some(PathErrorKind::OutOfBounds);
            }
            if last {
                let _gone: Value = items.remove(idx);
                assert(trees(items@) =~= before_items.remove(idx as int));
                return None;
            }
            let r: Option<PathErrorKind> = delete_below(&mut items[idx], segments, i + 1);
            assert(trees(items@) =~= before_items.update(idx as int, items@[idx as int]@));
            r
        },
        _ => Some(PathErrorKind::TypeMismatch { expected: "object or array", found: label }),
    }
}

/// Removes the value at `pointer` from `root`.
pub fn delete_value_at(root: &mut Value, pointer: &Pointer) -> (r: Result<(), Error>)
    ensures
        final(root)@ == deleted_in(old(root)@, pointer@).0,
        match (r, edit_outcome(pointer@, deleted_in(old(root)@, pointer@).1)) {
            (Ok(_), Ok(_)) => true,
            (Err(e), Err(f)) => e@ == f,
            _ => false,
        },
{
    let segments: &[Segment] = pointer.segments();
    assert(pointer@.subrange(0, pointer@.len() as int) =~= pointer@);
    match delete_below(root, segments, 0) {
        None => Ok(()),
        Some(kind) => Err(edit_error(pointer, kind)),
    }
}

// ---------------------------------------------------------------------------
// Laws
// ---------------------------------------------------------------------------

/// Whether setting at `p` appends to an array: the walk reaches an array and
/// the last segment is `-`.
pub open spec fn appends(t: Tree, p: Seq<Seg>) -> bool
    decreases p.len(),
{
    if p.len() == 0 {
        false
    } else if p.len() == 1 {
        t is Array && p[0] == Seg::Key("-"@)
    } else {
        match step(t, p[0]) {
            Ok((_, child)) => appends(child, p.subrange(1, p.len() as int)),
            Err(_) => false,
        }
    }
}

/// A read after a successful write gives back what was written, wherever the
/// write did not append.
pub proof fn law_set_then_resolve(
    t: Tree,
    p: Seq<Seg>,
    v: Tree,
    matched: Seq<Seg>,
    whole: Seq<Seg>,
)
    requires
        set_in(t, p, v).1 is None,
        !appends(t, p),
    ensures
        walked(set_in(t, p, v).0, p, matched, whole) == Ok::<Tree, Fault>(v),
    decreases p.len(),
{
    reveal_with_fuel(set_in, 2);
    reveal_with_fuel(set_item, 2);
    if p.len() > 0 {
        let rest = p.subrange(1, p.len() as int);
        let after = set_in(t, p, v).0;
        match (t, p[0]) {
            (Tree::Object(entries), Seg::Key(k)) => {
                let child = child_or_new(entries, k);
                lemma_key_index(entries, k);
                law_set_then_resolve(child, rest, v, matched.push(Seg::Key(k)), whole);
                law_insert_lookup(entries, k, set_in(child, rest, v).0, k);
            },
            (Tree::Array(items), Seg::Index(i)) => {
                law_set_then_resolve(items[i as int], rest, v, matched.push(Seg::Index(i)), whole);
            },
            (Tree::Array(items), Seg::Key(k)) => {
                let i = parsed_index(k)->Some_0;
                if rest.len() == 0 {
                    assert(k != "-"@);
                }
                law_set_then_resolve(
                    items[i as int],
                    rest,
                    v,
                    matched.push(Seg::Index(i as nat)),
                    whole,
                );
            },
            _ => {},
        }
    }
}

/// The child that `seg` means in `t` when something is set there; none where
/// it would be appended, or cannot be set.
pub open spec fn slot(t: Tree, seg: Seg) -> Option<Seg> {
    match (t, seg) {
        (Tree::Object(_), Seg::Key(k)) => Some(Seg::Key(k)),
        (Tree::Array(_), Seg::Index(i)) => Some(Seg::Index(i)),
        (Tree::Array(_), Seg::Key(k)) => if k == "-"@ {
            None
        } else {
            match parsed_index(k) {
                Some(i) => Some(Seg::Index(i as nat)),
                None => None,
            }
        },
        _ => None,
    }
}

/// Whether the walks along `p` and `q` part before either ends.
pub open spec fn part_ways(t: Tree, p: Seq<Seg>, q: Seq<Seg>) -> bool
    decreases p.len(),
{
    if p.len() == 0 || q.len() == 0 {
        false
    } else {
        match step(t, q[0]) {
            Err(_) => false,
            Ok((seg, child)) => slot(t, p[0]) != Some(seg) || part_ways(
                child,
                p.subrange(1, p.len() as int),
                q.subrange(1, q.len() as int),
            ),
        }
    }
}

/// A write leaves every node alone whose pointer parts from the written one,
/// even where the write fails.
pub proof fn law_set_leaves_others(
    t: Tree,
    p: Seq<Seg>,
    v: Tree,
    q: Seq<Seg>,
    matched: Seq<Seg>,
    whole: Seq<Seg>,
)
    requires
        part_ways(t, p, q),
        walked(t, q, matched, whole) is Ok,
    ensures
        walked(set_in(t, p, v).0, q, matched, whole) == walked(t, q, matched, whole),
    decreases p.len(),
{
    reveal_with_fuel(set_in, 2);
    reveal_with_fuel(set_item, 2);
    let prest = p.subrange(1, p.len() as int);
    let qrest = q.subrange(1, q.len() as int);
    let after = set_in(t, p, v).0;
    let (seg, child) = step(t, q[0])->Ok_0;
    match (t, p[0]) {
        (Tree::Object(entries), Seg::Key(k)) => {
            let below = set_in(child_or_new(entries, k), prest, v).0;
            let qk = q[0]->Key_0;
            lemma_key_index(entries, k);
            lemma_key_index(entries, qk);
            law_insert_lookup(entries, k, below, qk);
            if qk == k {
                law_set_leaves_others(child, prest, v, qrest, matched.push(seg), whole);
            }
        },
        (Tree::Array(items), _) => {
            if slot(t, p[0]) == Some(seg) {
                law_set_leaves_others(child, prest, v, qrest, matched.push(seg), whole);
            }
        },
        _ => {},
    }
}

/// A deletion that fails changes nothing.
pub proof fn law_failed_delete_changes_nothing(t: Tree, p: Seq<Seg>)
    requires
        deleted_in(t, p).1 is Some,
    ensures
        deleted_in(t, p).0 == t,
    decreases p.len(),
{
    reveal_with_fuel(deleted_in, 2);
    reveal_with_fuel(deleted_item, 2);
    if p.len() > 0 {
        let rest = p.subrange(1, p.len() as int);
        match (t, p[0]) {
            (Tree::Object(entries), Seg::Key(k)) => {
                if has_key(entries, k) && rest.len() > 0 {
                    lemma_key_index(entries, k);
                    let at = key_index(entries, k);
                    law_failed_delete_changes_nothing(entries[at].1, rest);
                    assert(inserted(entries, k, entries[at].1) =~= entries);
                }
            },
            (Tree::Array(items), Seg::Index(i)) => {
                if i < items.len() && rest.len() > 0 {
                    law_failed_delete_changes_nothing(items[i as int], rest);
                    assert(items.update(i as int, items[i as int]) =~= items);
                }
            },
            (Tree::Array(items), Seg::Key(k)) => {
                if let Some(i) = parsed_index(k) {
                    if i < items.len() && rest.len() > 0 {
                        law_failed_delete_changes_nothing(items[i as int], rest);
                        assert(items.update(i as int, items[i as int]) =~= items);
                    }
                }
            },
            _ => {},
        }
    }
}

/// A deletion succeeds exactly where the pointer is not the root and leads to
/// a node.
pub proof fn law_delete_succeeds_where_node_exists(
    t: Tree,
    p: Seq<Seg>,
    matched: Seq<Seg>,
    whole: Seq<Seg>,
)
    ensures
        deleted_in(t, p).1 is None <==> p.len() > 0 && walked(t, p, matched, whole) is Ok,
    decreases p.len(),
{
    reveal_with_fuel(deleted_in, 2);
    reveal_with_fuel(deleted_item, 2);
    reveal_with_fuel(walked, 2);
    if p.len() > 0 {
        let rest = p.subrange(1, p.len() as int);
        lemma_dash_is_no_index();
        if let Ok((seg, child)) = step(t, p[0]) {
            law_delete_succeeds_where_node_exists(child, rest, matched.push(seg), whole);
        }
        if let Tree::Object(entries) = t {
            if let Seg::Key(k) = p[0] {
                lemma_key_index(entries, k);
            }
        }
    }
}

/// `-` is not the decimal form of any index.
pub proof fn lemma_dash_is_no_index()
    ensures
        parsed_index("-"@) is None,
{
    reveal_strlit("-");
    let s = "-"@;
    assert(s[0] == '-');
    assert(!crate::numbers::is_digit(s[0]));
}

/// After a key has been deleted from an object without duplicate keys, it is
/// missing.
pub proof fn law_deleted_key_is_missing(entries: Seq<(Seq<char>, Tree)>, k: Seq<char>)
    requires
        crate::value::unique_keys(entries),
    ensures
        deleted_in(Tree::Object(entries), seq![Seg::Key(k)]).1 is None ==> step(
            deleted_in(Tree::Object(entries), seq![Seg::Key(k)]).0,
            Seg::Key(k),
        ) is Err,
{
    crate::value::law_remove_lookup(entries, k, k);
    let p = seq![Seg::Key(k)];
    assert(p.subrange(1, 1).len() == 0);
}

} // verus!
