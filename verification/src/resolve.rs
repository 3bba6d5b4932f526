//! Walking a pointer through a value tree.

use crate::error::{texts, Error, Fault, PathErrorKind, PathFault};
use crate::numbers::{parse_index, parsed_index};
use crate::pointer::{canonical, segs, Pointer, Seg, Segment};
use crate::suggest::{did_you_mean, names, suggestions};
use crate::text::chars_of;
use crate::value::{
    has_key, key_index, lemma_array_view, lemma_object_view, type_label_of, Tree, Value, ValueMap,
};
use vstd::prelude::*;

verus! {

/// The keys of a sequence of entries.
pub open spec fn keys_of<T>(entries: Seq<(Seq<char>, T)>) -> Seq<Seq<char>> {
    Seq::new(entries.len(), |i: int| entries[i].0)
}

/// One step down from `t` along `seg`: the segment as it was understood and the
/// child, or why there is none and which keys are close.
pub open spec fn step(t: Tree, seg: Seg) -> Result<(Seg, Tree), (PathFault, Seq<Seq<char>>)> {
    match (t, seg) {
        (Tree::Object(entries), Seg::Key(k)) => if has_key(entries, k) {
            Ok((Seg::Key(k), entries[key_index(entries, k)].1))
        } else {
            Err((PathFault::MissingKey, suggestions(k, keys_of(entries))))
        },
        (Tree::Array(items), Seg::Key(k)) => match parsed_index(k) {
            Some(i) => if i < items.len() {
                Ok((Seg::Index(i as nat), items[i as int]))
            } else {
                Err((PathFault::OutOfBounds, Seq::empty()))
            },
            None => Err(
                (
                    PathFault::TypeMismatch {
                        expected: "array index"@,
                        found: "non-numeric key"@,
                    },
                    Seq::empty(),
                ),
            ),
        },
        (Tree::Array(items), Seg::Index(i)) => if i < items.len() {
            Ok((Seg::Index(i), items[i as int]))
        } else {
            Err((PathFault::OutOfBounds, Seq::empty()))
        },
        _ => Err(
            (
                PathFault::TypeMismatch { expected: "object or array"@, found: type_label_of(t) },
                Seq::empty(),
            ),
        ),
    }
}

/// The node that `rest` leads to from `t`, after `matched` has been walked on
/// the way along `whole`.
pub open spec fn walked(
    t: Tree,
    rest: Seq<Seg>,
    matched: Seq<Seg>,
    whole: Seq<Seg>,
) -> Result<Tree, Fault>
    decreases rest.len(),
{
    if rest.len() == 0 {
        Ok(t)
    } else {
        match step(t, rest[0]) {
            Ok((seg, child)) => walked(
                child,
                rest.subrange(1, rest.len() as int),
                matched.push(seg),
                whole,
            ),
            Err((kind, did_you_mean)) => Err(
                Fault::Path {
                    pointer: canonical(whole),
                    matched_prefix: canonical(matched),
                    kind,
                    did_you_mean,
                },
            ),
        }
    }
}

/// The node that `p` addresses in `t`.
pub open spec fn resolved(t: Tree, p: Seq<Seg>) -> Result<Tree, Fault> {
    walked(t, p, Seq::empty(), p)
}

/// Whether `p` leads somewhere in `t`, and where to, does not depend on what
/// the fault would say.
pub proof fn lemma_walked_same_node(
    t: Tree,
    rest: Seq<Seg>,
    matched: Seq<Seg>,
    whole: Seq<Seg>,
    matched2: Seq<Seg>,
    whole2: Seq<Seg>,
)
    ensures
        (walked(t, rest, matched, whole) is Ok) == (walked(t, rest, matched2, whole2) is Ok),
        walked(t, rest, matched, whole) is Ok ==> walked(t, rest, matched, whole) == walked(
            t,
            rest,
            matched2,
            whole2,
        ),
    decreases rest.len(),
{
    if rest.len() > 0 {
        if let Ok((seg, child)) = step(t, rest[0]) {
            lemma_walked_same_node(
                child,
                rest.subrange(1, rest.len() as int),
                matched.push(seg),
                whole,
                matched2.push(seg),
                whole2,
            );
        }
    }
}

/// The root pointer addresses the whole tree.
pub proof fn law_resolve_root(t: Tree)
    ensures
        resolved(t, Seq::empty()) == Ok::<Tree, Fault>(t),
{
}

/// A pointer is walked segment by segment: what `p` followed by `q` addresses
/// is what `q` addresses below what `p` addresses.
pub proof fn law_resolve_composes(t: Tree, p: Seq<Seg>, q: Seq<Seg>)
    ensures
        resolved(t, p) is Ok ==> ((resolved(t, p + q) is Ok) == (resolved(
            resolved(t, p)->Ok_0,
            q,
        ) is Ok) && (resolved(t, p + q) is Ok ==> resolved(t, p + q) == resolved(
            resolved(t, p)->Ok_0,
            q,
        ))),
        resolved(t, p) is Err ==> resolved(t, p + q) is Err,
{
    lemma_walk_composes(t, p, q, Seq::empty(), p);
    lemma_walked_same_node(t, p + q, Seq::empty(), p, Seq::empty(), p + q);
    if resolved(t, p) is Ok {
        lemma_walked_same_node(resolved(t, p)->Ok_0, q, Seq::empty(), p, Seq::empty(), q);
    }
}

proof fn lemma_walk_composes(
    t: Tree,
    p: Seq<Seg>,
    q: Seq<Seg>,
    matched: Seq<Seg>,
    whole: Seq<Seg>,
)
    ensures
        match walked(t, p, matched, whole) {
            Ok(node) => {
                &&& (walked(t, p + q, matched, whole) is Ok) == (walked(
                    node,
                    q,
                    Seq::empty(),
                    whole,
                ) is Ok)
                &&& walked(t, p + q, matched, whole) is Ok ==> walked(t, p + q, matched, whole)
                    == walked(node, q, Seq::empty(), whole)
            },
            Err(_) => walked(t, p + q, matched, whole) is Err,
        },
    decreases p.len(),
{
    if p.len() == 0 {
        assert(p + q =~= q);
        lemma_walked_same_node(t, q, matched, whole, Seq::empty(), whole);
    } else {
        let tail = p.subrange(1, p.len() as int);
        assert((p + q).subrange(1, (p + q).len() as int) =~= tail + q);
        if let Ok((seg, child)) = step(t, p[0]) {
            lemma_walk_composes(child, tail, q, matched.push(seg), whole);
        }
    }
}

/// Borrows the keys of a map.
pub fn borrow_keys<'a>(map: &'a ValueMap) -> (r: Vec<&'a str>)
    ensures
        names(r@) == keys_of(map@),
{
    let mut out: Vec<&'a str> = Vec::new();
    let mut i: usize = 0;
    while i < map.entries.len()
        invariant
            i <= map.entries@.len(),
            out@.len() == i,
            forall|k: int| 0 <= k < i ==> (#[trigger] out@[k])@ == map.entries@[k].0@,
        decreases map.entries@.len() - i,
    {
        out.push(map.entries[i].0.as_str());
        i += 1;
    }
    assert(names(out@) =~= keys_of(map@));
    out
}

/// Builds the error for a walk that stopped.
fn stopped(
    pointer: &Pointer,
    matched: Vec<Segment>,
    kind: PathErrorKind,
    did_you_mean: Vec<String>,
) -> (r: Error)
    ensures
        r@ == (Fault::Path {
            pointer: canonical(pointer@),
            matched_prefix: canonical(segs(matched@)),
            kind: kind@,
            did_you_mean: texts(did_you_mean@),
        }),
{
    Error::Path {
        pointer: pointer.as_canonical(),
        matched_prefix: Pointer::new(matched).as_canonical(),
        kind,
        did_you_mean,
    }
}

impl Pointer {
    /// Walks the pointer through `value` to the addressed node.
    ///
    /// The error carries the longest prefix that matched, the kind of failure
    /// and, for a missing key, up to three close ones.
    pub fn resolve<'a>(&self, value: &'a Value) -> (r: Result<&'a Value, Error>)
        ensures
            match (r, resolved(value@, self@)) {
                (Ok(node), Ok(t)) => node@ == t,
                (Err(e), Err(f)) => e@ == f,
                _ => false,
            },
    {
        broadcast use {lemma_array_view, lemma_object_view};

        let segments: &[Segment] = self.segments();
        let mut current: &'a Value = value;
        let mut matched: Vec<Segment> = Vec::new();
        let mut i: usize = 0;
        assert(self@.subrange(0, self@.len() as int) =~= self@);
        assert(segs(matched@) =~= Seq::<Seg>::empty());
        while i < segments.len()
            invariant
                i <= segments@.len() == self@.len(),
                segs(segments@) == self@,
                resolved(value@, self@) == walked(
                    current@,
                    self@.subrange(i as int, self@.len() as int),
                    segs(matched@),
                    self@,
                ),
            decreases segments@.len() - i,
        {
            broadcast use {lemma_array_view, lemma_object_view};

            let ghost rest = self@.subrange(i as int, self@.len() as int);
            let ghost matched_before = segs(matched@);
            let seg: &Segment = &segments[i];
            assert(rest[0] == seg@);
            assert(rest.subrange(1, rest.len() as int) =~= self@.subrange(
                i + 1,
                self@.len() as int,
            ));
            let none: Vec<String> = Vec::new();
            assert(texts(none@) =~= Seq::<Seq<char>>::empty());
            match current {
                Value::Object(map) => match seg {
                    Segment::Key(k) => {
                        let at: usize = map.position(k.as_str());
                        if at < map.entries.len() {
                            current = &map.entries[at].1;
                            matched.push(Segment::Key(k.clone()));
                        } else {
                            let candidates: Vec<&str> = borrow_keys(map);
                            let hints: Vec<String> = did_you_mean(
                                k.as_str(),
                                candidates.as_slice(),
                            );
                            return Err(stopped(self, matched, PathErrorKind::MissingKey, hints));
                        }
                    },
                    Segment::Index(_) => {
                        return Err(
                            stopped(
                                self,
                                matched,
                                PathErrorKind::TypeMismatch {
                                    expected: "object or array",
                                    found: current.type_label(),
                                },
                                none,
                            ),
                        );
                    },
                },
                Value::Array(items) => match seg {
                    Segment::Key(k) => {
                        match parse_index(&chars_of(k.as_str())) {
                            Some(idx) => {
                                if idx < items.len() {
                                    current = &items[idx];
                                    matched.push(Segment::Index(idx));
                                } else {
                                    return Err(
                                        stopped(self, matched, PathErrorKind::OutOfBounds, none),
                                    );
                                }
                            },
                            None => {
                                return Err(
                                    stopped(
                                        self,
                                        matched,
                                        PathErrorKind::TypeMismatch {
                                            expected: "array index",
                                            found: "non-numeric key",
                                        },
                                        none,
                                    ),
                                );
                            },
                        }
                    },
                    Segment::Index(idx) => {
                        if *idx < items.len() {
                            current = &items[*idx];
                            matched.push(Segment::Index(*idx));
                        } else {
                            return Err(stopped(self, matched, PathErrorKind::OutOfBounds, none));
                        }
                    },
                },
                _ => {
                    return Err(
                        stopped(
                            self,
                            matched,
                            PathErrorKind::TypeMismatch {
                                expected: "object or array",
                                found: current.type_label(),
                            },
                            none,
                        ),
                    );
                },
            }
            assert(segs(matched@) =~= matched_before.push(matched@.last()@));
            i += 1;
        }
        Ok(current)
    }
}

} // verus!
