//! XML that was read is written back: what the reader collects is in the order
//! in which it would be collected again.

use crate::parsers::xml_events::{xml_reading, DeclModel, XmlKind, XmlPiece, XmlReading};
use crate::parsers::xml_marks::{is_declaration, is_xml_name};
use crate::parsers::xml_read::{
    closed, declaration_entries, declaration_of, element_seen, finalised, group_total, grouped,
    started, string_trees, with_groups, with_list, xml_outcome, xml_parsed, xml_run, xml_step,
    xml_value, FrameModel, XmlModel,
};
use crate::parsers::xml_round_trip::{
    clean_declaration, clean_root, declared, is_clean_document, law_clean_document_is_written,
    spells_xml, state_of,
};
use crate::parsers::xml_spelling::{
    child_groups, clean_head, clean_list, frame_of, is_clean, list_texts,
};
use crate::parsers::xml_write::{conventional, is_top_key, root_index, xml_rendered, ListKind};
use crate::value::{
    has_key, inserted, key_index, law_insert_keeps_keys_unique, law_insert_lookup,
    lemma_key_index, lookup, unique_keys, Tree,
};
use vstd::prelude::*;
use vstd::utf8::decode_utf8;

verus! {

// ---------------------------------------------------------------------------
// Limits
// ---------------------------------------------------------------------------

/// Whether the names and texts of an element stay as they are when they are
/// written: names made of name characters, attribute values without tabs and
/// line ends, text that holds more than white space and no carriage return, and
/// comments, instructions and CDATA blocks that do not hold what ends them.
pub open spec fn holds_plain(t: Tree) -> bool
    decreases t,
{
    match t {
        Tree::Object(body) => {
            &&& clean_head(body)
            &&& !has_key(body, "#xml"@)
            &&& forall|i: int|
                0 <= i < body.len() && !conventional((#[trigger] body[i]).0) ==> is_xml_name(
                    body[i].0,
                ) && body[i].1 is Array && forall|j: int|
                    0 <= j < body[i].1->Array_0.len() ==> holds_plain(
                        #[trigger] body[i].1->Array_0[j],
                    )
        },
        _ => false,
    }
}

/// Whether a declaration, where there is one, has a version, and parts made of
/// name characters.
pub open spec fn plain_declaration(top: Seq<(Seq<char>, Tree)>) -> bool {
    match lookup(top, "#xml"@) {
        None => true,
        Some(Tree::Object(d)) => {
            let parts = declared(d);
            parts.version is Some && is_declaration(
                parts.version->Some_0,
                parts.encoding,
                parts.standalone,
            )
        },
        Some(_) => false,
    }
}

/// Whether an entry of a document that does not stand above the root is a list
/// of elements whose names and texts stay as they are.
pub open spec fn plain_root(entry: (Seq<char>, Tree)) -> bool {
    &&& !conventional(entry.0)
    &&& is_xml_name(entry.0)
    &&& entry.1 is Array
    &&& forall|j: int|
        0 <= j < entry.1->Array_0.len() ==> holds_plain(#[trigger] entry.1->Array_0[j])
}

/// Whether the names and texts of a document stay as they are when they are
/// written.
pub open spec fn holds_plain_document(t: Tree) -> bool {
    match t {
        Tree::Object(top) => {
            &&& plain_declaration(top)
            &&& clean_list(ListKind::Instructions, lookup(top, "#pi"@))
            &&& clean_list(ListKind::Comments, lookup(top, "#comments"@))
            &&& forall|i: int|
                0 <= i < top.len() && !is_top_key((#[trigger] top[i]).0) ==> plain_root(top[i])
        },
        _ => false,
    }
}

// ---------------------------------------------------------------------------
// Elements as they are collected
// ---------------------------------------------------------------------------

/// Whether an element is one that the reader collects: no key twice, its entries
/// in the order in which they would be collected again, and its children in
/// lists that are not empty.
pub open spec fn is_collected(t: Tree) -> bool
    decreases t,
{
    match t {
        Tree::Object(body) => {
            &&& unique_keys(body)
            &&& clean_head(body) && !has_key(body, "#xml"@) ==> finalised(
                frame_of(Seq::empty(), body),
            ) == t
            &&& forall|i: int|
                0 <= i < body.len() && !conventional((#[trigger] body[i]).0) ==> body[i].1 is Array
                    && body[i].1->Array_0.len() > 0 && forall|j: int|
                    0 <= j < body[i].1->Array_0.len() ==> is_collected(
                        #[trigger] body[i].1->Array_0[j],
                    )
        },
        _ => false,
    }
}

/// What is collected and stays as it is reads back.
proof fn lemma_collected_is_clean(t: Tree)
    requires
        is_collected(t),
        holds_plain(t),
    ensures
        is_clean(t),
    decreases t,
{
    match t {
        Tree::Object(body) => {
            assert forall|i: int|
                0 <= i < body.len() && !conventional((#[trigger] body[i]).0) implies is_xml_name(
                body[i].0,
            ) && body[i].1 is Array && body[i].1->Array_0.len() > 0 && forall|j: int|
                0 <= j < body[i].1->Array_0.len() ==> is_clean(
                    #[trigger] body[i].1->Array_0[j],
                ) by {
                let items = body[i].1->Array_0;
                assert forall|j: int| 0 <= j < items.len() implies is_clean(
                    #[trigger] items[j],
                ) by {
                    assert(decreases_to!(t => body));
                    assert(decreases_to!(body => body[i]));
                    assert(decreases_to!(body[i] => body[i].1));
                    assert(decreases_to!(body[i].1 => items));
                    assert(decreases_to!(items => items[j]));
                    lemma_collected_is_clean(items[j]);
                }
            }
        },
        _ => {},
    }
}

/// Whether a list of elements is one that the reader collects.
pub open spec fn list_collected(items: Seq<Tree>) -> bool {
    items.len() > 0 && forall|j: int| 0 <= j < items.len() ==> is_collected(#[trigger] items[j])
}

/// Whether the children of an element are grouped as the reader groups them.
pub open spec fn groups_collected(groups: Seq<(Seq<char>, Seq<Tree>)>) -> bool {
    unique_keys(groups) && forall|i: int|
        0 <= i < groups.len() ==> list_collected((#[trigger] groups[i]).1)
}

// ---------------------------------------------------------------------------
// Entries that are put in one by one
// ---------------------------------------------------------------------------

/// Entries with a value put in, where there is one.
spec fn put(
    entries: Seq<(Seq<char>, Tree)>,
    key: Seq<char>,
    value: Option<Tree>,
) -> Seq<(Seq<char>, Tree)> {
    match value {
        Some(v) => inserted(entries, key, v),
        None => entries,
    }
}

/// A list of texts, where it is not empty.
spec fn texts_value(items: Seq<Seq<char>>) -> Option<Tree> {
    if items.len() == 0 {
        None
    } else {
        Some(Tree::Array(string_trees(items)))
    }
}

/// Whether every key of some entries satisfies what a key of others does or is
/// the new one.
spec fn keys_within(
    after: Seq<(Seq<char>, Tree)>,
    entries: Seq<(Seq<char>, Tree)>,
    key: Seq<char>,
) -> bool {
    forall|i: int|
        0 <= i < after.len() ==> (#[trigger] after[i]).0 == key || exists|j: int|
            0 <= j < entries.len() && (#[trigger] entries[j]).0 == after[i].0
}

proof fn lemma_put(entries: Seq<(Seq<char>, Tree)>, key: Seq<char>, value: Option<Tree>)
    requires
        unique_keys(entries),
    ensures
        unique_keys(put(entries, key, value)),
        keys_within(put(entries, key, value), entries, key),
        forall|q: Seq<char>| #[trigger]
            lookup(put(entries, key, value), q) == (if q == key && value is Some {
                value
            } else {
                lookup(entries, q)
            }),
{
    let after = put(entries, key, value);
    if let Some(v) = value {
        law_insert_keeps_keys_unique(entries, key, v);
        lemma_key_index(entries, key);
        assert forall|q: Seq<char>| #[trigger]
            lookup(after, q) == (if q == key && value is Some {
                value
            } else {
                lookup(entries, q)
            }) by {
            law_insert_lookup(entries, key, v, q);
        }
        assert forall|i: int| 0 <= i < after.len() implies (#[trigger] after[i]).0 == key
            || exists|j: int| 0 <= j < entries.len() && (#[trigger] entries[j]).0 == after[i].0 by {
            if i < entries.len() {
                assert(entries[i].0 == after[i].0);
            }
        }
    } else {
        assert forall|i: int| 0 <= i < after.len() implies (#[trigger] after[i]).0 == key
            || exists|j: int| 0 <= j < entries.len() && (#[trigger] entries[j]).0 == after[i].0 by {
            assert(entries[i].0 == after[i].0);
        }
    }
}

/// Whether every key is a conventional one.
spec fn all_conventional(entries: Seq<(Seq<char>, Tree)>) -> bool {
    forall|i: int| 0 <= i < entries.len() ==> conventional((#[trigger] entries[i]).0)
}

proof fn lemma_conventional_kept(
    after: Seq<(Seq<char>, Tree)>,
    entries: Seq<(Seq<char>, Tree)>,
    key: Seq<char>,
)
    requires
        keys_within(after, entries, key),
        all_conventional(entries),
        conventional(key),
    ensures
        all_conventional(after),
{
    assert forall|i: int| 0 <= i < after.len() implies conventional((#[trigger] after[i]).0) by {
        if after[i].0 != key {
            let j = choose|j: int| 0 <= j < entries.len() && (#[trigger] entries[j]).0 == after[i].0;
            assert(conventional(entries[j].0));
        }
    }
}

/// The entry of a group.
spec fn group_entry(group: (Seq<char>, Seq<Tree>)) -> (Seq<char>, Tree) {
    (group.0, Tree::Array(group.1))
}

proof fn lemma_groups_put(
    entries: Seq<(Seq<char>, Tree)>,
    groups: Seq<(Seq<char>, Seq<Tree>)>,
    k: int,
)
    requires
        unique_keys(entries),
        unique_keys(groups),
        all_conventional(entries),
        0 <= k <= groups.len(),
    ensures
        unique_keys(with_groups(entries, groups, k)),
        forall|i: int|
            0 <= i < with_groups(entries, groups, k).len() ==> conventional(
                (#[trigger] with_groups(entries, groups, k)[i]).0,
            ) || exists|x: int|
                0 <= x < k && with_groups(entries, groups, k)[i] == group_entry(
                    #[trigger] groups[x],
                ),
        forall|x: int|
            0 <= x < k ==> lookup(with_groups(entries, groups, k), (#[trigger] groups[x]).0)
                == Some(Tree::Array(groups[x].1)),
        forall|q: Seq<char>|
            (forall|x: int| 0 <= x < k ==> (#[trigger] groups[x]).0 != q) ==> #[trigger] lookup(
                with_groups(entries, groups, k),
                q,
            ) == lookup(entries, q),
    decreases k,
{
    if k > 0 {
        lemma_groups_put(entries, groups, k - 1);
        let before = with_groups(entries, groups, k - 1);
        let after = with_groups(entries, groups, k);
        let name = groups[k - 1].0;
        let value = Tree::Array(groups[k - 1].1);
        law_insert_keeps_keys_unique(before, name, value);
        lemma_key_index(before, name);
        assert forall|i: int| 0 <= i < after.len() implies conventional((#[trigger] after[i]).0)
            || exists|x: int| 0 <= x < k && after[i] == group_entry(#[trigger] groups[x]) by {
            if i == key_index(before, name) {
                assert(after[i] == group_entry(groups[k - 1]));
            } else {
                assert(after[i] == before[i]);
                if !conventional(before[i].0) {
                    let x = choose|x: int|
                        0 <= x < k - 1 && before[i] == group_entry(#[trigger] groups[x]);
                    assert(after[i] == group_entry(groups[x]));
                }
            }
        }
        assert forall|x: int| 0 <= x < k implies lookup(after, (#[trigger] groups[x]).0) == Some(
            Tree::Array(groups[x].1),
        ) by {
            law_insert_lookup(before, name, value, groups[x].0);
            if x < k - 1 {
                assert(groups[x].0 != groups[k - 1].0);
            }
        }
        assert forall|q: Seq<char>|
            (forall|x: int| 0 <= x < k ==> (#[trigger] groups[x]).0 != q) implies #[trigger] lookup(
            after,
            q,
        ) == lookup(entries, q) by {
            assert(groups[k - 1].0 != q);
            law_insert_lookup(before, name, value, q);
            assert(lookup(before, q) == lookup(entries, q));
        }
    }
}

/// Whether no group has a conventional name.
spec fn tags_apart(groups: Seq<(Seq<char>, Seq<Tree>)>) -> bool {
    forall|x: int| 0 <= x < groups.len() ==> !conventional((#[trigger] groups[x]).0)
}

/// Groups whose names are no conventional ones stand behind the other entries.
proof fn lemma_groups_last(
    entries: Seq<(Seq<char>, Tree)>,
    groups: Seq<(Seq<char>, Seq<Tree>)>,
    k: int,
)
    requires
        all_conventional(entries),
        unique_keys(groups),
        tags_apart(groups),
        0 <= k <= groups.len(),
    ensures
        with_groups(entries, groups, k) == entries + Seq::new(
            k as nat,
            |x: int| group_entry(groups[x]),
        ),
    decreases k,
{
    let goal = entries + Seq::new(k as nat, |x: int| group_entry(groups[x]));
    if k == 0 {
        assert(goal =~= entries);
    } else {
        lemma_groups_last(entries, groups, k - 1);
        let before = with_groups(entries, groups, k - 1);
        let name = groups[k - 1].0;
        lemma_key_index(before, name);
        if has_key(before, name) {
            let at = key_index(before, name);
            if at < entries.len() {
                assert(before[at] == entries[at]);
                assert(conventional(entries[at].0));
            } else {
                assert(before[at] == group_entry(groups[at - entries.len()]));
                assert(groups[at - entries.len()].0 != groups[k - 1].0);
            }
        }
        assert(with_groups(entries, groups, k) =~= before.push(group_entry(groups[k - 1])));
        assert(with_groups(entries, groups, k) =~= goal);
    }
}

/// The children are found behind the other entries again.
proof fn lemma_groups_found(
    entries: Seq<(Seq<char>, Tree)>,
    groups: Seq<(Seq<char>, Seq<Tree>)>,
    body: Seq<(Seq<char>, Tree)>,
    k: int,
)
    requires
        all_conventional(entries),
        tags_apart(groups),
        body == entries + Seq::new(groups.len(), |x: int| group_entry(groups[x])),
        0 <= k <= body.len(),
    ensures
        child_groups(body, k) == groups.subrange(
            0,
            if k < entries.len() {
                0
            } else {
                k - entries.len()
            },
        ),
    decreases k,
{
    let n = entries.len() as int;
    let upto = if k < n {
        0
    } else {
        k - n
    };
    if k == 0 {
        assert(child_groups(body, k) =~= groups.subrange(0, upto));
    } else {
        lemma_groups_found(entries, groups, body, k - 1);
        if k - 1 < n {
            assert(body[k - 1] == entries[k - 1]);
            assert(conventional(entries[k - 1].0));
            assert(child_groups(body, k) =~= groups.subrange(0, upto));
        } else {
            let x = k - 1 - n;
            assert(body[k - 1] == group_entry(groups[x]));
            assert(!conventional(groups[x].0));
            assert(body[k - 1].1->Array_0 == groups[x].1);
            assert(child_groups(body, k) =~= groups.subrange(0, upto));
        }
    }
}

// ---------------------------------------------------------------------------
// Elements
// ---------------------------------------------------------------------------

/// What an element holds besides its children.
spec fn head_of(f: FrameModel) -> Seq<(Seq<char>, Tree)> {
    let a = put(
        Seq::empty(),
        "@attrs"@,
        if f.attrs.len() == 0 {
            None
        } else {
            Some(Tree::Object(f.attrs))
        },
    );
    let b = put(
        a,
        "#text"@,
        if f.has_text {
            Some(Tree::String(f.text))
        } else {
            None
        },
    );
    let c = put(b, "#cdata"@, texts_value(f.cdata));
    let d = put(c, "#pi"@, texts_value(f.pi));
    put(d, "#comments"@, texts_value(f.comments))
}

/// Whether the fixed keys of entries hold what an element does.
spec fn head_found(entries: Seq<(Seq<char>, Tree)>, f: FrameModel) -> bool {
    &&& lookup(entries, "@attrs"@) == (if f.attrs.len() == 0 {
        None
    } else {
        Some(Tree::Object(f.attrs))
    })
    &&& lookup(entries, "#text"@) == (if f.has_text {
        Some(Tree::String(f.text))
    } else {
        None
    })
    &&& lookup(entries, "#cdata"@) == texts_value(f.cdata)
    &&& lookup(entries, "#pi"@) == texts_value(f.pi)
    &&& lookup(entries, "#comments"@) == texts_value(f.comments)
}

proof fn lemma_key_names()
    ensures
        "@attrs"@ != "#text"@,
        "@attrs"@ != "#cdata"@,
        "@attrs"@ != "#pi"@,
        "@attrs"@ != "#comments"@,
        "#text"@ != "#cdata"@,
        "#text"@ != "#pi"@,
        "#text"@ != "#comments"@,
        "#cdata"@ != "#pi"@,
        "#cdata"@ != "#comments"@,
        "#pi"@ != "#comments"@,
        "#xml"@ != "@attrs"@,
        "#xml"@ != "#text"@,
        "#xml"@ != "#cdata"@,
        "#xml"@ != "#pi"@,
        "#xml"@ != "#comments"@,
{
    reveal_strlit("@attrs");
    reveal_strlit("#text");
    reveal_strlit("#cdata");
    reveal_strlit("#pi");
    reveal_strlit("#comments");
    reveal_strlit("#xml");
    assert("#text"@[1] == 't');
    assert("#cdata"@[1] == 'c');
    assert("#cdata"@[2] == 'd');
    assert("#comments"@[1] == 'c');
    assert("#comments"@[2] == 'o');
    assert("#pi"@[1] == 'p');
    assert("#xml"@[1] == 'x');
    assert("@attrs"@[0] == '@');
    assert("#text"@[0] == '#');
    assert("#cdata"@[0] == '#');
    assert("#pi"@[0] == '#');
    assert("#comments"@[0] == '#');
    assert("#xml"@[0] == '#');
}

proof fn lemma_head(f: FrameModel)
    ensures
        unique_keys(head_of(f)),
        all_conventional(head_of(f)),
        head_found(head_of(f), f),
        lookup(head_of(f), "#xml"@) is None,
        finalised(f) == Tree::Object(
            with_groups(head_of(f), f.children, f.children.len() as int),
        ),
{
    lemma_key_names();
    let none = Seq::<(Seq<char>, Tree)>::empty();
    let attrs = if f.attrs.len() == 0 {
        None
    } else {
        Some(Tree::Object(f.attrs))
    };
    let text = if f.has_text {
        Some(Tree::String(f.text))
    } else {
        None
    };
    let a = put(none, "@attrs"@, attrs);
    let b = put(a, "#text"@, text);
    let c = put(b, "#cdata"@, texts_value(f.cdata));
    let d = put(c, "#pi"@, texts_value(f.pi));
    let e = put(d, "#comments"@, texts_value(f.comments));
    lemma_put(none, "@attrs"@, attrs);
    lemma_conventional_kept(a, none, "@attrs"@);
    lemma_put(a, "#text"@, text);
    lemma_conventional_kept(b, a, "#text"@);
    lemma_put(b, "#cdata"@, texts_value(f.cdata));
    lemma_conventional_kept(c, b, "#cdata"@);
    lemma_put(c, "#pi"@, texts_value(f.pi));
    lemma_conventional_kept(d, c, "#pi"@);
    lemma_put(d, "#comments"@, texts_value(f.comments));
    lemma_conventional_kept(e, d, "#comments"@);
    assert(forall|q: Seq<char>| lookup(none, q) is None);
    assert(c == with_list(b, "#cdata"@, f.cdata));
    assert(d == with_list(c, "#pi"@, f.pi));
    assert(e == with_list(d, "#comments"@, f.comments));
}

/// A group under a conventional name would stand where something else belongs.
proof fn lemma_tags_apart(f: FrameModel, body: Seq<(Seq<char>, Tree)>)
    requires
        groups_collected(f.children),
        finalised(f) == Tree::Object(body),
        clean_head(body),
        !has_key(body, "#xml"@),
    ensures
        tags_apart(f.children),
{
    lemma_head(f);
    let e = head_of(f);
    let n = f.children.len() as int;
    let whole = Tree::Object(body);
    assert(whole->Object_0 == with_groups(e, f.children, n));
    lemma_groups_put(e, f.children, n);
    assert forall|x: int| 0 <= x < f.children.len() implies !conventional(
        (#[trigger] f.children[x]).0,
    ) by {
        let name = f.children[x].0;
        let items = f.children[x].1;
        assert(lookup(body, name) == Some(Tree::Array(items)));
        let list = Tree::Array(items);
        assert(list->Array_0 == items);
        assert(list_collected(items));
        assert(is_collected(items[0]));
        assert(items[0] is Object);
        if name == "#cdata"@ || name == "#pi"@ || name == "#comments"@ {
            assert(items[0] is String);
        }
    }
}

proof fn lemma_texts_back(items: Seq<Seq<char>>)
    ensures
        list_texts(texts_value(items)) == items,
{
    let list = Tree::Array(string_trees(items));
    assert(list->Array_0 == string_trees(items));
    assert(list_texts(texts_value(items)) =~= items);
}

/// An element is collected as it would be collected again.
proof fn lemma_finalised_collected(f: FrameModel)
    requires
        groups_collected(f.children),
    ensures
        is_collected(finalised(f)),
{
    lemma_head(f);
    let e = head_of(f);
    let n = f.children.len() as int;
    let body = with_groups(e, f.children, n);
    let t = Tree::Object(body);
    assert(t->Object_0 == body);
    lemma_groups_put(e, f.children, n);
    assert forall|i: int| 0 <= i < body.len() && !conventional((#[trigger] body[i]).0) implies body[
        i].1 is Array && body[i].1->Array_0.len() > 0 && forall|j: int|
        0 <= j < body[i].1->Array_0.len() ==> is_collected(#[trigger] body[i].1->Array_0[j]) by {
        let x = choose|x: int| 0 <= x < n && body[i] == group_entry(#[trigger] f.children[x]);
        assert(body[i].1->Array_0 == f.children[x].1);
        assert(list_collected(f.children[x].1));
    }
    if clean_head(body) && !has_key(body, "#xml"@) {
        lemma_tags_apart(f, body);
        lemma_key_names();
        lemma_groups_last(e, f.children, n);
        lemma_groups_found(e, f.children, body, body.len() as int);
        assert(f.children.subrange(0, n) =~= f.children);
        assert forall|q: Seq<char>| conventional(q) implies #[trigger] lookup(body, q) == lookup(
            e,
            q,
        ) by {}
        assert(head_found(body, f));
        lemma_texts_back(f.cdata);
        lemma_texts_back(f.pi);
        lemma_texts_back(f.comments);
        let g = frame_of(Seq::empty(), body);
        assert(g.attrs =~= f.attrs);
        assert(g.children == f.children);
        assert(g.has_text == f.has_text);
        assert(f.has_text ==> g.text == f.text);
        assert(g.cdata == f.cdata && g.pi == f.pi && g.comments == f.comments);
        assert(finalised(g) == finalised(f));
    }
}

// ---------------------------------------------------------------------------
// What the reader keeps
// ---------------------------------------------------------------------------

/// Whether the entries above the root are at most a declaration.
spec fn top_collected(top: Seq<(Seq<char>, Tree)>) -> bool {
    top.len() > 0 ==> top.len() == 1 && top[0].0 == "#xml"@ && exists|d: DeclModel|
        top[0].1 == Tree::Object(#[trigger] declaration_entries(d))
}

/// Whether what was read so far is collected.
spec fn state_collected(m: XmlModel) -> bool {
    &&& top_collected(m.top)
    &&& groups_collected(m.children)
    &&& forall|i: int| 0 <= i < m.stack.len() ==> groups_collected((#[trigger] m.stack[i]).children)
}

proof fn lemma_grouped_collected(
    groups: Seq<(Seq<char>, Seq<Tree>)>,
    tag: Seq<char>,
    child: Tree,
)
    requires
        groups_collected(groups),
        is_collected(child),
    ensures
        groups_collected(grouped(groups, tag, child)),
{
    let after = grouped(groups, tag, child);
    let at = key_index(groups, tag);
    lemma_key_index(groups, tag);
    let list = match lookup(groups, tag) {
        Some(before) => before.push(child),
        None => seq![child],
    };
    law_insert_keeps_keys_unique(groups, tag, list);
    assert forall|j: int| 0 <= j < list.len() implies is_collected(#[trigger] list[j]) by {
        if let Some(before) = lookup(groups, tag) {
            assert(list_collected(groups[at].1));
            if j < before.len() {
                assert(list[j] == before[j]);
            }
        }
    }
    assert forall|i: int| 0 <= i < after.len() implies list_collected((#[trigger] after[i]).1) by {
        if i == at {
            assert(after[i].1 == list);
        } else {
            assert(after[i] == groups[i]);
        }
    }
}

proof fn lemma_closed_collected(m: XmlModel, f: FrameModel)
    requires
        state_collected(m),
        groups_collected(f.children),
    ensures
        state_collected(closed(m, f)),
{
    lemma_finalised_collected(f);
    if m.stack.len() > 0 {
        assert(groups_collected(m.stack[m.stack.len() - 1].children));
        lemma_grouped_collected(m.stack.last().children, f.tag, finalised(f));
    } else {
        lemma_grouped_collected(m.children, f.tag, finalised(f));
    }
}

proof fn lemma_step_collected(m: XmlModel, text: Seq<char>, e: XmlPiece)
    requires
        state_collected(m),
    ensures
        xml_step(m, text, e) matches Ok(after) ==> state_collected(after),
{
    if m.stack.len() > 0 {
        assert(groups_collected(m.stack[m.stack.len() - 1].children));
    }
    assert(state_collected(element_seen(m)));
    match e.kind {
        XmlKind::Declaration => {
            let entries = declaration_entries(declaration_of(e.content));
            lemma_key_index(m.top, "#xml"@);
            let after = inserted(m.top, "#xml"@, Tree::Object(entries));
            if m.top.len() > 0 {
                assert(m.top[0].0 == "#xml"@);
                crate::value::lemma_key_index_is(m.top, "#xml"@, 0);
            }
            assert(after[0] == ("#xml"@, Tree::Object(entries)));
            assert(after.len() == 1);
        },
        XmlKind::Lone => {
            if let Ok(f) = started(e.content) {
                lemma_closed_collected(element_seen(m), f);
            }
        },
        XmlKind::Closing => {
            if m.stack.len() > 0 {
                let rest = XmlModel { stack: m.stack.drop_last(), ..m };
                assert(state_collected(rest));
                lemma_closed_collected(rest, m.stack.last());
            }
        },
        _ => {},
    }
}

proof fn lemma_run_collected(text: Seq<char>, events: Seq<XmlPiece>, k: int)
    ensures
        xml_run(text, events, k) matches Ok(m) ==> state_collected(m),
    decreases k,
{
    if k > 0 {
        lemma_run_collected(text, events, k - 1);
        if let Ok(m) = xml_run(text, events, k - 1) {
            lemma_step_collected(m, text, events[k - 1]);
        }
    }
}

// ---------------------------------------------------------------------------
// Documents
// ---------------------------------------------------------------------------

proof fn lemma_declared_back(d: DeclModel)
    ensures
        declared(declaration_entries(d)) == d,
{
    reveal_strlit("version");
    reveal_strlit("encoding");
    reveal_strlit("standalone");
    assert("version"@[0] == 'v');
    assert("encoding"@[0] == 'e');
    assert("standalone"@[0] == 's');
    let version = match d.version {
        Some(v) => Some(Tree::String(v)),
        None => None,
    };
    let encoding = match d.encoding {
        Some(v) => Some(Tree::String(v)),
        None => None,
    };
    let standalone = match d.standalone {
        Some(v) => Some(Tree::String(v)),
        None => None,
    };
    let none = Seq::<(Seq<char>, Tree)>::empty();
    let b = put(none, "version"@, version);
    let c = put(b, "encoding"@, encoding);
    let e = put(c, "standalone"@, standalone);
    lemma_put(none, "version"@, version);
    lemma_put(b, "encoding"@, encoding);
    lemma_put(c, "standalone"@, standalone);
    assert(forall|q: Seq<char>| lookup(none, q) is None);
    assert(e == declaration_entries(d));
}

proof fn lemma_total_at_least(groups: Seq<(Seq<char>, Seq<Tree>)>, k: int)
    requires
        groups_collected(groups),
        0 <= k <= groups.len(),
    ensures
        group_total(groups, k) >= k,
    decreases k,
{
    if k > 0 {
        lemma_total_at_least(groups, k - 1);
        assert(list_collected(groups[k - 1].1));
    }
}

proof fn lemma_root_index(top: Seq<(Seq<char>, Tree)>, at: int, k: int)
    requires
        0 <= k <= at < top.len(),
        !conventional(top[at].0),
        forall|i: int| 0 <= i < at ==> conventional((#[trigger] top[i]).0),
    ensures
        root_index(top, k) == at,
    decreases at - k,
{
    if k < at {
        assert(conventional(top[k].0));
        lemma_root_index(top, at, k + 1);
    }
}

/// What stands above the root element.
spec fn prolog_of(m: XmlModel) -> Seq<(Seq<char>, Tree)> {
    put(put(m.top, "#pi"@, texts_value(m.pi)), "#comments"@, texts_value(m.comments))
}

proof fn lemma_prolog(m: XmlModel)
    requires
        top_collected(m.top),
    ensures
        unique_keys(prolog_of(m)),
        all_conventional(prolog_of(m)),
        forall|i: int|
            0 <= i < prolog_of(m).len() ==> is_top_key((#[trigger] prolog_of(m)[i]).0),
        lookup(prolog_of(m), "#xml"@) == (if m.top.len() == 0 {
            None
        } else {
            Some(m.top[0].1)
        }),
        lookup(prolog_of(m), "#pi"@) == texts_value(m.pi),
        lookup(prolog_of(m), "#comments"@) == texts_value(m.comments),
        xml_value(m) == Tree::Object(
            with_groups(prolog_of(m), m.children, m.children.len() as int),
        ),
{
    lemma_key_names();
    let a = put(m.top, "#pi"@, texts_value(m.pi));
    let b = prolog_of(m);
    lemma_put(m.top, "#pi"@, texts_value(m.pi));
    lemma_put(a, "#comments"@, texts_value(m.comments));
    lemma_key_index(m.top, "#xml"@);
    lemma_key_index(m.top, "#pi"@);
    lemma_key_index(m.top, "#comments"@);
    if m.top.len() > 0 {
        crate::value::lemma_key_index_is(m.top, "#xml"@, 0);
    }
    assert forall|i: int| 0 <= i < a.len() implies is_top_key((#[trigger] a[i]).0) by {
        if a[i].0 != "#pi"@ {
            let j = choose|j: int| 0 <= j < m.top.len() && (#[trigger] m.top[j]).0 == a[i].0;
            assert(m.top[j].0 == "#xml"@);
        }
    }
    assert forall|i: int| 0 <= i < b.len() implies is_top_key((#[trigger] b[i]).0) by {
        if b[i].0 != "#comments"@ {
            let j = choose|j: int| 0 <= j < a.len() && (#[trigger] a[j]).0 == b[i].0;
            assert(is_top_key(a[j].0));
        }
    }
    assert(a == with_list(m.top, "#pi"@, m.pi));
    assert(b == with_list(a, "#comments"@, m.comments));
}

/// A root under a conventional name would stand where something else belongs.
proof fn lemma_roots_apart(m: XmlModel, top: Seq<(Seq<char>, Tree)>)
    requires
        state_collected(m),
        xml_value(m) == Tree::Object(top),
        holds_plain_document(Tree::Object(top)),
    ensures
        tags_apart(m.children),
{
    lemma_prolog(m);
    let e = prolog_of(m);
    let n = m.children.len() as int;
    let whole = Tree::Object(top);
    assert(whole->Object_0 == with_groups(e, m.children, n));
    lemma_groups_put(e, m.children, n);
    assert forall|x: int| 0 <= x < m.children.len() implies !conventional(
        (#[trigger] m.children[x]).0,
    ) by {
        let name = m.children[x].0;
        let items = m.children[x].1;
        assert(lookup(top, name) == Some(Tree::Array(items)));
        let list = Tree::Array(items);
        assert(list->Array_0 == items);
        assert(list_collected(items));
        assert(is_collected(items[0]));
        assert(items[0] is Object);
        if is_top_key(name) {
            if name != "#xml"@ {
                assert(items[0] is String);
            }
        } else {
            lemma_key_index(top, name);
            assert(plain_root(top[key_index(top, name)]));
        }
    }
}

proof fn lemma_document_collected(m: XmlModel)
    requires
        state_collected(m),
        group_total(m.children, m.children.len() as int) == 1,
        holds_plain_document(xml_value(m)),
    ensures
        is_clean_document(xml_value(m)),
{
    lemma_prolog(m);
    let e = prolog_of(m);
    let n = m.children.len() as int;
    let top = with_groups(e, m.children, n);
    let t = Tree::Object(top);
    assert(t->Object_0 == top);
    lemma_roots_apart(m, top);
    lemma_total_at_least(m.children, n);
    assert(n == 1) by {
        if n == 0 {
            assert(group_total(m.children, 0) == 0);
        }
    }
    assert(group_total(m.children, 1) == group_total(m.children, 0) + m.children[0].1.len());
    lemma_groups_put(e, m.children, n);
    lemma_groups_last(e, m.children, n);
    lemma_groups_found(e, m.children, top, top.len() as int);
    assert(m.children.subrange(0, n) =~= m.children);
    let at = e.len() as int;
    assert(top[at] == group_entry(m.children[0]));
    let items = m.children[0].1;
    assert(top[at].1->Array_0 == items);
    assert(!conventional(m.children[0].0));
    assert forall|i: int| 0 <= i < at implies conventional((#[trigger] top[i]).0) && is_top_key(
        top[i].0,
    ) by {
        assert(top[i] == e[i]);
    }
    lemma_root_index(top, at, 0);
    assert(!is_top_key(top[at].0));
    assert(plain_root(top[at]));
    assert(list_collected(items));
    assert(is_collected(items[0]));
    assert(holds_plain(items[0]));
    lemma_collected_is_clean(items[0]);
    assert forall|q: Seq<char>| conventional(q) implies #[trigger] lookup(top, q) == lookup(
        e,
        q,
    ) by {}
    lemma_texts_back(m.pi);
    lemma_texts_back(m.comments);
    if m.top.len() > 0 {
        let d = choose|d: DeclModel| m.top[0].1 == Tree::Object(#[trigger] declaration_entries(d));
        lemma_declared_back(d);
    }
    assert(clean_declaration(top));
    assert(clean_root(top));
    let s = state_of(top);
    assert(s.top =~= m.top);
    assert(s.children == m.children);
    assert(s.pi == m.pi && s.comments == m.comments);
    assert(xml_value(s) == xml_value(m));
}

/// What a reading comes to reads back as it is written, where its names and
/// texts stay as they are.
pub proof fn lemma_outcome_is_clean(text: Seq<char>, reading: XmlReading)
    ensures
        xml_outcome(text, reading) matches Ok((t, _)) ==> holds_plain_document(t)
            ==> is_clean_document(t),
{
    let n = reading.events.len() as int;
    lemma_run_collected(text, reading.events, n);
    if let Ok(m) = xml_run(text, reading.events, n) {
        if let Ok((t, _)) = xml_outcome(text, reading) {
            if holds_plain_document(t) {
                lemma_document_collected(m);
            }
        }
    }
}

/// A document that was read, and whose names and texts stay as they are when
/// they are written, is written to the end. Parsing what is written gives it
/// back.
pub proof fn law_what_was_read_is_written_back(bytes: Seq<u8>)
    ensures
        xml_parsed(bytes) matches Ok((t, _)) ==> holds_plain_document(t) ==> is_clean_document(t)
            && (xml_rendered(t) matches Ok(out) && spells_xml(out, t)),
{
    let text = decode_utf8(bytes);
    lemma_outcome_is_clean(text, xml_reading(text));
    if let Ok((t, _)) = xml_parsed(bytes) {
        if holds_plain_document(t) {
            law_clean_document_is_written(t);
        }
    }
}

} // verus!
