//! The shape of the trees that XML is read into.

use crate::parsers::xml_events::{AttrModel, DeclModel, XmlKind, XmlPiece};
use crate::parsers::xml_read::{
    attrs_read, child_added, closed, declaration_entries, declaration_of, element_seen, finalised,
    grouped, started, string_trees, with_groups, with_list, xml_parsed, xml_run, xml_step,
    FrameModel, NoteModel, XmlModel,
};
use crate::value::{has_key, inserted, key_index, lemma_key_index, lookup, Tree};
use vstd::prelude::*;

verus! {

/// Whether every item is a string.
pub open spec fn all_strings(items: Seq<Tree>) -> bool {
    forall|i: int| 0 <= i < items.len() ==> (#[trigger] items[i]) is String
}

/// Whether every entry holds a string.
pub open spec fn string_entries(entries: Seq<(Seq<char>, Tree)>) -> bool {
    forall|i: int| 0 <= i < entries.len() ==> (#[trigger] entries[i]).1 is String
}

/// Whether a value is what a conventional key of an element holds: attributes,
/// text, and lists of texts.
pub open spec fn conventional(key: Seq<char>, v: Tree) -> bool {
    ||| key == "@attrs"@ && v is Object && string_entries(v->Object_0)
    ||| key == "#text"@ && v is String
    ||| (key == "#cdata"@ || key == "#pi"@ || key == "#comments"@) && v is Array && all_strings(
        v->Array_0,
    )
}

/// Whether a tree is that of an element: an object whose entries are
/// conventional, or lists of elements.
pub open spec fn element_shaped(t: Tree) -> bool
    decreases t,
{
    match t {
        Tree::Object(entries) => forall|i: int|
            0 <= i < entries.len() ==> conventional((#[trigger] entries[i]).0, entries[i].1) || (
            entries[i].1 is Array && forall|j: int|
                0 <= j < entries[i].1->Array_0.len() ==> element_shaped(
                    #[trigger] entries[i].1->Array_0[j],
                )),
        _ => false,
    }
}

/// Whether a tree is a list of elements.
pub open spec fn list_of_elements(t: Tree) -> bool {
    match t {
        Tree::Array(items) => forall|i: int|
            0 <= i < items.len() ==> element_shaped(#[trigger] items[i]),
        _ => false,
    }
}

/// Whether an entry is one that an element has.
pub open spec fn element_entry(entry: (Seq<char>, Tree)) -> bool {
    conventional(entry.0, entry.1) || list_of_elements(entry.1)
}

/// Whether a tree is that of a document: the declaration, instructions and
/// comments under their conventional keys, and lists of elements.
pub open spec fn document_shaped(t: Tree) -> bool {
    match t {
        Tree::Object(entries) => forall|i: int|
            0 <= i < entries.len() ==> document_entry(#[trigger] entries[i]),
        _ => false,
    }
}

/// Whether an entry is one that a document has.
pub open spec fn document_entry(entry: (Seq<char>, Tree)) -> bool {
    ||| entry.0 == "#xml"@ && entry.1 is Object && string_entries(entry.1->Object_0)
    ||| (entry.0 == "#pi"@ || entry.0 == "#comments"@) && entry.1 is Array && all_strings(
        entry.1->Array_0,
    )
    ||| list_of_elements(entry.1)
}

// ---------------------------------------------------------------------------
// What the reader keeps
// ---------------------------------------------------------------------------

/// Whether every child is an element.
spec fn groups_shaped(groups: Seq<(Seq<char>, Seq<Tree>)>) -> bool {
    forall|i: int| 0 <= i < groups.len() ==> list_of_elements(Tree::Array((#[trigger] groups[i]).1))
}

/// Whether what an open element holds so far is as it will be shown.
spec fn frame_shaped(f: FrameModel) -> bool {
    string_entries(f.attrs) && groups_shaped(f.children)
}

/// Whether what was read so far is as it will be shown.
spec fn state_shaped(m: XmlModel) -> bool {
    &&& forall|i: int| 0 <= i < m.top.len() ==> document_entry(#[trigger] m.top[i])
    &&& groups_shaped(m.children)
    &&& forall|i: int| 0 <= i < m.stack.len() ==> frame_shaped(#[trigger] m.stack[i])
}

proof fn lemma_string_inserted(entries: Seq<(Seq<char>, Tree)>, key: Seq<char>, text: Seq<char>)
    requires
        string_entries(entries),
    ensures
        string_entries(inserted(entries, key, Tree::String(text))),
{
    lemma_key_index(entries, key);
    let after = inserted(entries, key, Tree::String(text));
    assert forall|i: int| 0 <= i < after.len() implies (#[trigger] after[i]).1 is String by {
        if i != key_index(entries, key) {
            assert(after[i] == entries[i]);
        }
    }
}

proof fn lemma_element_inserted(entries: Seq<(Seq<char>, Tree)>, key: Seq<char>, v: Tree)
    requires
        forall|i: int| 0 <= i < entries.len() ==> element_entry(#[trigger] entries[i]),
        element_entry((key, v)),
    ensures
        forall|i: int|
            0 <= i < inserted(entries, key, v).len() ==> element_entry(
                #[trigger] inserted(entries, key, v)[i],
            ),
{
    lemma_key_index(entries, key);
    let after = inserted(entries, key, v);
    assert forall|i: int| 0 <= i < after.len() implies element_entry(#[trigger] after[i]) by {
        if i != key_index(entries, key) {
            assert(after[i] == entries[i]);
        }
    }
}

proof fn lemma_document_inserted(entries: Seq<(Seq<char>, Tree)>, key: Seq<char>, v: Tree)
    requires
        forall|i: int| 0 <= i < entries.len() ==> document_entry(#[trigger] entries[i]),
        document_entry((key, v)),
    ensures
        forall|i: int|
            0 <= i < inserted(entries, key, v).len() ==> document_entry(
                #[trigger] inserted(entries, key, v)[i],
            ),
{
    lemma_key_index(entries, key);
    let after = inserted(entries, key, v);
    assert forall|i: int| 0 <= i < after.len() implies document_entry(#[trigger] after[i]) by {
        if i != key_index(entries, key) {
            assert(after[i] == entries[i]);
        }
    }
}

proof fn lemma_element_groups(
    entries: Seq<(Seq<char>, Tree)>,
    groups: Seq<(Seq<char>, Seq<Tree>)>,
    k: int,
)
    requires
        forall|i: int| 0 <= i < entries.len() ==> element_entry(#[trigger] entries[i]),
        groups_shaped(groups),
        0 <= k <= groups.len(),
    ensures
        forall|i: int|
            0 <= i < with_groups(entries, groups, k).len() ==> element_entry(
                #[trigger] with_groups(entries, groups, k)[i],
            ),
    decreases k,
{
    if k > 0 {
        lemma_element_groups(entries, groups, k - 1);
        lemma_element_inserted(
            with_groups(entries, groups, k - 1),
            groups[k - 1].0,
            Tree::Array(groups[k - 1].1),
        );
    }
}

proof fn lemma_document_groups(
    entries: Seq<(Seq<char>, Tree)>,
    groups: Seq<(Seq<char>, Seq<Tree>)>,
    k: int,
)
    requires
        forall|i: int| 0 <= i < entries.len() ==> document_entry(#[trigger] entries[i]),
        groups_shaped(groups),
        0 <= k <= groups.len(),
    ensures
        forall|i: int|
            0 <= i < with_groups(entries, groups, k).len() ==> document_entry(
                #[trigger] with_groups(entries, groups, k)[i],
            ),
    decreases k,
{
    if k > 0 {
        lemma_document_groups(entries, groups, k - 1);
        lemma_document_inserted(
            with_groups(entries, groups, k - 1),
            groups[k - 1].0,
            Tree::Array(groups[k - 1].1),
        );
    }
}

proof fn lemma_finalised(f: FrameModel)
    requires
        frame_shaped(f),
    ensures
        element_shaped(finalised(f)),
{
    let none = Seq::<(Seq<char>, Tree)>::empty();
    let a = if f.attrs.len() == 0 {
        none
    } else {
        inserted(none, "@attrs"@, Tree::Object(f.attrs))
    };
    lemma_element_inserted(none, "@attrs"@, Tree::Object(f.attrs));
    let b = if f.has_text {
        inserted(a, "#text"@, Tree::String(f.text))
    } else {
        a
    };
    lemma_element_inserted(a, "#text"@, Tree::String(f.text));
    let c = with_list(b, "#cdata"@, f.cdata);
    lemma_element_inserted(b, "#cdata"@, Tree::Array(string_trees(f.cdata)));
    let d = with_list(c, "#pi"@, f.pi);
    lemma_element_inserted(c, "#pi"@, Tree::Array(string_trees(f.pi)));
    let e = with_list(d, "#comments"@, f.comments);
    lemma_element_inserted(d, "#comments"@, Tree::Array(string_trees(f.comments)));
    lemma_element_groups(e, f.children, f.children.len() as int);
    let all = with_groups(e, f.children, f.children.len() as int);
    assert forall|i: int| 0 <= i < all.len() implies conventional((#[trigger] all[i]).0, all[i].1)
        || (all[i].1 is Array && forall|j: int|
        0 <= j < all[i].1->Array_0.len() ==> element_shaped(#[trigger] all[i].1->Array_0[j])) by {
        assert(element_entry(all[i]));
    }
}

proof fn lemma_list_longer(items: Seq<Tree>, child: Tree)
    requires
        list_of_elements(Tree::Array(items)),
        element_shaped(child),
    ensures
        list_of_elements(Tree::Array(items.push(child))),
{
    let after = items.push(child);
    let t = Tree::Array(items);
    assert(t->Array_0 == items);
    assert forall|j: int| 0 <= j < after.len() implies element_shaped(#[trigger] after[j]) by {
        if j < items.len() {
            assert(after[j] == items[j]);
            assert(element_shaped(items[j]));
        }
    }
}

proof fn lemma_grouped(groups: Seq<(Seq<char>, Seq<Tree>)>, tag: Seq<char>, child: Tree)
    requires
        groups_shaped(groups),
        element_shaped(child),
    ensures
        groups_shaped(grouped(groups, tag, child)),
{
    let after = grouped(groups, tag, child);
    let at = key_index(groups, tag);
    lemma_key_index(groups, tag);
    assert forall|i: int| 0 <= i < after.len() implies list_of_elements(
        Tree::Array((#[trigger] after[i]).1),
    ) by {
        if i != at {
            assert(after[i] == groups[i]);
        } else if has_key(groups, tag) {
            let before = groups[at].1;
            assert(list_of_elements(Tree::Array(groups[at].1)));
            assert(after[i].1 == before.push(child));
            lemma_list_longer(before, child);
        } else {
            assert(after[i].1 == seq![child]);
        }
    }
}

proof fn lemma_child_added(m: XmlModel, tag: Seq<char>, child: Tree)
    requires
        state_shaped(m),
        element_shaped(child),
    ensures
        state_shaped(child_added(m, tag, child)),
{
    if m.stack.len() > 0 {
        assert(frame_shaped(m.stack[m.stack.len() - 1]));
        lemma_grouped(m.stack.last().children, tag, child);
    } else {
        lemma_grouped(m.children, tag, child);
    }
}

proof fn lemma_closed(m: XmlModel, f: FrameModel)
    requires
        state_shaped(m),
        frame_shaped(f),
    ensures
        state_shaped(closed(m, f)),
{
    lemma_finalised(f);
    let noted = if f.saw_mixed {
        XmlModel {
            notes: m.notes.push(
                NoteModel::MixedContent(
                    crate::parsers::xml_read::element_path_of(m.stack, f.tag),
                ),
            ),
            ..m
        }
    } else {
        m
    };
    lemma_child_added(noted, f.tag, finalised(f));
}

proof fn lemma_attrs(list: Seq<AttrModel>, k: int)
    ensures
        attrs_read(list, k) matches Ok(entries) ==> string_entries(entries),
    decreases k,
{
    if k > 0 {
        lemma_attrs(list, k - 1);
        if let Ok(before) = attrs_read(list, k - 1) {
            if let AttrModel::Pair(name, value) = list[k - 1] {
                lemma_string_inserted(before, name, value);
            }
        }
    }
}

proof fn lemma_started(content: Seq<char>)
    ensures
        started(content) matches Ok(f) ==> frame_shaped(f),
{
    let list = crate::parsers::xml_events::xml_attributes(
        content,
        crate::parsers::xml_read::tag_len(content),
    );
    lemma_attrs(list, list.len() as int);
}

proof fn lemma_declaration(d: DeclModel)
    ensures
        string_entries(declaration_entries(d)),
{
    let a = Seq::<(Seq<char>, Tree)>::empty();
    let b = match d.version {
        Some(v) => inserted(a, "version"@, Tree::String(v)),
        None => a,
    };
    if let Some(v) = d.version {
        lemma_string_inserted(a, "version"@, v);
    }
    let c = match d.encoding {
        Some(v) => inserted(b, "encoding"@, Tree::String(v)),
        None => b,
    };
    if let Some(v) = d.encoding {
        lemma_string_inserted(b, "encoding"@, v);
    }
    if let Some(v) = d.standalone {
        lemma_string_inserted(c, "standalone"@, v);
    }
}

proof fn lemma_step(m: XmlModel, text: Seq<char>, e: XmlPiece)
    requires
        state_shaped(m),
    ensures
        xml_step(m, text, e) matches Ok(after) ==> state_shaped(after),
{
    if m.stack.len() > 0 {
        assert(frame_shaped(m.stack[m.stack.len() - 1]));
    }
    assert(state_shaped(element_seen(m)));
    match e.kind {
        XmlKind::Declaration => {
            let d = declaration_of(e.content);
            lemma_declaration(d);
            lemma_document_inserted(m.top, "#xml"@, Tree::Object(declaration_entries(d)));
        },
        XmlKind::Opening => {
            lemma_started(e.content);
        },
        XmlKind::Lone => {
            lemma_started(e.content);
            if let Ok(f) = started(e.content) {
                lemma_closed(element_seen(m), f);
            }
        },
        XmlKind::Closing => {
            if m.stack.len() > 0 {
                let rest = XmlModel { stack: m.stack.drop_last(), ..m };
                assert(state_shaped(rest));
                lemma_closed(rest, m.stack.last());
            }
        },
        _ => {},
    }
}

proof fn lemma_run(text: Seq<char>, events: Seq<XmlPiece>, k: int)
    ensures
        xml_run(text, events, k) matches Ok(m) ==> state_shaped(m),
    decreases k,
{
    if k > 0 {
        lemma_run(text, events, k - 1);
        if let Ok(m) = xml_run(text, events, k - 1) {
            lemma_step(m, text, events[k - 1]);
        }
    }
}

/// What is read from XML has the documented shape: attributes, text and the
/// lists of texts under their conventional keys, and the children of every
/// element in lists by tag, even where there is only one.
pub proof fn law_xml_is_read_into_shape(bytes: Seq<u8>)
    ensures
        xml_parsed(bytes) matches Ok((t, _)) ==> document_shaped(t),
{
    let text = vstd::utf8::decode_utf8(bytes);
    let events = crate::parsers::xml_events::xml_reading(text).events;
    lemma_run(text, events, events.len() as int);
    if let Ok(m) = xml_run(text, events, events.len() as int) {
        let a = with_list(m.top, "#pi"@, m.pi);
        lemma_document_inserted(m.top, "#pi"@, Tree::Array(string_trees(m.pi)));
        let b = with_list(a, "#comments"@, m.comments);
        lemma_document_inserted(a, "#comments"@, Tree::Array(string_trees(m.comments)));
        lemma_document_groups(b, m.children, m.children.len() as int);
    }
}

/// The children with one tag stand in document order: one more goes last in the
/// list of its tag, and the other lists stay.
pub proof fn law_children_keep_their_order(
    groups: Seq<(Seq<char>, Seq<Tree>)>,
    tag: Seq<char>,
    child: Tree,
    other: Seq<char>,
)
    ensures
        lookup(grouped(groups, tag, child), tag) == Some(
            match lookup(groups, tag) {
                Some(before) => before.push(child),
                None => seq![child],
            },
        ),
        other != tag ==> lookup(grouped(groups, tag, child), other) == lookup(groups, other),
{
    match lookup(groups, tag) {
        Some(before) => {
            crate::value::law_insert_lookup(groups, tag, before.push(child), other);
        },
        None => {
            crate::value::law_insert_lookup(groups, tag, seq![child], other);
        },
    }
}

} // verus!
