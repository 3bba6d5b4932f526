//! What stands in an XML text is found in its value: attributes, texts, comments
//! and children, each under its element.

use crate::error::Fault;
use crate::parsers::xml_events::{
    line_ends_normalised, xml_char_reference, AttrModel, DeclModel, XmlKind, XmlPiece,
};
use crate::parsers::xml_read::{
    attrs_read, declaration_entries, declaration_of, element_path_of, finalised, placed_fault,
    reference_text, stack_path, started, string_trees, with_groups, with_list, xml_run, xml_step,
    xml_value, FrameModel, NoteModel, XmlModel,
};
use crate::parsers::xml_write::{xml_escaped, xml_escaped_char};
use crate::position::{char_line_col, snippet_at};
use crate::text::{is_white, trim};
use crate::text_laws::{lemma_trim_end, lemma_trim_start};
use crate::value::{
    inserted, key_index, law_insert_keeps_keys_unique, law_insert_lookup, lemma_key_index,
    lemma_key_index_is, lookup, unique_keys, Tree,
};
use crate::xml_laws::law_children_keep_their_order;
use crate::yaml_scalar_laws::put_first;
use vstd::prelude::*;
use vstd::utf8::encode_utf8;

verus! {

/// Whether a key is one that an element holds something else than children under.
pub open spec fn is_element_key(key: Seq<char>) -> bool {
    key == "@attrs"@ || key == "#text"@ || key == "#cdata"@ || key == "#pi"@ || key == "#comments"@
}

proof fn lemma_keys()
    ensures
        "@attrs"@.len() == 6 && "@attrs"@[0] == '@',
        "#text"@.len() == 5,
        "#cdata"@.len() == 6 && "#cdata"@[0] == '#',
        "#pi"@.len() == 3,
        "#comments"@.len() == 9,
        "#xml"@.len() == 4,
        "version"@.len() == 7,
        "encoding"@.len() == 8,
        "standalone"@.len() == 10,
{
    reveal_strlit("@attrs");
    reveal_strlit("#text");
    reveal_strlit("#cdata");
    reveal_strlit("#pi");
    reveal_strlit("#comments");
    reveal_strlit("#xml");
    reveal_strlit("version");
    reveal_strlit("encoding");
    reveal_strlit("standalone");
}

proof fn lemma_nothing(key: Seq<char>)
    ensures
        lookup(Seq::<(Seq<char>, Tree)>::empty(), key) is None,
{
    lemma_key_index_is(Seq::<(Seq<char>, Tree)>::empty(), key, 0);
}

/// Whether a value is a list of texts, in order; none where there are no texts.
pub open spec fn is_text_list(value: Option<Tree>, items: Seq<Seq<char>>) -> bool {
    if items.len() == 0 {
        value is None
    } else {
        &&& value matches Some(Tree::Array(shown))
        &&& shown.len() == items.len()
        &&& forall|i: int| 0 <= i < items.len() ==> #[trigger] shown[i] == Tree::String(items[i])
    }
}

proof fn lemma_list(
    entries: Seq<(Seq<char>, Tree)>,
    key: Seq<char>,
    items: Seq<Seq<char>>,
    other: Seq<char>,
)
    ensures
        lookup(entries, key) is None ==> is_text_list(
            lookup(with_list(entries, key, items), key),
            items,
        ),
        other != key ==> lookup(with_list(entries, key, items), other) == lookup(entries, other),
{
    law_insert_lookup(entries, key, Tree::Array(string_trees(items)), key);
    law_insert_lookup(entries, key, Tree::Array(string_trees(items)), other);
}

proof fn lemma_groups(
    entries: Seq<(Seq<char>, Tree)>,
    groups: Seq<(Seq<char>, Seq<Tree>)>,
    k: int,
    key: Seq<char>,
)
    requires
        0 <= k <= groups.len(),
        unique_keys(groups),
    ensures
        lookup(with_groups(entries, groups, k), key) == (match lookup(groups.subrange(0, k), key) {
            Some(list) => Some(Tree::Array(list)),
            None => lookup(entries, key),
        }),
    decreases k,
{
    let part = groups.subrange(0, k);
    lemma_key_index(part, key);
    if k > 0 {
        lemma_groups(entries, groups, k - 1, key);
        let less = groups.subrange(0, k - 1);
        lemma_key_index(less, key);
        let before = with_groups(entries, groups, k - 1);
        law_insert_lookup(before, groups[k - 1].0, Tree::Array(groups[k - 1].1), key);
        if groups[k - 1].0 == key {
            assert forall|i: int| 0 <= i < k - 1 implies (#[trigger] part[i]).0 != key by {
                assert(groups[i].0 != groups[k - 1].0);
            }
            lemma_key_index_is(part, key, k - 1);
        } else {
            let at = key_index(less, key);
            assert forall|i: int| 0 <= i < at implies (#[trigger] part[i]).0 != key by {
                assert(less[i] == part[i]);
            }
            if at < k - 1 {
                assert(part[at] == less[at]);
                lemma_key_index_is(part, key, at);
            } else {
                assert forall|i: int| 0 <= i < k implies (#[trigger] part[i]).0 != key by {
                    if i < k - 1 {
                        assert(less[i] == part[i]);
                    }
                }
                lemma_key_index_is(part, key, k);
            }
        }
    } else {
        lemma_key_index_is(part, key, 0);
    }
}

/// A closed element shows all that it holds, each under its key: its attributes,
/// its text, its CDATA blocks, instructions and comments in their order, and the
/// children of each tag in their order. It shows nothing else.
pub proof fn law_element_shows_what_it_holds(f: FrameModel, tag: Seq<char>)
    requires
        unique_keys(f.children),
        forall|i: int|
            0 <= i < f.children.len() ==> !is_element_key((#[trigger] f.children[i]).0),
        !is_element_key(tag),
    ensures
        ({
            &&& finalised(f) matches Tree::Object(entries)
            &&& lookup(entries, "@attrs"@) == (if f.attrs.len() > 0 {
                Some(Tree::Object(f.attrs))
            } else {
                None
            })
            &&& lookup(entries, "#text"@) == (if f.has_text {
                Some(Tree::String(f.text))
            } else {
                None
            })
            &&& is_text_list(lookup(entries, "#cdata"@), f.cdata)
            &&& is_text_list(lookup(entries, "#pi"@), f.pi)
            &&& is_text_list(lookup(entries, "#comments"@), f.comments)
            &&& lookup(entries, tag) == (match lookup(f.children, tag) {
                Some(list) => Some(Tree::Array(list)),
                None => None,
            })
        }),
{
    lemma_keys();
    let none = Seq::<(Seq<char>, Tree)>::empty();
    let a = if f.attrs.len() == 0 {
        none
    } else {
        inserted(none, "@attrs"@, Tree::Object(f.attrs))
    };
    let b = if f.has_text {
        inserted(a, "#text"@, Tree::String(f.text))
    } else {
        a
    };
    let c = with_list(b, "#cdata"@, f.cdata);
    let d = with_list(c, "#pi"@, f.pi);
    let e = with_list(d, "#comments"@, f.comments);
    let all = with_groups(e, f.children, f.children.len() as int);
    assert(finalised(f) == Tree::Object(all));
    assert forall|key: Seq<char>| #[trigger] lookup(e, key) == lookup(e, key) && (is_element_key(key)
        || lookup(e, key) is None) && (key == "@attrs"@ ==> lookup(e, key) == (if f.attrs.len() > 0 {
        Some(Tree::Object(f.attrs))
    } else {
        None
    })) && (key == "#text"@ ==> lookup(e, key) == (if f.has_text {
        Some(Tree::String(f.text))
    } else {
        None
    })) && (key == "#cdata"@ ==> is_text_list(lookup(e, key), f.cdata)) && (key == "#pi"@
        ==> is_text_list(lookup(e, key), f.pi)) && (key == "#comments"@ ==> is_text_list(
        lookup(e, key),
        f.comments,
    )) by {
        lemma_nothing(key);
        law_insert_lookup(none, "@attrs"@, Tree::Object(f.attrs), key);
        law_insert_lookup(a, "#text"@, Tree::String(f.text), key);
        lemma_list(b, "#cdata"@, f.cdata, key);
        lemma_list(c, "#pi"@, f.pi, key);
        lemma_list(d, "#comments"@, f.comments, key);
    }
    assert(f.children.subrange(0, f.children.len() as int) =~= f.children);
    lemma_shown(e, f.children, "@attrs"@);
    lemma_shown(e, f.children, "#text"@);
    lemma_shown(e, f.children, "#cdata"@);
    lemma_shown(e, f.children, "#pi"@);
    lemma_shown(e, f.children, "#comments"@);
    lemma_groups(e, f.children, f.children.len() as int, tag);
    assert(lookup(e, tag) is None);
}

proof fn lemma_shown(
    entries: Seq<(Seq<char>, Tree)>,
    groups: Seq<(Seq<char>, Seq<Tree>)>,
    key: Seq<char>,
)
    requires
        unique_keys(groups),
        forall|i: int| 0 <= i < groups.len() ==> (#[trigger] groups[i]).0 != key,
    ensures
        lookup(with_groups(entries, groups, groups.len() as int), key) == lookup(entries, key),
{
    lemma_groups(entries, groups, groups.len() as int, key);
    assert(groups.subrange(0, groups.len() as int) =~= groups);
    lemma_key_index_is(groups, key, groups.len() as int);
}

/// A document shows the instructions and comments that stand outside its root in
/// their order, its elements under their tags, and of what came before its
/// declaration.
pub proof fn law_document_shows_what_it_holds(m: XmlModel, tag: Seq<char>)
    requires
        unique_keys(m.children),
        forall|i: int|
            0 <= i < m.children.len() ==> (#[trigger] m.children[i]).0 != "#pi"@ && m.children[i].0
                != "#comments"@ && m.children[i].0 != "#xml"@,
        lookup(m.top, "#pi"@) is None,
        lookup(m.top, "#comments"@) is None,
        tag != "#pi"@ && tag != "#comments"@,
    ensures
        ({
            &&& xml_value(m) matches Tree::Object(entries)
            &&& is_text_list(lookup(entries, "#pi"@), m.pi)
            &&& is_text_list(lookup(entries, "#comments"@), m.comments)
            &&& lookup(entries, "#xml"@) == lookup(m.top, "#xml"@)
            &&& lookup(entries, tag) == (match lookup(m.children, tag) {
                Some(list) => Some(Tree::Array(list)),
                None => lookup(m.top, tag),
            })
        }),
{
    lemma_keys();
    let a = with_list(m.top, "#pi"@, m.pi);
    let b = with_list(a, "#comments"@, m.comments);
    lemma_list(m.top, "#pi"@, m.pi, "#comments"@);
    lemma_list(m.top, "#pi"@, m.pi, "#xml"@);
    lemma_list(m.top, "#pi"@, m.pi, tag);
    lemma_list(a, "#comments"@, m.comments, "#pi"@);
    lemma_list(a, "#comments"@, m.comments, "#xml"@);
    lemma_list(a, "#comments"@, m.comments, tag);
    lemma_shown(b, m.children, "#pi"@);
    lemma_shown(b, m.children, "#comments"@);
    lemma_shown(b, m.children, "#xml"@);
    lemma_groups(b, m.children, m.children.len() as int, tag);
    assert(m.children.subrange(0, m.children.len() as int) =~= m.children);
}

/// What the last of the first `k` attributes of a name gives it.
pub open spec fn last_attribute(list: Seq<AttrModel>, k: int, name: Seq<char>) -> Option<Seq<char>>
    decreases k,
{
    if k <= 0 {
        None
    } else {
        match list[k - 1] {
            AttrModel::Pair(key, value) if key == name => Some(value),
            _ => last_attribute(list, k - 1, name),
        }
    }
}

/// Every attribute of a tag is read under its name with its value, and there are
/// no others. That fails exactly where one is malformed.
pub proof fn law_every_attribute_is_read(list: Seq<AttrModel>, k: int, name: Seq<char>)
    requires
        0 <= k <= list.len(),
    ensures
        attrs_read(list, k) is Ok <==> forall|i: int| 0 <= i < k ==> (#[trigger] list[i]) is Pair,
        attrs_read(list, k) matches Ok(attrs) ==> unique_keys(attrs) && lookup(attrs, name) == (
        match last_attribute(list, k, name) {
            Some(value) => Some(Tree::String(value)),
            None => None,
        }),
    decreases k,
{
    if k > 0 {
        law_every_attribute_is_read(list, k - 1, name);
        if let Ok(before) = attrs_read(list, k - 1) {
            if let AttrModel::Pair(key, value) = list[k - 1] {
                law_insert_lookup(before, key, Tree::String(value), name);
                law_insert_keeps_keys_unique(before, key, Tree::String(value));
            }
        }
    } else {
        lemma_nothing(name);
    }
}

/// The declaration shows its version, its encoding and whether it stands alone,
/// each where it is given.
pub proof fn law_declaration_shows_its_parts(d: DeclModel)
    ensures
        ({
            let entries = declaration_entries(d);
            &&& lookup(entries, "version"@) == (match d.version {
                Some(v) => Some(Tree::String(v)),
                None => None,
            })
            &&& lookup(entries, "encoding"@) == (match d.encoding {
                Some(v) => Some(Tree::String(v)),
                None => None,
            })
            &&& lookup(entries, "standalone"@) == (match d.standalone {
                Some(v) => Some(Tree::String(v)),
                None => None,
            })
        }),
{
    lemma_keys();
    let a = Seq::<(Seq<char>, Tree)>::empty();
    lemma_nothing("version"@);
    lemma_nothing("encoding"@);
    lemma_nothing("standalone"@);
    let b = match d.version {
        Some(v) => inserted(a, "version"@, Tree::String(v)),
        None => a,
    };
    if let Some(v) = d.version {
        law_insert_lookup(a, "version"@, Tree::String(v), "version"@);
        law_insert_lookup(a, "version"@, Tree::String(v), "encoding"@);
        law_insert_lookup(a, "version"@, Tree::String(v), "standalone"@);
    }
    let c = match d.encoding {
        Some(v) => inserted(b, "encoding"@, Tree::String(v)),
        None => b,
    };
    if let Some(v) = d.encoding {
        law_insert_lookup(b, "encoding"@, Tree::String(v), "version"@);
        law_insert_lookup(b, "encoding"@, Tree::String(v), "encoding"@);
        law_insert_lookup(b, "encoding"@, Tree::String(v), "standalone"@);
    }
    if let Some(v) = d.standalone {
        law_insert_lookup(c, "standalone"@, Tree::String(v), "version"@);
        law_insert_lookup(c, "standalone"@, Tree::String(v), "encoding"@);
        law_insert_lookup(c, "standalone"@, Tree::String(v), "standalone"@);
    }
}

/// Whether all but the innermost open element is as it was.
pub open spec fn only_last_changed(m: XmlModel, n: XmlModel) -> bool {
    &&& n.stack.len() == m.stack.len() > 0
    &&& n.stack.drop_last() == m.stack.drop_last()
    &&& n.top == m.top && n.children == m.children && n.pi == m.pi && n.comments == m.comments
    &&& n.notes == m.notes
}

/// Whether a text holds more than white space.
pub open spec fn holds_more(s: Seq<char>) -> bool {
    exists|i: int| 0 <= i < s.len() && !is_white(#[trigger] s[i])
}

proof fn lemma_holds_more(s: Seq<char>)
    ensures
        trim(s).len() > 0 <==> holds_more(s),
{
    let a = lemma_trim_start(s);
    let t = crate::text::trim_start(s);
    let b = lemma_trim_end(t);
    if trim(s).len() > 0 {
        assert(a < s.len());
        assert(!is_white(s[a]));
    } else if holds_more(s) {
        let i = choose|i: int| 0 <= i < s.len() && !is_white(#[trigger] s[i]);
        if i >= a {
            assert(t[i - a] == s[i]);
            assert(is_white(t[i - a]));
        }
    }
}

/// The text inside an element is collected piece by piece: words, with their line
/// ends as newlines, and what references stand for. Text beside an element makes
/// the content mixed.
pub proof fn law_text_is_collected(m: XmlModel, text: Seq<char>, e: XmlPiece)
    requires
        m.stack.len() > 0,
        e.kind == XmlKind::Words || e.kind == XmlKind::Reference,
    ensures
        ({
            let f = m.stack.last();
            let shown = if e.kind == XmlKind::Words {
                Ok(line_ends_normalised(e.content))
            } else {
                reference_text(e.content, xml_char_reference(e.content))
            };
            let counts = e.kind == XmlKind::Reference || holds_more(shown->Ok_0);
            match xml_step(m, text, e) {
                Ok(n) => {
                    let g = n.stack.last();
                    &&& shown is Ok
                    &&& only_last_changed(m, n)
                    &&& g.text == f.text + shown->Ok_0
                    &&& g.has_text <==> f.has_text || counts
                    &&& g.saw_mixed <==> f.saw_mixed || (counts && f.saw_element)
                    &&& g.tag == f.tag && g.attrs == f.attrs && g.children == f.children && g.cdata
                        == f.cdata && g.pi == f.pi && g.comments == f.comments && g.saw_element
                        == f.saw_element
                },
                Err(_) => shown is Err,
            }
        }),
{
    lemma_holds_more(line_ends_normalised(e.content));
    if let Ok(n) = xml_step(m, text, e) {
        assert(n.stack.drop_last() =~= m.stack.drop_last());
    }
}

/// Comments, instructions and CDATA blocks inside an element are collected in
/// their order, each in its list.
pub proof fn law_lists_are_collected(m: XmlModel, text: Seq<char>, e: XmlPiece)
    requires
        m.stack.len() > 0,
        e.kind == XmlKind::Remark || e.kind == XmlKind::Processing || e.kind == XmlKind::Verbatim,
    ensures
        ({
            let f = m.stack.last();
            &&& xml_step(m, text, e) matches Ok(n)
            &&& only_last_changed(m, n)
            &&& {
                let g = n.stack.last();
                &&& g.comments == (if e.kind == XmlKind::Remark {
                    f.comments.push(line_ends_normalised(e.content))
                } else {
                    f.comments
                })
                &&& g.pi == (if e.kind == XmlKind::Processing {
                    f.pi.push(e.content)
                } else {
                    f.pi
                })
                &&& g.cdata == (if e.kind == XmlKind::Verbatim {
                    f.cdata.push(e.content)
                } else {
                    f.cdata
                })
                &&& g.tag == f.tag && g.attrs == f.attrs && g.children == f.children && g.text
                    == f.text && g.has_text == f.has_text
            }
        }),
{
    let n = xml_step(m, text, e)->Ok_0;
    assert(n.stack.drop_last() =~= m.stack.drop_last());
}

/// Comments and instructions outside the root are collected in their order, and
/// the declaration is kept.
pub proof fn law_top_lists_are_collected(m: XmlModel, text: Seq<char>, e: XmlPiece)
    requires
        m.stack.len() == 0,
        e.kind == XmlKind::Remark || e.kind == XmlKind::Processing || e.kind
            == XmlKind::Declaration,
    ensures
        ({
            &&& xml_step(m, text, e) matches Ok(n)
            &&& n.stack == m.stack && n.children == m.children && n.notes == m.notes
            &&& n.comments == (if e.kind == XmlKind::Remark {
                m.comments.push(line_ends_normalised(e.content))
            } else {
                m.comments
            })
            &&& n.pi == (if e.kind == XmlKind::Processing {
                m.pi.push(e.content)
            } else {
                m.pi
            })
            &&& if e.kind == XmlKind::Declaration {
                lookup(n.top, "#xml"@) == Some(
                    Tree::Object(declaration_entries(declaration_of(e.content))),
                )
            } else {
                n.top == m.top
            }
        }),
{
    law_insert_lookup(
        m.top,
        "#xml"@,
        Tree::Object(declaration_entries(declaration_of(e.content))),
        "#xml"@,
    );
}

/// An opening tag opens an element that holds nothing yet but its attributes. The
/// one around it has seen an element, and its content is mixed where it has text.
pub proof fn law_opening_tag_opens_its_element(m: XmlModel, text: Seq<char>, e: XmlPiece)
    requires
        e.kind == XmlKind::Opening,
    ensures
        match xml_step(m, text, e) {
            Ok(n) => {
                let g = n.stack.last();
                &&& started(e.content) matches Ok(f)
                &&& n.stack.len() == m.stack.len() + 1
                &&& g.tag == f.tag && g.attrs == f.attrs
                &&& g.children.len() == 0 && g.text.len() == 0 && !g.has_text && g.cdata.len() == 0
                    && g.pi.len() == 0 && g.comments.len() == 0 && !g.saw_element && !g.saw_mixed
                &&& m.stack.len() > 0 ==> {
                    let old = m.stack.last();
                    let around = n.stack[n.stack.len() - 2];
                    &&& around.saw_element
                    &&& around.saw_mixed <==> old.saw_mixed || old.has_text
                    &&& around.tag == old.tag && around.attrs == old.attrs && around.children
                        == old.children && around.text == old.text && around.has_text
                        == old.has_text && around.cdata == old.cdata && around.pi == old.pi
                        && around.comments == old.comments
                }
                &&& n.top == m.top && n.children == m.children && n.pi == m.pi && n.comments
                    == m.comments && n.notes == m.notes
            },
            Err(_) => started(e.content) is Err,
        },
{
}

/// A closing tag closes the element of the same name, which becomes the last
/// child of its tag in the one around it, or at the top. Mixed content is noted.
pub proof fn law_closing_tag_closes_its_element(m: XmlModel, text: Seq<char>, e: XmlPiece)
    requires
        e.kind == XmlKind::Closing,
    ensures
        ({
            let f = m.stack.last();
            match xml_step(m, text, e) {
                Ok(n) => {
                    &&& m.stack.len() > 0 && e.content == f.tag
                    &&& n.stack.len() + 1 == m.stack.len()
                    &&& {
                        let before = if n.stack.len() > 0 {
                            m.stack[m.stack.len() - 2].children
                        } else {
                            m.children
                        };
                        let after = if n.stack.len() > 0 {
                            n.stack.last().children
                        } else {
                            n.children
                        };
                        lookup(after, f.tag) == Some(
                            match lookup(before, f.tag) {
                                Some(list) => list.push(finalised(f)),
                                None => seq![finalised(f)],
                            },
                        )
                    }
                    &&& if f.saw_mixed {
                        n.notes.len() == m.notes.len() + 1 && n.notes.last() is MixedContent
                    } else {
                        n.notes == m.notes
                    }
                },
                Err(f2) => (m.stack.len() == 0 || e.content != f.tag) && f2 is Parse,
            }
        }),
{
    if m.stack.len() > 0 {
        let f = m.stack.last();
        if m.stack.len() > 1 {
            let before = m.stack[m.stack.len() - 2].children;
            law_children_keep_their_order(before, f.tag, finalised(f), f.tag);
            assert(m.stack.drop_last().last() == m.stack[m.stack.len() - 2]);
        } else {
            law_children_keep_their_order(m.children, f.tag, finalised(f), f.tag);
        }
    }
}

/// A named reference stands for one of the five characters that XML names, and a
/// numeric one for the character that was read of it. Any other is refused.
pub proof fn law_references_stand_for_their_characters(
    content: Seq<char>,
    numeric: Result<Option<char>, Seq<char>>,
)
    ensures
        ({
            let read = reference_text(content, numeric);
            if content.len() > 0 && content[0] == '#' {
                match numeric {
                    Ok(Some(c)) => read == Ok::<Seq<char>, Seq<char>>(seq![c]),
                    Ok(None) => read matches Ok(text) && text.len() == 0,
                    Err(_) => read is Err,
                }
            } else if content == seq!['l', 't'] {
                read == Ok::<Seq<char>, Seq<char>>(seq!['<'])
            } else if content == seq!['g', 't'] {
                read == Ok::<Seq<char>, Seq<char>>(seq!['>'])
            } else if content == seq!['a', 'm', 'p'] {
                read == Ok::<Seq<char>, Seq<char>>(seq!['&'])
            } else if content == seq!['a', 'p', 'o', 's'] {
                read == Ok::<Seq<char>, Seq<char>>(seq!['\''])
            } else if content == seq!['q', 'u', 'o', 't'] {
                read == Ok::<Seq<char>, Seq<char>>(seq!['"'])
            } else {
                read is Err
            }
        }),
{
    reveal_strlit("lt");
    reveal_strlit("gt");
    reveal_strlit("amp");
    reveal_strlit("apos");
    reveal_strlit("quot");
    reveal_strlit("<");
    reveal_strlit(">");
    reveal_strlit("&");
    reveal_strlit("'");
    reveal_strlit("\"");
    assert("lt"@ =~= seq!['l', 't']);
    assert("gt"@ =~= seq!['g', 't']);
    assert("amp"@ =~= seq!['a', 'm', 'p']);
    assert("apos"@ =~= seq!['a', 'p', 'o', 's']);
    assert("quot"@ =~= seq!['q', 'u', 'o', 't']);
    assert("<"@ =~= seq!['<']);
    assert(">"@ =~= seq!['>']);
    assert("&"@ =~= seq!['&']);
    assert("'"@ =~= seq!['\'']);
    assert("\""@ =~= seq!['"']);
    assert("lt"@[0] == 'l' && "gt"@[0] == 'g' && "amp"@.len() == 3 && "apos"@[0] == 'a' && "quot"@[0]
        == 'q');
}

/// Line ends are newlines: no carriage return is left, a pair of the two is one
/// newline, and every other character stays.
pub proof fn law_line_ends_are_newlines(s: Seq<char>, c: char)
    ensures
        forall|i: int|
            0 <= i < line_ends_normalised(s).len() ==> #[trigger] line_ends_normalised(s)[i] != '\r',
        line_ends_normalised(seq!['\r', '\n'] + s) == seq!['\n'] + line_ends_normalised(s),
        s.len() == 0 || s[0] != '\n' ==> line_ends_normalised(seq!['\r'] + s) == seq!['\n']
            + line_ends_normalised(s),
        c != '\r' ==> line_ends_normalised(seq![c] + s) == seq![c] + line_ends_normalised(s),
        line_ends_normalised(Seq::empty()).len() == 0,
    decreases s.len(),
{
    let pair = seq!['\r', '\n'] + s;
    assert(pair.subrange(2, pair.len() as int) =~= s);
    let lone = seq!['\r'] + s;
    assert(lone.subrange(1, lone.len() as int) =~= s);
    if s.len() > 0 {
        assert(lone[1] == s[0]);
    }
    let other = seq![c] + s;
    assert(other.subrange(1, other.len() as int) =~= s);
    if s.len() > 0 {
        let shown = line_ends_normalised(s);
        if s[0] == '\r' && s.len() > 1 && s[1] == '\n' {
            law_line_ends_are_newlines(s.subrange(2, s.len() as int), c);
        } else {
            law_line_ends_are_newlines(s.subrange(1, s.len() as int), c);
        }
        assert forall|i: int| 0 <= i < shown.len() implies #[trigger] shown[i] != '\r' by {
            if i > 0 {
                let rest = if s[0] == '\r' && s.len() > 1 && s[1] == '\n' {
                    line_ends_normalised(s.subrange(2, s.len() as int))
                } else {
                    line_ends_normalised(s.subrange(1, s.len() as int))
                };
                assert(shown[i] == rest[i - 1]);
            }
        }
    }
}

/// The character that a reference at the start of a text stands for, and how long
/// the reference is.
pub open spec fn leading_reference(t: Seq<char>) -> Option<(char, int)> {
    if t.len() >= 4 && t.subrange(0, 4) == seq!['&', 'l', 't', ';'] {
        Some(('<', 4))
    } else if t.len() >= 4 && t.subrange(0, 4) == seq!['&', 'g', 't', ';'] {
        Some(('>', 4))
    } else if t.len() >= 5 && t.subrange(0, 5) == seq!['&', 'a', 'm', 'p', ';'] {
        Some(('&', 5))
    } else if t.len() >= 6 && t.subrange(0, 6) == seq!['&', 'a', 'p', 'o', 's', ';'] {
        Some(('\'', 6))
    } else if t.len() >= 6 && t.subrange(0, 6) == seq!['&', 'q', 'u', 'o', 't', ';'] {
        Some(('"', 6))
    } else {
        None
    }
}

/// A text with its references resolved; none where it holds what would end it.
pub open spec fn xml_unescaped(t: Seq<char>) -> Option<Seq<char>>
    decreases t.len(),
{
    if t.len() == 0 {
        Some(Seq::empty())
    } else if t[0] == '<' || t[0] == '>' || t[0] == '"' || t[0] == '\'' {
        None
    } else if t[0] != '&' {
        put_first(t[0], xml_unescaped(t.subrange(1, t.len() as int)))
    } else {
        match leading_reference(t) {
            Some((c, n)) => if 0 < n <= t.len() {
                put_first(c, xml_unescaped(t.subrange(n, t.len() as int)))
            } else {
                None
            },
            None => None,
        }
    }
}

proof fn lemma_escaped_front(s: Seq<char>)
    requires
        s.len() > 0,
    ensures
        xml_escaped(s) == xml_escaped_char(s[0]) + xml_escaped(s.subrange(1, s.len() as int)),
    decreases s.len(),
{
    let rest = s.subrange(1, s.len() as int);
    if s.len() == 1 {
        assert(s.drop_last() =~= Seq::<char>::empty());
        assert(rest =~= Seq::<char>::empty());
        assert(xml_escaped(s) =~= xml_escaped_char(s[0]) + xml_escaped(rest));
    } else {
        lemma_escaped_front(s.drop_last());
        assert(s.drop_last().subrange(1, s.len() - 1) =~= rest.drop_last());
        assert(xml_escaped(s) =~= xml_escaped_char(s[0]) + xml_escaped(rest));
    }
}

proof fn lemma_one_unescaped(c: char, rest: Seq<char>)
    ensures
        xml_unescaped(xml_escaped_char(c) + rest) == put_first(c, xml_unescaped(rest)),
{
    reveal_strlit("&lt;");
    reveal_strlit("&gt;");
    reveal_strlit("&amp;");
    reveal_strlit("&apos;");
    reveal_strlit("&quot;");
    let t = xml_escaped_char(c) + rest;
    let k = xml_escaped_char(c).len() as int;
    assert(t.subrange(k, t.len() as int) =~= rest);
    assert(t.subrange(0, k) =~= xml_escaped_char(c));
    if c == '<' {
        assert(t.subrange(0, 4) =~= seq!['&', 'l', 't', ';']);
    } else if c == '>' {
        assert(t.subrange(0, 4) =~= seq!['&', 'g', 't', ';']);
        assert(t.subrange(0, 4)[1] == 'g');
    } else if c == '&' {
        assert(t.subrange(0, 5) =~= seq!['&', 'a', 'm', 'p', ';']);
        assert(t.subrange(0, 4)[1] == 'a');
    } else if c == '\'' {
        assert(t.subrange(0, 6) =~= seq!['&', 'a', 'p', 'o', 's', ';']);
        assert(t.subrange(0, 4)[1] == 'a');
        assert(t.subrange(0, 5)[2] == 'p');
    } else if c == '"' {
        assert(t.subrange(0, 6) =~= seq!['&', 'q', 'u', 'o', 't', ';']);
        assert(t.subrange(0, 4)[1] == 'q');
        assert(t.subrange(0, 5)[1] == 'q');
        assert(t.subrange(0, 6)[1] == 'q');
    } else {
        assert(t[0] == c);
    }
}

/// A text that was written in XML reads as the text: nothing in it is taken for a
/// tag or ends an attribute, and its references stand for its characters.
pub proof fn law_escaped_text_reads_back(s: Seq<char>)
    ensures
        xml_unescaped(xml_escaped(s)) == Some(s),
    decreases s.len(),
{
    if s.len() > 0 {
        let rest = s.subrange(1, s.len() as int);
        lemma_escaped_front(s);
        law_escaped_text_reads_back(rest);
        lemma_one_unescaped(s[0], xml_escaped(rest));
        assert(seq![s[0]] + rest =~= s);
    }
}

/// A document type is passed over, and noted.
pub proof fn law_document_type_is_noted(m: XmlModel, text: Seq<char>, e: XmlPiece)
    requires
        e.kind is Doctype,
    ensures
        xml_step(m, text, e) matches Ok(n) && n.notes == m.notes.push(NoteModel::Doctype) && n.top
            == m.top && n.children == m.children && n.pi == m.pi && n.comments == m.comments
            && n.stack == m.stack,
{
}

/// Every event is taken, one after the other, from nothing on; the first that is
/// refused ends the reading.
pub proof fn law_every_event_is_taken(text: Seq<char>, events: Seq<XmlPiece>, k: int)
    requires
        0 <= k < events.len(),
    ensures
        xml_run(text, events, 0) matches Ok(m) && m.top.len() == 0 && m.children.len() == 0
            && m.pi.len() == 0 && m.comments.len() == 0 && m.stack.len() == 0 && m.notes.len() == 0,
        xml_run(text, events, k + 1) == (match xml_run(text, events, k) {
            Ok(m) => xml_step(m, text, events[k]),
            Err(f) => Err(f),
        }),
{
}

/// The path of an element names the elements around it, the outermost first, and
/// itself last, each behind a slash.
pub proof fn law_element_path_names_its_elements(
    stack: Seq<FrameModel>,
    around: FrameModel,
    tag: Seq<char>,
)
    ensures
        element_path_of(Seq::empty(), tag) == seq!['/'] + tag,
        element_path_of(stack.push(around), tag) == element_path_of(stack, around.tag) + seq!['/']
            + tag,
{
    reveal_strlit("/");
    assert("/"@ =~= seq!['/']);
    let more = stack.push(around);
    lemma_same_stack(stack, more, stack.len() as int);
    assert(element_path_of(Seq::<FrameModel>::empty(), tag) =~= seq!['/'] + tag);
}

proof fn lemma_same_stack(a: Seq<FrameModel>, b: Seq<FrameModel>, k: int)
    requires
        0 <= k <= a.len() <= b.len(),
        forall|i: int| 0 <= i < k ==> a[i] == #[trigger] b[i],
    ensures
        stack_path(a, k) == stack_path(b, k),
    decreases k,
{
    if k > 0 {
        assert(a[k - 1] == b[k - 1]);
        lemma_same_stack(a, b, k - 1);
    }
}

/// A fault of an XML text says what is wrong, and at which line, column and byte.
pub proof fn law_xml_fault_is_placed(text: Seq<char>, pos: int, message: Seq<char>)
    ensures
        placed_fault(text, pos, message) matches Fault::Parse {
            line,
            col,
            start,
            end,
            message: said,
            snippet,
            ..
        } && said == message && start == pos && end == pos && (line, col) == char_line_col(
            encode_utf8(text),
            pos,
        ) && snippet == snippet_at(encode_utf8(text), pos),
{
}

} // verus!
