//! What is written of an XML document: every attribute, text and child of every
//! element.

use crate::display_laws::is_in;
use crate::error::Fault;
use crate::parsers::xml_write::{
    attr_pairs, attrs_text, conventional, element_attrs, has_content, is_pretty, listed,
    root_bytes, root_index, stray_index, xml_children, xml_element, xml_escaped, xml_items,
    xml_rendered, ListKind,
};
use crate::table_laws::says_scalar;
use crate::value::{lookup, scalar_text_of, Tree};
use crate::value_laws::law_scalar_text_tells_the_scalar;
use vstd::prelude::*;
use vstd::utf8::encode_utf8;

verus! {

/// The attributes of an element are its entries, in order, each with the text of
/// its scalar. That fails exactly where one is no scalar.
pub proof fn law_every_attribute_has_its_text(
    tag: Seq<char>,
    attrs: Seq<(Seq<char>, Tree)>,
    k: int,
)
    requires
        0 <= k <= attrs.len(),
    ensures
        attr_pairs(tag, attrs, k) is Ok <==> forall|i: int|
            0 <= i < k ==> !((#[trigger] attrs[i]).1 is Array) && !(attrs[i].1 is Object),
        attr_pairs(tag, attrs, k) matches Ok(pairs) ==> {
            &&& pairs.len() == k
            &&& forall|i: int|
                0 <= i < k ==> (#[trigger] pairs[i]).0 == attrs[i].0 && says_scalar(
                    pairs[i].1,
                    attrs[i].1,
                )
        },
    decreases k,
{
    if k > 0 {
        law_every_attribute_has_its_text(tag, attrs, k - 1);
        law_scalar_text_tells_the_scalar(attrs[k - 1].1);
        if let Ok(pairs) = attr_pairs(tag, attrs, k) {
            let before = attr_pairs(tag, attrs, k - 1)->Ok_0;
            assert forall|i: int| 0 <= i < k implies (#[trigger] pairs[i]).0 == attrs[i].0
                && says_scalar(pairs[i].1, attrs[i].1) by {
                if i < k - 1 {
                    assert(pairs[i] == before[i]);
                }
            }
        }
    }
}

/// An attribute as a tag shows it: its name, and its text in double quotes.
pub open spec fn attribute_text(name: Seq<char>, text: Seq<char>) -> Seq<char> {
    seq![' '] + name + seq!['=', '"'] + xml_escaped(text) + seq!['"']
}

/// Every attribute is shown in the tag.
pub proof fn law_every_attribute_is_shown(attrs: Seq<(Seq<char>, Seq<char>)>, k: int, i: int)
    requires
        0 <= i < k <= attrs.len(),
    ensures
        is_in(attribute_text(attrs[i].0, attrs[i].1), attrs_text(attrs, k)),
        attrs_text(attrs, k).len() == attrs_text(attrs, k - 1).len() + attribute_text(
            attrs[k - 1].0,
            attrs[k - 1].1,
        ).len(),
    decreases k,
{
    reveal_strlit(" ");
    reveal_strlit("=\"");
    reveal_strlit("\"");
    assert(" "@ =~= seq![' '] && "=\""@ =~= seq!['=', '"'] && "\""@ =~= seq!['"']);
    let before = attrs_text(attrs, k - 1);
    let one = attribute_text(attrs[k - 1].0, attrs[k - 1].1);
    let all = attrs_text(attrs, k);
    assert(all =~= before + one);
    if i == k - 1 {
        let at = before.len() as int;
        assert(all.subrange(at, at + one.len()) =~= one);
    } else {
        law_every_attribute_is_shown(attrs, k - 1, i);
        let part = attribute_text(attrs[i].0, attrs[i].1);
        let at = choose|at: int|
            0 <= at && at + part.len() <= before.len() && part == #[trigger] before.subrange(
                at,
                at + part.len(),
            );
        assert(all.subrange(at, at + part.len()) =~= part);
    }
}

/// Whether bytes are an element that holds a text and nothing else.
pub open spec fn is_text_element(bytes: Seq<u8>, name: Seq<char>, text: Seq<char>) -> bool {
    bytes == encode_utf8(seq!['<'] + name + seq!['>']) + encode_utf8(xml_escaped(text))
        + encode_utf8(seq!['<', '/'] + name + seq!['>'])
}

/// Whether bytes are an element that closes itself.
pub open spec fn is_lone_element(
    bytes: Seq<u8>,
    name: Seq<char>,
    attrs: Seq<(Seq<char>, Seq<char>)>,
) -> bool {
    bytes == encode_utf8(seq!['<'] + name + attrs_text(attrs, attrs.len() as int) + seq!['/', '>'])
}

/// Whether bytes are what is written of one item under a name.
pub open spec fn is_item(bytes: Seq<u8>, name: Seq<char>, t: Tree, pad: Seq<char>) -> bool {
    match t {
        Tree::Object(body) => xml_element(name, body, pad) == Ok::<Seq<u8>, Fault>(bytes),
        Tree::Array(_) => false,
        Tree::Null => is_lone_element(bytes, name, Seq::empty()),
        _ => exists|text: Seq<char>|
            #[trigger] is_text_element(bytes, name, text) && says_scalar(text, t),
    }
}

/// The bytes that start a line in the pretty layout.
pub open spec fn line_break(pad: Seq<char>, pretty: bool) -> Seq<u8> {
    if pretty {
        encode_utf8(seq!['\n'] + pad)
    } else {
        Seq::empty()
    }
}

/// Whether bytes go on with an item.
pub open spec fn goes_on_with(
    after: Seq<u8>,
    before: Seq<u8>,
    gap: Seq<u8>,
    one: Seq<u8>,
    name: Seq<char>,
    t: Tree,
    pad: Seq<char>,
) -> bool {
    after == before + gap + one && is_item(one, name, t, pad)
}

/// Items of one name are written one behind the other: an object as an element, a
/// scalar as an element with its text, null as one that closes itself, each on its
/// own line in the pretty layout. An array is refused.
pub proof fn law_every_item_is_an_element(
    tag: Seq<char>,
    name: Seq<char>,
    items: Seq<Tree>,
    k: nat,
    pad: Seq<char>,
    pretty: bool,
)
    requires
        k < items.len(),
    ensures
        xml_items(tag, name, items, 0, pad, pretty) == Ok::<Seq<u8>, Fault>(Seq::empty()),
        items[k as int] is Array ==> xml_items(tag, name, items, k + 1, pad, pretty) is Err,
        xml_items(tag, name, items, k + 1, pad, pretty) matches Ok(after) ==> {
            &&& xml_items(tag, name, items, k, pad, pretty) matches Ok(before)
            &&& exists|one: Seq<u8>|
                #[trigger] goes_on_with(
                    after,
                    before,
                    line_break(pad, pretty),
                    one,
                    name,
                    items[k as int],
                    pad,
                )
        },
{
    reveal_strlit("<");
    reveal_strlit(">");
    reveal_strlit("</");
    reveal_strlit("/>");
    reveal_strlit("\n");
    assert("<"@ =~= seq!['<'] && ">"@ =~= seq!['>'] && "</"@ =~= seq!['<', '/'] && "/>"@ =~= seq![
        '/',
        '>',
    ] && "\n"@ =~= seq!['\n']);
    if let Ok(after) = xml_items(tag, name, items, k + 1, pad, pretty) {
        let before = xml_items(tag, name, items, k, pad, pretty)->Ok_0;
        let t = items[k as int];
        let gap = line_break(pad, pretty);
        let none = Seq::<(Seq<char>, Seq<char>)>::empty();
        match t {
            Tree::Object(body) => {
                let one = xml_element(name, body, pad)->Ok_0;
                assert(goes_on_with(after, before, gap, one, name, t, pad));
            },
            Tree::Null => {
                let one = encode_utf8(crate::parsers::xml_write::lone_tag(name, none));
                assert(is_lone_element(one, name, none));
                assert(goes_on_with(after, before, gap, one, name, t, pad));
            },
            Tree::Array(_) => {},
            _ => {
                law_scalar_text_tells_the_scalar(t);
                let text = scalar_text_of(t)->Some_0;
                let one = crate::parsers::xml_write::text_element(name, text);
                assert(attrs_text(none, 0) =~= Seq::<char>::empty());
                assert(crate::parsers::xml_write::opening_tag(name, none) =~= seq!['<'] + name
                    + seq!['>']);
                assert(is_text_element(one, name, text));
                assert(says_scalar(text, t));
                assert(goes_on_with(after, before, gap, one, name, t, pad));
            },
        }
    }
}

/// Every entry of an element that is no fixed one is written as its children, in
/// order; it must be an array.
pub proof fn law_every_child_is_written(
    tag: Seq<char>,
    body: Seq<(Seq<char>, Tree)>,
    k: nat,
    pad: Seq<char>,
    pretty: bool,
)
    requires
        k < body.len(),
    ensures
        xml_children(tag, body, 0, pad, pretty) == Ok::<Seq<u8>, Fault>(Seq::empty()),
        ({
            let before = xml_children(tag, body, k, pad, pretty);
            let after = xml_children(tag, body, k + 1, pad, pretty);
            let (name, t) = body[k as int];
            &&& conventional(name) ==> after == before
            &&& !conventional(name) && !(t is Array) ==> after is Err
            &&& !conventional(name) && after is Ok ==> {
                &&& before is Ok
                &&& t matches Tree::Array(items)
                &&& xml_items(tag, name, items, items.len(), pad, pretty) matches Ok(bytes)
                &&& after->Ok_0 == before->Ok_0 + bytes
            }
        }),
{
}

/// An item of a list of comments, instructions or CDATA sections stands between
/// the marks of its kind, and only what is no text is left out.
pub proof fn law_every_listed_text_is_written(
    kind: ListKind,
    items: Seq<Tree>,
    k: int,
    pad: Seq<char>,
    pretty: bool,
)
    requires
        0 <= k < items.len(),
    ensures
        listed(kind, items, 0, pad, pretty).len() == 0,
        ({
            let before = listed(kind, items, k, pad, pretty);
            let after = listed(kind, items, k + 1, pad, pretty);
            match items[k] {
                Tree::String(s) => {
                    let (open, inner, close) = match kind {
                        ListKind::Comments => (
                            seq!['<', '!', '-', '-'],
                            if exists|i: int|
                                0 <= i && i + 2 < s.len() && #[trigger] s[i] == '-' && s[i + 1]
                                    == '-' && s[i + 2] == '>' {
                                xml_escaped(s)
                            } else {
                                s
                            },
                            seq!['-', '-', '>'],
                        ),
                        ListKind::Instructions => (seq!['<', '?'], s, seq!['?', '>']),
                        ListKind::Cdata => (
                            seq!['<', '!', '[', 'C', 'D', 'A', 'T', 'A', '['],
                            s,
                            seq![']', ']', '>'],
                        ),
                    };
                    after == before + (line_break(pad, pretty) + encode_utf8(open + inner + close))
                },
                _ => after == before,
            }
        }),
{
    reveal_strlit("\n");
    reveal_strlit("<!--");
    reveal_strlit("-->");
    reveal_strlit("<?");
    reveal_strlit("?>");
    reveal_strlit("<![CDATA[");
    reveal_strlit("]]>");
    assert("\n"@ =~= seq!['\n'] && "<!--"@ =~= seq!['<', '!', '-', '-'] && "-->"@ =~= seq![
        '-',
        '-',
        '>',
    ] && "<?"@ =~= seq!['<', '?'] && "?>"@ =~= seq!['?', '>']);
    assert("<![CDATA["@ =~= seq!['<', '!', '[', 'C', 'D', 'A', 'T', 'A', '['] && "]]>"@ =~= seq![
        ']',
        ']',
        '>',
    ]);
    if let Tree::String(s) = items[k] {
        let ends = exists|i: int|
            0 <= i && i + 2 < s.len() && #[trigger] s[i] == '-' && s[i + 1] == '-' && s[i + 2]
                == '>';
        assert(ends == crate::parsers::xml_write::holds_comment_end(s)) by {
            if ends {
                let i = choose|i: int|
                    0 <= i && i + 2 < s.len() && #[trigger] s[i] == '-' && s[i + 1] == '-' && s[i
                        + 2] == '>';
                assert(crate::parsers::xml_write::comment_ends_at(s, i));
            }
            if crate::parsers::xml_write::holds_comment_end(s) {
                let i = choose|i: int| #[trigger] crate::parsers::xml_write::comment_ends_at(s, i);
                assert(s[i] == '-');
            }
        }
        let after = listed(kind, items, k + 1, pad, pretty);
        let before = listed(kind, items, k, pad, pretty);
        assert(after == before + (line_break(pad, pretty) + encode_utf8(
            crate::parsers::xml_write::listed_text(kind, s),
        )));
    }
}

/// Whether bytes are an element with tags around its content.
pub open spec fn is_tagged(
    bytes: Seq<u8>,
    tag: Seq<char>,
    attrs: Seq<(Seq<char>, Seq<char>)>,
    content: Seq<u8>,
) -> bool {
    bytes == encode_utf8(seq!['<'] + tag + attrs_text(attrs, attrs.len() as int) + seq!['>'])
        + content + encode_utf8(seq!['<', '/'] + tag + seq!['>'])
}

/// Whether the content of an element ends with its children.
pub open spec fn holds_children(
    content: Seq<u8>,
    tag: Seq<char>,
    body: Seq<(Seq<char>, Tree)>,
    pad: Seq<char>,
) -> bool {
    let inner = pad + seq![' ', ' '];
    let head = crate::parsers::xml_write::element_head(body, inner, is_pretty(body));
    &&& xml_children(tag, body, body.len(), inner, is_pretty(body)) matches Ok(children)
    &&& content == head + children + line_break(pad, is_pretty(body))
}

/// An element has its attributes in its opening tag, and what it holds between it
/// and its closing tag; one that holds nothing closes itself.
pub proof fn law_element_is_written(tag: Seq<char>, body: Seq<(Seq<char>, Tree)>, pad: Seq<char>)
    requires
        xml_element(tag, body, pad) is Ok,
    ensures
        ({
            let bytes = xml_element(tag, body, pad)->Ok_0;
            &&& element_attrs(tag, body) matches Ok(attrs)
            &&& !has_content(body) ==> is_lone_element(bytes, tag, attrs)
            &&& has_content(body) ==> exists|content: Seq<u8>|
                #[trigger] is_tagged(bytes, tag, attrs, content) && holds_children(
                    content,
                    tag,
                    body,
                    pad,
                )
        }),
{
    reveal_strlit("<");
    reveal_strlit(">");
    reveal_strlit("</");
    reveal_strlit("/>");
    reveal_strlit("\n");
    reveal_strlit("  ");
    assert("<"@ =~= seq!['<'] && ">"@ =~= seq!['>'] && "</"@ =~= seq!['<', '/'] && "/>"@ =~= seq![
        '/',
        '>',
    ] && "\n"@ =~= seq!['\n'] && "  "@ =~= seq![' ', ' ']);
    if has_content(body) {
        let bytes = xml_element(tag, body, pad)->Ok_0;
        let attrs = element_attrs(tag, body)->Ok_0;
        let inner = pad + seq![' ', ' '];
        let head = crate::parsers::xml_write::element_head(body, inner, is_pretty(body));
        let children = xml_children(tag, body, body.len(), inner, is_pretty(body))->Ok_0;
        let content = head + children + line_break(pad, is_pretty(body));
        let open = encode_utf8(crate::parsers::xml_write::opening_tag(tag, attrs));
        let close = encode_utf8(crate::parsers::xml_write::closing_tag(tag));
        assert(bytes == open + head + children + line_break(pad, is_pretty(body)) + close);
        assert(bytes =~= open + content + close);
        assert(is_tagged(bytes, tag, attrs, content));
        assert(holds_children(content, tag, body, pad));
    }
}

/// The texts of a list, as far as it is one.
pub open spec fn texts_under(t: Option<Tree>) -> Seq<Tree> {
    match t {
        Some(Tree::Array(items)) => items,
        _ => Seq::empty(),
    }
}

/// Before its children an element holds its comments, its instructions, its text
/// and its CDATA sections, in this order.
pub proof fn law_element_holds_its_text(body: Seq<(Seq<char>, Tree)>, pad: Seq<char>, pretty: bool)
    ensures
        ({
            let comments = texts_under(lookup(body, "#comments"@));
            let instructions = texts_under(lookup(body, "#pi"@));
            let sections = texts_under(lookup(body, "#cdata"@));
            crate::parsers::xml_write::element_head(body, pad, pretty) == listed(
                ListKind::Comments,
                comments,
                comments.len() as int,
                pad,
                pretty,
            ) + listed(
                ListKind::Instructions,
                instructions,
                instructions.len() as int,
                pad,
                pretty,
            ) + (match lookup(body, "#text"@) {
                Some(Tree::String(s)) => encode_utf8(xml_escaped(s)),
                _ => Seq::empty(),
            }) + listed(ListKind::Cdata, sections, sections.len() as int, pad, false)
        }),
{
}

/// The text of a part of a declaration, where there is one.
pub open spec fn declared(d: Seq<(Seq<char>, Tree)>, key: Seq<char>) -> Option<Seq<char>> {
    match lookup(d, key) {
        Some(Tree::String(s)) => Some(s),
        _ => None,
    }
}

/// A declaration shows its version, one point zero where it says none, and its
/// encoding and whether it stands alone where it says so.
pub proof fn law_declaration_is_written(top: Seq<(Seq<char>, Tree)>, d: Seq<(Seq<char>, Tree)>)
    requires
        lookup(top, "#xml"@) == Some(Tree::Object(d)),
    ensures
        ({
            let version = match declared(d, "version"@) {
                Some(v) => v,
                None => "1.0"@,
            };
            let encoding = match declared(d, "encoding"@) {
                Some(e) => "\" encoding=\""@ + e,
                None => Seq::empty(),
            };
            let standalone = match declared(d, "standalone"@) {
                Some(s) => "\" standalone=\""@ + s,
                None => Seq::empty(),
            };
            crate::parsers::xml_write::declaration_bytes(top) == encode_utf8(
                "<?xml version=\""@ + version + encoding + standalone + "\"?>"@,
            )
        }),
{
}

/// An element holds something exactly where it has a text that is not null, or a
/// list or a child array that is not empty.
pub proof fn law_element_holds_something(body: Seq<(Seq<char>, Tree)>)
    ensures
        has_content(body) <==> {
            ||| lookup(body, "#text"@) matches Some(t) && t != Tree::Null
            ||| lookup(body, "#cdata"@) matches Some(Tree::Array(items)) && items.len() > 0
            ||| lookup(body, "#pi"@) matches Some(Tree::Array(items)) && items.len() > 0
            ||| lookup(body, "#comments"@) matches Some(Tree::Array(items)) && items.len() > 0
            ||| exists|i: int|
                0 <= i < body.len() && !conventional((#[trigger] body[i]).0) && (
                body[i].1 matches Tree::Array(items) && items.len() > 0)
        },
{
}

/// Whether an entry of the top object is its root: the first one whose key is no
/// fixed one.
pub open spec fn is_root(top: Seq<(Seq<char>, Tree)>, at: int) -> bool {
    &&& 0 <= at < top.len() && !conventional(top[at].0)
    &&& forall|i: int| 0 <= i < at ==> conventional((#[trigger] top[i]).0)
}

proof fn lemma_root(top: Seq<(Seq<char>, Tree)>, k: int)
    requires
        0 <= k <= top.len(),
    ensures
        k <= root_index(top, k) <= top.len(),
        forall|i: int| k <= i < root_index(top, k) ==> conventional((#[trigger] top[i]).0),
        root_index(top, k) < top.len() ==> !conventional(top[root_index(top, k)].0),
    decreases top.len() - k,
{
    if k < top.len() && conventional(top[k].0) {
        lemma_root(top, k + 1);
    }
}

proof fn lemma_no_stray(top: Seq<(Seq<char>, Tree)>, root: int, k: int)
    requires
        0 <= k <= top.len(),
        stray_index(top, root, k) >= top.len(),
    ensures
        forall|i: int|
            k <= i < top.len() && i != root ==> crate::parsers::xml_write::is_top_key(
                (#[trigger] top[i]).0,
            ),
    decreases top.len() - k,
{
    if k < top.len() {
        lemma_no_stray(top, root, k + 1);
    }
}

/// Whether bytes end with other bytes.
pub open spec fn ends_with(bytes: Seq<u8>, end: Seq<u8>) -> bool {
    bytes.len() >= end.len() && bytes.subrange(bytes.len() - end.len(), bytes.len() as int) == end
}

/// A document is written exactly with the one root that it has: an array of one
/// object under the only key that is neither the declaration nor a list above the
/// root. What is written of the root ends the document.
pub proof fn law_document_ends_with_its_root(t: Tree)
    ensures
        xml_rendered(t) matches Ok(bytes) ==> {
            &&& t matches Tree::Object(top)
            &&& exists|at: int|
                {
                    &&& #[trigger] is_root(top, at)
                    &&& forall|i: int|
                        0 <= i < top.len() && i != at ==> (#[trigger] top[i]).0 == "#xml"@
                            || top[i].0 == "#pi"@ || top[i].0 == "#comments"@
                    &&& lookup(top, top[at].0) matches Some(Tree::Array(items))
                    &&& items.len() == 1 && items[0] is Object
                    &&& xml_element(top[at].0, items[0]->Object_0, Seq::empty()) matches Ok(root)
                    &&& ends_with(bytes, root)
                }
        },
{
    if let Tree::Object(top) = t {
        if let Ok(bytes) = xml_rendered(t) {
            let at = root_index(top, 0);
            lemma_root(top, 0);
            lemma_no_stray(top, at, 0);
            assert(is_root(top, at));
            let root = root_bytes(top[at].0, lookup(top, top[at].0))->Ok_0;
            assert(bytes.subrange(bytes.len() - root.len(), bytes.len() as int) =~= root);
            assert(ends_with(bytes, root));
        }
    }
}

} // verus!
