//! XML documents that read back as they were written.

use crate::error::Fault;
use crate::parsers::json_spelling::lemma_encode_two;
use crate::parsers::xml_events::predefined_entity;
use crate::parsers::xml_marks::{
    attrs_plain, holds_char, is_instruction, is_plain, is_verbatim, is_xml_name, mark_text,
    marks_text, open_tags, Mark,
};
use crate::parsers::xml_read::{finalised, FrameModel};
use crate::parsers::xml_write::{
    attr_pairs, closing_tag, conventional, element_attrs, element_head, has_content,
    holds_comment_end, indent_break, is_pretty, list_bytes, listed, listed_text, opening_tag, text_bytes, xml_children, xml_element,
    xml_escaped, xml_escaped_char, xml_items, ListKind,
};
use crate::text::is_white;
use crate::value::{lookup, unique_keys, Tree};
use vstd::prelude::*;
use vstd::utf8::encode_utf8;

verus! {

// ---------------------------------------------------------------------------
// Elements that read back
// ---------------------------------------------------------------------------

/// The texts of a list.
pub open spec fn list_texts(list: Option<Tree>) -> Seq<Seq<char>> {
    match list {
        Some(Tree::Array(items)) => Seq::new(items.len(), |i: int| items[i]->String_0),
        _ => Seq::empty(),
    }
}

/// The attributes of an element.
pub open spec fn attr_list(body: Seq<(Seq<char>, Tree)>) -> Seq<(Seq<char>, Seq<char>)> {
    match lookup(body, "@attrs"@) {
        Some(Tree::Object(a)) => Seq::new(a.len(), |i: int| (a[i].0, a[i].1->String_0)),
        _ => Seq::empty(),
    }
}

/// The children among the first `k` entries of an element, by their tags.
pub open spec fn child_groups(body: Seq<(Seq<char>, Tree)>, k: int) -> Seq<(Seq<char>, Seq<Tree>)>
    decreases k,
{
    if k <= 0 {
        Seq::empty()
    } else if conventional(body[k - 1].0) {
        child_groups(body, k - 1)
    } else {
        child_groups(body, k - 1).push((body[k - 1].0, body[k - 1].1->Array_0))
    }
}

/// What an element holds, as the reader collects it.
pub open spec fn frame_of(tag: Seq<char>, body: Seq<(Seq<char>, Tree)>) -> FrameModel {
    FrameModel {
        tag,
        attrs: match lookup(body, "@attrs"@) {
            Some(Tree::Object(a)) => a,
            _ => Seq::empty(),
        },
        children: child_groups(body, body.len() as int),
        text: match lookup(body, "#text"@) {
            Some(Tree::String(s)) => s,
            _ => Seq::empty(),
        },
        has_text: lookup(body, "#text"@) is Some,
        cdata: list_texts(lookup(body, "#cdata"@)),
        pi: list_texts(lookup(body, "#pi"@)),
        comments: list_texts(lookup(body, "#comments"@)),
        saw_element: false,
        saw_mixed: false,
    }
}

/// Whether the attributes of an element are strings that stay as they are.
pub open spec fn clean_attrs(body: Seq<(Seq<char>, Tree)>) -> bool {
    match lookup(body, "@attrs"@) {
        None => true,
        Some(Tree::Object(a)) => attrs_plain(attr_list(body)) && forall|i: int|
            0 <= i < a.len() ==> (#[trigger] a[i]).1 is String,
        Some(_) => false,
    }
}

/// Whether a text holds more than white space.
pub open spec fn has_ink(s: Seq<char>) -> bool {
    exists|i: int| 0 <= i < s.len() && !is_white(#[trigger] s[i])
}

/// Whether the text of an element stays as it is: it holds more than white
/// space, and no carriage return.
pub open spec fn clean_text(body: Seq<(Seq<char>, Tree)>) -> bool {
    match lookup(body, "#text"@) {
        None => true,
        Some(Tree::String(s)) => has_ink(s) && !holds_char(s, '\r'),
        Some(_) => false,
    }
}

/// Whether an item of a list stays as it is. A comment holds nothing that would
/// end it, and no carriage return.
pub open spec fn clean_item(kind: ListKind, s: Seq<char>) -> bool {
    match kind {
        ListKind::Comments => !holds_comment_end(s) && !holds_char(s, '\r'),
        ListKind::Instructions => is_instruction(s),
        ListKind::Cdata => is_verbatim(s),
    }
}

/// Whether a list holds strings that stay as they are, at least one.
pub open spec fn clean_list(kind: ListKind, list: Option<Tree>) -> bool {
    match list {
        None => true,
        Some(Tree::Array(items)) => items.len() > 0 && forall|i: int|
            0 <= i < items.len() ==> (#[trigger] items[i]) is String && clean_item(
                kind,
                items[i]->String_0,
            ),
        Some(_) => false,
    }
}

/// Whether what an element holds besides its children stays as it is.
pub open spec fn clean_head(body: Seq<(Seq<char>, Tree)>) -> bool {
    &&& clean_attrs(body)
    &&& clean_text(body)
    &&& clean_list(ListKind::Comments, lookup(body, "#comments"@))
    &&& clean_list(ListKind::Instructions, lookup(body, "#pi"@))
    &&& clean_list(ListKind::Cdata, lookup(body, "#cdata"@))
}

/// Whether an element reads back as it was written: its entries stand in the
/// order in which the reader collects them, what it holds stays as it is, and
/// so do its children.
pub open spec fn is_clean(t: Tree) -> bool
    decreases t,
{
    match t {
        Tree::Object(body) => {
            &&& unique_keys(body)
            &&& clean_head(body)
            &&& finalised(frame_of(Seq::empty(), body)) == t
            &&& forall|i: int|
                0 <= i < body.len() && !conventional((#[trigger] body[i]).0) ==> is_xml_name(
                    body[i].0,
                ) && body[i].1 is Array && body[i].1->Array_0.len() > 0 && forall|j: int|
                    0 <= j < body[i].1->Array_0.len() ==> is_clean(
                        #[trigger] body[i].1->Array_0[j],
                    )
        },
        _ => false,
    }
}

/// Whether the entry of an element that is no conventional one is a list of
/// elements that read back.
pub open spec fn clean_group(entry: (Seq<char>, Tree)) -> bool {
    &&& is_xml_name(entry.0)
    &&& entry.1 is Array
    &&& entry.1->Array_0.len() > 0
    &&& forall|j: int|
        0 <= j < entry.1->Array_0.len() ==> is_clean(#[trigger] entry.1->Array_0[j])
}

/// An entry of a clean element that is no conventional key is a clean group.
pub proof fn lemma_clean_group(body: Seq<(Seq<char>, Tree)>, i: int)
    requires
        is_clean(Tree::Object(body)),
        0 <= i < body.len(),
        !conventional(body[i].0),
    ensures
        clean_group(body[i]),
{
    let t = Tree::Object(body);
    assert(t->Object_0 == body);
    assert(!conventional(body[i].0));
    assert(is_xml_name(body[i].0));
}

// ---------------------------------------------------------------------------
// The pieces of an element
// ---------------------------------------------------------------------------

/// The name of the entity that stands for a character that is escaped.
pub open spec fn entity_name(c: char) -> Option<Seq<char>> {
    if c == '<' {
        Some("lt"@)
    } else if c == '>' {
        Some("gt"@)
    } else if c == '&' {
        Some("amp"@)
    } else if c == '\'' {
        Some("apos"@)
    } else if c == '"' {
        Some("quot"@)
    } else {
        None
    }
}

/// The pieces with one more character of text behind them.
pub open spec fn with_char(marks: Seq<Mark>, c: char) -> Seq<Mark> {
    match entity_name(c) {
        Some(name) => marks.push(Mark::Reference(name)),
        None => if marks.len() > 0 && marks.last() is Words {
            marks.drop_last().push(Mark::Words(marks.last()->Words_0.push(c)))
        } else {
            marks.push(Mark::Words(seq![c]))
        },
    }
}

/// The pieces of a text.
pub open spec fn text_marks(s: Seq<char>) -> Seq<Mark>
    decreases s.len(),
{
    if s.len() == 0 {
        Seq::empty()
    } else {
        with_char(text_marks(s.drop_last()), s.last())
    }
}

/// A new line at indentation `pad`, in the pretty layout only.
pub open spec fn break_marks(pad: Seq<char>, pretty: bool) -> Seq<Mark> {
    if pretty {
        seq![Mark::Words("\n"@ + pad)]
    } else {
        Seq::empty()
    }
}

/// One item of a list.
pub open spec fn item_mark(kind: ListKind, s: Seq<char>) -> Mark {
    match kind {
        ListKind::Comments => Mark::Remark(s),
        ListKind::Instructions => Mark::Processing(s),
        ListKind::Cdata => Mark::Verbatim(s),
    }
}

/// The first `k` items of a list.
pub open spec fn list_marks(
    kind: ListKind,
    items: Seq<Seq<char>>,
    k: int,
    pad: Seq<char>,
    pretty: bool,
) -> Seq<Mark>
    decreases k,
{
    if k <= 0 {
        Seq::empty()
    } else {
        list_marks(kind, items, k - 1, pad, pretty) + break_marks(pad, pretty) + seq![
            item_mark(kind, items[k - 1]),
        ]
    }
}

/// A whole list.
pub open spec fn whole_list(
    kind: ListKind,
    list: Option<Tree>,
    pad: Seq<char>,
    pretty: bool,
) -> Seq<Mark> {
    let items = list_texts(list);
    list_marks(kind, items, items.len() as int, pad, pretty)
}

/// The text of an element.
pub open spec fn body_text_marks(body: Seq<(Seq<char>, Tree)>) -> Seq<Mark> {
    match lookup(body, "#text"@) {
        Some(Tree::String(s)) => text_marks(s),
        _ => Seq::empty(),
    }
}

/// What stands in an element before its children.
pub open spec fn head_marks(
    body: Seq<(Seq<char>, Tree)>,
    pad: Seq<char>,
    pretty: bool,
) -> Seq<Mark> {
    whole_list(ListKind::Comments, lookup(body, "#comments"@), pad, pretty) + whole_list(
        ListKind::Instructions,
        lookup(body, "#pi"@),
        pad,
        pretty,
    ) + body_text_marks(body) + whole_list(ListKind::Cdata, lookup(body, "#cdata"@), pad, false)
}

/// The pieces of an element.
pub open spec fn element_marks(
    tag: Seq<char>,
    body: Seq<(Seq<char>, Tree)>,
    pad: Seq<char>,
) -> Seq<Mark>
    decreases body, body.len() + 1,
{
    let attrs = attr_list(body);
    if !has_content(body) {
        seq![Mark::Lone(tag, attrs)]
    } else {
        let inner = pad + "  "@;
        let pretty = is_pretty(body);
        seq![Mark::Opening(tag, attrs)] + head_marks(body, inner, pretty) + children_marks(
            body,
            body.len(),
            inner,
            pretty,
        ) + break_marks(pad, pretty) + seq![Mark::Closing(tag)]
    }
}

/// The pieces of the children among the first `k` entries.
pub open spec fn children_marks(
    body: Seq<(Seq<char>, Tree)>,
    k: nat,
    pad: Seq<char>,
    pretty: bool,
) -> Seq<Mark>
    decreases body, k,
{
    if k == 0 || k > body.len() {
        Seq::empty()
    } else {
        let before = children_marks(body, (k - 1) as nat, pad, pretty);
        if conventional(body[k - 1].0) {
            before
        } else {
            match body[k - 1].1 {
                Tree::Array(items) => before + items_marks(
                    body[k - 1].0,
                    items,
                    items.len(),
                    pad,
                    pretty,
                ),
                _ => before,
            }
        }
    }
}

/// The pieces of the first `k` elements with one tag.
pub open spec fn items_marks(
    name: Seq<char>,
    items: Seq<Tree>,
    k: nat,
    pad: Seq<char>,
    pretty: bool,
) -> Seq<Mark>
    decreases items, k,
{
    if k == 0 || k > items.len() {
        Seq::empty()
    } else {
        let before = items_marks(name, items, (k - 1) as nat, pad, pretty);
        match items[k - 1] {
            Tree::Object(body) => before + break_marks(pad, pretty) + element_marks(
                name,
                body,
                pad,
            ),
            _ => before,
        }
    }
}

// ---------------------------------------------------------------------------
// Pieces in a row
// ---------------------------------------------------------------------------

/// The bytes of pieces.
pub open spec fn marks_bytes(marks: Seq<Mark>) -> Seq<u8> {
    encode_utf8(marks_text(marks, marks.len() as int))
}

/// Whether pieces are told apart, and no text stands right behind text.
pub open spec fn are_sound(marks: Seq<Mark>) -> bool {
    &&& forall|i: int| 0 <= i < marks.len() ==> is_plain(#[trigger] marks[i])
    &&& forall|i: int|
        0 < i < marks.len() ==> !((#[trigger] marks[i]) is Words && marks[i - 1] is Words)
}

/// Whether pieces do not start with text.
pub open spec fn starts_marked(marks: Seq<Mark>) -> bool {
    marks.len() > 0 ==> !(marks[0] is Words)
}

/// Whether pieces do not end with text.
pub open spec fn ends_marked(marks: Seq<Mark>) -> bool {
    marks.len() > 0 ==> !(marks.last() is Words)
}

/// Whether pieces close what they open, and nothing else.
pub open spec fn keeps_open(marks: Seq<Mark>) -> bool {
    forall|open: Seq<Seq<char>>| #[trigger]
        open_tags(open, marks, marks.len() as int) == Some(open)
}

proof fn lemma_text_prefix(a: Seq<Mark>, b: Seq<Mark>, k: int)
    requires
        0 <= k <= a.len(),
        k <= b.len(),
        forall|i: int| 0 <= i < k ==> a[i] == b[i],
    ensures
        marks_text(a, k) == marks_text(b, k),
    decreases k,
{
    if k > 0 {
        lemma_text_prefix(a, b, k - 1);
    }
}

proof fn lemma_text_add(a: Seq<Mark>, b: Seq<Mark>, k: int)
    requires
        0 <= k <= b.len(),
    ensures
        marks_text(a + b, a.len() + k) == marks_text(a, a.len() as int) + marks_text(b, k),
    decreases k,
{
    if k == 0 {
        lemma_text_prefix(a + b, a, a.len() as int);
        assert(marks_text(a, a.len() as int) + Seq::<char>::empty() =~= marks_text(
            a,
            a.len() as int,
        ));
    } else {
        lemma_text_add(a, b, k - 1);
        assert((a + b)[a.len() + k - 1] == b[k - 1]);
        assert(marks_text(a + b, a.len() + k) =~= marks_text(a, a.len() as int) + marks_text(b, k));
    }
}

proof fn lemma_bytes_add(a: Seq<Mark>, b: Seq<Mark>)
    ensures
        marks_bytes(a + b) == marks_bytes(a) + marks_bytes(b),
{
    lemma_text_add(a, b, b.len() as int);
    lemma_encode_two(marks_text(a, a.len() as int), marks_text(b, b.len() as int));
}

proof fn lemma_open_prefix(open: Seq<Seq<char>>, a: Seq<Mark>, b: Seq<Mark>, k: int)
    requires
        0 <= k <= a.len(),
        k <= b.len(),
        forall|i: int| 0 <= i < k ==> a[i] == b[i],
    ensures
        open_tags(open, a, k) == open_tags(open, b, k),
    decreases k,
{
    if k > 0 {
        lemma_open_prefix(open, a, b, k - 1);
    }
}

/// The open tags behind two rows of pieces.
pub proof fn lemma_open_add(open: Seq<Seq<char>>, a: Seq<Mark>, b: Seq<Mark>, k: int)
    requires
        0 <= k <= b.len(),
        open_tags(open, a, a.len() as int) is Some,
    ensures
        open_tags(open, a + b, a.len() + k) == open_tags(
            open_tags(open, a, a.len() as int)->Some_0,
            b,
            k,
        ),
    decreases k,
{
    if k == 0 {
        lemma_open_prefix(open, a + b, a, a.len() as int);
    } else {
        lemma_open_add(open, a, b, k - 1);
        assert((a + b)[a.len() + k - 1] == b[k - 1]);
    }
}

/// Two rows of pieces, one behind the other.
pub proof fn lemma_joined(a: Seq<Mark>, b: Seq<Mark>)
    requires
        are_sound(a),
        are_sound(b),
        keeps_open(a),
        keeps_open(b),
        ends_marked(a) || starts_marked(b),
    ensures
        are_sound(a + b),
        keeps_open(a + b),
        marks_bytes(a + b) == marks_bytes(a) + marks_bytes(b),
        starts_marked(a) && (a.len() > 0 || starts_marked(b)) ==> starts_marked(a + b),
        ends_marked(b) && (b.len() > 0 || ends_marked(a)) ==> ends_marked(a + b),
{
    let all = a + b;
    lemma_bytes_add(a, b);
    lemma_sound_add(a, b);
    assert forall|open: Seq<Seq<char>>| #[trigger]
        open_tags(open, all, all.len() as int) == Some(open) by {
        assert(open_tags(open, a, a.len() as int) == Some(open));
        assert(open_tags(open, b, b.len() as int) == Some(open));
        lemma_open_add(open, a, b, b.len() as int);
    }
    if b.len() > 0 {
        assert(all.last() == b.last());
    } else {
        assert(all =~= a);
    }
    if a.len() == 0 {
        assert(all =~= b);
    }
}

proof fn lemma_sound_add(a: Seq<Mark>, b: Seq<Mark>)
    requires
        are_sound(a),
        are_sound(b),
        ends_marked(a) || starts_marked(b),
    ensures
        are_sound(a + b),
{
    let all = a + b;
    assert forall|i: int| 0 <= i < all.len() implies is_plain(#[trigger] all[i]) by {
        if i < a.len() {
            assert(all[i] == a[i]);
        } else {
            assert(all[i] == b[i - a.len()]);
        }
    }
    assert forall|i: int| 0 < i < all.len() implies !((#[trigger] all[i]) is Words && all[i
        - 1] is Words) by {
        if i < a.len() {
            assert(all[i] == a[i] && all[i - 1] == a[i - 1]);
        } else if i == a.len() {
            assert(all[i] == b[0] && all[i - 1] == a.last());
        } else {
            assert(all[i] == b[i - a.len()] && all[i - 1] == b[i - a.len() - 1]);
        }
    }
}

/// One piece that opens and closes nothing.
pub proof fn lemma_single(mark: Mark)
    requires
        is_plain(mark),
        !(mark is Opening),
        !(mark is Closing),
    ensures
        are_sound(seq![mark]),
        keeps_open(seq![mark]),
        marks_bytes(seq![mark]) == encode_utf8(mark_text(mark)),
{
    let one = seq![mark];
    assert(marks_text(one, 0) == Seq::<char>::empty());
    assert(marks_text(one, 1) =~= mark_text(mark));
    assert forall|open: Seq<Seq<char>>| #[trigger] open_tags(open, one, one.len() as int) == Some(
        open,
    ) by {
        assert(open_tags(open, one, 0) == Some(open));
        assert(one[0] == mark);
    }
}

/// No pieces.
pub proof fn lemma_nothing()
    ensures
        are_sound(Seq::empty()),
        keeps_open(Seq::empty()),
        marks_bytes(Seq::empty()) == Seq::<u8>::empty(),
{
    assert(encode_utf8(Seq::<char>::empty()) =~= Seq::<u8>::empty());
}

// ---------------------------------------------------------------------------
// The pieces of an element are its bytes
// ---------------------------------------------------------------------------

/// Whether a text is blanks alone.
pub open spec fn all_blanks(s: Seq<char>) -> bool {
    forall|i: int| 0 <= i < s.len() ==> #[trigger] s[i] == ' '
}

/// Indentation stays blank one level down.
pub proof fn lemma_deeper(pad: Seq<char>)
    requires
        all_blanks(pad),
    ensures
        all_blanks(pad + "  "@),
{
    reveal_strlit("  ");
}

proof fn lemma_break(pad: Seq<char>, pretty: bool)
    requires
        all_blanks(pad),
    ensures
        are_sound(break_marks(pad, pretty)),
        keeps_open(break_marks(pad, pretty)),
        marks_bytes(break_marks(pad, pretty)) == indent_break(pad, pretty),
        !pretty ==> break_marks(pad, pretty).len() == 0,
{
    if pretty {
        reveal_strlit("\n");
        let s = "\n"@ + pad;
        assert forall|i: int| 0 <= i < s.len() implies (#[trigger] s[i]) != '<' && s[i] != '&' by {
            if i > 0 {
                assert(s[i] == pad[i - 1]);
            }
        }
        lemma_single(Mark::Words(s));
    } else {
        lemma_nothing();
    }
}

proof fn lemma_list(
    kind: ListKind,
    items: Seq<Tree>,
    k: int,
    pad: Seq<char>,
    pretty: bool,
)
    requires
        clean_list(kind, Some(Tree::Array(items))),
        0 <= k <= items.len(),
        all_blanks(pad),
    ensures
        ({
            let marks = list_marks(kind, list_texts(Some(Tree::Array(items))), k, pad, pretty);
            &&& are_sound(marks)
            &&& keeps_open(marks)
            &&& ends_marked(marks)
            &&& !pretty ==> starts_marked(marks)
            &&& marks_bytes(marks) == listed(kind, items, k, pad, pretty)
        }),
    decreases k,
{
    let texts = list_texts(Some(Tree::Array(items)));
    if k == 0 {
        lemma_nothing();
    } else {
        lemma_list(kind, items, k - 1, pad, pretty);
        let before = list_marks(kind, texts, k - 1, pad, pretty);
        let gap = break_marks(pad, pretty);
        let mark = item_mark(kind, texts[k - 1]);
        assert(items[k - 1] is String);
        let s = items[k - 1]->String_0;
        assert(texts[k - 1] == s);
        assert(clean_item(kind, s));
        lemma_break(pad, pretty);
        lemma_single(mark);
        lemma_joined(before, gap);
        lemma_joined(before + gap, seq![mark]);
        assert(mark_text(mark) == listed_text(kind, s));
        assert(listed(kind, items, k - 1, pad, pretty) + indent_break(pad, pretty) + encode_utf8(
            listed_text(kind, s),
        ) =~= listed(kind, items, k - 1, pad, pretty) + (indent_break(pad, pretty) + encode_utf8(
            listed_text(kind, s),
        )));
    }
}

/// The marks of a list under a conventional key stand for the bytes written of it.
pub proof fn lemma_whole_list(kind: ListKind, list: Option<Tree>, pad: Seq<char>, pretty: bool)
    requires
        clean_list(kind, list),
        all_blanks(pad),
    ensures
        ({
            let marks = whole_list(kind, list, pad, pretty);
            &&& are_sound(marks)
            &&& keeps_open(marks)
            &&& ends_marked(marks)
            &&& !pretty ==> starts_marked(marks)
            &&& marks_bytes(marks) == list_bytes(kind, list, pad, pretty)
        }),
{
    match list {
        Some(Tree::Array(items)) => {
            lemma_list(kind, items, items.len() as int, pad, pretty);
        },
        _ => {
            lemma_nothing();
        },
    }
}

/// A character is written as the entity of its name, or as it is.
pub proof fn lemma_entity(c: char)
    ensures
        entity_name(c) matches Some(name) ==> predefined_entity(name) == Some(seq![c])
            && xml_escaped_char(c) == "&"@ + name + ";"@,
        entity_name(c) is None ==> xml_escaped_char(c) == seq![c] && c != '<' && c != '&',
{
    reveal_strlit("lt");
    reveal_strlit("gt");
    reveal_strlit("amp");
    reveal_strlit("apos");
    reveal_strlit("quot");
    reveal_strlit("&lt;");
    reveal_strlit("&gt;");
    reveal_strlit("&amp;");
    reveal_strlit("&apos;");
    reveal_strlit("&quot;");
    reveal_strlit("&");
    reveal_strlit(";");
    reveal_strlit("<");
    reveal_strlit(">");
    reveal_strlit("'");
    reveal_strlit("\"");
    match entity_name(c) {
        Some(name) => {
            assert(xml_escaped_char(c) =~= "&"@ + name + ";"@);
            assert("lt"@ != "gt"@ && "lt"@ != "amp"@ && "gt"@ != "amp"@) by {
                assert("lt"@[0] != "gt"@[0]);
                assert("lt"@[0] != "amp"@[0]);
                assert("gt"@[0] != "amp"@[0]);
            }
            assert("apos"@ != "lt"@ && "apos"@ != "gt"@ && "apos"@ != "amp"@) by {
                assert("apos"@[1] != "amp"@[1]);
                assert("apos"@[0] != "lt"@[0]);
                assert("apos"@[0] != "gt"@[0]);
            }
            assert("quot"@ != "lt"@ && "quot"@ != "gt"@ && "quot"@ != "amp"@ && "quot"@ != "apos"@)
                by {
                assert("quot"@[0] == 'q');
            }
            assert(predefined_entity(name)->Some_0 =~= seq![c]);
        },
        None => {},
    }
}

/// The pieces of a text are what is written of it.
proof fn lemma_text_marks(s: Seq<char>)
    ensures
        are_sound(text_marks(s)),
        keeps_open(text_marks(s)),
        marks_text(text_marks(s), text_marks(s).len() as int) == xml_escaped(s),
    decreases s.len(),
{
    if s.len() == 0 {
        lemma_nothing();
        assert(xml_escaped(s) =~= Seq::<char>::empty());
    } else {
        let before = text_marks(s.drop_last());
        let c = s.last();
        lemma_text_marks(s.drop_last());
        lemma_entity(c);
        let n = before.len() as int;
        match entity_name(c) {
            Some(name) => {
                let mark = Mark::Reference(name);
                lemma_single(mark);
                lemma_joined(before, seq![mark]);
                lemma_text_add(before, seq![mark], 1);
                assert(before + seq![mark] =~= before.push(mark));
                assert(marks_text(seq![mark], 0) == Seq::<char>::empty());
                assert(marks_text(seq![mark], 1) =~= mark_text(mark));
            },
            None => {
                if before.len() > 0 && before.last() is Words {
                    let front = before.drop_last();
                    let w = before.last()->Words_0;
                    let mark = Mark::Words(w.push(c));
                    lemma_front_sound(before);
                    assert(is_plain(before[n - 1]));
                    assert(!holds_char(w.push(c), '<') && !holds_char(w.push(c), '&')) by {
                        assert forall|i: int| 0 <= i < w.push(c).len() implies (#[trigger] w.push(
                            c,
                        )[i]) != '<' && w.push(c)[i] != '&' by {
                            if i < w.len() {
                                assert(w.push(c)[i] == w[i]);
                            }
                        }
                    }
                    lemma_single(mark);
                    lemma_joined(front, seq![mark]);
                    lemma_text_add(front, seq![mark], 1);
                    assert(front + seq![mark] =~= front.push(mark));
                    assert(marks_text(seq![mark], 0) == Seq::<char>::empty());
                    assert(marks_text(seq![mark], 1) =~= w.push(c));
                    lemma_text_prefix(before, front, n - 1);
                    assert(marks_text(before, n) == marks_text(front, n - 1) + w);
                    assert(marks_text(front, n - 1) + w.push(c) =~= (marks_text(front, n - 1) + w)
                        + seq![c]);
                } else {
                    let mark = Mark::Words(seq![c]);
                    assert(!holds_char(seq![c], '<') && !holds_char(seq![c], '&')) by {
                        assert(forall|i: int| 0 <= i < 1 ==> #[trigger] seq![c][i] == c);
                    }
                    lemma_single(mark);
                    lemma_joined(before, seq![mark]);
                    lemma_text_add(before, seq![mark], 1);
                    assert(before + seq![mark] =~= before.push(mark));
                    assert(marks_text(seq![mark], 0) == Seq::<char>::empty());
                    assert(marks_text(seq![mark], 1) =~= seq![c]);
                }
            },
        }
    }
}

/// Pieces without the last one, which is text.
proof fn lemma_front_sound(marks: Seq<Mark>)
    requires
        are_sound(marks),
        keeps_open(marks),
        marks.len() > 0,
        marks.last() is Words,
    ensures
        are_sound(marks.drop_last()),
        keeps_open(marks.drop_last()),
        ends_marked(marks.drop_last()),
{
    let front = marks.drop_last();
    let n = front.len() as int;
    assert forall|i: int| 0 <= i < front.len() implies is_plain(#[trigger] front[i]) by {
        assert(front[i] == marks[i]);
    }
    assert forall|i: int| 0 < i < front.len() implies !((#[trigger] front[i]) is Words && front[i
        - 1] is Words) by {
        assert(front[i] == marks[i] && front[i - 1] == marks[i - 1]);
    }
    assert forall|open: Seq<Seq<char>>| #[trigger] open_tags(open, front, front.len() as int)
        == Some(open) by {
        assert(open_tags(open, marks, marks.len() as int) == Some(open));
        lemma_open_prefix(open, marks, front, n);
    }
    if n > 0 {
        assert(marks[n] is Words);
        assert(marks[n - 1] == front.last());
    }
}

proof fn lemma_body_text(body: Seq<(Seq<char>, Tree)>)
    ensures
        are_sound(body_text_marks(body)),
        keeps_open(body_text_marks(body)),
        marks_bytes(body_text_marks(body)) == text_bytes(body),
        lookup(body, "#text"@) is None ==> body_text_marks(body).len() == 0,
{
    match lookup(body, "#text"@) {
        Some(Tree::String(s)) => {
            lemma_text_marks(s);
        },
        _ => {
            lemma_nothing();
        },
    }
}

/// What stands in an element before its children. In the pretty layout it does
/// not end with text.
proof fn lemma_head(body: Seq<(Seq<char>, Tree)>, pad: Seq<char>, pretty: bool)
    requires
        clean_head(body),
        all_blanks(pad),
        pretty ==> lookup(body, "#text"@) is None,
    ensures
        are_sound(head_marks(body, pad, pretty)),
        keeps_open(head_marks(body, pad, pretty)),
        marks_bytes(head_marks(body, pad, pretty)) == element_head(body, pad, pretty),
        pretty ==> ends_marked(head_marks(body, pad, pretty)),
{
    let a = whole_list(ListKind::Comments, lookup(body, "#comments"@), pad, pretty);
    let b = whole_list(ListKind::Instructions, lookup(body, "#pi"@), pad, pretty);
    let c = body_text_marks(body);
    let d = whole_list(ListKind::Cdata, lookup(body, "#cdata"@), pad, false);
    lemma_whole_list(ListKind::Comments, lookup(body, "#comments"@), pad, pretty);
    lemma_whole_list(ListKind::Instructions, lookup(body, "#pi"@), pad, pretty);
    lemma_whole_list(ListKind::Cdata, lookup(body, "#cdata"@), pad, false);
    lemma_body_text(body);
    lemma_joined(a, b);
    lemma_joined(a + b, c);
    lemma_joined(a + b + c, d);
}

proof fn lemma_attrs_written(
    tag: Seq<char>,
    attrs: Seq<(Seq<char>, Tree)>,
    k: int,
)
    requires
        forall|i: int| 0 <= i < attrs.len() ==> (#[trigger] attrs[i]).1 is String,
        0 <= k <= attrs.len(),
    ensures
        attr_pairs(tag, attrs, k) == Ok::<_, Fault>(
            Seq::new(attrs.len(), |i: int| (attrs[i].0, attrs[i].1->String_0)).subrange(0, k),
        ),
    decreases k,
{
    let all = Seq::new(attrs.len(), |i: int| (attrs[i].0, attrs[i].1->String_0));
    if k == 0 {
        assert(all.subrange(0, 0) =~= Seq::<(Seq<char>, Seq<char>)>::empty());
    } else {
        lemma_attrs_written(tag, attrs, k - 1);
        assert(attrs[k - 1].1 is String);
        assert(all.subrange(0, k) =~= all.subrange(0, k - 1).push(all[k - 1]));
    }
}

proof fn lemma_element_attrs(tag: Seq<char>, body: Seq<(Seq<char>, Tree)>)
    requires
        clean_attrs(body),
    ensures
        element_attrs(tag, body) == Ok::<_, Fault>(attr_list(body)),
        attrs_plain(attr_list(body)),
{
    match lookup(body, "@attrs"@) {
        Some(Tree::Object(a)) => {
            lemma_attrs_written(tag, a, a.len() as int);
            assert(attr_list(body).subrange(0, a.len() as int) =~= attr_list(body));
        },
        _ => {},
    }
}

/// Whether pieces stand for what was written.
pub open spec fn stand_for(marks: Seq<Mark>, written: Result<Seq<u8>, Fault>) -> bool {
    &&& are_sound(marks)
    &&& keeps_open(marks)
    &&& ends_marked(marks)
    &&& written == Ok::<Seq<u8>, Fault>(marks_bytes(marks))
}

/// The marks of a clean element stand for the bytes written of it.
#[verifier::spinoff_prover]
pub proof fn lemma_element(tag: Seq<char>, body: Seq<(Seq<char>, Tree)>, pad: Seq<char>)
    requires
        is_clean(Tree::Object(body)),
        is_xml_name(tag),
        all_blanks(pad),
    ensures
        stand_for(element_marks(tag, body, pad), xml_element(tag, body, pad)),
        element_marks(tag, body, pad).len() > 0,
        starts_marked(element_marks(tag, body, pad)),
    decreases body, body.len() + 1,
{
    let attrs = attr_list(body);
    let t = Tree::Object(body);
    assert(t->Object_0 == body);
    assert(clean_head(body));
    lemma_element_attrs(tag, body);
    if !has_content(body) {
        lemma_single(Mark::Lone(tag, attrs));
    } else {
        let inner = pad + "  "@;
        let pretty = is_pretty(body);
        lemma_deeper(pad);
        let first = seq![Mark::Opening(tag, attrs)];
        let head = head_marks(body, inner, pretty);
        let children = children_marks(body, body.len(), inner, pretty);
        let gap = break_marks(pad, pretty);
        let last = seq![Mark::Closing(tag)];
        assert(pretty ==> lookup(body, "#text"@) is None);
        lemma_head(body, inner, pretty);
        lemma_children(tag, body, body.len(), inner, pretty);
        lemma_middle(head, children, pad, pretty);
        let middle = head + children + gap;
        lemma_wrapped(tag, attrs, middle);
        assert(element_marks(tag, body, pad) =~= first + middle + last);
        let bytes = xml_children(tag, body, body.len(), inner, pretty)->Ok_0;
        assert(marks_bytes(middle) == element_head(body, inner, pretty) + bytes + indent_break(
            pad,
            pretty,
        ));
        let open = encode_utf8(opening_tag(tag, attrs));
        let close = encode_utf8(closing_tag(tag));
        assert(open + marks_bytes(middle) + close =~= open + element_head(body, inner, pretty)
            + bytes + indent_break(pad, pretty) + close);
    }
}

/// What stands between the tags of an element.
proof fn lemma_middle(head: Seq<Mark>, children: Seq<Mark>, pad: Seq<char>, pretty: bool)
    requires
        are_sound(head),
        keeps_open(head),
        are_sound(children),
        keeps_open(children),
        ends_marked(children),
        pretty ==> ends_marked(head),
        !pretty ==> starts_marked(children),
        all_blanks(pad),
    ensures
        are_sound(head + children + break_marks(pad, pretty)),
        keeps_open(head + children + break_marks(pad, pretty)),
        marks_bytes(head + children + break_marks(pad, pretty)) == marks_bytes(head) + marks_bytes(
            children,
        ) + indent_break(pad, pretty),
{
    let gap = break_marks(pad, pretty);
    lemma_break(pad, pretty);
    lemma_joined(head, children);
    if pretty {
        lemma_joined(head + children, gap);
    } else {
        assert(head + children + gap =~= head + children);
        assert(marks_bytes(head + children) + indent_break(pad, pretty) =~= marks_bytes(
            head + children,
        ));
    }
}

/// Pieces between the tags of an element.
proof fn lemma_wrapped(tag: Seq<char>, attrs: Seq<(Seq<char>, Seq<char>)>, middle: Seq<Mark>)
    requires
        is_xml_name(tag),
        attrs_plain(attrs),
        are_sound(middle),
        keeps_open(middle),
    ensures
        ({
            let marks = seq![Mark::Opening(tag, attrs)] + middle + seq![Mark::Closing(tag)];
            &&& are_sound(marks)
            &&& keeps_open(marks)
            &&& starts_marked(marks)
            &&& ends_marked(marks)
            &&& marks_bytes(marks) == encode_utf8(
                opening_tag(tag, attrs),
            ) + marks_bytes(middle) + encode_utf8(closing_tag(tag))
        }),
{
    let open = Mark::Opening(tag, attrs);
    let close = Mark::Closing(tag);
    let (first, last) = (seq![open], seq![close]);
    assert(are_sound(first)) by {
        assert(first[0] == open);
    }
    assert(are_sound(last)) by {
        assert(last[0] == close);
    }
    lemma_sound_add(first, middle);
    lemma_sound_add(first + middle, last);
    lemma_bytes_add(first, middle);
    lemma_bytes_add(first + middle, last);
    assert(marks_text(first, 0) == Seq::<char>::empty());
    assert(marks_text(first, 1) =~= mark_text(open));
    assert(marks_text(last, 0) == Seq::<char>::empty());
    assert(marks_text(last, 1) =~= mark_text(close));
    let marks = first + middle + last;
    assert forall|tags: Seq<Seq<char>>| #[trigger] open_tags(tags, marks, marks.len() as int)
        == Some(tags) by {
        assert(open_tags(tags, first, 0) == Some(tags));
        assert(open_tags(tags, first, 1) == Some(tags.push(tag)));
        assert(open_tags(tags.push(tag), middle, middle.len() as int) == Some(tags.push(tag)));
        lemma_open_add(tags, first, middle, middle.len() as int);
        lemma_open_add(tags, first + middle, last, 1);
        assert(open_tags(tags.push(tag), last, 0) == Some(tags.push(tag)));
        assert(tags.push(tag).drop_last() =~= tags);
        assert(open_tags(tags.push(tag), last, 1) == Some(tags));
    }
}

proof fn lemma_children(
    tag: Seq<char>,
    body: Seq<(Seq<char>, Tree)>,
    k: nat,
    pad: Seq<char>,
    pretty: bool,
)
    requires
        is_clean(Tree::Object(body)),
        k <= body.len(),
        all_blanks(pad),
    ensures
        stand_for(
            children_marks(body, k, pad, pretty),
            xml_children(tag, body, k, pad, pretty),
        ),
        !pretty ==> starts_marked(children_marks(body, k, pad, pretty)),
    decreases body, k,
{
    if k == 0 {
        lemma_nothing();
    } else {
        lemma_children(tag, body, (k - 1) as nat, pad, pretty);
        if !conventional(body[k - 1].0) {
            lemma_clean_group(body, k - 1);
            let items = body[k - 1].1->Array_0;
            assert(decreases_to!(body => body[k - 1]));
            assert(decreases_to!(body[k - 1] => body[k - 1].1));
            assert(decreases_to!(body[k - 1].1 => body[k - 1].1->Array_0));
            lemma_items(tag, body[k - 1].0, items, items.len(), pad, pretty);
            lemma_joined(
                children_marks(body, (k - 1) as nat, pad, pretty),
                items_marks(body[k - 1].0, items, items.len(), pad, pretty),
            );
        }
    }
}

proof fn lemma_items(
    tag: Seq<char>,
    name: Seq<char>,
    items: Seq<Tree>,
    k: nat,
    pad: Seq<char>,
    pretty: bool,
)
    requires
        is_xml_name(name),
        forall|j: int| 0 <= j < items.len() ==> is_clean(#[trigger] items[j]),
        k <= items.len(),
        all_blanks(pad),
    ensures
        stand_for(
            items_marks(name, items, k, pad, pretty),
            xml_items(tag, name, items, k, pad, pretty),
        ),
        !pretty ==> starts_marked(items_marks(name, items, k, pad, pretty)),
    decreases items, k,
{
    if k == 0 {
        lemma_nothing();
    } else {
        lemma_items(tag, name, items, (k - 1) as nat, pad, pretty);
        assert(is_clean(items[k - 1]));
        let body = items[k - 1]->Object_0;
        assert(items[k - 1] == Tree::Object(body));
        assert(decreases_to!(items => items[k - 1]));
        assert(decreases_to!(items[k - 1] => items[k - 1]->Object_0));
        lemma_element(name, body, pad);
        lemma_break(pad, pretty);
        let before = items_marks(name, items, (k - 1) as nat, pad, pretty);
        let gap = break_marks(pad, pretty);
        lemma_joined(before, gap);
        lemma_joined(before + gap, element_marks(name, body, pad));
        if !pretty {
            assert(before + gap =~= before);
        }
    }
}

} // verus!
