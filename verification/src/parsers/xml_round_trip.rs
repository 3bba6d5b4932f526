//! What is read of an XML document that was written.

use crate::error::Fault;
use crate::parsers::xml_events::{line_ends_normalised, predefined_entity, DeclModel, XmlReading};
use crate::parsers::xml_marks::{
    gives_marks, holds_char, is_declaration, marks_text, open_tags, spells_marks, words_apart,
    Mark,
};
use crate::parsers::xml_playback::{bare_state, lemma_run, played, played_all, with_open};
use crate::parsers::xml_read::{
    child_added, declaration_entries, finalised, group_total, grouped, opened, with_last,
    xml_outcome, xml_run, xml_start, xml_value, FrameModel, XmlModel,
};
use crate::parsers::xml_spelling::{
    all_blanks, are_sound, attr_list, body_text_marks, break_marks, child_groups, children_marks,
    clean_attrs, clean_group, clean_head, clean_item, clean_list, element_marks, ends_marked,
    entity_name, frame_of, has_ink, head_marks, is_clean, item_mark, items_marks, keeps_open,
    lemma_clean_group, lemma_deeper, lemma_element, lemma_entity, lemma_joined, lemma_nothing,
    lemma_single, lemma_whole_list, list_marks, list_texts, marks_bytes, starts_marked, text_marks,
    whole_list,
};
use crate::parsers::xml_tags::attr_entries;
use crate::parsers::xml_write::{
    conventional, declaration_bytes, has_content, is_pretty, is_top_key, root_index, stray_index,
    string_under, xml_rendered, ListKind,
};
use crate::text::{is_white, trim, trim_end, trim_start};
use crate::value::{
    has_key, key_index, lemma_key_index, lemma_key_index_is, lookup, unique_keys, Tree,
};
use vstd::prelude::*;
use vstd::utf8::{decode_utf8, encode_utf8_decode_utf8, encode_utf8_valid_utf8, valid_utf8};

verus! {

/// What all pieces make of a state without notes.
spec fn after(m: XmlModel, marks: Seq<Mark>) -> XmlModel {
    played_all(m, marks, marks.len() as int)
}

proof fn lemma_played_prefix(m: XmlModel, a: Seq<Mark>, b: Seq<Mark>, k: int)
    requires
        0 <= k <= a.len(),
        k <= b.len(),
        forall|i: int| 0 <= i < k ==> a[i] == b[i],
    ensures
        played_all(m, a, k) == played_all(m, b, k),
    decreases k,
{
    if k > 0 {
        lemma_played_prefix(m, a, b, k - 1);
    }
}

proof fn lemma_played_add(m: XmlModel, a: Seq<Mark>, b: Seq<Mark>, k: int)
    requires
        0 <= k <= b.len(),
    ensures
        played_all(m, a + b, a.len() + k) == played_all(after(m, a), b, k),
    decreases k,
{
    if k == 0 {
        lemma_played_prefix(m, a + b, a, a.len() as int);
    } else {
        lemma_played_add(m, a, b, k - 1);
        assert((a + b)[a.len() + k - 1] == b[k - 1]);
    }
}

proof fn lemma_after_add(m: XmlModel, a: Seq<Mark>, b: Seq<Mark>)
    ensures
        after(m, a + b) == after(after(m, a), b),
{
    lemma_played_add(m, a, b, b.len() as int);
}

proof fn lemma_after_one(m: XmlModel, mark: Mark)
    ensures
        after(m, seq![mark]) == played(m, mark),
{
    assert(played_all(m, seq![mark], 0) == m);
    assert(seq![mark][0] == mark);
}

proof fn lemma_last_replaced(m: XmlModel, f: FrameModel, g: FrameModel)
    ensures
        with_last(with_open(m, f), g) == with_open(m, g),
        with_open(m, f).stack.last() == f,
        with_open(m, f).stack.len() == m.stack.len() + 1,
        (XmlModel { stack: with_open(m, f).stack.drop_last(), ..with_open(m, f) }) == m,
{
    assert(with_last(with_open(m, f), g).stack =~= with_open(m, g).stack);
    assert(with_open(m, f).stack.drop_last() =~= m.stack);
}

/// Whether a state has an element open that holds what `f` does, but for blank
/// text in the pretty layout.
spec fn rests(r: XmlModel, m: XmlModel, f: FrameModel, pretty: bool) -> bool {
    exists|text: Seq<char>|
        #![trigger with_open(m, FrameModel { text, ..f })]
        r == with_open(m, FrameModel { text, ..f }) && (!pretty ==> text == f.text)
}

/// The text of the element that is open.
spec fn open_text(r: XmlModel) -> Seq<char> {
    r.stack.last().text
}

proof fn lemma_rests(r: XmlModel, m: XmlModel, f: FrameModel, pretty: bool)
    requires
        rests(r, m, f, pretty),
    ensures
        r == with_open(m, FrameModel { text: open_text(r), ..f }),
        !pretty ==> r == with_open(m, f),
{
    let text = choose|text: Seq<char>|
        #![trigger with_open(m, FrameModel { text, ..f })]
        r == with_open(m, FrameModel { text, ..f }) && (!pretty ==> text == f.text);
    lemma_last_replaced(m, FrameModel { text, ..f }, f);
    assert(open_text(r) == text);
}

// ---------------------------------------------------------------------------
// Text
// ---------------------------------------------------------------------------

proof fn lemma_line_ends(s: Seq<char>)
    requires
        !holds_char(s, '\r'),
    ensures
        line_ends_normalised(s) == s,
    decreases s.len(),
{
    if s.len() > 0 {
        let rest = s.subrange(1, s.len() as int);
        assert(s[0] != '\r');
        assert(!holds_char(rest, '\r')) by {
            assert forall|i: int| 0 <= i < rest.len() implies #[trigger] rest[i] != '\r' by {
                assert(rest[i] == s[i + 1]);
            }
        }
        lemma_line_ends(rest);
        assert(s =~= seq![s[0]] + rest);
    }
}

proof fn lemma_trim_start(s: Seq<char>)
    ensures
        has_ink(s) ==> trim_start(s).len() > 0 && !is_white(trim_start(s)[0]),
        !has_ink(s) ==> trim_start(s).len() == 0,
    decreases s.len(),
{
    if s.len() > 0 && is_white(s[0]) {
        let rest = s.subrange(1, s.len() as int);
        lemma_trim_start(rest);
        if has_ink(s) {
            let i = choose|i: int| 0 <= i < s.len() && !is_white(#[trigger] s[i]);
            assert(rest[i - 1] == s[i]);
        } else if has_ink(rest) {
            let i = choose|i: int| 0 <= i < rest.len() && !is_white(#[trigger] rest[i]);
            assert(rest[i] == s[i + 1]);
        }
    } else if s.len() > 0 {
        assert(!is_white(s[0]));
    }
}

proof fn lemma_trim_end(s: Seq<char>)
    requires
        s.len() > 0,
        !is_white(s[0]),
    ensures
        trim_end(s).len() > 0,
    decreases s.len(),
{
    if is_white(s.last()) {
        lemma_trim_end(s.drop_last());
    }
}

proof fn lemma_trim(s: Seq<char>)
    ensures
        (trim(s).len() > 0) == has_ink(s),
{
    lemma_trim_start(s);
    if has_ink(s) {
        lemma_trim_end(trim_start(s));
    }
}

/// What a piece of text shows.
spec fn shown_by(mark: Mark) -> Seq<char> {
    match mark {
        Mark::Words(s) => s,
        Mark::Reference(name) => predefined_entity(name)->Some_0,
        _ => Seq::empty(),
    }
}

/// Whether a piece of text shows more than white space.
spec fn inked_by(mark: Mark) -> bool {
    match mark {
        Mark::Words(s) => has_ink(s),
        _ => true,
    }
}

/// What the first `k` pieces of text show.
spec fn shown(marks: Seq<Mark>, k: int) -> Seq<char>
    decreases k,
{
    if k <= 0 {
        Seq::empty()
    } else {
        shown(marks, k - 1) + shown_by(marks[k - 1])
    }
}

/// Whether the first `k` pieces of text show more than white space.
spec fn inked(marks: Seq<Mark>, k: int) -> bool
    decreases k,
{
    k > 0 && (inked(marks, k - 1) || inked_by(marks[k - 1]))
}

/// Whether pieces are text without carriage returns.
spec fn are_text(marks: Seq<Mark>) -> bool {
    forall|i: int|
        0 <= i < marks.len() ==> match #[trigger] marks[i] {
            Mark::Words(s) => !holds_char(s, '\r'),
            Mark::Reference(_) => true,
            _ => false,
        }
}

proof fn lemma_shown_prefix(a: Seq<Mark>, b: Seq<Mark>, k: int)
    requires
        0 <= k <= a.len(),
        k <= b.len(),
        forall|i: int| 0 <= i < k ==> a[i] == b[i],
    ensures
        shown(a, k) == shown(b, k),
        inked(a, k) == inked(b, k),
    decreases k,
{
    if k > 0 {
        lemma_shown_prefix(a, b, k - 1);
    }
}

proof fn lemma_ink_push(s: Seq<char>, c: char)
    ensures
        has_ink(s.push(c)) == (has_ink(s) || !is_white(c)),
{
    let t = s.push(c);
    if has_ink(s) {
        let i = choose|i: int| 0 <= i < s.len() && !is_white(#[trigger] s[i]);
        assert(t[i] == s[i]);
    }
    if !is_white(c) {
        assert(t[s.len() as int] == c);
    }
    if has_ink(t) {
        let i = choose|i: int| 0 <= i < t.len() && !is_white(#[trigger] t[i]);
        if i < s.len() {
            assert(t[i] == s[i]);
        }
    }
}

proof fn lemma_text_shown(s: Seq<char>)
    requires
        !holds_char(s, '\r'),
    ensures
        are_text(text_marks(s)),
        shown(text_marks(s), text_marks(s).len() as int) == s,
        inked(text_marks(s), text_marks(s).len() as int) == has_ink(s),
    decreases s.len(),
{
    let all = text_marks(s);
    if s.len() > 0 {
        let front = s.drop_last();
        let c = s.last();
        let before = text_marks(front);
        let n = before.len() as int;
        assert(!holds_char(front, '\r')) by {
            assert forall|i: int| 0 <= i < front.len() implies #[trigger] front[i] != '\r' by {
                assert(front[i] == s[i]);
            }
        }
        assert(c != '\r') by {
            assert(s[s.len() - 1] == c);
        }
        lemma_text_shown(front);
        lemma_entity(c);
        assert(s =~= front.push(c));
        lemma_ink_push(front, c);
        match entity_name(c) {
            Some(name) => {
                assert(all == before.push(Mark::Reference(name)));
                lemma_shown_prefix(all, before, n);
                assert(!is_white(c));
                assert(shown(all, n + 1) =~= front + seq![c]);
            },
            None => {
                if before.len() > 0 && before.last() is Words {
                    let w = before.last()->Words_0;
                    let mark = Mark::Words(w.push(c));
                    assert(all == before.drop_last().push(mark));
                    lemma_shown_prefix(all, before, n - 1);
                    assert(all[n - 1] == mark);
                    assert(before[n - 1] == Mark::Words(w));
                    lemma_ink_push(w, c);
                    assert(shown(all, n) =~= shown(before, n - 1) + w + seq![c]);
                    assert(shown(before, n) == shown(before, n - 1) + w);
                    assert(!holds_char(w.push(c), '\r')) by {
                        assert(!holds_char(w, '\r'));
                        assert forall|i: int| 0 <= i < w.push(c).len() implies #[trigger] w.push(
                            c,
                        )[i] != '\r' by {
                            if i < w.len() {
                                assert(w.push(c)[i] == w[i]);
                            }
                        }
                    }
                    assert forall|i: int| 0 <= i < all.len() implies match #[trigger] all[i] {
                        Mark::Words(x) => !holds_char(x, '\r'),
                        Mark::Reference(_) => true,
                        _ => false,
                    } by {
                        if i < n - 1 {
                            assert(all[i] == before[i]);
                        }
                    }
                } else {
                    let mark = Mark::Words(seq![c]);
                    assert(all == before.push(mark));
                    lemma_shown_prefix(all, before, n);
                    assert(shown(all, n + 1) =~= front + seq![c]);
                    assert(Seq::<char>::empty().push(c) =~= seq![c]);
                    lemma_ink_push(Seq::empty(), c);
                    assert(!holds_char(seq![c], '\r')) by {
                        assert(forall|i: int| 0 <= i < 1 ==> #[trigger] seq![c][i] == c);
                    }
                    assert forall|i: int| 0 <= i < all.len() implies match #[trigger] all[i] {
                        Mark::Words(x) => !holds_char(x, '\r'),
                        Mark::Reference(_) => true,
                        _ => false,
                    } by {
                        if i < n {
                            assert(all[i] == before[i]);
                        }
                    }
                }
            },
        }
    } else {
        assert(shown(all, 0) =~= s);
    }
}

/// Pieces of text add what they show to the element that is open.
proof fn lemma_text_played(m: XmlModel, f: FrameModel, marks: Seq<Mark>, k: int)
    requires
        are_text(marks),
        0 <= k <= marks.len(),
    ensures
        played_all(with_open(m, f), marks, k) == with_open(
            m,
            FrameModel {
                text: f.text + shown(marks, k),
                has_text: f.has_text || inked(marks, k),
                ..f
            },
        ),
    decreases k,
{
    if k == 0 {
        assert(f.text + Seq::<char>::empty() =~= f.text);
    } else {
        lemma_text_played(m, f, marks, k - 1);
        let g = FrameModel {
            text: f.text + shown(marks, k - 1),
            has_text: f.has_text || inked(marks, k - 1),
            ..f
        };
        let mark = marks[k - 1];
        match mark {
            Mark::Words(s) => {
                lemma_line_ends(s);
                lemma_trim(s);
            },
            _ => {},
        }
        let h = FrameModel {
            text: g.text + shown_by(mark),
            has_text: g.has_text || inked_by(mark),
            ..g
        };
        lemma_last_replaced(m, g, h);
        assert(g.text + shown_by(mark) =~= f.text + shown(marks, k));
    }
}

proof fn lemma_break_played(m: XmlModel, f: FrameModel, pad: Seq<char>, pretty: bool)
    requires
        all_blanks(pad),
    ensures
        rests(after(with_open(m, f), break_marks(pad, pretty)), m, f, pretty),
{
    if pretty {
        reveal_strlit("\n");
        let s = "\n"@ + pad;
        let marks = break_marks(pad, pretty);
        assert forall|i: int| 0 <= i < s.len() implies (#[trigger] s[i]) != '\r' && is_white(
            s[i],
        ) by {
            if i > 0 {
                assert(s[i] == pad[i - 1]);
            }
        }
        assert(!has_ink(s));
        assert(are_text(marks)) by {
            assert(marks[0] == Mark::Words(s));
        }
        lemma_text_played(m, f, marks, 1);
        assert(inked(marks, 0) == false);
        assert(inked(marks, 1) == inked_by(marks[0]));
        let text = f.text + shown(marks, 1);
        assert(after(with_open(m, f), marks) == with_open(m, FrameModel { text, ..f }));
    } else {
        assert(after(with_open(m, f), break_marks(pad, pretty)) == with_open(
            m,
            FrameModel { text: f.text, ..f },
        ));
    }
}

// ---------------------------------------------------------------------------
// Lists
// ---------------------------------------------------------------------------

/// An element with more items in one of its lists.
spec fn list_added(kind: ListKind, f: FrameModel, items: Seq<Seq<char>>) -> FrameModel {
    match kind {
        ListKind::Comments => FrameModel { comments: f.comments + items, ..f },
        ListKind::Instructions => FrameModel { pi: f.pi + items, ..f },
        ListKind::Cdata => FrameModel { cdata: f.cdata + items, ..f },
    }
}

proof fn lemma_list_played(
    m: XmlModel,
    f: FrameModel,
    kind: ListKind,
    items: Seq<Seq<char>>,
    k: int,
    pad: Seq<char>,
    pretty: bool,
)
    requires
        forall|i: int| 0 <= i < items.len() ==> clean_item(kind, #[trigger] items[i]),
        0 <= k <= items.len(),
        all_blanks(pad),
    ensures
        rests(
            after(with_open(m, f), list_marks(kind, items, k, pad, pretty)),
            m,
            list_added(kind, f, items.subrange(0, k)),
            pretty,
        ),
    decreases k,
{
    let start = with_open(m, f);
    let goal = list_added(kind, f, items.subrange(0, k));
    if k == 0 {
        assert(items.subrange(0, 0) =~= Seq::<Seq<char>>::empty());
        assert(f.comments + Seq::<Seq<char>>::empty() =~= f.comments);
        assert(f.pi + Seq::<Seq<char>>::empty() =~= f.pi);
        assert(f.cdata + Seq::<Seq<char>>::empty() =~= f.cdata);
        assert(after(start, list_marks(kind, items, 0, pad, pretty)) == with_open(
            m,
            FrameModel { text: f.text, ..goal },
        ));
    } else {
        let before = list_marks(kind, items, k - 1, pad, pretty);
        let gap = break_marks(pad, pretty);
        let mark = item_mark(kind, items[k - 1]);
        lemma_list_played(m, f, kind, items, k - 1, pad, pretty);
        let f1 = list_added(kind, f, items.subrange(0, k - 1));
        let r1 = after(start, before);
        lemma_rests(r1, m, f1, pretty);
        let g1 = FrameModel { text: open_text(r1), ..f1 };
        lemma_after_add(start, before, gap);
        lemma_break_played(m, g1, pad, pretty);
        let r2 = after(r1, gap);
        lemma_rests(r2, m, g1, pretty);
        let g2 = FrameModel { text: open_text(r2), ..g1 };
        lemma_after_add(start, before + gap, seq![mark]);
        lemma_after_one(r2, mark);
        assert(clean_item(kind, items[k - 1]));
        if kind == ListKind::Comments {
            lemma_line_ends(items[k - 1]);
        }
        let g3 = FrameModel { text: g2.text, ..goal };
        assert(items.subrange(0, k) =~= items.subrange(0, k - 1).push(items[k - 1]));
        assert(goal.comments =~= if kind == ListKind::Comments {
            g2.comments.push(items[k - 1])
        } else {
            g2.comments
        });
        assert(goal.pi =~= if kind == ListKind::Instructions {
            g2.pi.push(items[k - 1])
        } else {
            g2.pi
        });
        assert(goal.cdata =~= if kind == ListKind::Cdata {
            g2.cdata.push(items[k - 1])
        } else {
            g2.cdata
        });
        lemma_last_replaced(m, g2, g3);
        assert(played(r2, mark) == with_open(m, g3));
        if !pretty {
            lemma_last_replaced(m, f1, f1);
            lemma_last_replaced(m, g1, g1);
            assert(g2.text == f.text);
        }
    }
}

proof fn lemma_whole_list_played(
    m: XmlModel,
    f: FrameModel,
    kind: ListKind,
    list: Option<Tree>,
    pad: Seq<char>,
    pretty: bool,
)
    requires
        clean_list(kind, list),
        all_blanks(pad),
    ensures
        rests(
            after(with_open(m, f), whole_list(kind, list, pad, pretty)),
            m,
            list_added(kind, f, list_texts(list)),
            pretty,
        ),
{
    let items = list_texts(list);
    assert forall|i: int| 0 <= i < items.len() implies clean_item(kind, #[trigger] items[i]) by {
        let all = list->Some_0->Array_0;
        assert(all[i] is String);
    }
    lemma_list_played(m, f, kind, items, items.len() as int, pad, pretty);
    assert(items.subrange(0, items.len() as int) =~= items);
}

// ---------------------------------------------------------------------------
// Elements
// ---------------------------------------------------------------------------

proof fn lemma_group_started(groups: Seq<(Seq<char>, Seq<Tree>)>, name: Seq<char>, child: Tree)
    requires
        !has_key(groups, name),
    ensures
        grouped(groups, name, child) == groups.push((name, seq![child])),
{
}

proof fn lemma_group_extended(
    groups: Seq<(Seq<char>, Seq<Tree>)>,
    name: Seq<char>,
    before: Seq<Tree>,
    child: Tree,
)
    requires
        !has_key(groups, name),
    ensures
        grouped(groups.push((name, before)), name, child) == groups.push(
            (name, before.push(child)),
        ),
{
    let all = groups.push((name, before));
    let n = groups.len() as int;
    lemma_key_index(groups, name);
    assert forall|i: int| 0 <= i < n implies (#[trigger] all[i]).0 != name by {
        assert(all[i] == groups[i]);
        assert(groups[i].0 != name);
    }
    lemma_key_index_is(all, name, n);
    assert(all.update(n, (name, before.push(child))) =~= groups.push((name, before.push(child))));
}

proof fn lemma_group_names(body: Seq<(Seq<char>, Tree)>, k: int, name: Seq<char>)
    requires
        0 <= k <= body.len(),
        forall|i: int| 0 <= i < k ==> (#[trigger] body[i]).0 != name,
    ensures
        !has_key(child_groups(body, k), name),
    decreases k,
{
    let groups = child_groups(body, k);
    lemma_key_index(groups, name);
    if k > 0 {
        lemma_group_names(body, k - 1, name);
        let before = child_groups(body, k - 1);
        lemma_key_index(before, name);
        assert(body[k - 1].0 != name);
        if has_key(groups, name) {
            let i = key_index(groups, name);
            assert(groups[i].0 == name);
            if i < before.len() {
                assert(groups[i] == before[i]);
                assert(before[i].0 != name);
            }
        }
    }
}

/// Whether what an element holds is what its entries say.
spec fn holds_body(f: FrameModel, body: Seq<(Seq<char>, Tree)>) -> bool {
    let g = frame_of(Seq::empty(), body);
    &&& f.attrs == g.attrs
    &&& f.children == g.children
    &&& f.has_text == g.has_text
    &&& f.has_text ==> f.text == g.text
    &&& f.cdata == g.cdata
    &&& f.pi == g.pi
    &&& f.comments == g.comments
}

proof fn lemma_finalised(f: FrameModel, body: Seq<(Seq<char>, Tree)>)
    requires
        is_clean(Tree::Object(body)),
        holds_body(f, body),
    ensures
        finalised(f) == Tree::Object(body),
{
    let t = Tree::Object(body);
    assert(t->Object_0 == body);
    assert(finalised(f) == finalised(frame_of(Seq::empty(), body)));
}

proof fn lemma_attrs_kept(body: Seq<(Seq<char>, Tree)>)
    requires
        clean_attrs(body),
    ensures
        attr_entries(attr_list(body)) == frame_of(Seq::empty(), body).attrs,
{
    match lookup(body, "@attrs"@) {
        Some(Tree::Object(a)) => {
            let entries = attr_entries(attr_list(body));
            assert forall|i: int| 0 <= i < a.len() implies entries[i] == a[i] by {
                assert(a[i].1 is String);
            }
            assert(entries =~= a);
        },
        _ => {
            assert(attr_entries(attr_list(body)) =~= Seq::<(Seq<char>, Tree)>::empty());
        },
    }
}

/// What stands in an element before its children adds its lists and its text.
proof fn lemma_head_played(
    m: XmlModel,
    f: FrameModel,
    body: Seq<(Seq<char>, Tree)>,
    pad: Seq<char>,
    pretty: bool,
)
    requires
        clean_head(body),
        all_blanks(pad),
        pretty ==> lookup(body, "#text"@) is None,
        f.comments.len() == 0,
        f.pi.len() == 0,
        f.cdata.len() == 0,
        f.text.len() == 0,
        !f.has_text,
    ensures
        ({
            let g = frame_of(Seq::empty(), body);
            rests(
                after(with_open(m, f), head_marks(body, pad, pretty)),
                m,
                FrameModel {
                    comments: g.comments,
                    pi: g.pi,
                    cdata: g.cdata,
                    text: g.text,
                    has_text: g.has_text,
                    ..f
                },
                pretty,
            )
        }),
{
    let a = whole_list(ListKind::Comments, lookup(body, "#comments"@), pad, pretty);
    let b = whole_list(ListKind::Instructions, lookup(body, "#pi"@), pad, pretty);
    let c = body_text_marks(body);
    let d = whole_list(ListKind::Cdata, lookup(body, "#cdata"@), pad, false);
    let g = frame_of(Seq::empty(), body);
    let start = with_open(m, f);
    lemma_whole_list_played(m, f, ListKind::Comments, lookup(body, "#comments"@), pad, pretty);
    let f1 = list_added(ListKind::Comments, f, g.comments);
    let r1 = after(start, a);
    lemma_rests(r1, m, f1, pretty);
    let g1 = FrameModel { text: open_text(r1), ..f1 };
    lemma_after_add(start, a, b);
    lemma_whole_list_played(m, g1, ListKind::Instructions, lookup(body, "#pi"@), pad, pretty);
    let f2 = list_added(ListKind::Instructions, g1, g.pi);
    let r2 = after(r1, b);
    lemma_rests(r2, m, f2, pretty);
    let g2 = FrameModel { text: open_text(r2), ..f2 };
    lemma_after_add(start, a + b, c);
    let r3 = after(r2, c);
    let g3 = FrameModel {
        text: if g.has_text {
            g2.text + g.text
        } else {
            g2.text
        },
        has_text: g.has_text,
        ..g2
    };
    match lookup(body, "#text"@) {
        Some(Tree::String(s)) => {
            lemma_text_shown(s);
            lemma_text_played(m, g2, c, c.len() as int);
        },
        _ => {},
    }
    assert(r3 == with_open(m, g3));
    lemma_after_add(start, a + b + c, d);
    lemma_whole_list_played(m, g3, ListKind::Cdata, lookup(body, "#cdata"@), pad, false);
    let f4 = list_added(ListKind::Cdata, g3, g.cdata);
    let r4 = after(r3, d);
    lemma_rests(r4, m, f4, false);
    assert(f.comments + g.comments =~= g.comments);
    assert(f.pi + g.pi =~= g.pi);
    assert(f.cdata + g.cdata =~= g.cdata);
    let goal = FrameModel {
        comments: g.comments,
        pi: g.pi,
        cdata: g.cdata,
        text: g.text,
        has_text: g.has_text,
        ..f
    };
    if !pretty {
        lemma_last_replaced(m, f1, f1);
        lemma_last_replaced(m, f2, f2);
        assert(g2.text == f.text);
        assert(g3.text =~= g.text);
    }
    assert(r4 == with_open(m, FrameModel { text: f4.text, ..goal }));
}

#[verifier::spinoff_prover]
proof fn lemma_element_played(
    m: XmlModel,
    tag: Seq<char>,
    body: Seq<(Seq<char>, Tree)>,
    pad: Seq<char>,
)
    requires
        is_clean(Tree::Object(body)),
        all_blanks(pad),
    ensures
        after(m, element_marks(tag, body, pad)) == child_added(m, tag, Tree::Object(body)),
    decreases body, body.len() + 1,
{
    let t = Tree::Object(body);
    assert(t->Object_0 == body);
    assert(clean_head(body));
    let attrs = attr_list(body);
    let f0 = opened(tag, attr_entries(attrs));
    lemma_attrs_kept(body);
    if !has_content(body) {
        lemma_after_one(m, Mark::Lone(tag, attrs));
        lemma_empty_body(f0, body);
        lemma_finalised(f0, body);
    } else {
        let inner = pad + "  "@;
        let pretty = is_pretty(body);
        lemma_deeper(pad);
        let first = seq![Mark::Opening(tag, attrs)];
        let head = head_marks(body, inner, pretty);
        let children = children_marks(body, body.len(), inner, pretty);
        let gap = break_marks(pad, pretty);
        let last = seq![Mark::Closing(tag)];
        let g = frame_of(Seq::empty(), body);
        lemma_after_one(m, Mark::Opening(tag, attrs));
        assert(pretty ==> lookup(body, "#text"@) is None);
        lemma_head_played(m, f0, body, inner, pretty);
        let f1 = FrameModel {
            comments: g.comments,
            pi: g.pi,
            cdata: g.cdata,
            text: g.text,
            has_text: g.has_text,
            ..f0
        };
        let r1 = after(with_open(m, f0), head);
        lemma_rests(r1, m, f1, pretty);
        let g1 = FrameModel { text: open_text(r1), ..f1 };
        lemma_children_played(m, g1, body, body.len(), inner, pretty);
        let f2 = FrameModel { children: g.children, ..g1 };
        let r2 = after(r1, children);
        lemma_rests(r2, m, f2, pretty);
        let g2 = FrameModel { text: open_text(r2), ..f2 };
        lemma_break_played(m, g2, pad, pretty);
        let r3 = after(r2, gap);
        lemma_rests(r3, m, g2, pretty);
        let g3 = FrameModel { text: open_text(r3), ..g2 };
        lemma_after_one(r3, Mark::Closing(tag));
        lemma_last_replaced(m, g3, g3);
        lemma_after_add(m, first, head);
        lemma_after_add(m, first + head, children);
        lemma_after_add(m, first + head + children, gap);
        lemma_after_add(m, first + head + children + gap, last);
        if !pretty {
            lemma_last_replaced(m, f1, f1);
            lemma_last_replaced(m, f2, f2);
            lemma_last_replaced(m, g2, g2);
            assert(g3.text == g.text);
        }
        assert(holds_body(g3, body));
        lemma_finalised(g3, body);
    }
}

/// An element with nothing between its tags holds only attributes.
proof fn lemma_empty_body(f: FrameModel, body: Seq<(Seq<char>, Tree)>)
    requires
        is_clean(Tree::Object(body)),
        !has_content(body),
        f == opened(f.tag, frame_of(Seq::empty(), body).attrs),
    ensures
        holds_body(f, body),
{
    let t = Tree::Object(body);
    assert(t->Object_0 == body);
    assert(clean_head(body));
    let g = frame_of(Seq::empty(), body);
    assert(!g.has_text);
    assert(g.cdata =~= f.cdata);
    assert(g.pi =~= f.pi);
    assert(g.comments =~= f.comments);
    assert forall|i: int| 0 <= i < body.len() implies conventional((#[trigger] body[i]).0) by {
        if !conventional(body[i].0) {
            lemma_clean_group(body, i);
        }
    }
    lemma_no_groups(body, body.len() as int);
    assert(g.children =~= f.children);
}

proof fn lemma_no_groups(body: Seq<(Seq<char>, Tree)>, k: int)
    requires
        0 <= k <= body.len(),
        forall|i: int| 0 <= i < k ==> conventional((#[trigger] body[i]).0),
    ensures
        child_groups(body, k).len() == 0,
    decreases k,
{
    if k > 0 {
        lemma_no_groups(body, k - 1);
        assert(conventional(body[k - 1].0));
    }
}

proof fn lemma_children_played(
    m: XmlModel,
    f: FrameModel,
    body: Seq<(Seq<char>, Tree)>,
    k: nat,
    pad: Seq<char>,
    pretty: bool,
)
    requires
        is_clean(Tree::Object(body)),
        k <= body.len(),
        all_blanks(pad),
        f.children.len() == 0,
    ensures
        rests(
            after(with_open(m, f), children_marks(body, k, pad, pretty)),
            m,
            FrameModel { children: child_groups(body, k as int), ..f },
            pretty,
        ),
    decreases body, k,
{
    let start = with_open(m, f);
    let goal = FrameModel { children: child_groups(body, k as int), ..f };
    if k == 0 {
        assert(f.children =~= Seq::<(Seq<char>, Seq<Tree>)>::empty());
        assert(after(start, children_marks(body, k, pad, pretty)) == with_open(
            m,
            FrameModel { text: f.text, ..goal },
        ));
    } else {
        lemma_children_played(m, f, body, (k - 1) as nat, pad, pretty);
        if !conventional(body[k - 1].0) {
            lemma_clean_group(body, k - 1);
            let name = body[k - 1].0;
            let items = body[k - 1].1->Array_0;
            let before = children_marks(body, (k - 1) as nat, pad, pretty);
            let more = items_marks(name, items, items.len(), pad, pretty);
            let f1 = FrameModel { children: child_groups(body, k - 1), ..f };
            let r1 = after(start, before);
            lemma_rests(r1, m, f1, pretty);
            let g1 = FrameModel { text: open_text(r1), ..f1 };
            let t = Tree::Object(body);
            assert(t->Object_0 == body);
            assert forall|i: int| 0 <= i < k - 1 implies (#[trigger] body[i]).0 != name by {
                assert(body[i].0 != body[k - 1].0);
            }
            lemma_group_names(body, k - 1, name);
            assert(decreases_to!(body => body[k - 1]));
            assert(decreases_to!(body[k - 1] => body[k - 1].1));
            assert(decreases_to!(body[k - 1].1 => body[k - 1].1->Array_0));
            lemma_items_played(m, g1, name, items, items.len(), pad, pretty);
            lemma_after_add(start, before, more);
            assert(items.subrange(0, items.len() as int) =~= items);
            let r2 = after(r1, more);
            let f2 = FrameModel { children: g1.children.push((name, items)), ..g1 };
            lemma_rests(r2, m, f2, pretty);
            assert(f2.children == goal.children);
            assert(r2 == with_open(m, FrameModel { text: open_text(r2), ..goal }));
            if !pretty {
                lemma_last_replaced(m, f1, f1);
                lemma_last_replaced(m, f2, f2);
                assert(open_text(r2) == f.text);
            }
        }
    }
}

proof fn lemma_items_played(
    m: XmlModel,
    f: FrameModel,
    name: Seq<char>,
    items: Seq<Tree>,
    k: nat,
    pad: Seq<char>,
    pretty: bool,
)
    requires
        forall|j: int| 0 <= j < items.len() ==> is_clean(#[trigger] items[j]),
        k <= items.len(),
        all_blanks(pad),
        !has_key(f.children, name),
    ensures
        rests(
            after(with_open(m, f), items_marks(name, items, k, pad, pretty)),
            m,
            FrameModel {
                children: if k == 0 {
                    f.children
                } else {
                    f.children.push((name, items.subrange(0, k as int)))
                },
                ..f
            },
            pretty,
        ),
    decreases items, k,
{
    let start = with_open(m, f);
    if k == 0 {
        assert(after(start, items_marks(name, items, k, pad, pretty)) == with_open(
            m,
            FrameModel { text: f.text, ..f },
        ));
    } else {
        lemma_items_played(m, f, name, items, (k - 1) as nat, pad, pretty);
        assert(is_clean(items[k - 1]));
        let body = items[k - 1]->Object_0;
        assert(items[k - 1] == Tree::Object(body));
        let before = items_marks(name, items, (k - 1) as nat, pad, pretty);
        let gap = break_marks(pad, pretty);
        let more = element_marks(name, body, pad);
        let f1 = FrameModel {
            children: if k == 1 {
                f.children
            } else {
                f.children.push((name, items.subrange(0, k - 1)))
            },
            ..f
        };
        let r1 = after(start, before);
        lemma_rests(r1, m, f1, pretty);
        let g1 = FrameModel { text: open_text(r1), ..f1 };
        lemma_break_played(m, g1, pad, pretty);
        let r2 = after(r1, gap);
        lemma_rests(r2, m, g1, pretty);
        let g2 = FrameModel { text: open_text(r2), ..g1 };
        assert(decreases_to!(items => items[k - 1]));
        assert(decreases_to!(items[k - 1] => items[k - 1]->Object_0));
        lemma_element_played(r2, name, body, pad);
        lemma_after_add(start, before, gap);
        lemma_after_add(start, before + gap, more);
        let child = items[k - 1];
        assert(items.subrange(0, k as int) =~= items.subrange(0, k - 1).push(child));
        if k == 1 {
            lemma_group_started(f.children, name, child);
            assert(items.subrange(0, 1) =~= seq![child]);
        } else {
            lemma_group_extended(f.children, name, items.subrange(0, k - 1), child);
        }
        let g3 = FrameModel { children: f.children.push((name, items.subrange(0, k as int))), ..g2 };
        lemma_last_replaced(m, g2, g3);
        let goal = FrameModel {
            children: f.children.push((name, items.subrange(0, k as int))),
            ..f
        };
        assert(after(r2, more) == with_open(m, g3));
        assert(g3 == FrameModel { text: g2.text, ..goal });
        if !pretty {
            lemma_last_replaced(m, f1, f1);
            lemma_last_replaced(m, g1, g1);
            assert(g2.text == f.text);
        }
    }
}

// ---------------------------------------------------------------------------
// Documents
// ---------------------------------------------------------------------------

/// The parts of the declaration of a document.
pub open spec fn declared(d: Seq<(Seq<char>, Tree)>) -> DeclModel {
    DeclModel {
        version: string_under(d, "version"@),
        encoding: string_under(d, "encoding"@),
        standalone: string_under(d, "standalone"@),
    }
}

/// Whether the declaration of a document, where it has one, reads back as it was
/// written: it has a version, and parts made of name characters.
pub open spec fn clean_declaration(top: Seq<(Seq<char>, Tree)>) -> bool {
    match lookup(top, "#xml"@) {
        None => true,
        Some(Tree::Object(d)) => {
            let parts = declared(d);
            &&& parts.version is Some
            &&& is_declaration(parts.version->Some_0, parts.encoding, parts.standalone)
            &&& declaration_entries(parts) == d
        },
        Some(_) => false,
    }
}

/// What a document holds, as the reader collects it.
pub open spec fn state_of(top: Seq<(Seq<char>, Tree)>) -> XmlModel {
    XmlModel {
        top: match lookup(top, "#xml"@) {
            Some(d) => seq![("#xml"@, d)],
            None => Seq::empty(),
        },
        children: child_groups(top, top.len() as int),
        pi: list_texts(lookup(top, "#pi"@)),
        comments: list_texts(lookup(top, "#comments"@)),
        stack: Seq::empty(),
        notes: Seq::empty(),
    }
}

/// Whether a document has one root element, which reads back as it was written.
pub open spec fn clean_root(top: Seq<(Seq<char>, Tree)>) -> bool {
    let at = root_index(top, 0);
    &&& 0 <= at < top.len()
    &&& clean_group(top[at])
    &&& top[at].1->Array_0.len() == 1
    &&& forall|i: int| 0 <= i < top.len() && i != at ==> is_top_key((#[trigger] top[i]).0)
    &&& !conventional(top[at].0)
}

/// Whether a document reads back as it was written: its entries stand in the
/// order in which the reader collects them, and what it holds stays as it is.
pub open spec fn is_clean_document(t: Tree) -> bool {
    match t {
        Tree::Object(top) => {
            &&& unique_keys(top)
            &&& clean_declaration(top)
            &&& clean_list(ListKind::Instructions, lookup(top, "#pi"@))
            &&& clean_list(ListKind::Comments, lookup(top, "#comments"@))
            &&& clean_root(top)
            &&& xml_value(state_of(top)) == t
        },
        _ => false,
    }
}

/// Whether bytes are what is written of a document that reads back.
pub open spec fn spells_xml(bytes: Seq<u8>, t: Tree) -> bool {
    is_clean_document(t) && xml_rendered(t) == Ok::<Seq<u8>, Fault>(bytes)
}

spec fn declaration_marks(top: Seq<(Seq<char>, Tree)>) -> Seq<Mark> {
    match lookup(top, "#xml"@) {
        Some(Tree::Object(d)) => {
            let parts = declared(d);
            seq![Mark::Declaration(parts.version->Some_0, parts.encoding, parts.standalone)]
        },
        _ => Seq::empty(),
    }
}

spec fn document_marks(top: Seq<(Seq<char>, Tree)>) -> Seq<Mark> {
    let at = root_index(top, 0);
    declaration_marks(top) + whole_list(
        ListKind::Instructions,
        lookup(top, "#pi"@),
        Seq::empty(),
        false,
    ) + whole_list(ListKind::Comments, lookup(top, "#comments"@), Seq::empty(), false)
        + element_marks(top[at].0, top[at].1->Array_0[0]->Object_0, Seq::empty())
}

proof fn lemma_declaration_marks(top: Seq<(Seq<char>, Tree)>)
    requires
        clean_declaration(top),
    ensures
        are_sound(declaration_marks(top)),
        keeps_open(declaration_marks(top)),
        starts_marked(declaration_marks(top)),
        ends_marked(declaration_marks(top)),
        marks_bytes(declaration_marks(top)) == declaration_bytes(top),
{
    match lookup(top, "#xml"@) {
        Some(Tree::Object(d)) => {
            let parts = declared(d);
            lemma_single(
                Mark::Declaration(parts.version->Some_0, parts.encoding, parts.standalone),
            );
        },
        _ => {
            lemma_nothing();
        },
    }
}

/// The pieces of a document are what is written of it.
proof fn lemma_document(top: Seq<(Seq<char>, Tree)>)
    requires
        is_clean_document(Tree::Object(top)),
    ensures
        xml_rendered(Tree::Object(top)) == Ok::<Seq<u8>, Fault>(
            marks_bytes(document_marks(top)),
        ),
        spells_marks(
            marks_text(document_marks(top), document_marks(top).len() as int),
            document_marks(top),
        ),
{
    let at = root_index(top, 0);
    let tag = top[at].0;
    let items = top[at].1->Array_0;
    let none = Seq::<char>::empty();
    assert(is_clean(items[0]));
    let body = items[0]->Object_0;
    assert(items[0] == Tree::Object(body));
    let a = declaration_marks(top);
    let b = whole_list(ListKind::Instructions, lookup(top, "#pi"@), none, false);
    let c = whole_list(ListKind::Comments, lookup(top, "#comments"@), none, false);
    let d = element_marks(tag, body, none);
    lemma_declaration_marks(top);
    lemma_whole_list(ListKind::Instructions, lookup(top, "#pi"@), none, false);
    lemma_whole_list(ListKind::Comments, lookup(top, "#comments"@), none, false);
    lemma_element(tag, body, none);
    lemma_joined(a, b);
    lemma_joined(a + b, c);
    lemma_joined(a + b + c, d);
    let all = a + b + c + d;
    assert(open_tags(Seq::empty(), all, all.len() as int) == Some(Seq::<Seq<char>>::empty()));
    assert(words_apart(all));
    assert forall|i: int| 0 <= i < at implies (#[trigger] top[i]).0 != tag by {
        assert(top[i].0 != top[at].0);
    }
    lemma_key_index_is(top, tag, at);
    assert(lookup(top, tag) == Some(top[at].1));
    lemma_no_stray(top, at, 0);
}

proof fn lemma_no_stray(top: Seq<(Seq<char>, Tree)>, at: int, k: int)
    requires
        forall|i: int| 0 <= i < top.len() && i != at ==> is_top_key((#[trigger] top[i]).0),
        0 <= k <= top.len(),
    ensures
        stray_index(top, at, k) == top.len(),
    decreases top.len() - k,
{
    if k < top.len() {
        if k != at {
            assert(is_top_key(top[k].0));
        }
        lemma_no_stray(top, at, k + 1);
    }
}

/// A list at the top adds its items there.
proof fn lemma_top_list(m: XmlModel, kind: ListKind, items: Seq<Seq<char>>, k: int)
    requires
        kind == ListKind::Comments || kind == ListKind::Instructions,
        forall|i: int| 0 <= i < items.len() ==> clean_item(kind, #[trigger] items[i]),
        0 <= k <= items.len(),
        m.stack.len() == 0,
    ensures
        after(m, list_marks(kind, items, k, Seq::empty(), false)) == (if kind
            == ListKind::Comments {
            XmlModel { comments: m.comments + items.subrange(0, k), ..m }
        } else {
            XmlModel { pi: m.pi + items.subrange(0, k), ..m }
        }),
    decreases k,
{
    let none = Seq::<char>::empty();
    if k == 0 {
        assert(items.subrange(0, 0) =~= Seq::<Seq<char>>::empty());
        assert(m.comments + Seq::<Seq<char>>::empty() =~= m.comments);
        assert(m.pi + Seq::<Seq<char>>::empty() =~= m.pi);
    } else {
        lemma_top_list(m, kind, items, k - 1);
        let before = list_marks(kind, items, k - 1, none, false);
        let mark = item_mark(kind, items[k - 1]);
        assert(before + break_marks(none, false) =~= before);
        lemma_after_add(m, before, seq![mark]);
        lemma_after_one(after(m, before), mark);
        assert(clean_item(kind, items[k - 1]));
        if kind == ListKind::Comments {
            lemma_line_ends(items[k - 1]);
        }
        let all = items.subrange(0, k);
        let some = items.subrange(0, k - 1);
        assert(all =~= some.push(items[k - 1]));
        assert(m.comments + all =~= (m.comments + some).push(items[k - 1]));
        assert(m.pi + all =~= (m.pi + some).push(items[k - 1]));
    }
}

proof fn lemma_top_whole(m: XmlModel, kind: ListKind, list: Option<Tree>)
    requires
        kind == ListKind::Comments || kind == ListKind::Instructions,
        clean_list(kind, list),
        m.stack.len() == 0,
    ensures
        after(m, whole_list(kind, list, Seq::empty(), false)) == (if kind == ListKind::Comments {
            XmlModel { comments: m.comments + list_texts(list), ..m }
        } else {
            XmlModel { pi: m.pi + list_texts(list), ..m }
        }),
{
    let items = list_texts(list);
    assert forall|i: int| 0 <= i < items.len() implies clean_item(kind, #[trigger] items[i]) by {
        let all = list->Some_0->Array_0;
        assert(all[i] is String);
    }
    lemma_top_list(m, kind, items, items.len() as int);
    assert(items.subrange(0, items.len() as int) =~= items);
}

proof fn lemma_one_group(top: Seq<(Seq<char>, Tree)>, k: int)
    requires
        clean_root(top),
        0 <= k <= top.len(),
    ensures
        child_groups(top, k) == (if k <= root_index(top, 0) {
            Seq::empty()
        } else {
            seq![(top[root_index(top, 0)].0, top[root_index(top, 0)].1->Array_0)]
        }),
    decreases k,
{
    let at = root_index(top, 0);
    if k > 0 {
        lemma_one_group(top, k - 1);
        if k - 1 != at {
            assert(is_top_key(top[k - 1].0));
        } else {
            let one = (top[at].0, top[at].1->Array_0);
            assert(Seq::<(Seq<char>, Seq<Tree>)>::empty().push(one) =~= seq![one]);
        }
    }
}

/// Playing the pieces of a document collects what it holds.
proof fn lemma_document_played(top: Seq<(Seq<char>, Tree)>)
    requires
        is_clean_document(Tree::Object(top)),
    ensures
        after(xml_start(), document_marks(top)) == state_of(top),
        group_total(state_of(top).children, state_of(top).children.len() as int) == 1,
{
    let at = root_index(top, 0);
    let tag = top[at].0;
    let items = top[at].1->Array_0;
    let none = Seq::<char>::empty();
    assert(is_clean(items[0]));
    let body = items[0]->Object_0;
    assert(items[0] == Tree::Object(body));
    let a = declaration_marks(top);
    let b = whole_list(ListKind::Instructions, lookup(top, "#pi"@), none, false);
    let c = whole_list(ListKind::Comments, lookup(top, "#comments"@), none, false);
    let d = element_marks(tag, body, none);
    let goal = state_of(top);
    let m0 = xml_start();
    let m1 = XmlModel { top: goal.top, ..m0 };
    match lookup(top, "#xml"@) {
        Some(Tree::Object(entries)) => {
            let parts = declared(entries);
            let mark = Mark::Declaration(
                parts.version->Some_0,
                parts.encoding,
                parts.standalone,
            );
            lemma_after_one(m0, mark);
            let empty = Seq::<(Seq<char>, Tree)>::empty();
            assert(!has_key(empty, "#xml"@));
            assert(empty.push(("#xml"@, Tree::Object(entries))) =~= seq![
                ("#xml"@, Tree::Object(entries)),
            ]);
            assert(parts == (DeclModel {
                version: Some(parts.version->Some_0),
                encoding: parts.encoding,
                standalone: parts.standalone,
            }));
            assert(after(m0, a) == m1);
        },
        _ => {
            assert(after(m0, a) == m0);
            assert(m0.top =~= goal.top);
        },
    }
    lemma_after_add(m0, a, b);
    lemma_top_whole(m1, ListKind::Instructions, lookup(top, "#pi"@));
    let m2 = XmlModel { pi: m1.pi + goal.pi, ..m1 };
    assert(m1.pi + goal.pi =~= goal.pi);
    lemma_after_add(m0, a + b, c);
    lemma_top_whole(m2, ListKind::Comments, lookup(top, "#comments"@));
    let m3 = XmlModel { comments: m2.comments + goal.comments, ..m2 };
    assert(m2.comments + goal.comments =~= goal.comments);
    lemma_after_add(m0, a + b + c, d);
    lemma_element_played(m3, tag, body, none);
    lemma_one_group(top, top.len() as int);
    let no_groups = Seq::<(Seq<char>, Seq<Tree>)>::empty();
    assert(!has_key(no_groups, tag));
    lemma_group_started(no_groups, tag, items[0]);
    assert(items =~= seq![items[0]]);
    assert(no_groups.push((tag, items)) =~= seq![(tag, items)]);
    assert(child_added(m3, tag, items[0]).children =~= goal.children);
    assert(group_total(goal.children, 0) == 0);
}

/// A reading of what is written of a clean document comes to that document.
proof fn lemma_reads_back(text: Seq<char>, reading: XmlReading, t: Tree)
    requires
        is_clean_document(t),
        text == marks_text(document_marks(t->Object_0), document_marks(t->Object_0).len() as int),
        gives_marks(text, reading),
    ensures
        xml_outcome(text, reading) matches Ok((value, _)) && value == t,
{
    let top = t->Object_0;
    assert(t == Tree::Object(top));
    let marks = document_marks(top);
    lemma_document(top);
    lemma_document_played(top);
    assert(spells_marks(text, marks));
    lemma_run(text, reading.events, marks, marks.len() as int);
    let m = xml_run(text, reading.events, marks.len() as int)->Ok_0;
    assert(bare_state(m) == state_of(top));
    assert(m.top == bare_state(m).top);
    assert(m.children == bare_state(m).children);
    assert(m.pi == bare_state(m).pi);
    assert(m.comments == bare_state(m).comments);
    assert(xml_value(m) == xml_value(state_of(top)));
}

/// The bytes of a clean document are text, and what the reader makes of that
/// text comes to the document.
pub proof fn lemma_spelled_reads(bytes: Seq<u8>)
    ensures
        forall|t: Tree| #[trigger]
            spells_xml(bytes, t) ==> valid_utf8(bytes) && forall|reading: XmlReading|
                gives_marks(decode_utf8(bytes), reading) ==> (#[trigger] xml_outcome(
                    decode_utf8(bytes),
                    reading,
                ) matches Ok((value, _)) && value == t),
{
    assert forall|t: Tree| #[trigger] spells_xml(bytes, t) implies valid_utf8(bytes)
        && forall|reading: XmlReading|
        gives_marks(decode_utf8(bytes), reading) ==> (#[trigger] xml_outcome(
            decode_utf8(bytes),
            reading,
        ) matches Ok((value, _)) && value == t) by {
        let top = t->Object_0;
        assert(t == Tree::Object(top));
        let marks = document_marks(top);
        let text = marks_text(marks, marks.len() as int);
        lemma_document(top);
        encode_utf8_valid_utf8(text);
        encode_utf8_decode_utf8(text);
        assert forall|reading: XmlReading| gives_marks(decode_utf8(bytes), reading) implies (
        #[trigger] xml_outcome(decode_utf8(bytes), reading) matches Ok((value, _)) && value
            == t) by {
            lemma_reads_back(text, reading, t);
        }
    }
}

/// A document that reads back is written to the end. Parsing what is written
/// gives it back.
pub proof fn law_clean_document_is_written(t: Tree)
    requires
        is_clean_document(t),
    ensures
        xml_rendered(t) matches Ok(bytes) && spells_xml(bytes, t),
{
    let top = t->Object_0;
    assert(t == Tree::Object(top));
    lemma_document(top);
}

} // verus!
