//! What pieces of markup come to when they are read.

use crate::parsers::json_spelling::lemma_encode_two;
use crate::parsers::xml_events::{
    line_ends_normalised, predefined_entity, DeclModel, XmlPiece,
};
use crate::parsers::xml_marks::{
    declaration_content, is_plain, mark_content, mark_kind, open_tags, same_marks, tags_behind,
    Mark,
};
use crate::parsers::xml_read::{
    child_added, closed, comment_added, declaration_entries, element_path_of, element_seen,
    finalised, grouped, opened, pi_added, text_added, with_last, xml_run, xml_start, xml_step,
    FrameModel, NoteModel, XmlModel,
};
use crate::parsers::xml_tags::{attr_entries, lemma_declaration_read, lemma_tag_read};
use crate::text::trim;
use crate::value::{inserted, Tree};
use vstd::prelude::*;
use vstd::utf8::{encode_utf8, is_ascii_chars, is_ascii_chars_encode_utf8};

verus! {

/// An open element without what it remembers for notes.
pub open spec fn bare_frame(f: FrameModel) -> FrameModel {
    FrameModel { saw_element: false, saw_mixed: false, ..f }
}

/// The open elements without what they remember for notes.
pub open spec fn bare_stack(stack: Seq<FrameModel>) -> Seq<FrameModel> {
    Seq::new(stack.len(), |i: int| bare_frame(stack[i]))
}

/// A state without notes, and without what is remembered for them.
pub open spec fn bare_state(m: XmlModel) -> XmlModel {
    XmlModel { notes: Seq::empty(), stack: bare_stack(m.stack), ..m }
}

/// The state with an element open.
pub open spec fn with_open(m: XmlModel, f: FrameModel) -> XmlModel {
    XmlModel { stack: m.stack.push(f), ..m }
}

/// The innermost open element, where there is one, has got more text.
pub open spec fn words_added(m: XmlModel, text: Seq<char>, counts: bool) -> XmlModel {
    if m.stack.len() > 0 {
        let f = m.stack.last();
        with_last(m, FrameModel { text: f.text + text, has_text: f.has_text || counts, ..f })
    } else {
        m
    }
}

/// The innermost open element, where there is one, has got a CDATA block.
pub open spec fn verbatim_added(m: XmlModel, s: Seq<char>) -> XmlModel {
    if m.stack.len() > 0 {
        let f = m.stack.last();
        with_last(m, FrameModel { cdata: f.cdata.push(s), ..f })
    } else {
        m
    }
}

/// What one piece makes of a state without notes.
pub open spec fn played(m: XmlModel, mark: Mark) -> XmlModel {
    match mark {
        Mark::Opening(tag, attrs) => with_open(m, opened(tag, attr_entries(attrs))),
        Mark::Lone(tag, attrs) => child_added(m, tag, finalised(opened(tag, attr_entries(attrs)))),
        Mark::Closing(_) => child_added(
            XmlModel { stack: m.stack.drop_last(), ..m },
            m.stack.last().tag,
            finalised(m.stack.last()),
        ),
        Mark::Words(s) => words_added(
            m,
            line_ends_normalised(s),
            trim(line_ends_normalised(s)).len() > 0,
        ),
        Mark::Reference(name) => words_added(m, predefined_entity(name)->Some_0, true),
        Mark::Remark(s) => comment_added(m, line_ends_normalised(s)),
        Mark::Processing(s) => pi_added(m, s),
        Mark::Verbatim(s) => verbatim_added(m, s),
        Mark::Declaration(v, e, s) => if m.stack.len() > 0 {
            pi_added(m, declaration_content(v, e, s))
        } else {
            XmlModel {
                top: inserted(
                    m.top,
                    "#xml"@,
                    Tree::Object(
                        declaration_entries(
                            DeclModel { version: Some(v), encoding: e, standalone: s },
                        ),
                    ),
                ),
                ..m
            }
        },
    }
}

/// What the first `k` pieces make of a state without notes.
pub open spec fn played_all(m: XmlModel, marks: Seq<Mark>, k: int) -> XmlModel
    decreases k,
{
    if k <= 0 {
        m
    } else {
        played(played_all(m, marks, k - 1), marks[k - 1])
    }
}

/// The tags of open elements.
pub open spec fn stack_tags(stack: Seq<FrameModel>) -> Seq<Seq<char>> {
    Seq::new(stack.len(), |i: int| stack[i].tag)
}

proof fn lemma_bare_last(m: XmlModel, f: FrameModel)
    requires
        m.stack.len() > 0,
    ensures
        bare_state(with_last(m, f)) == with_last(bare_state(m), bare_frame(f)),
        bare_state(m).stack.last() == bare_frame(m.stack.last()),
        stack_tags(with_last(m, f).stack) == stack_tags(m.stack).update(
            m.stack.len() - 1,
            f.tag,
        ),
{
    assert(bare_stack(with_last(m, f).stack) =~= with_last(bare_state(m), bare_frame(f)).stack);
    assert(stack_tags(with_last(m, f).stack) =~= stack_tags(m.stack).update(
        m.stack.len() - 1,
        f.tag,
    ));
}

proof fn lemma_same_tags(m: XmlModel, f: FrameModel)
    requires
        m.stack.len() > 0,
        f.tag == m.stack.last().tag,
    ensures
        stack_tags(with_last(m, f).stack) == stack_tags(m.stack),
{
    assert(stack_tags(with_last(m, f).stack) =~= stack_tags(m.stack));
}

proof fn lemma_bare_seen(m: XmlModel)
    ensures
        bare_state(element_seen(m)) == bare_state(m),
        stack_tags(element_seen(m).stack) == stack_tags(m.stack),
        element_seen(m).stack.len() == m.stack.len(),
{
    if m.stack.len() > 0 {
        let f = m.stack.last();
        let g = FrameModel { saw_element: true, saw_mixed: f.saw_mixed || f.has_text, ..f };
        lemma_bare_last(m, g);
        lemma_same_tags(m, g);
        assert(with_last(bare_state(m), bare_frame(g)).stack =~= bare_state(m).stack);
    }
}

proof fn lemma_bare_child(m: XmlModel, tag: Seq<char>, child: Tree)
    ensures
        bare_state(child_added(m, tag, child)) == child_added(bare_state(m), tag, child),
        stack_tags(child_added(m, tag, child).stack) == stack_tags(m.stack),
{
    if m.stack.len() > 0 {
        let f = m.stack.last();
        let g = FrameModel {
            children: grouped(f.children, tag, child),
            ..f
        };
        lemma_bare_last(m, g);
        lemma_same_tags(m, g);
    }
}

proof fn lemma_bare_closed(m: XmlModel, f: FrameModel)
    ensures
        bare_state(closed(m, f)) == child_added(bare_state(m), f.tag, finalised(bare_frame(f))),
        stack_tags(closed(m, f).stack) == stack_tags(m.stack),
{
    let noted = if f.saw_mixed {
        XmlModel {
            notes: m.notes.push(
                NoteModel::MixedContent(
                    element_path_of(m.stack, f.tag),
                ),
            ),
            ..m
        }
    } else {
        m
    };
    lemma_bare_child(noted, f.tag, finalised(f));
    assert(bare_state(noted) == bare_state(m));
    assert(finalised(f) == finalised(bare_frame(f)));
}

proof fn lemma_entity_names(name: Seq<char>)
    requires
        predefined_entity(name) is Some,
    ensures
        name.len() > 0,
        name[0] != '#',
{
    reveal_strlit("lt");
    reveal_strlit("gt");
    reveal_strlit("amp");
    reveal_strlit("apos");
    reveal_strlit("quot");
}

proof fn lemma_declaration_long(v: Seq<char>, e: Option<Seq<char>>, s: Option<Seq<char>>)
    ensures
        encode_utf8(declaration_content(v, e, s)).len() >= 3,
{
    let content = declaration_content(v, e, s);
    let head = "xml version=\""@;
    reveal_strlit("xml version=\"");
    let rest = content.subrange(head.len() as int, content.len() as int);
    assert(content =~= head + rest);
    lemma_encode_two(head, rest);
    assert(is_ascii_chars(head));
    is_ascii_chars_encode_utf8(head);
}

/// Reading the event of a piece does to the state what playing the piece does,
/// but for notes.
#[verifier::spinoff_prover]
proof fn lemma_step(m: XmlModel, text: Seq<char>, e: XmlPiece, mark: Mark)
    requires
        is_plain(mark),
        e.kind == mark_kind(mark),
        e.content == mark_content(mark),
        tags_behind(stack_tags(m.stack), mark) is Some,
    ensures
        xml_step(m, text, e) matches Ok(next) && bare_state(next) == played(bare_state(m), mark)
            && Some(stack_tags(next.stack)) == tags_behind(stack_tags(m.stack), mark),
{
    match mark {
        Mark::Opening(tag, attrs) => {
            lemma_tag_read(tag, attrs);
            lemma_bare_seen(m);
            let f = opened(tag, attr_entries(attrs));
            let seen = element_seen(m);
            let next = XmlModel { stack: seen.stack.push(f), ..seen };
            assert(bare_stack(next.stack) =~= bare_stack(seen.stack).push(f));
            assert(bare_stack(seen.stack) == bare_stack(m.stack));
            assert(bare_state(next) == with_open(bare_state(m), f));
            assert(stack_tags(next.stack) =~= stack_tags(m.stack).push(tag));
        },
        Mark::Lone(tag, attrs) => {
            lemma_tag_read(tag, attrs);
            lemma_bare_seen(m);
            lemma_bare_closed(element_seen(m), opened(tag, attr_entries(attrs)));
            assert(bare_frame(opened(tag, attr_entries(attrs))) == opened(
                tag,
                attr_entries(attrs),
            ));
        },
        Mark::Closing(tag) => {
            let f = m.stack.last();
            assert(stack_tags(m.stack).last() == f.tag);
            let popped = XmlModel { stack: m.stack.drop_last(), ..m };
            lemma_bare_closed(popped, f);
            assert(bare_stack(popped.stack) =~= bare_stack(m.stack).drop_last());
            assert(bare_state(m).stack.last() == bare_frame(f));
            assert(stack_tags(popped.stack) =~= stack_tags(m.stack).drop_last());
        },
        Mark::Words(s) => {
            lemma_text(m, line_ends_normalised(s), trim(line_ends_normalised(s)).len() > 0);
        },
        Mark::Reference(name) => {
            lemma_entity_names(name);
            lemma_text(m, predefined_entity(name)->Some_0, true);
        },
        Mark::Remark(s) => {
            let c = line_ends_normalised(s);
            if m.stack.len() > 0 {
                let g = FrameModel { comments: m.stack.last().comments.push(c), ..m.stack.last() };
                lemma_bare_last(m, g);
                lemma_same_tags(m, g);
            }
        },
        Mark::Processing(s) => {
            if m.stack.len() > 0 {
                let g = FrameModel { pi: m.stack.last().pi.push(s), ..m.stack.last() };
                lemma_bare_last(m, g);
                lemma_same_tags(m, g);
            }
        },
        Mark::Verbatim(s) => {
            if m.stack.len() > 0 {
                let g = FrameModel { cdata: m.stack.last().cdata.push(s), ..m.stack.last() };
                lemma_bare_last(m, g);
                lemma_same_tags(m, g);
            }
        },
        Mark::Declaration(v, enc, s) => {
            if m.stack.len() > 0 {
                let g = FrameModel { pi: m.stack.last().pi.push(e.content), ..m.stack.last() };
                lemma_bare_last(m, g);
                lemma_same_tags(m, g);
            } else {
                lemma_declaration_long(v, enc, s);
                lemma_declaration_read(
                    DeclModel { version: Some(v), encoding: enc, standalone: s },
                );
            }
        },
    }
}

proof fn lemma_text(m: XmlModel, text: Seq<char>, counts: bool)
    ensures
        bare_state(text_added(m, text, counts)) == words_added(bare_state(m), text, counts),
        stack_tags(text_added(m, text, counts).stack) == stack_tags(m.stack),
{
    if m.stack.len() > 0 {
        let f = m.stack.last();
        let g = FrameModel {
            text: f.text + text,
            has_text: f.has_text || counts,
            saw_mixed: f.saw_mixed || (counts && f.saw_element),
            ..f
        };
        lemma_bare_last(m, g);
        lemma_same_tags(m, g);
    }
}

/// Reading the events of pieces comes to what playing the pieces does, but for
/// notes.
pub proof fn lemma_run(text: Seq<char>, events: Seq<XmlPiece>, marks: Seq<Mark>, k: int)
    requires
        same_marks(events, marks),
        forall|i: int| 0 <= i < marks.len() ==> is_plain(#[trigger] marks[i]),
        open_tags(Seq::empty(), marks, k) is Some,
        0 <= k <= marks.len(),
    ensures
        xml_run(text, events, k) matches Ok(m) && bare_state(m) == played_all(
            xml_start(),
            marks,
            k,
        ) && Some(stack_tags(m.stack)) == open_tags(Seq::empty(), marks, k),
    decreases k,
{
    if k == 0 {
        assert(bare_stack(xml_start().stack) =~= xml_start().stack);
        assert(stack_tags(xml_start().stack) =~= Seq::<Seq<char>>::empty());
    } else {
        lemma_run(text, events, marks, k - 1);
        let m = xml_run(text, events, k - 1)->Ok_0;
        assert(is_plain(marks[k - 1]));
        assert(events[k - 1].kind == mark_kind(marks[k - 1]));
        lemma_step(m, text, events[k - 1], marks[k - 1]);
    }
}

} // verus!
