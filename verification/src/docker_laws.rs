//! The rows of a Dockerfile hold what its instructions say.

use crate::parsers::dockerfile::{
    default_entries, default_tree, docker_rows, instruction_of, instruction_row, pair_entries,
};
use crate::parsers::dockerfile_lines::LineModel;
use crate::value::{
    has_key, inserted, law_insert_keeps_keys_unique, law_insert_lookup, lookup, unique_keys, Tree,
};
use vstd::prelude::*;

verus! {

/// How many of the first `k` lines are instructions.
pub open spec fn instructions_before(lines: Seq<LineModel>, k: int) -> int
    decreases k,
{
    if k <= 0 {
        0
    } else {
        instructions_before(lines, k - 1) + if lines[k - 1] is Nothing {
            0int
        } else {
            1int
        }
    }
}

/// Whether a value is a list of texts: a single one as it is, any other number
/// of them as an array, in order.
pub open spec fn is_words(t: Tree, items: Seq<Seq<char>>) -> bool {
    if items.len() == 1 {
        t == Tree::String(items[0])
    } else {
        &&& t matches Tree::Array(shown)
        &&& shown.len() == items.len()
        &&& forall|i: int| 0 <= i < items.len() ==> #[trigger] shown[i] == Tree::String(items[i])
    }
}

/// Whether a value is the sources of a copy, in order, and behind them its
/// destination.
pub open spec fn is_copy(t: Tree, sources: Seq<Seq<char>>, to: Seq<char>) -> bool {
    if sources.len() == 0 {
        t == Tree::String(to)
    } else {
        &&& t matches Tree::Array(shown)
        &&& shown.len() == sources.len() + 1
        &&& forall|i: int|
            0 <= i < sources.len() ==> #[trigger] shown[i] == Tree::String(sources[i])
        &&& shown.last() == Tree::String(to)
    }
}

/// Whether a value is a text and behind it, where there is one, another that a
/// mark sets apart.
pub open spec fn is_marked(t: Tree, text: Seq<char>, mark: Seq<char>, more: Option<Seq<char>>) -> bool {
    match more {
        None => t == Tree::String(text),
        Some(name) => {
            &&& t matches Tree::String(whole)
            &&& whole.len() == text.len() + mark.len() + name.len()
            &&& whole.subrange(0, text.len() as int) == text
            &&& whole.subrange(text.len() as int, text.len() as int + mark.len()) == mark
            &&& whole.subrange(text.len() as int + mark.len(), whole.len() as int) == name
        },
    }
}

/// Whether a value is an object with the last value of every name, and no other
/// name.
pub open spec fn is_last_of_each<T>(
    t: Tree,
    pairs: Seq<(Seq<char>, T)>,
    shown: spec_fn(T) -> Tree,
) -> bool {
    &&& t matches Tree::Object(entries)
    &&& unique_keys(entries)
    &&& forall|i: int|
        0 <= i < pairs.len() && (forall|j: int|
            i < j < pairs.len() ==> (#[trigger] pairs[j]).0 != pairs[i].0) ==> lookup(
            entries,
            (#[trigger] pairs[i]).0,
        ) == Some(shown(pairs[i].1))
    &&& forall|key: Seq<char>| #[trigger]
        has_key(entries, key) ==> exists|i: int|
            0 <= i < pairs.len() && (#[trigger] pairs[i]).0 == key
}

/// Whether a value is what an instruction says: every text that it carries, in
/// order.
pub open spec fn says(t: Tree, line: LineModel) -> bool {
    match line {
        LineModel::Nothing => true,
        LineModel::From(image, alias) => is_marked(t, image, seq![' ', 'A', 'S', ' '], alias),
        LineModel::Run(command, heredoc) => match heredoc {
            Some(lines) => is_words(t, command + lines),
            None => is_words(t, command),
        },
        LineModel::Cmd(items) => is_words(t, items),
        LineModel::Entrypoint(items) => is_words(t, items),
        LineModel::Shell(items) => is_words(t, items),
        LineModel::Copy(sources, to) => is_copy(t, sources, to),
        LineModel::Add(sources, to) => is_copy(t, sources, to),
        LineModel::Workdir(path) => t == Tree::String(path),
        LineModel::User(user, group) => is_marked(t, user, seq![':'], group),
        LineModel::Stopsignal(signal) => t == Tree::String(signal),
        LineModel::Expose(items) => is_words(t, items),
        LineModel::Volume(items) => is_words(t, items),
        LineModel::Env(pairs) => is_last_of_each(t, pairs, |s: Seq<char>| Tree::String(s)),
        LineModel::Label(pairs) => is_last_of_each(t, pairs, |s: Seq<char>| Tree::String(s)),
        LineModel::Arg(pairs) => is_last_of_each(
            t,
            pairs,
            |s: Option<Seq<char>>|
                match s {
                    Some(text) => Tree::String(text),
                    None => Tree::Null,
                },
        ),
    }
}

/// The word that an instruction starts with.
pub open spec fn keyword(line: LineModel) -> Seq<char> {
    match line {
        LineModel::Nothing => ""@,
        LineModel::From(_, _) => "FROM"@,
        LineModel::Run(_, _) => "RUN"@,
        LineModel::Cmd(_) => "CMD"@,
        LineModel::Entrypoint(_) => "ENTRYPOINT"@,
        LineModel::Shell(_) => "SHELL"@,
        LineModel::Copy(_, _) => "COPY"@,
        LineModel::Add(_, _) => "ADD"@,
        LineModel::Workdir(_) => "WORKDIR"@,
        LineModel::User(_, _) => "USER"@,
        LineModel::Stopsignal(_) => "STOPSIGNAL"@,
        LineModel::Expose(_) => "EXPOSE"@,
        LineModel::Volume(_) => "VOLUME"@,
        LineModel::Env(_) => "ENV"@,
        LineModel::Label(_) => "LABEL"@,
        LineModel::Arg(_) => "ARG"@,
    }
}

/// Whether a row is that of an instruction with the given number.
pub open spec fn is_row_of(row: Tree, line: LineModel, number: int) -> bool {
    &&& row matches Tree::Object(entries)
    &&& lookup(entries, "instruction"@) == Some(Tree::String(keyword(line)))
    &&& lookup(entries, "line"@) == Some(Tree::Int(number))
    &&& lookup(entries, "arguments"@) matches Some(arguments)
    &&& says(arguments, line)
}

proof fn lemma_pairs(pairs: Seq<(Seq<char>, Seq<char>)>, k: int)
    requires
        0 <= k <= pairs.len(),
    ensures
        is_last_of_each(
            Tree::Object(pair_entries(pairs, k)),
            pairs.subrange(0, k),
            |s: Seq<char>| Tree::String(s),
        ),
    decreases k,
{
    let entries = pair_entries(pairs, k);
    let part = pairs.subrange(0, k);
    if k > 0 {
        lemma_pairs(pairs, k - 1);
        let before = pair_entries(pairs, k - 1);
        let less = pairs.subrange(0, k - 1);
        let (name, text) = pairs[k - 1];
        law_insert_keeps_keys_unique(before, name, Tree::String(text));
        law_insert_lookup(before, name, Tree::String(text), name);
        assert forall|i: int|
            0 <= i < part.len() && (forall|j: int|
                i < j < part.len() ==> (#[trigger] part[j]).0 != part[i].0) implies lookup(
            entries,
            (#[trigger] part[i]).0,
        ) == Some(Tree::String(part[i].1)) by {
            if i < k - 1 {
                assert(part[k - 1].0 != part[i].0);
                law_insert_lookup(before, name, Tree::String(text), part[i].0);
                assert(less[i] == part[i]);
                assert forall|j: int| i < j < less.len() implies (#[trigger] less[j]).0
                    != less[i].0 by {
                    assert(part[j].0 != part[i].0);
                }
            }
        }
        assert forall|key: Seq<char>| #[trigger] has_key(entries, key) implies exists|i: int|
            0 <= i < part.len() && (#[trigger] part[i]).0 == key by {
            if key == name {
                assert(part[k - 1].0 == key);
            } else {
                law_insert_lookup(before, name, Tree::String(text), key);
                assert(lookup(entries, key) is Some);
                assert(has_key(before, key));
                let i = choose|i: int| 0 <= i < less.len() && (#[trigger] less[i]).0 == key;
                assert(part[i].0 == key);
            }
        }
    }
}

proof fn lemma_defaults(pairs: Seq<(Seq<char>, Option<Seq<char>>)>, k: int)
    requires
        0 <= k <= pairs.len(),
    ensures
        is_last_of_each(
            Tree::Object(default_entries(pairs, k)),
            pairs.subrange(0, k),
            |s: Option<Seq<char>>|
                match s {
                    Some(text) => Tree::String(text),
                    None => Tree::Null,
                },
        ),
    decreases k,
{
    let entries = default_entries(pairs, k);
    let part = pairs.subrange(0, k);
    if k > 0 {
        lemma_defaults(pairs, k - 1);
        let before = default_entries(pairs, k - 1);
        let less = pairs.subrange(0, k - 1);
        let (name, text) = pairs[k - 1];
        let value = default_tree(text);
        law_insert_keeps_keys_unique(before, name, value);
        law_insert_lookup(before, name, value, name);
        assert forall|i: int|
            0 <= i < part.len() && (forall|j: int|
                i < j < part.len() ==> (#[trigger] part[j]).0 != part[i].0) implies lookup(
            entries,
            (#[trigger] part[i]).0,
        ) == Some(
            match part[i].1 {
                Some(text) => Tree::String(text),
                None => Tree::Null,
            },
        ) by {
            if i < k - 1 {
                assert(part[k - 1].0 != part[i].0);
                law_insert_lookup(before, name, value, part[i].0);
                assert(less[i] == part[i]);
                assert forall|j: int| i < j < less.len() implies (#[trigger] less[j]).0
                    != less[i].0 by {
                    assert(part[j].0 != part[i].0);
                }
            }
        }
        assert forall|key: Seq<char>| #[trigger] has_key(entries, key) implies exists|i: int|
            0 <= i < part.len() && (#[trigger] part[i]).0 == key by {
            if key == name {
                assert(part[k - 1].0 == key);
            } else {
                law_insert_lookup(before, name, value, key);
                assert(lookup(entries, key) is Some);
                assert(has_key(before, key));
                let i = choose|i: int| 0 <= i < less.len() && (#[trigger] less[i]).0 == key;
                assert(part[i].0 == key);
            }
        }
    }
}

proof fn lemma_instruction(line: LineModel)
    requires
        !(line is Nothing),
    ensures
        ({
            &&& instruction_of(line) matches Some((name, arguments))
            &&& name == keyword(line)
            &&& says(arguments, line)
        }),
{
    let arguments = instruction_of(line)->Some_0.1;
    match line {
        LineModel::From(image, alias) => {
            reveal_strlit(" AS ");
            let mark = seq![' ', 'A', 'S', ' '];
            assert(mark =~= " AS "@);
            if let Some(name) = alias {
                let whole = image + mark + name;
                assert(whole.subrange(0, image.len() as int) =~= image);
                assert(whole.subrange(image.len() as int, image.len() as int + 4) =~= mark);
                assert(whole.subrange(image.len() as int + 4, whole.len() as int) =~= name);
            }
        },
        LineModel::User(user, group) => {
            reveal_strlit(":");
            let mark = seq![':'];
            assert(mark =~= ":"@);
            if let Some(name) = group {
                let whole = user + mark + name;
                assert(whole.subrange(0, user.len() as int) =~= user);
                assert(whole.subrange(user.len() as int, user.len() as int + 1) =~= mark);
                assert(whole.subrange(user.len() as int + 1, whole.len() as int) =~= name);
            }
        },
        LineModel::Env(pairs) | LineModel::Label(pairs) => {
            lemma_pairs(pairs, pairs.len() as int);
            assert(pairs.subrange(0, pairs.len() as int) =~= pairs);
        },
        LineModel::Arg(pairs) => {
            lemma_defaults(pairs, pairs.len() as int);
            assert(pairs.subrange(0, pairs.len() as int) =~= pairs);
        },
        _ => {},
    }
}

proof fn lemma_row(line: LineModel, number: int)
    requires
        !(line is Nothing),
    ensures
        ({
            &&& instruction_of(line) matches Some((name, arguments))
            &&& is_row_of(instruction_row(name, arguments, number), line, number)
        }),
{
    lemma_instruction(line);
    reveal_strlit("instruction");
    reveal_strlit("arguments");
    reveal_strlit("line");
    assert("instruction"@.len() == 11 && "arguments"@.len() == 9 && "line"@.len() == 4);
    let (name, arguments) = instruction_of(line)->Some_0;
    let a = inserted(Seq::empty(), "instruction"@, Tree::String(name));
    let b = inserted(a, "arguments"@, arguments);
    law_insert_lookup(Seq::empty(), "instruction"@, Tree::String(name), "instruction"@);
    law_insert_lookup(a, "arguments"@, arguments, "arguments"@);
    law_insert_lookup(a, "arguments"@, arguments, "instruction"@);
    law_insert_lookup(b, "line"@, Tree::Int(number), "line"@);
    law_insert_lookup(b, "line"@, Tree::Int(number), "instruction"@);
    law_insert_lookup(b, "line"@, Tree::Int(number), "arguments"@);
}

proof fn lemma_counted(lines: Seq<LineModel>, k: int)
    requires
        0 <= k,
    ensures
        0 <= instructions_before(lines, k) <= k,
    decreases k,
{
    if k > 0 {
        lemma_counted(lines, k - 1);
    }
}

/// A Dockerfile has a row for each instruction, in order, and none for a comment
/// or an empty line. A row names its instruction, counts from one, and holds
/// every text that the instruction carries.
pub proof fn law_every_instruction_has_its_row(lines: Seq<LineModel>, k: int)
    requires
        0 <= k <= lines.len(),
        lines.len() < i64::MAX,
    ensures
        docker_rows(lines, k).0.len() == instructions_before(lines, k),
        docker_rows(lines, k).1 == instructions_before(lines, k),
        forall|i: int|
            0 <= i < k && !((#[trigger] lines[i]) is Nothing) ==> is_row_of(
                docker_rows(lines, k).0[instructions_before(lines, i)],
                lines[i],
                instructions_before(lines, i) + 1,
            ),
    decreases k,
{
    if k > 0 {
        law_every_instruction_has_its_row(lines, k - 1);
        lemma_counted(lines, k - 1);
        let (rows, number) = docker_rows(lines, k - 1);
        if !(lines[k - 1] is Nothing) {
            lemma_row(lines[k - 1], number + 1);
        }
        assert forall|i: int| 0 <= i < k && !((#[trigger] lines[i]) is Nothing) implies is_row_of(
            docker_rows(lines, k).0[instructions_before(lines, i)],
            lines[i],
            instructions_before(lines, i) + 1,
        ) by {
            if i < k - 1 {
                lemma_counts_grow(lines, i, k - 1);
            }
        }
    }
}

proof fn lemma_counts_grow(lines: Seq<LineModel>, i: int, k: int)
    requires
        0 <= i < k,
        !(lines[i] is Nothing),
    ensures
        0 <= instructions_before(lines, i) < instructions_before(lines, k),
    decreases k,
{
    lemma_counted(lines, i);
    if i < k - 1 {
        lemma_counts_grow(lines, i, k - 1);
    }
}

} // verus!
