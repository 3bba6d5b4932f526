//! Dockerfiles and Containerfiles, for reading only.
//!
//! A document is an array with an object for each instruction: its name under
//! `instruction`, what follows under `arguments`, and its number, counted from
//! one, under `line`. Comments and empty lines are left out.

use crate::document::{bare, DocModel, Document};
use crate::error::{
    format_fault, texts, unplaced_parse, unplaced_parse_error, Error, Fault,
};
use crate::format::{extension_list, Emission, Format};
use crate::format_tag::FormatTag;
use crate::parsers::dockerfile_lines::{
    default_pairs, docker_lines, line_models, maybe_text, read_docker_lines, DockerLine, LineModel,
};
use crate::parsers::ini_sections::text_pairs;
use crate::text::joined;
use crate::utf8_text::{checked_text, utf8_fault_text};
use crate::value::{
    inserted, lemma_array_view, lemma_object_view, trees, Tree, Value, ValueMap,
};
use crate::write_options::WriteOptions;
use vstd::prelude::*;
use vstd::utf8::{decode_utf8, valid_utf8};

verus! {

/// Dockerfile format implementation (read-only).
#[derive(Debug, Clone, Copy)]
pub struct Dockerfile;

/// Texts as values.
pub open spec fn text_trees(items: Seq<Seq<char>>) -> Seq<Tree> {
    Seq::new(items.len(), |i: int| Tree::String(items[i]))
}

/// A single text as it is, any other number of them as an array.
pub open spec fn words_tree(items: Seq<Seq<char>>) -> Tree {
    if items.len() == 1 {
        Tree::String(items[0])
    } else {
        Tree::Array(text_trees(items))
    }
}

/// The first `k` pairs as entries.
pub open spec fn pair_entries(pairs: Seq<(Seq<char>, Seq<char>)>, k: int) -> Seq<(Seq<char>, Tree)>
    decreases k,
{
    if k <= 0 {
        Seq::empty()
    } else {
        inserted(pair_entries(pairs, k - 1), pairs[k - 1].0, Tree::String(pairs[k - 1].1))
    }
}

/// A text that may be missing, as a value.
pub open spec fn default_tree(value: Option<Seq<char>>) -> Tree {
    match value {
        Some(text) => Tree::String(text),
        None => Tree::Null,
    }
}

/// The first `k` names as entries, with null where there is no default.
pub open spec fn default_entries(pairs: Seq<(Seq<char>, Option<Seq<char>>)>, k: int) -> Seq<
    (Seq<char>, Tree),
>
    decreases k,
{
    if k <= 0 {
        Seq::empty()
    } else {
        inserted(default_entries(pairs, k - 1), pairs[k - 1].0, default_tree(pairs[k - 1].1))
    }
}

/// The name of an instruction and its arguments; nothing for a comment or an
/// empty line.
pub open spec fn instruction_of(line: LineModel) -> Option<(Seq<char>, Tree)> {
    match line {
        LineModel::Nothing => None,
        LineModel::From(image, alias) => Some(
            (
                "FROM"@,
                Tree::String(
                    match alias {
                        Some(name) => image + " AS "@ + name,
                        None => image,
                    },
                ),
            ),
        ),
        LineModel::Run(command, heredoc) => Some(
            (
                "RUN"@,
                words_tree(
                    match heredoc {
                        Some(lines) => command + lines,
                        None => command,
                    },
                ),
            ),
        ),
        LineModel::Cmd(items) => Some(("CMD"@, words_tree(items))),
        LineModel::Entrypoint(items) => Some(("ENTRYPOINT"@, words_tree(items))),
        LineModel::Shell(items) => Some(("SHELL"@, words_tree(items))),
        LineModel::Copy(sources, to) => Some(("COPY"@, words_tree(sources.push(to)))),
        LineModel::Add(sources, to) => Some(("ADD"@, words_tree(sources.push(to)))),
        LineModel::Workdir(path) => Some(("WORKDIR"@, Tree::String(path))),
        LineModel::User(user, group) => Some(
            (
                "USER"@,
                Tree::String(
                    match group {
                        Some(name) => user + ":"@ + name,
                        None => user,
                    },
                ),
            ),
        ),
        LineModel::Stopsignal(signal) => Some(("STOPSIGNAL"@, Tree::String(signal))),
        LineModel::Expose(items) => Some(("EXPOSE"@, words_tree(items))),
        LineModel::Volume(items) => Some(("VOLUME"@, words_tree(items))),
        LineModel::Env(pairs) => Some(
            ("ENV"@, Tree::Object(pair_entries(pairs, pairs.len() as int))),
        ),
        LineModel::Label(pairs) => Some(
            ("LABEL"@, Tree::Object(pair_entries(pairs, pairs.len() as int))),
        ),
        LineModel::Arg(pairs) => Some(
            ("ARG"@, Tree::Object(default_entries(pairs, pairs.len() as int))),
        ),
    }
}

/// The object of an instruction.
pub open spec fn instruction_row(name: Seq<char>, arguments: Tree, number: int) -> Tree {
    Tree::Object(
        inserted(
            inserted(
                inserted(Seq::empty(), "instruction"@, Tree::String(name)),
                "arguments"@,
                arguments,
            ),
            "line"@,
            Tree::Int(number),
        ),
    )
}

/// The next number, as 64 bits count.
pub open spec fn next_number(number: int) -> int {
    if number == i64::MAX {
        i64::MIN as int
    } else {
        number + 1
    }
}

/// The objects of the first `k` lines, and the number of the last one.
pub open spec fn docker_rows(lines: Seq<LineModel>, k: int) -> (Seq<Tree>, int)
    decreases k,
{
    if k <= 0 {
        (Seq::empty(), 0)
    } else {
        let (rows, number) = docker_rows(lines, k - 1);
        match instruction_of(lines[k - 1]) {
            None => (rows, number),
            Some((name, arguments)) => (
                rows.push(instruction_row(name, arguments, next_number(number))),
                next_number(number),
            ),
        }
    }
}

/// The value of a Dockerfile's bytes.
pub open spec fn docker_parsed(bytes: Seq<u8>) -> Result<Tree, Fault> {
    if !valid_utf8(bytes) {
        Err(unplaced_parse("invalid UTF-8 in Dockerfile input: "@ + utf8_fault_text(bytes)))
    } else {
        match docker_lines(decode_utf8(bytes)) {
            Err(message) => Err(unplaced_parse("Dockerfile parse error: "@ + message)),
            Ok(lines) => Ok(Tree::Array(docker_rows(lines, lines.len() as int).0)),
        }
    }
}

fn string_or_array(items: &Vec<String>) -> (r: Value)
    ensures
        r@ == words_tree(texts(items@)),
{
    let ghost all = texts(items@);
    if items.len() == 1 {
        assert(all[0] == items@[0]@);
        return Value::String(items[0].clone());
    }
    let mut out: Vec<Value> = Vec::new();
    let mut i: usize = 0;
    while i < items.len()
        invariant
            i <= items@.len(),
            out@.len() == i,
            forall|k: int| 0 <= k < i ==> (#[trigger] out@[k])@ == Tree::String(items@[k]@),
        decreases items@.len() - i,
    {
        out.push(Value::String(items[i].clone()));
        i += 1;
    }
    proof {
        lemma_array_view(out);
        assert(trees(out@) =~= text_trees(all));
    }
    Value::Array(out)
}

fn pairs_value(pairs: &Vec<(String, String)>) -> (r: Value)
    ensures
        r@ == Tree::Object(pair_entries(text_pairs(pairs@), pairs@.len() as int)),
{
    let ghost all = text_pairs(pairs@);
    let mut out: ValueMap = ValueMap::new();
    let mut i: usize = 0;
    while i < pairs.len()
        invariant
            i <= pairs@.len(),
            all == text_pairs(pairs@),
            out@ == pair_entries(all, i as int),
        decreases pairs@.len() - i,
    {
        assert(all[i as int] == (pairs@[i as int].0@, pairs@[i as int].1@));
        out.insert(pairs[i].0.clone(), Value::String(pairs[i].1.clone()));
        i += 1;
    }
    proof {
        lemma_object_view(out);
    }
    Value::Object(out)
}

fn defaults_value(pairs: &Vec<(String, Option<String>)>) -> (r: Value)
    ensures
        r@ == Tree::Object(default_entries(default_pairs(pairs@), pairs@.len() as int)),
{
    let ghost all = default_pairs(pairs@);
    let mut out: ValueMap = ValueMap::new();
    let mut i: usize = 0;
    while i < pairs.len()
        invariant
            i <= pairs@.len(),
            all == default_pairs(pairs@),
            out@ == default_entries(all, i as int),
        decreases pairs@.len() - i,
    {
        assert(all[i as int] == (pairs@[i as int].0@, maybe_text(pairs@[i as int].1)));
        let value: Value = match &pairs[i].1 {
            Some(text) => Value::String(text.clone()),
            None => Value::Null,
        };
        out.insert(pairs[i].0.clone(), value);
        i += 1;
    }
    proof {
        lemma_object_view(out);
    }
    Value::Object(out)
}

fn with_suffix(text: &String, mark: &str, more: &Option<String>) -> (r: Value)
    ensures
        r@ == Tree::String(
            match maybe_text(*more) {
                Some(name) => text@ + mark@ + name,
                None => text@,
            },
        ),
{
    match more {
        Some(name) => {
            let mut whole: String = joined(text.as_str(), mark);
            whole.push_str(name.as_str());
            Value::String(whole)
        },
        None => Value::String(text.clone()),
    }
}

fn appended(items: &Vec<String>, more: &Vec<String>) -> (r: Vec<String>)
    ensures
        texts(r@) == texts(items@) + texts(more@),
{
    let mut out: Vec<String> = Vec::new();
    let mut i: usize = 0;
    while i < items.len()
        invariant
            i <= items@.len(),
            out@.len() == i,
            forall|k: int| 0 <= k < i ==> (#[trigger] out@[k])@ == items@[k]@,
        decreases items@.len() - i,
    {
        out.push(items[i].clone());
        i += 1;
    }
    let mut j: usize = 0;
    while j < more.len()
        invariant
            j <= more@.len(),
            out@.len() == items@.len() + j,
            forall|k: int| 0 <= k < items@.len() ==> (#[trigger] out@[k])@ == items@[k]@,
            forall|k: int|
                items@.len() <= k < items@.len() + j ==> (#[trigger] out@[k])@ == more@[k
                    - items@.len()]@,
        decreases more@.len() - j,
    {
        out.push(more[j].clone());
        j += 1;
    }
    assert(texts(out@) =~= texts(items@) + texts(more@));
    out
}

fn with_destination(sources: &Vec<String>, to: &String) -> (r: Value)
    ensures
        r@ == words_tree(texts(sources@).push(to@)),
{
    let mut last: Vec<String> = Vec::new();
    last.push(to.clone());
    assert(texts(sources@) + texts(last@) =~= texts(sources@).push(to@));
    string_or_array(&appended(sources, &last))
}

/// The name of an instruction and its arguments; nothing for a comment or an
/// empty line. A single argument is a string, several are an array, and pairs
/// are an object.
pub fn render_instruction(line: &DockerLine) -> (r: Option<(&'static str, Value)>)
    ensures
        match (r, instruction_of(line@)) {
            (Some((name, arguments)), Some((n, a))) => name@ == n && arguments@ == a,
            (None, None) => true,
            _ => false,
        },
{
    match line {
        DockerLine::Nothing => None,
        DockerLine::From(image, alias) => Some(("FROM", with_suffix(image, " AS ", alias))),
        DockerLine::Run(command, heredoc) => match heredoc {
            Some(lines) => Some(("RUN", string_or_array(&appended(command, lines)))),
            None => Some(("RUN", string_or_array(command))),
        },
        DockerLine::Cmd(items) => Some(("CMD", string_or_array(items))),
        DockerLine::Entrypoint(items) => Some(("ENTRYPOINT", string_or_array(items))),
        DockerLine::Shell(items) => Some(("SHELL", string_or_array(items))),
        DockerLine::Copy(sources, to) => Some(("COPY", with_destination(sources, to))),
        DockerLine::Add(sources, to) => Some(("ADD", with_destination(sources, to))),
        DockerLine::Workdir(path) => Some(("WORKDIR", Value::String(path.clone()))),
        DockerLine::User(user, group) => Some(("USER", with_suffix(user, ":", group))),
        DockerLine::Stopsignal(signal) => Some(("STOPSIGNAL", Value::String(signal.clone()))),
        DockerLine::Expose(items) => Some(("EXPOSE", string_or_array(items))),
        DockerLine::Volume(items) => Some(("VOLUME", string_or_array(items))),
        DockerLine::Env(pairs) => Some(("ENV", pairs_value(pairs))),
        DockerLine::Label(pairs) => Some(("LABEL", pairs_value(pairs))),
        DockerLine::Arg(pairs) => Some(("ARG", defaults_value(pairs))),
    }
}

fn row_value(name: &'static str, arguments: Value, number: i64) -> (r: Value)
    ensures
        r@ == instruction_row(name@, arguments@, number as int),
{
    let mut row: ValueMap = ValueMap::new();
    row.insert("instruction".to_owned(), Value::String(name.to_owned()));
    row.insert("arguments".to_owned(), arguments);
    row.insert("line".to_owned(), Value::Int(number));
    proof {
        lemma_object_view(row);
    }
    Value::Object(row)
}

/// The objects of lines.
pub fn rows_of(lines: &Vec<DockerLine>) -> (r: Vec<Value>)
    ensures
        trees(r@) == docker_rows(line_models(lines@), lines@.len() as int).0,
{
    let ghost all = line_models(lines@);
    let mut rows: Vec<Value> = Vec::new();
    assert(trees(rows@) =~= Seq::<Tree>::empty());
    let mut number: i64 = 0;
    let mut i: usize = 0;
    while i < lines.len()
        invariant
            i <= lines@.len(),
            all == line_models(lines@),
            docker_rows(all, i as int) == (trees(rows@), number as int),
        decreases lines@.len() - i,
    {
        assert(all[i as int] == lines@[i as int]@);
        let ghost before = trees(rows@);
        match render_instruction(&lines[i]) {
            Some((name, arguments)) => {
                number = if number == i64::MAX {
                    i64::MIN
                } else {
                    number + 1
                };
                let row: Value = row_value(name, arguments, number);
                let ghost shown = row@;
                rows.push(row);
                assert(trees(rows@) =~= before.push(shown));
            },
            None => {},
        }
        i += 1;
    }
    rows
}

/// Parses a Dockerfile.
pub fn parse_dockerfile(bytes: &[u8]) -> (r: Result<Value, Error>)
    ensures
        match (r, docker_parsed(bytes@)) {
            (Ok(v), Ok(m)) => v@ == m,
            (Err(e), Err(f)) => e@ == f,
            _ => false,
        },
{
    match checked_text(bytes) {
        Ok(text) => match read_docker_lines(text.as_str()) {
            Ok(lines) => {
                let rows: Vec<Value> = rows_of(&lines);
                proof {
                    lemma_array_view(rows);
                }
                Ok(Value::Array(rows))
            },
            Err(message) => Err(
                unplaced_parse_error(joined("Dockerfile parse error: ", message.as_str())),
            ),
        },
        Err(message) => Err(
            unplaced_parse_error(joined("invalid UTF-8 in Dockerfile input: ", message.as_str())),
        ),
    }
}

/// The fault of every attempt to write.
pub open spec fn read_only_dockerfile() -> Fault {
    format_fault("dockerfile"@, "Dockerfile is read-only in M5"@)
}

impl Format for Dockerfile {
    open spec fn tag(&self) -> FormatTag {
        FormatTag::Dockerfile
    }

    open spec fn parses(&self, bytes: Seq<u8>) -> bool {
        true
    }

    open spec fn parse_model(&self, bytes: Seq<u8>) -> Result<DocModel, Fault> {
        match docker_parsed(bytes) {
            Ok(value) => Ok(bare(value, FormatTag::Dockerfile, false)),
            Err(f) => Err(f),
        }
    }

    open spec fn write_model(&self, doc: DocModel) -> Emission {
        (Seq::empty(), Err(read_only_dockerfile()))
    }

    open spec fn options_model(&self, doc: DocModel, opts: WriteOptions) -> Emission {
        self.write_model(doc)
    }

    fn name(&self) -> (r: &'static str) {
        FormatTag::Dockerfile.name()
    }

    fn extensions(&self) -> (r: Vec<&'static str>) {
        extension_list(FormatTag::Dockerfile)
    }

    fn parse(&self, bytes: &[u8]) -> (r: Result<Document, Error>) {
        match parse_dockerfile(bytes) {
            Ok(value) => Ok(Document::value_only(value, FormatTag::Dockerfile)),
            Err(e) => Err(e),
        }
    }

    fn parse_checked(&self, bytes: &[u8]) -> (r: Option<Result<Document, Error>>) {
        Some(self.parse(bytes))
    }

    fn write(&self, _doc: &Document, w: &mut Vec<u8>) -> (r: Result<(), Error>) {
        assert(w@ + Seq::<u8>::empty() =~= w@);
        Err(
            Error::Format {
                format: "dockerfile",
                message: "Dockerfile is read-only in M5".to_owned(),
            },
        )
    }

    fn write_with_options(&self, doc: &Document, w: &mut Vec<u8>, _opts: &WriteOptions) -> (r: Result<
        (),
        Error,
    >) {
        self.write(doc, w)
    }
}

} // verus!
