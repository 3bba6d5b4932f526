//! The instructions of a Dockerfile, read by the `dockerfile-parser-rs` crate.

use crate::error::texts;
use crate::parsers::dockerfile_lines::DockerLine as Line;
use crate::parsers::ini_sections::text_pairs;
use dockerfile_parser_rs::Instruction as Source;
use vstd::prelude::*;

verus! {

/// An instruction with the arguments that the value tree shows.
#[derive(Debug)]
pub enum DockerLine {
    /// A comment or an empty line.
    Nothing,
    /// `FROM`: the image and its alias.
    From(String, Option<String>),
    /// `RUN`: the command and what is handed to it.
    Run(Vec<String>, Option<Vec<String>>),
    /// `CMD`.
    Cmd(Vec<String>),
    /// `ENTRYPOINT`.
    Entrypoint(Vec<String>),
    /// `SHELL`.
    Shell(Vec<String>),
    /// `COPY`: the sources and the destination.
    Copy(Vec<String>, String),
    /// `ADD`: the sources and the destination.
    Add(Vec<String>, String),
    /// `WORKDIR`.
    Workdir(String),
    /// `USER`: the user and the group.
    User(String, Option<String>),
    /// `STOPSIGNAL`.
    Stopsignal(String),
    /// `EXPOSE`.
    Expose(Vec<String>),
    /// `VOLUME`.
    Volume(Vec<String>),
    /// `ENV`.
    Env(Vec<(String, String)>),
    /// `LABEL`.
    Label(Vec<(String, String)>),
    /// `ARG`: each name, with its default where it has one.
    Arg(Vec<(String, Option<String>)>),
}

/// What a [`DockerLine`] is, mathematically.
pub enum LineModel {
    Nothing,
    From(Seq<char>, Option<Seq<char>>),
    Run(Seq<Seq<char>>, Option<Seq<Seq<char>>>),
    Cmd(Seq<Seq<char>>),
    Entrypoint(Seq<Seq<char>>),
    Shell(Seq<Seq<char>>),
    Copy(Seq<Seq<char>>, Seq<char>),
    Add(Seq<Seq<char>>, Seq<char>),
    Workdir(Seq<char>),
    User(Seq<char>, Option<Seq<char>>),
    Stopsignal(Seq<char>),
    Expose(Seq<Seq<char>>),
    Volume(Seq<Seq<char>>),
    Env(Seq<(Seq<char>, Seq<char>)>),
    Label(Seq<(Seq<char>, Seq<char>)>),
    Arg(Seq<(Seq<char>, Option<Seq<char>>)>),
}

/// A text that may be missing, mathematically.
pub open spec fn maybe_text(s: Option<String>) -> Option<Seq<char>> {
    match s {
        Some(text) => Some(text@),
        None => None,
    }
}

/// Names with texts that may be missing, mathematically.
pub open spec fn default_pairs(pairs: Seq<(String, Option<String>)>) -> Seq<
    (Seq<char>, Option<Seq<char>>),
> {
    Seq::new(pairs.len(), |i: int| (pairs[i].0@, maybe_text(pairs[i].1)))
}

impl View for DockerLine {
    type V = LineModel;

    open spec fn view(&self) -> LineModel {
        match self {
            DockerLine::Nothing => LineModel::Nothing,
            DockerLine::From(image, alias) => LineModel::From(image@, maybe_text(*alias)),
            DockerLine::Run(command, heredoc) => LineModel::Run(
                texts(command@),
                match *heredoc {
                    Some(lines) => Some(texts(lines@)),
                    None => None,
                },
            ),
            DockerLine::Cmd(items) => LineModel::Cmd(texts(items@)),
            DockerLine::Entrypoint(items) => LineModel::Entrypoint(texts(items@)),
            DockerLine::Shell(items) => LineModel::Shell(texts(items@)),
            DockerLine::Copy(sources, to) => LineModel::Copy(texts(sources@), to@),
            DockerLine::Add(sources, to) => LineModel::Add(texts(sources@), to@),
            DockerLine::Workdir(path) => LineModel::Workdir(path@),
            DockerLine::User(user, group) => LineModel::User(user@, maybe_text(*group)),
            DockerLine::Stopsignal(signal) => LineModel::Stopsignal(signal@),
            DockerLine::Expose(items) => LineModel::Expose(texts(items@)),
            DockerLine::Volume(items) => LineModel::Volume(texts(items@)),
            DockerLine::Env(pairs) => LineModel::Env(text_pairs(pairs@)),
            DockerLine::Label(pairs) => LineModel::Label(text_pairs(pairs@)),
            DockerLine::Arg(pairs) => LineModel::Arg(default_pairs(pairs@)),
        }
    }
}

/// The models of lines.
pub open spec fn line_models(lines: Seq<DockerLine>) -> Seq<LineModel> {
    Seq::new(lines.len(), |i: int| lines[i]@)
}

/// The outside type of an instruction.
#[verifier::external_type_specification]
#[verifier::external_body]
pub struct ExInstruction(dockerfile_parser_rs::Instruction);

/// The arguments of a `dockerfile_parser_rs::Instruction` that has only a list,
/// a word or pairs; of another one, nothing.
#[verifier::external_body]
fn plain_line_of(source: Source) -> Line {
    match source {
        Source::Cmd(items) => Line::Cmd(items),
        Source::Entrypoint(items) => Line::Entrypoint(items),
        Source::Shell(items) => Line::Shell(items),
        Source::Workdir { path } => Line::Workdir(path),
        Source::Stopsignal { signal } => Line::Stopsignal(signal),
        Source::Expose { ports } => Line::Expose(ports),
        Source::Volume { mounts } => Line::Volume(mounts),
        Source::Env(pairs) => Line::Env(pairs.into_iter().collect()),
        Source::Label(pairs) => Line::Label(pairs.into_iter().collect()),
        _ => Line::Nothing,
    }
}

/// The arguments of a `dockerfile_parser_rs::Instruction`, one variant for one.
#[verifier::external_body]
fn line_of(source: Source) -> Line {
    match source {
        Source::Comment(_) | Source::Empty {} => Line::Nothing,
        Source::From { image, alias, .. } => Line::From(image, alias),
        Source::Run { command, heredoc, .. } => Line::Run(command, heredoc),
        Source::Copy { sources, destination, .. } => Line::Copy(sources, destination),
        Source::Add { sources, destination, .. } => Line::Add(sources, destination),
        Source::User { user, group } => Line::User(user, group),
        Source::Arg(pairs) => Line::Arg(pairs.into_iter().collect()),
        other => plain_line_of(other),
    }
}

/// What `dockerfile_parser_rs::Dockerfile` reads out of a text, or its
/// objection.
pub uninterp spec fn docker_lines(text: Seq<char>) -> Result<Seq<LineModel>, Seq<char>>;

/// `dockerfile_parser_rs::Dockerfile::from_str`, its instructions in order. The
/// result is a function of the text; it is only named here.
#[verifier::external_body]
pub(crate) fn read_docker_lines(text: &str) -> (r: Result<Vec<DockerLine>, String>)
    ensures
        docker_lines(text@) == (match r {
            Ok(lines) => Ok(line_models(lines@)),
            Err(message) => Err(message@),
        }),
{
    let parsed: dockerfile_parser_rs::Dockerfile = text.parse().map_err(|e: dockerfile_parser_rs::ParseError| e.to_string())?;
    Ok(parsed.instructions.into_iter().map(line_of).collect())
}

} // verus!
