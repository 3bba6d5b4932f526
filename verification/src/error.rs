//! The errors of the library, and their models.

use crate::template_guard::TemplateMarker;
use crate::value::{Tree, Value};
use std::ops::Range;
use vstd::prelude::*;

verus! {

/// Why the walk along a pointer stopped.
#[derive(Debug, PartialEq, Eq)]
pub enum PathErrorKind {
    /// The object lacks the next key.
    MissingKey,
    /// The array is shorter than the index.
    OutOfBounds,
    /// The node is a leaf, or the segment is of the wrong kind for it.
    TypeMismatch {
        /// What the segment asked for.
        expected: &'static str,
        /// What was there.
        found: &'static str,
    },
}

/// All errors the library may produce.
#[derive(Debug)]
pub enum Error {
    /// I/O failure while reading a file.
    Io {
        /// File path being read.
        path: String,
        /// The text of the underlying I/O error.
        source: String,
    },
    /// I/O failure while writing a file.
    WriteIo {
        /// Target file path.
        path: String,
        /// The text of the underlying I/O error.
        source: String,
    },
    /// Source could not be parsed.
    Parse {
        /// File path, if known.
        file: Option<String>,
        /// 1-based line.
        line: u32,
        /// 1-based column.
        col: u32,
        /// Byte range of the offending construct in the source.
        span: Range<usize>,
        /// A short snippet of source for context.
        snippet: String,
        /// What went wrong.
        message: String,
    },
    /// A pointer did not address an existing node.
    Path {
        /// The pointer.
        pointer: String,
        /// The longest prefix that did exist.
        matched_prefix: String,
        /// Why navigation stopped.
        kind: PathErrorKind,
        /// Up to three close candidate keys.
        did_you_mean: Vec<String>,
    },
    /// A format name or extension without a parser.
    UnsupportedFormat {
        /// The name that was rejected.
        name: String,
    },
    /// A format-specific limitation.
    Format {
        /// Which format produced the error.
        format: &'static str,
        /// What went wrong.
        message: String,
    },
    /// A write on a document that carries no spans, or of a format without a
    /// renderer.
    WriteUnavailable {
        /// Why the write could not proceed.
        reason: String,
    },
    /// The file holds template syntax.
    TemplatedFile {
        /// 1-based line of the first marker.
        line: u32,
        /// The source line that holds it.
        snippet: String,
        /// Which flags let the caller go on.
        hint: String,
    },
    /// A `test` operation met another value than it expected.
    PatchTestFailed {
        /// The pointer of the operation.
        pointer: String,
        /// The value that was expected.
        expected: Box<Value>,
        /// The value that was there.
        actual: Box<Value>,
    },
}

/// What a [`PathErrorKind`] is, mathematically.
pub enum PathFault {
    MissingKey,
    OutOfBounds,
    TypeMismatch { expected: Seq<char>, found: Seq<char> },
}

/// What an [`Error`] is, mathematically.
pub enum Fault {
    Io { path: Seq<char>, source: Seq<char> },
    WriteIo { path: Seq<char>, source: Seq<char> },
    Parse {
        file: Option<Seq<char>>,
        line: int,
        col: int,
        start: int,
        end: int,
        snippet: Seq<char>,
        message: Seq<char>,
    },
    Path {
        pointer: Seq<char>,
        matched_prefix: Seq<char>,
        kind: PathFault,
        did_you_mean: Seq<Seq<char>>,
    },
    UnsupportedFormat { name: Seq<char> },
    Format { format: Seq<char>, message: Seq<char> },
    WriteUnavailable { reason: Seq<char> },
    TemplatedFile { line: int, snippet: Seq<char>, hint: Seq<char> },
    PatchTestFailed { pointer: Seq<char>, expected: Tree, actual: Tree },
}

impl Clone for PathErrorKind {
    fn clone(&self) -> (r: PathErrorKind)
        ensures
            r == *self,
    {
        match self {
            PathErrorKind::MissingKey => PathErrorKind::MissingKey,
            PathErrorKind::OutOfBounds => PathErrorKind::OutOfBounds,
            PathErrorKind::TypeMismatch { expected, found } => PathErrorKind::TypeMismatch {
                expected: *expected,
                found: *found,
            },
        }
    }
}

impl View for PathErrorKind {
    type V = PathFault;

    open spec fn view(&self) -> PathFault {
        match self {
            PathErrorKind::MissingKey => PathFault::MissingKey,
            PathErrorKind::OutOfBounds => PathFault::OutOfBounds,
            PathErrorKind::TypeMismatch { expected, found } => PathFault::TypeMismatch {
                expected: expected@,
                found: found@,
            },
        }
    }
}

/// The texts of a sequence of strings.
pub open spec fn texts(s: Seq<String>) -> Seq<Seq<char>> {
    Seq::new(s.len(), |i: int| s[i]@)
}

impl View for Error {
    type V = Fault;

    open spec fn view(&self) -> Fault {
        match self {
            Error::Io { path, source } => Fault::Io { path: path@, source: source@ },
            Error::WriteIo { path, source } => Fault::WriteIo { path: path@, source: source@ },
            Error::Parse { file, line, col, span, snippet, message } => Fault::Parse {
                file: match file {
                    Some(f) => Some(f@),
                    None => None,
                },
                line: *line as int,
                col: *col as int,
                start: span.start as int,
                end: span.end as int,
                snippet: snippet@,
                message: message@,
            },
            Error::Path { pointer, matched_prefix, kind, did_you_mean } => Fault::Path {
                pointer: pointer@,
                matched_prefix: matched_prefix@,
                kind: kind@,
                did_you_mean: texts(did_you_mean@),
            },
            Error::UnsupportedFormat { name } => Fault::UnsupportedFormat { name: name@ },
            Error::Format { format, message } => Fault::Format {
                format: format@,
                message: message@,
            },
            Error::WriteUnavailable { reason } => Fault::WriteUnavailable { reason: reason@ },
            Error::TemplatedFile { line, snippet, hint } => Fault::TemplatedFile {
                line: *line as int,
                snippet: snippet@,
                hint: hint@,
            },
            Error::PatchTestFailed { pointer, expected, actual } => Fault::PatchTestFailed {
                pointer: pointer@,
                expected: expected@,
                actual: actual@,
            },
        }
    }
}

/// Whether an outcome is the one that the model gives.
pub open spec fn agrees<T: View>(r: Result<T, Error>, model: Result<T::V, Fault>) -> bool {
    match (r, model) {
        (Ok(t), Ok(m)) => t@ == m,
        (Err(e), Err(f)) => e@ == f,
        _ => false,
    }
}

/// A parse fault that points at no place in the source.
pub open spec fn unplaced_parse(message: Seq<char>) -> Fault {
    Fault::Parse { file: None, line: 0, col: 0, start: 0, end: 0, snippet: Seq::empty(), message }
}

/// A limitation of one format.
pub open spec fn format_fault(format: Seq<char>, message: Seq<char>) -> Fault {
    Fault::Format { format, message }
}

/// Builds a parse error that points at no place in the source.
pub fn unplaced_parse_error(message: String) -> (r: Error)
    ensures
        r@ == unplaced_parse(message@),
{
    let empty: String = String::new();
    assert(empty@ =~= Seq::<char>::empty());
    Error::Parse { file: None, line: 0, col: 0, span: 0..0, snippet: empty, message }
}

/// The hint that goes with a templated file.
pub open spec fn template_hint() -> Seq<char> {
    "use --allow-templates to parse anyway (formatting may break) or --raw-template-strings to preserve template values as opaque strings"@
}

/// The stable identifier of each kind of error.
pub open spec fn kind_name_of(f: Fault) -> Seq<char> {
    match f {
        Fault::Io { .. } => "io"@,
        Fault::WriteIo { .. } => "write_io"@,
        Fault::Parse { .. } => "parse"@,
        Fault::Path { .. } => "path"@,
        Fault::UnsupportedFormat { .. } => "unsupported_format"@,
        Fault::Format { .. } => "format"@,
        Fault::WriteUnavailable { .. } => "write_unavailable"@,
        Fault::TemplatedFile { .. } => "templated_file"@,
        Fault::PatchTestFailed { .. } => "patch_test_failed"@,
    }
}

impl Error {
    /// Stable per-variant identifier, from which callers derive exit codes.
    pub fn kind_name(&self) -> (r: &'static str)
        ensures
            r@ == kind_name_of(self@),
    {
        match self {
            Error::Io { .. } => "io",
            Error::WriteIo { .. } => "write_io",
            Error::Parse { .. } => "parse",
            Error::Path { .. } => "path",
            Error::UnsupportedFormat { .. } => "unsupported_format",
            Error::Format { .. } => "format",
            Error::WriteUnavailable { .. } => "write_unavailable",
            Error::TemplatedFile { .. } => "templated_file",
            Error::PatchTestFailed { .. } => "patch_test_failed",
        }
    }

    /// Builds the error for a file with template syntax, with the canonical
    /// hint.
    pub fn templated_file(marker: TemplateMarker) -> (r: Error)
        ensures
            r@ == (Fault::TemplatedFile {
                line: marker.line as int,
                snippet: marker.snippet@,
                hint: template_hint(),
            }),
    {
        Error::TemplatedFile {
            line: marker.line,
            snippet: marker.snippet,
            hint: "use --allow-templates to parse anyway (formatting may break) or --raw-template-strings to preserve template values as opaque strings".to_owned(),
        }
    }
}

} // verus!
