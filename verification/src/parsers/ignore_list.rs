//! Ignore lists in the style of `.gitignore`: one pattern per line.

use crate::document::{bare, DocModel, Document};
use crate::error::{format_fault, unplaced_parse, unplaced_parse_error, Error, Fault};
use crate::format::{extension_list, Emission, Format};
use crate::format_tag::FormatTag;
use crate::text::{
    chars_of, joined, split_chars, split_on, text_of, trim_end, trim_end_chars, trim_end_of,
    trim_end_of_chars, trim_start, trim_start_chars,
};
use crate::utf8_text::{checked_text, utf8_fault_text};
use crate::value::{lemma_array_view, trees, Tree, Value};
use crate::write_options::WriteOptions;
use vstd::prelude::*;
use vstd::utf8::{decode_utf8, valid_utf8};

verus! {

/// Ignore-list (`.gitignore` / `.dockerignore`) format implementation.
#[derive(Debug, Clone, Copy)]
pub struct IgnoreList;

/// The pattern on a line, if it holds one: not on a blank line, nor on one that
/// starts with a `#`. White space behind it is dropped.
pub open spec fn pattern_on(raw: Seq<char>) -> Option<Seq<char>> {
    let line = trim_end(trim_end_of(raw, '\r'));
    let shown = trim_start(line);
    if shown.len() == 0 || shown[0] == '#' {
        None
    } else {
        Some(line)
    }
}

/// The patterns on the first `k` lines.
pub open spec fn patterns(lines: Seq<Seq<char>>, k: int) -> Seq<Tree>
    decreases k,
{
    if k <= 0 {
        Seq::empty()
    } else {
        match pattern_on(lines[k - 1]) {
            Some(p) => patterns(lines, k - 1).push(Tree::String(p)),
            None => patterns(lines, k - 1),
        }
    }
}

/// The patterns of a text.
pub open spec fn patterns_in(text: Seq<char>) -> Seq<Tree> {
    let lines = split_on(text, '\n');
    patterns(lines, lines.len() as int)
}

fn find_pattern(raw: &Vec<char>) -> (r: Option<String>)
    ensures
        match r {
            Some(p) => pattern_on(raw@) == Some(p@),
            None => pattern_on(raw@) is None,
        },
{
    let line: Vec<char> = trim_end_chars(&trim_end_of_chars(raw, '\r'));
    let shown: Vec<char> = trim_start_chars(&line);
    if shown.len() == 0 || shown[0] == '#' {
        None
    } else {
        Some(text_of(&line))
    }
}

/// Reads the patterns of a text.
pub fn read_patterns(text: &str) -> (r: Vec<Value>)
    ensures
        trees(r@) == patterns_in(text@),
{
    let lines: Vec<Vec<char>> = split_chars(&chars_of(text), '\n');
    let ghost all = split_on(text@, '\n');
    let mut out: Vec<Value> = Vec::new();
    assert(trees(out@) =~= Seq::<Tree>::empty());
    let mut i: usize = 0;
    while i < lines.len()
        invariant
            i <= lines@.len() == all.len(),
            forall|k: int| 0 <= k < lines@.len() ==> #[trigger] lines@[k]@ == all[k],
            trees(out@) == patterns(all, i as int),
        decreases lines@.len() - i,
    {
        let ghost before = trees(out@);
        match find_pattern(&lines[i]) {
            Some(p) => {
                let ghost shown = p@;
                out.push(Value::String(p));
                assert(trees(out@) =~= before.push(Tree::String(shown)));
            },
            None => {},
        }
        i += 1;
    }
    out
}

/// The fault of every attempt to write.
pub open spec fn read_only_list() -> Fault {
    format_fault("ignore-list"@, "ignore-list is read-only in M5"@)
}

impl Format for IgnoreList {
    open spec fn tag(&self) -> FormatTag {
        FormatTag::IgnoreList
    }

    open spec fn parses(&self, bytes: Seq<u8>) -> bool {
        true
    }

    open spec fn parse_model(&self, bytes: Seq<u8>) -> Result<DocModel, Fault> {
        if valid_utf8(bytes) {
            Ok(bare(Tree::Array(patterns_in(decode_utf8(bytes))), FormatTag::IgnoreList, false))
        } else {
            Err(unplaced_parse("invalid UTF-8 in ignore-list input: "@ + utf8_fault_text(bytes)))
        }
    }

    open spec fn write_model(&self, doc: DocModel) -> Emission {
        (Seq::empty(), Err(read_only_list()))
    }

    open spec fn options_model(&self, doc: DocModel, opts: WriteOptions) -> Emission {
        self.write_model(doc)
    }

    fn name(&self) -> (r: &'static str) {
        FormatTag::IgnoreList.name()
    }

    fn extensions(&self) -> (r: Vec<&'static str>) {
        extension_list(FormatTag::IgnoreList)
    }

    fn parse(&self, bytes: &[u8]) -> (r: Result<Document, Error>) {
        match checked_text(bytes) {
            Ok(text) => {
                let items: Vec<Value> = read_patterns(text.as_str());
                proof {
                    lemma_array_view(items);
                }
                Ok(Document::value_only(Value::Array(items), FormatTag::IgnoreList))
            },
            Err(message) => Err(
                unplaced_parse_error(
                    joined("invalid UTF-8 in ignore-list input: ", message.as_str()),
                ),
            ),
        }
    }

    fn parse_checked(&self, bytes: &[u8]) -> (r: Option<Result<Document, Error>>) {
        Some(self.parse(bytes))
    }

    fn write(&self, _doc: &Document, w: &mut Vec<u8>) -> (r: Result<(), Error>) {
        assert(w@ + Seq::<u8>::empty() =~= w@);
        Err(
            Error::Format {
                format: "ignore-list",
                message: "ignore-list is read-only in M5".to_owned(),
            },
        )
    }

    fn write_with_options(&self, doc: &Document, w: &mut Vec<u8>, _opts: &WriteOptions) -> (r: Result<
        (),
        Error,
    >) {
        self.write(doc, w)
    }
}

} // verus!
