//! Reading and writing in a format that is told by its tag.

use crate::document::{DocModel, Document};
use crate::error::{agrees, Error, Fault};
use crate::format::{emitted, Emission, Format};
use crate::format_tag::FormatTag;
use crate::parsers::csv::{Csv, Tsv};
use crate::parsers::dockerfile::Dockerfile;
use crate::parsers::dotenv::DotEnv;
use crate::parsers::frontmatter::Frontmatter;
use crate::parsers::hcl::Hcl;
use crate::parsers::ignore_list::IgnoreList;
use crate::parsers::ini::Ini;
use crate::parsers::json::Json;
use crate::parsers::jsonl::Jsonl;
use crate::parsers::markdown::Markdown;
use crate::parsers::toml::Toml;
use crate::parsers::xml::Xml;
use crate::parsers::yaml::Yaml;
use crate::write_options::WriteOptions;
use vstd::prelude::*;

verus! {

/// Which bytes the parser of a format takes.
pub open spec fn parses_as(tag: FormatTag, bytes: Seq<u8>) -> bool {
    match tag {
        FormatTag::Json => Json.parses(bytes),
        FormatTag::Yaml => Yaml.parses(bytes),
        FormatTag::Toml => Toml.parses(bytes),
        FormatTag::Jsonl => Jsonl.parses(bytes),
        FormatTag::Hcl => Hcl.parses(bytes),
        FormatTag::Ini => Ini.parses(bytes),
        FormatTag::DotEnv => DotEnv.parses(bytes),
        FormatTag::Csv => Csv.parses(bytes),
        FormatTag::Tsv => Tsv.parses(bytes),
        FormatTag::Dockerfile => Dockerfile.parses(bytes),
        FormatTag::IgnoreList => IgnoreList.parses(bytes),
        FormatTag::Markdown => Markdown.parses(bytes),
        FormatTag::Frontmatter => Frontmatter.parses(bytes),
        FormatTag::Xml => Xml.parses(bytes),
    }
}

/// What the parser of a format makes of bytes.
pub open spec fn parsed_as(tag: FormatTag, bytes: Seq<u8>) -> Result<DocModel, Fault> {
    match tag {
        FormatTag::Json => Json.parse_model(bytes),
        FormatTag::Yaml => Yaml.parse_model(bytes),
        FormatTag::Toml => Toml.parse_model(bytes),
        FormatTag::Jsonl => Jsonl.parse_model(bytes),
        FormatTag::Hcl => Hcl.parse_model(bytes),
        FormatTag::Ini => Ini.parse_model(bytes),
        FormatTag::DotEnv => DotEnv.parse_model(bytes),
        FormatTag::Csv => Csv.parse_model(bytes),
        FormatTag::Tsv => Tsv.parse_model(bytes),
        FormatTag::Dockerfile => Dockerfile.parse_model(bytes),
        FormatTag::IgnoreList => IgnoreList.parse_model(bytes),
        FormatTag::Markdown => Markdown.parse_model(bytes),
        FormatTag::Frontmatter => Frontmatter.parse_model(bytes),
        FormatTag::Xml => Xml.parse_model(bytes),
    }
}

/// What the writer of a format makes of a document under options.
pub open spec fn written_as(tag: FormatTag, doc: DocModel, opts: WriteOptions) -> Emission {
    match tag {
        FormatTag::Json => Json.options_model(doc, opts),
        FormatTag::Yaml => Yaml.options_model(doc, opts),
        FormatTag::Toml => Toml.options_model(doc, opts),
        FormatTag::Jsonl => Jsonl.options_model(doc, opts),
        FormatTag::Hcl => Hcl.options_model(doc, opts),
        FormatTag::Ini => Ini.options_model(doc, opts),
        FormatTag::DotEnv => DotEnv.options_model(doc, opts),
        FormatTag::Csv => Csv.options_model(doc, opts),
        FormatTag::Tsv => Tsv.options_model(doc, opts),
        FormatTag::Dockerfile => Dockerfile.options_model(doc, opts),
        FormatTag::IgnoreList => IgnoreList.options_model(doc, opts),
        FormatTag::Markdown => Markdown.options_model(doc, opts),
        FormatTag::Frontmatter => Frontmatter.options_model(doc, opts),
        FormatTag::Xml => Xml.options_model(doc, opts),
    }
}

/// Parses bytes in a format, or gives nothing where the parser does not take
/// them.
pub fn parse_as(tag: FormatTag, bytes: &[u8]) -> (r: Option<Result<Document, Error>>)
    ensures
        match r {
            Some(outcome) => parses_as(tag, bytes@) && agrees(outcome, parsed_as(tag, bytes@)),
            None => !parses_as(tag, bytes@),
        },
{
    match tag {
        FormatTag::Json => Json.parse_checked(bytes),
        FormatTag::Yaml => Yaml.parse_checked(bytes),
        FormatTag::Toml => Toml.parse_checked(bytes),
        FormatTag::Jsonl => Jsonl.parse_checked(bytes),
        FormatTag::Hcl => Hcl.parse_checked(bytes),
        FormatTag::Ini => Ini.parse_checked(bytes),
        FormatTag::DotEnv => DotEnv.parse_checked(bytes),
        FormatTag::Csv => Csv.parse_checked(bytes),
        FormatTag::Tsv => Tsv.parse_checked(bytes),
        FormatTag::Dockerfile => Dockerfile.parse_checked(bytes),
        FormatTag::IgnoreList => IgnoreList.parse_checked(bytes),
        FormatTag::Markdown => Markdown.parse_checked(bytes),
        FormatTag::Frontmatter => Frontmatter.parse_checked(bytes),
        FormatTag::Xml => Xml.parse_checked(bytes),
    }
}

/// Appends a document in a format, under options.
pub fn write_as(tag: FormatTag, doc: &Document, w: &mut Vec<u8>, opts: &WriteOptions) -> (r: Result<
    (),
    Error,
>)
    ensures
        emitted(r, written_as(tag, doc@, *opts), old(w)@, final(w)@),
{
    match tag {
        FormatTag::Json => Json.write_with_options(doc, w, opts),
        FormatTag::Yaml => Yaml.write_with_options(doc, w, opts),
        FormatTag::Toml => Toml.write_with_options(doc, w, opts),
        FormatTag::Jsonl => Jsonl.write_with_options(doc, w, opts),
        FormatTag::Hcl => Hcl.write_with_options(doc, w, opts),
        FormatTag::Ini => Ini.write_with_options(doc, w, opts),
        FormatTag::DotEnv => DotEnv.write_with_options(doc, w, opts),
        FormatTag::Csv => Csv.write_with_options(doc, w, opts),
        FormatTag::Tsv => Tsv.write_with_options(doc, w, opts),
        FormatTag::Dockerfile => Dockerfile.write_with_options(doc, w, opts),
        FormatTag::IgnoreList => IgnoreList.write_with_options(doc, w, opts),
        FormatTag::Markdown => Markdown.write_with_options(doc, w, opts),
        FormatTag::Frontmatter => Frontmatter.write_with_options(doc, w, opts),
        FormatTag::Xml => Xml.write_with_options(doc, w, opts),
    }
}

/// Without options a document is written as it is: leaving them all out is the
/// same as the plain writer.
pub proof fn law_no_options_change_nothing(tag: FormatTag, doc: DocModel)
    ensures
        ({
            let plain = WriteOptions { sort_keys: false, indent: None };
            match tag {
                FormatTag::Json => written_as(tag, doc, plain) == Json.write_model(doc),
                FormatTag::Yaml => written_as(tag, doc, plain) == Yaml.write_model(doc),
                FormatTag::Toml => written_as(tag, doc, plain) == Toml.write_model(doc),
                FormatTag::Jsonl => written_as(tag, doc, plain) == Jsonl.write_model(doc),
                FormatTag::Hcl => written_as(tag, doc, plain) == Hcl.write_model(doc),
                FormatTag::Ini => written_as(tag, doc, plain) == Ini.write_model(doc),
                FormatTag::DotEnv => written_as(tag, doc, plain) == DotEnv.write_model(doc),
                FormatTag::Csv => written_as(tag, doc, plain) == Csv.write_model(doc),
                FormatTag::Tsv => written_as(tag, doc, plain) == Tsv.write_model(doc),
                FormatTag::Dockerfile => written_as(tag, doc, plain) == Dockerfile.write_model(doc),
                FormatTag::IgnoreList => written_as(tag, doc, plain) == IgnoreList.write_model(doc),
                FormatTag::Markdown => written_as(tag, doc, plain) == Markdown.write_model(doc),
                FormatTag::Frontmatter => written_as(tag, doc, plain) == Frontmatter.write_model(doc),
                FormatTag::Xml => written_as(tag, doc, plain) == Xml.write_model(doc),
            }
        }),
{
}

} // verus!
