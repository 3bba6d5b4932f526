//! The tag that says which format a document came from.

use crate::text::same_text;
use vstd::prelude::*;

verus! {

/// Stable format tag carried by every document.
#[derive(Debug, Clone, Copy, PartialEq, Eq, Structural)]
pub enum FormatTag {
    /// YAML 1.2.
    Yaml,
    /// JSON (RFC 8259).
    Json,
    /// TOML 1.0.
    Toml,
    /// Newline-delimited JSON.
    Jsonl,
    /// HashiCorp Configuration Language.
    Hcl,
    /// INI and Java `.properties` files.
    Ini,
    /// `.env` files.
    DotEnv,
    /// Comma-separated values.
    Csv,
    /// Tab-separated values.
    Tsv,
    /// Dockerfile or Containerfile (read-only).
    Dockerfile,
    /// Ignore lists such as `.gitignore` (read-only).
    IgnoreList,
    /// Markdown with frontmatter.
    Frontmatter,
    /// Markdown as a tree of nodes.
    Markdown,
    /// XML 1.0.
    Xml,
}

/// The stable lower-case name of a format.
pub open spec fn format_name(t: FormatTag) -> Seq<char> {
    match t {
        FormatTag::Yaml => "yaml"@,
        FormatTag::Json => "json"@,
        FormatTag::Toml => "toml"@,
        FormatTag::Jsonl => "jsonl"@,
        FormatTag::Hcl => "hcl"@,
        FormatTag::Ini => "ini"@,
        FormatTag::DotEnv => "dotenv"@,
        FormatTag::Csv => "csv"@,
        FormatTag::Tsv => "tsv"@,
        FormatTag::Dockerfile => "dockerfile"@,
        FormatTag::IgnoreList => "ignore-list"@,
        FormatTag::Frontmatter => "frontmatter"@,
        FormatTag::Markdown => "markdown"@,
        FormatTag::Xml => "xml"@,
    }
}

/// The name of the tag's variant, as diagnostics show it.
pub open spec fn format_debug_name(t: FormatTag) -> Seq<char> {
    match t {
        FormatTag::Yaml => "Yaml"@,
        FormatTag::Json => "Json"@,
        FormatTag::Toml => "Toml"@,
        FormatTag::Jsonl => "Jsonl"@,
        FormatTag::Hcl => "Hcl"@,
        FormatTag::Ini => "Ini"@,
        FormatTag::DotEnv => "DotEnv"@,
        FormatTag::Csv => "Csv"@,
        FormatTag::Tsv => "Tsv"@,
        FormatTag::Dockerfile => "Dockerfile"@,
        FormatTag::IgnoreList => "IgnoreList"@,
        FormatTag::Frontmatter => "Frontmatter"@,
        FormatTag::Markdown => "Markdown"@,
        FormatTag::Xml => "Xml"@,
    }
}

/// No two formats share a name.
pub proof fn law_format_names_distinct(a: FormatTag, b: FormatTag)
    requires
        format_name(a) == format_name(b),
    ensures
        a == b,
{
    reveal_strlit("yaml");
    reveal_strlit("json");
    reveal_strlit("toml");
    reveal_strlit("jsonl");
    reveal_strlit("hcl");
    reveal_strlit("ini");
    reveal_strlit("dotenv");
    reveal_strlit("csv");
    reveal_strlit("tsv");
    reveal_strlit("dockerfile");
    reveal_strlit("ignore-list");
    reveal_strlit("frontmatter");
    reveal_strlit("markdown");
    reveal_strlit("xml");
    let n = format_name(a);
    let m = format_name(b);
    assert(n.len() == m.len());
    assert(n[0] == m[0]);
    assert(n[1] == m[1]);
}

impl FormatTag {
    /// The tag whose name is `name`, if any.
    pub fn from_name(name: &str) -> (r: Option<FormatTag>)
        ensures
            match r {
                Some(t) => format_name(t) == name@,
                None => forall|t: FormatTag| #[trigger] format_name(t) != name@,
            },
    {
        if same_text(name, "yaml") {
            Some(FormatTag::Yaml)
        } else if same_text(name, "json") {
            Some(FormatTag::Json)
        } else if same_text(name, "toml") {
            Some(FormatTag::Toml)
        } else if same_text(name, "jsonl") {
            Some(FormatTag::Jsonl)
        } else if same_text(name, "hcl") {
            Some(FormatTag::Hcl)
        } else if same_text(name, "ini") {
            Some(FormatTag::Ini)
        } else if same_text(name, "dotenv") {
            Some(FormatTag::DotEnv)
        } else if same_text(name, "csv") {
            Some(FormatTag::Csv)
        } else if same_text(name, "tsv") {
            Some(FormatTag::Tsv)
        } else if same_text(name, "dockerfile") {
            Some(FormatTag::Dockerfile)
        } else if same_text(name, "ignore-list") {
            Some(FormatTag::IgnoreList)
        } else if same_text(name, "frontmatter") {
            Some(FormatTag::Frontmatter)
        } else if same_text(name, "markdown") {
            Some(FormatTag::Markdown)
        } else if same_text(name, "xml") {
            Some(FormatTag::Xml)
        } else {
            None
        }
    }

    /// The stable lower-case name.
    pub fn name(self) -> (r: &'static str)
        ensures
            r@ == format_name(self),
    {
        match self {
            FormatTag::Yaml => "yaml",
            FormatTag::Json => "json",
            FormatTag::Toml => "toml",
            FormatTag::Jsonl => "jsonl",
            FormatTag::Hcl => "hcl",
            FormatTag::Ini => "ini",
            FormatTag::DotEnv => "dotenv",
            FormatTag::Csv => "csv",
            FormatTag::Tsv => "tsv",
            FormatTag::Dockerfile => "dockerfile",
            FormatTag::IgnoreList => "ignore-list",
            FormatTag::Frontmatter => "frontmatter",
            FormatTag::Markdown => "markdown",
            FormatTag::Xml => "xml",
        }
    }

    /// The name of the variant.
    pub fn debug_name(self) -> (r: &'static str)
        ensures
            r@ == format_debug_name(self),
    {
        match self {
            FormatTag::Yaml => "Yaml",
            FormatTag::Json => "Json",
            FormatTag::Toml => "Toml",
            FormatTag::Jsonl => "Jsonl",
            FormatTag::Hcl => "Hcl",
            FormatTag::Ini => "Ini",
            FormatTag::DotEnv => "DotEnv",
            FormatTag::Csv => "Csv",
            FormatTag::Tsv => "Tsv",
            FormatTag::Dockerfile => "Dockerfile",
            FormatTag::IgnoreList => "IgnoreList",
            FormatTag::Frontmatter => "Frontmatter",
            FormatTag::Markdown => "Markdown",
            FormatTag::Xml => "Xml",
        }
    }
}

/// Every format is found again by its own name, and a name that finds a format
/// is that format's name.
pub proof fn law_name_round_trips(name: Seq<char>, found: Option<FormatTag>, t: FormatTag)
    requires
        match found {
            Some(f) => format_name(f) == name,
            None => forall|u: FormatTag| #[trigger] format_name(u) != name,
        },
    ensures
        found == Some(t) <==> format_name(t) == name,
{
    if format_name(t) == name {
        if let Some(f) = found {
            law_format_names_distinct(f, t);
        }
    }
}

} // verus!
