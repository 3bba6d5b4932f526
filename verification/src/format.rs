//! The formats as a caller sees them, and how a file's format is told.

use crate::document::{DocModel, Document};
use crate::error::{agrees, Error, Fault};
use crate::format_tag::{format_name, FormatTag};
use crate::suggest::names;
use crate::text::{chars_of, is_text, lower_chars, lowered, same_chars};
use crate::write_options::WriteOptions;
use vstd::prelude::*;

verus! {

/// What a writer does: the bytes that it appends, and whether it gets to the
/// end.
pub type Emission = (Seq<u8>, Result<(), Fault>);

/// Whether what was written is what the model gives.
pub open spec fn emitted(
    r: Result<(), Error>,
    model: Emission,
    before: Seq<u8>,
    after: Seq<u8>,
) -> bool {
    &&& after == before + model.0
    &&& match (r, model.1) {
        (Ok(_), Ok(_)) => true,
        (Err(e), Err(f)) => e@ == f,
        _ => false,
    }
}

/// A format that documents are read from and written to.
pub trait Format {
    /// Which format this is.
    spec fn tag(&self) -> FormatTag;

    /// Which bytes the parser takes: all but those with an empty key at a place
    /// that would be recorded for editing.
    spec fn parses(&self, bytes: Seq<u8>) -> bool;

    /// What the parser makes of bytes.
    spec fn parse_model(&self, bytes: Seq<u8>) -> Result<DocModel, Fault>;

    /// What the writer makes of a document.
    spec fn write_model(&self, doc: DocModel) -> Emission;

    /// What the writer makes of a document under options.
    spec fn options_model(&self, doc: DocModel, opts: WriteOptions) -> Emission;

    /// Stable short name.
    fn name(&self) -> (r: &'static str)
        ensures
            r@ == format_name(self.tag()),
    ;

    /// File extensions, without the dot.
    fn extensions(&self) -> (r: Vec<&'static str>)
        ensures
            names(r@) == extensions_of(self.tag()),
    ;

    /// Parses bytes into a document.
    fn parse(&self, bytes: &[u8]) -> (r: Result<Document, Error>)
        requires
            self.parses(bytes@),
        ensures
            agrees(r, self.parse_model(bytes@)),
    ;

    /// Parses bytes into a document, where the parser takes them.
    fn parse_checked(&self, bytes: &[u8]) -> (r: Option<Result<Document, Error>>)
        ensures
            match r {
                Some(outcome) => self.parses(bytes@) && agrees(outcome, self.parse_model(bytes@)),
                None => !self.parses(bytes@),
            },
    ;

    /// Appends the document to `w`.
    fn write(&self, doc: &Document, w: &mut Vec<u8>) -> (r: Result<(), Error>)
        ensures
            emitted(r, self.write_model(doc@), old(w)@, final(w)@),
    ;

    /// Appends the document to `w`, written anew as the options say.
    fn write_with_options(&self, doc: &Document, w: &mut Vec<u8>, opts: &WriteOptions) -> (r: Result<
        (),
        Error,
    >)
        ensures
            emitted(r, self.options_model(doc@, *opts), old(w)@, final(w)@),
    ;
}

/// The file extensions that a format claims.
pub open spec fn extensions_of(t: FormatTag) -> Seq<Seq<char>> {
    match t {
        FormatTag::Yaml => seq!["yaml"@, "yml"@],
        FormatTag::Json => seq!["json"@],
        FormatTag::Toml => seq!["toml"@],
        FormatTag::Jsonl => seq!["jsonl"@, "ndjson"@],
        FormatTag::Hcl => seq!["hcl"@, "tf"@, "tfvars"@],
        FormatTag::Ini => seq!["ini"@, "properties"@, "cfg"@],
        FormatTag::DotEnv => seq!["env"@],
        FormatTag::Csv => seq!["csv"@],
        FormatTag::Tsv => seq!["tsv"@],
        FormatTag::Dockerfile => seq!["dockerfile"@, "containerfile"@],
        FormatTag::IgnoreList => seq!["gitignore"@, "dockerignore"@],
        FormatTag::Frontmatter => seq!["md"@, "markdown"@],
        FormatTag::Markdown => seq!["md"@, "markdown"@],
        FormatTag::Xml => seq!["xml"@],
    }
}

/// All formats, in the order in which an extension is looked up.
pub open spec fn registered() -> Seq<FormatTag> {
    seq![
        FormatTag::Json,
        FormatTag::Yaml,
        FormatTag::Toml,
        FormatTag::Jsonl,
        FormatTag::Hcl,
        FormatTag::Ini,
        FormatTag::DotEnv,
        FormatTag::Csv,
        FormatTag::Tsv,
        FormatTag::Dockerfile,
        FormatTag::IgnoreList,
        FormatTag::Markdown,
        FormatTag::Frontmatter,
        FormatTag::Xml,
    ]
}

/// All formats, in the order in which an extension is looked up: Markdown
/// comes before frontmatter, which claims the same extensions.
pub fn registry() -> (r: Vec<FormatTag>)
    ensures
        r@ == registered(),
{
    let r: Vec<FormatTag> = vec![
        FormatTag::Json,
        FormatTag::Yaml,
        FormatTag::Toml,
        FormatTag::Jsonl,
        FormatTag::Hcl,
        FormatTag::Ini,
        FormatTag::DotEnv,
        FormatTag::Csv,
        FormatTag::Tsv,
        FormatTag::Dockerfile,
        FormatTag::IgnoreList,
        FormatTag::Markdown,
        FormatTag::Frontmatter,
        FormatTag::Xml,
    ];
    assert(r@ =~= registered());
    r
}

/// The extensions of a format.
pub fn extension_list(t: FormatTag) -> (r: Vec<&'static str>)
    ensures
        names(r@) == extensions_of(t),
{
    let r: Vec<&'static str> = match t {
        FormatTag::Yaml => vec!["yaml", "yml"],
        FormatTag::Json => vec!["json"],
        FormatTag::Toml => vec!["toml"],
        FormatTag::Jsonl => vec!["jsonl", "ndjson"],
        FormatTag::Hcl => vec!["hcl", "tf", "tfvars"],
        FormatTag::Ini => vec!["ini", "properties", "cfg"],
        FormatTag::DotEnv => vec!["env"],
        FormatTag::Csv => vec!["csv"],
        FormatTag::Tsv => vec!["tsv"],
        FormatTag::Dockerfile => vec!["dockerfile", "containerfile"],
        FormatTag::IgnoreList => vec!["gitignore", "dockerignore"],
        FormatTag::Frontmatter => vec!["md", "markdown"],
        FormatTag::Markdown => vec!["md", "markdown"],
        FormatTag::Xml => vec!["xml"],
    };
    assert(names(r@) =~= extensions_of(t));
    r
}

/// The first registered format from `k` on that claims the extension.
pub open spec fn claiming(ext: Seq<char>, k: int) -> Option<FormatTag>
    decreases registered().len() - k,
{
    if 0 <= k < registered().len() {
        if extensions_of(registered()[k]).contains(ext) {
            Some(registered()[k])
        } else {
            claiming(ext, k + 1)
        }
    } else {
        None
    }
}

/// Which format a file name without a telling extension belongs to.
pub open spec fn named_file(base: Seq<char>) -> Option<FormatTag> {
    let low = lowered(base);
    if low == lowered("Dockerfile"@) || low == lowered("Containerfile"@) {
        Some(FormatTag::Dockerfile)
    } else if low == lowered(".gitignore"@) || low == lowered(".dockerignore"@) || low == lowered(
        ".npmignore"@,
    ) || low == lowered(".eslintignore"@) {
        Some(FormatTag::IgnoreList)
    } else if low == lowered(".env"@) {
        Some(FormatTag::DotEnv)
    } else {
        None
    }
}

/// The format of a file with the given extension and name: the extension
/// decides first, in any case of its letters, then the name.
pub open spec fn detected(ext: Option<Seq<char>>, base: Option<Seq<char>>) -> Option<FormatTag> {
    let by_extension = match ext {
        Some(e) => claiming(lowered(e), 0),
        None => None,
    };
    match (by_extension, base) {
        (Some(t), _) => Some(t),
        (None, Some(b)) => named_file(b),
        (None, None) => None,
    }
}

fn find_claiming(ext: &Vec<char>) -> (r: Option<FormatTag>)
    ensures
        r == claiming(ext@, 0),
{
    let formats: Vec<FormatTag> = registry();
    let mut k: usize = 0;
    while k < formats.len()
        invariant
            k <= formats@.len(),
            formats@ == registered(),
            claiming(ext@, 0) == claiming(ext@, k as int),
        decreases formats@.len() - k,
    {
        let list: Vec<&'static str> = extension_list(formats[k]);
        let ghost claimed = extensions_of(formats@[k as int]);
        let mut i: usize = 0;
        while i < list.len()
            invariant
                i <= list@.len(),
                k < formats@.len(),
                formats@ == registered(),
                claimed == extensions_of(formats@[k as int]),
                names(list@) == claimed,
                claiming(ext@, 0) == claiming(ext@, k as int),
                forall|j: int| 0 <= j < i ==> #[trigger] claimed[j] != ext@,
            decreases list@.len() - i,
        {
            assert(claimed[i as int] == list@[i as int]@);
            if is_text(ext, list[i]) {
                assert(claimed.contains(ext@));
                return Some(formats[k]);
            }
            i += 1;
        }
        assert(!claimed.contains(ext@));
        k += 1;
    }
    None
}

fn same_lowered(base: &Vec<char>, name: &str) -> (r: bool)
    ensures
        r == (base@ == lowered(name@)),
{
    same_chars(base, &lower_chars(&chars_of(name)))
}

/// The format of a file with the given extension and name.
pub fn detect_named(ext: Option<&str>, base: Option<&str>) -> (r: Option<FormatTag>)
    ensures
        r == detected(
            match ext {
                Some(e) => Some(e@),
                None => None,
            },
            match base {
                Some(b) => Some(b@),
                None => None,
            },
        ),
{
    match ext {
        Some(e) => {
            match find_claiming(&lower_chars(&chars_of(e))) {
                Some(t) => {
                    return Some(t);
                },
                None => {},
            }
        },
        None => {},
    }
    match base {
        Some(b) => {
            let low: Vec<char> = lower_chars(&chars_of(b));
            if same_lowered(&low, "Dockerfile") || same_lowered(&low, "Containerfile") {
                Some(FormatTag::Dockerfile)
            } else if same_lowered(&low, ".gitignore") || same_lowered(&low, ".dockerignore")
                || same_lowered(&low, ".npmignore") || same_lowered(&low, ".eslintignore") {
                Some(FormatTag::IgnoreList)
            } else if same_lowered(&low, ".env") {
                Some(FormatTag::DotEnv)
            } else {
                None
            }
        },
        None => None,
    }
}

/// The position of the last slash among the first `k` characters, or -1.
pub open spec fn last_slash(path: Seq<char>, k: nat) -> int
    decreases k,
{
    if k == 0 {
        -1
    } else if path[k - 1] == '/' {
        k - 1
    } else {
        last_slash(path, (k - 1) as nat)
    }
}

/// The file name at the end of a path: its last part, once empty parts and
/// single dots behind it are dropped. A path that ends in two dots has none.
pub open spec fn name_in(path: Seq<char>) -> Option<Seq<char>>
    decreases path.len(),
{
    let cut = last_slash(path, path.len());
    let part = path.subrange(cut + 1, path.len() as int);
    if part.len() > 0 && part != "."@ {
        if part == ".."@ {
            None
        } else {
            Some(part)
        }
    } else if 0 <= cut < path.len() {
        name_in(path.subrange(0, cut))
    } else {
        None
    }
}

/// Whether every platform splits a path alike: no backslash in it, no pair of
/// slashes at its start, and no colon in the file name.
pub open spec fn splits_alike(path: Seq<char>) -> bool {
    &&& !path.contains('\\')
    &&& !(path.len() >= 2 && path[0] == '/' && path[1] == '/')
    &&& name_in(path) matches Some(name) ==> !name.contains(':')
}

/// The extension at the end of a path: that of its file name.
pub open spec fn extension_in(path: Seq<char>) -> Option<Seq<char>> {
    match name_in(path) {
        Some(name) => extension_of_name(name),
        None => None,
    }
}

/// Whether a text, if there is one, is a piece of another.
pub open spec fn is_piece(piece: Option<Seq<char>>, whole: Seq<char>) -> bool {
    match piece {
        Some(p) => exists|i: int|
            0 <= i && i + p.len() <= whole.len() && #[trigger] whole.subrange(i, i + p.len()) == p,
        None => true,
    }
}

/// The text in an optional string.
pub open spec fn text_in(text: Option<String>) -> Option<Seq<char>> {
    match text {
        Some(t) => Some(t@),
        None => None,
    }
}

/// What follows the last dot of a file name, unless the name starts with its
/// only dot or has none.
pub open spec fn extension_of_name(name: Seq<char>) -> Option<Seq<char>> {
    let at = last_dot(name, name.len());
    if at <= 0 {
        None
    } else {
        Some(name.subrange(at + 1, name.len() as int))
    }
}

/// The position of the last dot among the first `k` characters, or -1.
pub open spec fn last_dot(name: Seq<char>, k: nat) -> int
    decreases k,
{
    if k == 0 {
        -1
    } else if name[k - 1] == '.' {
        k - 1
    } else {
        last_dot(name, (k - 1) as nat)
    }
}

/// `camino::Utf8Path::file_name` gives the last component of a path, a slice of
/// it, if that is a file name. Where every platform splits the path alike, that
/// is the last part which is neither empty nor a dot. How the others are split
/// depends on the platform and is not said here.
#[verifier::external_body]
fn path_file_name(path: &str) -> (r: Option<String>)
    ensures
        is_piece(text_in(r), path@),
        splits_alike(path@) ==> text_in(r) == name_in(path@),
{
    camino::Utf8Path::new(path).file_name().map(|s| s.to_owned())
}

/// `camino::Utf8Path::extension` gives what follows the last dot of the file
/// name, a slice of the path. Where every platform splits the path alike, the
/// file name is that of `path_file_name`. How the others are split depends on
/// the platform and is not said here.
#[verifier::external_body]
fn path_extension(path: &str) -> (r: Option<String>)
    ensures
        is_piece(text_in(r), path@),
        splits_alike(path@) ==> text_in(r) == extension_in(path@),
{
    camino::Utf8Path::new(path).extension().map(|s| s.to_owned())
}

/// Tells the format of a file by its path: by the extension, or else by the
/// name, both without regard to case. Both are pieces of the path; which ones
/// depends on the platform only where a path does not split alike on all.
pub fn detect(path: &str) -> (r: Option<FormatTag>)
    ensures
        exists|ext: Option<Seq<char>>, base: Option<Seq<char>>|
            is_piece(ext, path@) && is_piece(base, path@) && r == #[trigger] detected(ext, base),
        splits_alike(path@) ==> r == detected(extension_in(path@), name_in(path@)),
{
    let ext: Option<String> = path_extension(path);
    let base: Option<String> = path_file_name(path);
    let ext_text: Option<&str> = match &ext {
        Some(e) => Some(e.as_str()),
        None => None,
    };
    let base_text: Option<&str> = match &base {
        Some(b) => Some(b.as_str()),
        None => None,
    };
    detect_named(ext_text, base_text)
}

/// Looks a format up by its short name.
pub fn by_name(name: &str) -> (r: Option<FormatTag>)
    ensures
        match r {
            Some(t) => format_name(t) == name@,
            None => forall|t: FormatTag| #[trigger] format_name(t) != name@,
        },
{
    FormatTag::from_name(name)
}

/// Every format is registered.
pub proof fn law_every_format_is_registered(t: FormatTag)
    ensures
        registered().contains(t),
{
    let all = registered();
    match t {
        FormatTag::Json => assert(all[0] == t),
        FormatTag::Yaml => assert(all[1] == t),
        FormatTag::Toml => assert(all[2] == t),
        FormatTag::Jsonl => assert(all[3] == t),
        FormatTag::Hcl => assert(all[4] == t),
        FormatTag::Ini => assert(all[5] == t),
        FormatTag::DotEnv => assert(all[6] == t),
        FormatTag::Csv => assert(all[7] == t),
        FormatTag::Tsv => assert(all[8] == t),
        FormatTag::Dockerfile => assert(all[9] == t),
        FormatTag::IgnoreList => assert(all[10] == t),
        FormatTag::Markdown => assert(all[11] == t),
        FormatTag::Frontmatter => assert(all[12] == t),
        FormatTag::Xml => assert(all[13] == t),
    }
}

} // verus!
