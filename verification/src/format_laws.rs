//! Which format a file is in, and what a document says of itself.

use crate::dispatch::parsed_as;
use crate::error::{kind_name_of, Fault};
use crate::format::{
    claiming, detected, extension_in, extension_of_name, extensions_of, last_dot, last_slash,
    name_in, named_file, registered, Format,
};
use crate::format_tag::FormatTag;
use crate::text::lowered;
use crate::value::{lemma_array_view, lemma_object_view, trees, Tree, Value, ValueMap};
use vstd::prelude::*;
use vstd::std_specs::convert::FromSpec;

verus! {

/// The format that an extension tells.
pub open spec fn told_by_extension(e: Seq<char>) -> Option<FormatTag> {
    if e == "json"@ {
        Some(FormatTag::Json)
    } else if e == "yaml"@ || e == "yml"@ {
        Some(FormatTag::Yaml)
    } else if e == "toml"@ {
        Some(FormatTag::Toml)
    } else if e == "jsonl"@ || e == "ndjson"@ {
        Some(FormatTag::Jsonl)
    } else if e == "hcl"@ || e == "tf"@ || e == "tfvars"@ {
        Some(FormatTag::Hcl)
    } else if e == "ini"@ || e == "properties"@ || e == "cfg"@ {
        Some(FormatTag::Ini)
    } else if e == "env"@ {
        Some(FormatTag::DotEnv)
    } else if e == "csv"@ {
        Some(FormatTag::Csv)
    } else if e == "tsv"@ {
        Some(FormatTag::Tsv)
    } else if e == "dockerfile"@ || e == "containerfile"@ {
        Some(FormatTag::Dockerfile)
    } else if e == "gitignore"@ || e == "dockerignore"@ {
        Some(FormatTag::IgnoreList)
    } else if e == "md"@ || e == "markdown"@ {
        Some(FormatTag::Markdown)
    } else if e == "xml"@ {
        Some(FormatTag::Xml)
    } else {
        None
    }
}

proof fn lemma_words()
    ensures
        "json"@.len() == 4 && "json"@[0] == 'j',
        "yaml"@.len() == 4 && "yaml"@[0] == 'y',
        "yml"@.len() == 3 && "yml"@[0] == 'y',
        "toml"@.len() == 4 && "toml"@[0] == 't',
        "jsonl"@.len() == 5 && "jsonl"@[0] == 'j',
        "ndjson"@.len() == 6 && "ndjson"@[0] == 'n',
        "hcl"@.len() == 3 && "hcl"@[0] == 'h',
        "tf"@.len() == 2 && "tf"@[0] == 't',
        "tfvars"@.len() == 6 && "tfvars"@[0] == 't',
        "ini"@.len() == 3 && "ini"@[0] == 'i',
        "properties"@.len() == 10,
        "cfg"@.len() == 3 && "cfg"@[0] == 'c' && "cfg"@[1] == 'f',
        "env"@.len() == 3 && "env"@[0] == 'e',
        "csv"@.len() == 3 && "csv"@[0] == 'c' && "csv"@[1] == 's',
        "tsv"@.len() == 3 && "tsv"@[0] == 't',
        "dockerfile"@.len() == 10,
        "containerfile"@.len() == 13,
        "gitignore"@.len() == 9,
        "dockerignore"@.len() == 12,
        "md"@.len() == 2 && "md"@[0] == 'm',
        "markdown"@.len() == 8,
        "xml"@.len() == 3 && "xml"@[0] == 'x',
        "properties"@[0] == 'p' && "dockerfile"@[0] == 'd',
{
    reveal_strlit("json");
    reveal_strlit("yaml");
    reveal_strlit("yml");
    reveal_strlit("toml");
    reveal_strlit("jsonl");
    reveal_strlit("ndjson");
    reveal_strlit("hcl");
    reveal_strlit("tf");
    reveal_strlit("tfvars");
    reveal_strlit("ini");
    reveal_strlit("properties");
    reveal_strlit("cfg");
    reveal_strlit("env");
    reveal_strlit("csv");
    reveal_strlit("tsv");
    reveal_strlit("dockerfile");
    reveal_strlit("containerfile");
    reveal_strlit("gitignore");
    reveal_strlit("dockerignore");
    reveal_strlit("md");
    reveal_strlit("markdown");
    reveal_strlit("xml");
}

proof fn lemma_claimed(e: Seq<char>, t: FormatTag)
    ensures
        extensions_of(t).contains(e) <==> (told_by_extension(e) == Some(t) || (t
            == FormatTag::Frontmatter && told_by_extension(e) == Some(FormatTag::Markdown))),
{
    lemma_words();
    let list = extensions_of(t);
    if list.contains(e) {
        let i = choose|i: int| 0 <= i < list.len() && list[i] == e;
        assert(e == list[0] || e == list[1] || e == list[2]);
    }
    assert(list.len() > 0 && list.contains(list[0]));
    if list.len() > 1 {
        assert(list.contains(list[1]));
    }
    if list.len() > 2 {
        assert(list.contains(list[2]));
    }
}

proof fn lemma_claiming(e: Seq<char>, k: int)
    requires
        0 <= k <= registered().len(),
        forall|i: int| 0 <= i < k ==> !extensions_of(#[trigger] registered()[i]).contains(e),
    ensures
        claiming(e, k) == told_by_extension(e),
    decreases registered().len() - k,
{
    if k < registered().len() {
        let t = registered()[k];
        lemma_claimed(e, t);
        if extensions_of(t).contains(e) {
            if t == FormatTag::Frontmatter {
                assert(registered()[11] == FormatTag::Markdown);
                lemma_claimed(e, FormatTag::Markdown);
                assert(k == 12);
            }
        } else {
            lemma_claiming(e, k + 1);
        }
    } else {
        if let Some(t) = told_by_extension(e) {
            crate::format::law_every_format_is_registered(t);
            let i = choose|i: int| 0 <= i < registered().len() && registered()[i] == t;
            assert(registered()[i] == t);
            lemma_claimed(e, t);
        }
    }
}

/// The extension decides the format of a file, in any case of its letters. Where
/// it tells none, the name does.
pub proof fn law_extension_decides(ext: Option<Seq<char>>, base: Option<Seq<char>>)
    ensures
        ({
            let told = match ext {
                Some(e) => told_by_extension(lowered(e)),
                None => None,
            };
            &&& told is Some ==> detected(ext, base) == told
            &&& told is None ==> detected(ext, base) == (match base {
                Some(name) => named_file(name),
                None => None,
            })
        }),
{
    if let Some(e) = ext {
        lemma_claiming(lowered(e), 0);
    }
}

/// A file without a telling extension is known by its name, in any case of its
/// letters.
pub proof fn law_name_decides(base: Seq<char>)
    ensures
        ({
            let low = lowered(base);
            &&& named_file(base) == Some(FormatTag::Dockerfile) <==> low == "dockerfile"@ || low
                == "containerfile"@
            &&& named_file(base) == Some(FormatTag::IgnoreList) <==> low == ".gitignore"@ || low
                == ".dockerignore"@ || low == ".npmignore"@ || low == ".eslintignore"@
            &&& named_file(base) == Some(FormatTag::DotEnv) <==> low == ".env"@
            &&& named_file(base) matches Some(t) ==> t == FormatTag::Dockerfile || t
                == FormatTag::IgnoreList || t == FormatTag::DotEnv
        }),
{
    reveal_strlit("Dockerfile");
    reveal_strlit("dockerfile");
    reveal_strlit("Containerfile");
    reveal_strlit("containerfile");
    reveal_strlit(".gitignore");
    reveal_strlit(".dockerignore");
    reveal_strlit(".npmignore");
    reveal_strlit(".eslintignore");
    reveal_strlit(".env");
    assert(lowered("Dockerfile"@) =~= "dockerfile"@);
    assert(lowered("Containerfile"@) =~= "containerfile"@);
    assert(lowered(".gitignore"@) =~= ".gitignore"@);
    assert(lowered(".dockerignore"@) =~= ".dockerignore"@);
    assert(lowered(".npmignore"@) =~= ".npmignore"@);
    assert(lowered(".eslintignore"@) =~= ".eslintignore"@);
    assert(lowered(".env"@) =~= ".env"@);
    assert("dockerfile"@[0] == 'd' && "containerfile"@[0] == 'c');
    assert(".gitignore"@[1] == 'g' && ".dockerignore"@[1] == 'd' && ".npmignore"@[1] == 'n'
        && ".eslintignore"@[1] == 'e' && ".env"@[1] == 'e');
    assert(".gitignore"@[0] == '.' && ".dockerignore"@[0] == '.' && ".npmignore"@[0] == '.'
        && ".eslintignore"@[0] == '.' && ".env"@[0] == '.');
    assert(".eslintignore"@.len() == 13 && ".env"@.len() == 4);
}

proof fn lemma_last_dot(name: Seq<char>, k: nat)
    requires
        k <= name.len(),
    ensures
        -1 <= last_dot(name, k) < k,
        last_dot(name, k) >= 0 ==> name[last_dot(name, k)] == '.',
        forall|i: int| last_dot(name, k) < i < k ==> #[trigger] name[i] != '.',
    decreases k,
{
    if k > 0 && name[k - 1] != '.' {
        lemma_last_dot(name, (k - 1) as nat);
    }
}

proof fn lemma_last_slash(path: Seq<char>, k: nat)
    requires
        k <= path.len(),
    ensures
        -1 <= last_slash(path, k) < k,
        last_slash(path, k) >= 0 ==> path[last_slash(path, k)] == '/',
        forall|i: int| last_slash(path, k) < i < k ==> #[trigger] path[i] != '/',
    decreases k,
{
    if k > 0 && path[k - 1] != '/' {
        lemma_last_slash(path, (k - 1) as nat);
    }
}

/// The extension of a name is what stands behind its last dot, if something stands
/// before that.
pub proof fn law_extension_follows_the_last_dot(stem: Seq<char>, ext: Seq<char>)
    requires
        stem.len() > 0,
        forall|i: int| 0 <= i < ext.len() ==> #[trigger] ext[i] != '.',
    ensures
        extension_of_name(stem + seq!['.'] + ext) == Some(ext),
        extension_of_name(seq!['.'] + ext) is None,
        extension_of_name(ext) is None,
{
    let name = stem + seq!['.'] + ext;
    lemma_last_dot(name, name.len());
    assert(name[stem.len() as int] == '.');
    assert forall|i: int| stem.len() < i < name.len() implies #[trigger] name[i] != '.' by {
        assert(name[i] == ext[i - stem.len() - 1]);
    }
    assert(last_dot(name, name.len()) == stem.len());
    assert(name.subrange(stem.len() as int + 1, name.len() as int) =~= ext);
    let hidden = seq!['.'] + ext;
    lemma_last_dot(hidden, hidden.len());
    assert forall|i: int| 0 < i < hidden.len() implies #[trigger] hidden[i] != '.' by {
        assert(hidden[i] == ext[i - 1]);
    }
    lemma_last_dot(ext, ext.len());
}

/// The name of a file is what stands behind the last slash of its path, and its
/// extension is that of its name.
pub proof fn law_name_follows_the_last_slash(dir: Seq<char>, name: Seq<char>)
    requires
        name.len() > 0 && name != "."@ && name != ".."@,
        forall|i: int| 0 <= i < name.len() ==> #[trigger] name[i] != '/',
    ensures
        name_in(dir + seq!['/'] + name) == Some(name),
        name_in(name) == Some(name),
        name_in(dir + seq!['/']) == name_in(dir),
        extension_in(dir + seq!['/'] + name) == extension_of_name(name),
{
    let path = dir + seq!['/'] + name;
    lemma_last_slash(path, path.len());
    assert(path[dir.len() as int] == '/');
    assert forall|i: int| dir.len() < i < path.len() implies #[trigger] path[i] != '/' by {
        assert(path[i] == name[i - dir.len() - 1]);
    }
    assert(last_slash(path, path.len()) == dir.len());
    assert(path.subrange(dir.len() as int + 1, path.len() as int) =~= name);
    lemma_last_slash(name, name.len());
    assert(name.subrange(0, name.len() as int) =~= name);
    let open = dir + seq!['/'];
    lemma_last_slash(open, open.len());
    assert(open[dir.len() as int] == '/');
    assert(open.subrange(0, dir.len() as int) =~= dir);
    assert(open.subrange(dir.len() as int + 1, open.len() as int) =~= Seq::<char>::empty());
}

/// A document that was read as a format says that it is in that format.
pub proof fn law_document_knows_its_format(tag: FormatTag, bytes: Seq<u8>)
    ensures
        parsed_as(tag, bytes) matches Ok(doc) ==> doc.format == tag,
{
}

/// No two kinds of errors share an identifier.
pub proof fn law_error_kinds_have_names_of_their_own(a: Fault, b: Fault)
    ensures
        kind_name_of(a) == kind_name_of(b) <==> match a {
            Fault::Io { .. } => b is Io,
            Fault::WriteIo { .. } => b is WriteIo,
            Fault::Parse { .. } => b is Parse,
            Fault::Path { .. } => b is Path,
            Fault::UnsupportedFormat { .. } => b is UnsupportedFormat,
            Fault::Format { .. } => b is Format,
            Fault::WriteUnavailable { .. } => b is WriteUnavailable,
            Fault::TemplatedFile { .. } => b is TemplatedFile,
            Fault::PatchTestFailed { .. } => b is PatchTestFailed,
        },
{
    reveal_strlit("io");
    reveal_strlit("write_io");
    reveal_strlit("parse");
    reveal_strlit("path");
    reveal_strlit("unsupported_format");
    reveal_strlit("format");
    reveal_strlit("write_unavailable");
    reveal_strlit("templated_file");
    reveal_strlit("patch_test_failed");
    assert("io"@.len() == 2 && "write_io"@.len() == 8 && "parse"@.len() == 5 && "path"@.len() == 4
        && "unsupported_format"@.len() == 18 && "format"@.len() == 6
        && "write_unavailable"@.len() == 17 && "templated_file"@.len() == 14
        && "patch_test_failed"@.len() == 17);
    assert("write_unavailable"@[0] == 'w' && "patch_test_failed"@[0] == 'p');
}

/// A value that is made of plain data is that data.
pub proof fn law_conversions_keep_the_data(b: bool, n: i64, s: String, items: Vec<Value>, map: ValueMap)
    ensures
        <Value as FromSpec<bool>>::from_spec(b)@ == Tree::Bool(b),
        <Value as FromSpec<i64>>::from_spec(n)@ == Tree::Int(n as int),
        <Value as FromSpec<String>>::from_spec(s)@ == Tree::String(s@),
        <Value as FromSpec<Vec<Value>>>::from_spec(items)@ == Tree::Array(trees(items@)),
        <Value as FromSpec<ValueMap>>::from_spec(map)@ == Tree::Object(map@),
{
    lemma_array_view(items);
    lemma_object_view(map);
}

} // verus!
