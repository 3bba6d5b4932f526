//! What an atomic replacement of a file decides: where the new contents are
//! prepared, and where the old ones are kept.
//!
//! The new contents are written next to the target and moved over it, so that
//! a reader sees either the old file or the new one.

use crate::error::{Error, Fault};
use crate::text::joined;
use vstd::prelude::*;

verus! {

/// The directory in which the new contents are prepared, given the parent of
/// the target: the current directory where the parent is empty, and none where
/// the target is a root.
pub open spec fn staging_dir_of(parent: Option<Seq<char>>) -> Option<Seq<char>> {
    match parent {
        None => None,
        Some(p) => if p.len() == 0 {
            Some("."@)
        } else {
            Some(p)
        },
    }
}

/// The directory in which the new contents are prepared.
pub fn staging_dir(parent: Option<&str>) -> (r: Option<String>)
    ensures
        match r {
            Some(dir) => staging_dir_of(
                match parent {
                    Some(p) => Some(p@),
                    None => None,
                },
            ) == Some(dir@),
            None => parent is None,
        },
{
    match parent {
        None => None,
        Some(p) => {
            if p.is_empty() {
                Some(".".to_owned())
            } else {
                Some(p.to_owned())
            }
        },
    }
}

/// Where the old contents of `path` are kept: next to it, with `.bak` behind the
/// whole name.
pub fn backup_path_for(path: &str) -> (r: String)
    ensures
        r@ == path@ + ".bak"@,
{
    joined(path, ".bak")
}

/// The error of a target that is a root: it has no directory to prepare the
/// contents in.
pub fn no_parent_error(path: &str) -> (r: Error)
    ensures
        r@ == (Fault::WriteIo {
            path: path@,
            source:
                "atomic write requires a parent directory; root-only paths are not supported"@,
        }),
{
    Error::WriteIo {
        path: path.to_owned(),
        source:
            "atomic write requires a parent directory; root-only paths are not supported".to_owned(),
    }
}

} // verus!
