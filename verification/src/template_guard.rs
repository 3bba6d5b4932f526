//! Detection and masking of template expressions.
//!
//! Files with raw expressions such as `{{ .Values.tag }}` or
//! `${{ secrets.TOKEN }}` are no valid YAML or JSON. They can be refused with
//! a pointer to the first marker, or masked: every expression is replaced by a
//! placeholder before parsing, and put back afterwards.

use crate::bytes::{append_bytes, append_text, copy_bytes, utf8_of};
use crate::numbers::{decimal, index_text};
use crate::position::{find_line_end, find_line_start, line_end, line_start, newlines};
use crate::text::{chars_of, copy_between, starts_with_chars, has_prefix, text_of, trim, trim_chars};
use crate::utf8_text::{lossy_text, utf8_lossy};
use vstd::prelude::*;
use vstd::utf8::encode_utf8;

verus! {

/// A template marker found in a file.
#[derive(Debug, PartialEq, Eq)]
pub struct TemplateMarker {
    /// 1-based line of the marker.
    pub line: u32,
    /// The source line, trimmed and cut at eighty characters.
    pub snippet: String,
}

impl Clone for TemplateMarker {
    fn clone(&self) -> (r: TemplateMarker)
        ensures
            r.line == self.line,
            r.snippet@ == self.snippet@,
    {
        TemplateMarker { line: self.line, snippet: self.snippet.clone() }
    }
}

/// What marks a template: GitHub Actions expressions, and Go templates whose
/// body starts with a dot or a word character. The braces may trim what stands
/// before them, as in `{{-`, and a white space may stand before the body.
pub const DETECTION_PATTERN: &'static str = r"(\$\{\{)|(\{\{-?\s?[\.\w])";

/// Every expression, up to the first closing braces.
pub const SUBSTITUTION_PATTERN: &'static str = r"\$?\{\{.*?\}\}";

/// Where the `regex` crate finds the first match of a pattern in bytes; none
/// also where the pattern is not a regular expression.
pub uninterp spec fn regex_first(pattern: Seq<char>, bytes: Seq<u8>) -> Option<(usize, usize)>;

/// `regex::bytes::Regex::new` and `find`: the range of the leftmost match,
/// which lies within the bytes.
#[verifier::external_body]
pub(crate) fn find_first(pattern: &str, bytes: &[u8]) -> (r: Option<(usize, usize)>)
    ensures
        r == regex_first(pattern@, bytes@),
        match r {
            Some((start, end)) => start <= end <= bytes@.len(),
            None => true,
        },
{
    let re = regex::bytes::Regex::new(pattern).ok()?;
    re.find(bytes).map(|m| (m.start(), m.end()))
}

/// Where the `regex` crate finds the matches of a pattern in bytes; none where
/// the pattern is not a regular expression.
pub uninterp spec fn regex_matches(pattern: Seq<char>, bytes: Seq<u8>) -> Seq<(usize, usize)>;

/// `regex::bytes::Regex::new` and `find_iter`: the ranges of successive
/// matches, which lie within the bytes and do not overlap. What matches
/// [`SUBSTITUTION_PATTERN`] starts and ends with the characters that the
/// pattern spells out.
#[verifier::external_body]
pub(crate) fn find_matches(pattern: &str, bytes: &[u8]) -> (r: Vec<(usize, usize)>)
    ensures
        r@ == regex_matches(pattern@, bytes@),
        in_order(r@, bytes@.len()),
        pattern@ == SUBSTITUTION_PATTERN@ ==> braced(bytes@, r@),
{
    match regex::bytes::Regex::new(pattern) {
        Ok(re) => re.find_iter(bytes).map(|m| (m.start(), m.end())).collect(),
        Err(_) => Vec::new(),
    }
}

/// Whether the ranges lie within `len` bytes, one behind the other.
pub open spec fn in_order(ms: Seq<(usize, usize)>, len: nat) -> bool {
    &&& forall|i: int| 0 <= i < ms.len() ==> (#[trigger] ms[i]).0 <= ms[i].1 <= len
    &&& forall|i: int, j: int|
        0 <= i < j < ms.len() ==> (#[trigger] ms[i]).1 <= (#[trigger] ms[j]).0
}

/// Whether every range starts with a `$` or a brace, and ends with a brace.
pub open spec fn braced(bytes: Seq<u8>, ms: Seq<(usize, usize)>) -> bool {
    forall|i: int|
        0 <= i < ms.len() ==> (#[trigger] ms[i]).0 < ms[i].1 <= bytes.len() && (
        bytes[ms[i].0 as int] == 36 || bytes[ms[i].0 as int] == 123) && bytes[ms[i].1 - 1] == 125
}

// ---------------------------------------------------------------------------
// Detection
// ---------------------------------------------------------------------------

/// The first `n` characters of `s`, or all of them.
pub open spec fn first_chars(s: Seq<char>, n: int) -> Seq<char> {
    if s.len() <= n {
        s
    } else {
        s.subrange(0, n)
    }
}

/// The 1-based line of position `k`, as a `u32` counts.
pub open spec fn marker_line(bytes: Seq<u8>, k: int) -> int {
    (newlines(bytes, k) as int + 1) % 0x1_0000_0000
}

/// The line that holds position `k`, trimmed and cut at eighty characters.
pub open spec fn marker_snippet(bytes: Seq<u8>, k: int) -> Seq<char> {
    first_chars(
        trim(utf8_lossy(bytes.subrange(line_start(bytes, k), line_end(bytes, k)))),
        80,
    )
}

/// The marker at position `at`.
pub fn marker_at(bytes: &[u8], at: usize) -> (r: TemplateMarker)
    requires
        at <= bytes@.len(),
    ensures
        r.line == marker_line(bytes@, at as int),
        r.snippet@ == marker_snippet(bytes@, at as int),
{
    let mut line: u32 = 1;
    let mut i: usize = 0;
    while i < at
        invariant
            i <= at <= bytes@.len(),
            line == marker_line(bytes@, i as int),
        decreases at - i,
    {
        if bytes[i] == 10 {
            line = line.wrapping_add(1);
        }
        i += 1;
    }
    let start: usize = find_line_start(bytes, at);
    let end: usize = find_line_end(bytes, at);
    let raw: Vec<u8> = copy_bytes(bytes, start, end);
    let text: Vec<char> = trim_chars(&chars_of(lossy_text(raw.as_slice()).as_str()));
    let n: usize = if text.len() <= 80 {
        text.len()
    } else {
        80
    };
    let shown: Vec<char> = copy_between(&text, 0, n);
    assert(shown@ =~= first_chars(text@, 80));
    TemplateMarker { line, snippet: text_of(&shown) }
}

/// Detects the first template marker.
pub fn detect_templates(bytes: &[u8]) -> (r: Option<TemplateMarker>)
    ensures
        match (r, regex_first(DETECTION_PATTERN@, bytes@)) {
            (Some(marker), Some((start, _))) => marker.line == marker_line(bytes@, start as int)
                && marker.snippet@ == marker_snippet(bytes@, start as int),
            (None, None) => true,
            _ => false,
        },
{
    match find_first(DETECTION_PATTERN, bytes) {
        Some((start, _)) => Some(marker_at(bytes, start)),
        None => None,
    }
}

// ---------------------------------------------------------------------------
// Masking
// ---------------------------------------------------------------------------

/// The placeholder with number `n`.
pub open spec fn placeholder(n: nat) -> Seq<char> {
    "__DQ_TPL_"@ + decimal(n) + "__"@
}

fn placeholder_text(n: usize) -> (r: String)
    ensures
        r@ == placeholder(n as nat),
{
    let mut out: String = "__DQ_TPL_".to_owned();
    let number: String = index_text(n);
    out.push_str(number.as_str());
    out.push_str("__");
    out
}

/// Where the first `k` matches end.
pub open spec fn matched_to(ms: Seq<(usize, usize)>, k: int) -> int {
    if k <= 0 {
        0
    } else {
        ms[k - 1].1 as int
    }
}

/// The bytes up to the end of match `k`, with the first `k` matches masked.
pub open spec fn masked_to(bytes: Seq<u8>, ms: Seq<(usize, usize)>, k: int) -> Seq<u8>
    decreases k,
{
    if k <= 0 {
        Seq::empty()
    } else {
        masked_to(bytes, ms, k - 1) + bytes.subrange(matched_to(ms, k - 1), ms[k - 1].0 as int)
            + encode_utf8(placeholder((k - 1) as nat))
    }
}

/// The bytes with every match replaced by its placeholder.
pub open spec fn masked(bytes: Seq<u8>, ms: Seq<(usize, usize)>) -> Seq<u8> {
    masked_to(bytes, ms, ms.len() as int) + bytes.subrange(
        matched_to(ms, ms.len() as int),
        bytes.len() as int,
    )
}

/// Each placeholder with the text it stands for.
pub open spec fn originals(bytes: Seq<u8>, ms: Seq<(usize, usize)>) -> Seq<(Seq<char>, Seq<char>)> {
    Seq::new(
        ms.len(),
        |i: int|
            (
                placeholder(i as nat),
                utf8_lossy(bytes.subrange(ms[i].0 as int, ms[i].1 as int)),
            ),
    )
}

/// The models of a list of placeholders.
pub open spec fn pair_models(s: Seq<(String, String)>) -> Seq<(Seq<char>, Seq<char>)> {
    Seq::new(s.len(), |i: int| (s[i].0@, s[i].1@))
}

/// Replaces every match by a placeholder of its own.
pub fn substitute_matches(bytes: &[u8], ms: &Vec<(usize, usize)>) -> (r: (
    Vec<u8>,
    Vec<(String, String)>,
))
    requires
        in_order(ms@, bytes@.len()),
    ensures
        r.0@ == masked(bytes@, ms@),
        pair_models(r.1@) == originals(bytes@, ms@),
{
    let mut out: Vec<u8> = Vec::new();
    let mut map: Vec<(String, String)> = Vec::new();
    let mut last_end: usize = 0;
    let mut k: usize = 0;
    while k < ms.len()
        invariant
            k <= ms@.len(),
            in_order(ms@, bytes@.len()),
            last_end == matched_to(ms@, k as int),
            last_end <= bytes@.len(),
            out@ == masked_to(bytes@, ms@, k as int),
            map@.len() == k,
            forall|i: int|
                0 <= i < k ==> (#[trigger] map@[i]).0@ == placeholder(i as nat) && map@[i].1@
                    == utf8_lossy(bytes@.subrange(ms@[i].0 as int, ms@[i].1 as int)),
        decreases ms@.len() - k,
    {
        let start: usize = ms[k].0;
        let end: usize = ms[k].1;
        proof {
            if k > 0 {
                assert(ms@[k - 1].1 <= ms@[k as int].0);
            }
            assert(ms@[k as int].0 <= ms@[k as int].1 <= bytes@.len());
        }
        let gap: Vec<u8> = copy_bytes(bytes, last_end, start);
        append_bytes(&mut out, gap.as_slice());
        let mask: String = placeholder_text(k);
        append_text(&mut out, mask.as_str());
        let block: Vec<u8> = copy_bytes(bytes, start, end);
        map.push((mask, lossy_text(block.as_slice())));
        last_end = end;
        k += 1;
    }
    let rest: Vec<u8> = copy_bytes(bytes, last_end, bytes.len());
    append_bytes(&mut out, rest.as_slice());
    assert(pair_models(map@) =~= originals(bytes@, ms@));
    (out, map)
}

/// Replaces every template expression by a placeholder; quotes around it stay.
/// The list gives for each placeholder what it stands for.
pub fn substitute_placeholders(bytes: &[u8]) -> (r: (Vec<u8>, Vec<(String, String)>))
    ensures
        r.0@ == masked(bytes@, regex_matches(SUBSTITUTION_PATTERN@, bytes@)),
        pair_models(r.1@) == originals(bytes@, regex_matches(SUBSTITUTION_PATTERN@, bytes@)),
        in_order(regex_matches(SUBSTITUTION_PATTERN@, bytes@), bytes@.len()),
        braced(bytes@, regex_matches(SUBSTITUTION_PATTERN@, bytes@)),
{
    let ms: Vec<(usize, usize)> = find_matches(SUBSTITUTION_PATTERN, bytes);
    substitute_matches(bytes, &ms)
}

/// `s` with every occurrence of `from` replaced by `to`, from left to right.
/// An empty `from` occurs before every character and at the end.
pub open spec fn replaced(s: Seq<char>, from: Seq<char>, to: Seq<char>) -> Seq<char>
    decreases s.len(),
{
    if s.len() == 0 {
        if from.len() == 0 {
            to
        } else {
            Seq::empty()
        }
    } else if from.len() == 0 {
        to + seq![s[0]] + replaced(s.subrange(1, s.len() as int), from, to)
    } else if has_prefix(s, from) {
        to + replaced(s.subrange(from.len() as int, s.len() as int), from, to)
    } else {
        seq![s[0]] + replaced(s.subrange(1, s.len() as int), from, to)
    }
}

/// Replaces every occurrence of `from` by `to`.
pub fn replace_all(s: &Vec<char>, from: &Vec<char>, to: &Vec<char>) -> (r: Vec<char>)
    ensures
        r@ == replaced(s@, from@, to@),
{
    let mut out: Vec<char> = Vec::new();
    let mut i: usize = 0;
    assert(s@.subrange(0, s@.len() as int) =~= s@);
    assert(out@ + replaced(s@, from@, to@) =~= replaced(s@, from@, to@));
    while i < s.len()
        invariant
            i <= s@.len(),
            out@ + replaced(s@.subrange(i as int, s@.len() as int), from@, to@) == replaced(
                s@,
                from@,
                to@,
            ),
        decreases s@.len() - i,
    {
        let ghost rest = s@.subrange(i as int, s@.len() as int);
        let ghost before = out@;
        let tail: Vec<char> = copy_between(s, i, s.len());
        assert(rest.subrange(1, rest.len() as int) =~= s@.subrange(i + 1, s@.len() as int));
        if from.len() > 0 && starts_with_chars(&tail, from) {
            push_all(&mut out, to);
            i += from.len();
            assert(rest.subrange(from@.len() as int, rest.len() as int) =~= s@.subrange(
                i as int,
                s@.len() as int,
            ));
        } else {
            if from.len() == 0 {
                push_all(&mut out, to);
            }
            out.push(s[i]);
            i += 1;
        }
        assert(out@ + replaced(s@.subrange(i as int, s@.len() as int), from@, to@) =~= before
            + replaced(rest, from@, to@));
    }
    assert(s@.subrange(i as int, s@.len() as int) =~= Seq::<char>::empty());
    if from.len() == 0 {
        push_all(&mut out, to);
    } else {
        assert(out@ + Seq::<char>::empty() =~= out@);
    }
    out
}

/// Appends the characters of `t`.
fn push_all(out: &mut Vec<char>, t: &Vec<char>)
    ensures
        final(out)@ == old(out)@ + t@,
{
    let mut i: usize = 0;
    assert(out@ =~= old(out)@ + t@.subrange(0, 0));
    while i < t.len()
        invariant
            i <= t@.len(),
            out@ == old(out)@ + t@.subrange(0, i as int),
        decreases t@.len() - i,
    {
        out.push(t[i]);
        assert(out@ =~= old(out)@ + t@.subrange(0, i + 1));
        i += 1;
    }
    assert(t@.subrange(0, t@.len() as int) =~= t@);
}

/// `s` with the first `k` placeholders put back, one after the other.
pub open spec fn restored_text(s: Seq<char>, map: Seq<(Seq<char>, Seq<char>)>, k: int) -> Seq<char>
    decreases k,
{
    if k <= 0 {
        s
    } else {
        replaced(restored_text(s, map, k - 1), map[k - 1].0, map[k - 1].1)
    }
}

/// Puts back what each placeholder stands for.
pub fn restore_placeholders(bytes: &[u8], map: &Vec<(String, String)>) -> (r: Vec<u8>)
    ensures
        r@ == encode_utf8(
            restored_text(utf8_lossy(bytes@), pair_models(map@), map@.len() as int),
        ),
{
    let mut text: Vec<char> = chars_of(lossy_text(bytes).as_str());
    let mut k: usize = 0;
    while k < map.len()
        invariant
            k <= map@.len(),
            text@ == restored_text(utf8_lossy(bytes@), pair_models(map@), k as int),
        decreases map@.len() - k,
    {
        let from: Vec<char> = chars_of(map[k].0.as_str());
        let to: Vec<char> = chars_of(map[k].1.as_str());
        assert(pair_models(map@)[k as int] == (from@, to@));
        text = replace_all(&text, &from, &to);
        k += 1;
    }
    utf8_of(text_of(&text).as_str())
}

} // verus!
