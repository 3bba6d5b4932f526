//! Where the scalars of a JSON text stand in its bytes.
//!
//! The scanner follows RFC 8259 closely enough to find every scalar; what it
//! lets pass, the reading of the value tree rejects. Comments are rejected
//! here, with words of their own.

use crate::bytes::copy_bytes;
use crate::error::{texts, unplaced_parse, unplaced_parse_error, Error, Fault};
use crate::numbers::{decimal, index_text};
use crate::parsers::json_values::{decode_string, json_string_text};
use crate::parsers::source_lines::{
    compute_indent, extract_line_snippet, indent_at, make_span, path_text, pointer_for, shown_line,
    span_of,
};
use crate::pointer::{escape_segment, escaped};
use crate::position::{derive_line_col, line_col};
use crate::spans::{
    span_entries, span_map_insert, span_map_new, SpanContext, SpanMap, ValueSpan,
};
use crate::utf8_text::checked_text;
use crate::value::inserted;
use vstd::prelude::*;
use vstd::utf8::valid_utf8;

verus! {

// ---------------------------------------------------------------------------
// The grammar
// ---------------------------------------------------------------------------

/// A fault at a byte position.
pub open spec fn json_fault(bytes: Seq<u8>, at: int, message: Seq<char>) -> Fault {
    Fault::Parse {
        file: None,
        line: line_col(bytes, at).0,
        col: line_col(bytes, at).1,
        start: at,
        end: if at < bytes.len() {
            at + 1
        } else {
            bytes.len() as int
        },
        snippet: shown_line(bytes, at),
        message,
    }
}

/// Whether position `k` holds byte `b`.
pub open spec fn holds(bytes: Seq<u8>, k: int, b: u8) -> bool {
    0 <= k < bytes.len() && bytes[k] == b
}

/// Whether position `k` holds white space.
pub open spec fn holds_blank(bytes: Seq<u8>, k: int) -> bool {
    holds(bytes, k, 32) || holds(bytes, k, 9) || holds(bytes, k, 10) || holds(bytes, k, 13)
}

/// The first position from `pos` on that holds no white space. A comment there
/// is a fault.
pub open spec fn skipped(bytes: Seq<u8>, pos: int) -> Result<int, Fault>
    decreases bytes.len() - pos,
{
    if holds_blank(bytes, pos) {
        skipped(bytes, pos + 1)
    } else if holds(bytes, pos, 47) && (holds(bytes, pos + 1, 47) || holds(bytes, pos + 1, 42)) {
        Err(json_fault(bytes, pos, "comments are not valid JSON; JSONC is not supported"@))
    } else {
        Ok(pos)
    }
}

/// The position behind a string, `k` being inside it.
pub open spec fn string_rest(bytes: Seq<u8>, k: int) -> Result<int, Fault>
    decreases bytes.len() - k,
{
    let end = bytes.len() as int;
    if !(0 <= k < end) {
        Err(json_fault(bytes, end, "unterminated string literal"@))
    } else if bytes[k] == 34u8 {
        Ok(k + 1)
    } else if bytes[k] != 92u8 {
        string_rest(bytes, k + 1)
    } else if holds(bytes, k + 1, 117) {
        if k + 6 <= end {
            string_rest(bytes, k + 6)
        } else {
            Err(json_fault(bytes, end, "unexpected EOF inside \\u escape"@))
        }
    } else if k + 1 < end {
        string_rest(bytes, k + 2)
    } else {
        Err(json_fault(bytes, end, "unexpected EOF after backslash escape"@))
    }
}

/// The position behind the string that starts at `pos`.
pub open spec fn string_end(bytes: Seq<u8>, pos: int) -> Result<int, Fault> {
    if holds(bytes, pos, 34) {
        string_rest(bytes, pos + 1)
    } else {
        Err(json_fault(bytes, pos, "expected '\"'"@))
    }
}

/// Whether `word` stands at position `pos`.
pub open spec fn stands_at(bytes: Seq<u8>, pos: int, word: Seq<u8>) -> bool {
    pos + word.len() <= bytes.len() && bytes.subrange(pos, pos + word.len()) == word
}

/// The position behind the `true` or `false` at `pos`.
pub open spec fn bool_end(bytes: Seq<u8>, pos: int) -> Result<int, Fault> {
    if stands_at(bytes, pos, seq![116u8, 114u8, 117u8, 101u8]) {
        Ok(pos + 4)
    } else if stands_at(bytes, pos, seq![102u8, 97u8, 108u8, 115u8, 101u8]) {
        Ok(pos + 5)
    } else {
        Err(json_fault(bytes, pos, "expected 'true' or 'false'"@))
    }
}

/// The position behind the `null` at `pos`.
pub open spec fn null_end(bytes: Seq<u8>, pos: int) -> Result<int, Fault> {
    if stands_at(bytes, pos, seq![110u8, 117u8, 108u8, 108u8]) {
        Ok(pos + 4)
    } else {
        Err(json_fault(bytes, pos, "expected 'null'"@))
    }
}

/// Whether position `k` holds a digit.
pub open spec fn holds_digit(bytes: Seq<u8>, k: int) -> bool {
    0 <= k < bytes.len() && 48u8 <= bytes[k] <= 57u8
}

/// The first position from `k` on that holds no digit.
pub open spec fn byte_digits_end(bytes: Seq<u8>, k: int) -> int
    decreases bytes.len() - k,
{
    if holds_digit(bytes, k) {
        byte_digits_end(bytes, k + 1)
    } else {
        k
    }
}

/// The position behind a fraction that may start at `k`.
pub open spec fn fraction_end(bytes: Seq<u8>, k: int) -> int {
    if holds(bytes, k, 46) {
        byte_digits_end(bytes, k + 1)
    } else {
        k
    }
}

/// The position behind an exponent that may start at `k`.
pub open spec fn exponent_end(bytes: Seq<u8>, k: int) -> int {
    if holds(bytes, k, 101) || holds(bytes, k, 69) {
        byte_digits_end(
            bytes,
            if holds(bytes, k + 1, 43) || holds(bytes, k + 1, 45) {
                k + 2
            } else {
                k + 1
            },
        )
    } else {
        k
    }
}

/// The position behind the number that starts at `pos`.
pub open spec fn number_end(bytes: Seq<u8>, pos: int) -> Result<int, Fault> {
    let first = if holds(bytes, pos, 45) {
        pos + 1
    } else {
        pos
    };
    if holds(bytes, first, 48) {
        Ok(exponent_end(bytes, fraction_end(bytes, first + 1)))
    } else if holds_digit(bytes, first) {
        Ok(exponent_end(bytes, fraction_end(bytes, byte_digits_end(bytes, first))))
    } else {
        Err(json_fault(bytes, first, "expected digit in number"@))
    }
}

// ---------------------------------------------------------------------------
// The scalars
// ---------------------------------------------------------------------------

/// Spans by pointer text.
pub type SpanSeq = Seq<(Seq<char>, ValueSpan)>;

/// The spans with that of a scalar added.
pub open spec fn scalar_recorded(
    bytes: Seq<u8>,
    path: Seq<Seq<char>>,
    spans: SpanSeq,
    start: int,
    end: int,
    context: SpanContext,
) -> SpanSeq {
    inserted(
        spans,
        path_text(path),
        span_of(bytes, start, end, indent_at(bytes, start), context),
    )
}

/// The outcome of scanning a scalar that ends at `end`.
pub open spec fn scalar_scanned(
    bytes: Seq<u8>,
    path: Seq<Seq<char>>,
    spans: SpanSeq,
    start: int,
    end: Result<int, Fault>,
    context: SpanContext,
) -> Result<(int, SpanSeq), Fault> {
    match end {
        Ok(e) => Ok((e, scalar_recorded(bytes, path, spans, start, e, context))),
        Err(f) => Err(f),
    }
}

/// What scanning the value at `pos` gives: the position behind it, and the
/// spans with those of its scalars added.
pub open spec fn value_scanned(
    bytes: Seq<u8>,
    pos: int,
    path: Seq<Seq<char>>,
    spans: SpanSeq,
    context: SpanContext,
) -> Result<(int, SpanSeq), Fault>
    decreases bytes.len() - pos, 0nat,
{
    match skipped(bytes, pos) {
        Err(f) => Err(f),
        Ok(p) => if !(0 <= pos <= p < bytes.len()) {
            Err(json_fault(bytes, p, "unexpected EOF while parsing value"@))
        } else if bytes[p] == 123u8 {
            object_scanned(bytes, p + 1, path, spans)
        } else if bytes[p] == 91u8 {
            array_scanned(bytes, p + 1, path, spans)
        } else if bytes[p] == 34u8 {
            scalar_scanned(bytes, path, spans, p, string_end(bytes, p), context)
        } else if bytes[p] == 116u8 || bytes[p] == 102u8 {
            scalar_scanned(bytes, path, spans, p, bool_end(bytes, p), context)
        } else if bytes[p] == 110u8 {
            scalar_scanned(bytes, path, spans, p, null_end(bytes, p), context)
        } else if bytes[p] == 45u8 || holds_digit(bytes, p) {
            scalar_scanned(bytes, path, spans, p, number_end(bytes, p), context)
        } else {
            Err(json_fault(bytes, p, "expected JSON value (object, array, scalar)"@))
        },
    }
}

/// What scanning an object gives, `pos` being behind its brace.
pub open spec fn object_scanned(
    bytes: Seq<u8>,
    pos: int,
    path: Seq<Seq<char>>,
    spans: SpanSeq,
) -> Result<(int, SpanSeq), Fault>
    decreases bytes.len() - pos, 3nat,
{
    match skipped(bytes, pos) {
        Err(f) => Err(f),
        Ok(q) => if holds(bytes, q, 125) {
            Ok((q + 1, spans))
        } else if 0 <= pos <= q <= bytes.len() {
            members_scanned(bytes, q, path, spans)
        } else {
            Ok((q, spans))
        },
    }
}

/// What scanning an array gives, `pos` being behind its bracket.
pub open spec fn array_scanned(
    bytes: Seq<u8>,
    pos: int,
    path: Seq<Seq<char>>,
    spans: SpanSeq,
) -> Result<(int, SpanSeq), Fault>
    decreases bytes.len() - pos, 3nat,
{
    match skipped(bytes, pos) {
        Err(f) => Err(f),
        Ok(q) => if holds(bytes, q, 93) {
            Ok((q + 1, spans))
        } else if 0 <= pos <= q <= bytes.len() {
            items_scanned(bytes, q, path, spans, 0)
        } else {
            Ok((q, spans))
        },
    }
}

/// What scanning one member of an object at `pos` gives: the position behind
/// it and what follows it, the spans, and whether another one follows.
pub open spec fn member_scanned(
    bytes: Seq<u8>,
    pos: int,
    path: Seq<Seq<char>>,
    spans: SpanSeq,
) -> Result<(int, SpanSeq, bool), Fault>
    decreases bytes.len() - pos, 1nat,
{
    match key_scanned(bytes, pos) {
        Err(f) => Err(f),
        Ok((key, q)) => if !(0 <= pos < q) {
            Ok((q, spans, false))
        } else {
            match value_scanned(
                bytes,
                q,
                path.push(escaped(key)),
                spans,
                SpanContext::BlockMapValue,
            ) {
                Err(f) => Err(f),
                Ok((v, more)) => match skipped(bytes, v) {
                    Err(f) => Err(f),
                    Ok(s) => if holds(bytes, s, 44) {
                        Ok((s + 1, more, true))
                    } else if holds(bytes, s, 125) {
                        Ok((s + 1, more, false))
                    } else {
                        Err(json_fault(bytes, s, "expected ',' or '}' in object"@))
                    },
                },
            }
        },
    }
}

/// The key at `pos`, and the position behind its colon.
pub open spec fn key_scanned(bytes: Seq<u8>, pos: int) -> Result<(Seq<char>, int), Fault> {
    match skipped(bytes, pos) {
        Err(f) => Err(f),
        Ok(p) => if !holds(bytes, p, 34) {
            Err(json_fault(bytes, p, "expected string key in object"@))
        } else {
            match string_end(bytes, p) {
                Err(f) => Err(f),
                Ok(e) => match json_string_text(bytes.subrange(p, e)) {
                    None => Err(json_fault(bytes, p, "invalid JSON string escape in key"@)),
                    Some(key) => match skipped(bytes, e) {
                        Err(f) => Err(f),
                        Ok(q) => if holds(bytes, q, 58) {
                            Ok((key, q + 1))
                        } else {
                            Err(json_fault(bytes, q, "expected ':' after object key"@))
                        },
                    },
                },
            }
        },
    }
}

/// What scanning the members of an object from `pos` on gives.
pub open spec fn members_scanned(
    bytes: Seq<u8>,
    pos: int,
    path: Seq<Seq<char>>,
    spans: SpanSeq,
) -> Result<(int, SpanSeq), Fault>
    decreases bytes.len() - pos, 2nat,
{
    match member_scanned(bytes, pos, path, spans) {
        Err(f) => Err(f),
        Ok((p, more, again)) => if again && 0 <= pos < p <= bytes.len() {
            members_scanned(bytes, p, path, more)
        } else {
            Ok((p, more))
        },
    }
}

/// What scanning one item of an array at `pos` gives: the position behind it
/// and what follows it, the spans, and whether another one follows.
pub open spec fn item_scanned(
    bytes: Seq<u8>,
    pos: int,
    path: Seq<Seq<char>>,
    spans: SpanSeq,
    index: nat,
) -> Result<(int, SpanSeq, bool), Fault>
    decreases bytes.len() - pos, 1nat,
{
    match value_scanned(
        bytes,
        pos,
        path.push(decimal(index)),
        spans,
        SpanContext::BlockSeqItem,
    ) {
        Err(f) => Err(f),
        Ok((v, more)) => match skipped(bytes, v) {
            Err(f) => Err(f),
            Ok(s) => if holds(bytes, s, 44) {
                Ok((s + 1, more, true))
            } else if holds(bytes, s, 93) {
                Ok((s + 1, more, false))
            } else {
                Err(json_fault(bytes, s, "expected ',' or ']' in array"@))
            },
        },
    }
}

/// What scanning the items of an array from `pos` on gives, `index` being the
/// position of the first.
pub open spec fn items_scanned(
    bytes: Seq<u8>,
    pos: int,
    path: Seq<Seq<char>>,
    spans: SpanSeq,
    index: nat,
) -> Result<(int, SpanSeq), Fault>
    decreases bytes.len() - pos, 2nat,
{
    match item_scanned(bytes, pos, path, spans, index) {
        Err(f) => Err(f),
        Ok((p, more, again)) => if again && 0 <= pos < p <= bytes.len() {
            items_scanned(bytes, p, path, more, index + 1)
        } else {
            Ok((p, more))
        },
    }
}

/// Where the scalars of JSON bytes stand. Bytes of white space alone have none.
pub open spec fn json_spans(bytes: Seq<u8>) -> Result<SpanSeq, Fault> {
    if !valid_utf8(bytes) {
        Err(unplaced_parse("source is not valid UTF-8"@))
    } else {
        match skipped(bytes, 0) {
            Err(f) => Err(f),
            Ok(p) => if p >= bytes.len() {
                Ok(Seq::empty())
            } else {
                match value_scanned(
                    bytes,
                    p,
                    Seq::empty(),
                    Seq::empty(),
                    SpanContext::BlockMapValue,
                ) {
                    Ok((_, spans)) => Ok(spans),
                    Err(f) => Err(f),
                }
            },
        }
    }
}

// ---------------------------------------------------------------------------
// The scanner
// ---------------------------------------------------------------------------

/// White space leads no further than the end.
proof fn lemma_skipped(bytes: Seq<u8>, pos: int)
    requires
        0 <= pos <= bytes.len(),
    ensures
        skipped(bytes, pos) matches Ok(p) ==> pos <= p <= bytes.len(),
    decreases bytes.len() - pos,
{
    if holds_blank(bytes, pos) {
        lemma_skipped(bytes, pos + 1);
    }
}

/// A place in JSON bytes.
#[derive(Debug)]
pub struct Scanner<'a> {
    /// The bytes.
    pub bytes: &'a [u8],
    /// The place.
    pub pos: usize,
}

/// The outcome of a step that leads to a position.
pub open spec fn reached(r: Result<usize, Error>, model: Result<int, Fault>, pos: usize) -> bool {
    match (r, model) {
        (Ok(end), Ok(e)) => end == e && pos == e,
        (Err(e), Err(f)) => e@ == f,
        _ => false,
    }
}

/// The outcome of a scan.
pub open spec fn scanned(
    r: Result<(), Error>,
    model: Result<(int, SpanSeq), Fault>,
    pos: usize,
    spans: SpanSeq,
) -> bool {
    match (r, model) {
        (Ok(_), Ok((p, s))) => pos == p && spans == s,
        (Err(e), Err(f)) => e@ == f,
        _ => false,
    }
}

impl<'a> Scanner<'a> {
    /// Whether the place is one of the bytes, or their end.
    pub open spec fn wf(self) -> bool {
        self.pos <= self.bytes@.len() <= usize::MAX
    }

    /// At the start.
    pub fn new(bytes: &'a [u8]) -> (r: Scanner<'a>)
        ensures
            r.wf(),
            r.bytes == bytes,
            r.pos == 0,
    {
        let _count: usize = bytes.len();
        Scanner { bytes, pos: 0 }
    }

    /// Whether the end is reached.
    pub fn eof(&self) -> (r: bool)
        ensures
            r == (self.pos >= self.bytes@.len()),
    {
        self.pos >= self.bytes.len()
    }

    /// The byte at the place.
    pub fn peek(&self) -> (r: Option<u8>)
        ensures
            r == (if self.pos < self.bytes@.len() {
                Some(self.bytes@[self.pos as int])
            } else {
                None
            }),
    {
        if self.pos < self.bytes.len() {
            Some(self.bytes[self.pos])
        } else {
            None
        }
    }

    /// The byte `off` bytes behind the place.
    pub fn peek_at(&self, off: usize) -> (r: Option<u8>)
        requires
            self.wf(),
        ensures
            r == (if self.pos + off < self.bytes@.len() {
                Some(self.bytes@[self.pos + off])
            } else {
                None
            }),
    {
        if off < self.bytes.len() - self.pos {
            Some(self.bytes[self.pos + off])
        } else {
            None
        }
    }

    /// Takes the byte at the place.
    pub fn bump(&mut self) -> (r: Option<u8>)
        requires
            old(self).wf(),
        ensures
            final(self).wf(),
            final(self).bytes == old(self).bytes,
            match r {
                Some(b) => old(self).pos < old(self).bytes@.len() && b == old(self).bytes@[old(
                    self,
                ).pos as int] && final(self).pos == old(self).pos + 1,
                None => old(self).pos == old(self).bytes@.len() && final(self).pos == old(self).pos,
            },
    {
        match self.peek() {
            Some(b) => {
                self.pos = self.pos + 1;
                Some(b)
            },
            None => None,
        }
    }

    fn at(&self, b: u8) -> (r: bool)
        ensures
            r == holds(self.bytes@, self.pos as int, b),
    {
        match self.peek() {
            Some(c) => c == b,
            None => false,
        }
    }

    fn at_digit(&self) -> (r: bool)
        ensures
            r == holds_digit(self.bytes@, self.pos as int),
    {
        match self.peek() {
            Some(c) => 48 <= c && c <= 57,
            None => false,
        }
    }

    /// Builds an error at a position.
    pub fn parse_error(&self, at: usize, message: &str) -> (r: Error)
        ensures
            r@ == json_fault(self.bytes@, at as int, message@),
    {
        let (line, col) = derive_line_col(self.bytes, at);
        let snippet: String = extract_line_snippet(self.bytes, at);
        let end: usize = if at < self.bytes.len() {
            at + 1
        } else {
            self.bytes.len()
        };
        Error::Parse { file: None, line, col, span: at..end, snippet, message: message.to_owned() }
    }

    /// Goes behind white space; a comment is an error.
    pub fn skip_ws_and_check_jsonc(&mut self) -> (r: Result<(), Error>)
        requires
            old(self).wf(),
        ensures
            final(self).wf(),
            final(self).bytes == old(self).bytes,
            final(self).pos >= old(self).pos,
            match (r, skipped(old(self).bytes@, old(self).pos as int)) {
                (Ok(_), Ok(p)) => final(self).pos == p,
                (Err(e), Err(f)) => e@ == f,
                _ => false,
            },
    {
        while self.at(32) || self.at(9) || self.at(10) || self.at(13)
            invariant
                self.wf(),
                self.bytes == old(self).bytes,
                old(self).pos <= self.pos,
                skipped(self.bytes@, self.pos as int) == skipped(
                    self.bytes@,
                    old(self).pos as int,
                ),
            decreases self.bytes@.len() - self.pos,
        {
            self.pos = self.pos + 1;
        }
        if self.at(47) {
            match self.peek_at(1) {
                Some(b) => {
                    if b == 47 || b == 42 {
                        return Err(
                            self.parse_error(
                                self.pos,
                                "comments are not valid JSON; JSONC is not supported",
                            ),
                        );
                    }
                },
                None => {},
            }
        }
        Ok(())
    }

    /// Goes behind the string at the place.
    pub fn scan_string(&mut self) -> (r: Result<usize, Error>)
        requires
            old(self).wf(),
        ensures
            final(self).wf(),
            final(self).bytes == old(self).bytes,
            reached(r, string_end(old(self).bytes@, old(self).pos as int), final(self).pos),
            r is Ok ==> final(self).pos >= old(self).pos + 2,
    {
        if !self.at(34) {
            return Err(self.parse_error(self.pos, "expected '\"'"));
        }
        self.pos = self.pos + 1;
        let ghost start = self.pos as int;
        loop
            invariant
                self.wf(),
                self.bytes == old(self).bytes,
                start == old(self).pos + 1,
                start <= self.pos,
                holds(self.bytes@, old(self).pos as int, 34),
                string_rest(self.bytes@, self.pos as int) == string_rest(self.bytes@, start),
            decreases self.bytes@.len() - self.pos,
        {
            let ghost k = self.pos as int;
            let ghost rest = string_rest(self.bytes@, k);
            match self.bump() {
                Some(b) => {
                    if b == 34 {
                        return Ok(self.pos);
                    }
                    if b == 92 {
                        if self.at(117) {
                            if self.bytes.len() - self.pos < 5 {
                                let end: usize = self.bytes.len();
                                return Err(
                                    self.parse_error(end, "unexpected EOF inside \\u escape"),
                                );
                            }
                            self.pos = self.pos + 5;
                        } else if self.bump().is_none() {
                            return Err(
                                self.parse_error(self.pos, "unexpected EOF after backslash escape"),
                            );
                        }
                    }
                },
                None => {
                    return Err(self.parse_error(self.pos, "unterminated string literal"));
                },
            }
        }
    }

    fn stands(&self, word: &[u8]) -> (r: bool)
        requires
            self.wf(),
        ensures
            r == stands_at(self.bytes@, self.pos as int, word@),
    {
        if self.bytes.len() - self.pos < word.len() {
            return false;
        }
        let ghost there = self.bytes@.subrange(self.pos as int, self.pos + word@.len());
        let mut i: usize = 0;
        while i < word.len()
            invariant
                self.wf(),
                i <= word@.len(),
                self.pos + word@.len() <= self.bytes@.len(),
                there == self.bytes@.subrange(self.pos as int, self.pos + word@.len()),
                forall|k: int| 0 <= k < i ==> there[k] == word@[k],
            decreases word@.len() - i,
        {
            assert(there[i as int] == self.bytes@[self.pos + i]);
            if self.bytes[self.pos + i] != word[i] {
                return false;
            }
            i += 1;
        }
        assert(there =~= word@);
        true
    }

    /// Goes behind the `true` or `false` at the place.
    pub fn scan_bool(&mut self) -> (r: Result<usize, Error>)
        requires
            old(self).wf(),
        ensures
            final(self).wf(),
            final(self).bytes == old(self).bytes,
            reached(r, bool_end(old(self).bytes@, old(self).pos as int), final(self).pos),
            r is Ok ==> final(self).pos > old(self).pos,
    {
        let yes: [u8; 4] = [116, 114, 117, 101];
        let no: [u8; 5] = [102, 97, 108, 115, 101];
        assert(yes@ =~= seq![116u8, 114u8, 117u8, 101u8]);
        assert(no@ =~= seq![102u8, 97u8, 108u8, 115u8, 101u8]);
        if self.stands(yes.as_slice()) {
            self.pos = self.pos + 4;
            return Ok(self.pos);
        }
        if self.stands(no.as_slice()) {
            self.pos = self.pos + 5;
            return Ok(self.pos);
        }
        Err(self.parse_error(self.pos, "expected 'true' or 'false'"))
    }

    /// Goes behind the `null` at the place.
    pub fn scan_null(&mut self) -> (r: Result<usize, Error>)
        requires
            old(self).wf(),
        ensures
            final(self).wf(),
            final(self).bytes == old(self).bytes,
            reached(r, null_end(old(self).bytes@, old(self).pos as int), final(self).pos),
            r is Ok ==> final(self).pos > old(self).pos,
    {
        let null: [u8; 4] = [110, 117, 108, 108];
        assert(null@ =~= seq![110u8, 117u8, 108u8, 108u8]);
        if self.stands(null.as_slice()) {
            self.pos = self.pos + 4;
            return Ok(self.pos);
        }
        Err(self.parse_error(self.pos, "expected 'null'"))
    }

    fn skip_byte_digits(&mut self)
        requires
            old(self).wf(),
        ensures
            final(self).wf(),
            final(self).bytes == old(self).bytes,
            final(self).pos == byte_digits_end(old(self).bytes@, old(self).pos as int),
            final(self).pos >= old(self).pos,
    {
        while self.at_digit()
            invariant
                self.wf(),
                self.bytes == old(self).bytes,
                old(self).pos <= self.pos,
                byte_digits_end(self.bytes@, self.pos as int) == byte_digits_end(
                    self.bytes@,
                    old(self).pos as int,
                ),
            decreases self.bytes@.len() - self.pos,
        {
            self.pos = self.pos + 1;
        }
    }

    /// Goes behind the number at the place.
    pub fn scan_number(&mut self) -> (r: Result<usize, Error>)
        requires
            old(self).wf(),
        ensures
            final(self).wf(),
            final(self).bytes == old(self).bytes,
            reached(r, number_end(old(self).bytes@, old(self).pos as int), final(self).pos),
            r is Ok ==> final(self).pos > old(self).pos,
    {
        if self.at(45) {
            self.pos = self.pos + 1;
        }
        if self.at(48) {
            self.pos = self.pos + 1;
        } else if self.at_digit() {
            self.pos = self.pos + 1;
            self.skip_byte_digits();
        } else {
            return Err(self.parse_error(self.pos, "expected digit in number"));
        }
        if self.at(46) {
            self.pos = self.pos + 1;
            self.skip_byte_digits();
        }
        if self.at(101) || self.at(69) {
            self.pos = self.pos + 1;
            if self.at(43) || self.at(45) {
                self.pos = self.pos + 1;
            }
            self.skip_byte_digits();
        }
        Ok(self.pos)
    }

    fn record_scalar(
        &self,
        path: &Vec<String>,
        spans: &mut SpanMap,
        start: usize,
        end: usize,
        context: SpanContext,
    )
        ensures
            span_entries(*final(spans)) == scalar_recorded(
                self.bytes@,
                texts(path@),
                span_entries(*old(spans)),
                start as int,
                end as int,
                context,
            ),
    {
        let pointer: String = pointer_for(path);
        let indent: u32 = compute_indent(self.bytes, start);
        let span: ValueSpan = make_span(self.bytes, start, end, indent, context);
        span_map_insert(spans, pointer, span);
    }

    /// Records the scalar that starts at `start`, where its end was found.
    fn record_found(
        &self,
        path: &Vec<String>,
        spans: &mut SpanMap,
        start: usize,
        end: Result<usize, Error>,
        context: SpanContext,
        model: Ghost<Result<int, Fault>>,
    ) -> (r: Result<(), Error>)
        requires
            reached(end, model@, self.pos),
        ensures
            scanned(
                r,
                scalar_scanned(
                    self.bytes@,
                    texts(path@),
                    span_entries(*old(spans)),
                    start as int,
                    model@,
                    context,
                ),
                self.pos,
                span_entries(*final(spans)),
            ),
    {
        match end {
            Ok(e) => {
                self.record_scalar(path, spans, start, e, context);
                Ok(())
            },
            Err(e) => Err(e),
        }
    }

    /// Scans the value at the place, recording its scalars.
    pub fn scan_value(&mut self, path: &mut Vec<String>, spans: &mut SpanMap, context: SpanContext) -> (r:
        Result<(), Error>)
        requires
            old(self).wf(),
        ensures
            final(self).wf(),
            final(self).bytes == old(self).bytes,
            r is Ok ==> final(self).pos > old(self).pos,
            r is Ok ==> texts(final(path)@) == texts(old(path)@),
            scanned(
                r,
                value_scanned(
                    old(self).bytes@,
                    old(self).pos as int,
                    texts(old(path)@),
                    span_entries(*old(spans)),
                    context,
                ),
                final(self).pos,
                span_entries(*final(spans)),
            ),
        decreases old(self).bytes@.len() - old(self).pos, 0int,
    {
        proof {
            lemma_skipped(self.bytes@, self.pos as int);
        }
        match self.skip_ws_and_check_jsonc() {
            Ok(()) => {},
            Err(e) => {
                return Err(e);
            },
        }
        let start: usize = self.pos;
        match self.peek() {
            None => Err(self.parse_error(start, "unexpected EOF while parsing value")),
            Some(b) => {
                if b == 123 {
                    self.pos = self.pos + 1;
                    self.scan_object(path, spans)
                } else if b == 91 {
                    self.pos = self.pos + 1;
                    self.scan_array(path, spans)
                } else if b == 34 {
                    let end: Result<usize, Error> = self.scan_string();
                    let ghost model = string_end(self.bytes@, start as int);
                    self.record_found(path, spans, start, end, context, Ghost(model))
                } else if b == 116 || b == 102 {
                    let end: Result<usize, Error> = self.scan_bool();
                    let ghost model = bool_end(self.bytes@, start as int);
                    self.record_found(path, spans, start, end, context, Ghost(model))
                } else if b == 110 {
                    let end: Result<usize, Error> = self.scan_null();
                    let ghost model = null_end(self.bytes@, start as int);
                    self.record_found(path, spans, start, end, context, Ghost(model))
                } else if b == 45 || (48 <= b && b <= 57) {
                    let end: Result<usize, Error> = self.scan_number();
                    let ghost model = number_end(self.bytes@, start as int);
                    self.record_found(path, spans, start, end, context, Ghost(model))
                } else {
                    Err(self.parse_error(start, "expected JSON value (object, array, scalar)"))
                }
            },
        }
    }

    /// Scans what stands behind the opening brace of an object.
    fn scan_object(&mut self, path: &mut Vec<String>, spans: &mut SpanMap) -> (r: Result<(), Error>)
        requires
            old(self).wf(),
            old(self).pos > 0,
            holds(old(self).bytes@, old(self).pos - 1, 123),
        ensures
            final(self).wf(),
            final(self).bytes == old(self).bytes,
            r is Ok ==> final(self).pos > old(self).pos,
            r is Ok ==> texts(final(path)@) == texts(old(path)@),
            scanned(
                r,
                object_scanned(
                    old(self).bytes@,
                    old(self).pos as int,
                    texts(old(path)@),
                    span_entries(*old(spans)),
                ),
                final(self).pos,
                span_entries(*final(spans)),
            ),
        decreases old(self).bytes@.len() - old(self).pos, 3int,
    {
        proof {
            lemma_skipped(self.bytes@, self.pos as int);
        }
        match self.skip_ws_and_check_jsonc() {
            Ok(()) => {},
            Err(e) => {
                return Err(e);
            },
        }
        if self.at(125) {
            self.pos = self.pos + 1;
            return Ok(());
        }
        self.scan_members(path, spans)
    }

    /// Scans what stands behind the opening bracket of an array.
    fn scan_array(&mut self, path: &mut Vec<String>, spans: &mut SpanMap) -> (r: Result<(), Error>)
        requires
            old(self).wf(),
            old(self).pos > 0,
            holds(old(self).bytes@, old(self).pos - 1, 91),
        ensures
            final(self).wf(),
            final(self).bytes == old(self).bytes,
            r is Ok ==> final(self).pos > old(self).pos,
            r is Ok ==> texts(final(path)@) == texts(old(path)@),
            scanned(
                r,
                array_scanned(
                    old(self).bytes@,
                    old(self).pos as int,
                    texts(old(path)@),
                    span_entries(*old(spans)),
                ),
                final(self).pos,
                span_entries(*final(spans)),
            ),
        decreases old(self).bytes@.len() - old(self).pos, 3int,
    {
        proof {
            lemma_skipped(self.bytes@, self.pos as int);
        }
        match self.skip_ws_and_check_jsonc() {
            Ok(()) => {},
            Err(e) => {
                return Err(e);
            },
        }
        if self.at(93) {
            self.pos = self.pos + 1;
            return Ok(());
        }
        self.scan_items(path, spans)
    }

    /// Takes the key at the place, and its colon.
    fn scan_key(&mut self) -> (r: Result<String, Error>)
        requires
            old(self).wf(),
        ensures
            final(self).wf(),
            final(self).bytes == old(self).bytes,
            r is Ok ==> final(self).pos > old(self).pos,
            match (r, key_scanned(old(self).bytes@, old(self).pos as int)) {
                (Ok(key), Ok((k, q))) => key@ == k && final(self).pos == q,
                (Err(e), Err(f)) => e@ == f,
                _ => false,
            },
    {
        proof {
            lemma_skipped(self.bytes@, self.pos as int);
        }
        match self.skip_ws_and_check_jsonc() {
            Ok(()) => {},
            Err(e) => {
                return Err(e);
            },
        }
        if !self.at(34) {
            return Err(self.parse_error(self.pos, "expected string key in object"));
        }
        let key_start: usize = self.pos;
        let key_end: usize = match self.scan_string() {
            Ok(end) => end,
            Err(e) => {
                return Err(e);
            },
        };
        let raw: Vec<u8> = copy_bytes(self.bytes, key_start, key_end);
        let key: String = match decode_string(raw.as_slice()) {
            Some(key) => key,
            None => {
                return Err(self.parse_error(key_start, "invalid JSON string escape in key"));
            },
        };
        proof {
            lemma_skipped(self.bytes@, self.pos as int);
        }
        match self.skip_ws_and_check_jsonc() {
            Ok(()) => {},
            Err(e) => {
                return Err(e);
            },
        }
        if !self.at(58) {
            return Err(self.parse_error(self.pos, "expected ':' after object key"));
        }
        self.pos = self.pos + 1;
        Ok(key)
    }

    /// Scans one member of an object; whether another one follows.
    fn scan_member(&mut self, path: &mut Vec<String>, spans: &mut SpanMap) -> (r: Result<
        bool,
        Error,
    >)
        requires
            old(self).wf(),
        ensures
            final(self).wf(),
            final(self).bytes == old(self).bytes,
            r is Ok ==> final(self).pos > old(self).pos,
            r is Ok ==> texts(final(path)@) == texts(old(path)@),
            stepped(
                r,
                member_scanned(
                    old(self).bytes@,
                    old(self).pos as int,
                    texts(old(path)@),
                    span_entries(*old(spans)),
                ),
                final(self).pos,
                span_entries(*final(spans)),
            ),
        decreases old(self).bytes@.len() - old(self).pos, 1int,
    {
        let ghost segments = texts(path@);
        let key: String = match self.scan_key() {
            Ok(key) => key,
            Err(e) => {
                return Err(e);
            },
        };
        let segment: String = escape_segment(key.as_str());
        path.push(segment);
        assert(texts(path@) =~= segments.push(escaped(key@)));
        match self.scan_value(path, spans, SpanContext::BlockMapValue) {
            Ok(()) => {},
            Err(e) => {
                return Err(e);
            },
        }
        pop_last(path, Ghost(segments), Ghost(escaped(key@)));
        proof {
            lemma_skipped(self.bytes@, self.pos as int);
        }
        match self.skip_ws_and_check_jsonc() {
            Ok(()) => {},
            Err(e) => {
                return Err(e);
            },
        }
        if self.at(44) {
            self.pos = self.pos + 1;
            Ok(true)
        } else if self.at(125) {
            self.pos = self.pos + 1;
            Ok(false)
        } else {
            Err(self.parse_error(self.pos, "expected ',' or '}' in object"))
        }
    }

    /// Scans the members of an object from the place on.
    fn scan_members(&mut self, path: &mut Vec<String>, spans: &mut SpanMap) -> (r: Result<(), Error>)
        requires
            old(self).wf(),
        ensures
            final(self).wf(),
            final(self).bytes == old(self).bytes,
            r is Ok ==> final(self).pos > old(self).pos,
            r is Ok ==> texts(final(path)@) == texts(old(path)@),
            scanned(
                r,
                members_scanned(
                    old(self).bytes@,
                    old(self).pos as int,
                    texts(old(path)@),
                    span_entries(*old(spans)),
                ),
                final(self).pos,
                span_entries(*final(spans)),
            ),
        decreases old(self).bytes@.len() - old(self).pos, 2int,
    {
        loop
            invariant
                self.wf(),
                self.bytes == old(self).bytes,
                old(self).pos <= self.pos,
                texts(path@) == texts(old(path)@),
                members_scanned(
                    self.bytes@,
                    old(self).pos as int,
                    texts(old(path)@),
                    span_entries(*old(spans)),
                ) == members_scanned(
                    self.bytes@,
                    self.pos as int,
                    texts(path@),
                    span_entries(*spans),
                ),
            decreases self.bytes@.len() - self.pos,
        {
            match self.scan_member(path, spans) {
                Ok(again) => {
                    if !again {
                        return Ok(());
                    }
                },
                Err(e) => {
                    return Err(e);
                },
            }
        }
    }

    /// Scans one item of an array; whether another one follows.
    fn scan_item(&mut self, path: &mut Vec<String>, spans: &mut SpanMap, index: usize) -> (r: Result<
        bool,
        Error,
    >)
        requires
            old(self).wf(),
        ensures
            final(self).wf(),
            final(self).bytes == old(self).bytes,
            r is Ok ==> final(self).pos > old(self).pos,
            r is Ok ==> texts(final(path)@) == texts(old(path)@),
            stepped(
                r,
                item_scanned(
                    old(self).bytes@,
                    old(self).pos as int,
                    texts(old(path)@),
                    span_entries(*old(spans)),
                    index as nat,
                ),
                final(self).pos,
                span_entries(*final(spans)),
            ),
        decreases old(self).bytes@.len() - old(self).pos, 1int,
    {
        let ghost segments = texts(path@);
        let segment: String = index_text(index);
        path.push(segment);
        assert(texts(path@) =~= segments.push(decimal(index as nat)));
        match self.scan_value(path, spans, SpanContext::BlockSeqItem) {
            Ok(()) => {},
            Err(e) => {
                return Err(e);
            },
        }
        pop_last(path, Ghost(segments), Ghost(decimal(index as nat)));
        proof {
            lemma_skipped(self.bytes@, self.pos as int);
        }
        match self.skip_ws_and_check_jsonc() {
            Ok(()) => {},
            Err(e) => {
                return Err(e);
            },
        }
        if self.at(44) {
            self.pos = self.pos + 1;
            Ok(true)
        } else if self.at(93) {
            self.pos = self.pos + 1;
            Ok(false)
        } else {
            Err(self.parse_error(self.pos, "expected ',' or ']' in array"))
        }
    }

    /// Scans the items of an array from the place on.
    fn scan_items(&mut self, path: &mut Vec<String>, spans: &mut SpanMap) -> (r: Result<(), Error>)
        requires
            old(self).wf(),
        ensures
            final(self).wf(),
            final(self).bytes == old(self).bytes,
            r is Ok ==> final(self).pos > old(self).pos,
            r is Ok ==> texts(final(path)@) == texts(old(path)@),
            scanned(
                r,
                items_scanned(
                    old(self).bytes@,
                    old(self).pos as int,
                    texts(old(path)@),
                    span_entries(*old(spans)),
                    0,
                ),
                final(self).pos,
                span_entries(*final(spans)),
            ),
        decreases old(self).bytes@.len() - old(self).pos, 2int,
    {
        let mut index: usize = 0;
        loop
            invariant
                self.wf(),
                self.bytes == old(self).bytes,
                old(self).pos <= self.pos,
                index <= self.pos,
                texts(path@) == texts(old(path)@),
                items_scanned(
                    self.bytes@,
                    old(self).pos as int,
                    texts(old(path)@),
                    span_entries(*old(spans)),
                    0,
                ) == items_scanned(
                    self.bytes@,
                    self.pos as int,
                    texts(path@),
                    span_entries(*spans),
                    index as nat,
                ),
            decreases self.bytes@.len() - self.pos,
        {
            match self.scan_item(path, spans, index) {
                Ok(again) => {
                    if !again {
                        return Ok(());
                    }
                },
                Err(e) => {
                    return Err(e);
                },
            }
            index = index + 1;
        }
    }
}

/// The outcome of scanning one of several.
pub open spec fn stepped(
    r: Result<bool, Error>,
    model: Result<(int, SpanSeq, bool), Fault>,
    pos: usize,
    spans: SpanSeq,
) -> bool {
    match (r, model) {
        (Ok(again), Ok((p, s, a))) => again == a && pos == p && spans == s,
        (Err(e), Err(f)) => e@ == f,
        _ => false,
    }
}

fn pop_last(path: &mut Vec<String>, before: Ghost<Seq<Seq<char>>>, last: Ghost<Seq<char>>)
    requires
        texts(old(path)@) == before@.push(last@),
    ensures
        texts(final(path)@) == before@,
{
    let ghost full = path@;
    assert(full.len() == before@.push(last@).len());
    let _done: Option<String> = path.pop();
    assert(path@ == full.drop_last());
    assert(texts(full.drop_last()) =~= texts(full).drop_last());
    assert(before@.push(last@).drop_last() =~= before@);
}

/// Records where the scalars of JSON bytes stand.
pub fn build_span_map(bytes: &[u8]) -> (r: Result<SpanMap, Error>)
    ensures
        match (r, json_spans(bytes@)) {
            (Ok(spans), Ok(m)) => span_entries(spans) == m,
            (Err(e), Err(f)) => e@ == f,
            _ => false,
        },
{
    match checked_text(bytes) {
        Ok(_) => {},
        Err(_) => {
            return Err(unplaced_parse_error("source is not valid UTF-8".to_owned()));
        },
    }
    let mut scanner: Scanner<'_> = Scanner::new(bytes);
    let mut spans: SpanMap = span_map_new();
    match scanner.skip_ws_and_check_jsonc() {
        Ok(()) => {},
        Err(e) => {
            return Err(e);
        },
    }
    if scanner.eof() {
        return Ok(spans);
    }
    let mut path: Vec<String> = Vec::new();
    assert(texts(path@) =~= Seq::<Seq<char>>::empty());
    match scanner.scan_value(&mut path, &mut spans, SpanContext::BlockMapValue) {
        Ok(()) => Ok(spans),
        Err(e) => Err(e),
    }
}


} // verus!
