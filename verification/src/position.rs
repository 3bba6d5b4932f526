//! Lines and columns of byte positions.

use crate::bytes::copy_bytes;
use crate::text::{chars_of, text_of};
use crate::utf8_text::{lossy_text, utf8_lossy};
use vstd::prelude::*;
use vstd::utf8::{encode_utf8, is_continuation_byte};

verus! {

/// A number as a `u32` holds it at most.
pub open spec fn capped(n: nat) -> int {
    if n > u32::MAX {
        u32::MAX as int
    } else {
        n as int
    }
}

/// The number of newlines among the first `k` bytes.
pub open spec fn newlines(bytes: Seq<u8>, k: int) -> nat
    decreases k,
{
    if k <= 0 {
        0
    } else {
        newlines(bytes, k - 1) + if bytes[k - 1] == 10u8 {
            1nat
        } else {
            0nat
        }
    }
}

/// The number of bytes between the last newline before position `k` and `k`.
pub open spec fn bytes_into_line(bytes: Seq<u8>, k: int) -> nat
    decreases k,
{
    if k <= 0 || bytes[k - 1] == 10u8 {
        0
    } else {
        bytes_into_line(bytes, k - 1) + 1
    }
}

/// The 1-based line and column of byte `idx`; a position past the end counts
/// as the end.
pub open spec fn line_col(bytes: Seq<u8>, idx: int) -> (int, int) {
    let k = if idx < bytes.len() {
        idx
    } else {
        bytes.len() as int
    };
    (capped(newlines(bytes, k) + 1), capped(bytes_into_line(bytes, k) + 1))
}

/// Derives the 1-based line and column of byte `idx`.
pub fn derive_line_col(bytes: &[u8], idx: usize) -> (r: (u32, u32))
    ensures
        (r.0 as int, r.1 as int) == line_col(bytes@, idx as int),
{
    let cap: usize = if idx < bytes.len() {
        idx
    } else {
        bytes.len()
    };
    let mut line: u32 = 1;
    let mut col: u32 = 1;
    let mut i: usize = 0;
    while i < cap
        invariant
            i <= cap <= bytes@.len(),
            line == capped(newlines(bytes@, i as int) + 1),
            col == capped(bytes_into_line(bytes@, i as int) + 1),
        decreases cap - i,
    {
        if bytes[i] == 10 {
            line = line.saturating_add(1);
            col = 1;
        } else {
            col = col.saturating_add(1);
        }
        i += 1;
    }
    (line, col)
}

// ---------------------------------------------------------------------------
// Lines
// ---------------------------------------------------------------------------

/// Where the line that holds position `k` starts.
pub open spec fn line_start(bytes: Seq<u8>, k: int) -> int
    decreases k,
{
    if k <= 0 || bytes[k - 1] == 10u8 {
        k
    } else {
        line_start(bytes, k - 1)
    }
}

/// Where the line that holds position `k` ends: at its newline, or at the end.
pub open spec fn line_end(bytes: Seq<u8>, k: int) -> int
    decreases bytes.len() - k,
{
    if k >= bytes.len() || k < 0 || bytes[k] == 10u8 {
        k
    } else {
        line_end(bytes, k + 1)
    }
}

/// Finds the start of the line that holds position `k`.
pub fn find_line_start(bytes: &[u8], k: usize) -> (r: usize)
    requires
        k <= bytes@.len(),
    ensures
        r == line_start(bytes@, k as int),
        r <= k,
{
    let mut i: usize = k;
    while i > 0 && bytes[i - 1] != 10
        invariant
            i <= k <= bytes@.len(),
            line_start(bytes@, i as int) == line_start(bytes@, k as int),
        decreases i,
    {
        i -= 1;
    }
    i
}

/// Finds the end of the line that holds position `k`.
pub fn find_line_end(bytes: &[u8], k: usize) -> (r: usize)
    requires
        k <= bytes@.len(),
    ensures
        r == line_end(bytes@, k as int),
        k <= r <= bytes@.len(),
{
    let mut i: usize = k;
    while i < bytes.len() && bytes[i] != 10
        invariant
            k <= i <= bytes@.len(),
            line_end(bytes@, i as int) == line_end(bytes@, k as int),
        decreases bytes@.len() - i,
    {
        i += 1;
    }
    i
}

// ---------------------------------------------------------------------------
// Positions counted in characters
// ---------------------------------------------------------------------------

/// The number of characters that start between the last newline before
/// position `k` and `k`.
pub open spec fn chars_into_line(bytes: Seq<u8>, k: int) -> nat
    decreases k,
{
    if k <= 0 || bytes[k - 1] == 10u8 {
        0
    } else if is_continuation_byte(bytes[k - 1]) {
        chars_into_line(bytes, k - 1)
    } else {
        chars_into_line(bytes, k - 1) + 1
    }
}

/// A number as `u32` counting holds it.
pub open spec fn wrapped(n: nat) -> int {
    n as int % 0x1_0000_0000
}

/// A position that is no further than the end.
pub open spec fn within(bytes: Seq<u8>, pos: int) -> int {
    if pos < bytes.len() {
        pos
    } else {
        bytes.len() as int
    }
}

/// The 1-based line and column of a byte position in UTF-8 text, the column
/// counted in characters.
pub open spec fn char_line_col(bytes: Seq<u8>, pos: int) -> (int, int) {
    let k = within(bytes, pos);
    (wrapped(newlines(bytes, k) + 1), wrapped(chars_into_line(bytes, k) + 1))
}

/// Whether a character may start or the text end at position `k`.
pub open spec fn is_boundary(bytes: Seq<u8>, k: int) -> bool {
    k <= 0 || k >= bytes.len() || !is_continuation_byte(bytes[k])
}

/// The last boundary at or before `k`.
pub open spec fn boundary_before(bytes: Seq<u8>, k: int) -> int
    decreases k,
{
    if is_boundary(bytes, k) {
        k
    } else {
        boundary_before(bytes, k - 1)
    }
}

/// The first boundary at or after `k`.
pub open spec fn boundary_after(bytes: Seq<u8>, k: int) -> int
    decreases bytes.len() - k,
{
    if is_boundary(bytes, k) {
        k
    } else {
        boundary_after(bytes, k + 1)
    }
}

/// A text with each newline spelled out as a backslash and an `n`.
pub open spec fn newlines_spelled(s: Seq<char>) -> Seq<char>
    decreases s.len(),
{
    if s.len() == 0 {
        s
    } else {
        newlines_spelled(s.drop_last()) + if s.last() == '\n' {
            seq!['\\', 'n']
        } else {
            seq![s.last()]
        }
    }
}

/// The text from twenty bytes before a position to twenty bytes behind it, no
/// character cut in two, on one line.
pub open spec fn snippet_at(bytes: Seq<u8>, pos: int) -> Seq<char> {
    let k = within(bytes, pos);
    let from = boundary_before(
        bytes,
        if k < 20 {
            0
        } else {
            k - 20
        },
    );
    let to = boundary_after(bytes, within(bytes, k + 20));
    newlines_spelled(utf8_lossy(bytes.subrange(from, to)))
}

/// No character of a line stands before its start, and it holds no newline.
pub proof fn lemma_line_starts_anew(bytes: Seq<u8>, k: int)
    requires
        0 <= k <= bytes.len(),
    ensures
        0 <= line_start(bytes, k) <= k,
        chars_into_line(bytes, line_start(bytes, k)) == 0,
        forall|j: int| line_start(bytes, k) <= j < k ==> (#[trigger] bytes[j]) != 10,
    decreases k,
{
    if k > 0 && bytes[k - 1] != 10 {
        lemma_line_starts_anew(bytes, k - 1);
    }
}

/// Whether a byte continues a character.
pub fn continuation(b: u8) -> (r: bool)
    ensures
        r == is_continuation_byte(b),
{
    0x80 <= b && b <= 0xbf
}

/// The 1-based line and column of a byte position in text.
pub fn byte_pos_to_line_col(text: &str, pos: usize) -> (r: (u32, u32))
    ensures
        (r.0 as int, r.1 as int) == char_line_col(encode_utf8(text@), pos as int),
{
    let bytes: &[u8] = text.as_bytes();
    let cap: usize = if pos < bytes.len() {
        pos
    } else {
        bytes.len()
    };
    let mut line: u32 = 1;
    let mut col: u32 = 1;
    let mut i: usize = 0;
    while i < cap
        invariant
            i <= cap <= bytes@.len(),
            line == wrapped(newlines(bytes@, i as int) + 1),
            col == wrapped(chars_into_line(bytes@, i as int) + 1),
        decreases cap - i,
    {
        if bytes[i] == 10 {
            line = line.wrapping_add(1);
            col = 1;
        } else if !continuation(bytes[i]) {
            col = col.wrapping_add(1);
        }
        i += 1;
    }
    (line, col)
}

/// A text with each newline spelled out as a backslash and an `n`.
fn spell_newlines(s: &Vec<char>) -> (r: Vec<char>)
    ensures
        r@ == newlines_spelled(s@),
{
    let mut out: Vec<char> = Vec::new();
    let mut i: usize = 0;
    while i < s.len()
        invariant
            i <= s@.len(),
            out@ == newlines_spelled(s@.subrange(0, i as int)),
        decreases s@.len() - i,
    {
        assert(s@.subrange(0, i + 1).drop_last() =~= s@.subrange(0, i as int));
        let ghost before = out@;
        if s[i] == '\n' {
            out.push('\\');
            out.push('n');
            assert(out@ =~= before + seq!['\\', 'n']);
        } else {
            out.push(s[i]);
            assert(out@ =~= before + seq![s@[i as int]]);
        }
        i += 1;
    }
    assert(s@.subrange(0, s@.len() as int) =~= s@);
    out
}

/// The text around a byte position, on one line.
pub fn snippet_for_pos(text: &str, pos: usize) -> (r: String)
    ensures
        r@ == snippet_at(encode_utf8(text@), pos as int),
{
    let bytes: &[u8] = text.as_bytes();
    let k: usize = if pos < bytes.len() {
        pos
    } else {
        bytes.len()
    };
    let mut from: usize = if k < 20 {
        0
    } else {
        k - 20
    };
    let ghost from0 = from as int;
    while from > 0 && from < bytes.len() && continuation(bytes[from])
        invariant
            from <= k <= bytes@.len(),
            boundary_before(bytes@, from as int) == boundary_before(bytes@, from0),
        decreases from,
    {
        from -= 1;
    }
    let mut to: usize = if bytes.len() - k < 20 {
        bytes.len()
    } else {
        k + 20
    };
    let ghost to0 = to as int;
    while to > 0 && to < bytes.len() && continuation(bytes[to])
        invariant
            k <= to <= bytes@.len(),
            boundary_after(bytes@, to as int) == boundary_after(bytes@, to0),
        decreases bytes@.len() - to,
    {
        to += 1;
    }
    let raw: Vec<u8> = copy_bytes(bytes, from, to);
    text_of(&spell_newlines(&chars_of(lossy_text(raw.as_slice()).as_str())))
}

} // verus!
