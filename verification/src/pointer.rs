//! JSON Pointer (RFC 6901): parser, canonical renderer, and navigation.

use crate::error::{agrees, texts, Error, Fault, PathErrorKind, PathFault};
use crate::numbers::{decimal, index_text, is_digit, lemma_decimal_value};
use crate::text::{chars_of, find_from, lemma_find_from, split_chars, split_on};
use vstd::prelude::*;

verus! {

/// One segment of a parsed pointer.
#[derive(Debug, PartialEq, Eq)]
pub enum Segment {
    /// Object key.
    Key(String),
    /// Array index.
    Index(usize),
}

/// A parsed pointer.
///
/// The empty pointer addresses the root; any other starts with `/` and is made
/// of slash-separated segments in which `~0` stands for `~` and `~1` for `/`.
#[derive(Debug, PartialEq, Eq)]
pub struct Pointer(Vec<Segment>);

/// What a [`Segment`] is, mathematically.
pub enum Seg {
    Key(Seq<char>),
    Index(nat),
}

impl View for Segment {
    type V = Seg;

    open spec fn view(&self) -> Seg {
        match self {
            Segment::Key(k) => Seg::Key(k@),
            Segment::Index(i) => Seg::Index(*i as nat),
        }
    }
}

impl View for Pointer {
    type V = Seq<Seg>;

    closed spec fn view(&self) -> Seq<Seg> {
        segs(self.0@)
    }
}

/// The models of a sequence of segments.
pub open spec fn segs(s: Seq<Segment>) -> Seq<Seg> {
    Seq::new(s.len(), |i: int| s[i]@)
}

// ---------------------------------------------------------------------------
// Escaping
// ---------------------------------------------------------------------------

/// How one character of a key is written in a pointer.
pub open spec fn escaped_char(c: char) -> Seq<char> {
    if c == '~' {
        seq!['~', '0']
    } else if c == '/' {
        seq!['~', '1']
    } else {
        seq![c]
    }
}

/// How a key is written in a pointer.
pub open spec fn escaped(s: Seq<char>) -> Seq<char>
    decreases s.len(),
{
    if s.len() == 0 {
        Seq::empty()
    } else {
        escaped_char(s[0]) + escaped(s.subrange(1, s.len() as int))
    }
}

/// The key that a written segment stands for, or what is wrong with it.
pub open spec fn unescaped(s: Seq<char>) -> Result<Seq<char>, Seq<char>>
    decreases s.len(),
{
    if s.len() == 0 {
        Ok(Seq::empty())
    } else if s[0] != '~' {
        match unescaped(s.subrange(1, s.len() as int)) {
            Ok(rest) => Ok(seq![s[0]] + rest),
            Err(message) => Err(message),
        }
    } else if s.len() == 1 {
        Err("dangling '~' at end of segment"@)
    } else if s[1] == '0' || s[1] == '1' {
        match unescaped(s.subrange(2, s.len() as int)) {
            Ok(rest) => Ok(
                seq![
                    if s[1] == '0' {
                        '~'
                    } else {
                        '/'
                    },
                ] + rest,
            ),
            Err(message) => Err(message),
        }
    } else {
        Err("invalid escape '~"@ + seq![s[1]] + "'"@)
    }
}

/// Unescaping undoes escaping.
pub proof fn law_unescape_escaped(s: Seq<char>)
    ensures
        unescaped(escaped(s)) == Ok::<Seq<char>, Seq<char>>(s),
    decreases s.len(),
{
    if s.len() > 0 {
        let tail = s.subrange(1, s.len() as int);
        law_unescape_escaped(tail);
        let e = escaped(s);
        let head = escaped_char(s[0]);
        assert(e.subrange(head.len() as int, e.len() as int) =~= escaped(tail));
        assert(seq![s[0]] + tail =~= s);
    } else {
        assert(s =~= Seq::<char>::empty());
    }
}

/// Escaping undoes unescaping: a segment without a raw slash is the only way
/// to write its key.
pub proof fn law_escape_unescaped(s: Seq<char>)
    requires
        unescaped(s) is Ok,
        !s.contains('/'),
    ensures
        escaped(unescaped(s)->Ok_0) == s,
    decreases s.len(),
{
    if s.len() > 0 {
        let width: int = if s[0] != '~' { 1 } else { 2 };
        let tail = s.subrange(width, s.len() as int);
        assert forall|i: int| 0 <= i < tail.len() implies tail[i] != '/' by {
            assert(tail[i] == s[i + width]);
        }
        law_escape_unescaped(tail);
        let rest = unescaped(tail)->Ok_0;
        let key = unescaped(s)->Ok_0;
        assert(key.subrange(1, key.len() as int) =~= rest);
        assert(s[0] != '/');
        assert(s.subrange(0, width) + tail =~= s);
        assert(escaped_char(key[0]) =~= s.subrange(0, width));
    }
}

/// An escaped key holds no slash, and is empty only for the empty key.
pub proof fn lemma_escaped_has_no_slash(s: Seq<char>)
    ensures
        !escaped(s).contains('/'),
        escaped(s).len() >= s.len(),
    decreases s.len(),
{
    if s.len() > 0 {
        let tail = s.subrange(1, s.len() as int);
        lemma_escaped_has_no_slash(tail);
        let head = escaped_char(s[0]);
        assert forall|i: int| 0 <= i < escaped(s).len() implies escaped(s)[i] != '/' by {
            if i >= head.len() {
                assert(escaped(s)[i] == escaped(tail)[i - head.len()]);
            }
        }
    }
}

/// `unescaped` on a sequence that is read from the front: after the part
/// `done` has been read without fault, what is left decides.
pub open spec fn unescape_goes_on(
    out: Seq<char>,
    rest: Seq<char>,
    whole: Seq<char>,
) -> bool {
    match unescaped(rest) {
        Ok(tail) => unescaped(whole) == Ok::<Seq<char>, Seq<char>>(out + tail),
        Err(message) => unescaped(whole) == Err::<Seq<char>, Seq<char>>(message),
    }
}

/// Reads one written segment.
pub fn unescape_segment(seg: &Vec<char>) -> (r: Result<String, String>)
    ensures
        match (r, unescaped(seg@)) {
            (Ok(key), Ok(m)) => key@ == m,
            (Err(message), Err(m)) => message@ == m,
            _ => false,
        },
{
    let mut out: String = String::new();
    let mut i: usize = 0;
    let n: usize = seg.len();
    assert(seg@.subrange(0, n as int) =~= seg@);
    assert(unescape_goes_on(out@, seg@.subrange(0, n as int), seg@)) by {
        if unescaped(seg@) is Ok {
            assert(out@ + unescaped(seg@)->Ok_0 =~= unescaped(seg@)->Ok_0);
        }
    }
    while i < n
        invariant
            i <= n == seg@.len(),
            unescape_goes_on(out@, seg@.subrange(i as int, n as int), seg@),
        decreases n - i,
    {
        let ghost rest = seg@.subrange(i as int, n as int);
        let ghost before = out@;
        let c: char = seg[i];
        assert(rest[0] == c);
        if c != '~' {
            assert(rest.subrange(1, rest.len() as int) =~= seg@.subrange(i + 1, n as int));
            out.push(c);
            i += 1;
            proof {
                if unescaped(rest) is Ok {
                    let tail = unescaped(seg@.subrange(i as int, n as int))->Ok_0;
                    assert(before + (seq![c] + tail) =~= out@ + tail);
                }
            }
        } else if i + 1 >= n {
            return Err("dangling '~' at end of segment".to_owned());
        } else {
            let d: char = seg[i + 1];
            assert(rest[1] == d);
            assert(rest.subrange(2, rest.len() as int) =~= seg@.subrange(i + 2, n as int));
            if d == '0' {
                out.push('~');
            } else if d == '1' {
                out.push('/');
            } else {
                let mut message: String = "invalid escape '~".to_owned();
                message.push(d);
                message.push_str("'");
                assert(message@ =~= "invalid escape '~"@ + seq![d] + "'"@);
                return Err(message);
            }
            i += 2;
            proof {
                if unescaped(rest) is Ok {
                    let tail = unescaped(seg@.subrange(i as int, n as int))->Ok_0;
                    assert(before + (seq![out@.last()] + tail) =~= out@ + tail);
                }
            }
        }
    }
    assert(seg@.subrange(n as int, n as int) =~= Seq::<char>::empty());
    assert(out@ + Seq::<char>::empty() =~= out@);
    Ok(out)
}

/// Writes one key as a segment.
pub fn escape_segment(seg: &str) -> (r: String)
    ensures
        r@ == escaped(seg@),
{
    let chars: Vec<char> = chars_of(seg);
    let mut out: String = String::new();
    let mut i: usize = 0;
    let n: usize = chars.len();
    assert(seg@.subrange(0, n as int) =~= seg@);
    assert(out@ + escaped(seg@) =~= escaped(seg@));
    while i < n
        invariant
            chars@ == seg@,
            i <= n == chars@.len(),
            out@ + escaped(seg@.subrange(i as int, n as int)) == escaped(seg@),
        decreases n - i,
    {
        let ghost rest = seg@.subrange(i as int, n as int);
        let ghost before = out@;
        let c: char = chars[i];
        assert(rest.subrange(1, rest.len() as int) =~= seg@.subrange(i + 1, n as int));
        if c == '~' {
            out.push('~');
            out.push('0');
        } else if c == '/' {
            out.push('~');
            out.push('1');
        } else {
            out.push(c);
        }
        i += 1;
        assert(out@ + escaped(seg@.subrange(i as int, n as int)) =~= before + (escaped_char(c)
            + escaped(seg@.subrange(i as int, n as int))));
    }
    assert(out@ + escaped(seg@.subrange(n as int, n as int)) =~= out@);
    out
}

// ---------------------------------------------------------------------------
// The written form
// ---------------------------------------------------------------------------

/// How one segment is written.
pub open spec fn segment_text(s: Seg) -> Seq<char> {
    match s {
        Seg::Key(k) => escaped(k),
        Seg::Index(i) => decimal(i),
    }
}

/// How a pointer is written.
pub open spec fn canonical(p: Seq<Seg>) -> Seq<char>
    decreases p.len(),
{
    if p.len() == 0 {
        Seq::empty()
    } else {
        canonical(p.drop_last()) + seq!['/'] + segment_text(p.last())
    }
}

/// A malformed pointer.
pub open spec fn malformed(
    pointer: Seq<char>,
    expected: Seq<char>,
    found: Seq<char>,
    did_you_mean: Seq<Seq<char>>,
) -> Fault {
    Fault::Path {
        pointer,
        matched_prefix: Seq::empty(),
        kind: PathFault::TypeMismatch { expected, found },
        did_you_mean,
    }
}

/// What one slash-separated piece of the pointer `whole` stands for.
pub open spec fn parsed_piece(piece: Seq<char>, whole: Seq<char>) -> Result<Seg, Fault> {
    if piece.len() == 0 {
        Err(malformed(whole, "non-empty segment"@, "empty segment"@, Seq::empty()))
    } else {
        match unescaped(piece) {
            Ok(key) => Ok(Seg::Key(key)),
            Err(message) => Err(
                malformed(whole, "valid escape"@, "invalid escape"@, seq![message]),
            ),
        }
    }
}

/// What the pieces of the pointer `whole` stand for: the first fault, if any.
pub open spec fn parsed_pieces(pieces: Seq<Seq<char>>, whole: Seq<char>) -> Result<Seq<Seg>, Fault>
    decreases pieces.len(),
{
    if pieces.len() == 0 {
        Ok(Seq::empty())
    } else {
        match parsed_pieces(pieces.drop_last(), whole) {
            Err(f) => Err(f),
            Ok(before) => match parsed_piece(pieces.last(), whole) {
                Err(f) => Err(f),
                Ok(seg) => Ok(before.push(seg)),
            },
        }
    }
}

/// What a written pointer stands for.
pub open spec fn parsed_pointer(s: Seq<char>) -> Result<Seq<Seg>, Fault> {
    if s.len() == 0 {
        Ok(Seq::empty())
    } else if s[0] != '/' {
        Err(malformed(s, "leading '/'"@, "other"@, Seq::empty()))
    } else {
        parsed_pieces(split_on(s.subrange(1, s.len() as int), '/'), s)
    }
}

/// The segment as it comes back from text, where an index is a key of digits.
pub open spec fn keyed_segment(s: Seg) -> Seg {
    match s {
        Seg::Key(k) => Seg::Key(k),
        Seg::Index(i) => Seg::Key(decimal(i)),
    }
}

/// The pointer as it comes back from text.
pub open spec fn keyed(p: Seq<Seg>) -> Seq<Seg> {
    Seq::new(p.len(), |i: int| keyed_segment(p[i]))
}

/// Whether no key of the pointer is empty.
pub open spec fn no_empty_key(p: Seq<Seg>) -> bool {
    forall|i: int| 0 <= i < p.len() ==> #[trigger] p[i] != Seg::Key(Seq::empty())
}

/// The first segment is written first.
pub proof fn lemma_canonical_front(p: Seq<Seg>)
    requires
        p.len() > 0,
    ensures
        canonical(p) == seq!['/'] + segment_text(p[0]) + canonical(p.subrange(1, p.len() as int)),
    decreases p.len(),
{
    let rest = p.subrange(1, p.len() as int);
    if p.len() == 1 {
        assert(p.drop_last() =~= Seq::<Seg>::empty());
        assert(rest =~= Seq::<Seg>::empty());
        assert(canonical(p) =~= seq!['/'] + segment_text(p[0]) + canonical(rest));
    } else {
        lemma_canonical_front(p.drop_last());
        assert(p.drop_last().subrange(1, p.drop_last().len() as int) =~= rest.drop_last());
        assert(rest.last() == p.last());
        assert(canonical(p) =~= seq!['/'] + segment_text(p[0]) + canonical(rest));
    }
}

/// A written pointer is empty or starts with a slash.
pub proof fn lemma_canonical_starts_with_slash(p: Seq<Seg>)
    requires
        p.len() > 0,
    ensures
        canonical(p).len() > 0,
        canonical(p)[0] == '/',
{
    lemma_canonical_front(p);
}

/// A decimal number holds no slash.
proof fn lemma_segment_text(s: Seg)
    requires
        s != Seg::Key(Seq::empty()),
    ensures
        !segment_text(s).contains('/'),
        segment_text(s).len() > 0,
        unescaped(segment_text(s)) == Ok::<Seq<char>, Seq<char>>(keyed_segment(s)->Key_0),
{
    match s {
        Seg::Key(k) => {
            lemma_escaped_has_no_slash(k);
            law_unescape_escaped(k);
            if k.len() == 0 {
                assert(k =~= Seq::<char>::empty());
            }
        },
        Seg::Index(i) => {
            lemma_decimal_value(i);
            let d = decimal(i);
            assert forall|k: int| 0 <= k < d.len() implies d[k] != '/' && d[k] != '~' by {
                assert(is_digit(d[k]));
            }
            lemma_unescaped_plain(d);
        },
    }
}

/// A text without `~` stands for itself.
pub proof fn lemma_unescaped_plain(s: Seq<char>)
    requires
        forall|k: int| 0 <= k < s.len() ==> s[k] != '~',
    ensures
        unescaped(s) == Ok::<Seq<char>, Seq<char>>(s),
    decreases s.len(),
{
    if s.len() > 0 {
        let tail = s.subrange(1, s.len() as int);
        lemma_unescaped_plain(tail);
        assert(seq![s[0]] + tail =~= s);
    } else {
        assert(s =~= Seq::<char>::empty());
    }
}

/// The pieces of a written pointer are its written segments.
proof fn lemma_split_canonical(p: Seq<Seg>)
    requires
        p.len() > 0,
        no_empty_key(p),
    ensures
        split_on(canonical(p).subrange(1, canonical(p).len() as int), '/') == Seq::new(
            p.len(),
            |i: int| segment_text(p[i]),
        ),
    decreases p.len(),
{
    let c = canonical(p);
    let rest = p.subrange(1, p.len() as int);
    lemma_canonical_front(p);
    let head = segment_text(p[0]);
    assert(p[0] != Seg::Key(Seq::empty()));
    lemma_segment_text(p[0]);
    let body = c.subrange(1, c.len() as int);
    assert(body =~= head + canonical(rest));
    let want = Seq::new(p.len(), |i: int| segment_text(p[i]));
    let end = find_from(body, '/', 0);
    lemma_find_from(body, '/', 0);
    assert forall|k: int| 0 <= k < head.len() implies body[k] != '/' by {
        assert(body[k] == head[k]);
        assert(head.contains(head[k]));
    }
    if rest.len() == 0 {
        assert(body =~= head);
        assert(end == body.len());
        assert(split_on(body, '/') =~= want);
    } else {
        lemma_canonical_starts_with_slash(rest);
        assert(body[head.len() as int] == '/');
        assert(end == head.len());
        assert forall|i: int| 0 <= i < rest.len() implies #[trigger] rest[i] != Seg::Key(
            Seq::empty(),
        ) by {
            assert(rest[i] == p[i + 1]);
        }
        lemma_split_canonical(rest);
        assert(body.subrange(end + 1, body.len() as int) =~= canonical(rest).subrange(
            1,
            canonical(rest).len() as int,
        ));
        assert(body.subrange(0, end) =~= head);
        assert(split_on(body, '/') =~= want);
    }
}

/// Pieces that are all well-formed give their keys.
proof fn lemma_pieces_parse(pieces: Seq<Seq<char>>, p: Seq<Seg>, whole: Seq<char>)
    requires
        pieces.len() == p.len(),
        forall|i: int|
            0 <= i < p.len() ==> parsed_piece(#[trigger] pieces[i], whole) == Ok::<Seg, Fault>(
                p[i],
            ),
    ensures
        parsed_pieces(pieces, whole) == Ok::<Seq<Seg>, Fault>(p),
    decreases p.len(),
{
    if p.len() > 0 {
        lemma_pieces_parse(pieces.drop_last(), p.drop_last(), whole);
        assert(parsed_piece(pieces[p.len() - 1], whole) == Ok::<Seg, Fault>(p[p.len() - 1]));
        assert(p.drop_last().push(p.last()) =~= p);
    } else {
        assert(p =~= Seq::<Seg>::empty());
    }
}

/// Parsing undoes rendering: the canonical form of a pointer without empty
/// keys parses back to the same keys, with each index as its decimal digits.
pub proof fn law_parse_canonical(p: Seq<Seg>)
    requires
        no_empty_key(p),
    ensures
        parsed_pointer(canonical(p)) == Ok::<Seq<Seg>, Fault>(keyed(p)),
{
    if p.len() == 0 {
        assert(keyed(p) =~= Seq::<Seg>::empty());
    } else {
        let c = canonical(p);
        lemma_canonical_starts_with_slash(p);
        lemma_split_canonical(p);
        let pieces = split_on(c.subrange(1, c.len() as int), '/');
        assert forall|i: int| 0 <= i < p.len() implies parsed_piece(#[trigger] pieces[i], c) == Ok::<
            Seg,
            Fault,
        >(keyed(p)[i]) by {
            assert(p[i] != Seg::Key(Seq::empty()));
            lemma_segment_text(p[i]);
        }
        lemma_pieces_parse(pieces, keyed(p), c);
    }
}

/// The segments that pieces parse to are written as those pieces.
proof fn lemma_pieces_written(pieces: Seq<Seq<char>>, whole: Seq<char>)
    requires
        parsed_pieces(pieces, whole) is Ok,
        forall|i: int| 0 <= i < pieces.len() ==> !(#[trigger] pieces[i]).contains('/'),
    ensures
        canonical(parsed_pieces(pieces, whole)->Ok_0) == joined(pieces),
        no_empty_key(parsed_pieces(pieces, whole)->Ok_0),
        parsed_pieces(pieces, whole)->Ok_0.len() == pieces.len(),
    decreases pieces.len(),
{
    if pieces.len() > 0 {
        let front = pieces.drop_last();
        assert forall|i: int| 0 <= i < front.len() implies !(#[trigger] front[i]).contains('/') by {
            assert(front[i] == pieces[i]);
        }
        lemma_pieces_written(front, whole);
        let before = parsed_pieces(front, whole)->Ok_0;
        let last = pieces[pieces.len() - 1];
        assert(!last.contains('/'));
        law_escape_unescaped(last);
        let p = parsed_pieces(pieces, whole)->Ok_0;
        assert(p.drop_last() =~= before);
        if unescaped(last)->Ok_0.len() == 0 {
            assert(escaped(unescaped(last)->Ok_0).len() == 0);
        }
        assert forall|i: int| 0 <= i < p.len() implies #[trigger] p[i] != Seg::Key(
            Seq::empty(),
        ) by {
            if i < before.len() {
                assert(p[i] == before[i]);
            }
        }
    }
}

/// Every piece behind a slash of its own, one after the other.
pub open spec fn joined(pieces: Seq<Seq<char>>) -> Seq<char>
    decreases pieces.len(),
{
    if pieces.len() == 0 {
        Seq::empty()
    } else {
        joined(pieces.drop_last()) + seq!['/'] + pieces.last()
    }
}

/// The first piece comes first.
proof fn lemma_joined_front(pieces: Seq<Seq<char>>)
    requires
        pieces.len() > 0,
    ensures
        joined(pieces) == seq!['/'] + pieces[0] + joined(pieces.subrange(1, pieces.len() as int)),
    decreases pieces.len(),
{
    let rest = pieces.subrange(1, pieces.len() as int);
    if pieces.len() == 1 {
        assert(pieces.drop_last() =~= Seq::<Seq<char>>::empty());
        assert(rest =~= Seq::<Seq<char>>::empty());
        assert(joined(pieces) =~= seq!['/'] + pieces[0] + joined(rest));
    } else {
        lemma_joined_front(pieces.drop_last());
        assert(pieces.drop_last().subrange(1, pieces.drop_last().len() as int)
            =~= rest.drop_last());
        assert(joined(pieces) =~= seq!['/'] + pieces[0] + joined(rest));
    }
}

/// Joining undoes splitting, and no piece of a split holds the separator.
proof fn lemma_join_split(s: Seq<char>)
    ensures
        joined(split_on(s, '/')) == seq!['/'] + s,
        forall|i: int|
            0 <= i < split_on(s, '/').len() ==> !(#[trigger] split_on(s, '/')[i]).contains('/'),
        split_on(s, '/').len() >= 1,
    decreases s.len(),
{
    let end = find_from(s, '/', 0);
    lemma_find_from(s, '/', 0);
    let pieces = split_on(s, '/');
    if end < s.len() {
        let tail = s.subrange(end + 1, s.len() as int);
        lemma_join_split(tail);
        lemma_joined_front(pieces);
        assert(pieces.subrange(1, pieces.len() as int) =~= split_on(tail, '/'));
        assert(seq!['/'] + s =~= seq!['/'] + s.subrange(0, end) + (seq!['/'] + tail));
        assert forall|i: int| 0 <= i < pieces.len() implies !(#[trigger] pieces[i]).contains(
            '/',
        ) by {
            if i > 0 {
                assert(pieces[i] == split_on(tail, '/')[i - 1]);
            }
        }
    } else {
        lemma_joined_front(pieces);
        assert(pieces.subrange(1, 1) =~= Seq::<Seq<char>>::empty());
        assert(joined(pieces) =~= seq!['/'] + s);
    }
}

/// Rendering undoes parsing: every text that parses is the canonical form of
/// what it parses to, and names no empty key.
pub proof fn law_canonical_parse(s: Seq<char>)
    requires
        parsed_pointer(s) is Ok,
    ensures
        canonical(parsed_pointer(s)->Ok_0) == s,
        no_empty_key(parsed_pointer(s)->Ok_0),
{
    if s.len() > 0 {
        let body = s.subrange(1, s.len() as int);
        lemma_join_split(body);
        lemma_pieces_written(split_on(body, '/'), s);
        assert(seq!['/'] + body =~= s);
    } else {
        assert(s =~= Seq::<char>::empty());
    }
}

impl Clone for Segment {
    fn clone(&self) -> (r: Segment)
        ensures
            r@ == self@,
    {
        match self {
            Segment::Key(k) => Segment::Key(k.clone()),
            Segment::Index(i) => Segment::Index(*i),
        }
    }
}

impl Clone for Pointer {
    fn clone(&self) -> (r: Pointer)
        ensures
            r@ == self@,
    {
        let r: Pointer = Pointer(copy_segments(&self.0, self.0.len()));
        assert(r@ =~= self@);
        r
    }
}

impl Default for Pointer {
    fn default() -> (r: Pointer)
        ensures
            r@ == Seq::<Seg>::empty(),
    {
        let r: Pointer = Pointer(Vec::new());
        assert(r@ =~= Seq::<Seg>::empty());
        r
    }
}

/// A copy of the first `count` segments.
pub fn copy_segments(segments: &[Segment], count: usize) -> (r: Vec<Segment>)
    requires
        count <= segments@.len(),
    ensures
        segs(r@) == segs(segments@).subrange(0, count as int),
{
    let mut out: Vec<Segment> = Vec::new();
    let mut i: usize = 0;
    while i < count
        invariant
            i <= count <= segments@.len(),
            out@.len() == i,
            forall|k: int| 0 <= k < i ==> (#[trigger] out@[k])@ == segments@[k]@,
        decreases count - i,
    {
        out.push(segments[i].clone());
        i += 1;
    }
    assert(segs(out@) =~= segs(segments@).subrange(0, count as int));
    out
}

impl Pointer {
    /// Builds a pointer from already-parsed segments.
    pub fn new(segments: Vec<Segment>) -> (r: Pointer)
        ensures
            r@ == segs(segments@),
    {
        Pointer(segments)
    }

    /// The pointer's segments.
    pub fn segments(&self) -> (r: &[Segment])
        ensures
            segs(r@) == self@,
            r@.len() == self@.len(),
    {
        self.0.as_slice()
    }

    /// Whether the pointer addresses the root.
    pub fn is_root(&self) -> (r: bool)
        ensures
            r == (self@.len() == 0),
    {
        self.0.len() == 0
    }

    /// Whether the last segment is the array-append marker `-`.
    pub fn is_array_append(&self) -> (r: bool)
        ensures
            r == (self@.len() > 0 && self@.last() == Seg::Key("-"@)),
    {
        let n: usize = self.0.len();
        if n == 0 {
            return false;
        }
        assert(self@.last() == self.0@[n - 1]@);
        match &self.0[n - 1] {
            Segment::Key(k) => crate::text::same_text(k.as_str(), "-"),
            Segment::Index(_) => false,
        }
    }

    /// A new pointer with one more segment.
    pub fn with_segment(&self, seg: Segment) -> (r: Pointer)
        ensures
            r@ == self@.push(seg@),
    {
        let mut segments: Vec<Segment> = copy_segments(&self.0, self.0.len());
        let ghost before = segments@;
        assert(segs(before) =~= self@);
        segments.push(seg);
        let r: Pointer = Pointer(segments);
        assert forall|i: int| 0 <= i < self@.len() implies r@[i] == self@[i] by {
            assert(segs(before)[i] == self@[i]);
        }
        assert(r@ =~= self@.push(seg@));
        r
    }

    /// Appends a segment in place.
    pub fn push_segment(&mut self, seg: Segment)
        ensures
            final(self)@ == old(self)@.push(seg@),
    {
        self.0.push(seg);
        assert(self@ =~= old(self)@.push(seg@));
    }

    /// Takes the last segment off, if there is one.
    pub fn pop_segment(&mut self) -> (r: Option<Segment>)
        ensures
            match r {
                Some(s) => old(self)@.len() > 0 && s@ == old(self)@.last() && final(self)@ == old(
                    self,
                )@.drop_last(),
                None => old(self)@.len() == 0 && final(self)@ == old(self)@,
            },
    {
        let r: Option<Segment> = self.0.pop();
        proof {
            if old(self)@.len() > 0 {
                assert(self@ =~= old(self)@.drop_last());
            } else {
                assert(self@ =~= old(self)@);
            }
        }
        r
    }

    /// Parses a written pointer.
    pub fn parse(s: &str) -> (r: Result<Pointer, Error>)
        ensures
            agrees(r, parsed_pointer(s@)),
    {
        let chars: Vec<char> = chars_of(s);
        if chars.len() == 0 {
            let root: Pointer = Pointer::default();
            return Ok(root);
        }
        if chars[0] != '/' {
            let none: Vec<String> = Vec::new();
            assert(texts(none@) =~= Seq::<Seq<char>>::empty());
            return Err(malformed_error(s, "leading '/'", "other", none));
        }
        let body: Vec<char> = crate::text::copy_between(&chars, 1, chars.len());
        let pieces: Vec<Vec<char>> = split_chars(&body, '/');
        let ghost want = split_on(body@, '/');
        let mut segments: Vec<Segment> = Vec::new();
        let mut i: usize = 0;
        assert(want.subrange(0, 0) =~= Seq::<Seq<char>>::empty());
        assert(segs(segments@) =~= Seq::<Seg>::empty());
        while i < pieces.len()
            invariant
                i <= pieces@.len() == want.len(),
                s@.len() > 0 && s@[0] == '/',
                want == split_on(s@.subrange(1, s@.len() as int), '/'),
                forall|k: int| 0 <= k < pieces@.len() ==> #[trigger] pieces@[k]@ == want[k],
                parsed_pieces(want.subrange(0, i as int), s@) == Ok::<Seq<Seg>, Fault>(
                    segs(segments@),
                ),
            decreases pieces@.len() - i,
        {
            proof {
                let longer = want.subrange(0, i + 1);
                assert(longer.drop_last() =~= want.subrange(0, i as int));
                assert(longer.last() == pieces@[i as int]@);
                lemma_first_fault(want, i + 1, s@);
            }
            if pieces[i].len() == 0 {
                let none: Vec<String> = Vec::new();
                assert(texts(none@) =~= Seq::<Seq<char>>::empty());
                return Err(malformed_error(s, "non-empty segment", "empty segment", none));
            }
            match unescape_segment(&pieces[i]) {
                Ok(key) => {
                    let ghost before = segments@;
                    segments.push(Segment::Key(key));
                    assert(segs(segments@) =~= segs(before).push(Seg::Key(key@)));
                },
                Err(message) => {
                    let mut hints: Vec<String> = Vec::new();
                    hints.push(message);
                    let ghost shown = hints@;
                    let e: Error = malformed_error(s, "valid escape", "invalid escape", hints);
                    assert(texts(shown) =~= seq![message@]);
                    return Err(e);
                },
            }
            i += 1;
        }
        assert(want.subrange(0, want.len() as int) =~= want);
        Ok(Pointer(segments))
    }

    /// Renders the pointer in canonical form.
    pub fn as_canonical(&self) -> (r: String)
        ensures
            r@ == canonical(self@),
    {
        let mut out: String = String::new();
        let mut i: usize = 0;
        assert(self@.subrange(0, 0) =~= Seq::<Seg>::empty());
        assert(out@ =~= canonical(self@.subrange(0, 0)));
        while i < self.0.len()
            invariant
                i <= self.0@.len(),
                out@ == canonical(self@.subrange(0, i as int)),
            decreases self.0@.len() - i,
        {
            let ghost before = out@;
            let ghost longer = self@.subrange(0, i + 1);
            assert(longer.drop_last() =~= self@.subrange(0, i as int));
            assert(longer.last() == self.0@[i as int]@);
            out.push('/');
            match &self.0[i] {
                Segment::Key(k) => {
                    let text: String = escape_segment(k.as_str());
                    out.push_str(text.as_str());
                },
                Segment::Index(n) => {
                    let text: String = index_text(*n);
                    out.push_str(text.as_str());
                },
            }
            assert(out@ =~= before + seq!['/'] + segment_text(longer.last()));
            i += 1;
        }
        assert(self@.subrange(0, self@.len() as int) =~= self@);
        out
    }
}

/// A fault among the first pieces is the fault of all of them.
proof fn lemma_first_fault(pieces: Seq<Seq<char>>, k: int, whole: Seq<char>)
    requires
        0 <= k <= pieces.len(),
    ensures
        parsed_pieces(pieces.subrange(0, k), whole) is Err ==> parsed_pieces(pieces, whole)
            == parsed_pieces(pieces.subrange(0, k), whole),
    decreases pieces.len() - k,
{
    if k < pieces.len() {
        lemma_first_fault(pieces, k + 1, whole);
        assert(pieces.subrange(0, k + 1).drop_last() =~= pieces.subrange(0, k));
    } else {
        assert(pieces.subrange(0, k) =~= pieces);
    }
}

/// Builds the error for a malformed pointer.
fn malformed_error(
    pointer: &str,
    expected: &'static str,
    found: &'static str,
    did_you_mean: Vec<String>,
) -> (r: Error)
    ensures
        r@ == malformed(pointer@, expected@, found@, texts(did_you_mean@)),
{
    let empty: String = String::new();
    assert(empty@ =~= Seq::<char>::empty());
    Error::Path {
        pointer: pointer.to_owned(),
        matched_prefix: empty,
        kind: PathErrorKind::TypeMismatch { expected, found },
        did_you_mean,
    }
}

} // verus!
