//! Tags and declarations that are read as they were written.

use crate::parsers::json_spelling::{lemma_encode_two, lemma_wide_char};
use crate::parsers::xml_events::{xml_declaration, DeclModel};
use crate::parsers::xml_marks::{
    all_name_chars, attr_pairs_read, attrs_plain, declaration_content, is_declaration,
    is_name_char, is_written_declaration, is_written_tag, is_xml_name, written_declaration,
};
use crate::parsers::xml_read::{attrs_read, is_xml_space, name_end, opened, started, tag_len, tag_name};
use crate::parsers::xml_write::{attrs_text, xml_escaped, xml_escaped_char};
use crate::value::{lemma_key_index_is, Tree};
use vstd::prelude::*;
use vstd::utf8::{
    encode_utf8, encode_utf8_decode_utf8, encode_utf8_valid_utf8, is_ascii_chars,
    is_ascii_chars_encode_utf8,
};

verus! {

// ---------------------------------------------------------------------------
// Escaped text
// ---------------------------------------------------------------------------

proof fn lemma_xml_escaped_front(s: Seq<char>)
    requires
        s.len() > 0,
    ensures
        xml_escaped(s) == xml_escaped_char(s[0]) + xml_escaped(s.drop_first()),
    decreases s.len(),
{
    let rest = s.drop_first();
    if s.len() == 1 {
        assert(s.drop_last() =~= Seq::<char>::empty());
        assert(rest =~= Seq::<char>::empty());
        assert(xml_escaped(s) =~= xml_escaped_char(s[0]) + xml_escaped(rest));
    } else {
        lemma_xml_escaped_front(s.drop_last());
        assert(s.drop_last().drop_first() =~= rest.drop_last());
        assert(xml_escaped(s) =~= xml_escaped_char(s[0]) + xml_escaped(rest));
    }
}

proof fn lemma_entities()
    ensures
        "&lt;"@ == seq!['&', 'l', 't', ';'],
        "&gt;"@ == seq!['&', 'g', 't', ';'],
        "&amp;"@ == seq!['&', 'a', 'm', 'p', ';'],
        "&apos;"@ == seq!['&', 'a', 'p', 'o', 's', ';'],
        "&quot;"@ == seq!['&', 'q', 'u', 'o', 't', ';'],
{
    reveal_strlit("&lt;");
    reveal_strlit("&gt;");
    reveal_strlit("&amp;");
    reveal_strlit("&apos;");
    reveal_strlit("&quot;");
    assert("&lt;"@ =~= seq!['&', 'l', 't', ';']);
    assert("&gt;"@ =~= seq!['&', 'g', 't', ';']);
    assert("&amp;"@ =~= seq!['&', 'a', 'm', 'p', ';']);
    assert("&apos;"@ =~= seq!['&', 'a', 'p', 'o', 's', ';']);
    assert("&quot;"@ =~= seq!['&', 'q', 'u', 'o', 't', ';']);
}

proof fn lemma_escaped_char_decides(c: char, x: Seq<char>, d: char, y: Seq<char>)
    requires
        xml_escaped_char(c) + x == xml_escaped_char(d) + y,
    ensures
        c == d,
        x == y,
{
    lemma_entities();
    let (a, b) = (xml_escaped_char(c), xml_escaped_char(d));
    let whole = a + x;
    assert(whole[0] == a[0] && whole[0] == b[0]);
    if a.len() > 1 {
        assert(whole[1] == a[1] && whole[2] == a[2]);
    }
    if b.len() > 1 {
        assert(whole[1] == b[1] && whole[2] == b[2]);
    }
    assert(c == d);
    assert(x =~= whole.subrange(a.len() as int, whole.len() as int));
    assert(y =~= whole.subrange(b.len() as int, whole.len() as int));
}

/// What stands before a quote in escaped text is told apart from what stands
/// behind it.
proof fn lemma_quoted_decides(s: Seq<char>, x: Seq<char>, u: Seq<char>, y: Seq<char>)
    requires
        xml_escaped(s) + (seq!['"'] + x) == xml_escaped(u) + (seq!['"'] + y),
    ensures
        s == u,
        x == y,
    decreases s.len(),
{
    lemma_entities();
    let (p, q) = (seq!['"'] + x, seq!['"'] + y);
    let whole = xml_escaped(s) + p;
    if s.len() > 0 {
        lemma_xml_escaped_front(s);
        assert(whole[0] == xml_escaped_char(s[0])[0]);
    } else {
        assert(whole[0] == '"');
    }
    if u.len() > 0 {
        lemma_xml_escaped_front(u);
        assert((xml_escaped(u) + q)[0] == xml_escaped_char(u[0])[0]);
    } else {
        assert((xml_escaped(u) + q)[0] == '"');
    }
    if s.len() > 0 && u.len() > 0 {
        let more = xml_escaped(s.drop_first()) + p;
        let other = xml_escaped(u.drop_first()) + q;
        assert(whole =~= xml_escaped_char(s[0]) + more);
        assert(xml_escaped(u) + q =~= xml_escaped_char(u[0]) + other);
        lemma_escaped_char_decides(s[0], more, u[0], other);
        lemma_quoted_decides(s.drop_first(), x, u.drop_first(), y);
        assert(s =~= seq![s[0]] + s.drop_first());
        assert(u =~= seq![u[0]] + u.drop_first());
    } else {
        assert(s.len() == 0 && u.len() == 0);
        assert(s =~= u);
        assert(x =~= whole.subrange(1, whole.len() as int));
        assert(y =~= whole.subrange(1, whole.len() as int));
    }
}

// ---------------------------------------------------------------------------
// Attributes
// ---------------------------------------------------------------------------

/// One attribute as a tag has it.
spec fn attr_text(attr: (Seq<char>, Seq<char>)) -> Seq<char> {
    seq![' '] + attr.0 + seq!['=', '"'] + xml_escaped(attr.1) + seq!['"']
}

proof fn lemma_attrs_front(attrs: Seq<(Seq<char>, Seq<char>)>, k: int)
    requires
        0 < k <= attrs.len(),
    ensures
        attrs_text(attrs, k) == attr_text(attrs[0]) + attrs_text(attrs.drop_first(), k - 1),
    decreases k,
{
    reveal_strlit(" ");
    reveal_strlit("=\"");
    reveal_strlit("\"");
    assert(" "@ =~= seq![' ']);
    assert("=\""@ =~= seq!['=', '"']);
    assert("\""@ =~= seq!['"']);
    let rest = attrs.drop_first();
    if k == 1 {
        assert(attrs_text(attrs, 0) =~= Seq::<char>::empty());
        assert(attrs_text(rest, 0) =~= Seq::<char>::empty());
        assert(attrs_text(attrs, 1) =~= attr_text(attrs[0]) + attrs_text(rest, 0));
    } else {
        lemma_attrs_front(attrs, k - 1);
        assert(rest[k - 2] == attrs[k - 1]);
        assert(attrs_text(attrs, k) =~= attr_text(attrs[0]) + attrs_text(rest, k - 1));
    }
}

/// What stands before a mark is told apart from what stands behind it.
proof fn lemma_name_decides(
    s: Seq<char>,
    x: Seq<char>,
    u: Seq<char>,
    y: Seq<char>,
    mark: char,
)
    requires
        s + (seq![mark] + x) == u + (seq![mark] + y),
        all_name_chars(s),
        all_name_chars(u),
        !is_name_char(mark),
    ensures
        s == u,
        x == y,
{
    let whole = s + (seq![mark] + x);
    if s.len() < u.len() {
        assert(whole[s.len() as int] == mark);
        assert(whole[s.len() as int] == u[s.len() as int]);
        assert(is_name_char(u[s.len() as int]));
    } else if u.len() < s.len() {
        assert(whole[u.len() as int] == mark);
        assert(whole[u.len() as int] == s[u.len() as int]);
        assert(is_name_char(s[u.len() as int]));
    }
    assert(s =~= whole.subrange(0, s.len() as int));
    assert(u =~= whole.subrange(0, u.len() as int));
    assert(x =~= whole.subrange(s.len() as int + 1, whole.len() as int));
    assert(y =~= whole.subrange(u.len() as int + 1, whole.len() as int));
}

proof fn lemma_first_attr_decides(
    a: (Seq<char>, Seq<char>),
    x: Seq<char>,
    b: (Seq<char>, Seq<char>),
    y: Seq<char>,
)
    requires
        attr_text(a) + x == attr_text(b) + y,
        all_name_chars(a.0),
        all_name_chars(b.0),
    ensures
        a == b,
        x == y,
{
    let whole = attr_text(a) + x;
    let more = seq!['"'] + (xml_escaped(a.1) + (seq!['"'] + x));
    let other = seq!['"'] + (xml_escaped(b.1) + (seq!['"'] + y));
    assert(whole.drop_first() =~= a.0 + (seq!['='] + more));
    assert(whole.drop_first() =~= b.0 + (seq!['='] + other)) by {
        assert(attr_text(b) + y =~= seq![' '] + (b.0 + (seq!['='] + other)));
    }
    lemma_name_decides(a.0, more, b.0, other, '=');
    assert(more.drop_first() =~= xml_escaped(a.1) + (seq!['"'] + x));
    assert(other.drop_first() =~= xml_escaped(b.1) + (seq!['"'] + y));
    lemma_quoted_decides(a.1, x, b.1, y);
}

proof fn lemma_attrs_decide(a: Seq<(Seq<char>, Seq<char>)>, b: Seq<(Seq<char>, Seq<char>)>)
    requires
        attrs_plain(a),
        attrs_plain(b),
        attrs_text(a, a.len() as int) == attrs_text(b, b.len() as int),
    ensures
        a == b,
    decreases a.len(),
{
    let whole = attrs_text(a, a.len() as int);
    if a.len() > 0 {
        lemma_attrs_front(a, a.len() as int);
        assert(whole[0] == ' ');
    }
    if b.len() > 0 {
        lemma_attrs_front(b, b.len() as int);
        assert(attrs_text(b, b.len() as int)[0] == ' ');
    }
    if a.len() > 0 && b.len() > 0 {
        let (p, q) = (a.drop_first(), b.drop_first());
        assert(is_xml_name(a[0].0) && is_xml_name(b[0].0));
        lemma_first_attr_decides(
            a[0],
            attrs_text(p, p.len() as int),
            b[0],
            attrs_text(q, q.len() as int),
        );
        assert(attrs_plain(p)) by {
            assert(forall|i: int| 0 <= i < p.len() ==> p[i] == a[i + 1]);
        }
        assert(attrs_plain(q)) by {
            assert(forall|i: int| 0 <= i < q.len() ==> q[i] == b[i + 1]);
        }
        lemma_attrs_decide(p, q);
        assert(a =~= seq![a[0]] + p);
        assert(b =~= seq![b[0]] + q);
    } else {
        assert(a =~= b);
    }
}

/// The attributes of a tag as a value has them.
pub open spec fn attr_entries(attrs: Seq<(Seq<char>, Seq<char>)>) -> Seq<(Seq<char>, Tree)> {
    Seq::new(attrs.len(), |i: int| (attrs[i].0, Tree::String(attrs[i].1)))
}

proof fn lemma_attrs_read(attrs: Seq<(Seq<char>, Seq<char>)>, k: int)
    requires
        attrs_plain(attrs),
        0 <= k <= attrs.len(),
    ensures
        attrs_read(attr_pairs_read(attrs), k) == Ok::<_, crate::error::Fault>(
            attr_entries(attrs).subrange(0, k),
        ),
    decreases k,
{
    let entries = attr_entries(attrs);
    if k == 0 {
        assert(entries.subrange(0, 0) =~= Seq::<(Seq<char>, Tree)>::empty());
    } else {
        lemma_attrs_read(attrs, k - 1);
        let before = entries.subrange(0, k - 1);
        assert forall|i: int| 0 <= i < before.len() implies (#[trigger] before[i]).0 != attrs[k
            - 1].0 by {
            assert(attrs[i].0 != attrs[k - 1].0);
        }
        lemma_key_index_is(before, attrs[k - 1].0, k - 1);
        assert(entries.subrange(0, k) =~= before.push(entries[k - 1]));
    }
}

proof fn lemma_char_bytes(c: char)
    requires
        is_name_char(c),
    ensures
        forall|i: int|
            0 <= i < encode_utf8(seq![c]).len() ==> !is_xml_space(
                #[trigger] encode_utf8(seq![c])[i],
            ),
{
    let first = seq![c];
    if (c as u32) < 0x80 {
        assert(is_ascii_chars(first));
        is_ascii_chars_encode_utf8(first);
        assert(encode_utf8(first)[0] == c as u8);
    } else {
        lemma_wide_char(c);
    }
}

proof fn lemma_name_bytes(s: Seq<char>)
    requires
        all_name_chars(s),
    ensures
        forall|i: int| 0 <= i < encode_utf8(s).len() ==> !is_xml_space(#[trigger] encode_utf8(s)[i]),
    decreases s.len(),
{
    if s.len() > 0 {
        let rest = s.drop_first();
        let first = seq![s[0]];
        assert(s =~= first + rest);
        lemma_encode_two(first, rest);
        assert(is_name_char(s[0]));
        assert forall|i: int| 0 <= i < rest.len() implies is_name_char(#[trigger] rest[i]) by {
            assert(rest[i] == s[i + 1]);
        }
        lemma_name_bytes(rest);
        let b = encode_utf8(first);
        lemma_char_bytes(s[0]);
        assert forall|i: int| 0 <= i < encode_utf8(s).len() implies !is_xml_space(
            #[trigger] encode_utf8(s)[i],
        ) by {
            if i < b.len() {
                assert(encode_utf8(s)[i] == b[i]);
            } else {
                assert(encode_utf8(s)[i] == encode_utf8(rest)[i - b.len()]);
            }
        }
    }
}

proof fn lemma_name_end(bytes: Seq<u8>, k: int, n: int)
    requires
        0 <= k <= n <= bytes.len(),
        forall|i: int| 0 <= i < n ==> !is_xml_space(#[trigger] bytes[i]),
        n == bytes.len() || is_xml_space(bytes[n]),
    ensures
        name_end(bytes, k) == n,
    decreases n - k,
{
    if k < n {
        lemma_name_end(bytes, k + 1, n);
    }
}

/// A tag that was written opens an element with its name and attributes.
pub proof fn lemma_tag_read(tag: Seq<char>, attrs: Seq<(Seq<char>, Seq<char>)>)
    requires
        is_xml_name(tag),
        attrs_plain(attrs),
    ensures
        started(tag + attrs_text(attrs, attrs.len() as int)) == Ok::<_, crate::error::Fault>(
            opened(tag, attr_entries(attrs)),
        ),
{
    let rest = attrs_text(attrs, attrs.len() as int);
    let content = tag + rest;
    let bytes = encode_utf8(content);
    let n = encode_utf8(tag).len() as int;
    lemma_encode_two(tag, rest);
    lemma_name_bytes(tag);
    assert forall|i: int| 0 <= i < n implies !is_xml_space(#[trigger] bytes[i]) by {
        assert(bytes[i] == encode_utf8(tag)[i]);
    }
    if attrs.len() > 0 {
        lemma_attrs_front(attrs, attrs.len() as int);
        assert(rest[0] == ' ');
        let blank = seq![' '];
        assert(rest =~= blank + rest.drop_first());
        lemma_encode_two(blank, rest.drop_first());
        assert(is_ascii_chars(blank));
        is_ascii_chars_encode_utf8(blank);
        assert(encode_utf8(blank)[0] == 32u8);
        assert(encode_utf8(rest)[0] == 32u8);
        assert(bytes[n] == 32u8);
    } else {
        assert(rest =~= Seq::<char>::empty());
        assert(encode_utf8(rest) =~= Seq::<u8>::empty());
    }
    lemma_name_end(bytes, 0, n);
    assert(tag_len(content) == n);
    assert(bytes.subrange(0, n) =~= encode_utf8(tag));
    encode_utf8_valid_utf8(tag);
    encode_utf8_decode_utf8(tag);
    assert(tag_name(content) == tag);
    assert(is_written_tag(content, n, tag, attrs));
    let (other, found) = choose|t: Seq<char>, a: Seq<(Seq<char>, Seq<char>)>| #[trigger]
        is_written_tag(content, n, t, a);
    assert(is_written_tag(content, n, other, found));
    lemma_encode_two(other, attrs_text(found, found.len() as int));
    assert(bytes.subrange(0, n) =~= encode_utf8(other));
    encode_utf8_decode_utf8(other);
    assert(other == tag);
    assert(attrs_text(found, found.len() as int) =~= content.subrange(
        tag.len() as int,
        content.len() as int,
    ));
    assert(rest =~= content.subrange(tag.len() as int, content.len() as int));
    lemma_attrs_decide(found, attrs);
    lemma_attrs_read(attrs, attrs.len() as int);
    let entries = attr_entries(attrs);
    assert(entries.subrange(0, entries.len() as int) =~= entries);
}

// ---------------------------------------------------------------------------
// Declarations
// ---------------------------------------------------------------------------

spec fn after_version(e: Option<Seq<char>>, s: Option<Seq<char>>) -> Seq<char> {
    (match e {
        Some(e) => "\" encoding=\""@ + e,
        None => Seq::empty(),
    }) + (match s {
        Some(s) => "\" standalone=\""@ + s,
        None => Seq::empty(),
    }) + "\""@
}

spec fn after_encoding(s: Option<Seq<char>>) -> Seq<char> {
    (match s {
        Some(s) => "\" standalone=\""@ + s,
        None => Seq::empty(),
    }) + "\""@
}

proof fn lemma_after_encoding(s: Option<Seq<char>>, u: Option<Seq<char>>)
    requires
        s matches Some(x) ==> all_name_chars(x),
        u matches Some(x) ==> all_name_chars(x),
        after_encoding(s) == after_encoding(u),
    ensures
        s == u,
{
    reveal_strlit("\" standalone=\"");
    reveal_strlit("\"");
    let whole = after_encoding(s);
    match (s, u) {
        (Some(x), Some(y)) => {
            let p = "\" standalone=\""@;
            let n = p.len() as int;
            assert(whole.subrange(n, whole.len() as int) =~= x + (seq!['"'] + Seq::<char>::empty()));
            assert(whole.subrange(n, whole.len() as int) =~= y + (seq!['"'] + Seq::<char>::empty()));
            lemma_name_decides(x, Seq::empty(), y, Seq::empty(), '"');
        },
        (None, None) => {},
        (Some(x), None) => {
            assert(whole.len() > 1);
            assert(after_encoding(u).len() == 1);
        },
        (None, Some(y)) => {
            assert(after_encoding(u).len() > 1);
            assert(whole.len() == 1);
        },
    }
}

proof fn lemma_after_version(
    e: Option<Seq<char>>,
    s: Option<Seq<char>>,
    f: Option<Seq<char>>,
    u: Option<Seq<char>>,
)
    requires
        e matches Some(x) ==> all_name_chars(x),
        s matches Some(x) ==> all_name_chars(x),
        f matches Some(x) ==> all_name_chars(x),
        u matches Some(x) ==> all_name_chars(x),
        after_version(e, s) == after_version(f, u),
    ensures
        e == f,
        s == u,
{
    reveal_strlit("\" encoding=\"");
    reveal_strlit("\" standalone=\"");
    reveal_strlit("\"");
    let whole = after_version(e, s);
    let p = "\" encoding=\""@;
    let n = p.len() as int;
    if e is Some {
        assert(whole[2] == 'e');
    } else {
        assert(whole =~= after_encoding(s));
        assert(whole.len() == 1 || whole[2] == 's');
    }
    if f is Some {
        assert(after_version(f, u)[2] == 'e');
    } else {
        assert(whole =~= after_encoding(u));
        assert(whole.len() == 1 || whole[2] == 's');
    }
    match (e, f) {
        (Some(x), Some(y)) => {
            let (a, b) = (after_encoding(s), after_encoding(u));
            assert(a[0] == '"' && b[0] == '"');
            assert(a =~= seq!['"'] + a.drop_first());
            assert(b =~= seq!['"'] + b.drop_first());
            assert(whole.subrange(n, whole.len() as int) =~= x + (seq!['"'] + a.drop_first()));
            assert(whole.subrange(n, whole.len() as int) =~= y + (seq!['"'] + b.drop_first()));
            lemma_name_decides(x, a.drop_first(), y, b.drop_first(), '"');
            lemma_after_encoding(s, u);
        },
        (None, None) => {
            lemma_after_encoding(s, u);
        },
        _ => {},
    }
}

/// What stands in a declaration behind the quote that opens its version.
proof fn lemma_version_ends(v: Seq<char>, e: Option<Seq<char>>, s: Option<Seq<char>>)
    ensures
        after_version(e, s).len() > 0,
        after_version(e, s)[0] == '"',
        declaration_content(v, e, s) == "xml version=\""@ + (v + (seq!['"'] + after_version(
            e,
            s,
        ).drop_first())),
{
    reveal_strlit("\"");
    reveal_strlit("\" encoding=\"");
    reveal_strlit("\" standalone=\"");
    let a = after_version(e, s);
    assert(a[0] == '"');
    assert(a =~= seq!['"'] + a.drop_first());
    let head = "xml version=\""@;
    assert(declaration_content(v, e, s) =~= head + (v + a));
}

proof fn lemma_declaration_decides(a: DeclModel, b: DeclModel)
    requires
        a.version is Some,
        b.version is Some,
        is_declaration(a.version->Some_0, a.encoding, a.standalone),
        is_declaration(b.version->Some_0, b.encoding, b.standalone),
        declaration_content(a.version->Some_0, a.encoding, a.standalone) == declaration_content(
            b.version->Some_0,
            b.encoding,
            b.standalone,
        ),
    ensures
        a == b,
{
    let (v, w) = (a.version->Some_0, b.version->Some_0);
    let x = after_version(a.encoding, a.standalone);
    let y = after_version(b.encoding, b.standalone);
    lemma_version_ends(v, a.encoding, a.standalone);
    lemma_version_ends(w, b.encoding, b.standalone);
    let head = "xml version=\""@;
    let p = v + (seq!['"'] + x.drop_first());
    let q = w + (seq!['"'] + y.drop_first());
    let n = head.len() as int;
    assert(p =~= (head + p).subrange(n, (head + p).len() as int));
    assert(q =~= (head + q).subrange(n, (head + q).len() as int));
    lemma_name_decides(v, x.drop_first(), w, y.drop_first(), '"');
    assert(x =~= seq!['"'] + x.drop_first());
    assert(y =~= seq!['"'] + y.drop_first());
    lemma_after_version(a.encoding, a.standalone, b.encoding, b.standalone);
}

/// A declaration that was written is read as its parts.
pub proof fn lemma_declaration_read(parts: DeclModel)
    requires
        parts.version is Some,
        is_declaration(parts.version->Some_0, parts.encoding, parts.standalone),
    ensures
        xml_declaration(
            declaration_content(parts.version->Some_0, parts.encoding, parts.standalone),
        ) == parts,
{
    let content = declaration_content(parts.version->Some_0, parts.encoding, parts.standalone);
    assert(is_written_declaration(content, parts));
    let found = written_declaration(content);
    assert(is_written_declaration(content, found));
    lemma_declaration_decides(parts, found);
}

} // verus!
