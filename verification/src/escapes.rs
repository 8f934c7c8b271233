//! What the JSON string writer writes reads back: through the catalogue's JSON string reader
//! and through the words sidecar's, character for character, whatever the string holds.
use vstd::prelude::*;
use vstd::utf8::*;
use crate::convert::{escape_char, escaped_chars, hex_lower, json_literal};
use crate::json::{json_body, json_escape, json_string, json_unicode};
use crate::sidecar::{escape_at, hex4, is_scalar_value, run_end, str_body, string_at, unicode_escape, ws_end};

verus! {

broadcast use {encode_utf8_decode_utf8, encode_utf8_valid_utf8, char_u32_cast};

/// A character a JSON string holds as it is, with no escape.
pub open spec fn plain(c: char) -> bool {
    c != '"' && c != '\\' && (c as u32) >= 0x20
}

/// How many characters at the front of `s` are plain.
pub open spec fn plain_run(s: Seq<char>) -> nat
    decreases s.len(),
{
    if s.len() > 0 && plain(s[0]) {
        1 + plain_run(s.drop_first())
    } else {
        0
    }
}

proof fn lemma_plain_run(s: Seq<char>)
    ensures
        plain_run(s) <= s.len(),
        forall|k: int| 0 <= k < plain_run(s) ==> plain(#[trigger] s[k]),
        plain_run(s) < s.len() ==> !plain(s[plain_run(s) as int]),
    decreases s.len(),
{
    if s.len() > 0 && plain(s[0]) {
        let t = s.drop_first();
        lemma_plain_run(t);
        assert forall|k: int| 0 <= k < plain_run(s) implies plain(#[trigger] s[k]) by {
            if k > 0 {
                assert(s[k] == t[k - 1]);
            }
        }
        if plain_run(s) < s.len() {
            assert(s[plain_run(s) as int] == t[plain_run(t) as int]);
        }
    }
}

pub(crate) proof fn lemma_encode_concat(a: Seq<char>, b: Seq<char>)
    ensures
        encode_utf8(a + b) == encode_utf8(a) + encode_utf8(b),
    decreases a.len(),
{
    if a.len() > 0 {
        lemma_encode_concat(a.drop_first(), b);
        assert((a + b).drop_first() =~= a.drop_first() + b);
        assert((a + b)[0] == a[0]);
        assert(encode_utf8(a + b) =~= encode_scalar(a[0] as u32) + encode_utf8(a.drop_first() + b));
    } else {
        assert(a + b =~= b);
        assert(encode_utf8(a) + encode_utf8(b) =~= encode_utf8(b));
    }
}

proof fn lemma_escaped_concat(a: Seq<char>, b: Seq<char>)
    ensures
        escaped_chars(a + b) == escaped_chars(a) + escaped_chars(b),
    decreases b.len(),
{
    if b.len() > 0 {
        lemma_escaped_concat(a, b.drop_last());
        assert((a + b).drop_last() =~= a + b.drop_last());
        assert((a + b).last() == b.last());
        assert(escaped_chars(a) + escaped_chars(b) =~= escaped_chars(a) + escaped_chars(b.drop_last())
            + escape_char(b.last()));
    } else {
        assert(a + b =~= a);
        assert(escaped_chars(a) + escaped_chars(b) =~= escaped_chars(a));
    }
}

proof fn lemma_escaped_one(c: char)
    ensures
        escaped_chars(seq![c]) == escape_char(c),
{
    let one = seq![c];
    assert(one.drop_last() =~= Seq::<char>::empty());
    assert(one.last() == c);
    assert(escaped_chars(Seq::<char>::empty()) =~= Seq::<char>::empty());
    assert(escaped_chars(one) == escaped_chars(one.drop_last()) + escape_char(one.last()));
    assert(Seq::<char>::empty() + escape_char(c) =~= escape_char(c));
}

pub(crate) proof fn lemma_escaped_plain(p: Seq<char>)
    requires
        forall|k: int| 0 <= k < p.len() ==> plain(#[trigger] p[k]),
    ensures
        escaped_chars(p) == p,
    decreases p.len(),
{
    if p.len() > 0 {
        let q = p.drop_last();
        assert forall|k: int| 0 <= k < q.len() implies plain(#[trigger] q[k]) by {
            assert(q[k] == p[k]);
        }
        lemma_escaped_plain(q);
        assert(plain(p[p.len() - 1]));
        assert(q + seq![p.last()] =~= p);
    }
}

proof fn lemma_ascii_byte(x: u32)
    requires
        x < 0x80,
    ensures
        leading_byte_width_1(x) == x as u8,
{
    assert((x & 0x7F) as u8 == x as u8) by (bit_vector)
        requires
            x < 0x80,
    ;
}

proof fn lemma_high_bytes(x: u32)
    ensures
        leading_byte_width_2(x) >= 0x80,
        leading_byte_width_3(x) >= 0x80,
        leading_byte_width_4(x) >= 0x80,
        last_continuation_byte(x) >= 0x80,
        second_last_continuation_byte(x) >= 0x80,
        third_last_continuation_byte(x) >= 0x80,
{
    assert(0xC0u8 | ((x >> 6) & 0x1F) as u8 >= 0x80) by (bit_vector);
    assert(0xE0u8 | ((x >> 12) & 0x0F) as u8 >= 0x80) by (bit_vector);
    assert(0xF0u8 | ((x >> 18) & 0x7) as u8 >= 0x80) by (bit_vector);
    assert(0x80u8 | (x & 0x3F) as u8 >= 0x80) by (bit_vector);
    assert(0x80u8 | ((x >> 6) & 0x3F) as u8 >= 0x80) by (bit_vector);
    assert(0x80u8 | ((x >> 12) & 0x3F) as u8 >= 0x80) by (bit_vector);
}

/// A one-byte character is written as its own byte.
pub(crate) proof fn lemma_encode_ascii(c: char)
    requires
        (c as u32) < 0x80,
    ensures
        encode_utf8(seq![c]) == seq![(c as u32) as u8],
{
    lemma_ascii_byte(c as u32);
    assert(seq![c].drop_first() =~= Seq::<char>::empty());
    assert(encode_utf8(seq![c]) =~= encode_scalar(c as u32) + encode_utf8(Seq::<char>::empty()));
}

/// The bytes of a plain character are no quote and no backslash.
proof fn lemma_plain_bytes(c: char)
    requires
        plain(c),
    ensures
        forall|k: int|
            0 <= k < encode_scalar(c as u32).len() ==> #[trigger] encode_scalar(c as u32)[k] != 0x22
                && encode_scalar(c as u32)[k] != 0x5c,
{
    let x = c as u32;
    lemma_high_bytes(x);
    if x < 0x80 {
        lemma_ascii_byte(x);
    }
}

/// The bytes of plain characters hold no quote and no backslash.
proof fn lemma_encode_plain(p: Seq<char>)
    requires
        forall|k: int| 0 <= k < p.len() ==> plain(#[trigger] p[k]),
    ensures
        forall|k: int|
            0 <= k < encode_utf8(p).len() ==> #[trigger] encode_utf8(p)[k] != 0x22 && encode_utf8(p)[k] != 0x5c,
    decreases p.len(),
{
    if p.len() > 0 {
        let q = p.drop_first();
        assert forall|k: int| 0 <= k < q.len() implies plain(#[trigger] q[k]) by {
            assert(q[k] == p[k + 1]);
        }
        lemma_encode_plain(q);
        let c0 = p[0];
        assert(plain(c0));
        let e = encode_scalar(c0 as u32);
        lemma_plain_bytes(c0);
        assert(encode_utf8(p) == e + encode_utf8(q));
        assert forall|k: int| 0 <= k < encode_utf8(p).len() implies #[trigger] encode_utf8(p)[k] != 0x22
            && encode_utf8(p)[k] != 0x5c by {
            if k >= e.len() {
                assert(encode_utf8(p)[k] == encode_utf8(q)[k - e.len()]);
            } else {
                assert(encode_utf8(p)[k] == e[k]);
            }
        }
    }
}

proof fn lemma_run_end_at(b: Seq<u8>, i: int, j: int)
    requires
        0 <= i <= j < b.len(),
        forall|k: int| i <= k < j ==> b[k] != 0x22 && b[k] != 0x5c,
        b[j] == 0x22 || b[j] == 0x5c,
    ensures
        run_end(b, i) == j,
    decreases j - i,
{
    if i < j {
        lemma_run_end_at(b, i + 1, j);
    }
}

proof fn lemma_hex_lower(n: int)
    requires
        0 <= n < 16,
    ensures
        (hex_lower(n) as u32) < 0x80,
        crate::sidecar::hex_digit((hex_lower(n) as u32) as u8) == Some(n as u32),
{
    if n < 10 {
        assert(((48 + n) as char) as u32 == 48 + n);
    } else {
        assert(((87 + n) as char) as u32 == 87 + n);
    }
}

/// The escape written for a character that is not plain reads back as that character, and its
/// bytes start with a backslash.
proof fn lemma_escape_reads(c: char, pre: Seq<u8>, post: Seq<u8>)
    requires
        !plain(c),
    ensures
        ({
            let e = encode_utf8(escape_char(c));
            let b = pre + e + post;
            &&& e.len() >= 2
            &&& e[0] == 0x5c
            &&& json_escape(b, pre.len() + 2int, b[pre.len() + 1int]) == Ok::<(char, int), Seq<char>>((c, pre.len() + e.len() as int))
        }),
{
    let x = c as u32;
    let t = escape_char(c);
    assert(is_ascii_chars(t)) by {
        if c != '"' && c != '\\' && c != '\n' {
            lemma_hex_lower((x / 16) as int);
            lemma_hex_lower((x % 16) as int);
        }
    }
    let e = encode_utf8(t);
    let b = pre + e + post;
    let i = pre.len() as int;
    is_ascii_chars_encode_utf8(t);
    assert(e.len() == t.len());
    assert forall|k: int| 0 <= k < t.len() implies e[k] == t[k] as u8 by {}
    assert(b[i] == e[0] && b[i + 1] == e[1]);
    assert(t[0] == '\\');
    if c == '"' {
        assert(e[1] == 0x22);
        assert((0x22u8 as u32) as char == c);
    } else if c == '\\' {
        assert(e[1] == 0x5c);
        assert((0x5cu8 as u32) as char == c);
    } else if c == '\n' {
        assert(e[1] == 0x6e);
    } else {
        assert(x < 0x20);
        lemma_hex_lower((x / 16) as int);
        lemma_hex_lower((x % 16) as int);
        assert(e[1] == 0x75);
        let h = b.subrange(i + 2, i + 6);
        assert(h[0] == 0x30 && h[1] == 0x30);
        assert(h[2] == (hex_lower((x / 16) as int) as u32) as u8);
        assert(h[3] == (hex_lower((x % 16) as int) as u32) as u8);
        assert(hex4(h) == Some(((x / 16) * 16 + x % 16) as u32));
        assert(json_unicode(b, i + 2) == Ok::<(u32, int), Seq<char>>((x, i + 6)));
        assert(is_scalar_value(x));
        assert((x as char) == c);
    }
}

/// The bytes of an escaped sequence that opens with a character needing an escape: that escape's
/// bytes, then the rest.
proof fn lemma_split_escape(s: Seq<char>)
    requires
        s.len() > 0,
    ensures
        encode_utf8(escaped_chars(s)) == encode_utf8(escape_char(s[0])) + encode_utf8(escaped_chars(s.drop_first())),
{
    let c = s[0];
    let r = s.drop_first();
    assert(seq![c] + r =~= s);
    lemma_escaped_concat(seq![c], r);
    lemma_escaped_one(c);
    lemma_encode_concat(escape_char(c), escaped_chars(r));
}

/// The bytes of an escaped sequence that opens with plain characters: those characters' own
/// bytes, which hold no quote and no backslash, then the bytes of the rest, which start with a
/// backslash when there is a rest.
proof fn lemma_split_plain(s: Seq<char>)
    requires
        s.len() > 0,
        plain(s[0]),
    ensures
        ({
            let m = plain_run(s) as int;
            let ep = encode_utf8(s.take(m));
            let er = encode_utf8(escaped_chars(s.skip(m)));
            &&& 0 < m <= s.len()
            &&& s.take(m) + s.skip(m) == s
            &&& encode_utf8(escaped_chars(s)) == ep + er
            &&& ep.len() > 0
            &&& valid_utf8(ep) && decode_utf8(ep) == s.take(m)
            &&& forall|k: int| 0 <= k < ep.len() ==> #[trigger] ep[k] != 0x22 && ep[k] != 0x5c
            &&& (m < s.len() ==> er.len() > 0 && er[0] == 0x5c)
            &&& (m == s.len() ==> er.len() == 0)
        }),
{
    lemma_plain_run(s);
    let m = plain_run(s) as int;
    let p = s.take(m);
    let r = s.skip(m);
    assert(p + r =~= s);
    assert forall|k: int| 0 <= k < p.len() implies plain(#[trigger] p[k]) by {
        assert(p[k] == s[k]);
    }
    lemma_escaped_concat(p, r);
    lemma_escaped_plain(p);
    lemma_encode_concat(p, escaped_chars(r));
    lemma_encode_plain(p);
    assert(encode_utf8(p).len() > 0) by {
        assert(p.len() > 0);
        assert(encode_scalar(p[0] as u32).len() > 0);
    }
    if r.len() > 0 {
        assert(r[0] == s[m]);
        lemma_split_escape(r);
        lemma_escape_reads(r[0], Seq::<u8>::empty(), Seq::<u8>::empty());
        assert(Seq::<u8>::empty() + encode_utf8(escape_char(r[0])) + Seq::<u8>::empty()
            =~= encode_utf8(escape_char(r[0])));
    } else {
        assert(escaped_chars(r) =~= Seq::<char>::empty());
    }
}

/// The reading of an escaped sequence, given the reading of its tail.
pub open spec fn body_reads(s: Seq<char>, pre: Seq<u8>, post: Seq<u8>) -> bool {
    let e = encode_utf8(escaped_chars(s));
    json_body(pre + e + seq![0x22u8] + post, pre.len() as int) == Ok::<(Seq<char>, int), Seq<char>>(
        (s, pre.len() + e.len() + 1int),
    )
}

proof fn lemma_body_empty(s: Seq<char>, pre: Seq<u8>, post: Seq<u8>)
    requires
        s.len() == 0,
    ensures
        body_reads(s, pre, post),
{
    assert(escaped_chars(s) =~= Seq::<char>::empty());
    let e = encode_utf8(escaped_chars(s));
    assert(e =~= Seq::<u8>::empty());
    let b = pre + e + seq![0x22u8] + post;
    assert(b[pre.len() as int] == 0x22);
    assert(json_body(b, pre.len() as int) == Ok::<(Seq<char>, int), Seq<char>>((Seq::<char>::empty(), pre.len() + 1int)));
    assert(s =~= Seq::<char>::empty());
}

#[verifier::rlimit(30)]
proof fn lemma_body_escape_step(s: Seq<char>, pre: Seq<u8>, post: Seq<u8>)
    requires
        s.len() > 0,
        !plain(s[0]),
        body_reads(s.drop_first(), pre + encode_utf8(escape_char(s[0])), post),
    ensures
        body_reads(s, pre, post),
{
    let e = encode_utf8(escaped_chars(s));
    let b = pre + e + seq![0x22u8] + post;
    let i = pre.len() as int;
    let c = s[0];
    let r = s.drop_first();
    lemma_split_escape(s);
    let ec = encode_utf8(escape_char(c));
    let er = encode_utf8(escaped_chars(r));
    let tail = er + seq![0x22u8] + post;
    assert(b =~= pre + ec + tail);
    lemma_escape_reads(c, pre, tail);
    assert(pre + ec + er + seq![0x22u8] + post =~= b);
    assert(seq![c] + r =~= s);
}

#[verifier::rlimit(30)]
proof fn lemma_body_plain_step(s: Seq<char>, pre: Seq<u8>, post: Seq<u8>)
    requires
        s.len() > 0,
        plain(s[0]),
        body_reads(s.skip(plain_run(s) as int), pre + encode_utf8(s.take(plain_run(s) as int)), post),
    ensures
        body_reads(s, pre, post),
{
    let e = encode_utf8(escaped_chars(s));
    let b = pre + e + seq![0x22u8] + post;
    let i = pre.len() as int;
    lemma_split_plain(s);
    let m = plain_run(s) as int;
    let r = s.skip(m);
    let ep = encode_utf8(s.take(m));
    let er = encode_utf8(escaped_chars(r));
    let j = i + ep.len();
    assert(b[j] == 0x22 || b[j] == 0x5c) by {
        if m < s.len() {
            assert(b[j] == er[0]);
        }
    }
    assert forall|k: int| i <= k < j implies b[k] != 0x22 && b[k] != 0x5c by {
        assert(b[k] == ep[k - i]);
    }
    lemma_run_end_at(b, i, j);
    assert(b.subrange(i, j) =~= ep);
    assert(b[i] == ep[0]);
    assert(pre + ep + er + seq![0x22u8] + post =~= b);
}

proof fn lemma_body_round_trip(s: Seq<char>, pre: Seq<u8>, post: Seq<u8>)
    ensures
        body_reads(s, pre, post),
    decreases s.len(),
{
    if s.len() == 0 {
        lemma_body_empty(s, pre, post);
    } else if !plain(s[0]) {
        lemma_body_round_trip(s.drop_first(), pre + encode_utf8(escape_char(s[0])), post);
        lemma_body_escape_step(s, pre, post);
    } else {
        lemma_plain_run(s);
        let m = plain_run(s) as int;
        lemma_body_round_trip(s.skip(m), pre + encode_utf8(s.take(m)), post);
        lemma_body_plain_step(s, pre, post);
    }
}

/// What `json_str` writes for a string reads back, from its bytes, as that string, ending just
/// after the closing quote.
pub proof fn json_string_round_trip(s: Seq<char>)
    ensures
        json_string(encode_utf8(json_literal(s)), 0) == Ok::<(Seq<char>, int), Seq<char>>(
            (s, encode_utf8(json_literal(s)).len() as int),
        ),
{
    let q = seq!['"'];
    lemma_encode_concat(q + escaped_chars(s), q);
    lemma_encode_concat(q, escaped_chars(s));
    lemma_encode_ascii('"');
    let e = encode_utf8(escaped_chars(s));
    let b = encode_utf8(json_literal(s));
    assert(b =~= seq![0x22u8] + e + seq![0x22u8] + Seq::<u8>::empty());
    assert(b[0] == 0x22);
    assert(ws_end(b, 0) == 0);
    lemma_body_round_trip(s, seq![0x22u8], Seq::<u8>::empty());
}

/// The same escape reads back through the words sidecar's escapes too, and its
/// bytes start with a backslash.
proof fn lemma_str_escape_reads(c: char, pre: Seq<u8>, post: Seq<u8>)
    requires
        !plain(c),
    ensures
        ({
            let e = encode_utf8(escape_char(c));
            let b = pre + e + post;
            &&& e.len() >= 2
            &&& e[0] == 0x5c
            &&& escape_at(b, pre.len() + 2int, b[pre.len() + 1int]) == Some::<(char, int)>((c, pre.len() + e.len() as int))
        }),
{
    let x = c as u32;
    let t = escape_char(c);
    assert(is_ascii_chars(t)) by {
        if c != '"' && c != '\\' && c != '\n' {
            lemma_hex_lower((x / 16) as int);
            lemma_hex_lower((x % 16) as int);
        }
    }
    let e = encode_utf8(t);
    let b = pre + e + post;
    let i = pre.len() as int;
    is_ascii_chars_encode_utf8(t);
    assert(e.len() == t.len());
    assert forall|k: int| 0 <= k < t.len() implies e[k] == t[k] as u8 by {}
    assert(b[i] == e[0] && b[i + 1] == e[1]);
    assert(t[0] == '\\');
    if c == '"' {
        assert(e[1] == 0x22);
        assert((0x22u8 as u32) as char == c);
    } else if c == '\\' {
        assert(e[1] == 0x5c);
        assert((0x5cu8 as u32) as char == c);
    } else if c == '\n' {
        assert(e[1] == 0x6e);
    } else {
        assert(x < 0x20);
        lemma_hex_lower((x / 16) as int);
        lemma_hex_lower((x % 16) as int);
        assert(e[1] == 0x75);
        let h = b.subrange(i + 2, i + 6);
        assert(h[0] == 0x30 && h[1] == 0x30);
        assert(h[2] == (hex_lower((x / 16) as int) as u32) as u8);
        assert(h[3] == (hex_lower((x % 16) as int) as u32) as u8);
        assert(hex4(h) == Some(((x / 16) * 16 + x % 16) as u32));
        assert(unicode_escape(b, i + 2) == Some::<(u32, int)>((x, i + 6)));
        assert(is_scalar_value(x));
        assert((x as char) == c);
    }
}

/// The sidecar's reading of an escaped sequence.
pub open spec fn str_body_reads(s: Seq<char>, pre: Seq<u8>, post: Seq<u8>) -> bool {
    let e = encode_utf8(escaped_chars(s));
    str_body(pre + e + seq![0x22u8] + post, pre.len() as int) == Some::<(Seq<char>, int)>(
        (s, pre.len() + e.len() + 1int),
    )
}

proof fn lemma_str_body_empty(s: Seq<char>, pre: Seq<u8>, post: Seq<u8>)
    requires
        s.len() == 0,
    ensures
        str_body_reads(s, pre, post),
{
    assert(escaped_chars(s) =~= Seq::<char>::empty());
    let e = encode_utf8(escaped_chars(s));
    assert(e =~= Seq::<u8>::empty());
    let b = pre + e + seq![0x22u8] + post;
    assert(b[pre.len() as int] == 0x22);
    assert(str_body(b, pre.len() as int) == Some::<(Seq<char>, int)>((Seq::<char>::empty(), pre.len() + 1int)));
    assert(s =~= Seq::<char>::empty());
}

#[verifier::rlimit(30)]
proof fn lemma_str_body_escape_step(s: Seq<char>, pre: Seq<u8>, post: Seq<u8>)
    requires
        s.len() > 0,
        !plain(s[0]),
        str_body_reads(s.drop_first(), pre + encode_utf8(escape_char(s[0])), post),
    ensures
        str_body_reads(s, pre, post),
{
    let e = encode_utf8(escaped_chars(s));
    let b = pre + e + seq![0x22u8] + post;
    let i = pre.len() as int;
    let c = s[0];
    let r = s.drop_first();
    lemma_split_escape(s);
    let ec = encode_utf8(escape_char(c));
    let er = encode_utf8(escaped_chars(r));
    let tail = er + seq![0x22u8] + post;
    assert(b =~= pre + ec + tail);
    lemma_str_escape_reads(c, pre, tail);
    assert(pre + ec + er + seq![0x22u8] + post =~= b);
    assert(seq![c] + r =~= s);
}

#[verifier::rlimit(30)]
proof fn lemma_str_body_plain_step(s: Seq<char>, pre: Seq<u8>, post: Seq<u8>)
    requires
        s.len() > 0,
        plain(s[0]),
        str_body_reads(s.skip(plain_run(s) as int), pre + encode_utf8(s.take(plain_run(s) as int)), post),
    ensures
        str_body_reads(s, pre, post),
{
    let e = encode_utf8(escaped_chars(s));
    let b = pre + e + seq![0x22u8] + post;
    let i = pre.len() as int;
    lemma_split_plain(s);
    let m = plain_run(s) as int;
    let r = s.skip(m);
    let ep = encode_utf8(s.take(m));
    let er = encode_utf8(escaped_chars(r));
    let j = i + ep.len();
    assert(b[j] == 0x22 || b[j] == 0x5c) by {
        if m < s.len() {
            assert(b[j] == er[0]);
        }
    }
    assert forall|k: int| i <= k < j implies b[k] != 0x22 && b[k] != 0x5c by {
        assert(b[k] == ep[k - i]);
    }
    lemma_run_end_at(b, i, j);
    assert(b.subrange(i, j) =~= ep);
    assert(b[i] == ep[0]);
    assert(pre + ep + er + seq![0x22u8] + post =~= b);
}

pub(crate) proof fn lemma_str_body_round_trip(s: Seq<char>, pre: Seq<u8>, post: Seq<u8>)
    ensures
        str_body_reads(s, pre, post),
    decreases s.len(),
{
    if s.len() == 0 {
        lemma_str_body_empty(s, pre, post);
    } else if !plain(s[0]) {
        lemma_str_body_round_trip(s.drop_first(), pre + encode_utf8(escape_char(s[0])), post);
        lemma_str_body_escape_step(s, pre, post);
    } else {
        lemma_plain_run(s);
        let m = plain_run(s) as int;
        lemma_str_body_round_trip(s.skip(m), pre + encode_utf8(s.take(m)), post);
        lemma_str_body_plain_step(s, pre, post);
    }
}


/// What `json_str` writes for a string reads back through the words sidecar's string reader
/// too, from its opening quote to just after its closing one.
pub proof fn sidecar_string_round_trip(s: Seq<char>, post: Seq<u8>)
    ensures
        crate::sidecar::string_at(encode_utf8(json_literal(s)) + post, 0) == Some::<(Seq<char>, int)>(
            (s, encode_utf8(json_literal(s)).len() as int),
        ),
{
    let q = seq!['"'];
    lemma_encode_concat(q + escaped_chars(s), q);
    lemma_encode_concat(q, escaped_chars(s));
    lemma_encode_ascii('"');
    let e = encode_utf8(escaped_chars(s));
    let b = encode_utf8(json_literal(s)) + post;
    assert(b =~= seq![0x22u8] + e + seq![0x22u8] + post);
    assert(b[0] == 0x22);
    assert(ws_end(b, 0) == 0);
    lemma_str_body_round_trip(s, seq![0x22u8], post);
}

/// A string literal written after `pre` reads back at the end of `pre`.
pub(crate) proof fn lemma_string_at(s: Seq<char>, pre: Seq<u8>, post: Seq<u8>)
    ensures
        encode_utf8(json_literal(s)).len() >= 2,
        encode_utf8(json_literal(s))[0] == 0x22,
        string_at(pre + encode_utf8(json_literal(s)) + post, pre.len() as int) == Some::<(Seq<char>, int)>(
            (s, pre.len() + encode_utf8(json_literal(s)).len() as int),
        ),
{
    let q = seq!['"'];
    lemma_encode_concat(q + escaped_chars(s), q);
    lemma_encode_concat(q, escaped_chars(s));
    lemma_encode_ascii('"');
    let e = encode_utf8(escaped_chars(s));
    let b = pre + encode_utf8(json_literal(s)) + post;
    assert(encode_utf8(json_literal(s)) =~= seq![0x22u8] + e + seq![0x22u8]);
    assert(b =~= (pre + seq![0x22u8]) + e + seq![0x22u8] + post);
    assert(b[pre.len() as int] == 0x22);
    assert(ws_end(b, pre.len() as int) == pre.len());
    lemma_str_body_round_trip(s, pre + seq![0x22u8], post);
}

} // verus!
