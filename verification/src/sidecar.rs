//! The words sidecar: a small JSON reader for
//! `{"2:255:3": {"rasm_imlai": "...", "qpc": "...", "rasm": "...", "search": "..."}, ...}`
//! and for `{"words": [{"word_key": "...", ...}, ...]}`. Unknown keys are ignored.
use vstd::prelude::*;
use vstd::utf8::*;
use crate::strings::{push_char, push_str, str_from_utf8, char_from_code, same_chars};

verus! {

broadcast use {encode_utf8_decode_utf8, encode_utf8_valid_utf8, char_u32_cast};

pub open spec fn is_ws_byte(c: u8) -> bool {
    c == 0x20 || c == 0x0a || c == 0x0d || c == 0x09
}

/// The first position at or after `i` that does not hold JSON white space.
pub open spec fn ws_end(b: Seq<u8>, i: int) -> int
    decreases b.len() - i,
{
    if 0 <= i < b.len() && is_ws_byte(b[i]) {
        ws_end(b, i + 1)
    } else {
        i
    }
}

pub proof fn lemma_ws_end(b: Seq<u8>, i: int)
    requires
        0 <= i <= b.len(),
    ensures
        i <= ws_end(b, i) <= b.len(),
        ws_end(b, i) < b.len() ==> !is_ws_byte(b[ws_end(b, i)]),
    decreases b.len() - i,
{
    if 0 <= i < b.len() && is_ws_byte(b[i]) {
        lemma_ws_end(b, i + 1);
    }
}

/// What eating `c` at `i` does: white space is passed, then `c` is taken if it is there.
pub open spec fn eaten(b: Seq<u8>, i: int, c: u8) -> (bool, int) {
    let j = ws_end(b, i);
    if j < b.len() && b[j] == c {
        (true, j + 1)
    } else {
        (false, j)
    }
}

pub open spec fn hex_digit(c: u8) -> Option<u32> {
    if 0x30 <= c <= 0x39 {
        Some((c - 0x30) as u32)
    } else if 0x61 <= c <= 0x66 {
        Some((c - 0x61 + 10) as u32)
    } else if 0x41 <= c <= 0x46 {
        Some((c - 0x41 + 10) as u32)
    } else {
        None
    }
}

/// Four bytes read as a hexadecimal `u32` the way `u32::from_str_radix(_, 16)` reads them: an
/// optional leading `+`, then digits only.
pub open spec fn hex4(h: Seq<u8>) -> Option<u32> {
    if h.len() != 4 {
        None
    } else if h[0] == 0x2b {
        match (hex_digit(h[1]), hex_digit(h[2]), hex_digit(h[3])) {
            (Some(a), Some(b), Some(c)) => Some((a * 256 + b * 16 + c) as u32),
            _ => None,
        }
    } else {
        match (hex_digit(h[0]), hex_digit(h[1]), hex_digit(h[2]), hex_digit(h[3])) {
            (Some(a), Some(b), Some(c), Some(d)) => Some((a * 4096 + b * 256 + c * 16 + d) as u32),
            _ => None,
        }
    }
}

/// The code point a high surrogate and the value of the `\u` escape after it make.
pub open spec fn surrogate_pair(hi: u32, lo: u32) -> u32 {
    (0x10000 + (hi - 0xD800) * 1024 + lo - 0xDC00) as u32
}

/// Whether `cp` is a Unicode scalar value, a `char`.
pub open spec fn is_scalar_value(cp: u32) -> bool {
    cp < 0xD800 || (0xDFFF < cp && cp <= 0x10FFFF)
}

/// The `\u` escape whose four hex digits start at `k`: the code point and where reading goes on.
/// A high surrogate directly followed by another `\u` escape takes that one as its low half.
pub open spec fn unicode_escape(b: Seq<u8>, k: int) -> Option<(u32, int)> {
    if k + 4 > b.len() {
        None
    } else {
        match hex4(b.subrange(k, k + 4)) {
            None => None,
            Some(cp) => {
                let k2 = k + 4;
                if 0xD800 <= cp < 0xDC00 && k2 + 2 <= b.len() && b[k2] == 0x5c && b[k2 + 1] == 0x75 {
                    if k2 + 6 > b.len() {
                        None
                    } else {
                        match hex4(b.subrange(k2 + 2, k2 + 6)) {
                            None => None,
                            Some(lo) => Some((surrogate_pair(cp, lo), k2 + 6)),
                        }
                    }
                } else {
                    Some((cp, k2))
                }
            },
        }
    }
}

/// The character an escape `\e` stands for, its rest starting at `k`, and where reading goes on.
pub open spec fn escape_at(b: Seq<u8>, k: int, e: u8) -> Option<(char, int)> {
    if e == 0x6e {
        Some(('\n', k))
    } else if e == 0x74 {
        Some(('\t', k))
    } else if e == 0x72 {
        Some(('\r', k))
    } else if e == 0x75 {
        match unicode_escape(b, k) {
            None => None,
            Some((cp, k2)) => if is_scalar_value(cp) {
                Some((cp as char, k2))
            } else {
                None
            },
        }
    } else {
        Some(((e as u32) as char, k))
    }
}

/// The first position at or after `i` holding a quote or a backslash, or the end.
pub open spec fn run_end(b: Seq<u8>, i: int) -> int
    decreases b.len() - i,
{
    if 0 <= i < b.len() && b[i] != 0x22 && b[i] != 0x5c {
        run_end(b, i + 1)
    } else {
        i
    }
}

pub proof fn lemma_run_end(b: Seq<u8>, i: int)
    requires
        0 <= i <= b.len(),
    ensures
        i <= run_end(b, i) <= b.len(),
        forall|k: int| i <= k < run_end(b, i) ==> b[k] != 0x22 && b[k] != 0x5c,
    decreases b.len() - i,
{
    if 0 <= i < b.len() && b[i] != 0x22 && b[i] != 0x5c {
        lemma_run_end(b, i + 1);
    }
}

/// The rest of a string literal from `i` (just after its opening quote): its characters and
/// the position after its closing quote.
pub open spec fn str_body(b: Seq<u8>, i: int) -> Option<(Seq<char>, int)>
    decreases b.len() - i,
{
    if i < 0 || i >= b.len() {
        None
    } else if b[i] == 0x22 {
        Some((Seq::empty(), i + 1))
    } else if b[i] == 0x5c {
        if i + 1 >= b.len() {
            None
        } else {
            match escape_at(b, i + 2, b[i + 1]) {
                None => None,
                Some((c, k)) => if k > i {
                    match str_body(b, k) {
                        Some((r, e)) => Some((seq![c] + r, e)),
                        None => None,
                    }
                } else {
                    None
                },
            }
        }
    } else {
        proof {
            lemma_run_end(b, i);
        }
        let end = run_end(b, i);
        if end > i && valid_utf8(b.subrange(i, end)) {
            match str_body(b, end) {
                Some((r, e)) => Some((decode_utf8(b.subrange(i, end)) + r, e)),
                None => None,
            }
        } else {
            None
        }
    }
}

/// A string literal read at `i`, white space first.
pub open spec fn string_at(b: Seq<u8>, i: int) -> Option<(Seq<char>, int)> {
    let j = ws_end(b, i);
    if j < b.len() && b[j] == 0x22 {
        str_body(b, j + 1)
    } else {
        None
    }
}

pub open spec fn prepend(p: Seq<char>, r: Option<(Seq<char>, int)>) -> Option<(Seq<char>, int)> {
    match r {
        Some((s, e)) => Some((p + s, e)),
        None => None,
    }
}

/// Reads an escape's rest; the position returned is past `k`.
/// The first position at or after `i` holding `,`, `}` or `]`, or the end: where a bare value
/// (a number, `true`, `null`, ...) stops.
pub open spec fn delim_end(b: Seq<u8>, i: int) -> int
    decreases b.len() - i,
{
    if 0 <= i < b.len() && b[i] != 0x2c && b[i] != 0x7d && b[i] != 0x5d {
        delim_end(b, i + 1)
    } else {
        i
    }
}

/// Where skipping the value at `i` (white space first) ends, or None when it is not one. An
/// array that holds a stray `}` is not read to its end: nothing in it moves the reader on.
pub open spec fn skip_value(b: Seq<u8>, i: int) -> Option<int>
    decreases b.len() - i, 0int,
{
    let j = ws_end(b, i);
    if !(0 <= i <= b.len()) || !(0 <= j < b.len()) {
        None
    } else if b[j] == 0x22 {
        match string_at(b, j) {
            Some((_, e)) => Some(e),
            None => None,
        }
    } else if b[j] == 0x7b {
        proof {
            lemma_ws_end(b, i);
        }
        skip_members(b, j + 1)
    } else if b[j] == 0x5b {
        proof {
            lemma_ws_end(b, i);
        }
        skip_items(b, j + 1)
    } else {
        Some(delim_end(b, j))
    }
}

/// The members of an object being skipped, from `i` to just past its `}`.
pub open spec fn skip_members(b: Seq<u8>, i: int) -> Option<int>
    decreases b.len() - i, 1int,
{
    if !(0 <= i <= b.len()) {
        None
    } else {
        let (closed, k) = eaten(b, i, 0x7d);
        if closed {
            Some(k)
        } else {
            match string_at(b, k) {
                None => None,
                Some((_, k1)) => {
                    proof {
                        lemma_ws_end(b, i);
                    }
                    if k1 <= i || k1 > b.len() {
                        None
                    } else {
                        let k2 = eaten(b, k1, 0x3a).1;
                        proof {
                            lemma_ws_end(b, k1);
                        }
                        match skip_value(b, k2) {
                            None => None,
                            Some(k3) => {
                                if k3 < k2 || k3 > b.len() {
                                    None
                                } else {
                                    let k4 = eaten(b, k3, 0x2c).1;
                                    proof {
                                        lemma_ws_end(b, k3);
                                    }
                                    skip_members(b, k4)
                                }
                            },
                        }
                    }
                },
            }
        }
    }
}

/// The items of an array being skipped, from `i` to just past its `]`.
pub open spec fn skip_items(b: Seq<u8>, i: int) -> Option<int>
    decreases b.len() - i, 1int,
{
    if !(0 <= i <= b.len()) {
        None
    } else {
        let (closed, k) = eaten(b, i, 0x5d);
        if closed {
            Some(k)
        } else {
            proof {
                lemma_ws_end(b, i);
            }
            match skip_value(b, k) {
                None => None,
                Some(k3) => {
                    if k3 < k || k3 > b.len() {
                        None
                    } else {
                        let k4 = eaten(b, k3, 0x2c).1;
                        proof {
                            lemma_ws_end(b, k3);
                        }
                        if k4 > i {
                            skip_items(b, k4)
                        } else {
                            None
                        }
                    }
                },
            }
        }
    }
}

/// One member of an object read at `k`: its key and string value, or nothing for a member of
/// any other value, and the position after the value.
#[verifier::opaque]
pub open spec fn member_at(b: Seq<u8>, k: int) -> Option<(Seq<(Seq<char>, Seq<char>)>, int)> {
    match string_at(b, k) {
        None => None,
        Some((key, k1)) => {
            if k1 <= k || k1 > b.len() {
                None
            } else {
                let k2 = eaten(b, k1, 0x3a).1;
                let j2 = ws_end(b, k2);
                if j2 < b.len() && b[j2] == 0x22 {
                    match string_at(b, j2) {
                        None => None,
                        Some((v, k3)) => Some((seq![(key, v)], k3)),
                    }
                } else {
                    match skip_value(b, j2) {
                        None => None,
                        Some(k3) => Some((Seq::empty(), k3)),
                    }
                }
            }
        },
    }
}

/// The string members of an object from `i` to just past its `}`: (key, value) pairs in
/// order, with members of any other value left out.
pub open spec fn obj_members(b: Seq<u8>, i: int) -> Option<(Seq<(Seq<char>, Seq<char>)>, int)>
    decreases b.len() - i,
{
    if !(0 <= i <= b.len()) {
        None
    } else {
        let (closed, k) = eaten(b, i, 0x7d);
        if closed {
            Some((Seq::empty(), k))
        } else {
            match member_at(b, k) {
                None => None,
                Some((items, k3)) => {
                    if k3 <= i || k3 > b.len() {
                        None
                    } else {
                        let k4 = eaten(b, k3, 0x2c).1;
                        proof {
                            lemma_ws_end(b, k3);
                        }
                        match obj_members(b, k4) {
                            None => None,
                            Some((rest, e)) => Some((items + rest, e)),
                        }
                    }
                },
            }
        }
    }
}

/// An object of string values read at `i`.
pub open spec fn string_object_at(b: Seq<u8>, i: int) -> Option<(Seq<(Seq<char>, Seq<char>)>, int)> {
    let (open, k) = eaten(b, i, 0x7b);
    if open {
        obj_members(b, k)
    } else {
        None
    }
}


pub(crate) fn hex_value(c: u8) -> (r: Option<u32>)
    ensures
        r == hex_digit(c),
{
    if 0x30 <= c && c <= 0x39 {
        Some((c - 0x30) as u32)
    } else if 0x61 <= c && c <= 0x66 {
        Some((c - 0x61 + 10) as u32)
    } else if 0x41 <= c && c <= 0x46 {
        Some((c - 0x41 + 10) as u32)
    } else {
        None
    }
}

pub(crate) fn read_hex4(b: &[u8], k: usize) -> (r: Option<u32>)
    requires
        k + 4 <= b@.len(),
    ensures
        r == hex4(b@.subrange(k as int, k + 4)),
{
    let ghost h = b@.subrange(k as int, k + 4);
    assert(h[0] == b[k as int] && h[1] == b[k + 1] && h[2] == b[k + 2] && h[3] == b[k + 3]);
    if b[k] == 0x2b {
        match (hex_value(b[k + 1]), hex_value(b[k + 2]), hex_value(b[k + 3])) {
            (Some(a), Some(x), Some(c)) => Some(a * 256 + x * 16 + c),
            _ => None,
        }
    } else {
        match (hex_value(b[k]), hex_value(b[k + 1]), hex_value(b[k + 2]), hex_value(b[k + 3])) {
            (Some(a), Some(x), Some(c), Some(d)) => Some(a * 4096 + x * 256 + c * 16 + d),
            _ => None,
        }
    }
}

pub(crate) proof fn lemma_hex4_bound(h: Seq<u8>)
    ensures
        hex4(h) matches Some(v) ==> v <= 0xFFFF,
{
}

fn read_unicode(b: &[u8], k: usize) -> (r: Option<(u32, usize)>)
    requires
        k <= b@.len(),
    ensures
        r is None ==> unicode_escape(b@, k as int) is None,
        r matches Some((cp, k2)) ==> unicode_escape(b@, k as int) == Some((cp, k2 as int)) && k
            <= k2 <= b@.len(),
{
    let n = b.len();
    if n - k < 4 {
        return None;
    }
    proof {
        lemma_hex4_bound(b@.subrange(k as int, k + 4));
    }
    match read_hex4(b, k) {
        None => None,
        Some(cp) => {
            let k2 = k + 4;
            if 0xD800 <= cp && cp < 0xDC00 && n - k2 >= 2 && b[k2] == 0x5c && b[k2 + 1] == 0x75 {
                if n - k2 < 6 {
                    None
                } else {
                    proof {
                        lemma_hex4_bound(b@.subrange(k2 + 2, k2 + 6));
                    }
                    match read_hex4(b, k2 + 2) {
                        None => None,
                        Some(lo) => Some(((0x10000 + (cp - 0xD800) * 1024 + lo) - 0xDC00, k2 + 6)),
                    }
                }
            } else {
                Some((cp, k2))
            }
        },
    }
}

/// The escape `\e` whose rest starts at `k`.
fn read_escape(b: &[u8], k: usize, e: u8) -> (r: Option<(char, usize)>)
    requires
        k <= b@.len(),
    ensures
        r is None ==> escape_at(b@, k as int, e) is None,
        r matches Some((c, k2)) ==> escape_at(b@, k as int, e) == Some((c, k2 as int)) && k <= k2
            <= b@.len(),
{
    if e == 0x6e {
        Some(('\n', k))
    } else if e == 0x74 {
        Some(('\t', k))
    } else if e == 0x72 {
        Some(('\r', k))
    } else if e == 0x75 {
        match read_unicode(b, k) {
            None => None,
            Some((cp, k2)) => match char_from_code(cp) {
                None => None,
                Some(c) => {
                    proof {
                        char_u32_cast(c, cp);
                    }
                    assert(escape_at(b@, k as int, e) == Some((c, k2 as int)));
                    Some((c, k2))
                },
            },
        }
    } else {
        let c = e as char;
        assert(c == (e as u32) as char);
        assert(escape_at(b@, k as int, e) == Some((c, k as int)));
        Some((c, k))
    }
}

pub struct Json<'a> {
    pub b: &'a [u8],
    pub i: usize,
}

impl<'a> Json<'a> {
    pub open spec fn at(&self) -> int {
        self.i as int
    }

    pub fn ws(&mut self)
        requires
            old(self).i <= old(self).b@.len(),
        ensures
            final(self).b == old(self).b,
            final(self).i == ws_end(old(self).b@, old(self).i as int),
            old(self).i <= final(self).i <= final(self).b@.len(),
    {
        proof {
            lemma_ws_end(self.b@, self.i as int);
        }
        while self.i < self.b.len() && (self.b[self.i] == 0x20 || self.b[self.i] == 0x0a
            || self.b[self.i] == 0x0d || self.b[self.i] == 0x09)
            invariant
                self.b == old(self).b,
                self.i <= self.b@.len(),
                ws_end(self.b@, self.i as int) == ws_end(old(self).b@, old(self).i as int),
            decreases self.b@.len() - self.i,
        {
            self.i += 1;
        }
    }

    pub fn eat(&mut self, c: u8) -> (r: bool)
        requires
            old(self).i <= old(self).b@.len(),
        ensures
            final(self).b == old(self).b,
            (r, final(self).i as int) == eaten(old(self).b@, old(self).i as int, c),
            old(self).i <= final(self).i <= final(self).b@.len(),
    {
        proof {
            lemma_ws_end(self.b@, self.i as int);
        }
        self.ws();
        if self.i < self.b.len() && self.b[self.i] == c {
            self.i += 1;
            true
        } else {
            false
        }
    }
}


impl<'a> Json<'a> {
    /// A string literal, white space first.
    pub fn string(&mut self) -> (r: Option<String>)
        requires
            old(self).i <= old(self).b@.len(),
        ensures
            final(self).b == old(self).b,
            final(self).i <= final(self).b@.len(),
            r is None ==> string_at(old(self).b@, old(self).i as int) is None,
            r matches Some(s) ==> string_at(old(self).b@, old(self).i as int) == Some(
                (s@, final(self).i as int),
            ) && old(self).i < final(self).i,
    {
        proof {
            lemma_ws_end(self.b@, self.i as int);
        }
        self.ws();
        if !(self.i < self.b.len() && self.b[self.i] == 0x22) {
            return None;
        }
        self.i += 1;
        let ghost b = self.b@;
        let ghost start = self.i as int;
        let mut out = String::new();
        assert(Seq::<char>::empty() + Seq::<char>::empty() =~= Seq::<char>::empty());
        loop
            invariant
                self.b@ == b,
                self.b == old(self).b,
                old(self).i < self.i <= b.len(),
                string_at(old(self).b@, old(self).i as int) == str_body(b, start),
                str_body(b, start) == prepend(out@, str_body(b, self.i as int)),
            decreases b.len() - self.i,
        {
            if self.i >= self.b.len() {
                return None;
            }
            let ghost i0 = self.i as int;
            let pos = self.i;
            let ghost prev = out@;
            let c = self.b[self.i];
            self.i += 1;
            if c == 0x22 {
                assert(prev + Seq::<char>::empty() =~= prev);
                return Some(out);
            } else if c == 0x5c {
                if self.i >= self.b.len() {
                    return None;
                }
                let e = self.b[self.i];
                self.i += 1;
                let ch: char;
                match read_escape(self.b, self.i, e) {
                    None => {
                        return None;
                    },
                    Some((x, k)) => {
                        ch = x;
                        self.i = k;
                    },
                }
                push_char(&mut out, ch);
                assert(out@ == prev + seq![ch]);
                assert forall|r: Seq<char>| prev + (seq![ch] + r) =~= out@ + r by {}
            } else {
                let mut end = self.i;
                while end < self.b.len() && self.b[end] != 0x22 && self.b[end] != 0x5c
                    invariant
                        self.b@ == b,
                        i0 < end <= b.len(),
                        run_end(b, end as int) == run_end(b, i0),
                    decreases b.len() - end,
                {
                    end += 1;
                }
                let chunk = &self.b[pos..end];
                match str_from_utf8(chunk) {
                    None => {
                        return None;
                    },
                    Some(s) => {
                        push_str(&mut out, s);
                        self.i = end;
                        assert(decode_utf8(b.subrange(i0, end as int)) == s@);
                        assert forall|r: Seq<char>| prev + (s@ + r) =~= out@ + r by {}
                    },
                }
            }
        }
    }
}



pub open spec fn pairs_view(v: Seq<(String, String)>) -> Seq<(Seq<char>, Seq<char>)> {
    v.map_values(|p: (String, String)| (p.0@, p.1@))
}

impl<'a> Json<'a> {
    /// Skip any value.
    pub fn skip(&mut self) -> (r: Option<()>)
        requires
            old(self).i <= old(self).b@.len(),
        ensures
            final(self).b == old(self).b,
            r is None ==> skip_value(old(self).b@, old(self).i as int) is None,
            r is Some ==> skip_value(old(self).b@, old(self).i as int) == Some(final(self).i as int)
                && old(self).i <= final(self).i <= final(self).b@.len(),
        decreases old(self).b@.len() - old(self).i, 0int,
    {
        let ghost b = self.b@;
        let ghost i0 = self.i as int;
        proof {
            lemma_ws_end(b, i0);
        }
        self.ws();
        if self.i >= self.b.len() {
            return None;
        }
        let c = self.b[self.i];
        if c == 0x22 {
            match self.string() {
                None => None,
                Some(_) => Some(()),
            }
        } else if c == 0x7b {
            self.i += 1;
            self.skip_members()
        } else if c == 0x5b {
            self.i += 1;
            self.skip_items()
        } else {
            let ghost j = self.i as int;
            while self.i < self.b.len() && self.b[self.i] != 0x2c && self.b[self.i] != 0x7d
                && self.b[self.i] != 0x5d
                invariant
                    self.b == old(self).b,
                    self.b@ == b,
                    j <= self.i <= b.len(),
                    delim_end(b, self.i as int) == delim_end(b, j),
                decreases b.len() - self.i,
            {
                self.i += 1;
            }
            Some(())
        }
    }

    /// The members of an object being skipped, up to and past its `}`.
    fn skip_members(&mut self) -> (r: Option<()>)
        requires
            old(self).i <= old(self).b@.len(),
        ensures
            final(self).b == old(self).b,
            r is None ==> skip_members(old(self).b@, old(self).i as int) is None,
            r is Some ==> skip_members(old(self).b@, old(self).i as int) == Some(
                final(self).i as int,
            ) && old(self).i <= final(self).i <= final(self).b@.len(),
        decreases old(self).b@.len() - old(self).i, 1int,
    {
        let ghost b = self.b@;
        let ghost i0 = self.i as int;
        loop
            invariant
                self.b == old(self).b,
                self.b@ == b,
                old(self).b@ == b,
                old(self).i == i0,
                i0 <= self.i <= b.len(),
                skip_members(b, self.i as int) == skip_members(b, i0),
            decreases b.len() - self.i,
        {
            let st = self.i;
            proof {
                lemma_ws_end(b, st as int);
            }
            if self.eat(0x7d) {
                return Some(());
            }
            match self.string() {
                None => {
                    return None;
                },
                Some(_) => {},
            }
            if self.i <= st {
                return None;
            }
            proof {
                lemma_ws_end(b, self.i as int);
            }
            self.eat(0x3a);
            match self.skip() {
                None => {
                    return None;
                },
                Some(_) => {},
            }
            proof {
                lemma_ws_end(b, self.i as int);
            }
            self.eat(0x2c);
        }
    }

    /// The items of an array being skipped, up to and past its `]`.
    fn skip_items(&mut self) -> (r: Option<()>)
        requires
            old(self).i <= old(self).b@.len(),
        ensures
            final(self).b == old(self).b,
            r is None ==> skip_items(old(self).b@, old(self).i as int) is None,
            r is Some ==> skip_items(old(self).b@, old(self).i as int) == Some(final(self).i as int)
                && old(self).i <= final(self).i <= final(self).b@.len(),
        decreases old(self).b@.len() - old(self).i, 1int,
    {
        let ghost b = self.b@;
        let ghost i0 = self.i as int;
        loop
            invariant
                self.b == old(self).b,
                self.b@ == b,
                old(self).b@ == b,
                old(self).i == i0,
                i0 <= self.i <= b.len(),
                skip_items(b, self.i as int) == skip_items(b, i0),
            decreases b.len() - self.i,
        {
            let st = self.i;
            proof {
                lemma_ws_end(b, st as int);
            }
            if self.eat(0x5d) {
                return Some(());
            }
            match self.skip() {
                None => {
                    return None;
                },
                Some(_) => {},
            }
            proof {
                lemma_ws_end(b, self.i as int);
            }
            self.eat(0x2c);
            if self.i <= st {
                return None;
            }
        }
    }

    /// One member of an object: its (key, value) pair when the value is a string.
    fn member(&mut self) -> (r: Option<Option<(String, String)>>)
        requires
            old(self).i <= old(self).b@.len(),
        ensures
            final(self).b == old(self).b,
            r is None ==> member_at(old(self).b@, old(self).i as int) is None,
            r matches Some(x) ==> member_at(old(self).b@, old(self).i as int) == Some(
                (
                    match x {
                        Some(p) => seq![(p.0@, p.1@)],
                        None => Seq::empty(),
                    },
                    final(self).i as int,
                ),
            ) && old(self).i <= final(self).i <= final(self).b@.len(),
    {
        reveal(member_at);
        let st = self.i;
        let k = match self.string() {
            None => {
                return None;
            },
            Some(k) => k,
        };
        if self.i <= st {
            return None;
        }
        self.eat(0x3a);
        self.ws();
        if self.i < self.b.len() && self.b[self.i] == 0x22 {
            match self.string() {
                None => None,
                Some(v) => Some(Some((k, v))),
            }
        } else {
            match self.skip() {
                None => None,
                Some(_) => Some(None),
            }
        }
    }

    /// Read an object of string values into (key, value) pairs, ignoring non-strings.
    pub fn string_object(&mut self) -> (r: Option<Vec<(String, String)>>)
        requires
            old(self).i <= old(self).b@.len(),
        ensures
            final(self).b == old(self).b,
            r is None ==> string_object_at(old(self).b@, old(self).i as int) is None,
            r matches Some(v) ==> string_object_at(old(self).b@, old(self).i as int) == Some(
                (pairs_view(v@), final(self).i as int),
            ) && old(self).i <= final(self).i <= final(self).b@.len(),
    {
        let ghost b = self.b@;
        if !self.eat(0x7b) {
            return None;
        }
        let mut out: Vec<(String, String)> = Vec::new();
        let ghost start = self.i as int;
        assert(pairs_view(out@) =~= Seq::<(Seq<char>, Seq<char>)>::empty());
        loop
            invariant
                self.b == old(self).b,
                self.b@ == b,
                old(self).b@ == b,
                old(self).i <= self.i <= b.len(),
                string_object_at(b, old(self).i as int) == obj_members(b, start),
                obj_members(b, start) == match obj_members(b, self.i as int) {
                    Some((rest, e)) => Some((pairs_view(out@) + rest, e)),
                    None => None,
                },
            decreases b.len() - self.i,
        {
            let st = self.i;
            let ghost prev = pairs_view(out@);
            if self.eat(0x7d) {
                assert(prev + Seq::<(Seq<char>, Seq<char>)>::empty() =~= prev);
                return Some(out);
            }
            match self.member() {
                None => {
                    return None;
                },
                Some(x) => {
                    match x {
                        Some(p) => {
                            let ghost item = (p.0@, p.1@);
                            out.push(p);
                            assert(pairs_view(out@) =~= prev.push(item));
                            assert forall|r: Seq<(Seq<char>, Seq<char>)>|
                                prev + (seq![item] + r) =~= pairs_view(out@) + r by {}
                        },
                        None => {
                            assert forall|r: Seq<(Seq<char>, Seq<char>)>|
                                prev + (Seq::empty() + r) =~= pairs_view(out@) + r by {}
                        },
                    }
                },
            }
            if self.i <= st {
                return None;
            }
            self.eat(0x2c);
        }
    }
}


/// The five derived forms of one word, each as read or absent.
pub type FormsView = (
    Option<Seq<char>>,
    Option<Seq<char>>,
    Option<Seq<char>>,
    Option<Seq<char>>,
    Option<Seq<char>>,
);

/// One word's derived forms from the sidecar.
#[derive(Clone, Debug, PartialEq, Eq)]
pub struct WordForms {
    pub rasm_uthmani: Option<String>,
    pub rasm_imlai: Option<String>,
    pub qpc: Option<String>,
    pub rasm: Option<String>,
    pub search: Option<String>,
}

pub open spec fn opt_view(o: Option<String>) -> Option<Seq<char>> {
    match o {
        Some(s) => Some(s@),
        None => None,
    }
}

impl View for WordForms {
    type V = FormsView;

    open spec fn view(&self) -> FormsView {
        (
            opt_view(self.rasm_uthmani),
            opt_view(self.rasm_imlai),
            opt_view(self.qpc),
            opt_view(self.rasm),
            opt_view(self.search),
        )
    }
}

impl Default for WordForms {
    fn default() -> (r: WordForms)
        ensures
            r@ == (
                None::<Seq<char>>,
                None::<Seq<char>>,
                None::<Seq<char>>,
                None::<Seq<char>>,
                None::<Seq<char>>,
            ),
    {
        WordForms { rasm_uthmani: None, rasm_imlai: None, qpc: None, rasm: None, search: None }
    }
}

pub open spec fn no_forms() -> FormsView {
    (None, None, None, None, None)
}

/// What one (key, value) pair of a word's object sets: a form under its own name or an alias,
/// or the word's key. Any other key changes nothing.
pub open spec fn apply_pair(acc: (Option<Seq<char>>, FormsView), k: Seq<char>, v: Seq<char>) -> (
    Option<Seq<char>>,
    FormsView,
) {
    let (w, f) = acc;
    if k == "rasm_uthmani"@ || k == "uthmani"@ {
        (w, (Some(v), f.1, f.2, f.3, f.4))
    } else if k == "rasm_imlai"@ || k == "imlaei"@ {
        (w, (f.0, Some(v), f.2, f.3, f.4))
    } else if k == "qpc"@ {
        (w, (f.0, f.1, Some(v), f.3, f.4))
    } else if k == "rasm"@ {
        (w, (f.0, f.1, f.2, Some(v), f.4))
    } else if k == "search"@ {
        (w, (f.0, f.1, f.2, f.3, Some(v)))
    } else if k == "word_key"@ {
        (Some(v), f)
    } else {
        acc
    }
}

/// A word's object read pair by pair, a later pair overriding an earlier one.
pub open spec fn forms_of(kv: Seq<(Seq<char>, Seq<char>)>) -> (Option<Seq<char>>, FormsView)
    decreases kv.len(),
{
    if kv.len() == 0 {
        (None, no_forms())
    } else {
        apply_pair(forms_of(kv.drop_last()), kv.last().0, kv.last().1)
    }
}

/// The words of a `"words": [...]` array from `i` to just past its `]`: every object that
/// names its `word_key`, in order.
pub open spec fn words_items(b: Seq<u8>, i: int) -> Option<(Seq<(Seq<char>, FormsView)>, int)>
    decreases b.len() - i,
{
    if !(0 <= i <= b.len()) {
        None
    } else {
        let (closed, k) = eaten(b, i, 0x5d);
        if closed {
            Some((Seq::empty(), k))
        } else {
            match string_object_at(b, k) {
                None => None,
                Some((kv, k3)) => {
                    if k3 <= i || k3 > b.len() {
                        None
                    } else {
                        let (wk, f) = forms_of(kv);
                        let items: Seq<(Seq<char>, FormsView)> = match wk {
                            Some(w) => seq![(w, f)],
                            None => Seq::empty(),
                        };
                        let k4 = eaten(b, k3, 0x2c).1;
                        proof {
                            lemma_ws_end(b, k3);
                        }
                        match words_items(b, k4) {
                            None => None,
                            Some((rest, e)) => Some((items + rest, e)),
                        }
                    }
                },
            }
        }
    }
}

/// One top-level member at `k`: a word keyed by its id, the words of a `"words"` array, or
/// nothing for a member of any other shape.
#[verifier::opaque]
pub open spec fn entry_at(b: Seq<u8>, k: int) -> Option<(Seq<(Seq<char>, FormsView)>, int)> {
    match string_at(b, k) {
        None => None,
        Some((key, k1)) => {
            if k1 <= k || k1 > b.len() {
                None
            } else {
                let k2 = eaten(b, k1, 0x3a).1;
                let j2 = ws_end(b, k2);
                if key == "words"@ && j2 < b.len() && b[j2] == 0x5b {
                    words_items(b, j2 + 1)
                } else if j2 < b.len() && b[j2] == 0x7b {
                    match string_object_at(b, j2) {
                        None => None,
                        Some((kv, k3)) => Some((seq![(key, forms_of(kv).1)], k3)),
                    }
                } else {
                    match skip_value(b, j2) {
                        None => None,
                        Some(k3) => Some((Seq::empty(), k3)),
                    }
                }
            }
        },
    }
}

/// The members of the top-level object from `i` on.
pub open spec fn sidecar_entries(b: Seq<u8>, i: int) -> Option<Seq<(Seq<char>, FormsView)>>
    decreases b.len() - i,
{
    if !(0 <= i <= b.len()) {
        None
    } else {
        let (closed, k) = eaten(b, i, 0x7d);
        if closed {
            Some(Seq::empty())
        } else {
            match entry_at(b, k) {
                None => None,
                Some((items, k3)) => {
                    if k3 <= i || k3 > b.len() {
                        None
                    } else {
                        let k4 = eaten(b, k3, 0x2c).1;
                        proof {
                            lemma_ws_end(b, k3);
                        }
                        match sidecar_entries(b, k4) {
                            None => None,
                            Some(rest) => Some(items + rest),
                        }
                    }
                },
            }
        }
    }
}

/// The words a sidecar gives forms for, in file order, or None when it does not read.
pub open spec fn sidecar(b: Seq<u8>) -> Option<Seq<(Seq<char>, FormsView)>> {
    let (open, k) = eaten(b, 0, 0x7b);
    if open {
        sidecar_entries(b, k)
    } else {
        None
    }
}

pub open spec fn entries_view(v: Seq<(String, WordForms)>) -> Seq<(Seq<char>, FormsView)> {
    v.map_values(|e: (String, WordForms)| (e.0@, e.1@))
}

/// A word's object turned into its key (when it names one) and its forms.
fn to_forms(kv: &Vec<(String, String)>) -> (r: (Option<String>, WordForms))
    ensures
        (opt_view(r.0), r.1@) == forms_of(pairs_view(kv@)),
{
    let mut f = WordForms::default();
    let mut word_key: Option<String> = None;
    let mut i: usize = 0;
    while i < kv.len()
        invariant
            i <= kv.len(),
            (opt_view(word_key), f@) == forms_of(pairs_view(kv@).take(i as int)),
        decreases kv.len() - i,
    {
        let k = kv[i].0.as_str();
        let v = kv[i].1.clone();
        let ghost acc = (opt_view(word_key), f@);
        if same_chars(k, "rasm_uthmani") || same_chars(k, "uthmani") {
            f.rasm_uthmani = Some(v);
        } else if same_chars(k, "rasm_imlai") || same_chars(k, "imlaei") {
            f.rasm_imlai = Some(v);
        } else if same_chars(k, "qpc") {
            f.qpc = Some(v);
        } else if same_chars(k, "rasm") {
            f.rasm = Some(v);
        } else if same_chars(k, "search") {
            f.search = Some(v);
        } else if same_chars(k, "word_key") {
            word_key = Some(v);
        }
        assert(pairs_view(kv@).take(i + 1).drop_last() =~= pairs_view(kv@).take(i as int));
        assert((opt_view(word_key), f@) == apply_pair(acc, kv@[i as int].0@, kv@[i as int].1@));
        i += 1;
    }
    assert(pairs_view(kv@).take(i as int) =~= pairs_view(kv@));
    (word_key, f)
}


impl<'a> Json<'a> {
    /// The words of a `"words"` array, from just after its `[` to just past its `]`.
    fn words_array(&mut self) -> (r: Option<Vec<(String, WordForms)>>)
        requires
            old(self).i <= old(self).b@.len(),
        ensures
            final(self).b == old(self).b,
            r is None ==> words_items(old(self).b@, old(self).i as int) is None,
            r matches Some(v) ==> words_items(old(self).b@, old(self).i as int) == Some(
                (entries_view(v@), final(self).i as int),
            ) && old(self).i <= final(self).i <= final(self).b@.len(),
    {
        let ghost b = self.b@;
        let ghost start = self.i as int;
        let mut out: Vec<(String, WordForms)> = Vec::new();
        assert(entries_view(out@) =~= Seq::<(Seq<char>, FormsView)>::empty());
        assert(Seq::<(Seq<char>, FormsView)>::empty() + Seq::<(Seq<char>, FormsView)>::empty()
            =~= Seq::<(Seq<char>, FormsView)>::empty());
        loop
            invariant
                self.b == old(self).b,
                self.b@ == b,
                old(self).b@ == b,
                old(self).i as int == start,
                start <= self.i <= b.len(),
                words_items(b, start) == match words_items(b, self.i as int) {
                    Some((rest, e)) => Some((entries_view(out@) + rest, e)),
                    None => None,
                },
            decreases b.len() - self.i,
        {
            let st = self.i;
            let ghost prev = entries_view(out@);
            if self.eat(0x5d) {
                assert(prev + Seq::<(Seq<char>, FormsView)>::empty() =~= prev);
                return Some(out);
            }
            let kv = match self.string_object() {
                None => {
                    return None;
                },
                Some(kv) => kv,
            };
            if self.i <= st {
                return None;
            }
            let (word_key, f) = to_forms(&kv);
            match word_key {
                Some(w) => {
                    let ghost item = (w@, f@);
                    out.push((w, f));
                    assert(entries_view(out@) =~= prev.push(item));
                    assert forall|r: Seq<(Seq<char>, FormsView)>|
                        prev + (seq![item] + r) =~= entries_view(out@) + r by {}
                },
                None => {
                    assert forall|r: Seq<(Seq<char>, FormsView)>|
                        prev + (Seq::empty() + r) =~= entries_view(out@) + r by {}
                },
            }
            self.eat(0x2c);
        }
    }

    /// One top-level member: the words it gives forms for.
    #[verifier::rlimit(40)]
    fn entry(&mut self) -> (r: Option<Vec<(String, WordForms)>>)
        requires
            old(self).i <= old(self).b@.len(),
        ensures
            final(self).b == old(self).b,
            r is None ==> entry_at(old(self).b@, old(self).i as int) is None,
            r matches Some(v) ==> entry_at(old(self).b@, old(self).i as int) == Some(
                (entries_view(v@), final(self).i as int),
            ) && old(self).i <= final(self).i <= final(self).b@.len(),
    {
        reveal(entry_at);
        let ghost b = self.b@;
        let st = self.i;
        let key = match self.string() {
            None => {
                return None;
            },
            Some(k) => k,
        };
        if self.i <= st {
            return None;
        }
        self.eat(0x3a);
        self.ws();
        let is_words = same_chars(key.as_str(), "words");
        if is_words && self.i < self.b.len() && self.b[self.i] == 0x5b {
            self.i += 1;
            self.words_array()
        } else if self.i < self.b.len() && self.b[self.i] == 0x7b {
            match self.string_object() {
                None => None,
                Some(kv) => {
                    let (_, f) = to_forms(&kv);
                    let ghost item = (key@, f@);
                    let mut out: Vec<(String, WordForms)> = Vec::new();
                    out.push((key, f));
                    assert(entries_view(out@) =~= seq![item]);
                    Some(out)
                },
            }
        } else {
            match self.skip() {
                None => None,
                Some(_) => {
                    let out: Vec<(String, WordForms)> = Vec::new();
                    assert(entries_view(out@) =~= Seq::<(Seq<char>, FormsView)>::empty());
                    Some(out)
                },
            }
        }
    }
}

/// Parse `{"s:a:w": {form: text, ...}, ...}` or `{"words": [{"word_key": "...", form: text}, ...]}`.
pub fn parse_words_sidecar(json: &[u8]) -> (r: Option<Vec<(String, WordForms)>>)
    ensures
        r is None <==> sidecar(json@) is None,
        r matches Some(v) ==> sidecar(json@) == Some(entries_view(v@)),
{
    let mut j = Json { b: json, i: 0 };
    let ghost b = json@;
    if !j.eat(0x7b) {
        return None;
    }
    let ghost start = j.i as int;
    let mut out: Vec<(String, WordForms)> = Vec::new();
    assert(entries_view(out@) =~= Seq::<(Seq<char>, FormsView)>::empty());
    assert(Seq::<(Seq<char>, FormsView)>::empty() + Seq::<(Seq<char>, FormsView)>::empty()
        =~= Seq::<(Seq<char>, FormsView)>::empty());
    loop
        invariant
            j.b@ == b,
            b == json@,
            j.i <= b.len(),
            sidecar(b) == sidecar_entries(b, start),
            sidecar_entries(b, start) == match sidecar_entries(b, j.i as int) {
                Some(rest) => Some(entries_view(out@) + rest),
                None => None,
            },
        decreases b.len() - j.i,
    {
        let st = j.i;
        let ghost prev = entries_view(out@);
        if j.eat(0x7d) {
            assert(prev + Seq::<(Seq<char>, FormsView)>::empty() =~= prev);
            return Some(out);
        }
        let mut got = match j.entry() {
            None => {
                return None;
            },
            Some(v) => v,
        };
        if j.i <= st {
            return None;
        }
        let ghost items = entries_view(got@);
        out.append(&mut got);
        assert(entries_view(out@) =~= prev + items);
        assert forall|r: Seq<(Seq<char>, FormsView)>|
            prev + (items + r) =~= entries_view(out@) + r by {}
        j.eat(0x2c);
    }
}

} // verus!
