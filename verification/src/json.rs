//! The pieces of the ornament catalogue's JSON reader that work on bytes: white space, a look at
//! the next byte, literal words, and string literals with their escapes. Numbers and the value
//! tree are read on top of these.
use vstd::prelude::*;
use vstd::utf8::*;
use vstd::string::StringSliceAdditionalSpecFns;
use crate::sidecar::{
    hex4, is_scalar_value, is_ws_byte, lemma_hex4_bound, lemma_run_end, lemma_ws_end, read_hex4, run_end, surrogate_pair,
    ws_end,
};
use crate::strings::{char_from_code, push_char, push_str, str_from_utf8, text_of_str};

verus! {

broadcast use {encode_utf8_decode_utf8, encode_utf8_valid_utf8, char_u32_cast};

/// The next byte after white space, and where it stands.
pub open spec fn peek_at(b: Seq<u8>, i: int) -> Result<(u8, int), Seq<char>> {
    let j = ws_end(b, i);
    if 0 <= j < b.len() {
        Ok((b[j], j))
    } else {
        Err("unexpected end of JSON"@)
    }
}

/// Whether the bytes at `i` start with `s`.
pub open spec fn lit_at(b: Seq<u8>, i: int, s: Seq<u8>) -> bool {
    i + s.len() <= b.len() && b.subrange(i, i + s.len()) == s
}

/// The `\u` escape whose four hex digits start at `k`: the code point and where reading goes on.
/// A high surrogate directly followed by another `\u` escape takes that one as its low half.
pub open spec fn json_unicode(b: Seq<u8>, k: int) -> Result<(u32, int), Seq<char>> {
    if k + 4 > b.len() {
        Err("short \\u"@)
    } else {
        match hex4(b.subrange(k, k + 4)) {
            None => Err("bad \\u"@),
            Some(cp) => {
                let k2 = k + 4;
                if 0xD800 <= cp < 0xDC00 && k2 + 2 <= b.len() && b[k2] == 0x5c && b[k2 + 1] == 0x75 {
                    if k2 + 6 > b.len() {
                        Err("short surrogate"@)
                    } else {
                        match hex4(b.subrange(k2 + 2, k2 + 6)) {
                            None => Err("bad \\u"@),
                            Some(lo) => Ok((surrogate_pair(cp, lo), k2 + 6)),
                        }
                    }
                } else {
                    Ok((cp, k2))
                }
            },
        }
    }
}

/// The character an escape `\e` stands for, its rest starting at `k`, and where reading goes on.
/// An escape of no other meaning stands for its own byte.
pub open spec fn json_escape(b: Seq<u8>, k: int, e: u8) -> Result<(char, int), Seq<char>> {
    if e == 0x6e {
        Ok(('\n', k))
    } else if e == 0x74 {
        Ok(('\t', k))
    } else if e == 0x72 {
        Ok(('\r', k))
    } else if e == 0x62 {
        Ok(('\u{8}', k))
    } else if e == 0x66 {
        Ok(('\u{c}', k))
    } else if e == 0x75 {
        match json_unicode(b, k) {
            Err(m) => Err(m),
            Ok((cp, k2)) => if is_scalar_value(cp) {
                Ok((cp as char, k2))
            } else {
                Err("bad code point"@)
            },
        }
    } else {
        Ok(((e as u32) as char, k))
    }
}

/// The rest of a string literal from `i` (just after its opening quote): its characters and the
/// position after its closing quote, or what stops it.
pub open spec fn json_body(b: Seq<u8>, i: int) -> Result<(Seq<char>, int), Seq<char>>
    decreases b.len() - i,
{
    if i < 0 || i >= b.len() {
        Err("unterminated JSON string"@)
    } else if b[i] == 0x22 {
        Ok((Seq::empty(), i + 1))
    } else if b[i] == 0x5c {
        if i + 1 >= b.len() {
            Err("unterminated escape"@)
        } else {
            match json_escape(b, i + 2, b[i + 1]) {
                Err(m) => Err(m),
                Ok((c, k)) => if k > i {
                    match json_body(b, k) {
                        Ok((r, e)) => Ok((seq![c] + r, e)),
                        Err(m) => Err(m),
                    }
                } else {
                    Err("unterminated escape"@)
                },
            }
        }
    } else {
        proof {
            lemma_run_end(b, i);
        }
        let end = run_end(b, i);
        if end > i && valid_utf8(b.subrange(i, end)) {
            match json_body(b, end) {
                Ok((r, e)) => Ok((decode_utf8(b.subrange(i, end)) + r, e)),
                Err(m) => Err(m),
            }
        } else {
            Err("bad utf8 in JSON string"@)
        }
    }
}

/// A string literal read at `i`, white space first.
pub open spec fn json_string(b: Seq<u8>, i: int) -> Result<(Seq<char>, int), Seq<char>> {
    match peek_at(b, i) {
        Err(m) => Err(m),
        Ok((c, j)) => if c != 0x22 {
            Err("expected a JSON string"@)
        } else {
            json_body(b, j + 1)
        },
    }
}

pub open spec fn prefixed(p: Seq<char>, r: Result<(Seq<char>, int), Seq<char>>) -> Result<(Seq<char>, int), Seq<char>> {
    match r {
        Ok((s, e)) => Ok((p + s, e)),
        Err(m) => Err(m),
    }
}

fn read_json_unicode(b: &[u8], k: usize) -> (r: Result<(u32, usize), String>)
    requires
        k <= b@.len(),
    ensures
        match json_unicode(b@, k as int) {
            Err(m) => r matches Err(x) && x@ == m,
            Ok((cp, k2)) => r matches Ok(v) && v.0 == cp && v.1 == k2 && k <= k2 <= b@.len(),
        },
{
    let n = b.len();
    if n - k < 4 {
        return Err(text_of_str("short \\u"));
    }
    proof {
        lemma_hex4_bound(b@.subrange(k as int, k + 4));
    }
    match read_hex4(b, k) {
        None => Err(text_of_str("bad \\u")),
        Some(cp) => {
            let k2 = k + 4;
            if 0xD800 <= cp && cp < 0xDC00 && n - k2 >= 2 && b[k2] == 0x5c && b[k2 + 1] == 0x75 {
                if n - k2 < 6 {
                    Err(text_of_str("short surrogate"))
                } else {
                    proof {
                        lemma_hex4_bound(b@.subrange(k2 + 2, k2 + 6));
                    }
                    match read_hex4(b, k2 + 2) {
                        None => Err(text_of_str("bad \\u")),
                        Some(lo) => Ok(((0x10000 + (cp - 0xD800) * 1024 + lo) - 0xDC00, k2 + 6)),
                    }
                }
            } else {
                Ok((cp, k2))
            }
        },
    }
}

fn read_json_escape(b: &[u8], k: usize, e: u8) -> (r: Result<(char, usize), String>)
    requires
        k <= b@.len(),
    ensures
        match json_escape(b@, k as int, e) {
            Err(m) => r matches Err(x) && x@ == m,
            Ok((c, k2)) => r matches Ok(v) && v.0 == c && v.1 == k2 && k <= k2 <= b@.len(),
        },
{
    if e == 0x6e {
        Ok(('\n', k))
    } else if e == 0x74 {
        Ok(('\t', k))
    } else if e == 0x72 {
        Ok(('\r', k))
    } else if e == 0x62 {
        Ok(('\u{8}', k))
    } else if e == 0x66 {
        Ok(('\u{c}', k))
    } else if e == 0x75 {
        match read_json_unicode(b, k) {
            Err(m) => Err(m),
            Ok((cp, k2)) => match char_from_code(cp) {
                None => Err(text_of_str("bad code point")),
                Some(c) => {
                    proof {
                        char_u32_cast(c, cp);
                    }
                    Ok((c, k2))
                },
            },
        }
    } else {
        let c = e as char;
        assert(c == (e as u32) as char);
        Ok((c, k))
    }
}

/// A reader over the bytes of a JSON document, at position `i`.
pub struct JsonReader<'a> {
    pub b: &'a [u8],
    pub i: usize,
}

impl<'a> JsonReader<'a> {
    /// Pass white space.
    pub fn ws(&mut self)
        requires
            old(self).i <= old(self).b@.len(),
        ensures
            final(self).b == old(self).b,
            final(self).i == ws_end(old(self).b@, old(self).i as int),
            old(self).i <= final(self).i <= final(self).b@.len(),
    {
        proof {
            lemma_ws_end(self.b@, self.i as int);
        }
        while self.i < self.b.len() && (self.b[self.i] == 0x20 || self.b[self.i] == 0x09
            || self.b[self.i] == 0x0a || self.b[self.i] == 0x0d)
            invariant
                self.b == old(self).b,
                self.i <= self.b@.len(),
                ws_end(self.b@, self.i as int) == ws_end(old(self).b@, old(self).i as int),
            decreases self.b@.len() - self.i,
        {
            self.i += 1;
        }
    }

    /// The next byte after white space, which is left unread.
    pub fn peek(&mut self) -> (r: Result<u8, String>)
        requires
            old(self).i <= old(self).b@.len(),
        ensures
            final(self).b == old(self).b,
            final(self).i == ws_end(old(self).b@, old(self).i as int),
            final(self).i <= final(self).b@.len(),
            r is Ok ==> final(self).i < final(self).b@.len(),
            match peek_at(old(self).b@, old(self).i as int) {
                Err(m) => r matches Err(x) && x@ == m,
                Ok((c, _)) => r == Ok::<u8, String>(c),
            },
    {
        self.ws();
        if self.i < self.b.len() {
            Ok(self.b[self.i])
        } else {
            Err(text_of_str("unexpected end of JSON"))
        }
    }

    /// Read the word `s` when the bytes here start with it.
    pub fn lit(&mut self, s: &str) -> (r: bool)
        requires
            old(self).i <= old(self).b@.len(),
        ensures
            final(self).b == old(self).b,
            r == lit_at(old(self).b@, old(self).i as int, s.spec_bytes()),
            final(self).i == (if r { old(self).i + s.spec_bytes().len() } else { old(self).i as int }),
            final(self).i <= final(self).b@.len(),
    {
        let w = s.as_bytes();
        let n = w.len();
        let len = self.b.len();
        if len - self.i < n {
            return false;
        }
        let mut k: usize = 0;
        while k < n
            invariant
                n == w@.len(),
                w@ == s.spec_bytes(),
                len == self.b@.len(),
                self.i + n <= len,
                k <= n,
                forall|j: int| 0 <= j < k ==> self.b@[self.i + j] == w@[j],
            decreases n - k,
        {
            if self.b[self.i + k] != w[k] {
                assert(self.b@.subrange(self.i as int, self.i + n)[k as int] != w@[k as int]);
                return false;
            }
            k += 1;
        }
        assert(self.b@.subrange(self.i as int, self.i + n) =~= w@);
        self.i += n;
        true
    }

    /// A string literal, white space first.
    #[verifier::rlimit(60)]
    pub fn string(&mut self) -> (r: Result<String, String>)
        requires
            old(self).i <= old(self).b@.len(),
        ensures
            final(self).b == old(self).b,
            final(self).i <= final(self).b@.len(),
            match json_string(old(self).b@, old(self).i as int) {
                Err(m) => r matches Err(x) && x@ == m,
                Ok((s, e)) => r matches Ok(v) && v@ == s && final(self).i == e,
            },
    {
        let len = self.b.len();
        match self.peek() {
            Err(m) => {
                return Err(m);
            },
            Ok(c) => {
                if c != 0x22 {
                    return Err(text_of_str("expected a JSON string"));
                }
            },
        }
        assert(self.i < len);
        self.i += 1;
        let ghost b = self.b@;
        let ghost start = self.i as int;
        let mut out = String::new();
        assert(Seq::<char>::empty() + Seq::<char>::empty() =~= Seq::<char>::empty());
        loop
            invariant
                self.b@ == b,
                self.b == old(self).b,
                0 < self.i <= b.len(),
                json_string(old(self).b@, old(self).i as int) == json_body(b, start),
                json_body(b, start) == prefixed(out@, json_body(b, self.i as int)),
            decreases b.len() - self.i,
        {
            if self.i >= self.b.len() {
                return Err(text_of_str("unterminated JSON string"));
            }
            let ghost i0 = self.i as int;
            let pos = self.i;
            let ghost prev = out@;
            let c = self.b[self.i];
            self.i += 1;
            if c == 0x22 {
                assert(prev + Seq::<char>::empty() =~= prev);
                return Ok(out);
            } else if c == 0x5c {
                if self.i >= self.b.len() {
                    return Err(text_of_str("unterminated escape"));
                }
                let e = self.b[self.i];
                self.i += 1;
                let ch: char;
                match read_json_escape(self.b, self.i, e) {
                    Err(m) => {
                        return Err(m);
                    },
                    Ok((x, k)) => {
                        ch = x;
                        self.i = k;
                    },
                }
                push_char(&mut out, ch);
                assert(out@ == prev + seq![ch]);
                assert forall|r: Seq<char>| prev + (seq![ch] + r) =~= out@ + r by {}
            } else {
                let mut end = self.i;
                while end < self.b.len() && self.b[end] != 0x22 && self.b[end] != 0x5c
                    invariant
                        self.b@ == b,
                        i0 < end <= b.len(),
                        run_end(b, end as int) == run_end(b, i0),
                    decreases b.len() - end,
                {
                    end += 1;
                }
                let chunk = &self.b[pos..end];
                match str_from_utf8(chunk) {
                    None => {
                        return Err(text_of_str("bad utf8 in JSON string"));
                    },
                    Some(s) => {
                        push_str(&mut out, s);
                        self.i = end;
                        assert(decode_utf8(b.subrange(i0, end as int)) == s@);
                        assert forall|r: Seq<char>| prev + (s@ + r) =~= out@ + r by {}
                    },
                }
            }
        }
    }
}

} // verus!
