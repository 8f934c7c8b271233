//! CSS colours: reading `#rgb`, `#rrggbb`, `#rrggbbaa` and `none` into 0xRRGGBBAA, and writing a
//! colour back as `#rrggbb`.
use vstd::prelude::*;
use vstd::utf8::char_u32_cast;
use crate::strings::{char_from_code, chars_of, push_char};

verus! {

/// Unicode white space, as `char::is_whitespace` has it.
pub open spec fn is_white(c: char) -> bool {
    ||| '\u{9}' <= c <= '\u{d}'
    ||| c == ' '
    ||| c == '\u{85}'
    ||| c == '\u{a0}'
    ||| c == '\u{1680}'
    ||| '\u{2000}' <= c <= '\u{200a}'
    ||| c == '\u{2028}'
    ||| c == '\u{2029}'
    ||| c == '\u{202f}'
    ||| c == '\u{205f}'
    ||| c == '\u{3000}'
}

/// The position of the first character from `i` on that is not white space.
pub open spec fn first_dark(s: Seq<char>, i: int) -> int
    decreases s.len() - i,
{
    if 0 <= i < s.len() && is_white(s[i]) {
        first_dark(s, i + 1)
    } else {
        i
    }
}

/// The position just past the last character before `j` that is not white space.
pub open spec fn last_dark(s: Seq<char>, lo: int, j: int) -> int
    decreases j - lo,
{
    if lo < j && is_white(s[j - 1]) {
        last_dark(s, lo, j - 1)
    } else {
        j
    }
}

/// `str::trim`: the text without white space at either end.
pub open spec fn trimmed(s: Seq<char>) -> Seq<char> {
    let lo = first_dark(s, 0);
    s.subrange(lo, last_dark(s, lo, s.len() as int))
}

pub open spec fn ascii_lower(c: char) -> char {
    if 'A' <= c <= 'Z' { ((c as u32) + 32) as char } else { c }
}

/// `str::eq_ignore_ascii_case` against "none".
pub open spec fn is_none_word(s: Seq<char>) -> bool {
    s.len() == 4 && ascii_lower(s[0]) == 'n' && ascii_lower(s[1]) == 'o' && ascii_lower(s[2]) == 'n' && ascii_lower(s[3]) == 'e'
}

/// How many bytes a character takes in UTF-8.
pub open spec fn utf8_len(c: char) -> int {
    if (c as u32) < 0x80 {
        1
    } else if (c as u32) < 0x800 {
        2
    } else if (c as u32) < 0x1_0000 {
        3
    } else {
        4
    }
}

/// How many bytes a text takes in UTF-8.
pub open spec fn byte_len(s: Seq<char>) -> int
    decreases s.len(),
{
    if s.len() == 0 {
        0
    } else {
        byte_len(s.drop_last()) + utf8_len(s.last())
    }
}

/// Every character written twice.
pub open spec fn doubled(s: Seq<char>) -> Seq<char>
    decreases s.len(),
{
    if s.len() == 0 {
        Seq::empty()
    } else {
        doubled(s.drop_last()) + seq![s.last(), s.last()]
    }
}

pub open spec fn hex_char(c: char) -> Option<int> {
    if '0' <= c <= '9' {
        Some(c as int - 48)
    } else if 'a' <= c <= 'f' {
        Some(c as int - 87)
    } else if 'A' <= c <= 'F' {
        Some(c as int - 55)
    } else {
        None
    }
}

/// The value of a run of hex digits, when every character is one.
pub open spec fn hex_run(s: Seq<char>) -> Option<int>
    decreases s.len(),
{
    if s.len() == 0 {
        Some(0)
    } else {
        match (hex_run(s.drop_last()), hex_char(s.last())) {
            (Some(v), Some(d)) => Some(v * 16 + d),
            _ => None,
        }
    }
}

/// `u32::from_str_radix(s, 16)` on at most eight digits: an optional '+', then one digit or more.
pub open spec fn hex_number(s: Seq<char>) -> Option<int> {
    let ds = if s.len() > 0 && s[0] == '+' { s.drop_first() } else { s };
    if ds.len() == 0 { None } else { hex_run(ds) }
}

/// A CSS colour as 0xRRGGBBAA: `none` or nothing is transparent, `#rgb` and `#rgba` have each
/// digit doubled, six digits are opaque, eight carry their alpha; anything else is opaque black.
pub open spec fn css_color(s: Seq<char>) -> u32 {
    let t = trimmed(s);
    if t.len() == 0 || is_none_word(t) {
        0
    } else {
        let h = if t[0] == '#' { t.drop_first() } else { t };
        let full = if byte_len(h) == 3 || byte_len(h) == 4 { doubled(h) } else { h };
        if byte_len(full) == 6 {
            match hex_number(full) {
                Some(v) => (v * 256 + 255) as u32,
                None => 0xff,
            }
        } else if byte_len(full) == 8 {
            match hex_number(full) {
                Some(v) => v as u32,
                None => 0xff,
            }
        } else {
            0xff
        }
    }
}

proof fn lemma_first_dark(s: Seq<char>, i: int)
    requires
        0 <= i <= s.len(),
    ensures
        i <= first_dark(s, i) <= s.len(),
    decreases s.len() - i,
{
    if 0 <= i < s.len() && is_white(s[i]) {
        lemma_first_dark(s, i + 1);
    }
}

proof fn lemma_last_dark(s: Seq<char>, lo: int, j: int)
    requires
        0 <= lo <= j <= s.len(),
    ensures
        lo <= last_dark(s, lo, j) <= j,
    decreases j - lo,
{
    if lo < j && is_white(s[j - 1]) {
        lemma_last_dark(s, lo, j - 1);
    }
}

proof fn lemma_byte_len_bounds(s: Seq<char>)
    ensures
        s.len() <= byte_len(s) <= 4 * s.len(),
    decreases s.len(),
{
    if s.len() > 0 {
        lemma_byte_len_bounds(s.drop_last());
    }
}

proof fn lemma_doubled(s: Seq<char>)
    ensures
        byte_len(doubled(s)) == 2 * byte_len(s),
        doubled(s).len() == 2 * s.len(),
    decreases s.len(),
{
    if s.len() > 0 {
        lemma_doubled(s.drop_last());
        let d = doubled(s.drop_last());
        let x = s.last();
        assert((d + seq![x, x]).drop_last() =~= d.push(x));
        assert(d.push(x).drop_last() =~= d);
        assert(byte_len(d.push(x)) == byte_len(d) + utf8_len(x));
        assert(byte_len(d + seq![x, x]) == byte_len(d.push(x)) + utf8_len(x));
    }
}

fn is_white_char(c: char) -> (r: bool)
    ensures
        r == is_white(c),
{
    ('\u{9}' <= c && c <= '\u{d}') || c == ' ' || c == '\u{85}' || c == '\u{a0}' || c == '\u{1680}' || ('\u{2000}' <= c
        && c <= '\u{200a}') || c == '\u{2028}' || c == '\u{2029}' || c == '\u{202f}' || c == '\u{205f}' || c == '\u{3000}'
}

fn lower(c: char) -> (r: char)
    ensures
        r == ascii_lower(c),
{
    if 'A' <= c && c <= 'Z' {
        let v: u32 = c as u32 + 32;
        match char_from_code(v) {
            Some(x) => {
                proof {
                    char_u32_cast(x, v);
                }
                x
            },
            None => c,
        }
    } else {
        c
    }
}

fn char_bytes(c: char) -> (n: usize)
    ensures
        n == utf8_len(c),
{
    let v = c as u32;
    if v < 0x80 {
        1
    } else if v < 0x800 {
        2
    } else if v < 0x1_0000 {
        3
    } else {
        4
    }
}

fn hex_of(c: char) -> (r: Option<u32>)
    ensures
        match r {
            Some(d) => hex_char(c) == Some(d as int) && d < 16,
            None => hex_char(c) is None,
        },
{
    if '0' <= c && c <= '9' {
        Some(c as u32 - 48)
    } else if 'a' <= c && c <= 'f' {
        Some(c as u32 - 87)
    } else if 'A' <= c && c <= 'F' {
        Some(c as u32 - 55)
    } else {
        None
    }
}

/// `u32::from_str_radix(_, 16)` on the characters `s[lo..hi]`, at most eight of them.
fn parse_hex(s: &Vec<char>) -> (r: Option<u32>)
    requires
        s@.len() <= 8,
    ensures
        match r {
            Some(v) => hex_number(s@) == Some(v as int) && v < pow16(s@.len() as int),
            None => hex_number(s@) is None,
        },
{
    let start: usize = if s.len() > 0 && s[0] == '+' { 1 } else { 0 };
    let ghost ds = if s@.len() > 0 && s@[0] == '+' { s@.drop_first() } else { s@ };
    assert(ds =~= s@.subrange(start as int, s@.len() as int));
    if start >= s.len() {
        return None;
    }
    assert(hex_number(s@) == hex_run(s@.subrange(start as int, s@.len() as int)));
    let mut v: u32 = 0;
    let mut i: usize = start;
    while i < s.len()
        invariant
            start <= i <= s@.len() <= 8,
            ds =~= s@.subrange(start as int, s@.len() as int),
            hex_number(s@) == hex_run(s@.subrange(start as int, s@.len() as int)),
            hex_run(s@.subrange(start as int, i as int)) == Some(v as int),
            v < pow16(i - start),
        decreases s@.len() - i,
    {
        assert(s@.subrange(start as int, i + 1).drop_last() =~= s@.subrange(start as int, i as int));
        match hex_of(s[i]) {
            None => {
                proof {
                    assert(s@.subrange(start as int, s@.len() as int)[i - start] == s@[i as int]);
                    lemma_hex_stops(s@.subrange(start as int, s@.len() as int), i - start);
                }
                return None;
            },
            Some(d) => {
                proof {
                    lemma_pow16_step(i - start);
                }
                v = v * 16 + d;
            },
        }
        i += 1;
    }
    assert(s@.subrange(start as int, i as int) =~= ds);
    proof {
        lemma_pow16_mono(i - start, s@.len() as int);
    }
    Some(v)
}

proof fn lemma_pow16_mono(a: int, b: int)
    requires
        0 <= a <= b,
    ensures
        pow16(a) <= pow16(b),
    decreases b - a,
{
    if a < b {
        lemma_pow16_mono(a, b - 1);
        lemma_pow16_pos(b - 1);
        assert(pow16(b) == 16 * pow16(b - 1));
    }
}

proof fn lemma_pow16_pos(n: int)
    ensures
        pow16(n) >= 1,
    decreases n,
{
    if n > 0 {
        lemma_pow16_pos(n - 1);
    }
}

pub open spec fn pow16(n: int) -> int
    decreases n,
{
    if n <= 0 { 1 } else { 16 * pow16(n - 1) }
}

proof fn lemma_pow16_step(n: int)
    requires
        0 <= n < 8,
    ensures
        pow16(n + 1) == 16 * pow16(n),
        pow16(n + 1) <= 0x1_0000_0000,
{
    reveal_with_fuel(pow16, 9);
}

/// A digit that is not a hex digit makes the whole run fail.
proof fn lemma_hex_stops(s: Seq<char>, k: int)
    requires
        0 <= k < s.len(),
        hex_char(s[k]) is None,
    ensures
        hex_run(s) is None,
    decreases s.len(),
{
    if k < s.len() - 1 {
        lemma_hex_stops(s.drop_last(), k);
    }
}

/// A CSS colour as 0xRRGGBBAA (see `css_color`).
pub fn css_rgba(s: &str) -> (c: u32)
    ensures
        c == css_color(s@),
{
    let v = chars_of(s);
    let n = v.len();
    let mut lo: usize = 0;
    proof {
        lemma_first_dark(v@, 0);
    }
    while lo < n && is_white_char(v[lo])
        invariant
            n == v@.len(),
            v@ == s@,
            lo <= n,
            first_dark(v@, lo as int) == first_dark(v@, 0),
        decreases n - lo,
    {
        lo += 1;
    }
    let mut hi: usize = n;
    proof {
        lemma_last_dark(v@, lo as int, n as int);
    }
    while hi > lo && is_white_char(v[hi - 1])
        invariant
            n == v@.len(),
            lo <= hi <= n,
            last_dark(v@, lo as int, hi as int) == last_dark(v@, lo as int, n as int),
        decreases hi - lo,
    {
        hi -= 1;
    }
    let ghost t = v@.subrange(lo as int, hi as int);
    assert(t == trimmed(s@));
    if hi == lo {
        return 0;
    }
    if hi - lo == 4 && lower(v[lo]) == 'n' && lower(v[lo + 1]) == 'o' && lower(v[lo + 2]) == 'n' && lower(v[lo + 3]) == 'e' {
        assert(is_none_word(t));
        return 0;
    }
    assert(!is_none_word(t));
    let from: usize = if v[lo] == '#' { lo + 1 } else { lo };
    let ghost h = if t[0] == '#' { t.drop_first() } else { t };
    assert(h =~= v@.subrange(from as int, hi as int));
    if hi - from > 8 {
        proof {
            lemma_byte_len_bounds(h);
            if byte_len(h) == 3 || byte_len(h) == 4 {
                lemma_doubled(h);
            }
        }
        return 0xff;
    }
    let mut bytes: usize = 0;
    let mut k: usize = from;
    while k < hi
        invariant
            from <= k <= hi <= n,
            n == v@.len(),
            hi - from <= 8,
            bytes == byte_len(v@.subrange(from as int, k as int)),
            bytes <= 4 * (k - from),
        decreases hi - k,
    {
        assert(v@.subrange(from as int, k + 1).drop_last() =~= v@.subrange(from as int, k as int));
        bytes = bytes + char_bytes(v[k]);
        k += 1;
    }
    let mut full: Vec<char> = Vec::new();
    let full_bytes: usize;
    if bytes == 3 || bytes == 4 {
        let mut k: usize = from;
        while k < hi
            invariant
                from <= k <= hi <= n,
                n == v@.len(),
                full@ == doubled(v@.subrange(from as int, k as int)),
            decreases hi - k,
        {
            assert(v@.subrange(from as int, k + 1).drop_last() =~= v@.subrange(from as int, k as int));
            full.push(v[k]);
            full.push(v[k]);
            k += 1;
        }
        proof {
            lemma_doubled(h);
        }
        full_bytes = 2 * bytes;
    } else {
        let mut k: usize = from;
        while k < hi
            invariant
                from <= k <= hi <= n,
                n == v@.len(),
                full@ == v@.subrange(from as int, k as int),
            decreases hi - k,
        {
            full.push(v[k]);
            k += 1;
            assert(full@ =~= v@.subrange(from as int, k as int));
        }
        full_bytes = bytes;
    }
    assert(full_bytes == byte_len(full@));
    proof {
        lemma_byte_len_bounds(full@);
    }
    if full_bytes == 6 {
        match parse_hex(&full) {
            Some(x) => {
                proof {
                    reveal_with_fuel(pow16, 7);
                    lemma_pow16_mono(full@.len() as int, 6);
                }
                x * 256 + 255
            },
            None => 0xff,
        }
    } else if full_bytes == 8 {
        match parse_hex(&full) {
            Some(x) => x,
            None => 0xff,
        }
    } else {
        0xff
    }
}

fn push_hex_byte(out: &mut String, b: u32)
    requires
        b < 256,
    ensures
        final(out)@ == old(out)@ + seq![hex_digit_char(b / 16), hex_digit_char(b % 16)],
{
    push_char(out, digit_char(b / 16));
    push_char(out, digit_char(b % 16));
}

pub open spec fn hex_digit_char(d: u32) -> char {
    if d < 10 { (48 + d) as char } else { (87 + d) as char }
}

fn digit_char(d: u32) -> (c: char)
    requires
        d < 16,
    ensures
        c == hex_digit_char(d),
{
    let v: u32 = if d < 10 { 48 + d } else { 87 + d };
    match char_from_code(v) {
        Some(x) => {
            proof {
                char_u32_cast(x, v);
            }
            x
        },
        None => '0',
    }
}

/// A colour as CSS `#rrggbb`, its alpha left out.
pub fn css_hex(c: u32) -> (s: String)
    ensures
        s@ == seq![
            '#',
            hex_digit_char((c >> 24) / 16),
            hex_digit_char((c >> 24) % 16),
            hex_digit_char(((c >> 16) & 255) / 16),
            hex_digit_char(((c >> 16) & 255) % 16),
            hex_digit_char(((c >> 8) & 255) / 16),
            hex_digit_char(((c >> 8) & 255) % 16),
        ],
{
    let mut s = String::new();
    push_char(&mut s, '#');
    assert((c >> 24) < 256) by (bit_vector);
    assert(((c >> 16) & 255) < 256) by (bit_vector);
    assert(((c >> 8) & 255) < 256) by (bit_vector);
    push_hex_byte(&mut s, c >> 24);
    push_hex_byte(&mut s, (c >> 16) & 255);
    push_hex_byte(&mut s, (c >> 8) & 255);
    s
}

} // verus!
