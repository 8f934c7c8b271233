//! The surah-name assets' text side: a title's name metadata, XML escapes and attributes,
//! fixed-point decimals, the font's CSS and glyph map, and the layout of the title sheet.
use vstd::prelude::*;
use crate::convert::{json_str, json_literal};
use crate::forms::{parse_u16, pieces};
use crate::model::{DecoRec, IBox, PageData, PathKind, COORD_LIMIT, NONE_U16};
use crate::selection::{decimal, push_decimal};
use crate::strings::{push_char, push_str, chars_of, text_of_str};

verus! {

/// The last surah.
pub const LAST_SURAH: u16 = 114;
/// Visual bounds are kept in millionths of a page unit.
pub const BOUND_SCALE: i64 = 1_000_000;
/// The private-use code point of surah 1's glyph; surah `n` is at `FIRST_CODEPOINT + n - 1`.
pub const FIRST_CODEPOINT: u32 = 0xe001;

/// One outline command in quantised units.
#[derive(Clone, Copy, Debug, PartialEq, Eq, Structural)]
pub enum Cmd {
    MoveTo(i32, i32),
    LineTo(i32, i32),
    QuadTo(i32, i32, i32, i32),
    CubicTo(i32, i32, i32, i32, i32, i32),
    Close,
}

/// A command moved by (dx, dy) fits in 32 bits.
pub open spec fn shift_fits(c: Cmd, dx: i32, dy: i32) -> bool {
    let f = |v: i32, d: i32| i32::MIN <= v + d <= i32::MAX;
    match c {
        Cmd::MoveTo(x, y) => f(x, dx) && f(y, dy),
        Cmd::LineTo(x, y) => f(x, dx) && f(y, dy),
        Cmd::QuadTo(x1, y1, x2, y2) => f(x1, dx) && f(y1, dy) && f(x2, dx) && f(y2, dy),
        Cmd::CubicTo(x1, y1, x2, y2, x3, y3) => f(x1, dx) && f(y1, dy) && f(x2, dx) && f(y2, dy) && f(x3, dx) && f(
            y3,
            dy,
        ),
        Cmd::Close => true,
    }
}

/// A command with every point moved by (dx, dy).
pub fn shifted(command: Cmd, dx: i32, dy: i32) -> (r: Cmd)
    requires
        shift_fits(command, dx, dy),
    ensures
        r == (match command {
            Cmd::MoveTo(x, y) => Cmd::MoveTo((x + dx) as i32, (y + dy) as i32),
            Cmd::LineTo(x, y) => Cmd::LineTo((x + dx) as i32, (y + dy) as i32),
            Cmd::QuadTo(x1, y1, x2, y2) => Cmd::QuadTo((x1 + dx) as i32, (y1 + dy) as i32, (x2 + dx) as i32, (y2 + dy) as i32),
            Cmd::CubicTo(x1, y1, x2, y2, x3, y3) => Cmd::CubicTo(
                (x1 + dx) as i32,
                (y1 + dy) as i32,
                (x2 + dx) as i32,
                (y2 + dy) as i32,
                (x3 + dx) as i32,
                (y3 + dy) as i32,
            ),
            Cmd::Close => Cmd::Close,
        }),
{
    match command {
        Cmd::MoveTo(x, y) => Cmd::MoveTo(x + dx, y + dy),
        Cmd::LineTo(x, y) => Cmd::LineTo(x + dx, y + dy),
        Cmd::QuadTo(x1, y1, x2, y2) => Cmd::QuadTo(x1 + dx, y1 + dy, x2 + dx, y2 + dy),
        Cmd::CubicTo(x1, y1, x2, y2, x3, y3) => Cmd::CubicTo(x1 + dx, y1 + dy, x2 + dx, y2 + dy, x3 + dx, y3 + dy),
        Cmd::Close => Cmd::Close,
    }
}

/// A title's drawn extent, outward-rounded, in millionths of a page unit.
#[derive(Clone, Copy, Debug, PartialEq, Eq, Structural)]
pub struct VisualBounds {
    pub x0: i64,
    pub y0: i64,
    pub x1: i64,
    pub y1: i64,
}

impl VisualBounds {
    pub fn width(self) -> (w: i64)
        requires
            i64::MIN <= self.x1 - self.x0 <= i64::MAX,
        ensures
            w == self.x1 - self.x0,
    {
        self.x1 - self.x0
    }

    pub fn height(self) -> (h: i64)
        requires
            i64::MIN <= self.y1 - self.y0 <= i64::MAX,
        ensures
            h == self.y1 - self.y0,
    {
        self.y1 - self.y0
    }
}

/// One path of a title's calligraphy.
#[derive(Clone, Debug)]
pub struct TitlePath {
    pub commands: Vec<Cmd>,
    pub kind: PathKind,
    pub mark: u8,
    pub family: u8,
    pub flags: u8,
}

/// A surah's title taken off a page: its surah, where it came from, its name metadata
/// ("arabic|latin|english|place|ayah count"), its paths and its boxes.
#[derive(Clone, Debug)]
pub struct TitleAsset {
    pub surah: u16,
    pub source_page: u16,
    pub quant: u16,
    pub version: u16,
    pub header_flags: u16,
    pub metadata: String,
    pub paths: Vec<TitlePath>,
    pub bounds: IBox,
    pub visual: VisualBounds,
}

/// The five name fields of a title.
#[derive(Clone, Debug)]
pub struct Metadata {
    pub arabic: String,
    pub latin: String,
    pub english: String,
    pub place: String,
    pub ayah_count: String,
}

/// Splitting a value at its first four '|': the fields closed so far and the one still open.
pub open spec fn splitn5(v: Seq<char>) -> (Seq<Seq<char>>, Seq<char>)
    decreases v.len(),
{
    if v.len() == 0 {
        (Seq::empty(), Seq::empty())
    } else {
        let (f, cur) = splitn5(v.drop_last());
        let c = v.last();
        if c == '|' && f.len() < 4 {
            (f.push(cur), Seq::empty())
        } else {
            (f, cur.push(c))
        }
    }
}

/// The first five '|'-separated fields, the last taking the rest of the value.
pub open spec fn fields5(v: Seq<char>) -> Seq<Seq<char>> {
    let (f, cur) = splitn5(v);
    f.push(cur)
}

/// Whether a name value is complete: five non-empty fields, the last an ayah count.
pub open spec fn metadata_ok(v: Seq<char>) -> bool {
    let f = fields5(v);
    f.len() == 5 && (forall|i: int| 0 <= i < 5 ==> #[trigger] f[i].len() > 0) && parse_u16(f[4]) is Some
}

pub open spec fn invalid_metadata_message(surah: u16) -> Seq<char> {
    "surah "@ + decimal(surah as nat) + " has invalid name metadata"@
}

impl Metadata {
    pub open spec fn fields(&self) -> Seq<Seq<char>> {
        seq![self.arabic@, self.latin@, self.english@, self.place@, self.ayah_count@]
    }
}

/// The fields of `v` split at '|': at most five, the last holding any further '|'.
fn split5(v: &str) -> (f: Vec<String>)
    ensures
        f@.len() == fields5(v@).len(),
        forall|i: int| 0 <= i < f@.len() ==> #[trigger] f@[i]@ == fields5(v@)[i],
{
    let cs = chars_of(v);
    let mut f: Vec<String> = Vec::new();
    let mut cur = String::new();
    let mut k: usize = 0;
    while k < cs.len()
        invariant
            cs@ == v@,
            k <= cs@.len(),
            f@.len() == splitn5(v@.take(k as int)).0.len(),
            forall|i: int| 0 <= i < f@.len() ==> #[trigger] f@[i]@ == splitn5(v@.take(k as int)).0[i],
            cur@ == splitn5(v@.take(k as int)).1,
        decreases cs@.len() - k,
    {
        let c = cs[k];
        proof {
            assert(v@.take(k + 1).drop_last() =~= v@.take(k as int));
            assert(v@.take(k + 1).last() == c);
        }
        if c == '|' && f.len() < 4 {
            f.push(cur);
            cur = String::new();
        } else {
            push_char(&mut cur, c);
        }
        k += 1;
    }
    assert(v@.take(k as int) =~= v@);
    f.push(cur);
    f
}

/// The name fields of a title's metadata, or the error that names the surah.
pub fn metadata(value: &str, surah: u16) -> (r: Result<Metadata, String>)
    ensures
        match r {
            Ok(m) => metadata_ok(value@) && m.fields() == fields5(value@),
            Err(e) => !metadata_ok(value@) && e@ == invalid_metadata_message(surah),
        },
{
    let f = split5(value);
    let mut ok = f.len() == 5;
    if ok {
        let mut i: usize = 0;
        while i < 5
            invariant
                f@.len() == 5,
                i <= 5,
                ok == forall|j: int| 0 <= j < i ==> #[trigger] f@[j]@.len() > 0,
            decreases 5 - i,
        {
            if f[i].as_str().is_empty() {
                ok = false;
            }
            i += 1;
        }
        if ok {
            let cs = chars_of(f[4].as_str());
            if crate::forms::parse_u16_chars(&cs).is_none() {
                ok = false;
            }
        }
    }
    if !ok {
        let mut e = text_of_str("surah ");
        crate::selection::push_decimal(&mut e, surah);
        push_str(&mut e, " has invalid name metadata");
        proof {
            reveal_strlit("surah ");
            reveal_strlit(" has invalid name metadata");
        }
        return Err(e);
    }
    let m = Metadata {
        arabic: f[0].clone(),
        latin: f[1].clone(),
        english: f[2].clone(),
        place: f[3].clone(),
        ayah_count: f[4].clone(),
    };
    assert(m.fields() =~= fields5(value@));
    Ok(m)
}

/// How a character is written in XML text, or in an attribute value when `attr`.
pub open spec fn xml_char(c: char, attr: bool) -> Seq<char> {
    if c == '&' {
        "&amp;"@
    } else if c == '<' {
        "&lt;"@
    } else if c == '>' {
        "&gt;"@
    } else if c == '"' && attr {
        "&quot;"@
    } else if c == '\'' && attr {
        "&apos;"@
    } else {
        seq![c]
    }
}

pub open spec fn xml_text(s: Seq<char>, attr: bool) -> Seq<char>
    decreases s.len(),
{
    if s.len() == 0 {
        Seq::empty()
    } else {
        xml_text(s.drop_last(), attr) + xml_char(s.last(), attr)
    }
}

/// Append a value escaped for XML.
pub fn escaped(out: &mut String, value: &str, attribute: bool)
    ensures
        final(out)@ == old(out)@ + xml_text(value@, attribute),
{
    proof {
        reveal_strlit("&amp;");
        reveal_strlit("&lt;");
        reveal_strlit("&gt;");
        reveal_strlit("&quot;");
        reveal_strlit("&apos;");
    }
    let ghost start = out@;
    for c in it: value.chars()
        invariant
            it.seq() == value@,
            out@ == start + xml_text(it.seq().take(it.index() as int), attribute),
    {
        if c == '&' {
            push_str(out, "&amp;");
        } else if c == '<' {
            push_str(out, "&lt;");
        } else if c == '>' {
            push_str(out, "&gt;");
        } else if c == '"' && attribute {
            push_str(out, "&quot;");
        } else if c == '\'' && attribute {
            push_str(out, "&apos;");
        } else {
            push_char(out, c);
        }
        proof {
            assert(it.seq().take(it.index() + 1).drop_last() =~= it.seq().take(it.index() as int));
        }
    }
    assert(value@.take(value@.len() as int) =~= value@);
}

/// ` name="value"`, the value escaped for an attribute.
pub open spec fn attr_text(name: Seq<char>, value: Seq<char>) -> Seq<char> {
    seq![' '] + name + seq!['=', '"'] + xml_text(value, true) + seq!['"']
}

/// Append ` name="value"`, the value escaped for an attribute.
pub fn attribute(out: &mut String, name: &str, value: &str)
    ensures
        final(out)@ == old(out)@ + attr_text(name@, value@),
{
    push_char(out, ' ');
    push_str(out, name);
    push_char(out, '=');
    push_char(out, '"');
    escaped(out, value, true);
    push_char(out, '"');
    assert(final(out)@ =~= old(out)@ + attr_text(name@, value@));
}

/// The metadata of a title as the data attributes of its SVG.
pub open spec fn metadata_attrs(m: Seq<Seq<char>>) -> Seq<char> {
    attr_text("data-surah-name-ar"@, m[0]) + attr_text("data-surah-name-latin"@, m[1]) + attr_text(
        "data-surah-name-en"@,
        m[2],
    ) + attr_text("data-revelation-place"@, m[3]) + attr_text("data-ayah-count"@, m[4])
}

pub fn metadata_attributes(out: &mut String, meta: &Metadata)
    ensures
        final(out)@ == old(out)@ + metadata_attrs(meta.fields()),
{
    let ghost o0 = out@;
    attribute(out, "data-surah-name-ar", meta.arabic.as_str());
    let ghost o1 = out@;
    attribute(out, "data-surah-name-latin", meta.latin.as_str());
    let ghost o2 = out@;
    attribute(out, "data-surah-name-en", meta.english.as_str());
    let ghost o3 = out@;
    attribute(out, "data-revelation-place", meta.place.as_str());
    let ghost o4 = out@;
    attribute(out, "data-ayah-count", meta.ayah_count.as_str());
    proof {
        let a = attr_text("data-surah-name-ar"@, meta.arabic@);
        let b = attr_text("data-surah-name-latin"@, meta.latin@);
        let c = attr_text("data-surah-name-en"@, meta.english@);
        let d = attr_text("data-revelation-place"@, meta.place@);
        let e = attr_text("data-ayah-count"@, meta.ayah_count@);
        assert(o1 == o0 + a);
        assert(o2 == o0 + a + b);
        assert(o3 =~= o0 + (a + b + c));
        assert(o4 =~= o0 + (a + b + c + d));
        assert(out@ =~= o0 + (a + b + c + d + e));
    }
}

pub open spec fn ilog10(n: nat) -> nat
    decreases n,
{
    if n < 10 {
        0
    } else {
        1 + ilog10(n / 10)
    }
}

/// `s` padded on the left with '0' to width `w`.
pub open spec fn zero_pad(s: Seq<char>, w: nat) -> Seq<char> {
    if s.len() >= w {
        s
    } else {
        Seq::new((w - s.len()) as nat, |i: int| '0') + s
    }
}

/// `s` without its trailing '0's.
pub open spec fn trim_zeros(s: Seq<char>) -> Seq<char>
    decreases s.len(),
{
    if s.len() > 0 && s.last() == '0' {
        trim_zeros(s.drop_last())
    } else {
        s
    }
}

pub open spec fn abs_int(v: int) -> nat {
    if v < 0 {
        (-v) as nat
    } else {
        v as nat
    }
}

/// A fixed-point value written out: sign, whole part, and when there is one, the fraction
/// padded to the scale's digits without trailing zeros.
pub open spec fn fixed(value: int, scale: nat) -> Seq<char> {
    let a = abs_int(value);
    let frac = a % scale;
    (if value < 0 { seq!['-'] } else { Seq::empty() }) + decimal(a / scale) + (if frac != 0 {
        seq!['.'] + trim_zeros(zero_pad(decimal(frac), ilog10(scale)))
    } else {
        Seq::empty()
    })
}

/// The decimal digits of a 64-bit number.
pub fn decimal_string(n: u64) -> (s: String)
    ensures
        s@ == decimal(n as nat),
    decreases n,
{
    let mut s = if n >= 10 { decimal_string(n / 10) } else { String::new() };
    let d = (n % 10) as u32;
    let c: char = match d {
        0 => '0',
        1 => '1',
        2 => '2',
        3 => '3',
        4 => '4',
        5 => '5',
        6 => '6',
        7 => '7',
        8 => '8',
        _ => '9',
    };
    proof {
        assert(c == (48 + (n % 10) as nat) as char) by {
            assert(48 + (n % 10) < 0xD800);
        }
    }
    push_char(&mut s, c);
    proof {
        if n < 10 {
            assert(s@ =~= decimal(n as nat));
        }
    }
    s
}

pub open spec fn pow10(k: nat) -> nat
    decreases k,
{
    if k == 0 {
        1
    } else {
        10 * pow10((k - 1) as nat)
    }
}

proof fn lemma_ilog10_bound(n: nat, k: nat)
    requires
        n < pow10(k + 1),
    ensures
        ilog10(n) <= k,
    decreases k,
{
    if n >= 10 {
        if k == 0 {
            assert(pow10(1) == 10);
        } else {
            assert(pow10(k + 1) == 10 * pow10(k));
            lemma_ilog10_bound(n / 10, (k - 1) as nat);
        }
    }
}

fn ilog10_u64(n: u64) -> (r: usize)
    requires
        n >= 1,
    ensures
        r == ilog10(n as nat),
        r <= 19,
    decreases n,
{
    proof {
        assert(pow10(20) == 100000000000000000000) by {
            reveal_with_fuel(pow10, 21);
        }
        lemma_ilog10_bound(n as nat, 19);
    }
    if n < 10 {
        0
    } else {
        let r = ilog10_u64(n / 10);
        r + 1
    }
}

/// The digits of a fraction, padded on the left with '0' to `digits`.
fn padded_digits(fraction: u64, digits: usize) -> (v: Vec<char>)
    ensures
        v@ == zero_pad(decimal(fraction as nat), digits as nat),
{
    let f = decimal_string(fraction);
    let fc = chars_of(f.as_str());
    let mut v: Vec<char> = Vec::new();
    let mut k: usize = fc.len();
    assert(v@ =~= Seq::new((k - fc@.len()) as nat, |i: int| '0'));
    while k < digits
        invariant
            fc@.len() <= k,
            k <= digits || k == fc@.len(),
            v@ == Seq::new((k - fc@.len()) as nat, |i: int| '0'),
        decreases digits - k,
    {
        v.push('0');
        k += 1;
        assert(v@ =~= Seq::new((k - fc@.len()) as nat, |i: int| '0'));
    }
    let ghost zeros = v@;
    let mut j: usize = 0;
    while j < fc.len()
        invariant
            j <= fc@.len(),
            v@ == zeros + fc@.take(j as int),
        decreases fc@.len() - j,
    {
        v.push(fc[j]);
        j += 1;
        assert(v@ =~= zeros + fc@.take(j as int));
    }
    proof {
        assert(fc@.take(fc@.len() as int) =~= fc@);
        if fc@.len() >= digits {
            assert(zeros =~= Seq::<char>::empty());
        }
        assert(v@ =~= zero_pad(decimal(fraction as nat), digits as nat));
    }
    v
}

/// How much of `v` is left without its trailing '0's.
fn trimmed_len(v: &Vec<char>) -> (end: usize)
    ensures
        end <= v@.len(),
        v@.take(end as int) == trim_zeros(v@),
{
    let mut end: usize = v.len();
    assert(v@.take(end as int) =~= v@);
    while end > 0 && v[end - 1] == '0'
        invariant
            end <= v@.len(),
            trim_zeros(v@) == trim_zeros(v@.take(end as int)),
        decreases end,
    {
        assert(v@.take(end as int).drop_last() =~= v@.take(end - 1));
        end -= 1;
    }
    end
}

/// A value in units of `1 / scale` written as a decimal number: `decimal_fixed(1500000, 1000000)`
/// is "1.5".
pub fn decimal_fixed(value: i64, scale: u64) -> (out: String)
    requires
        scale >= 1,
    ensures
        out@ == fixed(value as int, scale as nat),
{
    let absolute: u64 = if value < 0 {
        if value == i64::MIN { 0x8000_0000_0000_0000u64 } else { (-value) as u64 }
    } else {
        value as u64
    };
    let mut out = String::new();
    if value < 0 {
        push_char(&mut out, '-');
    }
    let whole = decimal_string(absolute / scale);
    push_str(&mut out, whole.as_str());
    let fraction = absolute % scale;
    let ghost head = out@;
    if fraction != 0 {
        let digits = ilog10_u64(scale);
        let padded = padded_digits(fraction, digits);
        let end = trimmed_len(&padded);
        push_char(&mut out, '.');
        let ghost dot = out@;
        let mut t: usize = 0;
        while t < end
            invariant
                t <= end <= padded@.len(),
                out@ == dot + padded@.take(t as int),
            decreases end - t,
        {
            push_char(&mut out, padded[t]);
            t += 1;
            assert(out@ =~= dot + padded@.take(t as int));
        }
        proof {
            assert(out@ =~= head + (seq!['.'] + trim_zeros(zero_pad(decimal(fraction as nat), digits as nat))));
        }
    }
    proof {
        assert(absolute == abs_int(value as int));
        assert(out@ =~= fixed(value as int, scale as nat));
    }
    out
}

/// A visual coordinate (millionths of a page unit) as a decimal number of page units.
pub fn number(value: i64) -> (s: String)
    ensures
        s@ == fixed(value as int, BOUND_SCALE as nat),
{
    decimal_fixed(value, 1_000_000)
}

/// A quantised coordinate as a decimal number of page units.
pub fn quant_number(value: i32, quant: u16) -> (s: String)
    requires
        quant >= 1,
    ensures
        s@ == fixed(value as int, quant as nat),
{
    decimal_fixed(value as i64, quant as u64)
}

pub open spec fn hex_char(d: nat, upper: bool) -> char {
    if d < 10 {
        (48 + d) as char
    } else if upper {
        (55 + d) as char
    } else {
        (87 + d) as char
    }
}

/// The hexadecimal digits of a number.
pub open spec fn hex_text(n: nat, upper: bool) -> Seq<char>
    decreases n,
{
    if n < 16 {
        seq![hex_char(n, upper)]
    } else {
        hex_text(n / 16, upper).push(hex_char(n % 16, upper))
    }
}

/// At least four hexadecimal digits, as `{:04x}` / `{:04X}` write them.
pub open spec fn hex4(n: nat, upper: bool) -> Seq<char> {
    zero_pad(hex_text(n, upper), 4)
}

fn hex_string(n: u32, upper: bool) -> (s: String)
    ensures
        s@ == hex_text(n as nat, upper),
    decreases n,
{
    let mut s = if n >= 16 { hex_string(n / 16, upper) } else { String::new() };
    let d = n % 16;
    let c: char = match d {
        0 => '0',
        1 => '1',
        2 => '2',
        3 => '3',
        4 => '4',
        5 => '5',
        6 => '6',
        7 => '7',
        8 => '8',
        9 => '9',
        10 => if upper { 'A' } else { 'a' },
        11 => if upper { 'B' } else { 'b' },
        12 => if upper { 'C' } else { 'c' },
        13 => if upper { 'D' } else { 'd' },
        14 => if upper { 'E' } else { 'e' },
        _ => if upper { 'F' } else { 'f' },
    };
    proof {
        assert(c == hex_char((n % 16) as nat, upper)) by {
            assert(87 + (n % 16) < 0xD800);
        }
    }
    push_char(&mut s, c);
    proof {
        if n < 16 {
            assert(s@ =~= hex_text(n as nat, upper));
        }
    }
    s
}

/// Append at least four hexadecimal digits of `n`.
fn push_hex4(out: &mut String, n: u32, upper: bool)
    ensures
        final(out)@ == old(out)@ + hex4(n as nat, upper),
{
    let h = hex_string(n, upper);
    let hc = chars_of(h.as_str());
    let mut k: usize = hc.len();
    let ghost start = out@;
    while k < 4
        invariant
            hc@.len() <= k,
            k <= 4 || k == hc@.len(),
            out@ == start + Seq::new((k - hc@.len()) as nat, |i: int| '0'),
        decreases 4 - k,
    {
        push_char(out, '0');
        k += 1;
        assert(out@ =~= start + Seq::new((k - hc@.len()) as nat, |i: int| '0'));
    }
    push_str(out, h.as_str());
    proof {
        if hc@.len() >= 4 {
            assert(out@ =~= start + hex4(n as nat, upper));
        } else {
            assert(out@ =~= start + hex4(n as nat, upper));
        }
    }
}

/// The head of the surah-name font's style sheet.
pub open spec fn css_head() -> Seq<char> {
    "@font-face{font-family:'Quran Surah Names';src:url('./surah-names.woff2') format('woff2');font-display:swap}\n.qvp-surah-name{font-family:'Quran Surah Names';font-style:normal;font-weight:400;line-height:1}\n"@
}

/// The style rule that draws surah `s`'s glyph.
pub open spec fn css_line(s: nat) -> Seq<char> {
    ".qvp-surah-name[data-surah=\""@ + decimal(s) + "\"]::before{content:\"\\"@ + hex4(
        (FIRST_CODEPOINT + s - 1) as nat,
        false,
    ) + "\"}\n"@
}

pub open spec fn css_lines(k: nat) -> Seq<char>
    decreases k,
{
    if k == 0 {
        Seq::empty()
    } else {
        css_lines((k - 1) as nat) + css_line(k)
    }
}

/// The style sheet of the surah-name font: its face, then one rule per surah.
pub fn font_css() -> (out: String)
    ensures
        out@ == css_head() + css_lines(LAST_SURAH as nat),
{
    let mut out = text_of_str(
        "@font-face{font-family:'Quran Surah Names';src:url('./surah-names.woff2') format('woff2');font-display:swap}\n.qvp-surah-name{font-family:'Quran Surah Names';font-style:normal;font-weight:400;line-height:1}\n",
    );
    let mut surah: u16 = 1;
    while surah <= LAST_SURAH
        invariant
            1 <= surah <= LAST_SURAH + 1,
            out@ == css_head() + css_lines((surah - 1) as nat),
        decreases LAST_SURAH + 1 - surah,
    {
        let ghost before = out@;
        push_str(&mut out, ".qvp-surah-name[data-surah=\"");
        crate::selection::push_decimal(&mut out, surah);
        push_str(&mut out, "\"]::before{content:\"\\");
        push_hex4(&mut out, FIRST_CODEPOINT + surah as u32 - 1, false);
        push_str(&mut out, "\"}\n");
        proof {
            assert(out@ =~= before + css_line(surah as nat));
        }
        surah += 1;
    }
    out
}

/// One surah's entry in the glyph map.
pub open spec fn map_entry(surah: u16, source_page: u16, f: Seq<Seq<char>>) -> Seq<char> {
    "{\"surah\":"@ + decimal(surah as nat) + ",\"source_page\":"@ + decimal(source_page as nat) + ",\"codepoint\":\""@
        + hex4((FIRST_CODEPOINT + surah - 1) as nat, true) + "\",\"arabic\":"@ + json_literal(f[0]) + ",\"latin\":"@
        + json_literal(f[1]) + ",\"english\":"@ + json_literal(f[2]) + ",\"revelation_place\":"@ + json_literal(f[3])
        + ",\"ayah_count\":"@ + f[4] + "}"@
}

pub open spec fn map_entries(ts: Seq<TitleAsset>, k: int) -> Seq<char>
    decreases k,
{
    if k <= 0 {
        Seq::empty()
    } else {
        let t = ts[k - 1];
        map_entries(ts, k - 1) + (if k - 1 != 0 { seq![','] } else { Seq::empty() }) + map_entry(
            t.surah,
            t.source_page,
            fields5(t.metadata@),
        )
    }
}

pub open spec fn map_head() -> Seq<char> {
    "{\"font_family\":\"Quran Surah Names\",\"first_codepoint\":\"E001\",\"surahs\":["@
}

fn push_map_entry(out: &mut String, t: &TitleAsset)
    requires
        metadata_ok(t.metadata@),
        t.surah >= 1,
    ensures
        final(out)@ == old(out)@ + map_entry(t.surah, t.source_page, fields5(t.metadata@)),
{
    let m = match metadata(t.metadata.as_str(), t.surah) {
        Ok(m) => m,
        Err(_) => {
            return;
        },
    };
    let ghost f = fields5(t.metadata@);
    push_str(out, "{\"surah\":");
    crate::selection::push_decimal(out, t.surah);
    push_str(out, ",\"source_page\":");
    crate::selection::push_decimal(out, t.source_page);
    push_str(out, ",\"codepoint\":\"");
    push_hex4(out, FIRST_CODEPOINT + t.surah as u32 - 1, true);
    push_str(out, "\",\"arabic\":");
    let a = json_str(m.arabic.as_str());
    push_str(out, a.as_str());
    push_str(out, ",\"latin\":");
    let b = json_str(m.latin.as_str());
    push_str(out, b.as_str());
    push_str(out, ",\"english\":");
    let c = json_str(m.english.as_str());
    push_str(out, c.as_str());
    push_str(out, ",\"revelation_place\":");
    let d = json_str(m.place.as_str());
    push_str(out, d.as_str());
    push_str(out, ",\"ayah_count\":");
    push_str(out, m.ayah_count.as_str());
    push_str(out, "}");
    proof {
        assert(m.fields()[0] == m.arabic@);
        assert(final(out)@ =~= old(out)@ + map_entry(t.surah, t.source_page, f));
    }
}

/// The glyph map of the surah-name font: every title's surah, source page, code point and
/// name fields.
pub fn map_json(titles: &Vec<TitleAsset>) -> (out: String)
    requires
        forall|k: int| 0 <= k < titles@.len() ==> metadata_ok(#[trigger] titles@[k].metadata@) && titles@[k].surah >= 1,
    ensures
        out@ == map_head() + map_entries(titles@, titles@.len() as int) + "]}\n"@,
{
    let mut out = text_of_str("{\"font_family\":\"Quran Surah Names\",\"first_codepoint\":\"E001\",\"surahs\":[");
    let mut k: usize = 0;
    while k < titles.len()
        invariant
            forall|j: int| 0 <= j < titles@.len() ==> metadata_ok(#[trigger] titles@[j].metadata@) && titles@[j].surah >= 1,
            k <= titles@.len(),
            out@ == map_head() + map_entries(titles@, k as int),
        decreases titles@.len() - k,
    {
        let ghost before = out@;
        if k != 0 {
            push_char(&mut out, ',');
        }
        push_map_entry(&mut out, &titles[k]);
        proof {
            let sep = if k != 0 { seq![','] } else { Seq::<char>::empty() };
            assert(out@ =~= before + sep + map_entry(titles@[k as int].surah, titles@[k as int].source_page, fields5(titles@[k as int].metadata@)));
        }
        k += 1;
    }
    push_str(&mut out, "]}\n");
    out
}

/// The layout of the title sheet: one row per title, each centred in the widest and tallest
/// title plus padding.
#[derive(Clone, Copy, Debug, PartialEq, Eq, Structural)]
pub struct Sheet {
    pub quant: u16,
    pub width: i32,
    pub height: i32,
    pub row_height: i32,
    pub max_width: i32,
    pub max_height: i32,
    pub padding: i32,
}

pub open spec fn box_w(b: IBox) -> int {
    b.x1 - b.x0
}

pub open spec fn box_h(b: IBox) -> int {
    b.y1 - b.y0
}

/// The widest (or tallest, when `tall`) of the first `k` titles.
pub open spec fn max_extent(ts: Seq<TitleAsset>, k: int, tall: bool) -> int
    decreases k,
{
    if k <= 1 {
        if tall { box_h(ts[0].bounds) } else { box_w(ts[0].bounds) }
    } else {
        let m = max_extent(ts, k - 1, tall);
        let e = if tall { box_h(ts[k - 1].bounds) } else { box_w(ts[k - 1].bounds) };
        if e > m { e } else { m }
    }
}

/// The sheet's numbers fit in 32 bits.
pub open spec fn sheet_fits(ts: Seq<TitleAsset>) -> bool {
    let pad = 2 * ts[0].quant;
    &&& ts.len() <= i32::MAX
    &&& forall|k: int| 0 <= k < ts.len() ==> (#[trigger] ts[k]).bounds.bounded()
    &&& max_extent(ts, ts.len() as int, false) + 2 * pad <= i32::MAX
    &&& max_extent(ts, ts.len() as int, true) + 2 * pad <= i32::MAX
    &&& (max_extent(ts, ts.len() as int, true) + 2 * pad) * ts.len() <= i32::MAX
    &&& (max_extent(ts, ts.len() as int, true) + 2 * pad) * ts.len() >= i32::MIN
}

impl Sheet {
    /// The sheet for a set of titles of one quantisation.
    pub fn new(titles: &Vec<TitleAsset>) -> (r: Result<Sheet, String>)
        requires
            titles@.len() > 0 ==> sheet_fits(titles@),
        ensures
            titles@.len() == 0 ==> (r matches Err(e) && e@ == "no surah names"@),
            titles@.len() > 0 && (exists|k: int| 0 <= k < titles@.len() && #[trigger] titles@[k].quant != titles@[0].quant)
                ==> (r matches Err(e) && e@ == "surah-name pages use different quantisation"@),
            titles@.len() > 0 && (forall|k: int| 0 <= k < titles@.len() ==> #[trigger] titles@[k].quant == titles@[0].quant)
                ==> (r matches Ok(s) && {
                let pad = 2 * titles@[0].quant;
                let mw = max_extent(titles@, titles@.len() as int, false);
                let mh = max_extent(titles@, titles@.len() as int, true);
                &&& s.quant == titles@[0].quant
                &&& s.padding == pad
                &&& s.max_width == mw
                &&& s.max_height == mh
                &&& s.row_height == mh + 2 * pad
                &&& s.width == mw + 2 * pad
                &&& s.height == (mh + 2 * pad) * titles@.len()
            }),
    {
        if titles.len() == 0 {
            return Err(text_of_str("no surah names"));
        }
        let quant = titles[0].quant;
        let mut k: usize = 0;
        while k < titles.len()
            invariant
                titles@.len() > 0,
                quant == titles@[0].quant,
                k <= titles@.len(),
                forall|j: int| 0 <= j < k ==> #[trigger] titles@[j].quant == quant,
            decreases titles@.len() - k,
        {
            if titles[k].quant != quant {
                return Err(text_of_str("surah-name pages use different quantisation"));
            }
            k += 1;
        }
        let b0 = titles[0].bounds;
        assert(titles@[0].bounds.bounded());
        let mut max_width: i32 = b0.x1 - b0.x0;
        let mut max_height: i32 = b0.y1 - b0.y0;
        let mut k: usize = 1;
        while k < titles.len()
            invariant
                titles@.len() > 0,
                sheet_fits(titles@),
                1 <= k <= titles@.len(),
                max_width == max_extent(titles@, k as int, false),
                max_height == max_extent(titles@, k as int, true),
            decreases titles@.len() - k,
        {
            let b = titles[k].bounds;
            assert(titles@[k as int].bounds.bounded());
            let w = b.x1 - b.x0;
            let h = b.y1 - b.y0;
            if w > max_width {
                max_width = w;
            }
            if h > max_height {
                max_height = h;
            }
            k += 1;
        }
        let padding: i32 = quant as i32 * 2;
        let row_height = max_height + padding * 2;
        let n = titles.len() as i32;
        proof {
            assert(row_height * n == (max_extent(titles@, titles@.len() as int, true) + 2 * (2 * quant)) * titles@.len());
        }
        Ok(Sheet {
            quant,
            width: max_width + padding * 2,
            height: row_height * n,
            row_height,
            max_width,
            max_height,
            padding,
        })
    }

    /// Where a title is drawn on row `row`: centred in the row's cell, its box moved to the cell.
    pub fn placement(&self, title: &TitleAsset, row: usize) -> (r: (i32, i32))
        requires
            0 <= self.max_width - box_w(title.bounds),
            0 <= self.max_height - box_h(title.bounds),
            i32::MIN <= self.max_width - box_w(title.bounds) <= i32::MAX,
            i32::MIN <= self.max_height - box_h(title.bounds) <= i32::MAX,
            i32::MIN <= box_w(title.bounds) <= i32::MAX,
            i32::MIN <= box_h(title.bounds) <= i32::MAX,
            row <= i32::MAX,
            i32::MIN <= row * self.row_height <= i32::MAX,
            i32::MIN <= self.padding + (self.max_width - box_w(title.bounds)) / 2 - title.bounds.x0 <= i32::MAX,
            i32::MIN <= self.padding + (self.max_width - box_w(title.bounds)) / 2 <= i32::MAX,
            i32::MIN <= row * self.row_height + self.padding <= i32::MAX,
            i32::MIN <= row * self.row_height + self.padding + (self.max_height - box_h(title.bounds)) / 2 <= i32::MAX,
            i32::MIN <= row * self.row_height + self.padding + (self.max_height - box_h(title.bounds)) / 2 - title.bounds.y0
                <= i32::MAX,
        ensures
            r.0 == self.padding + (self.max_width - box_w(title.bounds)) / 2 - title.bounds.x0,
            r.1 == row * self.row_height + self.padding + (self.max_height - box_h(title.bounds)) / 2 - title.bounds.y0,
    {
        let width = title.bounds.x1 - title.bounds.x0;
        let height = title.bounds.y1 - title.bounds.y0;
        (
            self.padding + (self.max_width - width) / 2 - title.bounds.x0,
            row as i32 * self.row_height + self.padding + (self.max_height - height) / 2 - title.bounds.y0,
        )
    }
}

/// The name metadata a surah banner carries: its text, when it has one inside the string table
/// and that text holds the five name fields; else what is wrong with it.
pub fn decoration_metadata<'a>(page: &'a PageData, decoration: &DecoRec) -> (r: Result<&'a str, String>)
    ensures
        decoration.text == NONE_U16 ==> (r matches Err(e) && e@ == "surah "@ + decimal(decoration.surah as nat)
            + " has no name metadata"@),
        decoration.text != NONE_U16 && decoration.text >= page.strings@.len() ==> (r matches Err(e) && e@ == "surah "@
            + decimal(decoration.surah as nat) + " name metadata points outside the string table"@),
        decoration.text != NONE_U16 && decoration.text < page.strings@.len() ==> {
            let v = page.strings@[decoration.text as int]@;
            if metadata_ok(v) {
                r matches Ok(s) && s@ == v
            } else {
                r matches Err(e) && e@ == invalid_metadata_message(decoration.surah)
            }
        },
{
    if decoration.text == NONE_U16 {
        let mut e = text_of_str("surah ");
        push_decimal(&mut e, decoration.surah);
        push_str(&mut e, " has no name metadata");
        proof {
            reveal_strlit("surah ");
            reveal_strlit(" has no name metadata");
        }
        return Err(e);
    }
    if decoration.text as usize >= page.strings.len() {
        let mut e = text_of_str("surah ");
        push_decimal(&mut e, decoration.surah);
        push_str(&mut e, " name metadata points outside the string table");
        proof {
            reveal_strlit("surah ");
            reveal_strlit(" name metadata points outside the string table");
        }
        return Err(e);
    }
    let value = page.strings[decoration.text as usize].as_str();
    match metadata(value, decoration.surah) {
        Ok(_) => Ok(value),
        Err(e) => Err(e),
    }
}

} // verus!
