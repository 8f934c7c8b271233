//! The surah-name font's glyph programs and its WOFF2 delivery: Type 2 charstrings for the
//! `.notdef` glyph and for a title's outline, and the compression of the finished font.
use vstd::prelude::*;
use crate::font::{
    append_bytes, be16, byte_items, cmap, cmap_bytes, dict_int, dict_int_bytes, dict_real, dict_real_bytes, first_head, head, head_from,
    head_bytes, hhea, hhea_bytes, hmtx, hmtx_bytes, index, index_bytes, is_head, lemma_sorted_unique, maxp, maxp_bytes,
    name, name_bytes, os2, os2_bytes, post, post_bytes, sfnt, sfnt_font, strictly_sorted, sum_of, tag_key, type2_bytes, type2_int, u16_be,
    UNITS_PER_EM,
};
use crate::names::{decimal_string, zero_pad, Cmd};
use crate::selection::{decimal, push_decimal};
use crate::strings::{chars_of, push_str, text_of_str};

verus! {

/// The `.notdef` glyph: half an em wide, an empty outline.
pub open spec fn notdef_bytes() -> Seq<u8> {
    type2_bytes((UNITS_PER_EM / 2) as int) + type2_bytes(0) + type2_bytes(0) + seq![21u8, 14u8]
}

pub fn notdef() -> (out: Vec<u8>)
    ensures
        out@ == notdef_bytes(),
{
    let mut out: Vec<u8> = Vec::new();
    type2_int((UNITS_PER_EM / 2) as i32, &mut out);
    type2_int(0, &mut out);
    type2_int(0, &mut out);
    out.push(21);
    out.push(14);
    assert(out@ =~= notdef_bytes());
    out
}

/// The charstring of the first `k` commands of a glyph outline: its bytes, the current point,
/// whether the first move (which carries the advance width) is still to come, and whether a
/// quadratic curve was met (which stops the glyph).
pub open spec fn charstring_run(cmds: Seq<Cmd>, width: int, k: int) -> (Seq<u8>, int, int, bool, bool)
    decreases k,
{
    if k <= 0 {
        (Seq::empty(), 0, 0, true, false)
    } else {
        let (o, cx, cy, first, quad) = charstring_run(cmds, width, k - 1);
        if quad {
            (o, cx, cy, first, quad)
        } else {
            match cmds[k - 1] {
                Cmd::MoveTo(x, y) => (
                    o + (if first { type2_bytes(width) } else { Seq::empty() }) + type2_bytes(x - cx) + type2_bytes(y - cy)
                        + seq![21u8],
                    x as int,
                    y as int,
                    false,
                    false,
                ),
                Cmd::LineTo(x, y) => (o + type2_bytes(x - cx) + type2_bytes(y - cy) + seq![5u8], x as int, y as int, first, false),
                Cmd::CubicTo(x1, y1, x2, y2, x, y) => (
                    o + type2_bytes(x1 - cx) + type2_bytes(y1 - cy) + type2_bytes(x2 - x1) + type2_bytes(y2 - y1)
                        + type2_bytes(x - x2) + type2_bytes(y - y2) + seq![8u8],
                    x as int,
                    y as int,
                    first,
                    false,
                ),
                Cmd::QuadTo(..) => (o, cx, cy, first, true),
                Cmd::Close => (o, cx, cy, first, false),
            }
        }
    }
}

pub open spec fn quad_message(surah: u16) -> Seq<char> {
    "surah "@ + decimal(surah as nat) + " uses a quadratic curve; CFF generation would not be lossless"@
}

pub open spec fn no_outline_message(surah: u16) -> Seq<char> {
    "surah "@ + decimal(surah as nat) + " has no font outline"@
}

pub open spec fn fits_i32(v: int) -> bool {
    i32::MIN <= v <= i32::MAX
}

/// Every delta a command is written with, from the current point `(cx, cy)`, fits in 32 bits.
pub open spec fn step_fits(c: Cmd, cx: int, cy: int) -> bool {
    match c {
        Cmd::MoveTo(x, y) => fits_i32(x - cx) && fits_i32(y - cy),
        Cmd::LineTo(x, y) => fits_i32(x - cx) && fits_i32(y - cy),
        Cmd::CubicTo(x1, y1, x2, y2, x, y) => fits_i32(x1 - cx) && fits_i32(y1 - cy) && fits_i32(x2 - x1) && fits_i32(
            y2 - y1,
        ) && fits_i32(x - x2) && fits_i32(y - y2),
        _ => true,
    }
}

/// Every delta the first `k` commands of an outline are written with fits in 32 bits (what
/// follows a quadratic curve is never written).
pub open spec fn deltas_fit(cmds: Seq<Cmd>, width: int, k: int) -> bool
    decreases k,
{
    if k <= 0 {
        true
    } else {
        deltas_fit(cmds, width, k - 1) && {
            let (o, cx, cy, first, quad) = charstring_run(cmds, width, k - 1);
            quad || step_fits(cmds[k - 1], cx, cy)
        }
    }
}

proof fn lemma_deltas_prefix(cmds: Seq<Cmd>, width: int, k: int, n: int)
    requires
        0 <= k <= n,
        deltas_fit(cmds, width, n),
    ensures
        deltas_fit(cmds, width, k),
    decreases n - k,
{
    if k < n {
        lemma_deltas_prefix(cmds, width, k, n - 1);
    }
}

/// The Type 2 charstring of a glyph: its advance width with the first move, then every move,
/// line and cubic as deltas from the current point, closed by `endchar`. Contours close
/// implicitly.
pub fn charstring(surah: u16, width: i32, cmds: &Vec<Cmd>) -> (r: Result<Vec<u8>, String>)
    requires
        deltas_fit(cmds@, width as int, cmds@.len() as int),
    ensures
        match charstring_result(surah, width, cmds@) {
            Err(e) => r matches Err(x) && x@ == e,
            Ok(b) => r matches Ok(v) && v@ == b,
        },
{
    let mut out: Vec<u8> = Vec::new();
    let mut cx: i32 = 0;
    let mut cy: i32 = 0;
    let mut first = true;
    let mut k: usize = 0;
    while k < cmds.len()
        invariant
            deltas_fit(cmds@, width as int, cmds@.len() as int),
            k <= cmds@.len(),
            charstring_run(cmds@, width as int, k as int) == (out@, cx as int, cy as int, first, false),
        decreases cmds@.len() - k,
    {
        let c = cmds[k];
        assert(cmds@[k as int] == c);
        if let Cmd::QuadTo(..) = c {
            proof {
                lemma_quad_stays(cmds@, width as int, k as int + 1, cmds@.len() as int);
            }
            let mut e = text_of_str("surah ");
            push_decimal(&mut e, surah);
            push_str(&mut e, " uses a quadratic curve; CFF generation would not be lossless");
            proof {
                reveal_strlit("surah ");
                reveal_strlit(" uses a quadratic curve; CFF generation would not be lossless");
            }
            return Err(e);
        }
        proof {
            lemma_deltas_prefix(cmds@, width as int, k + 1, cmds@.len() as int);
        }
        assert(step_fits(c, cx as int, cy as int));
        let (nx, ny, nf) = push_command(&mut out, c, cx, cy, first, width);
        cx = nx;
        cy = ny;
        first = nf;
        k += 1;
    }
    if first {
        let mut e = text_of_str("surah ");
        push_decimal(&mut e, surah);
        push_str(&mut e, " has no font outline");
        proof {
            reveal_strlit("surah ");
            reveal_strlit(" has no font outline");
        }
        return Err(e);
    }
    out.push(14);
    Ok(out)
}

/// One command of an outline appended to a charstring; gives the new current point and whether
/// the first move is still to come.
fn push_command(out: &mut Vec<u8>, c: Cmd, cx: i32, cy: i32, first: bool, width: i32) -> (r: (i32, i32, bool))
    requires
        !(c is QuadTo),
        step_fits(c, cx as int, cy as int),
    ensures
        (final(out)@, r.0 as int, r.1 as int, r.2) == ({
            match c {
                Cmd::MoveTo(x, y) => (
                    old(out)@ + (if first { type2_bytes(width as int) } else { Seq::empty() }) + type2_bytes(x - cx)
                        + type2_bytes(y - cy) + seq![21u8],
                    x as int,
                    y as int,
                    false,
                ),
                Cmd::LineTo(x, y) => (old(out)@ + type2_bytes(x - cx) + type2_bytes(y - cy) + seq![5u8], x as int, y as int, first),
                Cmd::CubicTo(x1, y1, x2, y2, x, y) => (
                    old(out)@ + type2_bytes(x1 - cx) + type2_bytes(y1 - cy) + type2_bytes(x2 - x1) + type2_bytes(y2 - y1)
                        + type2_bytes(x - x2) + type2_bytes(y - y2) + seq![8u8],
                    x as int,
                    y as int,
                    first,
                ),
                _ => (old(out)@, cx as int, cy as int, first),
            }
        }),
{
    match c {
        Cmd::MoveTo(x, y) => {
            let ghost o0 = out@;
            if first {
                type2_int(width, out);
            }
            type2_int(x - cx, out);
            type2_int(y - cy, out);
            out.push(21);
            assert(out@ =~= o0 + (if first { type2_bytes(width as int) } else { Seq::empty() }) + type2_bytes(x - cx)
                + type2_bytes(y - cy) + seq![21u8]);
            (x, y, false)
        },
        Cmd::LineTo(x, y) => {
            let ghost o0 = out@;
            type2_int(x - cx, out);
            type2_int(y - cy, out);
            out.push(5);
            assert(out@ =~= o0 + type2_bytes(x - cx) + type2_bytes(y - cy) + seq![5u8]);
            (x, y, first)
        },
        Cmd::CubicTo(x1, y1, x2, y2, x, y) => {
            push_cubic(out, x1 - cx, y1 - cy, x2 - x1, y2 - y1, x - x2, y - y2);
            (x, y, first)
        },
        _ => (cx, cy, first),
    }
}

/// The six deltas of a cubic curve and the `rrcurveto` operator.
fn push_cubic(out: &mut Vec<u8>, a: i32, b: i32, c: i32, d: i32, e: i32, f: i32)
    ensures
        final(out)@ == old(out)@ + type2_bytes(a as int) + type2_bytes(b as int) + type2_bytes(c as int)
            + type2_bytes(d as int) + type2_bytes(e as int) + type2_bytes(f as int) + seq![8u8],
{
    let ghost o0 = out@;
    type2_int(a, out);
    type2_int(b, out);
    type2_int(c, out);
    type2_int(d, out);
    type2_int(e, out);
    type2_int(f, out);
    out.push(8);
    assert(out@ =~= o0 + type2_bytes(a as int) + type2_bytes(b as int) + type2_bytes(c as int)
        + type2_bytes(d as int) + type2_bytes(e as int) + type2_bytes(f as int) + seq![8u8]);
}

/// Once a quadratic curve is met, nothing after it is written, so every delta fits.
proof fn lemma_quad_fits(cmds: Seq<Cmd>, width: int, k: int, m: int)
    requires
        1 <= k <= m,
        charstring_run(cmds, width, k).4,
        deltas_fit(cmds, width, k),
    ensures
        deltas_fit(cmds, width, m),
    decreases m - k,
{
    if k < m {
        lemma_quad_fits(cmds, width, k, m - 1);
        lemma_quad_stays(cmds, width, k, m - 1);
    }
}

proof fn lemma_quad_stays(cmds: Seq<Cmd>, width: int, k: int, m: int)
    requires
        1 <= k <= m,
        charstring_run(cmds, width, k).4,
    ensures
        charstring_run(cmds, width, m) == charstring_run(cmds, width, k),
    decreases m - k,
{
    if k < m {
        lemma_quad_stays(cmds, width, k, m - 1);
    }
}

/// The result of `charstring` as a value: the program, or the message that stops it.
pub open spec fn charstring_result(surah: u16, width: i32, cmds: Seq<Cmd>) -> Result<Seq<u8>, Seq<char>> {
    let (o, cx, cy, first, quad) = charstring_run(cmds, width as int, cmds.len() as int);
    if quad {
        Err(quad_message(surah))
    } else if first {
        Err(no_outline_message(surah))
    } else {
        Ok(o + seq![14u8])
    }
}

/// One glyph of the surah-name font: its surah, its advance width and height, and its outline
/// in font units (y up, the origin at the left of the baseline).
#[derive(Clone, Debug)]
pub struct FontGlyph {
    pub surah: u16,
    pub width: i32,
    pub height: i32,
    pub commands: Vec<Cmd>,
}

pub open spec fn glyph_ok(g: FontGlyph) -> bool {
    deltas_fit(g.commands@, g.width as int, g.commands@.len() as int)
}

pub open spec fn glyphs_ok(gs: Seq<FontGlyph>) -> bool {
    forall|k: int| 0 <= k < gs.len() ==> #[trigger] glyph_ok(gs[k])
}

fn delta_ok(a: i32, b: i32) -> (r: bool)
    ensures
        r == fits_i32(a - b),
{
    let d: i64 = a as i64 - b as i64;
    -0x8000_0000 <= d && d <= 0x7fff_ffff
}

/// Whether the deltas of one command from `(cx, cy)` fit in 32 bits.
fn step_ok(c: Cmd, cx: i32, cy: i32) -> (r: bool)
    ensures
        r == step_fits(c, cx as int, cy as int),
{
    match c {
        Cmd::MoveTo(x, y) => delta_ok(x, cx) && delta_ok(y, cy),
        Cmd::LineTo(x, y) => delta_ok(x, cx) && delta_ok(y, cy),
        Cmd::CubicTo(x1, y1, x2, y2, x, y) => delta_ok(x1, cx) && delta_ok(y1, cy) && delta_ok(x2, x1) && delta_ok(
            y2,
            y1,
        ) && delta_ok(x, x2) && delta_ok(y, y2),
        _ => true,
    }
}

/// Whether every delta of an outline's program fits in 32 bits.
fn outline_ok(cmds: &Vec<Cmd>, width: i32) -> (r: bool)
    ensures
        r == deltas_fit(cmds@, width as int, cmds@.len() as int),
{
    let mut cx: i32 = 0;
    let mut cy: i32 = 0;
    let mut k: usize = 0;
    let ghost mut o: Seq<u8> = Seq::empty();
    let ghost mut first: bool = true;
    while k < cmds.len()
        invariant
            k <= cmds@.len(),
            deltas_fit(cmds@, width as int, k as int),
            charstring_run(cmds@, width as int, k as int) == (o, cx as int, cy as int, first, false),
        decreases cmds@.len() - k,
    {
        let c = cmds[k];
        if let Cmd::QuadTo(..) = c {
            proof {
                lemma_quad_stays(cmds@, width as int, k as int + 1, cmds@.len() as int);
                lemma_quad_fits(cmds@, width as int, k as int + 1, cmds@.len() as int);
            }
            return true;
        }
        if !step_ok(c, cx, cy) {
            proof {
                if deltas_fit(cmds@, width as int, cmds@.len() as int) {
                    lemma_deltas_prefix(cmds@, width as int, k + 1, cmds@.len() as int);
                }
            }
            return false;
        }
        proof {
            let (o2, x2, y2, f2, q2) = charstring_run(cmds@, width as int, k + 1);
            o = o2;
            first = f2;
        }
        match c {
            Cmd::MoveTo(x, y) => {
                cx = x;
                cy = y;
            },
            Cmd::LineTo(x, y) => {
                cx = x;
                cy = y;
            },
            Cmd::CubicTo(_, _, _, _, x, y) => {
                cx = x;
                cy = y;
            },
            _ => {},
        }
        k += 1;
    }
    true
}

/// Whether every glyph's program can be written: every delta fits in 32 bits.
pub fn glyphs_fit(glyphs: &Vec<FontGlyph>) -> (r: bool)
    ensures
        r == glyphs_ok(glyphs@),
{
    let mut i: usize = 0;
    while i < glyphs.len()
        invariant
            i <= glyphs@.len(),
            forall|k: int| 0 <= k < i ==> #[trigger] glyph_ok(glyphs@[k]),
        decreases glyphs@.len() - i,
    {
        if !outline_ok(&glyphs[i].commands, glyphs[i].width) {
            assert(!glyph_ok(glyphs@[i as int]));
            return false;
        }
        i += 1;
    }
    true
}

/// A title's command in font units: x measured from the title's left edge, y up from its
/// bottom edge.
pub open spec fn to_font_units(c: Cmd, x0: i32, y1: i32) -> Cmd {
    match c {
        Cmd::MoveTo(x, y) => Cmd::MoveTo((x - x0) as i32, (y1 - y) as i32),
        Cmd::LineTo(x, y) => Cmd::LineTo((x - x0) as i32, (y1 - y) as i32),
        Cmd::QuadTo(a, b, x, y) => Cmd::QuadTo((a - x0) as i32, (y1 - b) as i32, (x - x0) as i32, (y1 - y) as i32),
        Cmd::CubicTo(a, b, c2, d, x, y) => Cmd::CubicTo(
            (a - x0) as i32,
            (y1 - b) as i32,
            (c2 - x0) as i32,
            (y1 - d) as i32,
            (x - x0) as i32,
            (y1 - y) as i32,
        ),
        Cmd::Close => Cmd::Close,
    }
}

/// Every coordinate of the command, measured that way, fits in 32 bits.
pub open spec fn font_units_fit(c: Cmd, x0: i32, y1: i32) -> bool {
    match c {
        Cmd::MoveTo(x, y) => fits_i32(x - x0) && fits_i32(y1 - y),
        Cmd::LineTo(x, y) => fits_i32(x - x0) && fits_i32(y1 - y),
        Cmd::QuadTo(a, b, x, y) => fits_i32(a - x0) && fits_i32(y1 - b) && fits_i32(x - x0) && fits_i32(y1 - y),
        Cmd::CubicTo(a, b, c2, d, x, y) => fits_i32(a - x0) && fits_i32(y1 - b) && fits_i32(c2 - x0) && fits_i32(y1 - d)
            && fits_i32(x - x0) && fits_i32(y1 - y),
        Cmd::Close => true,
    }
}

/// A title path's commands in font units, relative to the title's box (`x0` its left edge,
/// `y1` its bottom edge).
pub fn font_outline(cmds: &Vec<Cmd>, x0: i32, y1: i32) -> (out: Vec<Cmd>)
    requires
        forall|k: int| 0 <= k < cmds@.len() ==> #[trigger] font_units_fit(cmds@[k], x0, y1),
    ensures
        out@ == cmds@.map_values(|c: Cmd| to_font_units(c, x0, y1)),
{
    let mut out: Vec<Cmd> = Vec::new();
    let mut i: usize = 0;
    while i < cmds.len()
        invariant
            i <= cmds@.len(),
            forall|k: int| 0 <= k < cmds@.len() ==> #[trigger] font_units_fit(cmds@[k], x0, y1),
            out@ == cmds@.take(i as int).map_values(|c: Cmd| to_font_units(c, x0, y1)),
        decreases cmds@.len() - i,
    {
        let c = cmds[i];
        assert(font_units_fit(cmds@[i as int], x0, y1));
        let f = match c {
            Cmd::MoveTo(x, y) => Cmd::MoveTo(x - x0, y1 - y),
            Cmd::LineTo(x, y) => Cmd::LineTo(x - x0, y1 - y),
            Cmd::QuadTo(a, b, x, y) => Cmd::QuadTo(a - x0, y1 - b, x - x0, y1 - y),
            Cmd::CubicTo(a, b, c2, d, x, y) => Cmd::CubicTo(a - x0, y1 - b, c2 - x0, y1 - d, x - x0, y1 - y),
            Cmd::Close => Cmd::Close,
        };
        out.push(f);
        i += 1;
        assert(cmds@.take(i as int).map_values(|c: Cmd| to_font_units(c, x0, y1)) =~= cmds@.take(i - 1).map_values(
            |c: Cmd| to_font_units(c, x0, y1),
        ).push(to_font_units(cmds@[i - 1], x0, y1)));
    }
    assert(cmds@.take(i as int) =~= cmds@);
    out
}

/// The glyph programs of the font: `.notdef`, then each glyph's charstring in order; the first
/// glyph that cannot be written stops it with its message.
pub open spec fn glyph_programs(gs: Seq<FontGlyph>) -> Result<Seq<Seq<u8>>, Seq<char>>
    decreases gs.len(),
{
    if gs.len() == 0 {
        Ok(seq![notdef_bytes()])
    } else {
        match glyph_programs(gs.drop_last()) {
            Err(e) => Err(e),
            Ok(p) => match charstring_result(gs.last().surah, gs.last().width, gs.last().commands@) {
                Err(e) => Err(e),
                Ok(c) => Ok(p.push(c)),
            },
        }
    }
}

/// A string's characters as bytes (every character here is ASCII).
pub open spec fn ascii(s: Seq<char>) -> Seq<u8> {
    s.map_values(|c: char| c as u8)
}

/// A glyph's PostScript name: `surah` and its number in at least three digits.
pub open spec fn glyph_name_bytes(surah: u16) -> Seq<u8> {
    ascii("surah"@ + zero_pad(decimal(surah as nat), 3))
}

pub open spec fn family_bytes() -> Seq<u8> {
    ascii("Quran Surah Names"@)
}

/// The strings of the CFF: the glyph names, the full name, the family name and the weight.
pub open spec fn cff_strings(gs: Seq<FontGlyph>) -> Seq<Seq<u8>> {
    gs.map_values(|g: FontGlyph| glyph_name_bytes(g.surah)) + seq![family_bytes(), family_bytes(), ascii("Regular"@)]
}

/// The charset (format 0): the string id of every glyph after `.notdef`.
pub open spec fn charset_bytes(n: nat) -> Seq<u8>
    decreases n,
{
    if n == 0 {
        seq![0u8]
    } else {
        charset_bytes((n - 1) as nat) + u16_be((391 + n - 1) % 0x1_0000)
    }
}

/// The text of the font matrix entry, 1/5000.
pub open spec fn matrix_text() -> Seq<u8> {
    seq![0x30u8, 0x2e, 0x30, 0x30, 0x30, 0x32]
}

/// The top DICT: full name, family name, weight, bounding box, font matrix, and where the charset
/// and the charstrings start.
pub open spec fn top_dict_bytes(n: int, max_w: int, max_h: int, charset_at: int, charstrings_at: int) -> Seq<u8> {
    dict_int_bytes(391 + n) + seq![2u8] + dict_int_bytes(392 + n) + seq![3u8] + dict_int_bytes(393 + n) + seq![4u8]
        + dict_int_bytes(0) + dict_int_bytes(0) + dict_int_bytes(max_w) + dict_int_bytes(max_h) + seq![5u8]
        + dict_real_bytes(matrix_text()) + dict_int_bytes(0) + dict_int_bytes(0) + dict_real_bytes(matrix_text())
        + dict_int_bytes(0) + dict_int_bytes(0) + seq![12u8, 7u8] + dict_int_bytes(charset_at) + seq![15u8]
        + dict_int_bytes(charstrings_at) + seq![17u8]
}

pub open spec fn cff_header() -> Seq<u8> {
    seq![1u8, 0u8, 4u8, 4u8]
}

pub open spec fn cff_names() -> Seq<u8> {
    index_bytes(seq![ascii("QuranSurahNames-Regular"@)])
}

/// The top DICT written with the offsets that a top DICT of the bytes `top` would give.
pub open spec fn next_top(gs: Seq<FontGlyph>, max_w: int, max_h: int, top: Seq<u8>) -> Seq<u8> {
    let charset_at = cff_header().len() + cff_names().len() + index_bytes(seq![top]).len() + index_bytes(
        cff_strings(gs),
    ).len() + index_bytes(Seq::empty()).len();
    let charstrings_at = charset_at + charset_bytes(gs.len()).len();
    top_dict_bytes(gs.len() as int, max_w, max_h, (charset_at as i32) as int, (charstrings_at as i32) as int)
}

/// The top DICT after at most `k` more rounds of writing it with the offsets its previous
/// length gives, stopping once a round changes nothing.
pub open spec fn settle(gs: Seq<FontGlyph>, max_w: int, max_h: int, top: Seq<u8>, k: nat) -> Seq<u8>
    decreases k,
{
    if k == 0 {
        top
    } else {
        let next = next_top(gs, max_w, max_h, top);
        if next == top {
            top
        } else {
            settle(gs, max_w, max_h, next, (k - 1) as nat)
        }
    }
}

/// The CFF table of the glyphs with the given programs.
pub open spec fn cff_bytes(gs: Seq<FontGlyph>, max_w: int, max_h: int, programs: Seq<Seq<u8>>) -> Seq<u8> {
    cff_header() + cff_names() + index_bytes(seq![settle(gs, max_w, max_h, Seq::empty(), 8)]) + index_bytes(
        cff_strings(gs),
    ) + index_bytes(Seq::empty()) + charset_bytes(gs.len()) + index_bytes(programs)
}

proof fn lemma_programs_stop(gs: Seq<FontGlyph>, k: int)
    requires
        0 <= k <= gs.len(),
        glyph_programs(gs.take(k)) is Err,
    ensures
        glyph_programs(gs) == glyph_programs(gs.take(k)),
    decreases gs.len() - k,
{
    if k < gs.len() {
        assert(gs.take(k + 1).drop_last() =~= gs.take(k));
        lemma_programs_stop(gs, k + 1);
    } else {
        assert(gs.take(k) =~= gs);
    }
}

/// Append a string's characters as bytes.
fn push_ascii(out: &mut Vec<u8>, s: &str)
    ensures
        final(out)@ == old(out)@ + ascii(s@),
{
    let v = chars_of(s);
    let mut i: usize = 0;
    while i < v.len()
        invariant
            v@ == s@,
            i <= v@.len(),
            out@ == old(out)@ + ascii(v@.take(i as int)),
        decreases v@.len() - i,
    {
        out.push(v[i] as u8);
        i += 1;
        assert(ascii(v@.take(i as int)) =~= ascii(v@.take(i - 1)).push(v@[i - 1] as u8));
    }
    assert(v@.take(i as int) =~= v@);
}

/// A glyph's PostScript name.
fn glyph_name(surah: u16) -> (out: Vec<u8>)
    ensures
        out@ == glyph_name_bytes(surah),
{
    let mut out: Vec<u8> = Vec::new();
    push_ascii(&mut out, "surah");
    let d = decimal_string(surah as u64);
    let v = chars_of(d.as_str());
    let ghost pad_from = out@;
    let mut k: usize = v.len();
    while k < 3
        invariant
            v@.len() <= k,
            k <= 3 || k == v@.len(),
            out@ == pad_from + Seq::new((k - v@.len()) as nat, |i: int| '0' as u8),
        decreases 3 - k,
    {
        out.push(0x30);
        k += 1;
        assert(out@ =~= pad_from + Seq::new((k - v@.len()) as nat, |i: int| '0' as u8));
    }
    let ghost digits_from = out@;
    let mut i: usize = 0;
    while i < v.len()
        invariant
            i <= v@.len(),
            out@ == digits_from + ascii(v@.take(i as int)),
        decreases v@.len() - i,
    {
        out.push(v[i] as u8);
        i += 1;
        assert(ascii(v@.take(i as int)) =~= ascii(v@.take(i - 1)).push(v@[i - 1] as u8));
    }
    proof {
        reveal_strlit("surah");
        assert(v@.take(i as int) =~= v@);
        assert(v@ == decimal(surah as nat));
        if v@.len() >= 3 {
            assert(zero_pad(decimal(surah as nat), 3) == decimal(surah as nat));
        }
        assert(out@ =~= glyph_name_bytes(surah));
    }
    out
}

/// The charset of `n` glyphs after `.notdef`.
fn charset(n: usize) -> (out: Vec<u8>)
    ensures
        out@ == charset_bytes(n as nat),
{
    let mut out: Vec<u8> = Vec::new();
    out.push(0);
    let mut i: usize = 0;
    while i < n
        invariant
            i <= n,
            out@ == charset_bytes(i as nat),
        decreases n - i,
    {
        be16(&mut out, ((391 + i as u128) % 0x1_0000) as u16);
        i += 1;
    }
    out
}

/// The top DICT with the given name ids, bounding box and offsets.
fn top_dict(n: i32, max_w: i32, max_h: i32, charset_at: i32, charstrings_at: i32) -> (out: Vec<u8>)
    requires
        0 <= n < 0x7fff_0000,
    ensures
        out@ == top_dict_bytes(n as int, max_w as int, max_h as int, charset_at as int, charstrings_at as int),
{
    let matrix: Vec<u8> = vec![0x30, 0x2e, 0x30, 0x30, 0x30, 0x32];
    assert(matrix@ =~= matrix_text());
    let mut out: Vec<u8> = Vec::new();
    dict_int(391 + n, &mut out);
    out.push(2);
    dict_int(392 + n, &mut out);
    out.push(3);
    dict_int(393 + n, &mut out);
    out.push(4);
    dict_int(0, &mut out);
    dict_int(0, &mut out);
    dict_int(max_w, &mut out);
    dict_int(max_h, &mut out);
    out.push(5);
    dict_real(matrix.as_slice(), &mut out);
    dict_int(0, &mut out);
    dict_int(0, &mut out);
    dict_real(matrix.as_slice(), &mut out);
    dict_int(0, &mut out);
    dict_int(0, &mut out);
    out.push(12);
    out.push(7);
    dict_int(charset_at, &mut out);
    out.push(15);
    dict_int(charstrings_at, &mut out);
    out.push(17);
    assert(out@ =~= top_dict_bytes(n as int, max_w as int, max_h as int, charset_at as int, charstrings_at as int));
    out
}

/// Whether two byte strings are the same.
fn same_bytes(a: &Vec<u8>, b: &Vec<u8>) -> (r: bool)
    ensures
        r == (a@ == b@),
{
    if a.len() != b.len() {
        return false;
    }
    let mut i: usize = 0;
    while i < a.len()
        invariant
            a@.len() == b@.len(),
            i <= a@.len(),
            forall|j: int| 0 <= j < i ==> a@[j] == b@[j],
        decreases a@.len() - i,
    {
        if a[i] != b[i] {
            return false;
        }
        i += 1;
    }
    assert(a@ =~= b@);
    true
}

/// The top DICT written with the offsets that the top DICT `top` gives to the parts after it.
fn rewrite_top(
    top: &Vec<u8>,
    n: usize,
    max_width: i32,
    max_height: i32,
    header_len: usize,
    names_len: usize,
    strings_len: usize,
    subrs_len: usize,
    charset_len: usize,
) -> (out: Vec<u8>)
    requires
        n < 0x7fff_0000,
    ensures
        out@ == top_dict_bytes(
            n as int,
            max_width as int,
            max_height as int,
            ((header_len + names_len + index_bytes(seq![top@]).len() + strings_len + subrs_len) as i32) as int,
            ((header_len + names_len + index_bytes(seq![top@]).len() + strings_len + subrs_len + charset_len) as i32) as int,
        ),
{
    let mut one: Vec<Vec<u8>> = Vec::new();
    let copy = top.clone();
    assert(copy@ =~= top@);
    one.push(copy);
    assert(byte_items(one@) =~= seq![top@]);
    let top_index = match index(one.as_slice()) {
        Ok(v) => v,
        Err(_) => Vec::new(),
    };
    let charset_at: u128 = header_len as u128 + names_len as u128 + top_index.len() as u128 + strings_len as u128
        + subrs_len as u128;
    let charstrings_at: u128 = charset_at + charset_len as u128;
    top_dict(n as i32, max_width, max_height, charset_at as i32, charstrings_at as i32)
}

/// The CFF table of the glyphs: a header, the font's name, the top DICT (written again until its
/// offsets stop changing, at most eight times), the strings, no global subroutines, the charset
/// and the charstrings.
pub fn cff(glyphs: &Vec<FontGlyph>, max_width: i32, max_height: i32) -> (r: Result<Vec<u8>, String>)
    requires
        glyphs_ok(glyphs@),
        glyphs@.len() < 0x7fff_0000,
    ensures
        match glyph_programs(glyphs@) {
            Err(e) => r matches Err(x) && x@ == e,
            Ok(p) => r matches Ok(v) && v@ == cff_bytes(glyphs@, max_width as int, max_height as int, p),
        },
{
    let n = glyphs.len();
    let ghost gs = glyphs@;
    let mut strings: Vec<Vec<u8>> = Vec::new();
    let mut programs: Vec<Vec<u8>> = Vec::new();
    programs.push(notdef());
    assert(gs.take(0) =~= Seq::<FontGlyph>::empty());
    assert(byte_items(programs@) =~= seq![notdef_bytes()]);
    assert(byte_items(strings@) =~= gs.take(0).map_values(|g: FontGlyph| glyph_name_bytes(g.surah)));
    let mut i: usize = 0;
    while i < n
        invariant
            gs == glyphs@,
            n == gs.len(),
            glyphs_ok(gs),
            i <= n,
            byte_items(strings@) == gs.take(i as int).map_values(|g: FontGlyph| glyph_name_bytes(g.surah)),
            glyph_programs(gs.take(i as int)) == Ok::<Seq<Seq<u8>>, Seq<char>>(byte_items(programs@)),
        decreases n - i,
    {
        let g = &glyphs[i];
        assert(glyph_ok(gs[i as int]));
        assert(gs.take(i + 1).drop_last() =~= gs.take(i as int));
        assert(gs.take(i + 1).last() == gs[i as int]);
        match charstring(g.surah, g.width, &g.commands) {
            Err(e) => {
                proof {
                    lemma_programs_stop(gs, i + 1);
                }
                return Err(e);
            },
            Ok(c) => {
                let ghost before = byte_items(programs@);
                let ghost cv = c@;
                programs.push(c);
                assert(byte_items(programs@) =~= before.push(cv));
            },
        }
        let ghost names_before = byte_items(strings@);
        let name = glyph_name(g.surah);
        let ghost nv = name@;
        strings.push(name);
        proof {
            let f = |g: FontGlyph| glyph_name_bytes(g.surah);
            assert(gs.take(i + 1).map_values(f) =~= gs.take(i as int).map_values(f).push(f(gs[i as int])));
            assert(byte_items(strings@) =~= names_before.push(nv));
        }
        i += 1;
    }
    assert(gs.take(n as int) =~= gs);
    let mut family: Vec<u8> = Vec::new();
    push_ascii(&mut family, "Quran Surah Names");
    let mut regular: Vec<u8> = Vec::new();
    push_ascii(&mut regular, "Regular");
    strings.push(family.clone());
    strings.push(family);
    strings.push(regular);
    assert(byte_items(strings@) =~= cff_strings(gs));
    let ghost prog = byte_items(programs@);
    let charstrings = match index(programs.as_slice()) {
        Ok(v) => v,
        Err(e) => {
            return Err(e);
        },
    };
    let charset = charset(n);
    let header: Vec<u8> = vec![1, 0, 4, 4];
    let mut ps_name: Vec<u8> = Vec::new();
    push_ascii(&mut ps_name, "QuranSurahNames-Regular");
    let mut name_list: Vec<Vec<u8>> = Vec::new();
    name_list.push(ps_name);
    assert(byte_items(name_list@) =~= seq![ascii("QuranSurahNames-Regular"@)]);
    let names = match index(name_list.as_slice()) {
        Ok(v) => v,
        Err(e) => {
            return Err(e);
        },
    };
    let strings = match index(strings.as_slice()) {
        Ok(v) => v,
        Err(e) => {
            return Err(e);
        },
    };
    let no_items: Vec<Vec<u8>> = Vec::new();
    assert(byte_items(no_items@) =~= Seq::<Seq<u8>>::empty());
    let global_subrs = match index(no_items.as_slice()) {
        Ok(v) => v,
        Err(e) => {
            return Err(e);
        },
    };
    let mut top: Vec<u8> = Vec::new();
    let mut round: usize = 0;
    while round < 8
        invariant_except_break
            round <= 8,
            settle(gs, max_width as int, max_height as int, top@, (8 - round) as nat) == settle(
                gs,
                max_width as int,
                max_height as int,
                Seq::empty(),
                8,
            ),
        invariant
            gs == glyphs@,
            n == gs.len() < 0x7fff_0000,
            header@ == cff_header(),
            names@ == cff_names(),
            strings@ == index_bytes(cff_strings(gs)),
            global_subrs@ == index_bytes(Seq::<Seq<u8>>::empty()),
            charset@ == charset_bytes(n as nat),
        ensures
            top@ == settle(gs, max_width as int, max_height as int, Seq::empty(), 8),
        decreases 8 - round,
    {
        let next = rewrite_top(&top, n, max_width, max_height, header.len(), names.len(), strings.len(), global_subrs.len(), charset.len());
        assert(next@ == next_top(gs, max_width as int, max_height as int, top@));
        if same_bytes(&next, &top) {
            break;
        }
        top = next;
        round += 1;
    }
    let mut one: Vec<Vec<u8>> = Vec::new();
    one.push(top);
    let ghost top_view = settle(gs, max_width as int, max_height as int, Seq::empty(), 8);
    assert(byte_items(one@) =~= seq![top_view]);
    let top_index = match index(one.as_slice()) {
        Ok(v) => v,
        Err(e) => {
            return Err(e);
        },
    };
    let mut out: Vec<u8> = Vec::new();
    append_bytes(&mut out, header.as_slice());
    append_bytes(&mut out, names.as_slice());
    append_bytes(&mut out, top_index.as_slice());
    append_bytes(&mut out, strings.as_slice());
    append_bytes(&mut out, global_subrs.as_slice());
    append_bytes(&mut out, charset.as_slice());
    append_bytes(&mut out, charstrings.as_slice());
    assert(out@ =~= cff_bytes(gs, max_width as int, max_height as int, prog));
    Ok(out)
}

/// The widest glyph's width (0 when there is no glyph).
pub open spec fn widest(gs: Seq<FontGlyph>) -> int
    decreases gs.len(),
{
    if gs.len() == 0 {
        0
    } else if gs.len() == 1 {
        gs[0].width as int
    } else {
        let m = widest(gs.drop_last());
        if gs.last().width > m { gs.last().width as int } else { m }
    }
}

/// The tallest glyph's height (0 when there is no glyph).
pub open spec fn tallest(gs: Seq<FontGlyph>) -> int
    decreases gs.len(),
{
    if gs.len() == 0 {
        0
    } else if gs.len() == 1 {
        gs[0].height as int
    } else {
        let m = tallest(gs.drop_last());
        if gs.last().height > m { gs.last().height as int } else { m }
    }
}

/// The advance of every glyph: half an em for `.notdef`, then each glyph's width.
pub open spec fn font_advances(gs: Seq<FontGlyph>) -> Seq<u16> {
    seq![UNITS_PER_EM / 2] + gs.map_values(|g: FontGlyph| g.width as u16)
}

pub open spec fn int_text(v: int) -> Seq<char> {
    if v < 0 { seq!['-'] + decimal((-v) as nat) } else { decimal(v as nat) }
}

pub open spec fn bounds_message(w: int, h: int) -> Seq<char> {
    "surah-name font bounds are outside OpenType limits: "@ + int_text(w) + "x"@ + int_text(h)
}

/// Whether the widest and tallest glyphs fit the font's signed 16-bit bounds.
pub open spec fn bounds_fit(w: int, h: int) -> bool {
    0 < w <= 0x7fff && 0 < h <= 0x7fff
}

/// The tables of the font, as tag and contents, in tag order.
pub open spec fn table_views(t: Seq<([u8; 4], Vec<u8>)>) -> Seq<(Seq<u8>, Seq<u8>)> {
    t.map_values(|e: ([u8; 4], Vec<u8>)| (e.0@, e.1@))
}

#[verifier::opaque]
pub open spec fn otf_tables(gs: Seq<FontGlyph>, cff_table: Seq<u8>, w: int, h: int) -> Seq<(Seq<u8>, Seq<u8>)> {
    let adv = font_advances(gs);
    seq![
        (seq![0x43u8, 0x46, 0x46, 0x20], cff_table),
        (seq![0x4fu8, 0x53, 0x2f, 0x32], os2_bytes(adv, h)),
        (seq![0x63u8, 0x6d, 0x61, 0x70], cmap_bytes()),
        (seq![0x68u8, 0x65, 0x61, 0x64], head_bytes(w, h)),
        (seq![0x68u8, 0x68, 0x65, 0x61], hhea_bytes(adv, w, h)),
        (seq![0x68u8, 0x6d, 0x74, 0x78], hmtx_bytes(adv)),
        (seq![0x6du8, 0x61, 0x78, 0x70], maxp_bytes(adv.len() as int)),
        (seq![0x6eu8, 0x61, 0x6d, 0x65], name_bytes()),
        (seq![0x70u8, 0x6f, 0x73, 0x74], post_bytes()),
    ]
}

/// Append an integer's decimal text.
fn push_int(out: &mut String, v: i32)
    ensures
        final(out)@ == old(out)@ + int_text(v as int),
{
    if v < 0 {
        push_str(out, "-");
        let a: u64 = (-(v as i64)) as u64;
        let d = decimal_string(a);
        push_str(out, d.as_str());
        proof {
            reveal_strlit("-");
        }
    } else {
        let d = decimal_string(v as u64);
        push_str(out, d.as_str());
    }
}

proof fn lemma_sum_bound(a: Seq<u16>)
    ensures
        sum_of(a) <= 0xffff * a.len(),
    decreases a.len(),
{
    if a.len() > 0 {
        lemma_sum_bound(a.drop_last());
    }
}

/// The widest width and the tallest height of the glyphs.
fn max_dims(glyphs: &Vec<FontGlyph>) -> (r: (i32, i32))
    ensures
        r.0 == widest(glyphs@),
        r.1 == tallest(glyphs@),
{
    let ghost gs = glyphs@;
    let n = glyphs.len();
    let mut max_w: i32 = 0;
    let mut max_h: i32 = 0;
    let mut i: usize = 0;
    while i < n
        invariant
            gs == glyphs@,
            n == gs.len(),
            i <= n,
            max_w == widest(gs.take(i as int)),
            max_h == tallest(gs.take(i as int)),
        decreases n - i,
    {
        let g = &glyphs[i];
        assert(gs.take(i + 1).drop_last() =~= gs.take(i as int));
        assert(gs.take(i + 1).last() == gs[i as int]);
        if i == 0 || g.width > max_w {
            max_w = g.width;
        }
        if i == 0 || g.height > max_h {
            max_h = g.height;
        }
        i += 1;
    }
    assert(gs.take(n as int) =~= gs);
    (max_w, max_h)
}

/// The advances of the font's glyphs.
fn advances_of(glyphs: &Vec<FontGlyph>) -> (advances: Vec<u16>)
    ensures
        advances@ == font_advances(glyphs@),
{
    let ghost gs = glyphs@;
    let n = glyphs.len();
    let mut advances: Vec<u16> = Vec::new();
    advances.push(UNITS_PER_EM / 2);
    let mut i: usize = 0;
    while i < n
        invariant
            gs == glyphs@,
            n == gs.len(),
            i <= n,
            advances@ == seq![UNITS_PER_EM / 2] + gs.take(i as int).map_values(|g: FontGlyph| g.width as u16),
        decreases n - i,
    {
        advances.push(glyphs[i].width as u16);
        i += 1;
        assert(gs.take(i as int).map_values(|g: FontGlyph| g.width as u16) =~= gs.take(i - 1).map_values(
            |g: FontGlyph| g.width as u16,
        ).push(gs[i - 1].width as u16));
    }
    assert(gs.take(n as int) =~= gs);
    assert(advances@ =~= font_advances(gs));
    advances
}

/// The nine tags of the font rise strictly, and only the fourth is `head`.
proof fn lemma_tags_rise(t: Seq<([u8; 4], Vec<u8>)>)
    requires
        t.len() == 9,
        t[0].0@ == seq![0x43u8, 0x46, 0x46, 0x20],
        t[1].0@ == seq![0x4fu8, 0x53, 0x2f, 0x32],
        t[2].0@ == seq![0x63u8, 0x6d, 0x61, 0x70],
        t[3].0@ == seq![0x68u8, 0x65, 0x61, 0x64],
        t[4].0@ == seq![0x68u8, 0x68, 0x65, 0x61],
        t[5].0@ == seq![0x68u8, 0x6d, 0x74, 0x78],
        t[6].0@ == seq![0x6du8, 0x61, 0x78, 0x70],
        t[7].0@ == seq![0x6eu8, 0x61, 0x6d, 0x65],
        t[8].0@ == seq![0x70u8, 0x6f, 0x73, 0x74],
    ensures
        strictly_sorted(t),
        is_head(t[3].0),
        forall|k: int| 0 <= k < t.len() && k != 3 ==> !is_head(#[trigger] t[k].0),
{
    assert forall|i: int, j: int| 0 <= i < j < t.len() implies #[trigger] tag_key(t[i].0) < #[trigger] tag_key(t[j].0) by {
        assert(tag_key(t[0].0) < tag_key(t[1].0));
        assert(tag_key(t[1].0) < tag_key(t[2].0));
        assert(tag_key(t[2].0) < tag_key(t[3].0));
        assert(tag_key(t[3].0) < tag_key(t[4].0));
        assert(tag_key(t[4].0) < tag_key(t[5].0));
        assert(tag_key(t[5].0) < tag_key(t[6].0));
        assert(tag_key(t[6].0) < tag_key(t[7].0));
        assert(tag_key(t[7].0) < tag_key(t[8].0));
    }
    assert(t[3].0@ =~= seq![0x68u8, 0x65, 0x61, 0x64]);
}

/// The nine tables of the font, in tag order.
#[verifier::rlimit(50)]
fn font_tables(glyphs: &Vec<FontGlyph>, cff_table: Vec<u8>, max_w: i32, max_h: i32) -> (t: Vec<([u8; 4], Vec<u8>)>)
    requires
        glyphs@.len() < 0xffff,
        0 < max_w <= 0x7fff,
        0 < max_h <= 0x7fff,
    ensures
        table_views(t@) == otf_tables(glyphs@, cff_table@, max_w as int, max_h as int),
        strictly_sorted(t@),
        t@.len() == 9,
        is_head(t@[3].0),
        t@[3].1@.len() >= 12,
        forall|k: int| 0 <= k < t@.len() && k != 3 ==> !is_head(#[trigger] t@[k].0),
{
    let advances = advances_of(glyphs);
    proof {
        lemma_sum_bound(advances@);
    }
    let ghost cff_view = cff_table@;
    let mut tables: Vec<([u8; 4], Vec<u8>)> = Vec::new();
    tables.push(([0x43, 0x46, 0x46, 0x20], cff_table));
    tables.push(([0x4f, 0x53, 0x2f, 0x32], os2(advances.as_slice(), max_h as u16)));
    tables.push(([0x63, 0x6d, 0x61, 0x70], cmap()));
    tables.push(([0x68, 0x65, 0x61, 0x64], head(max_w as i16, max_h as i16)));
    tables.push(([0x68, 0x68, 0x65, 0x61], hhea(advances.as_slice(), max_w as i16, max_h as i16)));
    tables.push(([0x68, 0x6d, 0x74, 0x78], hmtx(advances.as_slice())));
    tables.push(([0x6d, 0x61, 0x78, 0x70], maxp(advances.len() as u16)));
    tables.push(([0x6e, 0x61, 0x6d, 0x65], name()));
    tables.push(([0x70, 0x6f, 0x73, 0x74], post()));
    let ghost t = tables@;
    proof {
        lemma_tags_rise(t);
        assert(table_views(t) =~= otf_tables(glyphs@, cff_view, max_w as int, max_h as int)) by {
            reveal(otf_tables);
        }
    }
    tables
}

/// The OpenType/CFF font of the glyphs: its tables, in tag order, with the checksum adjustment
/// filled in.
pub fn otf(glyphs: &Vec<FontGlyph>) -> (r: Result<Vec<u8>, String>)
    requires
        glyphs_ok(glyphs@),
        glyphs@.len() < 0xffff,
    ensures
        ({
            let (w, h) = (widest(glyphs@), tallest(glyphs@));
            if !bounds_fit(w, h) {
                r matches Err(e) && e@ == bounds_message(w, h)
            } else {
                match glyph_programs(glyphs@) {
                    Err(e) => r matches Err(x) && x@ == e,
                    Ok(p) => r matches Ok(v) && exists|t: Seq<([u8; 4], Vec<u8>)>|
                        table_views(t) == otf_tables(glyphs@, cff_bytes(glyphs@, w, h, p), w, h) && sfnt_font(t)
                            == Ok::<Seq<u8>, ()>(v@),
                }
            }
        }),
{
    let (max_w, max_h) = max_dims(glyphs);
    if max_w <= 0 || max_h <= 0 || max_w > 0x7fff || max_h > 0x7fff {
        let mut e = text_of_str("surah-name font bounds are outside OpenType limits: ");
        push_int(&mut e, max_w);
        push_str(&mut e, "x");
        push_int(&mut e, max_h);
        proof {
            reveal_strlit("surah-name font bounds are outside OpenType limits: ");
            reveal_strlit("x");
        }
        return Err(e);
    }
    let cff_table = match cff(glyphs, max_w, max_h) {
        Err(e) => {
            return Err(e);
        },
        Ok(c) => c,
    };
    let mut tables = font_tables(glyphs, cff_table, max_w, max_h);
    let ghost before = tables@;
    let r = sfnt(tables.as_mut_slice());
    proof {
        lemma_sorted_unique(before, tables@);
        if r is Err {
            assert(first_head(before) == Some(3int)) by {
                assert(!is_head(before[0].0) && !is_head(before[1].0) && !is_head(before[2].0));
                assert(head_from(before, 3) == Some(3int));
                assert(head_from(before, 2) == Some(3int));
                assert(head_from(before, 1) == Some(3int));
                assert(head_from(before, 0) == Some(3int));
            }
        }
    }
    r
}

/// What the WOFF2 encoder makes of a font (quality 11, no transforms, no metadata), or None
/// when it fails.
pub uninterp spec fn woff2_encoding(font: Seq<u8>) -> Option<Seq<u8>>;

/// What the WOFF2 decoder makes of a file, or None when it fails.
pub uninterp spec fn woff2_decoding(data: Seq<u8>) -> Option<Seq<u8>>;

pub open spec fn opt_bytes(o: Option<Vec<u8>>) -> Option<Seq<u8>> {
    match o {
        Some(v) => Some(v@),
        None => None,
    }
}

/// `woofwoof::compress(font, "", 11, false)`: the WOFF2 encoding of a font at the highest
/// quality without table transforms; its result is the encoding named `woff2_encoding`.
#[verifier::external_body]
fn woff2_compress(font: &[u8]) -> (r: Option<Vec<u8>>)
    ensures
        opt_bytes(r) == woff2_encoding(font@),
{
    woofwoof::compress(font, "", 11, false)
}

/// `woofwoof::decompress(data)`: the font a WOFF2 file decodes to; its result is the decoding
/// named `woff2_decoding`.
#[verifier::external_body]
fn woff2_decompress(data: &[u8]) -> (r: Option<Vec<u8>>)
    ensures
        opt_bytes(r) == woff2_decoding(data@),
{
    woofwoof::decompress(data)
}

/// An OpenType font with CFF outlines starts with the tag "OTTO".
pub open spec fn is_cff_font(b: Seq<u8>) -> bool {
    b.len() >= 4 && b[0] == 0x4f && b[1] == 0x54 && b[2] == 0x54 && b[3] == 0x4f
}

/// The check on what a WOFF2 file decoded to: an OpenType/CFF font, or the error that says it is
/// not.
pub fn check_decoded(decoded: &[u8]) -> (r: Result<(), String>)
    ensures
        is_cff_font(decoded@) ==> r is Ok,
        !is_cff_font(decoded@) ==> (r matches Err(e) && e@ == "surah-name WOFF2 did not decode to an OpenType/CFF font"@),
{
    if decoded.len() >= 4 && decoded[0] == 0x4f && decoded[1] == 0x54 && decoded[2] == 0x54 && decoded[3] == 0x4f {
        Ok(())
    } else {
        Err(text_of_str("surah-name WOFF2 did not decode to an OpenType/CFF font"))
    }
}

/// The WOFF2 delivery of a finished OpenType font: compressed, then decoded again to check that
/// it gives an OpenType/CFF font back. Gives the WOFF2 file and the font it decodes to.
pub fn webfont(otf: &[u8]) -> (r: Result<(Vec<u8>, Vec<u8>), String>)
    ensures
        woff2_encoding(otf@) is None ==> (r matches Err(e) && e@ == "compress surah-name font as WOFF2"@),
        woff2_encoding(otf@) matches Some(w) ==> match woff2_decoding(w) {
            None => r matches Err(e) && e@ == "verify surah-name WOFF2"@,
            Some(d) => if is_cff_font(d) {
                r matches Ok(v) && v.0@ == w && v.1@ == d
            } else {
                r matches Err(e) && e@ == "surah-name WOFF2 did not decode to an OpenType/CFF font"@
            },
        },
{
    let woff2 = match woff2_compress(otf) {
        Some(w) => w,
        None => {
            return Err(text_of_str("compress surah-name font as WOFF2"));
        },
    };
    let decoded = match woff2_decompress(woff2.as_slice()) {
        Some(d) => d,
        None => {
            return Err(text_of_str("verify surah-name WOFF2"));
        },
    };
    match check_decoded(decoded.as_slice()) {
        Ok(()) => Ok((woff2, decoded)),
        Err(e) => Err(e),
    }
}

pub open spec fn count_message(n: nat) -> Seq<char> {
    "font needs 114 surah names, got "@ + decimal(n)
}

/// The surah-name webfont of the 114 title glyphs: the OpenType/CFF font, delivered as WOFF2.
/// Gives the WOFF2 file and the font it decodes to, for the outline check that follows.
pub fn build(glyphs: &Vec<FontGlyph>) -> (r: Result<(Vec<u8>, Vec<u8>), String>)
    requires
        glyphs_ok(glyphs@),
    ensures
        glyphs@.len() != 114 ==> (r matches Err(e) && e@ == count_message(glyphs@.len())),
        glyphs@.len() == 114 ==> {
            let (w, h) = (widest(glyphs@), tallest(glyphs@));
            if !bounds_fit(w, h) {
                r matches Err(e) && e@ == bounds_message(w, h)
            } else {
                match glyph_programs(glyphs@) {
                    Err(e) => r matches Err(x) && x@ == e,
                    Ok(p) => exists|t: Seq<([u8; 4], Vec<u8>)>, font: Seq<u8>|
                        table_views(t) == otf_tables(glyphs@, cff_bytes(glyphs@, w, h, p), w, h) && sfnt_font(t)
                            == Ok::<Seq<u8>, ()>(font) && match woff2_encoding(font) {
                            None => r matches Err(e) && e@ == "compress surah-name font as WOFF2"@,
                            Some(w2) => match woff2_decoding(w2) {
                                None => r matches Err(e) && e@ == "verify surah-name WOFF2"@,
                                Some(d) => if is_cff_font(d) {
                                    r matches Ok(v) && v.0@ == w2 && v.1@ == d
                                } else {
                                    r matches Err(e) && e@ == "surah-name WOFF2 did not decode to an OpenType/CFF font"@
                                },
                            },
                        },
                }
            }
        },
{
    if glyphs.len() != 114 {
        let mut e = text_of_str("font needs 114 surah names, got ");
        let d = decimal_string(glyphs.len() as u64);
        push_str(&mut e, d.as_str());
        proof {
            reveal_strlit("font needs 114 surah names, got ");
        }
        return Err(e);
    }
    let otf = match otf(glyphs) {
        Ok(f) => f,
        Err(e) => {
            return Err(e);
        },
    };
    webfont(otf.as_slice())
}

} // verus!
