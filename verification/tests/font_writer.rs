use qvp_core::font::{be16, be32, bei16, checksum, cmap, dict_int, dict_real, head, index, maxp, post, sfnt, type2_int};
use qvp_core::names::Cmd;
use qvp_core::webfont::{build, cff, charstring, font_outline, glyphs_fit, notdef, otf, FontGlyph};

fn type2(v: i32) -> Vec<u8> {
    let mut out = Vec::new();
    type2_int(v, &mut out);
    out
}

fn dict(v: i32) -> Vec<u8> {
    let mut out = Vec::new();
    dict_int(v, &mut out);
    out
}

/// The sum of a font's 32-bit big-endian words, the last one padded with zeros.
fn word_sum(b: &[u8]) -> u32 {
    let mut sum: u32 = 0;
    for chunk in b.chunks(4) {
        let mut w = [0u8; 4];
        w[..chunk.len()].copy_from_slice(chunk);
        sum = sum.wrapping_add(u32::from_be_bytes(w));
    }
    sum
}

fn square(x0: i32, y0: i32, x1: i32, y1: i32) -> Vec<Cmd> {
    vec![Cmd::MoveTo(x0, y0), Cmd::LineTo(x1, y0), Cmd::LineTo(x1, y1), Cmd::LineTo(x0, y1), Cmd::Close]
}

fn glyph(surah: u16) -> FontGlyph {
    FontGlyph { surah, width: 100, height: 50, commands: square(0, 0, 100, 50) }
}

#[test]
fn big_endian_writers() {
    let mut out = Vec::new();
    be16(&mut out, 0x1234);
    bei16(&mut out, -2);
    be32(&mut out, 0xdead_beef);
    assert_eq!(out, vec![0x12, 0x34, 0xff, 0xfe, 0xde, 0xad, 0xbe, 0xef]);
}

#[test]
fn charstring_operands_take_the_shortest_form() {
    assert_eq!(type2(0), vec![139]);
    assert_eq!(type2(107), vec![246]);
    assert_eq!(type2(-107), vec![32]);
    assert_eq!(type2(108), vec![247, 0]);
    assert_eq!(type2(1131), vec![250, 255]);
    assert_eq!(type2(-108), vec![251, 0]);
    assert_eq!(type2(1132), vec![28, 0x04, 0x6c]);
    assert_eq!(type2(-32768), vec![28, 0x80, 0x00]);
    // past 16 bits a charstring operand is a 16.16 fixed-point number
    assert_eq!(type2(40000), vec![255, 0x9c, 0x40, 0x00, 0x00]);
}

#[test]
fn dict_operands_and_reals() {
    assert_eq!(dict(0), vec![139]);
    assert_eq!(dict(500), vec![248, 136]);
    assert_eq!(dict(40000), vec![29, 0x00, 0x00, 0x9c, 0x40]);
    assert_eq!(dict(-40000), vec![29, 0xff, 0xff, 0x63, 0xc0]);
    let mut out = Vec::new();
    dict_real(b"0.0002", &mut out);
    assert_eq!(out, vec![30, 0x0a, 0x00, 0x02, 0xff]);
    let mut out = Vec::new();
    dict_real(b"-1.5", &mut out);
    assert_eq!(out, vec![30, 0xe1, 0xa5, 0xff]);
}

#[test]
fn cff_index_counts_offsets_and_data() {
    assert_eq!(index(&[]).unwrap(), vec![0, 0]);
    assert_eq!(index(&[vec![1, 2], vec![3]]).unwrap(), vec![0, 2, 1, 1, 3, 4, 1, 2, 3]);
    let big = vec![7u8; 300];
    let out = index(&[big]).unwrap();
    assert_eq!(&out[..9], &[0, 1, 2, 0, 1, 0x01, 0x2d, 7, 7]);
    assert_eq!(out.len(), 2 + 1 + 4 + 300);
}

#[test]
fn checksum_pads_the_last_word() {
    assert_eq!(checksum(&[0, 0, 0, 1, 0, 0, 0, 2]), 3);
    assert_eq!(checksum(&[1]), 0x0100_0000);
    assert_eq!(checksum(&[0xff, 0xff, 0xff, 0xff, 0, 0, 0, 2]), 1);
}

#[test]
fn tables_keep_their_fixed_contents() {
    assert_eq!(maxp(115), vec![0, 0, 0x50, 0, 0, 115]);
    assert_eq!(post().len(), 32);
    let h = head(39, 10);
    assert_eq!(h.len(), 54);
    assert_eq!(&h[12..16], &[0x5f, 0x0f, 0x3c, 0xf5]);
    assert_eq!(&h[18..20], &[0x13, 0x88]);
    let c = cmap();
    assert_eq!(&c[..4], &[0, 0, 0, 1]);
}

#[test]
fn sfnt_sorts_tables_and_fills_the_checksum_adjustment() {
    let mut tables = vec![(*b"post", post()), (*b"head", head(10, 10)), (*b"maxp", maxp(1))];
    let font = sfnt(&mut tables).unwrap();
    assert_eq!(&font[..4], b"OTTO");
    assert_eq!(&font[4..6], &[0, 3]);
    assert_eq!(&font[6..12], &[0, 32, 0, 1, 0, 16]);
    // the records come in tag order
    assert_eq!(&font[12..16], b"head");
    assert_eq!(&font[28..32], b"maxp");
    assert_eq!(&font[44..48], b"post");
    assert_eq!(tables[0].0, *b"head");
    // the whole font sums to the OpenType magic once the adjustment is written
    assert_eq!(word_sum(&font), 0xB1B0_AFBA);
}

#[test]
fn sfnt_without_a_head_table_is_an_error() {
    let mut tables = vec![(*b"post", post())];
    assert_eq!(sfnt(&mut tables).unwrap_err(), "font has no head table");
}

#[test]
fn notdef_and_charstrings() {
    assert_eq!(notdef(), vec![28, 0x09, 0xc4, 139, 139, 21, 14]);
    let cmds = vec![Cmd::MoveTo(10, 20), Cmd::LineTo(30, 20), Cmd::Close];
    assert_eq!(charstring(7, 100, &cmds).unwrap(), vec![239, 149, 159, 21, 159, 139, 5, 14]);
    let cubic = vec![Cmd::MoveTo(0, 0), Cmd::CubicTo(1, 2, 3, 4, 5, 6)];
    assert_eq!(charstring(1, 0, &cubic).unwrap(), vec![139, 139, 139, 21, 140, 141, 141, 141, 141, 141, 8, 14]);
    assert_eq!(
        charstring(7, 100, &vec![Cmd::MoveTo(0, 0), Cmd::QuadTo(1, 1, 2, 2)]).unwrap_err(),
        "surah 7 uses a quadratic curve; CFF generation would not be lossless"
    );
    assert_eq!(charstring(12, 100, &vec![Cmd::Close]).unwrap_err(), "surah 12 has no font outline");
}

#[test]
fn outlines_move_to_font_units() {
    let cmds = vec![Cmd::MoveTo(5, 7), Cmd::CubicTo(1, 2, 3, 4, 5, 6), Cmd::Close];
    assert_eq!(font_outline(&cmds, 1, 10), vec![Cmd::MoveTo(4, 3), Cmd::CubicTo(0, 8, 2, 6, 4, 4), Cmd::Close]);
}

#[test]
fn deltas_must_fit_in_32_bits() {
    assert!(glyphs_fit(&vec![glyph(1)]));
    let far = FontGlyph { surah: 1, width: 10, height: 10, commands: vec![Cmd::MoveTo(i32::MAX, 0), Cmd::LineTo(i32::MIN, 0)] };
    assert!(!glyphs_fit(&vec![far]));
    // nothing after a quadratic curve is written, so nothing after it is measured
    let stops = FontGlyph {
        surah: 1,
        width: 10,
        height: 10,
        commands: vec![Cmd::MoveTo(0, 0), Cmd::QuadTo(0, 0, 1, 1), Cmd::LineTo(i32::MIN, 0), Cmd::LineTo(i32::MAX, 0)],
    };
    assert!(glyphs_fit(&vec![stops]));
}

#[test]
fn cff_table_layout() {
    let glyphs = vec![glyph(1), glyph(2)];
    let table = cff(&glyphs, 100, 50).unwrap();
    assert_eq!(&table[..4], &[1, 0, 4, 4]);
    // the font's name index holds its PostScript name
    let name_index = index(&[b"QuranSurahNames-Regular".to_vec()]).unwrap();
    assert_eq!(&table[4..4 + name_index.len()], name_index.as_slice());
    // the strings hold the glyph names, the full and family names and the weight
    let strings = index(&[
        b"surah001".to_vec(),
        b"surah002".to_vec(),
        b"Quran Surah Names".to_vec(),
        b"Quran Surah Names".to_vec(),
        b"Regular".to_vec(),
    ])
    .unwrap();
    let found = table.windows(strings.len()).any(|w| w == strings.as_slice());
    assert!(found);
    // the charset names glyphs 1 and 2 by string ids 391 and 392, and the charstrings end it
    let charset = [0u8, 0x01, 0x87, 0x01, 0x88];
    let programs = index(&[notdef(), charstring(1, 100, &glyphs[0].commands).unwrap(), charstring(2, 100, &glyphs[1].commands).unwrap()]).unwrap();
    let tail: Vec<u8> = charset.iter().copied().chain(programs.iter().copied()).collect();
    assert!(table.ends_with(&tail));
    let bad = vec![glyph(1), FontGlyph { surah: 9, width: 10, height: 10, commands: vec![] }];
    assert_eq!(cff(&bad, 100, 50).unwrap_err(), "surah 9 has no font outline");
}

#[test]
fn otf_bounds_and_tables() {
    let flat = FontGlyph { surah: 3, width: 0, height: 10, commands: square(0, 0, 10, 10) };
    assert_eq!(otf(&vec![flat]).unwrap_err(), "surah-name font bounds are outside OpenType limits: 0x10");
    let wide = FontGlyph { surah: 3, width: 40000, height: -5, commands: square(0, 0, 10, 10) };
    assert_eq!(otf(&vec![wide]).unwrap_err(), "surah-name font bounds are outside OpenType limits: 40000x-5");
    let font = otf(&vec![glyph(1), glyph(2)]).unwrap();
    assert_eq!(&font[..4], b"OTTO");
    assert_eq!(&font[4..6], &[0, 9]);
    let tags: Vec<&[u8]> = (0..9).map(|k| &font[12 + 16 * k..16 + 16 * k]).collect();
    assert_eq!(tags, vec![&b"CFF "[..], b"OS/2", b"cmap", b"head", b"hhea", b"hmtx", b"maxp", b"name", b"post"]);
    assert_eq!(word_sum(&font), 0xB1B0_AFBA);
}

#[test]
fn the_font_needs_every_surah() {
    assert_eq!(build(&vec![glyph(1)]).unwrap_err(), "font needs 114 surah names, got 1");
}

#[test]
fn the_webfont_is_woff2_of_an_opentype_cff_font() {
    let glyphs: Vec<FontGlyph> = (1..=114).map(glyph).collect();
    let plain = otf(&glyphs).unwrap();
    let (woff2, decoded) = build(&glyphs).unwrap();
    assert_eq!(&woff2[..4], b"wOF2");
    assert_ne!(woff2, plain);
    assert_eq!(&decoded[..4], b"OTTO");
}

#[test]
fn tables_sharing_a_tag_keep_their_order() {
    let mut tables = vec![
        (*b"zzzz", vec![1, 1, 1, 1]),
        (*b"head", head(10, 10)),
        (*b"aaaa", vec![2, 2, 2, 2]),
        (*b"zzzz", vec![3, 3, 3, 3]),
        (*b"aaaa", vec![4, 4, 4, 4]),
    ];
    sfnt(&mut tables).unwrap();
    let order: Vec<([u8; 4], u8)> = tables.iter().map(|(t, b)| (*t, b[0])).collect();
    assert_eq!(order[0], (*b"aaaa", 2));
    assert_eq!(order[1], (*b"aaaa", 4));
    assert_eq!(order[2].0, *b"head");
    assert_eq!(order[3], (*b"zzzz", 1));
    assert_eq!(order[4], (*b"zzzz", 3));
}
