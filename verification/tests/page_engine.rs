use qvp_core::model::{
    AyahRec, DecoKind, DecoRec, IBox, LineRec, PageData, PathKind, PathRec, WordRec, WordStrings, AF_HIZB_START,
    AF_JUZ_START, AF_RUBU_AL_HIZB_START, MARK_SAJDAH_LINE, NONE_U16,
};
use qvp_core::style::{Rgba, DEFAULT_INK};
use qvp_core::{
    Form, MaskMode, Page, Paint, SearchMode, SearchOptions, Selection, Selector, Target, Theme, LAYER_THEME,
};

const MARK_FATHAH: u8 = 1;
const MARK_DOT: u8 = 16;
const FAMILY_DIACRITIC: u8 = 1;
const FAMILY_DOTS: u8 = 3;
const CATEGORY_HARAKAH: u8 = 1;
const CATEGORY_LETTER_DOT: u8 = 3;

fn square(x0: i32, y0: i32, x1: i32, y1: i32) -> IBox {
    IBox { x0, y0, x1, y1 }
}

fn union(a: IBox, b: IBox) -> IBox {
    let mut r = a;
    r.union(&b);
    r
}

fn path(kind: PathKind, mark: u8, family: u8, category: u8, bbox: IBox) -> PathRec {
    PathRec { kind, mark, family, category, bbox }
}

fn forms(text: u16, plain: u16) -> WordStrings {
    WordStrings { text, rasm_imlai: text, qpc: text, rasm: plain, search: plain }
}

/// Two words on one line: A = [10,20]×[10,20] units (word 1:1:1), B = [30,40]×[10,20]
/// (word 1:1:2) with two marks above it; plus a second line with word C (1:2:1).
fn page_data() -> PageData {
    let a = square(1000, 1000, 2000, 2000);
    let b_body = square(3000, 1000, 4000, 2000);
    let fathah = square(3200, 500, 3400, 700);
    let dot = square(3600, 500, 3800, 700);
    let c = square(1000, 5000, 4000, 6000);
    let b = union(union(b_body, fathah), dot);
    let l1 = union(a, b);
    let paths = vec![
        path(PathKind::Body, 0, 0, 0, a),
        path(PathKind::Body, 0, 0, 0, b_body),
        path(PathKind::Mark, MARK_FATHAH, FAMILY_DIACRITIC, CATEGORY_HARAKAH, fathah),
        path(PathKind::Mark, MARK_DOT, FAMILY_DOTS, CATEGORY_LETTER_DOT, dot),
        path(PathKind::Body, 0, 0, 0, c),
    ];
    let strings: Vec<String> =
        ["ذَٰلِكَ", "ذلك", "ٱلْكِتَٰبُ", "الكتاب", "لَا", "لا"].iter().map(|s| s.to_string()).collect();
    PageData {
        quant: 100,
        page: 1,
        lines: vec![
            LineRec { line_number: 1, first_word: 0, n_words: 2, bbox: l1 },
            LineRec { line_number: 2, first_word: 2, n_words: 1, bbox: c },
        ],
        ayahs: vec![
            AyahRec {
                surah: 1,
                ayah: 1,
                fragment: 1,
                fragments: 1,
                flags: AF_JUZ_START | AF_HIZB_START | AF_RUBU_AL_HIZB_START,
                first_word: 0,
                n_words: 2,
                ayah_mark_decoration: NONE_U16,
                rubu_al_hizb: 1,
                bbox: l1,
            },
            AyahRec {
                surah: 1,
                ayah: 2,
                fragment: 1,
                fragments: 1,
                flags: 0,
                first_word: 2,
                n_words: 1,
                ayah_mark_decoration: NONE_U16,
                rubu_al_hizb: 0,
                bbox: c,
            },
        ],
        words: vec![
            WordRec { surah: 1, ayah: 1, word: 1, line_index: 0, ayah_index: 0, first_path: 0, n_paths: 1, bbox: a },
            WordRec { surah: 1, ayah: 1, word: 2, line_index: 0, ayah_index: 0, first_path: 1, n_paths: 3, bbox: b },
            WordRec { surah: 1, ayah: 2, word: 1, line_index: 1, ayah_index: 1, first_path: 4, n_paths: 1, bbox: c },
        ],
        word_strings: vec![forms(0, 1), forms(2, 3), forms(4, 5)],
        paths,
        decorations: vec![],
        strings,
    }
}

fn page() -> Page {
    Page::load(page_data()).expect("the fixture is a well-formed page")
}

/// The colour a path is drawn in once every transition has finished.
fn color_of(p: &Page, pi: u32) -> Rgba {
    p.target_paint(pi).color
}

/// A tall sajdah sign on line 1 must not pull the line's centre. An ayah mark stored
/// without a line takes the line of the ayah it closes, not the nearest centre. The
/// sajdah line takes the line of the word under it, not the sign's line.
#[test]
fn decorations_follow_their_line() {
    let mut d = page_data();
    // the sign spans from above line 1 to the middle of line 2
    let sajdah = d.paths.len() as u32;
    let sb = square(200, 200, 400, 5500);
    d.paths.push(path(PathKind::Ornament, 0, 0, 0, sb));
    // the sajdah line sits over word C on line 2, though its sign is on line 1
    let sajdah_line = d.paths.len() as u32;
    let ob = square(1500, 4900, 3500, 4950);
    d.paths.push(path(PathKind::Mark, MARK_SAJDAH_LINE, 0, 0, ob));
    // the mark sits low: its centre (y=40) is nearer line 2 (55) than line 1 (15)
    let mark = d.paths.len() as u32;
    let mb = square(4200, 3800, 4600, 4200);
    d.paths.push(path(PathKind::AyahMarkOrnament, 0, 0, 0, mb));
    d.decorations = vec![
        DecoRec {
            kind: DecoKind::SajdahMark,
            surah: 1,
            ayah: 1,
            text: NONE_U16,
            first_path: sajdah,
            n_paths: 2,
            line: 0,
            bbox: union(sb, ob),
        },
        DecoRec {
            kind: DecoKind::AyahMark,
            surah: 1,
            ayah: 1,
            text: NONE_U16,
            first_path: mark,
            n_paths: 1,
            line: NONE_U16,
            bbox: mb,
        },
    ];
    d.ayahs[0].ayah_mark_decoration = 1;
    let p = Page::load(d).unwrap();
    assert_eq!(p.path_line(sajdah), 0);
    assert_eq!(p.path_line(sajdah_line), 1);
    assert_eq!(p.path_line(mark), 0);
}

#[test]
fn styles_layers_handles_and_subword() {
    let mut p = page();
    assert!(p.styles.is_empty());
    let h_ayah = p.style(Selector::Ayah(1, 1), Paint::new(0x0000ffff));
    let h_word = p.style(Selector::Word(1), Paint::new(0x00ff00ff));
    let h_fam = p.style(Selector::Family(FAMILY_DIACRITIC), Paint::new(0xff0000ff));
    assert_eq!(color_of(&p, 0), 0x0000ffff, "ayah applies to word 0");
    assert_eq!(color_of(&p, 1), 0x00ff00ff, "word beats ayah");
    assert_eq!(color_of(&p, 2), 0x00ff00ff, "word beats family for its mark");
    p.remove_style(h_word);
    assert_eq!(color_of(&p, 2), 0x0000ffff, "ayah beats family");
    p.remove_style(h_ayah);
    assert_eq!(color_of(&p, 2), 0xff0000ff, "family applies to the mark only");
    // higher layer wins regardless of specificity
    let h_theme = p.style_in(LAYER_THEME, Selector::Page, Paint::new(0x111111ff));
    assert_eq!(color_of(&p, 2), 0x111111ff);
    p.remove_style(h_theme);
    p.remove_style(h_fam);
    // sub-word: the 2nd mark (index 1) of word 1 is the dot
    let h = p.style(Selector::WordMark(1, 1), Paint::new(0xabcdefff));
    assert_eq!(color_of(&p, 3), 0xabcdefff);
    assert_eq!(color_of(&p, 2), DEFAULT_INK);
    p.remove_style(h);
    let h = p.style(Selector::WordMarkNamed(1, MARK_FATHAH, 0), Paint::new(0x123456ff));
    assert_eq!(color_of(&p, 2), 0x123456ff);
    p.remove_style(h);
    let h = p.style(Selector::Category(CATEGORY_LETTER_DOT), Paint::new(0x0a0b0cff));
    assert_eq!(color_of(&p, 3), 0x0a0b0cff);
    let styled: Vec<(u32, Rgba)> =
        (0..5u32).filter_map(|pi| p.rule_paint(pi).map(|paint| (pi, paint.color))).collect();
    assert_eq!(styled, vec![(3, 0x0a0b0cff)]);
    p.recolor_style(h, Paint::new(0x0d0e0fff));
    assert_eq!(color_of(&p, 3), 0x0d0e0fff);
    p.remove_style(h);
    assert!(p.styles.is_empty());
    let h = p.hide_selector(Selector::Path(2));
    assert_eq!(color_of(&p, 2) & 0xff, 0, "alpha 0 hides");
    p.remove_style(h);
    // theme handle undoes as a whole
    let t = p.theme(&Theme { ink: Some(0x222222ff), dots: Some(0xcc0000ff), ..Default::default() });
    assert_eq!(color_of(&p, 0), 0x222222ff);
    assert_eq!(color_of(&p, 3), 0xcc0000ff);
    p.remove_style(t);
    assert_eq!(color_of(&p, 3), DEFAULT_INK);
}

#[test]
fn text_search_selection_citation() {
    let p = page();
    assert_eq!(p.text_of(&[0, 1, 2], Form::RasmUthmani, " ", "\n"), "ذَٰلِكَ ٱلْكِتَٰبُ\nلَا");
    assert_eq!(p.text_of(&p.target_words(&Target::Page), Form::Search, " ", " / "), "ذلك الكتاب / لا");
    let m = p.search("الكتاب", &SearchOptions::default());
    assert_eq!(m.len(), 1);
    assert_eq!(m[0].word, 1);
    assert!(p.search("كتاب", &SearchOptions { mode: SearchMode::Exact, ..Default::default() }).is_empty());
    assert_eq!(
        p.search("الكتب", &SearchOptions { loose: false, ..Default::default() }).len(),
        0,
        "strict pass: different letters"
    );
    assert_eq!(p.search("الكتب", &SearchOptions::default()).len(), 1, "loose pass drops bare alef");
    assert_eq!(p.search("ذَلِكَ", &SearchOptions::default())[0].word, 0, "query is normalised");
    let s = Selection { anchor: Some(2), focus: Some(0) };
    assert_eq!(s.words(), vec![0, 1, 2]);
    assert_eq!(p.citation(&s.words()), "1:1-2");
    assert_eq!(p.citation(&[1]), "1:1");
    assert_eq!(p.divisions().iter().map(|d| (d.kind, d.n)).collect::<Vec<_>>(), vec![(0, 1), (1, 1), (3, 1)]);
    assert_eq!(p.ayah_keys(), vec![(1, 1), (1, 2)]);
    assert_eq!(p.recite_map(1, 1, 2), Some(vec![0, 1]));
    assert_eq!(p.recite_map(1, 1, 3), None, "count mismatch → follow whole");
}

#[test]
fn mask_reveal_and_crop() {
    let mut p = page();
    p.mask(&Target::Ayah(1, 1), MaskMode::Hide);
    assert_eq!(p.mask_hidden_count(), 2);
    assert_eq!(color_of(&p, 0) & 0xff, 0);
    assert_eq!(p.reveal_next(1), 1);
    assert_ne!(color_of(&p, 0) & 0xff, 0);
    assert_eq!(color_of(&p, 1) & 0xff, 0);
    p.unmask();
    assert_eq!(color_of(&p, 1), DEFAULT_INK);
    p.mask(&Target::Word(2), MaskMode::Block);
    assert_eq!(color_of(&p, 4), DEFAULT_INK, "block mode keeps ink; host draws the box");
    assert_eq!(p.mask_words(), &[2]);
    p.unmask();
    // reveal: grey page, window of 1 at step 0
    let steps = p.reveal_start(1, false, 0xc9c4b8ff, 0x000000ff, true, 0);
    assert_eq!(steps, 3);
    p.reveal_goto(0);
    assert_eq!(color_of(&p, 0), 0x000000ff);
    assert_eq!(color_of(&p, 1), 0xc9c4b8ff);
    let h = p.style(Selector::Word(1), Paint::new(0xff0000ff));
    assert_eq!(color_of(&p, 1), 0xff0000ff, "explicit rules beat reveal grey");
    p.remove_style(h);
    p.reveal_stop();
    assert_eq!(color_of(&p, 1), DEFAULT_INK);
}

#[test]
fn hiding_back_undoes_a_reveal() {
    let mut p = page();
    p.mask(&Target::Page, MaskMode::Hide);
    let before = p.mask_hidden();
    assert_eq!(before, vec![0, 1, 2]);
    assert_eq!(p.reveal_next(2), 2);
    assert_eq!(p.mask_hidden(), vec![2]);
    assert_eq!(p.hide_back(2), 2);
    assert_eq!(p.mask_hidden(), before);
    assert!(p.reveal_word(1));
    assert!(!p.reveal_word(1), "already shown");
    assert!(p.hide_word(1));
    p.reveal_all();
    assert_eq!(p.mask_hidden_count(), 0);
    p.hide_all();
    assert_eq!(p.mask_hidden_count(), 3);
}

#[test]
fn malformed_records_do_not_load() {
    let mut d = page_data();
    d.words[2].n_paths = 9;
    assert!(Page::load(d).is_none(), "a word's paths lie past the page's paths");
    let mut d = page_data();
    d.word_strings[0].text = 40;
    assert!(Page::load(d).is_none(), "a string index past the strings");
    let mut d = page_data();
    d.lines.clear();
    d.words.iter_mut().for_each(|w| w.line_index = 0);
    assert!(Page::load(d).is_none(), "a word's line is missing");
    let mut d = page_data();
    d.paths[0].bbox.x1 = i32::MAX;
    assert!(Page::load(d).is_none(), "a box past the coordinate limit");
    assert!(Page::load(page_data()).is_some());
}

#[test]
fn words_and_ayahs_are_found_by_key() {
    let p = page();
    assert_eq!(p.find_word(1, 1, 2), Some(1));
    assert_eq!(p.find_word(1, 3, 1), None);
    assert_eq!(p.word_text(1), "ٱلْكِتَٰبُ");
    assert_eq!(p.ayah_words(1, 1), vec![0, 1]);
    assert_eq!(p.next_word(1), Some(2));
    assert_eq!(p.prev_word(0), None);
    assert_eq!(p.ayah_word_count(1, 2), (1, true));
    assert_eq!(p.target_words(&Target::Word(1)), vec![1]);
    assert_eq!(p.target_words(&Target::Words(vec![2, 0, 2, 7])), vec![0, 2]);
}

/// The page with a sajdah sign in the margin of line 1, its stroke over word C on line 2, and
/// the medallion that closes ayah 1:1.
fn sajdah_page() -> Page {
    let mut d = page_data();
    d.paths.push(path(PathKind::Ornament, 0, 0, 0, square(200, 200, 400, 5500)));
    d.paths.push(path(PathKind::Mark, MARK_SAJDAH_LINE, 0, 0, square(1500, 4900, 3500, 4950)));
    d.paths.push(path(PathKind::AyahMarkOrnament, 0, 0, 0, square(4200, 3800, 4600, 4200)));
    d.decorations = vec![
        DecoRec {
            kind: DecoKind::SajdahMark,
            surah: 1,
            ayah: 1,
            text: NONE_U16,
            first_path: 5,
            n_paths: 2,
            line: 0,
            bbox: union(square(200, 200, 400, 5500), square(1500, 4900, 3500, 4950)),
        },
        DecoRec {
            kind: DecoKind::AyahMark,
            surah: 1,
            ayah: 1,
            text: NONE_U16,
            first_path: 7,
            n_paths: 1,
            line: NONE_U16,
            bbox: square(4200, 3800, 4600, 4200),
        },
    ];
    d.ayahs[0].ayah_mark_decoration = 1;
    Page::load(d).unwrap()
}

#[test]
fn strokes_and_the_words_they_are_drawn_over() {
    let p = sajdah_page();
    assert_eq!(p.sajdah_line_decos(), vec![true, false]);
    assert_eq!(p.sajdah_line_paths(), vec![false, false, false, false, false, false, true, false]);
    assert_eq!(p.deco_other_paths(0), vec![5]);
    assert_eq!(p.deco_other_paths(1), vec![7]);
    assert_eq!(p.deco_mark_bbox(0), square(200, 200, 400, 5500));
    assert_eq!(p.sajdah_line_words(0), vec![2]);
    assert!(p.sajdah_line_words(1).is_empty());
    assert_eq!(p.line_words(0), vec![(1000, 0), (3000, 1)]);
    assert_eq!(p.line_words(1), vec![(1000, 2)]);
}

#[test]
fn marks_travel_with_their_words() {
    let p = sajdah_page();
    // nothing ends left of the sign's reach, so the nearest word of its line is taken
    assert_eq!(p.word_after_path(5, 50), Some(0));
    // the first word starting right of the sign
    assert_eq!(p.word_before_path(5, 50), Some(0));
    // the dot over word B: B starts 800 units short of the dot's right edge, within a slack of 1000
    assert_eq!(p.word_before_path(3, 1000), Some(1));
    assert_eq!(p.word_before_path(99, 0), None);
    // the medallion closes ayah 1:1 at word B, and the sajdah mark travels with it
    assert_eq!(p.deco_anchor_words(50), vec![1, 1]);
}

#[test]
fn medallions_with_their_ornament_boxes() {
    let p = sajdah_page();
    let ms = p.markers();
    assert_eq!(ms.len(), 1);
    let m = ms[0];
    assert_eq!((m.deco, m.sura, m.ayah, m.line), (1, 1, 1, 0));
    assert_eq!(m.bbox, square(4200, 3800, 4600, 4200));
    assert_eq!((m.ornament_path, m.numeral_path), (7, u32::MAX));
    assert_eq!(p.marker_of(1, 1), Some(m));
    assert_eq!(p.marker_of(1, 2), None);
    assert!(page().markers().is_empty());
}
