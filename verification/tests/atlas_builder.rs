use qvp_core::atlas::Builder;
use qvp_core::model::{AyahRec, DecoKind, DecoRec, IBox, LineRec, PageData, PathKind, PathRec, WordRec, WordStrings, NONE_U16};

fn unit() -> IBox {
    IBox { x0: 0, y0: 0, x1: 10, y1: 10 }
}

fn word(surah: u16, ayah: u16, word: u16) -> WordRec {
    WordRec { surah, ayah, word, line_index: 0, ayah_index: 0, first_path: 0, n_paths: 1, bbox: unit() }
}

fn ayah(surah: u16, ayah: u16, rubu_al_hizb: u16) -> AyahRec {
    AyahRec {
        surah,
        ayah,
        fragment: 1,
        fragments: 1,
        flags: 0,
        first_word: 0,
        n_words: 0,
        ayah_mark_decoration: NONE_U16,
        rubu_al_hizb,
        bbox: unit(),
    }
}

fn banner(surah: u16, text: u16) -> DecoRec {
    DecoRec { kind: DecoKind::SurahName, surah, ayah: 0, text, first_path: 0, n_paths: 1, line: 0, bbox: unit() }
}

fn page(number: u16, words: Vec<WordRec>, ayahs: Vec<AyahRec>, decorations: Vec<DecoRec>, strings: Vec<&str>) -> PageData {
    let n = words.len();
    PageData {
        quant: 100,
        page: number,
        lines: vec![LineRec { line_number: 1, first_word: 0, n_words: n as u16, bbox: unit() }],
        ayahs,
        words,
        word_strings: vec![WordStrings { text: NONE_U16, rasm_imlai: NONE_U16, qpc: NONE_U16, rasm: NONE_U16, search: NONE_U16 }; n],
        paths: vec![PathRec { kind: PathKind::Body, mark: 0, family: 0, category: 0, bbox: unit() }],
        decorations,
        strings: strings.iter().map(|s| s.to_string()).collect(),
    }
}

#[test]
fn the_atlas_gathers_pages_surahs_and_quarters() {
    let mut b = Builder::new();
    b.add_page(&page(
        5,
        vec![word(1, 6, 1), word(2, 1, 1), word(2, 2, 3)],
        vec![ayah(2, 1, 0), ayah(2, 2, 3)],
        vec![banner(2, 0), banner(9, NONE_U16)],
        vec!["البقرة|Al-Baqarah|The Cow|madinah|286"],
    ));
    b.add_page(&page(
        4,
        vec![word(1, 1, 1)],
        vec![ayah(1, 1, 1), ayah(1, 2, 3)],
        vec![banner(1, 0), banner(3, 1)],
        vec!["الفاتحة|Al-Fatihah|The Opening|makkah|7", "too|few"],
    ));
    b.add_page(&page(6, vec![], vec![], vec![], vec![]));
    let atlas = b.build();
    assert_eq!(atlas.pages.iter().map(|p| p.page).collect::<Vec<_>>(), vec![4, 5]);
    assert_eq!(atlas.pages[1].first, (1, 6));
    assert_eq!(atlas.pages[1].last, (2, 2));
    assert_eq!(atlas.pages[1].n_words, 3);
    assert_eq!(atlas.surahs.len(), 2);
    let fatihah = &atlas.surahs[0];
    assert_eq!((fatihah.n, fatihah.first_page, fatihah.ayah_count, fatihah.place), (1, 4, 7, 0));
    assert_eq!(fatihah.latin, "Al-Fatihah");
    let baqarah = &atlas.surahs[1];
    assert_eq!((baqarah.n, baqarah.first_page, baqarah.ayah_count, baqarah.place), (2, 5, 286, 1));
    assert_eq!(baqarah.english, "The Cow");
    // the first ayah seen with a quarter number keeps it
    assert_eq!(atlas.rubu_al_hizbs.len(), 2);
    assert_eq!((atlas.rubu_al_hizbs[0].rubu_al_hizb, atlas.rubu_al_hizbs[0].page), (1, 4));
    assert_eq!(
        (atlas.rubu_al_hizbs[1].rubu_al_hizb, atlas.rubu_al_hizbs[1].surah, atlas.rubu_al_hizbs[1].ayah, atlas.rubu_al_hizbs[1].page),
        (3, 2, 2, 5)
    );
}

#[test]
fn a_banner_with_unknown_place_and_count() {
    let mut b = Builder::default();
    b.add_page(&page(9, vec![word(7, 1, 1)], vec![], vec![banner(7, 0)], vec!["a|b|c|nowhere|many|extra"]));
    let atlas = b.build();
    assert_eq!(atlas.surahs.len(), 1);
    assert_eq!((atlas.surahs[0].place, atlas.surahs[0].ayah_count), (255, 0));
    assert_eq!(atlas.surahs[0].arabic, "a");
}
