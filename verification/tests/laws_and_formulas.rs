use qvp_core::colors::{css_hex, css_rgba};
use qvp_core::convert::{json_str, merge_words_index, words_json, WordText};
use qvp_core::model::{DecoKind, DecoRec, IBox, PageData, NONE_U16};
use qvp_core::names::{
    attribute, decimal_fixed, decoration_metadata, escaped, font_css, metadata, number, quant_number, shifted, Cmd,
};
use qvp_core::style::{Paint, Selector, StyleEngine, DEFAULT_INK};
use qvp_core::json::JsonReader;
use qvp_core::zoom_levels::hash;
use qvp_core::{is_arabic_mark, normalize_query};
use qvp_core::{parse_words_sidecar, strip_marks, Form, Selection, ZoomMode};

fn word(key: &str, uthmani: &str) -> WordText {
    WordText {
        word_key: key.to_string(),
        rasm_uthmani: uthmani.to_string(),
        rasm_imlai: String::new(),
        qpc: String::new(),
        rasm: String::new(),
        search: String::new(),
    }
}

#[test]
fn removing_a_handle_undoes_its_rules() {
    let mut e = StyleEngine::new();
    let a = e.add(0, Selector::Page, Paint::new(0x112233ff));
    assert_eq!(e.len(), 1);
    let b = e.add_many(0, vec![Selector::Word(1), Selector::Word(2)], Paint::new(0x445566ff));
    assert_eq!(e.len(), 3);
    assert_ne!(a, b);
    assert_eq!(e.remove(b), 2);
    assert_eq!(e.len(), 1);
    assert_eq!(e.handles(), vec![a]);
    assert_eq!(e.remove(b), 0, "a handle undoes once");
    e.set_default_ink(0x010203ff);
    e.clear();
    assert!(e.is_empty());
    assert_ne!(DEFAULT_INK, 0);
}

#[test]
fn a_form_reads_back_from_its_own_number() {
    let forms = [Form::RasmUthmani, Form::RasmImlai, Form::Qpc, Form::Rasm, Form::Search];
    for (code, f) in forms.iter().enumerate() {
        assert_eq!(Form::from_u8(code as u8), *f);
    }
    assert_eq!(Form::from_u8(200), Form::RasmUthmani);
    assert_eq!(Form::Rasm.as_str(), "rasm");
    assert_eq!(Form::RasmImlai.as_str(), "rasm_imlai");
    assert_eq!(ZoomMode::from_u32(1), ZoomMode::Continuous);
    assert_eq!(ZoomMode::from_u32(2), ZoomMode::Magnify);
    assert_eq!(ZoomMode::from_u32(9), ZoomMode::Stepped);
}

#[test]
fn content_hash_folds_each_byte_then_multiplies() {
    assert_eq!(hash(&[], 5), 5);
    assert_eq!(hash(&[1], 0), 0x100_0000_01b3);
    assert_eq!(hash(&[1, 2], 0), 0x3_6400_0002_dfc3);
    assert_eq!(hash(b"qvp", 0xcbf2_9ce4_8422_2325), 0x709a_4b19_52cf_788a);
}

#[test]
fn fixed_point_numbers() {
    assert_eq!(decimal_fixed(1_500_000, 1_000_000), "1.5");
    assert_eq!(decimal_fixed(-250, 100), "-2.5");
    assert_eq!(decimal_fixed(3, 1000), "0.003");
    assert_eq!(decimal_fixed(0, 7), "0");
    assert_eq!(decimal_fixed(i64::MIN, 1), "-9223372036854775808");
    assert_eq!(number(2_000_000), "2");
    assert_eq!(number(-1), "-0.000001");
    assert_eq!(quant_number(150, 100), "1.5");
    // the fraction takes as many digits as the scale has zeros
    assert_eq!(quant_number(-3, 4), "-0.3");
}

#[test]
fn json_strings_escape_quotes_backslashes_and_controls() {
    assert_eq!(json_str("a\"b\\c\nd\u{1}é"), "\"a\\\"b\\\\c\\nd\\u0001é\"");
    assert_eq!(json_str(""), "\"\"");
}

#[test]
fn xml_escapes() {
    let mut out = String::new();
    escaped(&mut out, "a<b>&'\"", false);
    assert_eq!(out, "a&lt;b&gt;&amp;'\"");
    let mut out = String::new();
    attribute(&mut out, "data-x", "'\"&");
    assert_eq!(out, " data-x=\"&apos;&quot;&amp;\"");
}

#[test]
fn rejects_incomplete_metadata() {
    assert!(metadata("اسم||||", 1).unwrap_err().contains("invalid name metadata"));
    assert_eq!(metadata("a|b|c|d|x", 4).unwrap_err(), "surah 4 has invalid name metadata");
    assert_eq!(metadata("a|b|c", 4).unwrap_err(), "surah 4 has invalid name metadata");
    let m = metadata("اسم|Name|Light & Opening|makkah|7", 1).unwrap();
    assert_eq!(m.arabic, "اسم");
    assert_eq!(m.english, "Light & Opening");
    assert_eq!(m.ayah_count, "7");
    // the fifth field takes the rest, separators included
    assert!(metadata("a|b|c|d|7|8", 2).is_err());
}

#[test]
fn the_font_style_sheet_names_every_surah() {
    let css = font_css();
    assert!(css.starts_with("@font-face{font-family:'Quran Surah Names';"));
    assert!(css.contains(".qvp-surah-name[data-surah=\"1\"]::before{content:\"\\e001\"}\n"));
    assert!(css.ends_with(".qvp-surah-name[data-surah=\"114\"]::before{content:\"\\e072\"}\n"));
    assert_eq!(css.lines().count(), 2 + 114);
}

#[test]
fn commands_shift() {
    assert_eq!(shifted(Cmd::MoveTo(1, 2), 10, -2), Cmd::MoveTo(11, 0));
    assert_eq!(shifted(Cmd::CubicTo(1, 2, 3, 4, 5, 6), 1, 1), Cmd::CubicTo(2, 3, 4, 5, 6, 7));
    assert_eq!(shifted(Cmd::Close, 5, 5), Cmd::Close);
}

#[test]
fn merging_the_words_index() {
    let mut words = vec![word("1:1:1", ""), word("1:1:2", "x"), word("9:9:9", "")];
    let mut warnings = Vec::new();
    let index = r#"{"1:1:1": {"rasm_uthmani": "بِسۡمِ", "search": "بسم"}, "1:1:2": {"rasm_uthmani": "y", "qpc": "q"}}"#;
    let n = merge_words_index(&mut words, index.as_bytes(), &mut warnings);
    assert_eq!(n, 2);
    assert_eq!(words[0].rasm_uthmani, "بِسۡمِ");
    assert_eq!(words[0].search, "بسم");
    assert_eq!(words[1].rasm_uthmani, "x", "the page's text is never replaced");
    assert_eq!(words[1].qpc, "q");
    assert_eq!(
        warnings,
        vec![
            "word 1:1:2: rasm_uthmani differs between page and words index".to_string(),
            "word 9:9:9: not in the words index".to_string(),
        ]
    );
    let mut warnings = Vec::new();
    assert_eq!(merge_words_index(&mut words, b"{not json", &mut warnings), 0);
    assert_eq!(warnings, vec!["words index: not valid JSON, ignored".to_string()]);
    let json = words_json(&vec![word("1:1:1", "a\"b")]);
    assert!(json.starts_with('{') && json.ends_with('}'));
    assert!(json.contains("\"1:1:1\""));
    assert!(json.contains("a\\\"b"));
}

#[test]
fn the_sidecar_reads_escapes_and_utf8() {
    let v = parse_words_sidecar(r#"{"k": {"search": "\u0627\u0644", "qpc": "\ud83d\ude00", "rasm": "ذلك"}}"#.as_bytes()).unwrap();
    assert_eq!(v[0].1.search.as_deref(), Some("ال"));
    assert_eq!(v[0].1.qpc.as_deref(), Some("😀"));
    assert_eq!(v[0].1.rasm.as_deref(), Some("ذلك"));
    assert!(parse_words_sidecar(br#"{"k": {"search": "\udc00"}}"#).is_none());
    assert!(parse_words_sidecar(&[b'{', b'"', 0xff, b'"', b':', b'1', b'}']).is_none());
}

#[test]
fn stripping_marks_keeps_the_letters() {
    assert_eq!(strip_marks("بِسۡمِ ٱللَّهِ"), "بسم ٱلله");
    assert_eq!(strip_marks(""), "");
}

#[test]
fn a_selection_runs_between_its_ends() {
    assert_eq!(Selection { anchor: Some(1), focus: Some(3) }.words(), vec![1, 2, 3]);
    assert_eq!(Selection { anchor: Some(3), focus: Some(3) }.words(), vec![3]);
    assert!(Selection { anchor: None, focus: Some(3) }.words().is_empty());
    assert!(Selection { anchor: None, focus: None }.is_empty());
}

#[test]
fn css_colours_read_and_write() {
    assert_eq!(css_rgba("#fff"), 0xffff_ffff);
    assert_eq!(css_rgba("#ff000080"), 0xff00_0080);
    assert_eq!(css_rgba(" #1a2b3c\n"), 0x1a2b_3cff);
    assert_eq!(css_rgba("abc"), 0xaabb_ccff);
    assert_eq!(css_rgba("#abcd"), 0xaabb_ccdd);
    assert_eq!(css_rgba("+12345"), 0x0123_45ff);
    assert_eq!(css_rgba("none"), 0);
    assert_eq!(css_rgba(" NoNe "), 0);
    assert_eq!(css_rgba(""), 0);
    assert_eq!(css_rgba("\u{3000}"), 0);
    assert_eq!(css_rgba("#12"), 0xff);
    assert_eq!(css_rgba("#zzzzzz"), 0xff);
    assert_eq!(css_rgba("éa"), 0xff);
    assert_eq!(css_rgba("#0123456789"), 0xff);
    assert_eq!(css_hex(0x1a2b_3cff), "#1a2b3c");
    assert_eq!(css_hex(0x0000_0000), "#000000");
}

#[test]
fn banner_metadata() {
    let page = PageData {
        quant: 100,
        page: 1,
        lines: vec![],
        ayahs: vec![],
        words: vec![],
        word_strings: vec![],
        paths: vec![],
        decorations: vec![],
        strings: vec!["اسم|Name|Light|makkah|7".to_string(), "a||c|d|7".to_string()],
    };
    let deco = |text: u16| DecoRec {
        kind: DecoKind::SurahName,
        surah: 2,
        ayah: 0,
        text,
        first_path: 0,
        n_paths: 0,
        line: 0,
        bbox: IBox { x0: 0, y0: 0, x1: 1, y1: 1 },
    };
    assert_eq!(decoration_metadata(&page, &deco(0)).unwrap(), "اسم|Name|Light|makkah|7");
    assert_eq!(decoration_metadata(&page, &deco(NONE_U16)).unwrap_err(), "surah 2 has no name metadata");
    assert_eq!(decoration_metadata(&page, &deco(5)).unwrap_err(), "surah 2 name metadata points outside the string table");
    assert_eq!(decoration_metadata(&page, &deco(1)).unwrap_err(), "surah 2 has invalid name metadata");
}

#[test]
fn the_match_fold_is_idempotent_and_leaves_no_mark() {
    for q in ["  بِسْمِ   ٱللَّهِ\tٱلرَّحْمَٰنِ  ", "إِنَّ ٱلصَّلَوٰةَ", "مُوسَىٰ  ", "", "   ", "abc  def"] {
        let r = normalize_query(q);
        assert_eq!(normalize_query(&r), r);
        assert!(!r.chars().any(is_arabic_mark));
        assert!(!r.chars().any(|c| "\u{0622}\u{0623}\u{0625}\u{0671}\u{0649}\u{0629}\u{0624}\u{0626}".contains(c)));
        assert_eq!(r, r.trim());
        assert!(!r.contains("  "));
    }
    assert_eq!(normalize_query("  أَحَد   ٱلصَّمَد "), "احد الصمد");
}

#[test]
fn written_json_strings_read_back() {
    for s in ["plain", "quote \" and \\ back", "line\nfeed\ttab\u{1}", "بِسْمِ ٱللَّهِ", "𝒜 emoji 🙂", ""] {
        let w = json_str(s);
        let mut r = JsonReader { b: w.as_bytes(), i: 0 };
        assert_eq!(r.string(), Ok(s.to_string()));
        assert_eq!(r.i, w.len());
    }
}


#[test]
fn the_words_index_reads_back_through_the_sidecar_reader() {
    let mut words = vec![
        word("1:1:1", "بِسْمِ"),
        word("2:\"3\\", "line\nfeed \u{1f} 🙂"),
        word("1:1:1", "again"),
    ];
    words[1].qpc = "q\"p\\c".to_string();
    words[2].search = String::new();
    let json = words_json(&words);
    let back = parse_words_sidecar(json.as_bytes()).unwrap();
    assert_eq!(back.len(), words.len());
    for (w, (k, f)) in words.iter().zip(back.iter()) {
        assert_eq!(k, &w.word_key);
        assert_eq!(f.rasm_uthmani.as_deref(), Some(w.rasm_uthmani.as_str()));
        assert_eq!(f.rasm_imlai.as_deref(), Some(w.rasm_imlai.as_str()));
        assert_eq!(f.qpc.as_deref(), Some(w.qpc.as_str()));
        assert_eq!(f.rasm.as_deref(), Some(w.rasm.as_str()));
        assert_eq!(f.search.as_deref(), Some(w.search.as_str()));
    }
}
