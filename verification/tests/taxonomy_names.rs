use qvp_core::taxonomy::{
    qvp_category_name, qvp_family_name, qvp_kind_name, qvp_mark_from_name, qvp_mark_name, qvp_name, qvp_name_count,
    qvp_name_id, QVP_NAMES_CATEGORY, QVP_NAMES_DECORATION, QVP_NAMES_DIVISION, QVP_NAMES_FAMILY, QVP_NAMES_KIND, QVP_NAMES_MARK,
    QVP_NAMES_PLACE,
};

#[test]
fn taxonomy_names_are_the_pipeline_vocabulary() {
    let marks: Vec<String> = (0u8..=35).map(|i| qvp_mark_name(i).to_string()).collect();
    assert_eq!(
        marks,
        [
            "", "fathah", "kasrah", "dammah", "tanwin_al_fath", "tanwin_al_kasr", "tanwin_al_damm", "shaddah", "sukun", "maddah",
            "hamzah", "hamzat_al_wasl", "omitted_alif", "small_waw", "small_yaa", "small_noon", "dot", "two_dots", "three_dots",
            "rounded_zero", "rectangular_zero", "waqf_jaiz_mustawi_al_tarafayn", "waqf_jaiz_waqf_awla", "waqf_jaiz_wasl_awla",
            "waqf_lazim", "waqf_al_muanaqah", "saktah", "small_meem", "hizb", "sajdah", "sajdah_mark", "sajdah_line",
            "seen_al_qiraah", "tashil", "ishmam", "imalah",
        ]
    );
    assert_eq!(qvp_mark_name(255), "unknown");
    for (i, m) in marks.iter().enumerate().skip(1) {
        assert_eq!(qvp_mark_from_name(m), i as u8, "round trip for {m}");
    }
    assert_eq!(qvp_mark_from_name("not-a-mark"), 255);

    let families: Vec<String> = (0u8..=7).map(|i| qvp_family_name(i).to_string()).collect();
    assert_eq!(families, ["", "diacritic", "diacritic tanwin", "dots", "waqf", "sifr", "sajdah", "reading_sign"]);

    let categories: Vec<String> = (0u8..=8).map(|i| qvp_category_name(i).to_string()).collect();
    assert_eq!(
        categories,
        ["", "harakah", "tanwin", "letter_dot", "orthographic", "dabt", "waqf", "reading_sign", "standalone"]
    );

    let kinds: Vec<String> = (0u8..=7).map(|i| qvp_kind_name(i).to_string()).collect();
    assert_eq!(
        kinds,
        ["body", "mark", "ayah_number", "ayah_mark_ornament", "header_ink", "ornament", "page_number", "running_head"]
    );
}

#[test]
fn name_tables_round_trip() {
    let tables = [
        QVP_NAMES_MARK,
        QVP_NAMES_KIND,
        QVP_NAMES_FAMILY,
        QVP_NAMES_CATEGORY,
        QVP_NAMES_DECORATION,
        QVP_NAMES_DIVISION,
        QVP_NAMES_PLACE,
    ];
    for table in tables {
        let n = qvp_name_count(table);
        assert!(n > 0);
        for id in 1..n as u8 {
            let s = qvp_name(table, id);
            assert!(!s.is_empty(), "table {table} id {id}");
            assert_eq!(qvp_name_id(table, s), id, "{s}");
        }
        assert_eq!(qvp_name(table, 200), "");
        assert_eq!(qvp_name_id(table, "nope"), 255);
    }
    assert_eq!(qvp_name(QVP_NAMES_MARK, 7), "shaddah");
    assert_eq!(qvp_name(QVP_NAMES_DECORATION, 0), "ayah-mark");
    assert_eq!(qvp_name(QVP_NAMES_DIVISION, 3), "rubu_al_hizb");
    assert_eq!(qvp_name(QVP_NAMES_PLACE, 1), "madinah");
}

#[test]
fn past_each_table_the_names_are_unknown_or_empty() {
    assert_eq!(qvp_family_name(8), "unknown");
    assert_eq!(qvp_kind_name(200), "unknown");
    assert_eq!(qvp_category_name(9), "unknown");
    assert_eq!(qvp_mark_name(36), "unknown");
    assert_eq!(qvp_mark_from_name(""), 255);
    assert_eq!(qvp_name_count(QVP_NAMES_DECORATION), 7);
    assert_eq!(qvp_name_count(7), 0);
    assert_eq!(qvp_name(9, 0), "");
    assert_eq!(qvp_name_id(QVP_NAMES_FAMILY, ""), 0);
    assert_eq!(qvp_name_id(QVP_NAMES_PLACE, "makkah"), 0);
}
