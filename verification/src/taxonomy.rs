//! The taxonomy's vocabulary: the names of marks, path kinds, mark families and categories,
//! decoration kinds, divisions and revelation places, each table read by id and searched by name.
use vstd::prelude::*;
use crate::strings::same_chars;

verus! {

/// Name tables, by number.
pub const QVP_NAMES_MARK: u8 = 0;
pub const QVP_NAMES_KIND: u8 = 1;
pub const QVP_NAMES_FAMILY: u8 = 2;
pub const QVP_NAMES_CATEGORY: u8 = 3;
pub const QVP_NAMES_DECORATION: u8 = 4;
pub const QVP_NAMES_DIVISION: u8 = 5;
pub const QVP_NAMES_PLACE: u8 = 6;

/// The id a lookup answers when no name matches.
pub const UNKNOWN_ID: u8 = 255;

/// The name every per-kind lookup gives an id past its table.
pub open spec fn unknown_name() -> Seq<char> {
    seq!['u', 'n', 'k', 'n', 'o', 'w', 'n']
}

/// The first id at or after `k` whose name is `s`, or 255 when there is none.
pub open spec fn first_match(names: Seq<Seq<char>>, s: Seq<char>, k: int) -> int
    decreases names.len() - k,
{
    if k < 0 || k >= names.len() {
        UNKNOWN_ID as int
    } else if names[k] == s {
        k
    } else {
        first_match(names, s, k + 1)
    }
}

/// The names of the marks, by id.
pub open spec fn mark_names() -> Seq<Seq<char>> {
    seq![
        Seq::<char>::empty(),
        seq!['f', 'a', 't', 'h', 'a', 'h'],
        seq!['k', 'a', 's', 'r', 'a', 'h'],
        seq!['d', 'a', 'm', 'm', 'a', 'h'],
        seq!['t', 'a', 'n', 'w', 'i', 'n', '_', 'a', 'l', '_', 'f', 'a', 't', 'h'],
        seq!['t', 'a', 'n', 'w', 'i', 'n', '_', 'a', 'l', '_', 'k', 'a', 's', 'r'],
        seq!['t', 'a', 'n', 'w', 'i', 'n', '_', 'a', 'l', '_', 'd', 'a', 'm', 'm'],
        seq!['s', 'h', 'a', 'd', 'd', 'a', 'h'],
        seq!['s', 'u', 'k', 'u', 'n'],
        seq!['m', 'a', 'd', 'd', 'a', 'h'],
        seq!['h', 'a', 'm', 'z', 'a', 'h'],
        seq!['h', 'a', 'm', 'z', 'a', 't', '_', 'a', 'l', '_', 'w', 'a', 's', 'l'],
        seq!['o', 'm', 'i', 't', 't', 'e', 'd', '_', 'a', 'l', 'i', 'f'],
        seq!['s', 'm', 'a', 'l', 'l', '_', 'w', 'a', 'w'],
        seq!['s', 'm', 'a', 'l', 'l', '_', 'y', 'a', 'a'],
        seq!['s', 'm', 'a', 'l', 'l', '_', 'n', 'o', 'o', 'n'],
        seq!['d', 'o', 't'],
        seq!['t', 'w', 'o', '_', 'd', 'o', 't', 's'],
        seq!['t', 'h', 'r', 'e', 'e', '_', 'd', 'o', 't', 's'],
        seq!['r', 'o', 'u', 'n', 'd', 'e', 'd', '_', 'z', 'e', 'r', 'o'],
        seq!['r', 'e', 'c', 't', 'a', 'n', 'g', 'u', 'l', 'a', 'r', '_', 'z', 'e', 'r', 'o'],
        seq!['w', 'a', 'q', 'f', '_', 'j', 'a', 'i', 'z', '_', 'm', 'u', 's', 't', 'a', 'w', 'i', '_', 'a', 'l', '_', 't', 'a', 'r', 'a', 'f', 'a', 'y', 'n'],
        seq!['w', 'a', 'q', 'f', '_', 'j', 'a', 'i', 'z', '_', 'w', 'a', 'q', 'f', '_', 'a', 'w', 'l', 'a'],
        seq!['w', 'a', 'q', 'f', '_', 'j', 'a', 'i', 'z', '_', 'w', 'a', 's', 'l', '_', 'a', 'w', 'l', 'a'],
        seq!['w', 'a', 'q', 'f', '_', 'l', 'a', 'z', 'i', 'm'],
        seq!['w', 'a', 'q', 'f', '_', 'a', 'l', '_', 'm', 'u', 'a', 'n', 'a', 'q', 'a', 'h'],
        seq!['s', 'a', 'k', 't', 'a', 'h'],
        seq!['s', 'm', 'a', 'l', 'l', '_', 'm', 'e', 'e', 'm'],
        seq!['h', 'i', 'z', 'b'],
        seq!['s', 'a', 'j', 'd', 'a', 'h'],
        seq!['s', 'a', 'j', 'd', 'a', 'h', '_', 'm', 'a', 'r', 'k'],
        seq!['s', 'a', 'j', 'd', 'a', 'h', '_', 'l', 'i', 'n', 'e'],
        seq!['s', 'e', 'e', 'n', '_', 'a', 'l', '_', 'q', 'i', 'r', 'a', 'a', 'h'],
        seq!['t', 'a', 's', 'h', 'i', 'l'],
        seq!['i', 's', 'h', 'm', 'a', 'm'],
        seq!['i', 'm', 'a', 'l', 'a', 'h'],
    ]
}

/// The names of the path kinds, by id.
pub open spec fn kind_names() -> Seq<Seq<char>> {
    seq![
        seq!['b', 'o', 'd', 'y'],
        seq!['m', 'a', 'r', 'k'],
        seq!['a', 'y', 'a', 'h', '_', 'n', 'u', 'm', 'b', 'e', 'r'],
        seq!['a', 'y', 'a', 'h', '_', 'm', 'a', 'r', 'k', '_', 'o', 'r', 'n', 'a', 'm', 'e', 'n', 't'],
        seq!['h', 'e', 'a', 'd', 'e', 'r', '_', 'i', 'n', 'k'],
        seq!['o', 'r', 'n', 'a', 'm', 'e', 'n', 't'],
        seq!['p', 'a', 'g', 'e', '_', 'n', 'u', 'm', 'b', 'e', 'r'],
        seq!['r', 'u', 'n', 'n', 'i', 'n', 'g', '_', 'h', 'e', 'a', 'd'],
    ]
}

/// The names of the mark families, by id.
pub open spec fn family_names() -> Seq<Seq<char>> {
    seq![
        Seq::<char>::empty(),
        seq!['d', 'i', 'a', 'c', 'r', 'i', 't', 'i', 'c'],
        seq!['d', 'i', 'a', 'c', 'r', 'i', 't', 'i', 'c', ' ', 't', 'a', 'n', 'w', 'i', 'n'],
        seq!['d', 'o', 't', 's'],
        seq!['w', 'a', 'q', 'f'],
        seq!['s', 'i', 'f', 'r'],
        seq!['s', 'a', 'j', 'd', 'a', 'h'],
        seq!['r', 'e', 'a', 'd', 'i', 'n', 'g', '_', 's', 'i', 'g', 'n'],
    ]
}

/// The names of the mark categories, by id.
pub open spec fn category_names() -> Seq<Seq<char>> {
    seq![
        Seq::<char>::empty(),
        seq!['h', 'a', 'r', 'a', 'k', 'a', 'h'],
        seq!['t', 'a', 'n', 'w', 'i', 'n'],
        seq!['l', 'e', 't', 't', 'e', 'r', '_', 'd', 'o', 't'],
        seq!['o', 'r', 't', 'h', 'o', 'g', 'r', 'a', 'p', 'h', 'i', 'c'],
        seq!['d', 'a', 'b', 't'],
        seq!['w', 'a', 'q', 'f'],
        seq!['r', 'e', 'a', 'd', 'i', 'n', 'g', '_', 's', 'i', 'g', 'n'],
        seq!['s', 't', 'a', 'n', 'd', 'a', 'l', 'o', 'n', 'e'],
    ]
}

/// The names of the decoration kinds, by id.
pub open spec fn decoration_names() -> Seq<Seq<char>> {
    seq![
        seq!['a', 'y', 'a', 'h', '-', 'm', 'a', 'r', 'k'],
        seq!['s', 'u', 'r', 'a', 'h', '-', 'n', 'a', 'm', 'e'],
        seq!['b', 'a', 's', 'm', 'a', 'l', 'a', 'h'],
        seq!['h', 'i', 'z', 'b', '-', 'm', 'a', 'r', 'k'],
        seq!['s', 'a', 'j', 'd', 'a', 'h', '-', 'm', 'a', 'r', 'k'],
        seq!['p', 'a', 'g', 'e', '-', 'n', 'u', 'm', 'b', 'e', 'r'],
        seq!['r', 'u', 'n', 'n', 'i', 'n', 'g', '-', 'h', 'e', 'a', 'd'],
    ]
}

/// The names of the divisions, by id.
pub open spec fn division_names() -> Seq<Seq<char>> {
    seq![
        seq!['j', 'u', 'z'],
        seq!['h', 'i', 'z', 'b'],
        seq!['n', 'i', 's', 'f'],
        seq!['r', 'u', 'b', 'u', '_', 'a', 'l', '_', 'h', 'i', 'z', 'b'],
    ]
}

/// The names of the revelation places, by id.
pub open spec fn place_names() -> Seq<Seq<char>> {
    seq![
        seq!['m', 'a', 'k', 'k', 'a', 'h'],
        seq!['m', 'a', 'd', 'i', 'n', 'a', 'h'],
    ]
}

/// The name of one of the marks.
fn mark_name(id: u8) -> (s: &'static str)
    requires
        id < mark_names().len(),
    ensures
        s@ == mark_names()[id as int],
{
    match id {
        0 => {
            proof { reveal_strlit(""); }
            ""
        },
        1 => {
            proof { reveal_strlit("fathah"); }
            "fathah"
        },
        2 => {
            proof { reveal_strlit("kasrah"); }
            "kasrah"
        },
        3 => {
            proof { reveal_strlit("dammah"); }
            "dammah"
        },
        4 => {
            proof { reveal_strlit("tanwin_al_fath"); }
            "tanwin_al_fath"
        },
        5 => {
            proof { reveal_strlit("tanwin_al_kasr"); }
            "tanwin_al_kasr"
        },
        6 => {
            proof { reveal_strlit("tanwin_al_damm"); }
            "tanwin_al_damm"
        },
        7 => {
            proof { reveal_strlit("shaddah"); }
            "shaddah"
        },
        8 => {
            proof { reveal_strlit("sukun"); }
            "sukun"
        },
        9 => {
            proof { reveal_strlit("maddah"); }
            "maddah"
        },
        10 => {
            proof { reveal_strlit("hamzah"); }
            "hamzah"
        },
        11 => {
            proof { reveal_strlit("hamzat_al_wasl"); }
            "hamzat_al_wasl"
        },
        12 => {
            proof { reveal_strlit("omitted_alif"); }
            "omitted_alif"
        },
        13 => {
            proof { reveal_strlit("small_waw"); }
            "small_waw"
        },
        14 => {
            proof { reveal_strlit("small_yaa"); }
            "small_yaa"
        },
        15 => {
            proof { reveal_strlit("small_noon"); }
            "small_noon"
        },
        16 => {
            proof { reveal_strlit("dot"); }
            "dot"
        },
        17 => {
            proof { reveal_strlit("two_dots"); }
            "two_dots"
        },
        18 => {
            proof { reveal_strlit("three_dots"); }
            "three_dots"
        },
        19 => {
            proof { reveal_strlit("rounded_zero"); }
            "rounded_zero"
        },
        20 => {
            proof { reveal_strlit("rectangular_zero"); }
            "rectangular_zero"
        },
        21 => {
            proof { reveal_strlit("waqf_jaiz_mustawi_al_tarafayn"); }
            "waqf_jaiz_mustawi_al_tarafayn"
        },
        22 => {
            proof { reveal_strlit("waqf_jaiz_waqf_awla"); }
            "waqf_jaiz_waqf_awla"
        },
        23 => {
            proof { reveal_strlit("waqf_jaiz_wasl_awla"); }
            "waqf_jaiz_wasl_awla"
        },
        24 => {
            proof { reveal_strlit("waqf_lazim"); }
            "waqf_lazim"
        },
        25 => {
            proof { reveal_strlit("waqf_al_muanaqah"); }
            "waqf_al_muanaqah"
        },
        26 => {
            proof { reveal_strlit("saktah"); }
            "saktah"
        },
        27 => {
            proof { reveal_strlit("small_meem"); }
            "small_meem"
        },
        28 => {
            proof { reveal_strlit("hizb"); }
            "hizb"
        },
        29 => {
            proof { reveal_strlit("sajdah"); }
            "sajdah"
        },
        30 => {
            proof { reveal_strlit("sajdah_mark"); }
            "sajdah_mark"
        },
        31 => {
            proof { reveal_strlit("sajdah_line"); }
            "sajdah_line"
        },
        32 => {
            proof { reveal_strlit("seen_al_qiraah"); }
            "seen_al_qiraah"
        },
        33 => {
            proof { reveal_strlit("tashil"); }
            "tashil"
        },
        34 => {
            proof { reveal_strlit("ishmam"); }
            "ishmam"
        },
        _ => {
            proof { reveal_strlit("imalah"); }
            "imalah"
        },
    }
}

/// The name of one of the path kinds.
fn kind_name(id: u8) -> (s: &'static str)
    requires
        id < kind_names().len(),
    ensures
        s@ == kind_names()[id as int],
{
    match id {
        0 => {
            proof { reveal_strlit("body"); }
            "body"
        },
        1 => {
            proof { reveal_strlit("mark"); }
            "mark"
        },
        2 => {
            proof { reveal_strlit("ayah_number"); }
            "ayah_number"
        },
        3 => {
            proof { reveal_strlit("ayah_mark_ornament"); }
            "ayah_mark_ornament"
        },
        4 => {
            proof { reveal_strlit("header_ink"); }
            "header_ink"
        },
        5 => {
            proof { reveal_strlit("ornament"); }
            "ornament"
        },
        6 => {
            proof { reveal_strlit("page_number"); }
            "page_number"
        },
        _ => {
            proof { reveal_strlit("running_head"); }
            "running_head"
        },
    }
}

/// The name of one of the mark families.
fn family_name(id: u8) -> (s: &'static str)
    requires
        id < family_names().len(),
    ensures
        s@ == family_names()[id as int],
{
    match id {
        0 => {
            proof { reveal_strlit(""); }
            ""
        },
        1 => {
            proof { reveal_strlit("diacritic"); }
            "diacritic"
        },
        2 => {
            proof { reveal_strlit("diacritic tanwin"); }
            "diacritic tanwin"
        },
        3 => {
            proof { reveal_strlit("dots"); }
            "dots"
        },
        4 => {
            proof { reveal_strlit("waqf"); }
            "waqf"
        },
        5 => {
            proof { reveal_strlit("sifr"); }
            "sifr"
        },
        6 => {
            proof { reveal_strlit("sajdah"); }
            "sajdah"
        },
        _ => {
            proof { reveal_strlit("reading_sign"); }
            "reading_sign"
        },
    }
}

/// The name of one of the mark categories.
fn category_name(id: u8) -> (s: &'static str)
    requires
        id < category_names().len(),
    ensures
        s@ == category_names()[id as int],
{
    match id {
        0 => {
            proof { reveal_strlit(""); }
            ""
        },
        1 => {
            proof { reveal_strlit("harakah"); }
            "harakah"
        },
        2 => {
            proof { reveal_strlit("tanwin"); }
            "tanwin"
        },
        3 => {
            proof { reveal_strlit("letter_dot"); }
            "letter_dot"
        },
        4 => {
            proof { reveal_strlit("orthographic"); }
            "orthographic"
        },
        5 => {
            proof { reveal_strlit("dabt"); }
            "dabt"
        },
        6 => {
            proof { reveal_strlit("waqf"); }
            "waqf"
        },
        7 => {
            proof { reveal_strlit("reading_sign"); }
            "reading_sign"
        },
        _ => {
            proof { reveal_strlit("standalone"); }
            "standalone"
        },
    }
}

/// The name of one of the decoration kinds.
fn decoration_name(id: u8) -> (s: &'static str)
    requires
        id < decoration_names().len(),
    ensures
        s@ == decoration_names()[id as int],
{
    match id {
        0 => {
            proof { reveal_strlit("ayah-mark"); }
            "ayah-mark"
        },
        1 => {
            proof { reveal_strlit("surah-name"); }
            "surah-name"
        },
        2 => {
            proof { reveal_strlit("basmalah"); }
            "basmalah"
        },
        3 => {
            proof { reveal_strlit("hizb-mark"); }
            "hizb-mark"
        },
        4 => {
            proof { reveal_strlit("sajdah-mark"); }
            "sajdah-mark"
        },
        5 => {
            proof { reveal_strlit("page-number"); }
            "page-number"
        },
        _ => {
            proof { reveal_strlit("running-head"); }
            "running-head"
        },
    }
}

/// The name of one of the divisions.
fn division_name(id: u8) -> (s: &'static str)
    requires
        id < division_names().len(),
    ensures
        s@ == division_names()[id as int],
{
    match id {
        0 => {
            proof { reveal_strlit("juz"); }
            "juz"
        },
        1 => {
            proof { reveal_strlit("hizb"); }
            "hizb"
        },
        2 => {
            proof { reveal_strlit("nisf"); }
            "nisf"
        },
        _ => {
            proof { reveal_strlit("rubu_al_hizb"); }
            "rubu_al_hizb"
        },
    }
}

/// The name of one of the revelation places.
fn place_name(id: u8) -> (s: &'static str)
    requires
        id < place_names().len(),
    ensures
        s@ == place_names()[id as int],
{
    match id {
        0 => {
            proof { reveal_strlit("makkah"); }
            "makkah"
        },
        _ => {
            proof { reveal_strlit("madinah"); }
            "madinah"
        },
    }
}

/// No two of the marks share a name: each is found again under its own id.
#[verifier::rlimit(60)]
proof fn lemma_mark_names_distinct()
    ensures
        forall|i: int| 0 <= i < 36 ==> #[trigger] first_match(mark_names(), mark_names()[i], 0) == i,
{
    reveal_with_fuel(first_match, 37);
    let t = mark_names();
    assert(t[0].len() == 0);
    assert(first_match(t, t[0], 0) == 0);
    assert(first_match(t, t[1], 0) == 1);
    assert(t[1][0] != t[2][0]);
    assert(first_match(t, t[2], 0) == 2);
    assert(t[1][0] != t[3][0]);
    assert(t[2][0] != t[3][0]);
    assert(first_match(t, t[3], 0) == 3);
    assert(first_match(t, t[4], 0) == 4);
    assert(t[4][10] != t[5][10]);
    assert(first_match(t, t[5], 0) == 5);
    assert(t[4][10] != t[6][10]);
    assert(t[5][10] != t[6][10]);
    assert(first_match(t, t[6], 0) == 6);
    assert(first_match(t, t[7], 0) == 7);
    assert(first_match(t, t[8], 0) == 8);
    assert(t[1][0] != t[9][0]);
    assert(t[2][0] != t[9][0]);
    assert(t[3][0] != t[9][0]);
    assert(first_match(t, t[9], 0) == 9);
    assert(t[1][0] != t[10][0]);
    assert(t[2][0] != t[10][0]);
    assert(t[3][0] != t[10][0]);
    assert(t[9][0] != t[10][0]);
    assert(first_match(t, t[10], 0) == 10);
    assert(t[4][0] != t[11][0]);
    assert(t[5][0] != t[11][0]);
    assert(t[6][0] != t[11][0]);
    assert(first_match(t, t[11], 0) == 11);
    assert(first_match(t, t[12], 0) == 12);
    assert(first_match(t, t[13], 0) == 13);
    assert(t[13][6] != t[14][6]);
    assert(first_match(t, t[14], 0) == 14);
    assert(first_match(t, t[15], 0) == 15);
    assert(first_match(t, t[16], 0) == 16);
    assert(first_match(t, t[17], 0) == 17);
    assert(t[15][0] != t[18][0]);
    assert(first_match(t, t[18], 0) == 18);
    assert(t[12][0] != t[19][0]);
    assert(first_match(t, t[19], 0) == 19);
    assert(first_match(t, t[20], 0) == 20);
    assert(first_match(t, t[21], 0) == 21);
    assert(first_match(t, t[22], 0) == 22);
    assert(t[22][12] != t[23][12]);
    assert(first_match(t, t[23], 0) == 23);
    assert(t[15][0] != t[24][0]);
    assert(t[18][0] != t[24][0]);
    assert(first_match(t, t[24], 0) == 24);
    assert(t[20][0] != t[25][0]);
    assert(first_match(t, t[25], 0) == 25);
    assert(t[1][0] != t[26][0]);
    assert(t[2][0] != t[26][0]);
    assert(t[3][0] != t[26][0]);
    assert(t[9][0] != t[26][0]);
    assert(t[10][0] != t[26][0]);
    assert(first_match(t, t[26], 0) == 26);
    assert(t[15][6] != t[27][6]);
    assert(t[18][0] != t[27][0]);
    assert(t[24][0] != t[27][0]);
    assert(first_match(t, t[27], 0) == 27);
    assert(first_match(t, t[28], 0) == 28);
    assert(t[1][0] != t[29][0]);
    assert(t[2][0] != t[29][0]);
    assert(t[3][0] != t[29][0]);
    assert(t[9][0] != t[29][0]);
    assert(t[10][0] != t[29][0]);
    assert(t[26][2] != t[29][2]);
    assert(first_match(t, t[29], 0) == 29);
    assert(t[29].len() == 6 && t[30].len() == 11);
    assert(first_match(t, t[30], 0) == 30);
    assert(t[29].len() == 6 && t[31].len() == 11);
    assert(t[30][7] != t[31][7]);
    assert(first_match(t, t[31], 0) == 31);
    assert(t[4][0] != t[32][0]);
    assert(t[5][0] != t[32][0]);
    assert(t[6][0] != t[32][0]);
    assert(t[11][0] != t[32][0]);
    assert(first_match(t, t[32], 0) == 32);
    assert(t[1][0] != t[33][0]);
    assert(t[2][0] != t[33][0]);
    assert(t[3][0] != t[33][0]);
    assert(t[9][0] != t[33][0]);
    assert(t[10][0] != t[33][0]);
    assert(t[26][0] != t[33][0]);
    assert(t[29][0] != t[33][0]);
    assert(first_match(t, t[33], 0) == 33);
    assert(t[1][0] != t[34][0]);
    assert(t[2][0] != t[34][0]);
    assert(t[3][0] != t[34][0]);
    assert(t[9][0] != t[34][0]);
    assert(t[10][0] != t[34][0]);
    assert(t[26][0] != t[34][0]);
    assert(t[29][0] != t[34][0]);
    assert(t[33][0] != t[34][0]);
    assert(first_match(t, t[34], 0) == 34);
    assert(t[1][0] != t[35][0]);
    assert(t[2][0] != t[35][0]);
    assert(t[3][0] != t[35][0]);
    assert(t[9][0] != t[35][0]);
    assert(t[10][0] != t[35][0]);
    assert(t[26][0] != t[35][0]);
    assert(t[29][0] != t[35][0]);
    assert(t[33][0] != t[35][0]);
    assert(t[34][1] != t[35][1]);
    assert(first_match(t, t[35], 0) == 35);
    assert forall|i: int| 0 <= i < 36 implies #[trigger] first_match(t, t[i], 0) == i by {
        assert(i == 0 || i == 1 || i == 2 || i == 3 || i == 4 || i == 5 || i == 6 || i == 7 || i == 8 || i == 9 || i == 10 || i == 11 || i == 12 || i == 13 || i == 14 || i == 15 || i == 16 || i == 17 || i == 18 || i == 19 || i == 20 || i == 21 || i == 22 || i == 23 || i == 24 || i == 25 || i == 26 || i == 27 || i == 28 || i == 29 || i == 30 || i == 31 || i == 32 || i == 33 || i == 34 || i == 35);
    }
}

/// No two of the path kinds share a name: each is found again under its own id.
proof fn lemma_kind_names_distinct()
    ensures
        forall|i: int| 0 <= i < 8 ==> #[trigger] first_match(kind_names(), kind_names()[i], 0) == i,
{
    reveal_with_fuel(first_match, 9);
    let t = kind_names();
    assert(first_match(t, t[0], 0) == 0);
    assert(t[0][0] != t[1][0]);
    assert(first_match(t, t[1], 0) == 1);
    assert(first_match(t, t[2], 0) == 2);
    assert(first_match(t, t[3], 0) == 3);
    assert(first_match(t, t[4], 0) == 4);
    assert(first_match(t, t[5], 0) == 5);
    assert(t[2][0] != t[6][0]);
    assert(first_match(t, t[6], 0) == 6);
    assert(first_match(t, t[7], 0) == 7);
    assert forall|i: int| 0 <= i < 8 implies #[trigger] first_match(t, t[i], 0) == i by {
        assert(i == 0 || i == 1 || i == 2 || i == 3 || i == 4 || i == 5 || i == 6 || i == 7);
    }
}

/// No two of the mark families share a name: each is found again under its own id.
proof fn lemma_family_names_distinct()
    ensures
        forall|i: int| 0 <= i < 8 ==> #[trigger] first_match(family_names(), family_names()[i], 0) == i,
{
    reveal_with_fuel(first_match, 9);
    let t = family_names();
    assert(t[0].len() == 0);
    assert(first_match(t, t[0], 0) == 0);
    assert(first_match(t, t[1], 0) == 1);
    assert(t[1].len() == 9 && t[2].len() == 16);
    assert(first_match(t, t[2], 0) == 2);
    assert(first_match(t, t[3], 0) == 3);
    assert(t[3][0] != t[4][0]);
    assert(first_match(t, t[4], 0) == 4);
    assert(t[3][0] != t[5][0]);
    assert(t[4][0] != t[5][0]);
    assert(first_match(t, t[5], 0) == 5);
    assert(first_match(t, t[6], 0) == 6);
    assert(first_match(t, t[7], 0) == 7);
    assert forall|i: int| 0 <= i < 8 implies #[trigger] first_match(t, t[i], 0) == i by {
        assert(i == 0 || i == 1 || i == 2 || i == 3 || i == 4 || i == 5 || i == 6 || i == 7);
    }
}

/// No two of the mark categories share a name: each is found again under its own id.
#[verifier::rlimit(60)]
proof fn lemma_category_names_distinct()
    ensures
        forall|i: int| 0 <= i < 9 ==> #[trigger] first_match(category_names(), category_names()[i], 0) == i,
{
    reveal_with_fuel(first_match, 10);
    let t = category_names();
    assert(t[0].len() == 0);
    assert(first_match(t, t[0], 0) == 0);
    assert(first_match(t, t[1], 0) == 1);
    assert(first_match(t, t[2], 0) == 2);
    assert(first_match(t, t[3], 0) == 3);
    assert(first_match(t, t[4], 0) == 4);
    assert(first_match(t, t[5], 0) == 5);
    assert(t[5][0] != t[6][0]);
    assert(first_match(t, t[6], 0) == 6);
    assert(t[4][0] != t[7][0]);
    assert(first_match(t, t[7], 0) == 7);
    assert(t[3][0] != t[8][0]);
    assert(first_match(t, t[8], 0) == 8);
    assert forall|i: int| 0 <= i < 9 implies #[trigger] first_match(t, t[i], 0) == i by {
        assert(i == 0 || i == 1 || i == 2 || i == 3 || i == 4 || i == 5 || i == 6 || i == 7 || i == 8);
    }
}

/// No two of the decoration kinds share a name: each is found again under its own id.
proof fn lemma_decoration_names_distinct()
    ensures
        forall|i: int| 0 <= i < 7 ==> #[trigger] first_match(decoration_names(), decoration_names()[i], 0) == i,
{
    reveal_with_fuel(first_match, 8);
    let t = decoration_names();
    assert(first_match(t, t[0], 0) == 0);
    assert(first_match(t, t[1], 0) == 1);
    assert(first_match(t, t[2], 0) == 2);
    assert(t[0][0] != t[3][0]);
    assert(first_match(t, t[3], 0) == 3);
    assert(first_match(t, t[4], 0) == 4);
    assert(t[4][0] != t[5][0]);
    assert(first_match(t, t[5], 0) == 5);
    assert(first_match(t, t[6], 0) == 6);
    assert forall|i: int| 0 <= i < 7 implies #[trigger] first_match(t, t[i], 0) == i by {
        assert(i == 0 || i == 1 || i == 2 || i == 3 || i == 4 || i == 5 || i == 6);
    }
}

/// No two of the divisions share a name: each is found again under its own id.
proof fn lemma_division_names_distinct()
    ensures
        forall|i: int| 0 <= i < 4 ==> #[trigger] first_match(division_names(), division_names()[i], 0) == i,
{
    reveal_with_fuel(first_match, 5);
    let t = division_names();
    assert(first_match(t, t[0], 0) == 0);
    assert(first_match(t, t[1], 0) == 1);
    assert(t[1][0] != t[2][0]);
    assert(first_match(t, t[2], 0) == 2);
    assert(first_match(t, t[3], 0) == 3);
    assert forall|i: int| 0 <= i < 4 implies #[trigger] first_match(t, t[i], 0) == i by {
        assert(i == 0 || i == 1 || i == 2 || i == 3);
    }
}

/// No two of the revelation places share a name: each is found again under its own id.
proof fn lemma_place_names_distinct()
    ensures
        forall|i: int| 0 <= i < 2 ==> #[trigger] first_match(place_names(), place_names()[i], 0) == i,
{
    reveal_with_fuel(first_match, 3);
    let t = place_names();
    assert(first_match(t, t[0], 0) == 0);
    assert(first_match(t, t[1], 0) == 1);
    assert forall|i: int| 0 <= i < 2 implies #[trigger] first_match(t, t[i], 0) == i by {
        assert(i == 0 || i == 1);
    }
}
/// The names of a table; no names for a number that is not a table.
pub open spec fn table_names(table: u8) -> Seq<Seq<char>> {
    if table == QVP_NAMES_MARK {
        mark_names()
    } else if table == QVP_NAMES_KIND {
        kind_names()
    } else if table == QVP_NAMES_FAMILY {
        family_names()
    } else if table == QVP_NAMES_CATEGORY {
        category_names()
    } else if table == QVP_NAMES_DECORATION {
        decoration_names()
    } else if table == QVP_NAMES_DIVISION {
        division_names()
    } else if table == QVP_NAMES_PLACE {
        place_names()
    } else {
        Seq::empty()
    }
}

/// The name of `id` in a table, empty past the table's end.
pub open spec fn table_name(table: u8, id: int) -> Seq<char> {
    if 0 <= id < table_names(table).len() {
        table_names(table)[id]
    } else {
        Seq::empty()
    }
}

/// How many ids a table has (they run from 0).
pub fn qvp_name_count(table: u8) -> (n: u32)
    ensures
        n == table_names(table).len(),
{
    if table == QVP_NAMES_MARK {
        36
    } else if table == QVP_NAMES_KIND {
        8
    } else if table == QVP_NAMES_FAMILY {
        8
    } else if table == QVP_NAMES_CATEGORY {
        9
    } else if table == QVP_NAMES_DECORATION {
        7
    } else if table == QVP_NAMES_DIVISION {
        4
    } else if table == QVP_NAMES_PLACE {
        2
    } else {
        0
    }
}

/// The name of `id` in a table; empty for an id outside the table.
pub fn qvp_name(table: u8, id: u8) -> (s: &'static str)
    ensures
        s@ == table_name(table, id as int),
{
    if (id as u32) >= qvp_name_count(table) {
        proof {
            reveal_strlit("");
        }
        return "";
    }
    if table == QVP_NAMES_MARK {
        mark_name(id)
    } else if table == QVP_NAMES_KIND {
        kind_name(id)
    } else if table == QVP_NAMES_FAMILY {
        family_name(id)
    } else if table == QVP_NAMES_CATEGORY {
        category_name(id)
    } else if table == QVP_NAMES_DECORATION {
        decoration_name(id)
    } else if table == QVP_NAMES_DIVISION {
        division_name(id)
    } else {
        place_name(id)
    }
}

proof fn lemma_first_match_at(names: Seq<Seq<char>>, s: Seq<char>, k: int, r: int)
    requires
        0 <= k <= r < names.len(),
        names[r] == s,
        forall|j: int| k <= j < r ==> names[j] != s,
    ensures
        first_match(names, s, k) == r,
    decreases r - k,
{
    if k < r {
        lemma_first_match_at(names, s, k + 1, r);
    }
}

proof fn lemma_first_match_none(names: Seq<Seq<char>>, s: Seq<char>, k: int)
    requires
        0 <= k <= names.len(),
        forall|j: int| k <= j < names.len() ==> names[j] != s,
    ensures
        first_match(names, s, k) == UNKNOWN_ID as int,
    decreases names.len() - k,
{
    if k < names.len() {
        lemma_first_match_none(names, s, k + 1);
    }
}

/// The id of a name in a table, or 255 when the table has no such name.
pub fn qvp_name_id(table: u8, name: &str) -> (id: u8)
    ensures
        id as int == first_match(table_names(table), name@, 0),
{
    let n = qvp_name_count(table);
    let mut i: u32 = 0;
    while i < n
        invariant
            n == table_names(table).len(),
            i <= n,
            forall|j: int| 0 <= j < i ==> table_names(table)[j] != name@,
        decreases n - i,
    {
        let s = qvp_name(table, i as u8);
        if same_chars(s, name) {
            proof {
                lemma_first_match_at(table_names(table), name@, 0, i as int);
            }
            return i as u8;
        }
        i += 1;
    }
    proof {
        lemma_first_match_none(table_names(table), name@, 0);
    }
    UNKNOWN_ID
}

/// The name of a mark; "unknown" for a number past the marks.
pub fn qvp_mark_name(mark: u8) -> (s: &'static str)
    ensures
        s@ == if mark < 36 { mark_names()[mark as int] } else { unknown_name() },
{
    if mark < 36 {
        mark_name(mark)
    } else {
        proof {
            reveal_strlit("unknown");
        }
        "unknown"
    }
}

/// The name of a mark family; "unknown" for a number past the families.
pub fn qvp_family_name(f: u8) -> (s: &'static str)
    ensures
        s@ == if f < 8 { family_names()[f as int] } else { unknown_name() },
{
    if f < 8 {
        family_name(f)
    } else {
        proof {
            reveal_strlit("unknown");
        }
        "unknown"
    }
}

/// The name of a path kind; "unknown" for a number past the kinds.
pub fn qvp_kind_name(k: u8) -> (s: &'static str)
    ensures
        s@ == if k < 8 { kind_names()[k as int] } else { unknown_name() },
{
    if k < 8 {
        kind_name(k)
    } else {
        proof {
            reveal_strlit("unknown");
        }
        "unknown"
    }
}

/// The name of a mark category; "unknown" for a number past the categories.
pub fn qvp_category_name(c: u8) -> (s: &'static str)
    ensures
        s@ == if c < 9 { category_names()[c as int] } else { unknown_name() },
{
    if c < 9 {
        category_name(c)
    } else {
        proof {
            reveal_strlit("unknown");
        }
        "unknown"
    }
}

/// The mark a name stands for, or 255 when it names none (the empty name included).
pub fn qvp_mark_from_name(s: &str) -> (m: u8)
    ensures
        m as int == if s@.len() == 0 { UNKNOWN_ID as int } else { first_match(mark_names(), s@, 0) },
{
    if s.unicode_len() == 0 {
        return UNKNOWN_ID;
    }
    qvp_name_id(QVP_NAMES_MARK, s)
}

/// Every name of a table is found again under its own id.
pub proof fn name_round_trip(table: u8, id: u8)
    requires
        (id as int) < table_names(table).len(),
    ensures
        first_match(table_names(table), table_name(table, id as int), 0) == id as int,
{
    lemma_mark_names_distinct();
    lemma_kind_names_distinct();
    lemma_family_names_distinct();
    lemma_category_names_distinct();
    lemma_decoration_names_distinct();
    lemma_division_names_distinct();
    lemma_place_names_distinct();
    assert(first_match(table_names(table), table_names(table)[id as int], 0) == id as int);
}

/// A mark's name reads back as that mark.
pub proof fn mark_name_round_trip(mark: u8)
    requires
        1 <= mark < 36,
    ensures
        mark_names()[mark as int].len() > 0,
        first_match(mark_names(), mark_names()[mark as int], 0) == mark as int,
{
    lemma_mark_names_distinct();
    assert(mark_names()[mark as int].len() > 0);
}

proof fn lemma_mark_names_facts()
    ensures
        forall|i: int| 1 <= i < 36 ==> #[trigger] mark_names()[i].len() > 0,
        first_match(mark_names(), "nope"@, 0) == UNKNOWN_ID as int,
{
    reveal_strlit("nope");
    assert("nope"@.len() == 4);
    let t = mark_names();
    assert(t[0].len() == 0);
    assert(t[1].len() == 6);
    assert(t[2].len() == 6);
    assert(t[3].len() == 6);
    assert(t[4].len() == 14);
    assert(t[5].len() == 14);
    assert(t[6].len() == 14);
    assert(t[7].len() == 7);
    assert(t[8].len() == 5);
    assert(t[9].len() == 6);
    assert(t[10].len() == 6);
    assert(t[11].len() == 14);
    assert(t[12].len() == 12);
    assert(t[13].len() == 9);
    assert(t[14].len() == 9);
    assert(t[15].len() == 10);
    assert(t[16].len() == 3);
    assert(t[17].len() == 8);
    assert(t[18].len() == 10);
    assert(t[19].len() == 12);
    assert(t[20].len() == 16);
    assert(t[21].len() == 29);
    assert(t[22].len() == 19);
    assert(t[23].len() == 19);
    assert(t[24].len() == 10);
    assert(t[25].len() == 16);
    assert(t[26].len() == 6);
    assert(t[27].len() == 10);
    assert(t[28][0] != "nope"@[0]);
    assert(t[29].len() == 6);
    assert(t[30].len() == 11);
    assert(t[31].len() == 11);
    assert(t[32].len() == 14);
    assert(t[33].len() == 6);
    assert(t[34].len() == 6);
    assert(t[35].len() == 6);
    assert forall|i: int| 0 <= i < 36 implies t[i] != "nope"@ by {
        assert(i == 0 || i == 1 || i == 2 || i == 3 || i == 4 || i == 5 || i == 6 || i == 7 || i == 8 || i == 9 || i == 10 || i == 11 || i == 12 || i == 13 || i == 14 || i == 15 || i == 16 || i == 17 || i == 18 || i == 19 || i == 20 || i == 21 || i == 22 || i == 23 || i == 24 || i == 25 || i == 26 || i == 27 || i == 28 || i == 29 || i == 30 || i == 31 || i == 32 || i == 33 || i == 34 || i == 35);
    }
    assert forall|i: int| 1 <= i < 36 implies #[trigger] t[i].len() > 0 by {
        assert(i == 1 || i == 2 || i == 3 || i == 4 || i == 5 || i == 6 || i == 7 || i == 8 || i == 9 || i == 10 || i == 11 || i == 12 || i == 13 || i == 14 || i == 15 || i == 16 || i == 17 || i == 18 || i == 19 || i == 20 || i == 21 || i == 22 || i == 23 || i == 24 || i == 25 || i == 26 || i == 27 || i == 28 || i == 29 || i == 30 || i == 31 || i == 32 || i == 33 || i == 34 || i == 35);
    }
    lemma_first_match_none(t, "nope"@, 0);
}

proof fn lemma_kind_names_facts()
    ensures
        forall|i: int| 1 <= i < 8 ==> #[trigger] kind_names()[i].len() > 0,
        first_match(kind_names(), "nope"@, 0) == UNKNOWN_ID as int,
{
    reveal_strlit("nope");
    assert("nope"@.len() == 4);
    let t = kind_names();
    assert(t[0][0] != "nope"@[0]);
    assert(t[1][0] != "nope"@[0]);
    assert(t[2].len() == 11);
    assert(t[3].len() == 18);
    assert(t[4].len() == 10);
    assert(t[5].len() == 8);
    assert(t[6].len() == 11);
    assert(t[7].len() == 12);
    assert forall|i: int| 0 <= i < 8 implies t[i] != "nope"@ by {
        assert(i == 0 || i == 1 || i == 2 || i == 3 || i == 4 || i == 5 || i == 6 || i == 7);
    }
    assert forall|i: int| 1 <= i < 8 implies #[trigger] t[i].len() > 0 by {
        assert(i == 1 || i == 2 || i == 3 || i == 4 || i == 5 || i == 6 || i == 7);
    }
    lemma_first_match_none(t, "nope"@, 0);
}

proof fn lemma_family_names_facts()
    ensures
        forall|i: int| 1 <= i < 8 ==> #[trigger] family_names()[i].len() > 0,
        first_match(family_names(), "nope"@, 0) == UNKNOWN_ID as int,
{
    reveal_strlit("nope");
    assert("nope"@.len() == 4);
    let t = family_names();
    assert(t[0].len() == 0);
    assert(t[1].len() == 9);
    assert(t[2].len() == 16);
    assert(t[3][0] != "nope"@[0]);
    assert(t[4][0] != "nope"@[0]);
    assert(t[5][0] != "nope"@[0]);
    assert(t[6].len() == 6);
    assert(t[7].len() == 12);
    assert forall|i: int| 0 <= i < 8 implies t[i] != "nope"@ by {
        assert(i == 0 || i == 1 || i == 2 || i == 3 || i == 4 || i == 5 || i == 6 || i == 7);
    }
    assert forall|i: int| 1 <= i < 8 implies #[trigger] t[i].len() > 0 by {
        assert(i == 1 || i == 2 || i == 3 || i == 4 || i == 5 || i == 6 || i == 7);
    }
    lemma_first_match_none(t, "nope"@, 0);
}

proof fn lemma_category_names_facts()
    ensures
        forall|i: int| 1 <= i < 9 ==> #[trigger] category_names()[i].len() > 0,
        first_match(category_names(), "nope"@, 0) == UNKNOWN_ID as int,
{
    reveal_strlit("nope");
    assert("nope"@.len() == 4);
    let t = category_names();
    assert(t[0].len() == 0);
    assert(t[1].len() == 7);
    assert(t[2].len() == 6);
    assert(t[3].len() == 10);
    assert(t[4].len() == 12);
    assert(t[5][0] != "nope"@[0]);
    assert(t[6][0] != "nope"@[0]);
    assert(t[7].len() == 12);
    assert(t[8].len() == 10);
    assert forall|i: int| 0 <= i < 9 implies t[i] != "nope"@ by {
        assert(i == 0 || i == 1 || i == 2 || i == 3 || i == 4 || i == 5 || i == 6 || i == 7 || i == 8);
    }
    assert forall|i: int| 1 <= i < 9 implies #[trigger] t[i].len() > 0 by {
        assert(i == 1 || i == 2 || i == 3 || i == 4 || i == 5 || i == 6 || i == 7 || i == 8);
    }
    lemma_first_match_none(t, "nope"@, 0);
}

proof fn lemma_decoration_names_facts()
    ensures
        forall|i: int| 1 <= i < 7 ==> #[trigger] decoration_names()[i].len() > 0,
        first_match(decoration_names(), "nope"@, 0) == UNKNOWN_ID as int,
{
    reveal_strlit("nope");
    assert("nope"@.len() == 4);
    let t = decoration_names();
    assert(t[0].len() == 9);
    assert(t[1].len() == 10);
    assert(t[2].len() == 8);
    assert(t[3].len() == 9);
    assert(t[4].len() == 11);
    assert(t[5].len() == 11);
    assert(t[6].len() == 12);
    assert forall|i: int| 0 <= i < 7 implies t[i] != "nope"@ by {
        assert(i == 0 || i == 1 || i == 2 || i == 3 || i == 4 || i == 5 || i == 6);
    }
    assert forall|i: int| 1 <= i < 7 implies #[trigger] t[i].len() > 0 by {
        assert(i == 1 || i == 2 || i == 3 || i == 4 || i == 5 || i == 6);
    }
    lemma_first_match_none(t, "nope"@, 0);
}

proof fn lemma_division_names_facts()
    ensures
        forall|i: int| 1 <= i < 4 ==> #[trigger] division_names()[i].len() > 0,
        first_match(division_names(), "nope"@, 0) == UNKNOWN_ID as int,
{
    reveal_strlit("nope");
    assert("nope"@.len() == 4);
    let t = division_names();
    assert(t[0].len() == 3);
    assert(t[1][0] != "nope"@[0]);
    assert(t[2][1] != "nope"@[1]);
    assert(t[3].len() == 12);
    assert forall|i: int| 0 <= i < 4 implies t[i] != "nope"@ by {
        assert(i == 0 || i == 1 || i == 2 || i == 3);
    }
    assert forall|i: int| 1 <= i < 4 implies #[trigger] t[i].len() > 0 by {
        assert(i == 1 || i == 2 || i == 3);
    }
    lemma_first_match_none(t, "nope"@, 0);
}

proof fn lemma_place_names_facts()
    ensures
        forall|i: int| 1 <= i < 2 ==> #[trigger] place_names()[i].len() > 0,
        first_match(place_names(), "nope"@, 0) == UNKNOWN_ID as int,
{
    reveal_strlit("nope");
    assert("nope"@.len() == 4);
    let t = place_names();
    assert(t[0].len() == 6);
    assert(t[1].len() == 7);
    assert forall|i: int| 0 <= i < 2 implies t[i] != "nope"@ by {
        assert(i == 0 || i == 1);
    }
    assert forall|i: int| 1 <= i < 2 implies #[trigger] t[i].len() > 0 by {
        assert(i == 1);
    }
    lemma_first_match_none(t, "nope"@, 0);
}

/// Every table has names, every name past the first is non-empty, an id past a table names
/// nothing, and a word that is no name of a table is looked up as 255.
pub proof fn name_table_facts(table: u8)
    requires
        table <= QVP_NAMES_PLACE,
    ensures
        table_names(table).len() > 0,
        forall|id: int| 1 <= id < table_names(table).len() ==> #[trigger] table_name(table, id).len() > 0,
        table_name(table, 200) == Seq::<char>::empty(),
        first_match(table_names(table), "nope"@, 0) == UNKNOWN_ID as int,
{
    lemma_mark_names_facts();
    lemma_kind_names_facts();
    lemma_family_names_facts();
    lemma_category_names_facts();
    lemma_decoration_names_facts();
    lemma_division_names_facts();
    lemma_place_names_facts();
    assert forall|id: int| 1 <= id < table_names(table).len() implies #[trigger] table_name(table, id).len() > 0 by {
        assert(table_name(table, id) == table_names(table)[id]);
    }
}

/// Four names the tables give by id: a mark, a decoration kind, a division and a place.
pub proof fn some_names()
    ensures
        table_name(QVP_NAMES_MARK, 7) == "shaddah"@,
        table_name(QVP_NAMES_DECORATION, 0) == "ayah-mark"@,
        table_name(QVP_NAMES_DIVISION, 3) == "rubu_al_hizb"@,
        table_name(QVP_NAMES_PLACE, 1) == "madinah"@,
{
    reveal_strlit("shaddah");
    reveal_strlit("ayah-mark");
    reveal_strlit("rubu_al_hizb");
    reveal_strlit("madinah");
    assert(table_name(QVP_NAMES_MARK, 7) =~= "shaddah"@);
    assert(table_name(QVP_NAMES_DECORATION, 0) =~= "ayah-mark"@);
    assert(table_name(QVP_NAMES_DIVISION, 3) =~= "rubu_al_hizb"@);
    assert(table_name(QVP_NAMES_PLACE, 1) =~= "madinah"@);
}

} // verus!
