//! The cross-page atlas: each page's first and last ayah, each surah's first page and names, and
//! where each rubu' al-hizb starts, gathered page by page.
use vstd::prelude::*;
use std::collections::BTreeMap;
use crate::forms::{parse_u16, parse_u16_chars};
use crate::meta::{split_at_char, split_char, string_of};
use crate::model::{AyahRec, DecoKind, DecoRec, PageData, WordRec, NONE_U16};
use crate::strings::chars_of;

verus! {

/// A page of the atlas: its number, its first and last (surah, ayah), and how many words it has.
#[derive(Clone, Copy, Debug)]
pub struct AtlasPage {
    pub page: u16,
    pub first: (u16, u16),
    pub last: (u16, u16),
    pub n_words: u16,
}

/// A surah of the atlas: its number, first page, ayah count, place of revelation (0 makkah,
/// 1 madinah, 255 unknown) and names.
#[derive(Clone, Debug)]
pub struct AtlasSurah {
    pub n: u16,
    pub first_page: u16,
    pub ayah_count: u16,
    pub place: u8,
    pub arabic: String,
    pub latin: String,
    pub english: String,
}

pub type AtlasSurahView = (u16, u16, u16, u8, Seq<char>, Seq<char>, Seq<char>);

impl View for AtlasSurah {
    type V = AtlasSurahView;

    open spec fn view(&self) -> AtlasSurahView {
        (self.n, self.first_page, self.ayah_count, self.place, self.arabic@, self.latin@, self.english@)
    }
}

/// Where a rubu' al-hizb starts: its ayah and page.
#[derive(Clone, Copy, Debug, PartialEq, Eq, Structural)]
pub struct AtlasRubuAlHizb {
    pub rubu_al_hizb: u16,
    pub surah: u16,
    pub ayah: u16,
    pub page: u16,
}

/// The atlas: pages in page order, surahs and rubu' al-hizb starts in number order.
pub struct Atlas {
    pub pages: Vec<AtlasPage>,
    pub surahs: Vec<AtlasSurah>,
    pub rubu_al_hizbs: Vec<AtlasRubuAlHizb>,
}

/// The atlas being gathered, page by page.
pub struct Builder {
    pub pages: Vec<AtlasPage>,
    pub surahs: BTreeMap<u16, AtlasSurah>,
    pub rubu_al_hizbs: BTreeMap<u16, AtlasRubuAlHizb>,
}

pub open spec fn surah_views(m: Map<u16, AtlasSurah>) -> Map<u16, AtlasSurahView> {
    m.map_values(|s: AtlasSurah| s@)
}

pub open spec fn string_views(ss: Seq<String>) -> Seq<Seq<char>> {
    ss.map_values(|s: String| s@)
}

/// A surah first seen on `page`, with nothing known of it yet.
pub open spec fn new_surah(n: u16, page: u16) -> AtlasSurahView {
    (n, page, 0, 255, Seq::empty(), Seq::empty(), Seq::empty())
}

pub open spec fn min_page(a: u16, b: u16) -> u16 {
    if a < b { a } else { b }
}

/// The surahs after the words of a page: each word's surah is known, first seen on the earliest
/// page that holds one of its words.
pub open spec fn word_surahs(m: Map<u16, AtlasSurahView>, ws: Seq<WordRec>, page: u16) -> Map<u16, AtlasSurahView>
    decreases ws.len(),
{
    if ws.len() == 0 {
        m
    } else {
        let m1 = word_surahs(m, ws.drop_last(), page);
        let k = ws.last().surah;
        if m1.contains_key(k) {
            let s = m1[k];
            m1.insert(k, (s.0, min_page(page, s.1), s.2, s.3, s.4, s.5, s.6))
        } else {
            m1.insert(k, new_surah(k, page))
        }
    }
}

/// The place code of a place name.
pub open spec fn place_code(s: Seq<char>) -> u8 {
    if s == "makkah"@ {
        0
    } else if s == "madinah"@ {
        1
    } else {
        255
    }
}

/// The surahs after the surah banners of a page: a banner whose text splits on '|' into at
/// least five fields gives its surah's names, place and ayah count (0 when not a number).
pub open spec fn name_surahs(
    m: Map<u16, AtlasSurahView>,
    ds: Seq<DecoRec>,
    strs: Seq<Seq<char>>,
    page: u16,
) -> Map<u16, AtlasSurahView>
    decreases ds.len(),
{
    if ds.len() == 0 {
        m
    } else {
        let m1 = name_surahs(m, ds.drop_last(), strs, page);
        let d = ds.last();
        if d.kind == DecoKind::SurahName && d.text != NONE_U16 {
            let fr = split_at_char(strs[d.text as int], '|');
            if fr.len() < 5 {
                m1
            } else {
                let s0 = if m1.contains_key(d.surah) { m1[d.surah] } else { new_surah(d.surah, page) };
                m1.insert(
                    d.surah,
                    (
                        s0.0,
                        min_page(s0.1, page),
                        match parse_u16(fr[4]) {
                            Some(v) => v,
                            None => 0,
                        },
                        place_code(fr[3]),
                        fr[0],
                        fr[1],
                        fr[2],
                    ),
                )
            }
        } else {
            m1
        }
    }
}

/// The rubu' al-hizb starts after the ayahs of a page: the first ayah seen with a rubu' number.
pub open spec fn rubu_starts(m: Map<u16, AtlasRubuAlHizb>, ays: Seq<AyahRec>, page: u16) -> Map<u16, AtlasRubuAlHizb>
    decreases ays.len(),
{
    if ays.len() == 0 {
        m
    } else {
        let m1 = rubu_starts(m, ays.drop_last(), page);
        let a = ays.last();
        if a.rubu_al_hizb != 0 && !m1.contains_key(a.rubu_al_hizb) {
            m1.insert(a.rubu_al_hizb, AtlasRubuAlHizb { rubu_al_hizb: a.rubu_al_hizb, surah: a.surah, ayah: a.ayah, page })
        } else {
            m1
        }
    }
}

/// Every surah banner that names a text names one the page holds: what reading a page's banners
/// asks of it.
pub open spec fn banner_texts_in_range(p: &PageData) -> bool {
    forall|i: int|
        0 <= i < p.decorations@.len() && (#[trigger] p.decorations@[i]).kind == DecoKind::SurahName
            && p.decorations@[i].text != NONE_U16 ==> (p.decorations@[i].text as int) < p.strings@.len()
}

/// The page's entry, when it has words.
pub open spec fn page_entries(d: &PageData) -> Seq<AtlasPage> {
    let ws = d.words@;
    if ws.len() == 0 {
        Seq::empty()
    } else {
        seq![
            AtlasPage {
                page: d.page,
                first: (ws[0].surah, ws[0].ayah),
                last: (ws.last().surah, ws.last().ayah),
                n_words: ws.len() as u16,
            },
        ]
    }
}

/// The pages numbered `k`, in their order.
pub open spec fn numbered(s: Seq<AtlasPage>, k: u16) -> Seq<AtlasPage> {
    s.filter(|p: AtlasPage| p.page == k)
}

/// The values of a map with 16-bit keys below `k`, in key order.
pub open spec fn values_below<V>(m: Map<u16, V>, k: int) -> Seq<V>
    decreases k,
{
    if k <= 0 {
        Seq::empty()
    } else {
        let rest = values_below(m, k - 1);
        if m.contains_key((k - 1) as u16) {
            rest.push(m[(k - 1) as u16])
        } else {
            rest
        }
    }
}

pub open spec fn in_key_order<V>(m: Map<u16, V>) -> Seq<V> {
    values_below(m, 0x1_0000)
}

fn copy_surah(s: &AtlasSurah) -> (r: AtlasSurah)
    ensures
        r@ == s@,
{
    AtlasSurah {
        n: s.n,
        first_page: s.first_page,
        ayah_count: s.ayah_count,
        place: s.place,
        arabic: s.arabic.clone(),
        latin: s.latin.clone(),
        english: s.english.clone(),
    }
}

fn same_text(v: &Vec<char>, s: &str) -> (r: bool)
    ensures
        r == (v@ == s@),
{
    let w = chars_of(s);
    if v.len() != w.len() {
        return false;
    }
    let mut i: usize = 0;
    while i < v.len()
        invariant
            v@.len() == w@.len(),
            w@ == s@,
            i <= v@.len(),
            forall|j: int| 0 <= j < i ==> v@[j] == w@[j],
        decreases v@.len() - i,
    {
        if v[i] != w[i] {
            return false;
        }
        i += 1;
    }
    assert(v@ =~= w@);
    true
}

/// `<[AtlasPage]>::sort_by_key` on the page number: a stable sort, so pages with one number keep
/// the order they came in.
#[verifier::external_body]
fn sort_pages(pages: &mut Vec<AtlasPage>)
    ensures
        final(pages)@.to_multiset() == old(pages)@.to_multiset(),
        forall|i: int, j: int|
            0 <= i <= j < final(pages)@.len() ==> (#[trigger] final(pages)@[i]).page <= (#[trigger] final(pages)@[j]).page,
        forall|k: u16|
            #[trigger] numbered(final(pages)@, k) == numbered(old(pages)@, k),
{
    pages.sort_by_key(|p: &AtlasPage| p.page);
}

impl Builder {
    pub fn new() -> (b: Builder)
        ensures
            b.pages@ == Seq::<AtlasPage>::empty(),
            b.surahs@ == Map::<u16, AtlasSurah>::empty(),
            b.rubu_al_hizbs@ == Map::<u16, AtlasRubuAlHizb>::empty(),
    {
        Builder { pages: Vec::new(), surahs: BTreeMap::new(), rubu_al_hizbs: BTreeMap::new() }
    }

    /// Take in a page: its entry, the surahs of its words, the names its surah banners give, and
    /// the rubu' al-hizb starts of its ayahs.
    pub fn add_page(&mut self, p: &PageData)
        requires
            banner_texts_in_range(p),
        ensures
            final(self).pages@ == old(self).pages@ + page_entries(p),
            surah_views(final(self).surahs@) == name_surahs(
                word_surahs(surah_views(old(self).surahs@), p.words@, p.page),
                p.decorations@,
                string_views(p.strings@),
                p.page,
            ),
            final(self).rubu_al_hizbs@ == rubu_starts(old(self).rubu_al_hizbs@, p.ayahs@, p.page),
    {
        let page = p.page;
        let n = p.words.len();
        if n > 0 {
            let f = p.words[0];
            let l = p.words[n - 1];
            self.pages.push(AtlasPage { page, first: (f.surah, f.ayah), last: (l.surah, l.ayah), n_words: n as u16 });
        }
        self.add_words(p);
        self.add_names(p);
        self.add_rubu(p);
    }

    fn add_words(&mut self, p: &PageData)
        ensures
            final(self).pages == old(self).pages,
            final(self).rubu_al_hizbs == old(self).rubu_al_hizbs,
            surah_views(final(self).surahs@) == word_surahs(surah_views(old(self).surahs@), p.words@, p.page),
    {
        let page = p.page;
        let ghost start = surah_views(self.surahs@);
        let mut i: usize = 0;
        while i < p.words.len()
            invariant
                i <= p.words@.len(),
                self.pages == old(self).pages,
                self.rubu_al_hizbs == old(self).rubu_al_hizbs,
                start == surah_views(old(self).surahs@),
                page == p.page,
                surah_views(self.surahs@) == word_surahs(start, p.words@.take(i as int), page),
            decreases p.words@.len() - i,
        {
            let k = p.words[i].surah;
            let ghost before = surah_views(self.surahs@);
            assert(p.words@.take(i + 1).drop_last() =~= p.words@.take(i as int));
            assert(p.words@.take(i + 1).last() == p.words@[i as int]);
            match self.surahs.get(&k) {
                Some(s) => {
                    if page < s.first_page {
                        let mut t = copy_surah(s);
                        t.first_page = page;
                        self.surahs.insert(k, t);
                        assert(surah_views(self.surahs@) =~= before.insert(k, t@));
                    } else {
                        assert(before.insert(k, before[k]) =~= before);
                    }
                },
                None => {
                    let t = AtlasSurah {
                        n: k,
                        first_page: page,
                        ayah_count: 0,
                        place: 255,
                        arabic: String::new(),
                        latin: String::new(),
                        english: String::new(),
                    };
                    self.surahs.insert(k, t);
                    assert(surah_views(self.surahs@) =~= before.insert(k, t@));
                },
            }
            i += 1;
        }
        assert(p.words@.take(p.words@.len() as int) =~= p.words@);
    }

    fn add_names(&mut self, p: &PageData)
        requires
            banner_texts_in_range(p),
        ensures
            final(self).pages == old(self).pages,
            final(self).rubu_al_hizbs == old(self).rubu_al_hizbs,
            surah_views(final(self).surahs@) == name_surahs(
                surah_views(old(self).surahs@),
                p.decorations@,
                string_views(p.strings@),
                p.page,
            ),
    {
        let page = p.page;
        let ghost start = surah_views(self.surahs@);
        let ghost strs = string_views(p.strings@);
        let mut i: usize = 0;
        while i < p.decorations.len()
            invariant
                banner_texts_in_range(p),
                i <= p.decorations@.len(),
                self.pages == old(self).pages,
                self.rubu_al_hizbs == old(self).rubu_al_hizbs,
                start == surah_views(old(self).surahs@),
                strs == string_views(p.strings@),
                page == p.page,
                surah_views(self.surahs@) == name_surahs(start, p.decorations@.take(i as int), strs, page),
            decreases p.decorations@.len() - i,
        {
            let d = p.decorations[i];
            let ghost before = surah_views(self.surahs@);
            assert(p.decorations@.take(i + 1).drop_last() =~= p.decorations@.take(i as int));
            assert(p.decorations@.take(i + 1).last() == p.decorations@[i as int]);
            if d.kind == DecoKind::SurahName && d.text != NONE_U16 {
                let fr = split_char(p.strings[d.text as usize].as_str(), '|');
                let ghost frs = split_at_char(strs[d.text as int], '|');
                assert(p.strings@[d.text as int]@ == strs[d.text as int]);
                if fr.len() >= 5 {
                    assert(fr@[0]@ == frs[0] && fr@[1]@ == frs[1] && fr@[2]@ == frs[2] && fr@[3]@ == frs[3] && fr@[4]@ == frs[4]);
                    let first = match self.surahs.get(&d.surah) {
                        Some(s) => s.first_page,
                        None => page,
                    };
                    let ghost s0 = if before.contains_key(d.surah) { before[d.surah] } else { new_surah(d.surah, page) };
                    assert(first == s0.1);
                    let n = match self.surahs.get(&d.surah) {
                        Some(s) => s.n,
                        None => d.surah,
                    };
                    assert(n == s0.0);
                    let place: u8 = if same_text(&fr[3], "makkah") {
                        0
                    } else if same_text(&fr[3], "madinah") {
                        1
                    } else {
                        255
                    };
                    let count = match parse_u16_chars(&fr[4]) {
                        Some(v) => v,
                        None => 0,
                    };
                    let t = AtlasSurah {
                        n,
                        first_page: if first < page { first } else { page },
                        ayah_count: count,
                        place,
                        arabic: string_of(&fr[0]),
                        latin: string_of(&fr[1]),
                        english: string_of(&fr[2]),
                    };
                    self.surahs.insert(d.surah, t);
                    assert(surah_views(self.surahs@) =~= before.insert(d.surah, t@));
                }
            }
            i += 1;
        }
        assert(p.decorations@.take(p.decorations@.len() as int) =~= p.decorations@);
    }

    fn add_rubu(&mut self, p: &PageData)
        ensures
            final(self).pages == old(self).pages,
            final(self).surahs == old(self).surahs,
            final(self).rubu_al_hizbs@ == rubu_starts(old(self).rubu_al_hizbs@, p.ayahs@, p.page),
    {
        let mut i: usize = 0;
        while i < p.ayahs.len()
            invariant
                i <= p.ayahs@.len(),
                self.pages == old(self).pages,
                self.surahs == old(self).surahs,
                self.rubu_al_hizbs@ == rubu_starts(old(self).rubu_al_hizbs@, p.ayahs@.take(i as int), p.page),
            decreases p.ayahs@.len() - i,
        {
            let a = p.ayahs[i];
            assert(p.ayahs@.take(i + 1).drop_last() =~= p.ayahs@.take(i as int));
            assert(p.ayahs@.take(i + 1).last() == p.ayahs@[i as int]);
            if a.rubu_al_hizb != 0 && !self.rubu_al_hizbs.contains_key(&a.rubu_al_hizb) {
                self.rubu_al_hizbs.insert(
                    a.rubu_al_hizb,
                    AtlasRubuAlHizb { rubu_al_hizb: a.rubu_al_hizb, surah: a.surah, ayah: a.ayah, page: p.page },
                );
            }
            i += 1;
        }
        assert(p.ayahs@.take(p.ayahs@.len() as int) =~= p.ayahs@);
    }

    /// The atlas: pages sorted by page number (pages with one number in the order they came),
    /// surahs and rubu' al-hizb starts in number order.
    pub fn build(self) -> (a: Atlas)
        ensures
            a.pages@.to_multiset() == self.pages@.to_multiset(),
            forall|i: int, j: int| 0 <= i <= j < a.pages@.len() ==> (#[trigger] a.pages@[i]).page <= (#[trigger] a.pages@[j]).page,
            forall|k: u16|
                #[trigger] numbered(a.pages@, k) == numbered(self.pages@, k),
            a.surahs@.map_values(|s: AtlasSurah| s@) == in_key_order(surah_views(self.surahs@)),
            a.rubu_al_hizbs@ == in_key_order(self.rubu_al_hizbs@),
    {
        let mut pages = self.pages;
        sort_pages(&mut pages);
        let mut surahs: Vec<AtlasSurah> = Vec::new();
        let mut rubu: Vec<AtlasRubuAlHizb> = Vec::new();
        let ghost sv = surah_views(self.surahs@);
        let mut k: u32 = 0;
        while k < 0x1_0000
            invariant
                k <= 0x1_0000,
                sv == surah_views(self.surahs@),
                surahs@.map_values(|s: AtlasSurah| s@) == values_below(sv, k as int),
                rubu@ == values_below(self.rubu_al_hizbs@, k as int),
            decreases 0x1_0000 - k,
        {
            let key = k as u16;
            let ghost before = surahs@.map_values(|s: AtlasSurah| s@);
            match self.surahs.get(&key) {
                Some(s) => {
                    let t = copy_surah(s);
                    surahs.push(t);
                    assert(surahs@.map_values(|s: AtlasSurah| s@) =~= before.push(sv[key]));
                },
                None => {},
            }
            match self.rubu_al_hizbs.get(&key) {
                Some(r) => {
                    rubu.push(*r);
                },
                None => {},
            }
            k += 1;
        }
        Atlas { pages, surahs, rubu_al_hizbs: rubu }
    }
}

impl Default for Builder {
    fn default() -> (b: Builder)
        ensures
            b.pages@ == Seq::<AtlasPage>::empty(),
            b.surahs@ == Map::<u16, AtlasSurah>::empty(),
            b.rubu_al_hizbs@ == Map::<u16, AtlasRubuAlHizb>::empty(),
    {
        Builder::new()
    }
}

} // verus!
