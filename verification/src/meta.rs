//! Metadata read off the page: surahs, divisions, sajdahs, rosettes, header lines and labels.
use vstd::prelude::*;
use crate::model::{AyahRec, DecoKind, DecoRec, IBox, PageData, PathKind, PathRec, AF_HIZB_START, AF_JUZ_START, AF_NISF_START, AF_RUBU_AL_HIZB_START, MARK_SAJDAH_SIGN, NONE_U16};
use crate::page::Page;
use crate::forms::{parse_u16, parse_u16_chars, texts_of};
use crate::strings::{push_char, push_str, chars_of, text_of_str, same_chars};
use crate::selection::{decimal, push_decimal};
use crate::forms::form_text;
use crate::text::Form;
use crate::style::NONE;

verus! {

/// The pieces of `s` split at every `sep`, as `str::split` gives them.
pub open spec fn split_at_char(s: Seq<char>, sep: char) -> Seq<Seq<char>>
    decreases s.len(),
{
    if s.len() == 0 {
        seq![Seq::<char>::empty()]
    } else {
        let ps = split_at_char(s.drop_last(), sep);
        if s.last() == sep {
            ps.push(Seq::empty())
        } else {
            ps.update(ps.len() - 1, ps.last().push(s.last()))
        }
    }
}

proof fn lemma_split_len(s: Seq<char>, sep: char)
    ensures
        split_at_char(s, sep).len() >= 1,
    decreases s.len(),
{
    if s.len() > 0 {
        lemma_split_len(s.drop_last(), sep);
    }
}

/// The pieces of a string split at `sep`.
pub fn split_char(s: &str, sep: char) -> (ps: Vec<Vec<char>>)
    ensures
        ps@.len() == split_at_char(s@, sep).len(),
        forall|i: int| 0 <= i < ps@.len() ==> #[trigger] ps@[i]@ == split_at_char(s@, sep)[i],
{
    let cs = chars_of(s);
    let mut ps: Vec<Vec<char>> = Vec::new();
    ps.push(Vec::new());
    let mut k: usize = 0;
    assert(s@.take(0) =~= Seq::<char>::empty());
    while k < cs.len()
        invariant
            cs@ == s@,
            k <= cs@.len(),
            ps@.len() == split_at_char(s@.take(k as int), sep).len(),
            ps@.len() >= 1,
            forall|i: int| 0 <= i < ps@.len() ==> #[trigger] ps@[i]@ == split_at_char(s@.take(k as int), sep)[i],
        decreases cs@.len() - k,
    {
        let c = cs[k];
        assert(s@.take(k + 1).drop_last() =~= s@.take(k as int));
        assert(s@.take(k + 1).last() == c);
        if c == sep {
            ps.push(Vec::new());
        } else {
            let mut cur = ps.pop().unwrap();
            cur.push(c);
            ps.push(cur);
        }
        proof {
            let now = split_at_char(s@.take(k + 1), sep);
            assert forall|i: int| 0 <= i < ps@.len() implies #[trigger] ps@[i]@ == now[i] by {}
        }
        k += 1;
    }
    assert(s@.take(cs@.len() as int) =~= s@);
    ps
}

pub(crate) fn string_of(cs: &Vec<char>) -> (s: String)
    ensures
        s@ == cs@,
{
    let mut s = String::new();
    let mut k: usize = 0;
    while k < cs.len()
        invariant
            k <= cs@.len(),
            s@ == cs@.take(k as int),
        decreases cs@.len() - k,
    {
        push_char(&mut s, cs[k]);
        assert(cs@.take(k + 1) =~= cs@.take(k as int).push(cs@[k as int]));
        k += 1;
    }
    assert(cs@.take(k as int) =~= cs@);
    s
}

#[derive(Clone, Debug, PartialEq, Eq)]
pub struct SurahInfo {
    pub number: u16,
    pub arabic: String,
    pub latin: String,
    pub english: String,
    /// "makkah" | "madinah" | ""
    pub revelation_place: String,
    pub ayah_count: u16,
    pub has_banner: bool,
    pub has_basmalah: bool,
    /// deco index of the banner, or NONE
    pub banner_deco: u32,
}

/// A surah's facts as plain values: its number, names, place, ayah count, whether its banner and
/// basmalah are on the page, and the banner's decoration.
pub type SurahView = (u16, Seq<char>, Seq<char>, Seq<char>, Seq<char>, u16, bool, bool, u32);

impl View for SurahInfo {
    type V = SurahView;

    open spec fn view(&self) -> SurahView {
        (
            self.number,
            self.arabic@,
            self.latin@,
            self.english@,
            self.revelation_place@,
            self.ayah_count,
            self.has_banner,
            self.has_basmalah,
            self.banner_deco,
        )
    }
}

pub open spec fn blank_surah(n: u16) -> SurahView {
    (n, Seq::empty(), Seq::empty(), Seq::empty(), Seq::empty(), 0, false, false, NONE)
}

pub open spec fn is_header(d: DecoRec) -> bool {
    d.kind == DecoKind::SurahName || d.kind == DecoKind::Basmalah
}

/// A header decoration's effect on its surah's facts: its text, when it holds five '|' fields or
/// more, gives the names, place and ayah count; a banner marks the banner, else the basmalah.
pub open spec fn apply_header(v: SurahView, d: DecoRec, di: int, strs: Seq<Seq<char>>) -> SurahView {
    let p = if d.text != NONE_U16 { split_at_char(strs[d.text as int], '|') } else { Seq::empty() };
    let named = if d.text != NONE_U16 && p.len() >= 5 {
        (v.0, p[0], p[1], p[2], p[3], match parse_u16(p[4]) { Some(n) => n, None => 0 }, v.6, v.7, v.8)
    } else {
        v
    };
    if d.kind == DecoKind::SurahName {
        (named.0, named.1, named.2, named.3, named.4, named.5, true, named.7, di as u32)
    } else {
        (named.0, named.1, named.2, named.3, named.4, named.5, named.6, true, named.8)
    }
}

/// Surah `n`'s facts after the first `k` decorations.
pub open spec fn surah_facts(d: &PageData, n: u16, k: int) -> SurahView
    decreases k,
{
    if k <= 0 {
        blank_surah(n)
    } else {
        let prev = surah_facts(d, n, k - 1);
        let dc = d.decorations@[k - 1];
        if is_header(dc) && dc.surah == n {
            apply_header(prev, dc, k - 1, texts_of(d.strings@))
        } else {
            prev
        }
    }
}

/// The surahs a page shows: those of its words, and those of its banners and basmalahs.
pub open spec fn page_surah(d: &PageData, n: u16) -> bool {
    ||| exists|i: int| 0 <= i < d.words@.len() && (#[trigger] d.words@[i]).surah == n
    ||| exists|i: int| 0 <= i < d.decorations@.len() && is_header(#[trigger] d.decorations@[i]) && d.decorations@[i].surah == n
}

pub open spec fn has_number(v: Seq<SurahInfo>, n: u16) -> bool {
    exists|k: int| 0 <= k < v.len() && #[trigger] v[k].number == n
}

pub open spec fn word_surah_in(d: &PageData, n: u16, i: int) -> bool {
    exists|t: int| 0 <= t < i && (#[trigger] d.words@[t]).surah == n
}

pub open spec fn header_surah_in(d: &PageData, n: u16, j: int) -> bool {
    exists|t: int| 0 <= t < j && is_header(#[trigger] d.decorations@[t]) && d.decorations@[t].surah == n
}

/// Insert a blank entry for surah `n` in a list sorted by number, unless it is there. Gives its
/// position.
fn find_or_insert(v: &mut Vec<SurahInfo>, n: u16) -> (pos: usize)
    requires
        forall|a: int, b: int| 0 <= a < b < old(v)@.len() ==> old(v)@[a].number < old(v)@[b].number,
    ensures
        pos < final(v)@.len(),
        final(v)@[pos as int].number == n,
        forall|a: int, b: int| 0 <= a < b < final(v)@.len() ==> final(v)@[a].number < final(v)@[b].number,
        has_number(old(v)@, n) ==> final(v)@ == old(v)@,
        !has_number(old(v)@, n) ==> {
            &&& final(v)@.len() == old(v)@.len() + 1
            &&& pos <= old(v)@.len()
            &&& forall|k: int| 0 <= k < pos ==> #[trigger] final(v)@[k] == old(v)@[k]
            &&& forall|k: int| pos < k < final(v)@.len() ==> #[trigger] final(v)@[k] == old(v)@[k - 1]
            &&& final(v)@[pos as int]@ == blank_surah(n)
        },
{
    let mut pos: usize = 0;
    while pos < v.len() && v[pos].number < n
        invariant
            pos <= v@.len(),
            forall|k: int| 0 <= k < pos ==> v@[k].number < n,
        decreases v@.len() - pos,
    {
        pos += 1;
    }
    if pos < v.len() && v[pos].number == n {
        return pos;
    }
    let ghost v0 = v@;
    proof {
        assert forall|k: int| 0 <= k < v0.len() implies v0[k].number != n by {
            if k >= pos {
                if k > pos {
                    assert(v0[pos as int].number < v0[k].number);
                }
            }
        }
        assert forall|t: int| pos <= t < v0.len() implies v0[t].number > n by {
            if t > pos {
                assert(v0[pos as int].number < v0[t].number);
            }
        }
    }
    let blank = SurahInfo {
        number: n,
        arabic: String::new(),
        latin: String::new(),
        english: String::new(),
        revelation_place: String::new(),
        ayah_count: 0,
        has_banner: false,
        has_basmalah: false,
        banner_deco: NONE,
    };
    v.insert(pos, blank);
    proof {
        let v1 = v@;
        assert(!has_number(v0, n));
        assert forall|a: int, b: int| 0 <= a < b < v1.len() implies v1[a].number < v1[b].number by {
            if a > pos {
                assert(v1[a] == v0[a - 1]);
            }
            if b > pos {
                assert(v1[b] == v0[b - 1]);
            }
        }
    }
    pos
}

proof fn lemma_facts_blank(d: &PageData, n: u16, k: int)
    requires
        0 <= k <= d.decorations@.len(),
        !header_surah_in(d, n, k),
    ensures
        surah_facts(d, n, k) == blank_surah(n),
    decreases k,
{
    if k > 0 {
        assert(!header_surah_in(d, n, k - 1)) by {
            if header_surah_in(d, n, k - 1) {
                let t = choose|t: int| 0 <= t < k - 1 && is_header(#[trigger] d.decorations@[t]) && d.decorations@[t].surah == n;
                assert(header_surah_in(d, n, k));
            }
        }
        lemma_facts_blank(d, n, k - 1);
    }
}

/// A surah's facts with one header decoration applied.
fn header_applied(info: &SurahInfo, dc: &DecoRec, di: usize, d: &PageData) -> (s: SurahInfo)
    requires
        d.wf(),
        d.deco_ok(*dc),
        di < u32::MAX,
        is_header(*dc),
    ensures
        s@ == apply_header(info@, *dc, di as int, texts_of(d.strings@)),
{
    let mut s = SurahInfo {
        number: info.number,
        arabic: info.arabic.clone(),
        latin: info.latin.clone(),
        english: info.english.clone(),
        revelation_place: info.revelation_place.clone(),
        ayah_count: info.ayah_count,
        has_banner: info.has_banner,
        has_basmalah: info.has_basmalah,
        banner_deco: info.banner_deco,
    };
    if dc.text != NONE_U16 {
        let p = split_char(d.strings[dc.text as usize].as_str(), '|');
        proof {
            assert(texts_of(d.strings@)[dc.text as int] == d.strings@[dc.text as int]@);
        }
        if p.len() >= 5 {
            s.arabic = string_of(&p[0]);
            s.latin = string_of(&p[1]);
            s.english = string_of(&p[2]);
            s.revelation_place = string_of(&p[3]);
            s.ayah_count = match parse_u16_chars(&p[4]) {
                Some(n) => n,
                None => 0,
            };
        }
    }
    if dc.kind == DecoKind::SurahName {
        s.has_banner = true;
        s.banner_deco = di as u32;
    } else {
        s.has_basmalah = true;
    }
    s
}

impl Page {
    /// The surahs on the page in ascending order, each with what its banner and basmalah say.
    pub fn surahs(&self) -> (v: Vec<SurahInfo>)
        requires
            self.wf(),
        ensures
            forall|a: int, b: int| 0 <= a < b < v@.len() ==> v@[a].number < v@[b].number,
            forall|n: u16| #[trigger] has_number(v@, n) <==> page_surah(&self.data, n),
            forall|k: int| 0 <= k < v@.len() ==> #[trigger] v@[k]@ == surah_facts(&self.data, v@[k].number, self.data.decorations@.len() as int),
    {
        let d = &self.data;
        let mut v: Vec<SurahInfo> = Vec::new();
        let mut i: usize = 0;
        while i < d.words.len()
            invariant
                d == &self.data,
                i <= d.words@.len(),
                forall|a: int, b: int| 0 <= a < b < v@.len() ==> v@[a].number < v@[b].number,
                forall|n: u16| #[trigger] has_number(v@, n) <==> word_surah_in(d, n, i as int),
                forall|k: int| 0 <= k < v@.len() ==> #[trigger] v@[k]@ == blank_surah(v@[k].number),
            decreases d.words@.len() - i,
        {
            let n = d.words[i].surah;
            let ghost v0 = v@;
            let pos = find_or_insert(&mut v, n);
            proof {
                assert forall|m: u16| #[trigger] has_number(v@, m) <==> word_surah_in(d, m, i + 1) by {
                    if has_number(v@, m) {
                        let k = choose|k: int| 0 <= k < v@.len() && #[trigger] v@[k].number == m;
                        if m != n {
                            if !has_number(v0, n) {
                                if k < pos {
                                    assert(v0[k] == v@[k]);
                                } else if k > pos {
                                    assert(v0[k - 1] == v@[k]);
                                }
                            }
                            assert(has_number(v0, m));
                        } else {
                            assert(d.words@[i as int].surah == m);
                        }
                    }
                    if word_surah_in(d, m, i + 1) {
                        if m != n {
                            let t = choose|t: int| 0 <= t < i + 1 && (#[trigger] d.words@[t]).surah == m;
                            assert(t != i);
                            assert(word_surah_in(d, m, i as int));
                            assert(has_number(v0, m));
                            let k = choose|k: int| 0 <= k < v0.len() && #[trigger] v0[k].number == m;
                            if !has_number(v0, n) {
                                if k < pos {
                                    assert(v@[k] == v0[k]);
                                } else {
                                    assert(v@[k + 1] == v0[(k + 1) - 1]);
                                }
                            }
                        } else {
                            assert(v@[pos as int].number == m);
                        }
                    }
                }
                assert forall|k: int| 0 <= k < v@.len() implies #[trigger] v@[k]@ == blank_surah(v@[k].number) by {
                    if !has_number(v0, n) {
                        if k < pos {
                            assert(v@[k] == v0[k]);
                        } else if k > pos {
                            assert(v@[k] == v0[k - 1]);
                        }
                    }
                }
            }
            i += 1;
        }
        proof {
            assert forall|k: int| 0 <= k < v@.len() implies #[trigger] v@[k]@ == surah_facts(d, v@[k].number, 0) by {}
        }
        let ghost strs = texts_of(d.strings@);
        let mut j: usize = 0;
        while j < d.decorations.len()
            invariant
                d == &self.data,
                d.wf(),
                strs == texts_of(d.strings@),
                j <= d.decorations@.len(),
                forall|a: int, b: int| 0 <= a < b < v@.len() ==> v@[a].number < v@[b].number,
                forall|n: u16| #[trigger] has_number(v@, n) <==> (word_surah_in(d, n, d.words@.len() as int) || header_surah_in(d, n, j as int)),
                forall|k: int| 0 <= k < v@.len() ==> #[trigger] v@[k]@ == surah_facts(d, v@[k].number, j as int),
            decreases d.decorations@.len() - j,
        {
            let dc = d.decorations[j];
            proof {
                assert(d.deco_ok(d.decorations@[j as int]));
                assert(d.decorations@[j as int] == dc);
            }
            if dc.kind == DecoKind::SurahName || dc.kind == DecoKind::Basmalah {
                let ghost v0 = v@;
                let pos = find_or_insert(&mut v, dc.surah);
                proof {
                    if !has_number(v0, dc.surah) {
                        lemma_facts_blank(d, dc.surah, j as int);
                    }
                }
                let s = header_applied(&v[pos], &dc, j, d);
                proof {
                    assert(s@ == surah_facts(d, dc.surah, j + 1));
                    assert forall|k: int| 0 <= k < v@.len() && k != pos implies #[trigger] v@[k]@ == surah_facts(
                        d,
                        v@[k].number,
                        j + 1,
                    ) by {
                        if !has_number(v0, dc.surah) {
                            if k < pos {
                                assert(v@[k] == v0[k]);
                            } else {
                                assert(v@[k] == v0[k - 1]);
                            }
                        }
                        assert(v@[k].number != dc.surah);
                    }
                }
                let ghost v1 = v@;
                v.set(pos, s);
                proof {
                    assert forall|m: u16| #[trigger] has_number(v@, m) <==> (word_surah_in(d, m, d.words@.len() as int) || header_surah_in(d, m, j + 1)) by {
                        if has_number(v@, m) {
                            let k = choose|k: int| 0 <= k < v@.len() && #[trigger] v@[k].number == m;
                            if m != dc.surah {
                                assert(v1[k].number == m);
                                if !has_number(v0, dc.surah) {
                                    if k < pos {
                                        assert(v0[k] == v1[k]);
                                    } else {
                                        assert(v0[k - 1] == v1[k]);
                                    }
                                }
                                assert(has_number(v0, m));
                                if header_surah_in(d, m, j as int) {
                                    let t = choose|t: int| 0 <= t < j && is_header(#[trigger] d.decorations@[t]) && d.decorations@[t].surah == m;
                                    assert(header_surah_in(d, m, j + 1));
                                }
                            } else {
                                assert(d.decorations@[j as int] == dc);
                                assert(header_surah_in(d, m, j + 1));
                            }
                        }
                        if word_surah_in(d, m, d.words@.len() as int) || header_surah_in(d, m, j + 1) {
                            if m == dc.surah {
                                assert(v@[pos as int].number == m);
                            } else {
                                if header_surah_in(d, m, j + 1) {
                                    let t = choose|t: int| 0 <= t < j + 1 && is_header(#[trigger] d.decorations@[t]) && d.decorations@[t].surah == m;
                                    assert(t != j);
                                    assert(header_surah_in(d, m, j as int));
                                }
                                assert(has_number(v0, m));
                                let k = choose|k: int| 0 <= k < v0.len() && #[trigger] v0[k].number == m;
                                if !has_number(v0, dc.surah) {
                                    if k < pos {
                                        assert(v@[k] == v0[k]);
                                    } else {
                                        assert(v@[k + 1] == v0[(k + 1) - 1]);
                                    }
                                } else {
                                    assert(v@[k] == v0[k]);
                                }
                            }
                        }
                    }
                }
            } else {
                proof {
                    assert forall|k: int| 0 <= k < v@.len() implies #[trigger] v@[k]@ == surah_facts(d, v@[k].number, j + 1) by {}
                    assert forall|m: u16| #[trigger] header_surah_in(d, m, j + 1) <==> header_surah_in(d, m, j as int) by {
                        if header_surah_in(d, m, j + 1) {
                            let t = choose|t: int| 0 <= t < j + 1 && is_header(#[trigger] d.decorations@[t]) && d.decorations@[t].surah == m;
                            assert(t != j);
                        }
                        if header_surah_in(d, m, j as int) {
                            let t = choose|t: int| 0 <= t < j && is_header(#[trigger] d.decorations@[t]) && d.decorations@[t].surah == m;
                            assert(header_surah_in(d, m, j + 1));
                        }
                    }
                }
            }
            j += 1;
        }
        v
    }
}

#[derive(Clone, Copy, Debug, PartialEq, Eq, Structural)]
pub struct Division {
    /// 0 juz, 1 hizb, 2 nisf, 3 rubu al-hizb
    pub kind: u8,
    pub n: u16,
    pub sura: u16,
    pub ayah: u16,
    pub line: u8,
    pub ayah_idx: u32,
}

/// A fragment that starts a division: it carries division flags and a rubu al-hizb number, and
/// is the ayah's first fragment.
pub open spec fn starts_division(a: AyahRec) -> bool {
    a.flags != 0 && a.rubu_al_hizb != 0 && a.fragment == 1
}

/// The printed line an ayah fragment starts on.
pub open spec fn ayah_line(d: &PageData, a: AyahRec) -> u8 {
    let li = if a.first_word < d.words@.len() { d.words@[a.first_word as int].line_index as int } else { 0 };
    d.lines@[li].line_number
}

pub open spec fn division_if(on: bool, kind: u8, n: int, a: AyahRec, line: u8, ai: int) -> Seq<Division> {
    if on {
        seq![Division { kind, n: n as u16, sura: a.surah, ayah: a.ayah, line, ayah_idx: ai as u32 }]
    } else {
        Seq::empty()
    }
}

/// The divisions the first `k` fragments start, in reading order: juz, hizb, nisf, then rubu
/// al-hizb for each.
pub open spec fn divisions_in(d: &PageData, k: int) -> Seq<Division>
    decreases k,
{
    if k <= 0 {
        Seq::empty()
    } else {
        let prev = divisions_in(d, k - 1);
        let a = d.ayahs@[k - 1];
        if !starts_division(a) {
            prev
        } else {
            let line = ayah_line(d, a);
            let r = a.rubu_al_hizb as int;
            prev + division_if(a.flags & AF_JUZ_START != 0, 0, (r - 1) / 8 + 1, a, line, k - 1) + division_if(
                a.flags & AF_HIZB_START != 0,
                1,
                (r - 1) / 4 + 1,
                a,
                line,
                k - 1,
            ) + division_if(a.flags & AF_NISF_START != 0, 2, (r - 1) / 2 + 1, a, line, k - 1) + division_if(
                a.flags & AF_RUBU_AL_HIZB_START != 0,
                3,
                r,
                a,
                line,
                k - 1,
            )
        }
    }
}

/// A page whose divisions can be read: a fragment that starts one has a line to start on.
pub open spec fn divisions_readable(d: &PageData) -> bool {
    d.lines@.len() > 0 || forall|k: int| 0 <= k < d.ayahs@.len() ==> !starts_division(#[trigger] d.ayahs@[k])
}

fn push_division_if(out: &mut Vec<Division>, on: bool, kind: u8, n: u16, a: &AyahRec, line: u8, ai: u32)
    ensures
        final(out)@ == old(out)@ + division_if(on, kind, n as int, *a, line, ai as int),
{
    if on {
        out.push(Division { kind, n, sura: a.surah, ayah: a.ayah, line, ayah_idx: ai });
    }
    assert(final(out)@ =~= old(out)@ + division_if(on, kind, n as int, *a, line, ai as int));
}

/// The sajdah signs among the paths `[lo, hi)` of decoration `di`.
pub open spec fn signs_in(d: &PageData, di: int, lo: int, hi: int) -> Seq<(u32, u16, u16, u32)>
    decreases hi - lo,
{
    if hi <= lo {
        Seq::empty()
    } else {
        let prev = signs_in(d, di, lo, hi - 1);
        if d.paths@[hi - 1].mark == MARK_SAJDAH_SIGN {
            let dc = d.decorations@[di];
            prev.push((di as u32, dc.surah, dc.ayah, (hi - 1) as u32))
        } else {
            prev
        }
    }
}

/// The sajdah signs of the first `k` decorations: (decoration, surah, ayah, sign path).
pub open spec fn sajdahs_in(d: &PageData, k: int) -> Seq<(u32, u16, u16, u32)>
    decreases k,
{
    if k <= 0 {
        Seq::empty()
    } else {
        let dc = d.decorations@[k - 1];
        sajdahs_in(d, k - 1) + signs_in(d, k - 1, dc.first_path as int, dc.first_path + dc.n_paths)
    }
}

#[derive(Clone, Copy, Debug, PartialEq, Eq, Structural)]
pub struct Rosette {
    pub deco: u32,
    pub sura: u16,
    pub ayah: u16,
    pub juz: u16,
    pub hizb: u16,
    pub nisf: u16,
    pub rub: u16,
    pub rub_in_hizb: u16,
}

/// What follows the first '=' of a piece, and what precedes it; None without an '='.
pub open spec fn key_value(p: Seq<char>) -> Option<(Seq<char>, Seq<char>)>
    decreases p.len(),
{
    if p.len() == 0 {
        None
    } else if p[0] == '=' {
        Some((Seq::empty(), p.drop_first()))
    } else {
        match key_value(p.drop_first()) {
            Some((k, v)) => Some((seq![p[0]] + k, v)),
            None => None,
        }
    }
}

/// The counts a rosette's "key=value;..." text gives, later keys overriding earlier ones:
/// (juz, hizb, nisf, rub).
pub open spec fn rosette_counts(ps: Seq<Seq<char>>) -> (u16, u16, u16, u16)
    decreases ps.len(),
{
    if ps.len() == 0 {
        (0, 0, 0, 0)
    } else {
        let (j, h, n, r) = rosette_counts(ps.drop_last());
        match key_value(ps.last()) {
            Some((k, v)) => {
                let x = match parse_u16(v) {
                    Some(x) => x,
                    None => 0,
                };
                if k == "juz"@ {
                    (x, h, n, r)
                } else if k == "hizb"@ {
                    (j, x, n, r)
                } else if k == "nisf"@ {
                    (j, h, x, r)
                } else if k == "rub"@ {
                    (j, h, n, x)
                } else {
                    (j, h, n, r)
                }
            },
            None => (j, h, n, r),
        }
    }
}

/// The counts of decoration `di`'s rosette.
pub open spec fn rosette_counts_of(d: &PageData, di: int) -> (u16, u16, u16, u16) {
    let dc = d.decorations@[di];
    if dc.text == NONE_U16 {
        (0, 0, 0, 0)
    } else {
        rosette_counts(split_at_char(texts_of(d.strings@)[dc.text as int], ';'))
    }
}

/// A rosette drawn for decoration `di`; its rubu al-hizb within the hizb when both are known.
pub open spec fn rosette_of(d: &PageData, di: int) -> Rosette {
    let dc = d.decorations@[di];
    let (j, h, n, r) = rosette_counts_of(d, di);
    Rosette {
        deco: di as u32,
        sura: dc.surah,
        ayah: dc.ayah,
        juz: j,
        hizb: h,
        nisf: n,
        rub: r,
        rub_in_hizb: if h > 0 && r > 0 { (r - (h - 1) * 4) as u16 } else { 0 },
    }
}

/// Every rosette's rubu al-hizb falls in or after its hizb: the subtraction stays in range.
pub open spec fn rosettes_readable(d: &PageData) -> bool {
    forall|di: int|
        0 <= di < d.decorations@.len() && (#[trigger] d.decorations@[di]).kind == DecoKind::HizbMark ==> ({
            let (j, h, n, r) = rosette_counts_of(d, di);
            h > 0 && r > 0 ==> (h - 1) * 4 <= r
        })
}

/// The rosettes of the first `k` decorations.
pub open spec fn rosettes_in(d: &PageData, k: int) -> Seq<Rosette>
    decreases k,
{
    if k <= 0 {
        Seq::empty()
    } else if d.decorations@[k - 1].kind == DecoKind::HizbMark {
        rosettes_in(d, k - 1).push(rosette_of(d, k - 1))
    } else {
        rosettes_in(d, k - 1)
    }
}

/// The key and value of a piece.
fn split_key_value(p: &Vec<char>) -> (r: Option<(String, String)>)
    ensures
        match r {
            Some((k, v)) => key_value(p@) == Some((k@, v@)),
            None => key_value(p@) is None,
        },
{
    let mut i: usize = 0;
    while i < p.len() && p[i] != '='
        invariant
            i <= p@.len(),
            forall|t: int| 0 <= t < i ==> p@[t] != '=',
        decreases p@.len() - i,
    {
        i += 1;
    }
    proof {
        lemma_key_value(p@, i as int);
    }
    if i == p.len() {
        return None;
    }
    let mut k = String::new();
    let mut t: usize = 0;
    while t < i
        invariant
            t <= i < p@.len(),
            k@ == p@.take(t as int),
        decreases i - t,
    {
        push_char(&mut k, p[t]);
        assert(p@.take(t + 1) =~= p@.take(t as int).push(p@[t as int]));
        t += 1;
    }
    let mut v = String::new();
    let mut u: usize = i + 1;
    while u < p.len()
        invariant
            i < u <= p@.len(),
            v@ == p@.subrange(i + 1, u as int),
        decreases p@.len() - u,
    {
        push_char(&mut v, p[u]);
        assert(p@.subrange(i + 1, u + 1) =~= p@.subrange(i + 1, u as int).push(p@[u as int]));
        u += 1;
    }
    Some((k, v))
}

proof fn lemma_key_value(p: Seq<char>, i: int)
    requires
        0 <= i <= p.len(),
        forall|t: int| 0 <= t < i ==> p[t] != '=',
        i < p.len() ==> p[i] == '=',
    ensures
        i == p.len() ==> key_value(p) is None,
        i < p.len() ==> key_value(p) == Some((p.take(i), p.subrange(i + 1, p.len() as int))),
    decreases p.len(),
{
    if p.len() > 0 && i > 0 {
        lemma_key_value(p.drop_first(), i - 1);
        if i < p.len() {
            assert(seq![p[0]] + p.drop_first().take(i - 1) =~= p.take(i));
            assert(p.drop_first().subrange(i, p.drop_first().len() as int) =~= p.subrange(i + 1, p.len() as int));
        }
    } else if p.len() > 0 && i == 0 {
        assert(p.take(0) =~= Seq::<char>::empty());
        assert(p.drop_first() =~= p.subrange(1, p.len() as int));
    }
}

impl Page {
    /// Divisions that start on this page, in reading order.
    pub fn divisions(&self) -> (out: Vec<Division>)
        requires
            self.wf(),
            divisions_readable(&self.data),
        ensures
            out@ == divisions_in(&self.data, self.data.ayahs@.len() as int),
    {
        let d = &self.data;
        let mut out: Vec<Division> = Vec::new();
        let mut ai: usize = 0;
        while ai < d.ayahs.len()
            invariant
                d == &self.data,
                d.wf(),
                divisions_readable(d),
                ai <= d.ayahs@.len(),
                out@ == divisions_in(d, ai as int),
            decreases d.ayahs@.len() - ai,
        {
            let a = d.ayahs[ai];
            assert(d.ayahs@[ai as int] == a);
            if a.flags != 0 && a.rubu_al_hizb != 0 && a.fragment == 1 {
                let li: usize = if (a.first_word as usize) < d.words.len() {
                    assert(d.word_ok(d.words@[a.first_word as int]));
                    d.words[a.first_word as usize].line_index as usize
                } else {
                    0
                };
                proof {
                    assert(starts_division(d.ayahs@[ai as int]));
                    assert(d.lines@.len() > 0);
                }
                let line = d.lines[li].line_number;
                let r = a.rubu_al_hizb;
                push_division_if(&mut out, a.flags & AF_JUZ_START != 0, 0, (r - 1) / 8 + 1, &a, line, ai as u32);
                push_division_if(&mut out, a.flags & AF_HIZB_START != 0, 1, (r - 1) / 4 + 1, &a, line, ai as u32);
                push_division_if(&mut out, a.flags & AF_NISF_START != 0, 2, (r - 1) / 2 + 1, &a, line, ai as u32);
                push_division_if(&mut out, a.flags & AF_RUBU_AL_HIZB_START != 0, 3, r, &a, line, ai as u32);
            }
            ai += 1;
        }
        out
    }

    /// Sajdah sites: (decoration, surah, ayah, sign path index).
    pub fn sajdahs(&self) -> (out: Vec<(u32, u16, u16, u32)>)
        requires
            self.wf(),
        ensures
            out@ == sajdahs_in(&self.data, self.data.decorations@.len() as int),
    {
        let d = &self.data;
        let mut out: Vec<(u32, u16, u16, u32)> = Vec::new();
        let mut di: usize = 0;
        while di < d.decorations.len()
            invariant
                d == &self.data,
                d.wf(),
                di <= d.decorations@.len(),
                out@ == sajdahs_in(d, di as int),
            decreases d.decorations@.len() - di,
        {
            let dc = d.decorations[di];
            assert(d.deco_ok(d.decorations@[di as int]));
            let end: u32 = dc.first_path + dc.n_paths as u32;
            let mut p: u32 = dc.first_path;
            let ghost base = out@;
            while p < end
                invariant
                    d == &self.data,
                    d.wf(),
                    dc == d.decorations@[di as int],
                    di < d.decorations@.len(),
                    dc.first_path <= p <= end,
                    end == dc.first_path + dc.n_paths,
                    end <= d.paths@.len(),
                    out@ == base + signs_in(d, di as int, dc.first_path as int, p as int),
                decreases end - p,
            {
                if d.paths[p as usize].mark == MARK_SAJDAH_SIGN {
                    out.push((di as u32, dc.surah, dc.ayah, p));
                }
                p += 1;
            }
            di += 1;
        }
        out
    }

    /// Drawn hizb rosettes, with the counts their text gives.
    pub fn rosettes(&self) -> (out: Vec<Rosette>)
        requires
            self.wf(),
            rosettes_readable(&self.data),
        ensures
            out@ == rosettes_in(&self.data, self.data.decorations@.len() as int),
    {
        let d = &self.data;
        let mut out: Vec<Rosette> = Vec::new();
        let mut di: usize = 0;
        while di < d.decorations.len()
            invariant
                d == &self.data,
                self.wf(),
                rosettes_readable(d),
                di <= d.decorations@.len(),
                out@ == rosettes_in(d, di as int),
            decreases d.decorations@.len() - di,
        {
            let dc = d.decorations[di];
            assert(d.decorations@[di as int] == dc);
            if dc.kind == DecoKind::HizbMark {
                let r = self.rosette(di);
                out.push(r);
            }
            di += 1;
        }
        out
    }

    fn rosette(&self, di: usize) -> (r: Rosette)
        requires
            self.wf(),
            rosettes_readable(&self.data),
            di < self.data.decorations@.len(),
            self.data.decorations@[di as int].kind == DecoKind::HizbMark,
        ensures
            r == rosette_of(&self.data, di as int),
    {
        let d = &self.data;
        let dc = d.decorations[di];
        assert(d.deco_ok(d.decorations@[di as int]));
        let mut juz: u16 = 0;
        let mut hizb: u16 = 0;
        let mut nisf: u16 = 0;
        let mut rub: u16 = 0;
        if dc.text != NONE_U16 {
            let ps = split_char(d.strings[dc.text as usize].as_str(), ';');
            proof {
                assert(texts_of(d.strings@)[dc.text as int] == d.strings@[dc.text as int]@);
            }
            let ghost pv = split_at_char(texts_of(d.strings@)[dc.text as int], ';');
            let mut k: usize = 0;
            while k < ps.len()
                invariant
                    ps@.len() == pv.len(),
                    forall|i: int| 0 <= i < ps@.len() ==> #[trigger] ps@[i]@ == pv[i],
                    k <= ps@.len(),
                    (juz, hizb, nisf, rub) == rosette_counts(pv.take(k as int)),
                decreases ps@.len() - k,
            {
                proof {
                    assert(pv.take(k + 1).drop_last() =~= pv.take(k as int));
                    assert(pv.take(k + 1).last() == ps@[k as int]@);
                    reveal_strlit("juz");
                    reveal_strlit("hizb");
                    reveal_strlit("nisf");
                    reveal_strlit("rub");
                }
                match split_key_value(&ps[k]) {
                    Some((key, val)) => {
                        let vc = chars_of(val.as_str());
                        let x = match parse_u16_chars(&vc) {
                            Some(x) => x,
                            None => 0,
                        };
                        if same_chars(key.as_str(), "juz") {
                            juz = x;
                        } else if same_chars(key.as_str(), "hizb") {
                            hizb = x;
                        } else if same_chars(key.as_str(), "nisf") {
                            nisf = x;
                        } else if same_chars(key.as_str(), "rub") {
                            rub = x;
                        }
                    },
                    None => {},
                }
                k += 1;
            }
            proof {
                assert(pv.take(ps@.len() as int) =~= pv);
            }
        }
        proof {
            assert(d.decorations@[di as int] == dc);
            assert(rosette_counts_of(d, di as int) == (juz, hizb, nisf, rub));
        }
        let rub_in_hizb: u16 = if hizb > 0 && rub > 0 { rub - (hizb - 1) * 4 } else { 0 };
        Rosette { deco: di as u32, sura: dc.surah, ayah: dc.ayah, juz, hizb, nisf, rub, rub_in_hizb }
    }

    /// True for banner lines (surah name / basmalah) that hold no words.
    pub fn line_is_header(&self, li: usize) -> (b: bool)
        requires
            self.wf(),
            li < self.data.lines@.len(),
        ensures
            b == (self.data.lines@[li as int].n_words == 0 && exists|k: int|
                0 <= k < self.data.decorations@.len() && is_header(#[trigger] self.data.decorations@[k])
                    && self.data.decorations@[k].line == li),
    {
        let d = &self.data;
        if d.lines[li].n_words != 0 {
            return false;
        }
        let mut k: usize = 0;
        while k < d.decorations.len()
            invariant
                d == &self.data,
                li < d.lines@.len(),
                d.lines@[li as int].n_words == 0,
                k <= d.decorations@.len(),
                forall|t: int| 0 <= t < k ==> !(is_header(#[trigger] d.decorations@[t]) && d.decorations@[t].line == li),
            decreases d.decorations@.len() - k,
        {
            let x = d.decorations[k];
            if x.line as usize == li && (x.kind == DecoKind::SurahName || x.kind == DecoKind::Basmalah) {
                assert(d.decorations@[k as int] == x);
                return true;
            }
            k += 1;
        }
        false
    }

    /// Accessible label for a word: "text (s:a:w)".
    pub fn word_label(&self, wi: u32) -> (s: String)
        requires
            self.wf(),
            wi < self.data.words@.len(),
        ensures
            s@ == form_text(texts_of(self.data.strings@), self.data.word_strings@[wi as int], Form::RasmUthmani)
                + " ("@ + decimal(self.data.words@[wi as int].surah as nat) + seq![':'] + decimal(
                self.data.words@[wi as int].ayah as nat,
            ) + seq![':'] + decimal(self.data.words@[wi as int].word as nat) + seq![')'],
    {
        let w = self.data.words[wi as usize];
        let mut s = text_of_str(self.word_text(wi));
        push_str(&mut s, " (");
        push_decimal(&mut s, w.surah);
        push_char(&mut s, ':');
        push_decimal(&mut s, w.ayah);
        push_char(&mut s, ':');
        push_decimal(&mut s, w.word);
        push_char(&mut s, ')');
        s
    }
}

/// The name an ayah label uses for a surah: its Latin name when the page names it, else
/// "surah n".
pub open spec fn label_name(d: &PageData, n: u16) -> Seq<char> {
    let f = surah_facts(d, n, d.decorations@.len() as int);
    if page_surah(d, n) && f.2.len() > 0 {
        f.2
    } else {
        "surah "@ + decimal(n as nat)
    }
}

pub open spec fn ayah_label_text(d: &PageData, a: AyahRec) -> Seq<char> {
    if a.fragments > 1 {
        "Ayah "@ + decimal(a.ayah as nat) + " of "@ + label_name(d, a.surah) + ", part "@ + decimal(a.fragment as nat)
            + " of "@ + decimal(a.fragments as nat)
    } else {
        "Ayah "@ + decimal(a.ayah as nat) + " of "@ + label_name(d, a.surah)
    }
}

impl Page {
    /// Accessible label for an ayah fragment: "Ayah a of Name", with its part when the ayah runs
    /// over pages.
    pub fn ayah_label(&self, ai: u32) -> (s: String)
        requires
            self.wf(),
            ai < self.data.ayahs@.len(),
        ensures
            s@ == ayah_label_text(&self.data, self.data.ayahs@[ai as int]),
    {
        let a = self.data.ayahs[ai as usize];
        let infos = self.surahs();
        let mut k: usize = 0;
        while k < infos.len()
            invariant_except_break
                k <= infos@.len(),
                forall|t: int| 0 <= t < k ==> #[trigger] infos@[t].number != a.surah,
            ensures
                k <= infos@.len(),
                k < infos@.len() ==> infos@[k as int].number == a.surah,
                forall|t: int| 0 <= t < k ==> #[trigger] infos@[t].number != a.surah,
            decreases infos@.len() - k,
        {
            if infos[k].number == a.surah {
                break;
            }
            k += 1;
        }
        let name: String = if k < infos.len() && !infos[k].latin.as_str().is_empty() {
            proof {
                assert(has_number(infos@, a.surah));
                assert(infos@[k as int]@ == surah_facts(&self.data, infos@[k as int].number, self.data.decorations@.len() as int));
            }
            infos[k].latin.clone()
        } else {
            proof {
                if k < infos.len() {
                    assert(has_number(infos@, a.surah));
                    assert(infos@[k as int]@ == surah_facts(&self.data, infos@[k as int].number, self.data.decorations@.len() as int));
                } else {
                    assert(!has_number(infos@, a.surah)) by {
                        if has_number(infos@, a.surah) {
                            let t = choose|t: int| 0 <= t < infos@.len() && #[trigger] infos@[t].number == a.surah;
                        }
                    }
                }
                reveal_strlit("surah ");
            }
            let mut n = text_of_str("surah ");
            push_decimal(&mut n, a.surah);
            n
        };
        proof {
            assert(name@ == label_name(&self.data, a.surah));
        }
        let mut s = text_of_str("Ayah ");
        push_decimal(&mut s, a.ayah);
        push_str(&mut s, " of ");
        push_str(&mut s, name.as_str());
        if a.fragments > 1 {
            push_str(&mut s, ", part ");
            push_decimal(&mut s, a.fragment as u16);
            push_str(&mut s, " of ");
            push_decimal(&mut s, a.fragments as u16);
        }
        s
    }
}

/// A real ayah medallion (one with an ayah id): its decoration, its ayah, the line it is laid
/// out with, the box of its ornament (or of the whole decoration when it has none) in page
/// units, and its ornament and numeral paths (`NONE` when missing).
#[derive(Clone, Copy, Debug, PartialEq, Eq, Structural)]
pub struct MarkerBox {
    pub deco: u32,
    pub sura: u16,
    pub ayah: u16,
    pub line: u32,
    pub bbox: IBox,
    pub ornament_path: u32,
    pub numeral_path: u32,
}

/// A medallion's paths `[lo, hi)`: its first ornament path, its last numeral path, and the box
/// of its ornament paths.
pub open spec fn medallion_parts(ps: Seq<PathRec>, lo: int, hi: int) -> (u32, u32, IBox)
    decreases hi - lo,
{
    if hi <= lo {
        (NONE, NONE, IBox::spec_empty())
    } else {
        let (orn, num, ob) = medallion_parts(ps, lo, hi - 1);
        let p = ps[hi - 1];
        if p.kind == PathKind::AyahMarkOrnament {
            (if orn == NONE { (hi - 1) as u32 } else { orn }, num, ob.spec_union(p.bbox))
        } else if p.kind == PathKind::AyahNumber {
            (orn, (hi - 1) as u32, ob)
        } else {
            (orn, num, ob)
        }
    }
}

pub open spec fn is_marker(dc: DecoRec) -> bool {
    dc.kind == DecoKind::AyahMark && dc.ayah != 0
}

pub open spec fn marker_box(d: &PageData, pl: Seq<u32>, di: int) -> MarkerBox {
    let dc = d.decorations@[di];
    let (orn, num, ob) = medallion_parts(d.paths@, dc.first_path as int, dc.first_path + dc.n_paths);
    MarkerBox {
        deco: di as u32,
        sura: dc.surah,
        ayah: dc.ayah,
        line: pl[dc.first_path as int],
        bbox: if ob.spec_is_empty() { dc.bbox } else { ob },
        ornament_path: orn,
        numeral_path: num,
    }
}

/// The medallions among the first `k` decorations, in order.
pub open spec fn markers_in(d: &PageData, pl: Seq<u32>, k: int) -> Seq<MarkerBox>
    decreases k,
{
    if k <= 0 {
        Seq::empty()
    } else {
        let rest = markers_in(d, pl, k - 1);
        if is_marker(d.decorations@[k - 1]) {
            rest.push(marker_box(d, pl, k - 1))
        } else {
            rest
        }
    }
}

/// Every medallion has a first path to take its line from.
pub open spec fn markers_have_paths(d: &PageData) -> bool {
    forall|di: int| 0 <= di < d.decorations@.len() && is_marker(#[trigger] d.decorations@[di]) ==> d.decorations@[di].first_path
        < d.paths@.len()
}

/// The first of the medallions that closes (sura, ayah).
pub open spec fn find_marker(ms: Seq<MarkerBox>, sura: u16, ayah: u16, k: int) -> Option<MarkerBox>
    decreases ms.len() - k,
{
    if k < 0 || k >= ms.len() {
        None
    } else if ms[k].sura == sura && ms[k].ayah == ayah {
        Some(ms[k])
    } else {
        find_marker(ms, sura, ayah, k + 1)
    }
}

impl Page {
    /// The real ayah medallions (with an ayah id), in decoration order. Decorative rosettes
    /// without an id are left out.
    pub fn markers(&self) -> (out: Vec<MarkerBox>)
        requires
            self.wf(),
            markers_have_paths(&self.data),
        ensures
            out@ == markers_in(&self.data, self.path_line@, self.data.decorations@.len() as int),
    {
        let d = &self.data;
        let mut out: Vec<MarkerBox> = Vec::new();
        let mut di: usize = 0;
        while di < d.decorations.len()
            invariant
                d == &self.data,
                self.wf(),
                markers_have_paths(d),
                di <= d.decorations@.len(),
                out@ == markers_in(d, self.path_line@, di as int),
            decreases d.decorations@.len() - di,
        {
            let dc = d.decorations[di];
            if dc.kind == DecoKind::AyahMark && dc.ayah != 0 {
                assert(is_marker(d.decorations@[di as int]));
                assert(d.deco_ok(d.decorations@[di as int]));
                let end: u32 = dc.first_path + dc.n_paths as u32;
                let mut p: u32 = dc.first_path;
                let mut orn: u32 = NONE;
                let mut num: u32 = NONE;
                let mut ob = IBox::empty();
                while p < end
                    invariant
                        d.wf(),
                        dc.first_path <= p <= end,
                        end == dc.first_path + dc.n_paths,
                        end <= d.paths@.len(),
                        (orn, num, ob) == medallion_parts(d.paths@, dc.first_path as int, p as int),
                    decreases end - p,
                {
                    let pr = d.paths[p as usize];
                    if pr.kind == PathKind::AyahMarkOrnament {
                        if orn == NONE {
                            orn = p;
                        }
                        ob.union(&pr.bbox);
                    } else if pr.kind == PathKind::AyahNumber {
                        num = p;
                    }
                    p += 1;
                }
                let b = if ob.is_empty() { dc.bbox } else { ob };
                out.push(MarkerBox {
                    deco: di as u32,
                    sura: dc.surah,
                    ayah: dc.ayah,
                    line: self.path_line[dc.first_path as usize],
                    bbox: b,
                    ornament_path: orn,
                    numeral_path: num,
                });
            }
            di += 1;
        }
        out
    }

    /// The medallion that closes (sura, ayah), if it is drawn on this page.
    pub fn marker_of(&self, sura: u16, ayah: u16) -> (r: Option<MarkerBox>)
        requires
            self.wf(),
            markers_have_paths(&self.data),
        ensures
            r == find_marker(markers_in(&self.data, self.path_line@, self.data.decorations@.len() as int), sura, ayah, 0),
    {
        let ms = self.markers();
        let mut k: usize = 0;
        while k < ms.len()
            invariant
                k <= ms@.len(),
                ms@ == markers_in(&self.data, self.path_line@, self.data.decorations@.len() as int),
                find_marker(ms@, sura, ayah, 0) == find_marker(ms@, sura, ayah, k as int),
            decreases ms@.len() - k,
        {
            if ms[k].sura == sura && ms[k].ayah == ayah {
                assert(find_marker(ms@, sura, ayah, k as int) == Some(ms@[k as int]));
                return Some(ms[k]);
            }
            k += 1;
        }
        None
    }
}

} // verus!
