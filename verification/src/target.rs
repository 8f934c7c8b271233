//! What a target resolves to on a page, ayah keys and counts, recitation mapping, and word lookup.
use vstd::prelude::*;
use crate::model::{AyahRec, LineRec, WordRec};
use crate::page::Page;
use crate::selection::Target;
use std::collections::HashMap;

verus! {

/// Word `i` lies in a line numbered `l`.
pub open spec fn on_line_number(ls: Seq<LineRec>, l: u8, i: int) -> bool {
    exists|k: int| 0 <= k < ls.len() && (#[trigger] ls[k]).line_number == l && ls[k].first_word <= i < ls[k].first_word + ls[k].n_words
}

/// Whether a target takes in word `i` (of a page with words `ws` and lines `ls`).
pub open spec fn targeted(ws: Seq<WordRec>, ls: Seq<LineRec>, t: Target, i: int) -> bool {
    match t {
        Target::Page => true,
        Target::Word(w) => i == w,
        Target::Words(v) => v@.contains(i as u32),
        Target::Ayah(s, a) => ws[i].surah == s && ws[i].ayah == a,
        Target::AyahRange(s, a, b) => ws[i].surah == s && a <= ws[i].ayah <= b,
        Target::Line(l) => on_line_number(ls, l, i),
        Target::Surah(s) => ws[i].surah == s,
        Target::Range(a, b) => (a <= i <= b) || (b <= i <= a),
    }
}

/// The words a target resolves to: every word of the page it takes in, in reading order,
/// without repeats.
pub open spec fn resolves_to(ws: Seq<WordRec>, ls: Seq<LineRec>, t: Target, v: Seq<u32>) -> bool {
    &&& forall|i: int, j: int| 0 <= i < j < v.len() ==> v[i] < v[j]
    &&& forall|x: u32| v.contains(x) <==> (x < ws.len() && targeted(ws, ls, t, x as int))
}

/// The distinct ayah keys of the first `k` fragments, in order of first appearance.
pub open spec fn keys_in(ays: Seq<AyahRec>, k: int) -> Seq<(u16, u16)>
    decreases k,
{
    if k <= 0 {
        Seq::empty()
    } else {
        let prev = keys_in(ays, k - 1);
        let key = (ays[k - 1].surah, ays[k - 1].ayah);
        if prev.contains(key) {
            prev
        } else {
            prev.push(key)
        }
    }
}

/// How many of the first `k` fragments belong to (surah, ayah), and how many words they hold.
pub open spec fn frags_in(ays: Seq<AyahRec>, s: u16, a: u16, k: int) -> (nat, nat)
    decreases k,
{
    if k <= 0 {
        (0, 0)
    } else {
        let (c, w) = frags_in(ays, s, a, k - 1);
        if ays[k - 1].surah == s && ays[k - 1].ayah == a {
            (c + 1, (w + ays[k - 1].n_words) as nat)
        } else {
            (c, w)
        }
    }
}

/// The first fragment of (surah, ayah) among the first `k`.
pub open spec fn first_frag(ays: Seq<AyahRec>, s: u16, a: u16, k: int) -> Option<AyahRec>
    decreases k,
{
    if k <= 0 {
        None
    } else {
        let f = first_frag(ays, s, a, k - 1);
        if f is None && ays[k - 1].surah == s && ays[k - 1].ayah == a {
            Some(ays[k - 1])
        } else {
            f
        }
    }
}

/// Whether the whole ayah is on the page: its fragment count, taken modulo 256 as the
/// count is stored in a byte, equals the number of fragments its first fragment names.
pub open spec fn ayah_complete(ays: Seq<AyahRec>, s: u16, a: u16) -> bool {
    match first_frag(ays, s, a, ays.len() as int) {
        Some(f) => frags_in(ays, s, a, ays.len() as int).0 % 256 == f.fragments,
        None => false,
    }
}

/// The index of the last word of the first `k` with id (s, a, w).
pub open spec fn last_word_with(ws: Seq<WordRec>, s: u16, a: u16, w: u16, k: int) -> Option<int>
    decreases k,
{
    if k <= 0 {
        None
    } else if ws[k - 1].surah == s && ws[k - 1].ayah == a && ws[k - 1].word == w {
        Some(k - 1)
    } else {
        last_word_with(ws, s, a, w, k - 1)
    }
}

impl Page {
    /// Whether a target takes in word `i`.
    fn takes(&self, t: &Target, i: u32) -> (r: bool)
        requires
            self.wf(),
            i < self.data.words@.len(),
        ensures
            r == targeted(self.data.words@, self.data.lines@, *t, i as int),
    {
        let d = &self.data;
        match t {
            Target::Page => true,
            Target::Word(w) => i == *w,
            Target::Words(v) => {
                let mut k: usize = 0;
                while k < v.len()
                    invariant
                        *t == Target::Words(*v),
                        k <= v@.len(),
                        forall|j: int| 0 <= j < k ==> v@[j] != i,
                    decreases v@.len() - k,
                {
                    if v[k] == i {
                        assert(v@[k as int] == i);
                        return true;
                    }
                    k += 1;
                }
                false
            },
            Target::Ayah(s, a) => d.words[i as usize].surah == *s && d.words[i as usize].ayah == *a,
            Target::AyahRange(s, a, b) => {
                let w = d.words[i as usize];
                w.surah == *s && *a <= w.ayah && w.ayah <= *b
            },
            Target::Line(l) => {
                let mut k: usize = 0;
                while k < d.lines.len()
                    invariant
                        d == &self.data,
                        *t == Target::Line(*l),
                        k <= d.lines@.len(),
                        forall|j: int|
                            0 <= j < k ==> !((#[trigger] d.lines@[j]).line_number == *l && d.lines@[j].first_word <= i
                                < d.lines@[j].first_word + d.lines@[j].n_words),
                    decreases d.lines@.len() - k,
                {
                    let ln = d.lines[k];
                    if ln.line_number == *l && ln.first_word as u32 <= i && i < ln.first_word as u32 + ln.n_words as u32 {
                        assert(d.lines@[k as int] == ln);
                        return true;
                    }
                    k += 1;
                }
                false
            },
            Target::Surah(s) => d.words[i as usize].surah == *s,
            Target::Range(a, b) => (*a <= i && i <= *b) || (*b <= i && i <= *a),
        }
    }

    /// The words a target resolves to, in reading order, without repeats.
    pub fn target_words(&self, t: &Target) -> (v: Vec<u32>)
        requires
            self.wf(),
        ensures
            resolves_to(self.data.words@, self.data.lines@, *t, v@),
    {
        let n = self.data.words.len();
        let mut v: Vec<u32> = Vec::new();
        let mut i: usize = 0;
        while i < n
            invariant
                self.wf(),
                n == self.data.words@.len(),
                i <= n,
                forall|a: int, b: int| 0 <= a < b < v@.len() ==> v@[a] < v@[b],
                forall|k: int|
                    0 <= k < v@.len() ==> #[trigger] v@[k] < i && targeted(self.data.words@, self.data.lines@, *t, v@[k] as int),
                forall|x: u32| x < i && targeted(self.data.words@, self.data.lines@, *t, x as int) ==> #[trigger] v@.contains(x),
            decreases n - i,
        {
            let hit = self.takes(t, i as u32);
            let ghost before = v@;
            if hit {
                v.push(i as u32);
                proof {
                    assert forall|x: u32| x < i + 1 && targeted(self.data.words@, self.data.lines@, *t, x as int) implies #[trigger] v@.contains(x) by {
                        if x == i as u32 {
                            assert(v@[v@.len() - 1] == x);
                        } else {
                            assert(before.contains(x));
                            let k = choose|k: int| 0 <= k < before.len() && before[k] == x;
                            assert(v@[k] == x);
                        }
                    }
                }
            }
            i += 1;
        }
        proof {
            assert forall|x: u32| v@.contains(x) <==> (x < self.data.words@.len() && targeted(self.data.words@, self.data.lines@, *t, x as int)) by {
                if v@.contains(x) {
                    let k = choose|k: int| 0 <= k < v@.len() && v@[k] == x;
                    assert(v@[k] < i);
                }
            }
        }
        v
    }

    /// All word indices of an ayah on this page, in reading order.
    pub fn ayah_words(&self, surah: u16, ayah: u16) -> (v: Vec<u32>)
        requires
            self.wf(),
        ensures
            resolves_to(self.data.words@, self.data.lines@, Target::Ayah(surah, ayah), v@),
    {
        self.target_words(&Target::Ayah(surah, ayah))
    }

    /// Ayah keys present on the page in reading order, deduplicated.
    pub fn ayah_keys(&self) -> (v: Vec<(u16, u16)>)
        requires
            self.wf(),
        ensures
            v@ == keys_in(self.data.ayahs@, self.data.ayahs@.len() as int),
    {
        let mut v: Vec<(u16, u16)> = Vec::new();
        let mut k: usize = 0;
        while k < self.data.ayahs.len()
            invariant
                k <= self.data.ayahs@.len(),
                v@ == keys_in(self.data.ayahs@, k as int),
            decreases self.data.ayahs@.len() - k,
        {
            let a = self.data.ayahs[k];
            let key = (a.surah, a.ayah);
            let mut seen = false;
            let mut j: usize = 0;
            while j < v.len()
                invariant
                    j <= v@.len(),
                    seen == exists|q: int| 0 <= q < j && v@[q] == key,
                decreases v@.len() - j,
            {
                if v[j].0 == key.0 && v[j].1 == key.1 {
                    seen = true;
                }
                j += 1;
            }
            if !seen {
                v.push(key);
            }
            k += 1;
        }
        v
    }

    /// Number of words of (surah, ayah) on this page, and whether the whole ayah is here.
    pub fn ayah_word_count(&self, surah: u16, ayah: u16) -> (r: (u32, bool))
        requires
            self.wf(),
            frags_in(self.data.ayahs@, surah, ayah, self.data.ayahs@.len() as int).1 <= u32::MAX,
        ensures
            r.0 == frags_in(self.data.ayahs@, surah, ayah, self.data.ayahs@.len() as int).1,
            r.1 == ayah_complete(self.data.ayahs@, surah, ayah),
    {
        let ays = &self.data.ayahs;
        let mut count: u32 = 0;
        let mut frags: usize = 0;
        let mut first: Option<u8> = None;
        let mut k: usize = 0;
        while k < ays.len()
            invariant
                k <= ays@.len(),
                ays@ == self.data.ayahs@,
                frags_in(ays@, surah, ayah, ays@.len() as int).1 <= u32::MAX,
                (frags as nat, count as nat) == frags_in(ays@, surah, ayah, k as int),
                match first_frag(ays@, surah, ayah, k as int) {
                    Some(f) => first == Some(f.fragments),
                    None => first is None,
                },
                frags <= k,
            decreases ays@.len() - k,
        {
            proof {
                lemma_frags_monotone(ays@, surah, ayah, k as int + 1, ays@.len() as int);
            }
            let a = ays[k];
            if a.surah == surah && a.ayah == ayah {
                count = count + a.n_words as u32;
                frags = frags + 1;
                if first.is_none() {
                    first = Some(a.fragments);
                }
            }
            k += 1;
        }
        let complete = match first {
            Some(f) => (frags % 256) as u8 == f,
            None => false,
        };
        (count, complete)
    }

    /// Map recitation segments onto words: the ayah's words when the segment count equals its
    /// word count and the whole ayah is on this page; None on a mismatch.
    pub fn recite_map(&self, surah: u16, ayah: u16, n_segments: u32) -> (r: Option<Vec<u32>>)
        requires
            self.wf(),
            frags_in(self.data.ayahs@, surah, ayah, self.data.ayahs@.len() as int).1 <= u32::MAX,
        ensures
            r is Some <==> (ayah_complete(self.data.ayahs@, surah, ayah) && frags_in(
                self.data.ayahs@,
                surah,
                ayah,
                self.data.ayahs@.len() as int,
            ).1 == n_segments),
            r matches Some(v) ==> resolves_to(self.data.words@, self.data.lines@, Target::Ayah(surah, ayah), v@),
    {
        let (count, complete) = self.ayah_word_count(surah, ayah);
        if !complete || count != n_segments {
            return None;
        }
        Some(self.target_words(&Target::Ayah(surah, ayah)))
    }

    pub fn next_word(&self, wi: u32) -> (r: Option<u32>)
        requires
            wi < u32::MAX,
        ensures
            r == (if wi + 1 < self.data.words@.len() { Some((wi + 1) as u32) } else { None::<u32> }),
    {
        let nx: usize = (wi + 1) as usize;
        if nx < self.data.words.len() {
            Some(wi + 1)
        } else {
            None
        }
    }

    pub fn prev_word(&self, wi: u32) -> (r: Option<u32>)
        ensures
            r == (if wi > 0 { Some((wi - 1) as u32) } else { None::<u32> }),
    {
        if wi > 0 {
            Some(wi - 1)
        } else {
            None
        }
    }

    /// The word with id (surah, ayah, word): the last such word when the page repeats an id.
    pub fn find_word(&self, surah: u16, ayah: u16, word: u16) -> (r: Option<u32>)
        requires
            self.wf(),
        ensures
            match last_word_with(self.data.words@, surah, ayah, word, self.data.words@.len() as int) {
                Some(i) => r == Some(i as u32),
                None => r is None,
            },
    {
        broadcast use vstd::std_specs::hash::group_hash_axioms;
        proof {
            lemma_index_of(self.data.words@, surah, ayah, word);
        }
        let k: u64 = (surah as u64) * 0x1_0000_0000 + (ayah as u64) * 0x1_0000 + word as u64;
        match self.word_index.get(&k) {
            Some(i) => Some(*i),
            None => None,
        }
    }
}
pub proof fn lemma_last_word_with(ws: Seq<WordRec>, s: u16, a: u16, w: u16, k: int)
    requires
        k <= ws.len(),
    ensures
        last_word_with(ws, s, a, w, k) matches Some(i) ==> 0 <= i < k && ws[i].surah == s && ws[i].ayah == a
            && ws[i].word == w,
    decreases k,
{
    if k > 0 {
        lemma_last_word_with(ws, s, a, w, k - 1);
    }
}

proof fn lemma_frags_monotone(ays: Seq<AyahRec>, s: u16, a: u16, k: int, m: int)
    requires
        k <= m,
    ensures
        frags_in(ays, s, a, k).1 <= frags_in(ays, s, a, m).1,
        frags_in(ays, s, a, k).0 <= frags_in(ays, s, a, m).0,
    decreases m - k,
{
    if k < m {
        lemma_frags_monotone(ays, s, a, k, m - 1);
    }
}

/// The key a word is found by: its surah, ayah and word numbers packed into one number.
pub open spec fn key_of(s: u16, a: u16, w: u16) -> u64 {
    (s as int * 0x1_0000_0000 + a as int * 0x1_0000 + w as int) as u64
}

/// The word index of a run of words: each word's key to its position, a later word with the
/// same key in place of an earlier one.
pub open spec fn index_of(ws: Seq<WordRec>) -> Map<u64, u32>
    decreases ws.len(),
{
    if ws.len() == 0 {
        Map::empty()
    } else {
        index_of(ws.drop_last()).insert(
            key_of(ws.last().surah, ws.last().ayah, ws.last().word),
            (ws.len() - 1) as u32,
        )
    }
}

proof fn lemma_key_of(s: u16, a: u16, w: u16, s2: u16, a2: u16, w2: u16)
    ensures
        key_of(s, a, w) == key_of(s2, a2, w2) ==> s == s2 && a == a2 && w == w2,
{
    let x = s as int * 0x1_0000_0000 + a as int * 0x1_0000 + w as int;
    let y = s2 as int * 0x1_0000_0000 + a2 as int * 0x1_0000 + w2 as int;
    assert(0 <= x < 0x1_0000_0000_0000 && 0 <= y < 0x1_0000_0000_0000) by (nonlinear_arith)
        requires
            x == s as int * 0x1_0000_0000 + a as int * 0x1_0000 + w as int,
            y == s2 as int * 0x1_0000_0000 + a2 as int * 0x1_0000 + w2 as int,
            s < 0x1_0000,
            a < 0x1_0000,
            w < 0x1_0000,
            s2 < 0x1_0000,
            a2 < 0x1_0000,
            w2 < 0x1_0000,
    ;
    if x == y {
        assert(s == s2 && a == a2 && w == w2) by (nonlinear_arith)
            requires
                s as int * 0x1_0000_0000 + a as int * 0x1_0000 + w as int == s2 as int * 0x1_0000_0000 + a2 as int
                    * 0x1_0000 + w2 as int,
                s < 0x1_0000,
                a < 0x1_0000,
                w < 0x1_0000,
                s2 < 0x1_0000,
                a2 < 0x1_0000,
                w2 < 0x1_0000,
        ;
    }
}

proof fn lemma_last_word_prefix(ws: Seq<WordRec>, s: u16, a: u16, w: u16, k: int)
    requires
        0 <= k < ws.len(),
    ensures
        last_word_with(ws, s, a, w, k) == last_word_with(ws.drop_last(), s, a, w, k),
    decreases k,
{
    if k > 0 {
        lemma_last_word_prefix(ws, s, a, w, k - 1);
    }
}

/// The index finds a key exactly when a word with that id is there, and then finds the last one.
pub proof fn lemma_index_of(ws: Seq<WordRec>, s: u16, a: u16, w: u16)
    requires
        ws.len() < u32::MAX,
    ensures
        match last_word_with(ws, s, a, w, ws.len() as int) {
            Some(i) => index_of(ws).contains_key(key_of(s, a, w)) && index_of(ws)[key_of(s, a, w)] == i,
            None => !index_of(ws).contains_key(key_of(s, a, w)),
        },
    decreases ws.len(),
{
    if ws.len() > 0 {
        let l = ws.last();
        lemma_index_of(ws.drop_last(), s, a, w);
        lemma_last_word_prefix(ws, s, a, w, ws.len() - 1);
        lemma_key_of(l.surah, l.ayah, l.word, s, a, w);
    }
}

/// The word index of a page's words.
pub fn word_index(ws: &Vec<WordRec>) -> (m: HashMap<u64, u32>)
    requires
        ws@.len() < u32::MAX,
    ensures
        m@ == index_of(ws@),
{
    broadcast use vstd::std_specs::hash::group_hash_axioms;
    let mut m: HashMap<u64, u32> = HashMap::new();
    let mut i: usize = 0;
    while i < ws.len()
        invariant
            i <= ws@.len(),
            ws@.len() < u32::MAX,
            m@ == index_of(ws@.take(i as int)),
        decreases ws@.len() - i,
    {
        let x = ws[i];
        let k: u64 = (x.surah as u64) * 0x1_0000_0000 + (x.ayah as u64) * 0x1_0000 + x.word as u64;
        m.insert(k, i as u32);
        proof {
            assert(ws@.take(i + 1).drop_last() =~= ws@.take(i as int));
            assert(ws@.take(i + 1).last() == x);
        }
        i += 1;
    }
    assert(ws@.take(ws@.len() as int) =~= ws@);
    m
}

} // verus!
