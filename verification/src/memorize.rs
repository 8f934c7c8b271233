//! Memorisation: masking words (hide / block / blur) with progressive reveal, and the
//! greyed-page reading position.
use vstd::prelude::*;
use std::collections::BTreeSet;
use crate::style::{Rgba, NONE};
use crate::page::Page;
use crate::selection::Target;
use crate::target::resolves_to;
use crate::model::DecoKind;

verus! {

#[derive(Clone, Copy, Debug, PartialEq, Eq, Structural)]
pub enum MaskMode {
    /// ink alpha 0 — the page keeps its shape and spacing
    Hide,
    /// host draws an opaque box over each hidden word
    Block,
    /// host blurs each hidden word's box
    Blur,
}

/// The block colour a mask starts with.
pub const MASK_BLOCK_COLOR: Rgba = 0xd9d4c8ff;

#[derive(Debug)]
pub struct MaskState {
    /// every word under the mask, reading order
    pub words: Vec<u32>,
    pub hidden: BTreeSet<u32>,
    pub mode: MaskMode,
    pub block_color: Rgba,
    pub reverse: bool,
}

/// Strictly increasing: reading order without repeats.
pub open spec fn increasing(s: Seq<u32>) -> bool {
    forall|i: int, j: int| 0 <= i < j < s.len() ==> s[i] < s[j]
}

impl MaskState {
    /// The masked words are in reading order without repeats, and only masked words are hidden.
    pub open spec fn wf(&self) -> bool {
        &&& increasing(self.words@)
        &&& forall|w: u32| self.hidden@.contains(w) ==> self.words@.contains(w)
    }

    pub fn new() -> (m: MaskState)
        ensures
            m.wf(),
            m.words@.len() == 0,
            m.hidden@ == Set::<u32>::empty(),
            m.mode == MaskMode::Hide,
            m.block_color == MASK_BLOCK_COLOR,
            !m.reverse,
    {
        MaskState { words: Vec::new(), hidden: BTreeSet::new(), mode: MaskMode::Hide, block_color: MASK_BLOCK_COLOR, reverse: false }
    }
}

/// The page greyed except a window of `lit` steps ending at `at`.
#[derive(Clone, Debug)]
pub struct Reveal {
    pub at: i64,
    pub lit: u32,
    pub by_ayah: bool,
    pub grey: Rgba,
    pub ink: Rgba,
    pub markers: bool,
    pub transition_ms: u32,
    /// step index per word
    pub step_of_word: Vec<u32>,
    pub steps: u32,
}

/// Revealing up to `n` words, walking `order`: each hidden word met is revealed, until `n` have
/// been. Gives the hidden set after, and how many were revealed.
pub open spec fn reveal_run(order: Seq<u32>, hidden: Set<u32>, n: nat) -> (Set<u32>, nat)
    decreases order.len(),
{
    if order.len() == 0 || n == 0 {
        (hidden, 0)
    } else if hidden.contains(order[0]) {
        let (h, d) = reveal_run(order.drop_first(), hidden.remove(order[0]), (n - 1) as nat);
        (h, d + 1)
    } else {
        reveal_run(order.drop_first(), hidden, n)
    }
}

/// Hiding up to `n` words, walking `order`: each shown word met is hidden, until `n` have been.
pub open spec fn hide_run(order: Seq<u32>, hidden: Set<u32>, n: nat) -> (Set<u32>, nat)
    decreases order.len(),
{
    if order.len() == 0 || n == 0 {
        (hidden, 0)
    } else if !hidden.contains(order[0]) {
        let (h, d) = hide_run(order.drop_first(), hidden.insert(order[0]), (n - 1) as nat);
        (h, d + 1)
    } else {
        hide_run(order.drop_first(), hidden, n)
    }
}

/// The order words are revealed in: reading order, or its reverse.
pub open spec fn reveal_order(words: Seq<u32>, reverse: bool) -> Seq<u32> {
    if reverse { words.reverse() } else { words }
}

/// The order words are hidden back in: the reverse of the reveal order.
pub open spec fn hide_order(words: Seq<u32>, reverse: bool) -> Seq<u32> {
    if reverse { words } else { words.reverse() }
}

/// The step of each of the first `k` words when a reveal goes ayah by ayah: a new step starts
/// at every word whose (surah, ayah) differs from the one before it.
pub open spec fn ayah_steps(ws: Seq<crate::model::WordRec>, k: int) -> Seq<u32>
    decreases k,
{
    if k <= 0 {
        Seq::empty()
    } else {
        let prev = ayah_steps(ws, k - 1);
        let step: u32 = if k - 1 == 0 {
            0
        } else if ws[k - 1].surah != ws[k - 2].surah || ws[k - 1].ayah != ws[k - 2].ayah {
            (prev.last() + 1) as u32
        } else {
            prev.last()
        };
        prev.push(step)
    }
}

proof fn lemma_ayah_steps(ws: Seq<crate::model::WordRec>, k: int)
    requires
        0 <= k <= ws.len(),
    ensures
        ayah_steps(ws, k).len() == k,
        forall|i: int| 0 <= i < k ==> #[trigger] ayah_steps(ws, k)[i] <= i,
        k > 0 ==> ayah_steps(ws, k).last() < k,
    decreases k,
{
    if k > 0 {
        lemma_ayah_steps(ws, k - 1);
    }
}

/// Word `m` is of the same ayah as the word before it.
pub open spec fn same_ayah_as_previous(ws: Seq<crate::model::WordRec>, m: int) -> bool {
    ws[m].surah == ws[m - 1].surah && ws[m].ayah == ws[m - 1].ayah
}

/// How many words after word `i`, up to word `j`, begin another ayah.
pub open spec fn ayah_changes(ws: Seq<crate::model::WordRec>, i: int, j: int) -> int
    decreases j - i,
{
    if j <= i {
        0
    } else {
        ayah_changes(ws, i, j - 1) + if same_ayah_as_previous(ws, j) { 0int } else { 1int }
    }
}

proof fn lemma_ayah_changes(ws: Seq<crate::model::WordRec>, i: int, j: int)
    requires
        i <= j,
    ensures
        ayah_changes(ws, i, j) >= 0,
        ayah_changes(ws, i, j) == 0 <==> forall|m: int| i < m <= j ==> #[trigger] same_ayah_as_previous(ws, m),
    decreases j - i,
{
    if j > i {
        lemma_ayah_changes(ws, i, j - 1);
        if ayah_changes(ws, i, j) == 0 {
            assert forall|m: int| i < m <= j implies #[trigger] same_ayah_as_previous(ws, m) by {
                if m < j {
                    assert(ayah_changes(ws, i, j - 1) == 0);
                }
            }
        }
    }
}

proof fn lemma_steps_count_changes(ws: Seq<crate::model::WordRec>, k: int, i: int)
    requires
        0 <= i < k <= ws.len(),
        ws.len() < u32::MAX,
    ensures
        ayah_steps(ws, k)[k - 1] == ayah_steps(ws, k)[i] + ayah_changes(ws, i, k - 1),
    decreases k,
{
    lemma_ayah_steps(ws, k);
    let st = ayah_steps(ws, k);
    let prev = ayah_steps(ws, k - 1);
    assert(st == prev.push(st[k - 1]));
    if i < k - 1 {
        lemma_ayah_steps(ws, k - 1);
        lemma_steps_count_changes(ws, k - 1, i);
        assert(st[i] == prev[i]);
        assert(prev.last() == prev[k - 2]);
        assert(ayah_changes(ws, i, k - 1) == ayah_changes(ws, i, k - 2) + if same_ayah_as_previous(ws, k - 1) {
            0int
        } else {
            1int
        });
        if same_ayah_as_previous(ws, k - 1) {
            assert(st[k - 1] == prev.last());
        } else {
            assert(st[k - 1] == prev.last() + 1);
        }
    }
}

proof fn lemma_steps_prefix(ws: Seq<crate::model::WordRec>, k: int, j: int)
    requires
        0 <= j < k <= ws.len(),
    ensures
        ayah_steps(ws, k)[j] == ayah_steps(ws, j + 1)[j],
    decreases k,
{
    lemma_ayah_steps(ws, k);
    if j < k - 1 {
        lemma_steps_prefix(ws, k - 1, j);
        assert(ayah_steps(ws, k) == ayah_steps(ws, k - 1).push(ayah_steps(ws, k)[k - 1]));
    }
}

/// Going ayah by ayah, the steps start at 0, and a later word's step is an earlier word's step
/// plus the number of ayahs begun after it, up to the later word: so steps never go back, rise by
/// at most one from a word to the next, and two words share a step exactly when no word between
/// them, the later one included, begins another ayah.
pub proof fn ayah_steps_group_ayahs(ws: Seq<crate::model::WordRec>, k: int, i: int, j: int)
    requires
        0 <= i <= j < k <= ws.len(),
        ws.len() < u32::MAX,
    ensures
        ayah_steps(ws, k)[0] == 0,
        ayah_steps(ws, k)[j] == ayah_steps(ws, k)[i] + ayah_changes(ws, i, j),
        ayah_steps(ws, k)[i] <= ayah_steps(ws, k)[j],
        j == i + 1 ==> ayah_steps(ws, k)[j] <= ayah_steps(ws, k)[i] + 1,
        ayah_steps(ws, k)[i] == ayah_steps(ws, k)[j] <==> forall|m: int|
            i < m <= j ==> #[trigger] same_ayah_as_previous(ws, m),
{
    lemma_ayah_steps(ws, k);
    lemma_steps_prefix(ws, k, j);
    lemma_steps_prefix(ws, k, i);
    lemma_steps_prefix(ws, k, 0);
    lemma_steps_prefix(ws, j + 1, i);
    lemma_ayah_steps(ws, 1);
    if i < j {
        lemma_steps_count_changes(ws, j + 1, i);
    }
    lemma_ayah_changes(ws, i, j);
    if j == i + 1 {
        assert(ayah_changes(ws, i, i) == 0);
    }
}

/// The reveal's colour for a path: ink inside the window of `lit` steps ending at `at`, grey
/// outside it; a path of no word is grey, except an ayah mark when markers light, which takes the
/// step of the last word of the ayah it closes.
pub open spec fn reveal_color(r: Reveal, ws: Seq<crate::model::WordRec>, c: crate::style::PathCtx) -> Rgba {
    let step: Option<int> = if c.word != NONE {
        Some(r.step_of_word@[c.word as int] as int)
    } else if r.markers && c.deco != NONE && c.ayah != 0 && c.deco_kind == DecoKind::AyahMark {
        match last_of_ayah(ws, c.surah, c.ayah, ws.len() as int) {
            Some(wi) => Some(r.step_of_word@[wi] as int),
            None => None,
        }
    } else {
        None
    };
    match step {
        Some(st) => if st > r.at - r.lit && st <= r.at { r.ink } else { r.grey },
        None => r.grey,
    }
}

/// Under a running reveal, a word's path takes the ink exactly when the word's step lies in the
/// window of `lit` steps that ends at `at` (after `at - lit`, up to `at`); every word before the
/// window and every word after it is grey. A path of no word, other than a lit ayah mark, is grey.
pub proof fn reveal_window(r: Reveal, ws: Seq<crate::model::WordRec>, c: crate::style::PathCtx)
    ensures
        c.word != NONE && r.step_of_word@[c.word as int] as int <= r.at - r.lit ==> reveal_color(r, ws, c) == r.grey,
        c.word != NONE && r.step_of_word@[c.word as int] as int > r.at ==> reveal_color(r, ws, c) == r.grey,
        c.word != NONE && r.at - r.lit < r.step_of_word@[c.word as int] as int <= r.at ==> reveal_color(r, ws, c)
            == r.ink,
        c.word == NONE && !(r.markers && c.deco != NONE && c.ayah != 0 && c.deco_kind == DecoKind::AyahMark)
            ==> reveal_color(r, ws, c) == r.grey,
{
}

/// An ayah mark lit with the markers takes the colour of the last word of the ayah it closes.
pub proof fn reveal_marks_follow_their_ayah(
    r: Reveal,
    ws: Seq<crate::model::WordRec>,
    c: crate::style::PathCtx,
    w: crate::style::PathCtx,
)
    requires
        c.word == NONE,
        r.markers && c.deco != NONE && c.ayah != 0 && c.deco_kind == DecoKind::AyahMark,
        last_of_ayah(ws, c.surah, c.ayah, ws.len() as int) matches Some(i) && w.word == i,
        w.word != NONE,
    ensures
        reveal_color(r, ws, c) == reveal_color(r, ws, w),
{
}

/// The last of the first `k` words of (surah, ayah).
pub open spec fn last_of_ayah(ws: Seq<crate::model::WordRec>, s: u16, a: u16, k: int) -> Option<int>
    decreases k,
{
    if k <= 0 {
        None
    } else if ws[k - 1].surah == s && ws[k - 1].ayah == a {
        Some(k - 1)
    } else {
        last_of_ayah(ws, s, a, k - 1)
    }
}

proof fn lemma_last_of_ayah(ws: Seq<crate::model::WordRec>, s: u16, a: u16, k: int)
    requires
        k <= ws.len(),
    ensures
        last_of_ayah(ws, s, a, k) matches Some(i) ==> 0 <= i < k,
    decreases k,
{
    if k > 0 {
        lemma_last_of_ayah(ws, s, a, k - 1);
    }
}

/// The last word of (surah, ayah).
fn last_word_of_ayah(ws: &Vec<crate::model::WordRec>, s: u16, a: u16) -> (r: Option<usize>)
    ensures
        match r {
            Some(i) => last_of_ayah(ws@, s, a, ws@.len() as int) == Some(i as int) && i < ws@.len(),
            None => last_of_ayah(ws@, s, a, ws@.len() as int) is None,
        },
{
    let mut k: usize = ws.len();
    while k > 0
        invariant
            k <= ws@.len(),
            last_of_ayah(ws@, s, a, ws@.len() as int) == last_of_ayah(ws@, s, a, k as int),
        decreases k,
    {
        if ws[k - 1].surah == s && ws[k - 1].ayah == a {
            return Some(k - 1);
        }
        k -= 1;
    }
    None
}

/// The words of a sequence as a set.
pub open spec fn word_set(s: Seq<u32>) -> Set<u32> {
    Set::new(|w: u32| s.contains(w))
}

pub proof fn lemma_contains_push(s: Seq<u32>, x: u32, y: u32)
    ensures
        s.push(x).contains(y) <==> (s.contains(y) || y == x),
{
    if s.contains(y) {
        let i = choose|i: int| 0 <= i < s.len() && s[i] == y;
        assert(s.push(x)[i] == y);
    }
    if y == x {
        assert(s.push(x)[s.len() as int] == y);
    }
    if s.push(x).contains(y) && y != x {
        let i = choose|i: int| 0 <= i < s.push(x).len() && s.push(x)[i] == y;
        assert(s[i] == y);
    }
}

pub proof fn lemma_word_set_push(s: Seq<u32>, x: u32)
    ensures
        word_set(s.push(x)) == word_set(s).insert(x),
{
    assert forall|y: u32| word_set(s.push(x)).contains(y) <==> word_set(s).insert(x).contains(y) by {
        lemma_contains_push(s, x, y);
    }
    assert(word_set(s.push(x)) =~= word_set(s).insert(x));
}

impl Page {
    /// The fields a mask operation leaves as they were.
    pub open spec fn same_but_mask(&self, o: &Page) -> bool {
        &&& self.data == o.data
        &&& self.path_word == o.path_word
        &&& self.path_deco == o.path_deco
        &&& self.path_line == o.path_line
        &&& self.path_ctx == o.path_ctx
        &&& self.word_index == o.word_index
        &&& self.styles == o.styles
        &&& self.reveal == o.reveal
        &&& self.selection == o.selection
    }

    /// Mask a target. Everything in it is hidden; reveal progressively.
    pub fn mask(&mut self, target: &Target, mode: MaskMode)
        requires
            old(self).wf(),
        ensures
            final(self).wf(),
            final(self).same_but_mask(old(self)),
            resolves_to(old(self).data.words@, old(self).data.lines@, *target, final(self).mask.words@),
            final(self).mask.hidden@ == word_set(final(self).mask.words@),
            final(self).mask.mode == mode,
            final(self).mask.block_color == old(self).mask.block_color,
            final(self).mask.reverse == old(self).mask.reverse,
            final(self).state_dirty,
    {
        let words = self.target_words(target);
        let mut hidden: BTreeSet<u32> = BTreeSet::new();
        let mut k: usize = 0;
        while k < words.len()
            invariant
                k <= words@.len(),
                hidden@ == word_set(words@.take(k as int)),
            decreases words@.len() - k,
        {
            hidden.insert(words[k]);
            proof {
                assert(words@.take(k + 1) =~= words@.take(k as int).push(words@[k as int]));
                lemma_word_set_push(words@.take(k as int), words@[k as int]);
            }
            k += 1;
        }
        assert(words@.take(words@.len() as int) =~= words@);
        proof {
            assert forall|j: int| 0 <= j < words@.len() implies #[trigger] words@[j] < self.data.words@.len() by {
                assert(words@.contains(words@[j]));
            }
        }
        self.mask.words = words;
        self.mask.hidden = hidden;
        self.mask.mode = mode;
        self.state_dirty = true;
    }

    /// Mask everything from a word onward.
    pub fn mask_from(&mut self, wi: u32, mode: MaskMode)
        requires
            old(self).wf(),
        ensures
            final(self).wf(),
            final(self).same_but_mask(old(self)),
            resolves_to(
                old(self).data.words@,
                old(self).data.lines@,
                Target::Range(wi, if old(self).data.words@.len() == 0 { 0 } else { (old(self).data.words@.len() - 1) as u32 }),
                final(self).mask.words@,
            ),
            final(self).mask.hidden@ == word_set(final(self).mask.words@),
            final(self).mask.mode == mode,
            final(self).state_dirty,
    {
        let n = self.data.words.len() as u32;
        let last = if n == 0 { 0 } else { n - 1 };
        self.mask(&Target::Range(wi, last), mode);
    }

    pub fn mask_words(&self) -> (s: &[u32])
        ensures
            s@ == self.mask.words@,
    {
        self.mask.words.as_slice()
    }

    /// The hidden words in reading order.
    pub fn mask_hidden(&self) -> (v: Vec<u32>)
        requires
            self.wf(),
        ensures
            forall|i: int, j: int| 0 <= i < j < v@.len() ==> v@[i] < v@[j],
            word_set(v@) == self.mask.hidden@,
    {
        let mut v: Vec<u32> = Vec::new();
        let mut k: usize = 0;
        while k < self.mask.words.len()
            invariant
                self.wf(),
                k <= self.mask.words@.len(),
                forall|i: int, j: int| 0 <= i < j < v@.len() ==> v@[i] < v@[j],
                forall|i: int| 0 <= i < v@.len() ==> exists|t: int| 0 <= t < k && #[trigger] v@[i] == self.mask.words@[t],
                forall|w: u32| #[trigger] v@.contains(w) <==> (self.mask.hidden@.contains(w) && self.mask.words@.take(k as int).contains(w)),
            decreases self.mask.words@.len() - k,
        {
            let w = self.mask.words[k];
            let ghost before = v@;
            if self.mask.hidden.contains(&w) {
                proof {
                    assert forall|i: int| 0 <= i < before.len() implies before[i] < w by {
                        let t = choose|t: int| 0 <= t < k && before[i] == self.mask.words@[t];
                    }
                }
                v.push(w);
            }
            proof {
                assert(self.mask.words@.take(k + 1) =~= self.mask.words@.take(k as int).push(w));
                assert forall|x: u32| #[trigger] v@.contains(x) <==> (self.mask.hidden@.contains(x)
                    && self.mask.words@.take(k + 1).contains(x)) by {
                    lemma_contains_push(self.mask.words@.take(k as int), w, x);
                    lemma_contains_push(before, w, x);
                    if v@.contains(x) && x != w {
                        let i = choose|i: int| 0 <= i < v@.len() && v@[i] == x;
                        assert(before[i] == x);
                    }
                    if x != w && self.mask.hidden@.contains(x) && self.mask.words@.take(k as int).contains(x) {
                        assert(before.contains(x));
                        let i = choose|i: int| 0 <= i < before.len() && before[i] == x;
                        assert(v@[i] == x);
                    }
                    if x == w && self.mask.hidden@.contains(x) {
                        assert(v@[v@.len() - 1] == x);
                    }
                }
                assert forall|i: int| 0 <= i < v@.len() implies exists|t: int| 0 <= t < k + 1 && #[trigger] v@[i]
                    == self.mask.words@[t] by {
                    if i < before.len() {
                        assert(v@[i] == before[i]);
                    } else {
                        assert(v@[i] == self.mask.words@[k as int]);
                    }
                }
            }
            k += 1;
        }
        proof {
            assert(self.mask.words@.take(k as int) =~= self.mask.words@);
            assert(word_set(v@) =~= self.mask.hidden@);
        }
        v
    }

    pub fn mask_hidden_count(&self) -> (n: usize)
        ensures
            n == self.mask.hidden@.len(),
    {
        self.mask.hidden.len()
    }

    pub fn mask_mode(&self) -> (m: MaskMode)
        ensures
            m == self.mask.mode,
    {
        self.mask.mode
    }

    /// The fields a reveal or hide step leaves as they were.
    pub open spec fn same_but_hidden(&self, o: &Page) -> bool {
        &&& self.same_but_mask(o)
        &&& self.mask.words == o.mask.words
        &&& self.mask.mode == o.mask.mode
        &&& self.mask.block_color == o.mask.block_color
        &&& self.mask.reverse == o.mask.reverse
    }

    /// The mask's words in reveal order (or in hide-back order).
    fn mask_order(&self, backwards: bool) -> (o: Vec<u32>)
        ensures
            o@ == (if backwards { hide_order(self.mask.words@, self.mask.reverse) } else { reveal_order(
                self.mask.words@,
                self.mask.reverse,
            ) }),
    {
        let ws = &self.mask.words;
        let flip = self.mask.reverse != backwards;
        let mut o: Vec<u32> = Vec::new();
        let mut k: usize = 0;
        while k < ws.len()
            invariant
                k <= ws@.len(),
                o@.len() == k,
                forall|i: int| 0 <= i < k ==> #[trigger] o@[i] == (if flip { ws@[ws@.len() - 1 - i] } else { ws@[i] }),
            decreases ws@.len() - k,
        {
            if flip {
                o.push(ws[ws.len() - 1 - k]);
            } else {
                o.push(ws[k]);
            }
            k += 1;
        }
        proof {
            if flip {
                assert(o@ =~= ws@.reverse());
            } else {
                assert(o@ =~= ws@);
            }
        }
        o
    }

    /// Reveal the next `n` words in order (reverse order when the mask is reversed). Returns how
    /// many changed.
    pub fn reveal_next(&mut self, n: usize) -> (done: usize)
        requires
            old(self).wf(),
        ensures
            final(self).wf(),
            final(self).same_but_hidden(old(self)),
            (final(self).mask.hidden@, done as nat) == reveal_run(
                reveal_order(old(self).mask.words@, old(self).mask.reverse),
                old(self).mask.hidden@,
                n as nat,
            ),
            final(self).state_dirty == (old(self).state_dirty || done > 0),
    {
        let order = self.mask_order(false);
        let ghost h0 = self.mask.hidden@;
        let mut done: usize = 0;
        let mut k: usize = 0;
        assert(order@.skip(0) =~= order@);
        while k < order.len()
            invariant_except_break
                self.wf(),
                self.same_but_hidden(old(self)),
                self.state_dirty == old(self).state_dirty,
                k <= order@.len(),
                done <= n,
                done <= k,
                reveal_run(order@, h0, n as nat) == ({
                    let (h, d) = reveal_run(order@.skip(k as int), self.mask.hidden@, (n - done) as nat);
                    (h, (d + done) as nat)
                }),
            ensures
                self.wf(),
                self.same_but_hidden(old(self)),
                self.state_dirty == old(self).state_dirty,
                reveal_run(order@, h0, n as nat) == (self.mask.hidden@, done as nat),
            decreases order@.len() - k,
        {
            if done >= n {
                break;
            }
            let w = order[k];
            let ghost before = self.mask.hidden@;
            let ghost done0 = done;
            proof {
                assert(order@.skip(k as int).drop_first() =~= order@.skip(k + 1));
                assert(order@.skip(k as int)[0] == w);
            }
            let removed = self.mask.hidden.remove(&w);
            if removed {
                done += 1;
            }
            proof {
                assert(removed == before.contains(w));
                if removed {
                    assert(self.mask.hidden@ == before.remove(w));
                } else {
                    assert(self.mask.hidden@ == before);
                }
                assert(reveal_run(order@.skip(k as int), before, (n - done0) as nat) == ({
                    let (h, d) = reveal_run(order@.skip(k + 1), self.mask.hidden@, (n - done) as nat);
                    (h, (d + done - done0) as nat)
                }));
                assert forall|w2: u32| self.mask.hidden@.contains(w2) implies self.mask.words@.contains(w2) by {
                    assert(before.contains(w2));
                }
            }
            k += 1;
        }
        proof {
            if k == order@.len() {
                assert(order@.skip(k as int).len() == 0);
            }
        }
        if done > 0 {
            self.state_dirty = true;
        }
        done
    }

    /// Re-hide the last `n` revealed words.
    pub fn hide_back(&mut self, n: usize) -> (done: usize)
        requires
            old(self).wf(),
        ensures
            final(self).wf(),
            final(self).same_but_hidden(old(self)),
            (final(self).mask.hidden@, done as nat) == hide_run(
                hide_order(old(self).mask.words@, old(self).mask.reverse),
                old(self).mask.hidden@,
                n as nat,
            ),
            final(self).state_dirty == (old(self).state_dirty || done > 0),
    {
        let order = self.mask_order(true);
        let ghost h0 = self.mask.hidden@;
        proof {
            assert forall|i: int| 0 <= i < order@.len() implies self.mask.words@.contains(#[trigger] order@[i]) by {
                if self.mask.reverse {
                    assert(order@[i] == self.mask.words@[i]);
                } else {
                    assert(order@[i] == self.mask.words@[self.mask.words@.len() - 1 - i]);
                }
            }
        }
        let mut done: usize = 0;
        let mut k: usize = 0;
        assert(order@.skip(0) =~= order@);
        while k < order.len()
            invariant_except_break
                self.wf(),
                self.same_but_hidden(old(self)),
                self.state_dirty == old(self).state_dirty,
                forall|i: int| 0 <= i < order@.len() ==> self.mask.words@.contains(#[trigger] order@[i]),
                k <= order@.len(),
                done <= n,
                done <= k,
                hide_run(order@, h0, n as nat) == ({
                    let (h, d) = hide_run(order@.skip(k as int), self.mask.hidden@, (n - done) as nat);
                    (h, (d + done) as nat)
                }),
            ensures
                self.wf(),
                self.same_but_hidden(old(self)),
                self.state_dirty == old(self).state_dirty,
                hide_run(order@, h0, n as nat) == (self.mask.hidden@, done as nat),
            decreases order@.len() - k,
        {
            if done >= n {
                break;
            }
            let w = order[k];
            let ghost before = self.mask.hidden@;
            let ghost done0 = done;
            proof {
                assert(order@.skip(k as int).drop_first() =~= order@.skip(k + 1));
                assert(order@.skip(k as int)[0] == w);
                assert(self.mask.words@.contains(order@[k as int]));
            }
            if !self.mask.hidden.contains(&w) {
                self.mask.hidden.insert(w);
                done += 1;
            }
            proof {
                assert(hide_run(order@.skip(k as int), before, (n - done0) as nat) == ({
                    let (h, d) = hide_run(order@.skip(k + 1), self.mask.hidden@, (n - done) as nat);
                    (h, (d + done - done0) as nat)
                }));
                assert forall|w2: u32| self.mask.hidden@.contains(w2) implies self.mask.words@.contains(w2) by {
                    if w2 != w {
                        assert(before.contains(w2));
                    }
                }
            }
            k += 1;
        }
        proof {
            if k == order@.len() {
                assert(order@.skip(k as int).len() == 0);
            }
        }
        if done > 0 {
            self.state_dirty = true;
        }
        done
    }

    pub fn reveal_word(&mut self, wi: u32) -> (r: bool)
        requires
            old(self).wf(),
        ensures
            final(self).wf(),
            final(self).same_but_hidden(old(self)),
            r == old(self).mask.hidden@.contains(wi),
            final(self).mask.hidden@ == old(self).mask.hidden@.remove(wi),
            final(self).state_dirty == (old(self).state_dirty || r),
    {
        let r = self.mask.hidden.remove(&wi);
        self.state_dirty = self.state_dirty || r;
        r
    }

    /// Hide one word, adding it to the mask (in reading order) when it is not there.
    pub fn hide_word(&mut self, wi: u32) -> (r: bool)
        requires
            old(self).wf(),
            wi < old(self).data.words@.len(),
        ensures
            final(self).wf(),
            final(self).same_but_mask(old(self)),
            word_set(final(self).mask.words@) == word_set(old(self).mask.words@).insert(wi),
            r == !old(self).mask.hidden@.contains(wi),
            final(self).mask.hidden@ == old(self).mask.hidden@.insert(wi),
            final(self).mask.mode == old(self).mask.mode,
            final(self).mask.block_color == old(self).mask.block_color,
            final(self).mask.reverse == old(self).mask.reverse,
            final(self).state_dirty == (old(self).state_dirty || r),
    {
        let ws = &self.mask.words;
        let mut pos: usize = 0;
        while pos < ws.len() && ws[pos] < wi
            invariant
                pos <= ws@.len(),
                forall|i: int| 0 <= i < pos ==> ws@[i] < wi,
            decreases ws@.len() - pos,
        {
            pos += 1;
        }
        if pos == ws.len() || ws[pos] != wi {
            let ghost w0 = self.mask.words@;
            proof {
                assert forall|i: int| pos <= i < w0.len() implies w0[i] > wi by {
                    assert(w0[pos as int] >= wi);
                    if i > pos {
                        assert(w0[pos as int] < w0[i]);
                    }
                }
            }
            self.mask.words.insert(pos, wi);
            proof {
                let w1 = self.mask.words@;
                assert forall|a: int, b: int| 0 <= a < b < w1.len() implies w1[a] < w1[b] by {
                    if a < pos && b > pos {
                        assert(w1[b] == w0[b - 1]);
                    }
                    if a > pos {
                        assert(w1[a] == w0[a - 1]);
                        assert(w1[b] == w0[b - 1]);
                    }
                    if a == pos && b > pos {
                        assert(w1[b] == w0[b - 1]);
                    }
                }
                assert forall|x: u32| word_set(w1).contains(x) <==> word_set(w0).insert(wi).contains(x) by {
                    if w0.contains(x) {
                        let i = choose|i: int| 0 <= i < w0.len() && w0[i] == x;
                        if i < pos {
                            assert(w1[i] == x);
                        } else {
                            assert(w1[i + 1] == x);
                        }
                    }
                    if x == wi {
                        assert(w1[pos as int] == x);
                    }
                    if w1.contains(x) {
                        let i = choose|i: int| 0 <= i < w1.len() && w1[i] == x;
                        if i < pos {
                            assert(w0[i] == x);
                        } else if i > pos {
                            assert(w0[i - 1] == x);
                        }
                    }
                }
                assert(word_set(w1) =~= word_set(w0).insert(wi));
                assert forall|k: int| 0 <= k < w1.len() implies #[trigger] w1[k] < self.data.words@.len() by {
                    if k < pos {
                        assert(w1[k] == w0[k]);
                    } else if k > pos {
                        assert(w1[k] == w0[k - 1]);
                    }
                }
                assert forall|w: u32| self.mask.hidden@.contains(w) implies w1.contains(w) by {
                    assert(old(self).mask.hidden@.contains(w));
                    assert(w0.contains(w));
                    assert(word_set(w0).insert(wi).contains(w));
                    assert(word_set(w1).contains(w));
                }
            }
        } else {
            proof {
                assert(word_set(self.mask.words@) =~= word_set(self.mask.words@).insert(wi));
            }
        }
        let r = self.mask.hidden.insert(wi);
        proof {
            assert forall|w: u32| self.mask.hidden@.contains(w) implies self.mask.words@.contains(w) by {
                assert(word_set(self.mask.words@).contains(w));
            }
        }
        self.state_dirty = self.state_dirty || r;
        r
    }

    pub fn reveal_all(&mut self)
        requires
            old(self).wf(),
        ensures
            final(self).wf(),
            final(self).same_but_hidden(old(self)),
            final(self).mask.hidden@ == Set::<u32>::empty(),
            final(self).state_dirty,
    {
        self.mask.hidden.clear();
        self.state_dirty = true;
    }

    pub fn hide_all(&mut self)
        requires
            old(self).wf(),
        ensures
            final(self).wf(),
            final(self).same_but_hidden(old(self)),
            final(self).mask.hidden@ == word_set(old(self).mask.words@),
            final(self).state_dirty,
    {
        let mut hidden: BTreeSet<u32> = BTreeSet::new();
        let mut k: usize = 0;
        while k < self.mask.words.len()
            invariant
                k <= self.mask.words@.len(),
                hidden@ == word_set(self.mask.words@.take(k as int)),
            decreases self.mask.words@.len() - k,
        {
            hidden.insert(self.mask.words[k]);
            proof {
                assert(self.mask.words@.take(k + 1) =~= self.mask.words@.take(k as int).push(self.mask.words@[k as int]));
                lemma_word_set_push(self.mask.words@.take(k as int), self.mask.words@[k as int]);
            }
            k += 1;
        }
        assert(self.mask.words@.take(k as int) =~= self.mask.words@);
        self.mask.hidden = hidden;
        self.state_dirty = true;
    }

    /// Drop the mask: no words, nothing hidden, the options back to their defaults.
    pub fn unmask(&mut self)
        requires
            old(self).wf(),
        ensures
            final(self).wf(),
            final(self).same_but_mask(old(self)),
            final(self).mask.words@.len() == 0,
            final(self).mask.hidden@ == Set::<u32>::empty(),
            final(self).mask.mode == MaskMode::Hide,
            final(self).mask.block_color == MASK_BLOCK_COLOR,
            !final(self).mask.reverse,
            final(self).state_dirty,
    {
        self.mask = MaskState::new();
        self.state_dirty = true;
    }

    /// The fields a reveal operation leaves as they were.
    pub open spec fn same_but_reveal(&self, o: &Page) -> bool {
        &&& self.data == o.data
        &&& self.path_word == o.path_word
        &&& self.path_deco == o.path_deco
        &&& self.path_line == o.path_line
        &&& self.path_ctx == o.path_ctx
        &&& self.word_index == o.word_index
        &&& self.styles == o.styles
        &&& self.mask == o.mask
        &&& self.selection == o.selection
    }

    /// Start the greyed-page reveal. Steps are words (or ayahs) in reading order. Returns the
    /// number of steps.
    pub fn reveal_start(&mut self, lit: u32, by_ayah: bool, grey: Rgba, ink: Rgba, markers: bool, transition_ms: u32) -> (steps: u32)
        requires
            old(self).wf(),
        ensures
            final(self).wf(),
            final(self).same_but_reveal(old(self)),
            final(self).reveal matches Some(r) && {
                &&& r.at == -1
                &&& r.lit == (if lit >= 1 { lit } else { 1 })
                &&& r.by_ayah == by_ayah
                &&& r.grey == grey
                &&& r.ink == ink
                &&& r.markers == markers
                &&& r.transition_ms == transition_ms
                &&& r.step_of_word@ == (if by_ayah {
                    ayah_steps(old(self).data.words@, old(self).data.words@.len() as int)
                } else {
                    Seq::new(old(self).data.words@.len(), |i: int| i as u32)
                })
                &&& r.steps == steps
            },
            steps == (if by_ayah {
                if old(self).data.words@.len() == 0 {
                    1int
                } else {
                    ayah_steps(old(self).data.words@, old(self).data.words@.len() as int).last() + 1
                }
            } else {
                old(self).data.words@.len() as int
            }),
            final(self).state_dirty,
    {
        let ws = &self.data.words;
        let mut step_of_word: Vec<u32> = Vec::new();
        let mut steps: u32 = 0;
        let mut k: usize = 0;
        while k < ws.len()
            invariant
                ws == &self.data.words,
                ws@.len() < u32::MAX,
                k <= ws@.len(),
                step_of_word@ == (if by_ayah { ayah_steps(ws@, k as int) } else { Seq::new(k as nat, |i: int| i as u32) }),
                by_ayah ==> (k == 0 ==> steps == 0) && (k > 0 ==> steps == ayah_steps(ws@, k as int).last()),
            decreases ws@.len() - k,
        {
            proof {
                lemma_ayah_steps(ws@, k as int);
            }
            if by_ayah {
                if k > 0 && (ws[k].surah != ws[k - 1].surah || ws[k].ayah != ws[k - 1].ayah) {
                    steps += 1;
                }
                step_of_word.push(steps);
                proof {
                    assert(step_of_word@ =~= ayah_steps(ws@, k + 1));
                }
            } else {
                step_of_word.push(k as u32);
                proof {
                    assert(step_of_word@ =~= Seq::new((k + 1) as nat, |i: int| i as u32));
                }
            }
            k += 1;
        }
        proof {
            lemma_ayah_steps(ws@, ws@.len() as int);
        }
        let steps: u32 = if by_ayah { steps + 1 } else { ws.len() as u32 };
        let lit = if lit >= 1 { lit } else { 1 };
        self.reveal = Some(Reveal { at: -1, lit, by_ayah, grey, ink, markers, transition_ms, step_of_word, steps });
        self.state_dirty = true;
        steps
    }

    /// Move the reveal's window to end at step `at`, held within the steps. False when no reveal
    /// is running.
    pub fn reveal_goto(&mut self, at: i64) -> (r: bool)
        requires
            old(self).wf(),
        ensures
            final(self).wf(),
            final(self).same_but_reveal(old(self)),
            r == old(self).reveal is Some,
            match old(self).reveal {
                Some(o) => final(self).reveal == Some(Reveal {
                    at: if at < -1 { -1i64 } else if at > o.steps - 1 { (o.steps - 1) as i64 } else { at },
                    ..o
                }) && final(self).state_dirty,
                None => final(self).reveal is None && final(self).state_dirty == old(self).state_dirty,
            },
    {
        match &mut self.reveal {
            Some(r) => {
                let hi: i64 = r.steps as i64 - 1;
                r.at = if at < -1 { -1 } else if at > hi { hi } else { at };
                self.state_dirty = true;
                true
            },
            None => false,
        }
    }

    pub fn reveal_at(&self) -> (r: Option<i64>)
        ensures
            r == (match self.reveal {
                Some(x) => Some(x.at),
                None => None::<i64>,
            }),
    {
        match &self.reveal {
            Some(x) => Some(x.at),
            None => None,
        }
    }

    pub fn reveal_steps(&self) -> (n: u32)
        ensures
            n == (match self.reveal {
                Some(x) => x.steps,
                None => 0,
            }),
    {
        match &self.reveal {
            Some(x) => x.steps,
            None => 0,
        }
    }

    /// Step index of a word under the current reveal (word index when by word).
    pub fn reveal_step_of(&self, wi: u32) -> (r: Option<u32>)
        requires
            self.wf(),
            self.reveal is Some ==> wi < self.data.words@.len(),
        ensures
            r == (match self.reveal {
                Some(x) => Some(x.step_of_word@[wi as int]),
                None => None::<u32>,
            }),
    {
        match &self.reveal {
            Some(x) => Some(x.step_of_word[wi as usize]),
            None => None,
        }
    }

    pub fn reveal_stop(&mut self)
        requires
            old(self).wf(),
        ensures
            final(self).wf(),
            final(self).same_but_reveal(old(self)),
            final(self).reveal is None,
            final(self).state_dirty == (old(self).state_dirty || old(self).reveal is Some),
    {
        if self.reveal.is_some() {
            self.reveal = None;
            self.state_dirty = true;
        }
    }

    /// The reveal's colour for path `pi`.
    pub fn reveal_color_for(&self, pi: u32) -> (c: Option<Rgba>)
        requires
            self.wf(),
            pi < self.data.paths@.len(),
        ensures
            c == (match self.reveal {
                Some(r) => Some(reveal_color(r, self.data.words@, self.path_ctx@[pi as int])),
                None => None::<Rgba>,
            }),
    {
        match &self.reveal {
            None => None,
            Some(r) => {
                let c = self.path_ctx[pi as usize];
                let ws = &self.data.words;
                proof {
                    crate::page::lemma_ctx_word(self, pi as int);
                }
                let step: Option<i64> = if c.word != NONE {
                    Some(r.step_of_word[c.word as usize] as i64)
                } else if r.markers && c.deco != NONE && c.ayah != 0 && c.deco_kind == DecoKind::AyahMark {
                    let found = last_word_of_ayah(ws, c.surah, c.ayah);
                    match found {
                        Some(wi) => Some(r.step_of_word[wi] as i64),
                        None => None,
                    }
                } else {
                    None
                };
                let lo: i64 = r.at - r.lit as i64;
                Some(match step {
                    Some(st) => if st > lo && st <= r.at { r.ink } else { r.grey },
                    None => r.grey,
                })
            },
        }
    }

    /// The colour of the boxes drawn over hidden words, and whether words are revealed from the
    /// end of the mask.
    pub fn set_mask_options(&mut self, block_color: Rgba, reverse: bool)
        requires
            old(self).wf(),
        ensures
            final(self).wf(),
            final(self).same_but_mask(old(self)),
            final(self).mask.words == old(self).mask.words,
            final(self).mask.hidden == old(self).mask.hidden,
            final(self).mask.mode == old(self).mask.mode,
            final(self).mask.block_color == block_color,
            final(self).mask.reverse == reverse,
            final(self).state_dirty == old(self).state_dirty,
    {
        self.mask.block_color = block_color;
        self.mask.reverse = reverse;
    }
}

proof fn lemma_skip_drop_first(s: Seq<u32>, j: int)
    requires
        1 <= j <= s.len(),
    ensures
        s.skip(j) == s.drop_first().skip(j - 1),
{
    assert(s.skip(j) =~= s.drop_first().skip(j - 1));
}

proof fn lemma_in_skip(s: Seq<u32>, j: int, x: u32)
    requires
        increasing(s),
        0 <= j <= s.len(),
    ensures
        word_set(s.skip(j)).contains(x) <==> exists|i: int| j <= i < s.len() && s[i] == x,
{
    if word_set(s.skip(j)).contains(x) {
        let t = choose|t: int| 0 <= t < s.skip(j).len() && s.skip(j)[t] == x;
        assert(s[j + t] == x);
    }
    if exists|i: int| j <= i < s.len() && s[i] == x {
        let i = choose|i: int| j <= i < s.len() && s[i] == x;
        assert(s.skip(j)[i - j] == x);
    }
}

/// Revealing `n` words of a mask whose hidden words are its words from position `j` on reveals
/// the next `min(n, len - j)` of them.
proof fn lemma_reveal_suffix(s: Seq<u32>, j: int, n: nat)
    requires
        increasing(s),
        0 <= j <= s.len(),
    ensures
        reveal_run(s, word_set(s.skip(j)), n) == ({
            let m = if n <= s.len() - j { n as int } else { s.len() - j };
            (word_set(s.skip(j + m)), m as nat)
        }),
    decreases s.len(),
{
    if s.len() == 0 || n == 0 {
    } else {
        let t = s.drop_first();
        assert(increasing(t));
        if j == 0 {
            lemma_in_skip(s, 0, s[0]);
            assert(s.skip(0) =~= s);
            assert(word_set(s).remove(s[0]) =~= word_set(t.skip(0))) by {
                assert(t.skip(0) =~= t);
                assert forall|x: u32| word_set(s).remove(s[0]).contains(x) <==> word_set(t).contains(x) by {
                    lemma_in_skip(s, 0, x);
                    lemma_in_skip(t, 0, x);
                    assert(s.skip(0) =~= s);
                    if word_set(t).contains(x) {
                        let i = choose|i: int| 0 <= i < t.len() && t[i] == x;
                        assert(s[i + 1] == x);
                        assert(s[0] < s[i + 1]);
                    }
                    if word_set(s).contains(x) && x != s[0] {
                        let i = choose|i: int| 0 <= i < s.len() && s[i] == x;
                        assert(i != 0);
                        assert(t[i - 1] == x);
                    }
                }
            }
            lemma_reveal_suffix(t, 0, (n - 1) as nat);
            let m = if n <= s.len() { n as int } else { s.len() as int };
            assert(t.skip(m - 1) =~= s.skip(m));
        } else {
            lemma_skip_drop_first(s, j);
            lemma_in_skip(s, j, s[0]);
            lemma_reveal_suffix(t, j - 1, n);
            let m = if n <= s.len() - j { n as int } else { s.len() - j };
            lemma_skip_drop_first(s, j + m);
        }
    }
}

/// Hiding back `m` words, last first, over a mask whose hidden words are its words from position
/// `k` on (and words of no concern to it) hides the `m` before position `k`.
proof fn lemma_hide_suffix(s: Seq<u32>, k: int, m: nat, e: Set<u32>)
    requires
        increasing(s),
        m <= k <= s.len(),
        forall|x: u32| e.contains(x) ==> !s.contains(x),
    ensures
        hide_run(s.reverse(), word_set(s.skip(k)).union(e), m) == (word_set(s.skip(k - m)).union(e), m),
    decreases s.len(),
{
    if m == 0 {
    } else {
        let t = s.drop_last();
        let last = s.last();
        let len = s.len() as int;
        assert(s.reverse().drop_first() =~= t.reverse());
        assert(s.reverse()[0] == last);
        assert(increasing(t));
        assert forall|x: u32| e.insert(last).contains(x) implies !t.contains(x) by {
            if t.contains(x) {
                let i = choose|i: int| 0 <= i < t.len() && t[i] == x;
                assert(s[i] == x);
                if x == last {
                    assert(s[i] < s[len - 1]);
                }
            }
        }
        assert(s.contains(last)) by {
            assert(s[len - 1] == last);
        }
        if k == len {
            assert(word_set(s.skip(len)) =~= Set::<u32>::empty());
            assert(!word_set(s.skip(k)).union(e).contains(last));
            assert(word_set(s.skip(k)).union(e).insert(last) =~= word_set(t.skip(len - 1)).union(e.insert(last))) by {
                assert(t.skip(len - 1) =~= Seq::<u32>::empty());
            }
            lemma_hide_suffix(t, len - 1, (m - 1) as nat, e.insert(last));
            assert(word_set(t.skip(len - m)).union(e.insert(last)) =~= word_set(s.skip(len - m)).union(e)) by {
                assert(s.skip(len - m) =~= t.skip(len - m).push(last));
                lemma_word_set_push(t.skip(len - m), last);
            }
        } else {
            assert(word_set(s.skip(k)).union(e).contains(last)) by {
                assert(s.skip(k)[len - 1 - k] == last);
            }
            assert(word_set(s.skip(k)).union(e) =~= word_set(t.skip(k)).union(e.insert(last))) by {
                assert(s.skip(k) =~= t.skip(k).push(last));
                lemma_word_set_push(t.skip(k), last);
            }
            lemma_hide_suffix(t, k, m, e.insert(last));
            assert(word_set(t.skip(k - m)).union(e.insert(last)) =~= word_set(s.skip(k - m)).union(e)) by {
                assert(s.skip(k - m) =~= t.skip(k - m).push(last));
                lemma_word_set_push(t.skip(k - m), last);
            }
        }
    }
}

/// On a mask revealed front to back (its hidden words are its words from some position on),
/// a reveal step of `n` reveals as many words as are hidden, up to `n`, and hiding back that
/// many words hides exactly those again and gives the hidden words back.
pub proof fn hide_back_undoes_reveal_next(words: Seq<u32>, j: int, n: nat)
    requires
        increasing(words),
        0 <= j <= words.len(),
    ensures
        ({
            let (h1, d) = reveal_run(reveal_order(words, false), word_set(words.skip(j)), n);
            &&& d == if n <= words.len() - j { n as int } else { words.len() - j }
            &&& hide_run(hide_order(words, false), h1, d) == (word_set(words.skip(j)), d)
        }),
        word_set(words.skip(j)).len() == words.len() - j,
{
    let t = words.skip(j);
    assert(t.no_duplicates()) by {
        assert forall|a: int, b: int| 0 <= a < t.len() && 0 <= b < t.len() && a != b implies t[a] != t[b] by {
            assert(t[a] == words[a + j] && t[b] == words[b + j]);
            if a < b {
                assert(words[a + j] < words[b + j]);
            } else {
                assert(words[b + j] < words[a + j]);
            }
        }
    }
    t.unique_seq_to_set();
    assert(word_set(t) =~= t.to_set());
    lemma_reveal_suffix(words, j, n);
    let m = if n <= words.len() - j { n as int } else { words.len() - j };
    lemma_hide_suffix(words, j + m, m as nat, Set::<u32>::empty());
    assert(word_set(words.skip(j + m)).union(Set::<u32>::empty()) =~= word_set(words.skip(j + m)));
    assert(word_set(words.skip(j)).union(Set::<u32>::empty()) =~= word_set(words.skip(j)));
}

} // verus!
