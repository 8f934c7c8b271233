//! What travels with what when a page's words are laid out again: the words of each line in
//! left-to-right order, the sajdah line strokes and the words they are drawn over, the word a
//! mark belongs with, and the word each decoration anchors to.
use vstd::prelude::*;
use crate::model::{AyahRec, DecoKind, DecoRec, IBox, LineRec, PageData, PathRec, WordRec, MARK_SAJDAH_LINE, NONE_U16};
use crate::page::{under_in, word_under, Page};
use crate::style::NONE;

verus! {

/// Whether a path is a sajdah line stroke.
pub open spec fn is_stroke(p: PathRec) -> bool {
    p.mark == MARK_SAJDAH_LINE
}

/// Whether any of the paths `[lo, hi)` is a stroke.
pub open spec fn has_stroke(ps: Seq<PathRec>, lo: int, hi: int) -> bool {
    exists|pi: int| lo <= pi < hi && #[trigger] is_stroke(ps[pi])
}

/// The paths of `[lo, hi)` that are not strokes, in order.
pub open spec fn non_strokes(ps: Seq<PathRec>, lo: int, hi: int) -> Seq<u32>
    decreases hi - lo,
{
    if hi <= lo {
        Seq::empty()
    } else {
        let rest = non_strokes(ps, lo, hi - 1);
        if is_stroke(ps[hi - 1]) {
            rest
        } else {
            rest.push((hi - 1) as u32)
        }
    }
}

/// The box of the strokes among the paths `[lo, hi)`, if there is one.
pub open spec fn stroke_box(ps: Seq<PathRec>, lo: int, hi: int) -> Option<IBox>
    decreases hi - lo,
{
    if hi <= lo {
        None
    } else {
        let rest = stroke_box(ps, lo, hi - 1);
        if is_stroke(ps[hi - 1]) {
            Some(
                match rest {
                    None => ps[hi - 1].bbox,
                    Some(b) => b.spec_union(ps[hi - 1].bbox),
                },
            )
        } else {
            rest
        }
    }
}

/// The box of the listed paths, if there is one.
pub open spec fn boxes_of(ps: Seq<PathRec>, idx: Seq<u32>) -> Option<IBox>
    decreases idx.len(),
{
    if idx.len() == 0 {
        None
    } else {
        let rest = boxes_of(ps, idx.drop_last());
        let b = ps[idx.last() as int].bbox;
        Some(
            match rest {
                None => b,
                Some(a) => a.spec_union(b),
            },
        )
    }
}

/// The words of the first `k` that sit on line `li` and overlap the box horizontally.
pub open spec fn words_over(ws: Seq<WordRec>, li: u16, b: IBox, k: int) -> Seq<u32>
    decreases k,
{
    if k <= 0 {
        Seq::empty()
    } else {
        let rest = words_over(ws, li, b, k - 1);
        let w = ws[k - 1];
        if w.line_index == li && w.bbox.x0 < b.x1 && w.bbox.x1 > b.x0 {
            rest.push((k - 1) as u32)
        } else {
            rest
        }
    }
}

/// The words a sajdah line is drawn over: those of the line directly below its strokes that
/// the strokes span. None for a decoration without strokes.
pub open spec fn sajdah_words(d: &PageData, di: int) -> Seq<u32> {
    let dc = d.decorations@[di];
    match stroke_box(d.paths@, dc.first_path as int, dc.first_path + dc.n_paths) {
        None => Seq::empty(),
        Some(b) => match under_in(d.words@, b, 2 * d.quant, d.words@.len() as int) {
            None => Seq::empty(),
            Some(u) => words_over(d.words@, d.words@[u].line_index, b, d.words@.len() as int),
        },
    }
}

/// Halving that rounds toward zero, as `i32` division does.
pub open spec fn half(v: int) -> int {
    if v >= 0 { v / 2 } else { -((-v) / 2) }
}

pub open spec fn abs_int(v: int) -> int {
    if v < 0 { -v } else { v }
}

/// How far a word is from `c`: from the nearer of its two edges.
pub open spec fn edge_distance(w: WordRec, c: int) -> int {
    let a = abs_int(w.bbox.x0 - c);
    let b = abs_int(w.bbox.x1 - c);
    if a < b { a } else { b }
}

/// How a word is weighed when picking one for a mark at `r`: after the mark (mode 0) a word
/// ending at or left of `r`, by how far it ends before `r`; before the mark (mode 1) a word
/// starting at or right of `r`, by how far it starts after `r`; otherwise (mode 2) any word, by
/// its edge distance from `r`.
pub open spec fn key_of(mode: int, w: WordRec, r: int) -> Option<int> {
    if mode == 0 {
        if w.bbox.x1 <= r { Some(r - w.bbox.x1) } else { None }
    } else if mode == 1 {
        if w.bbox.x0 >= r { Some(w.bbox.x0 - r) } else { None }
    } else {
        Some(edge_distance(w, r))
    }
}

/// Word `i` with key `k1` comes before word `j` with key `k2`: by key, then left to right along
/// the line (by left edge, then by index).
pub open spec fn comes_first(k1: int, w1: WordRec, i: int, k2: int, w2: WordRec, j: int) -> bool {
    k1 < k2 || (k1 == k2 && (w1.bbox.x0 < w2.bbox.x0 || (w1.bbox.x0 == w2.bbox.x0 && i < j)))
}

/// The first, in that order, of the words `[lo, hi)` that have a key.
pub open spec fn pick(ws: Seq<WordRec>, mode: int, r: int, lo: int, hi: int) -> Option<int>
    decreases hi - lo,
{
    if hi <= lo {
        None
    } else {
        let best = pick(ws, mode, r, lo, hi - 1);
        let i = hi - 1;
        match key_of(mode, ws[i], r) {
            None => best,
            Some(k) => match best {
                None => Some(i),
                Some(b) => if comes_first(k, ws[i], i, key_of(mode, ws[b], r)->0, ws[b], b) {
                    Some(i)
                } else {
                    best
                },
            },
        }
    }
}

/// Where a mark on path `pi` reaches to: `slack` past its left edge when looking for the word
/// after it, `slack` short of its right edge when looking for the word before it.
pub open spec fn reach_of(b: IBox, slack: int, after: bool) -> int {
    if after { b.x0 + slack } else { b.x1 - slack }
}

/// The word that goes with a mark on path `pi`, on the line the path was resolved to: the one
/// after it in reading order (`after`, the word to its left) or the one before it (the word to
/// its right); a mark with no such word takes the nearest word of that line.
pub open spec fn word_near(d: &PageData, pl: Seq<u32>, pi: int, slack: int, after: bool) -> Option<u32> {
    if pi < 0 || pi >= d.paths@.len() || pl[pi] >= d.lines@.len() {
        None
    } else {
        let l = d.lines@[pl[pi] as int];
        let b = d.paths@[pi].bbox;
        let lo = l.first_word as int;
        let hi = l.first_word + l.n_words;
        match pick(d.words@, if after { 0 } else { 1 }, reach_of(b, slack, after), lo, hi) {
            Some(i) => Some(i as u32),
            None => match pick(d.words@, 2, half(b.x0 + b.x1), lo, hi) {
                Some(i) => Some(i as u32),
                None => None,
            },
        }
    }
}

/// Every number the search for that word works out fits in 32 bits.
pub open spec fn near_fits(d: &PageData, pl: Seq<u32>, pi: int, slack: int, after: bool) -> bool {
    0 <= pi < d.paths@.len() ==> {
        let b = d.paths@[pi].bbox;
        let r = reach_of(b, slack, after);
        let mode: int = if after { 0 } else { 1 };
        &&& fits_i32(r)
        &&& pl[pi] < d.lines@.len() ==> {
            let l = d.lines@[pl[pi] as int];
            forall|i: int|
                l.first_word <= i < l.first_word + l.n_words ==> (#[trigger] key_of(mode, d.words@[i], r)
                    matches Some(k) ==> fits_i32(k))
        }
    }
}

pub open spec fn fits_i32(v: int) -> bool {
    i32::MIN <= v <= i32::MAX
}

/// The last word of the last ayah fragment that names decoration `di` as its closing mark.
pub open spec fn named_closer(ays: Seq<AyahRec>, di: int, k: int) -> u32
    decreases k,
{
    if k <= 0 {
        NONE
    } else {
        let a = ays[k - 1];
        if a.ayah_mark_decoration != NONE_U16 && a.n_words > 0 && a.ayah_mark_decoration == di {
            (a.first_word + a.n_words - 1) as u32
        } else {
            named_closer(ays, di, k - 1)
        }
    }
}

/// The last word of the last fragment of ayah (s, a) on the page.
pub open spec fn last_closer(ays: Seq<AyahRec>, s: u16, a: u16, k: int) -> u32
    decreases k,
{
    if k <= 0 {
        NONE
    } else {
        let x = ays[k - 1];
        if x.surah == s && x.ayah == a && x.n_words > 0 {
            (x.first_word + x.n_words - 1) as u32
        } else {
            last_closer(ays, s, a, k - 1)
        }
    }
}

/// The first ayah mark of the first `k` decorations that closes ayah (s, a).
pub open spec fn first_medallion(ds: Seq<DecoRec>, s: u16, a: u16, k: int) -> Option<int>
    decreases k,
{
    if k <= 0 {
        None
    } else {
        match first_medallion(ds, s, a, k - 1) {
            Some(m) => Some(m),
            None => if ds[k - 1].kind == DecoKind::AyahMark && ds[k - 1].surah == s && ds[k - 1].ayah == a {
                Some(k - 1)
            } else {
                None
            },
        }
    }
}

/// The word a decoration travels with, before a sajdah mark is joined to its medallion: the
/// word an ayah record names it to close; else for a sajdah mark the word it is printed after,
/// for a division mark the word it opens, for a medallion its ayah's last word on the page.
pub open spec fn own_anchor(d: &PageData, pl: Seq<u32>, slack: int, di: int) -> u32 {
    let named = named_closer(d.ayahs@, di, d.ayahs@.len() as int);
    if named != NONE {
        named
    } else {
        let dc = d.decorations@[di];
        let others = non_strokes(d.paths@, dc.first_path as int, dc.first_path + dc.n_paths);
        match dc.kind {
            DecoKind::SajdahMark => if others.len() > 0 {
                match word_near(d, pl, others[0] as int, slack, false) {
                    Some(w) => w,
                    None => NONE,
                }
            } else {
                NONE
            },
            DecoKind::DivisionMark => if others.len() > 0 {
                match word_near(d, pl, others[0] as int, slack, true) {
                    Some(w) => w,
                    None => NONE,
                }
            } else {
                NONE
            },
            DecoKind::AyahMark => last_closer(d.ayahs@, dc.surah, dc.ayah, d.ayahs@.len() as int),
            _ => NONE,
        }
    }
}

/// The word a decoration travels with; a sajdah mark and the medallion after it are read as one
/// sign and travel with the medallion's word.
pub open spec fn anchor_of(d: &PageData, pl: Seq<u32>, slack: int, di: int) -> u32 {
    let own = own_anchor(d, pl, slack, di);
    let dc = d.decorations@[di];
    if dc.kind == DecoKind::SajdahMark {
        match first_medallion(d.decorations@, dc.surah, dc.ayah, d.decorations@.len() as int) {
            Some(m) => if own_anchor(d, pl, slack, m) != NONE { own_anchor(d, pl, slack, m) } else { own },
            None => own,
        }
    } else {
        own
    }
}

/// Every number working out the anchors computes fits its type: an ayah's last word in 16 bits,
/// and the searches for the words marks go with in 32 bits.
pub open spec fn anchors_fit(d: &PageData, pl: Seq<u32>, slack: int) -> bool {
    &&& forall|k: int| 0 <= k < d.ayahs@.len() && (#[trigger] d.ayahs@[k]).n_words > 0 ==> d.ayahs@[k].first_word
        + d.ayahs@[k].n_words <= u16::MAX
    &&& forall|di: int|
        0 <= di < d.decorations@.len() && named_closer(d.ayahs@, di, d.ayahs@.len() as int) == NONE ==> {
            let dc = #[trigger] d.decorations@[di];
            let others = non_strokes(d.paths@, dc.first_path as int, dc.first_path + dc.n_paths);
            others.len() > 0 ==> (dc.kind == DecoKind::SajdahMark ==> near_fits(d, pl, others[0] as int, slack, false))
                && (dc.kind == DecoKind::DivisionMark ==> near_fits(d, pl, others[0] as int, slack, true))
        }
}

/// Pairs ordered by their first number, then by their second.
pub open spec fn pair_le(a: (i32, u32), b: (i32, u32)) -> bool {
    a.0 < b.0 || (a.0 == b.0 && a.1 <= b.1)
}

/// Each word of a line with its left edge.
pub open spec fn line_pairs(ws: Seq<WordRec>, l: LineRec) -> Seq<(i32, u32)> {
    Seq::new(l.n_words as nat, |k: int| (ws[l.first_word + k].bbox.x0, (l.first_word + k) as u32))
}

/// `<[(i32, u32)]>::sort_unstable`: the pairs in order, by their first number and then their
/// second.
#[verifier::external_body]
fn sort_pairs(v: &mut Vec<(i32, u32)>)
    ensures
        final(v)@.to_multiset() == old(v)@.to_multiset(),
        forall|i: int, j: int| 0 <= i <= j < final(v)@.len() ==> pair_le(#[trigger] final(v)@[i], #[trigger] final(v)@[j]),
{
    v.sort_unstable();
}

fn bounded_union(acc: Option<IBox>, b: IBox) -> (r: IBox)
    requires
        b.bounded(),
        acc matches Some(a) ==> a.bounded(),
    ensures
        r == match acc {
            None => b,
            Some(a) => a.spec_union(b),
        },
        r.bounded(),
{
    match acc {
        None => b,
        Some(a) => {
            let mut c = a;
            c.union(&b);
            c
        },
    }
}

impl Page {
    /// Which decorations hold a sajdah line stroke.
    pub fn sajdah_line_decos(&self) -> (v: Vec<bool>)
        requires
            self.wf(),
        ensures
            v@.len() == self.data.decorations@.len(),
            forall|di: int|
                0 <= di < v@.len() ==> #[trigger] v@[di] == has_stroke(
                    self.data.paths@,
                    self.data.decorations@[di].first_path as int,
                    self.data.decorations@[di].first_path + self.data.decorations@[di].n_paths,
                ),
    {
        let d = &self.data;
        let mut v: Vec<bool> = Vec::new();
        let mut di: usize = 0;
        while di < d.decorations.len()
            invariant
                d == &self.data,
                self.wf(),
                di <= d.decorations@.len(),
                v@.len() == di,
                forall|j: int|
                    0 <= j < di ==> #[trigger] v@[j] == has_stroke(
                        d.paths@,
                        d.decorations@[j].first_path as int,
                        d.decorations@[j].first_path + d.decorations@[j].n_paths,
                    ),
            decreases d.decorations@.len() - di,
        {
            let dc = d.decorations[di];
            assert(d.deco_ok(d.decorations@[di as int]));
            let end: u32 = dc.first_path + dc.n_paths as u32;
            let mut pi: u32 = dc.first_path;
            let mut found = false;
            while pi < end
                invariant
                    d.wf(),
                    dc.first_path <= pi <= end,
                    end == dc.first_path + dc.n_paths,
                    end <= d.paths@.len(),
                    found == has_stroke(d.paths@, dc.first_path as int, pi as int),
                decreases end - pi,
            {
                if d.paths[pi as usize].mark == MARK_SAJDAH_LINE {
                    assert(is_stroke(d.paths@[pi as int]));
                    found = true;
                }
                pi += 1;
            }
            v.push(found);
            di += 1;
        }
        v
    }

    /// Which paths are sajdah line strokes.
    pub fn sajdah_line_paths(&self) -> (v: Vec<bool>)
        ensures
            v@ == self.data.paths@.map_values(|p: PathRec| is_stroke(p)),
    {
        let ps = &self.data.paths;
        let mut v: Vec<bool> = Vec::new();
        let mut i: usize = 0;
        while i < ps.len()
            invariant
                i <= ps@.len(),
                v@ == ps@.take(i as int).map_values(|p: PathRec| is_stroke(p)),
            decreases ps@.len() - i,
        {
            v.push(ps[i].mark == MARK_SAJDAH_LINE);
            i += 1;
            assert(ps@.take(i as int).map_values(|p: PathRec| is_stroke(p)) =~= ps@.take(i - 1).map_values(
                |p: PathRec| is_stroke(p),
            ).push(is_stroke(ps@[i - 1])));
        }
        assert(ps@.take(i as int) =~= ps@);
        v
    }

    /// The paths of a decoration other than its sajdah line strokes: the sign in the margin and
    /// anything else drawn with it.
    pub fn deco_other_paths(&self, di: usize) -> (v: Vec<u32>)
        requires
            self.wf(),
            di < self.data.decorations@.len(),
        ensures
            v@ == non_strokes(
                self.data.paths@,
                self.data.decorations@[di as int].first_path as int,
                self.data.decorations@[di as int].first_path + self.data.decorations@[di as int].n_paths,
            ),
    {
        let d = &self.data;
        let dc = d.decorations[di];
        assert(d.deco_ok(d.decorations@[di as int]));
        let end: u32 = dc.first_path + dc.n_paths as u32;
        let mut pi: u32 = dc.first_path;
        let mut v: Vec<u32> = Vec::new();
        while pi < end
            invariant
                dc.first_path <= pi <= end,
                end == dc.first_path + dc.n_paths,
                end <= d.paths@.len(),
                v@ == non_strokes(d.paths@, dc.first_path as int, pi as int),
            decreases end - pi,
        {
            if d.paths[pi as usize].mark != MARK_SAJDAH_LINE {
                v.push(pi);
            }
            pi += 1;
        }
        v
    }

    /// The box of a decoration's ink apart from its sajdah line, or the decoration's own box when
    /// it has nothing else.
    pub fn deco_mark_bbox(&self, di: usize) -> (b: IBox)
        requires
            self.wf(),
            di < self.data.decorations@.len(),
        ensures
            b == match boxes_of(
                self.data.paths@,
                non_strokes(
                    self.data.paths@,
                    self.data.decorations@[di as int].first_path as int,
                    self.data.decorations@[di as int].first_path + self.data.decorations@[di as int].n_paths,
                ),
            ) {
                Some(x) => x,
                None => self.data.decorations@[di as int].bbox,
            },
    {
        let d = &self.data;
        let idx = self.deco_other_paths(di);
        proof {
            lemma_non_strokes_in(d.paths@, d.decorations@[di as int].first_path as int,
                d.decorations@[di as int].first_path + d.decorations@[di as int].n_paths);
            assert(d.deco_ok(d.decorations@[di as int]));
        }
        let mut acc: Option<IBox> = None;
        let mut k: usize = 0;
        while k < idx.len()
            invariant
                d == &self.data,
                self.wf(),
                k <= idx@.len(),
                forall|j: int| 0 <= j < idx@.len() ==> #[trigger] idx@[j] < d.paths@.len(),
                acc == boxes_of(d.paths@, idx@.take(k as int)),
                acc matches Some(a) ==> a.bounded(),
            decreases idx@.len() - k,
        {
            let pi = idx[k];
            assert(idx@.take(k + 1).drop_last() =~= idx@.take(k as int));
            assert(idx@.take(k + 1).last() == pi);
            assert(d.paths@[pi as int].bbox.bounded());
            acc = Some(bounded_union(acc, d.paths[pi as usize].bbox));
            k += 1;
        }
        assert(idx@.take(k as int) =~= idx@);
        match acc {
            Some(b) => b,
            None => d.decorations[di].bbox,
        }
    }

    /// The words a sajdah line is drawn over: the ones its strokes span on the line directly
    /// below them. Empty for any other decoration.
    pub fn sajdah_line_words(&self, di: usize) -> (v: Vec<u32>)
        requires
            self.wf(),
            di < self.data.decorations@.len(),
        ensures
            v@ == sajdah_words(&self.data, di as int),
    {
        let d = &self.data;
        let dc = d.decorations[di];
        assert(d.deco_ok(d.decorations@[di as int]));
        let end: u32 = dc.first_path + dc.n_paths as u32;
        let mut pi: u32 = dc.first_path;
        let mut stroke: Option<IBox> = None;
        while pi < end
            invariant
                d == &self.data,
                self.wf(),
                dc.first_path <= pi <= end,
                end == dc.first_path + dc.n_paths,
                end <= d.paths@.len(),
                stroke == stroke_box(d.paths@, dc.first_path as int, pi as int),
                stroke matches Some(a) ==> a.bounded(),
            decreases end - pi,
        {
            let p = d.paths[pi as usize];
            if p.mark == MARK_SAJDAH_LINE {
                assert(d.paths@[pi as int].bbox.bounded());
                stroke = Some(bounded_union(stroke, p.bbox));
            }
            pi += 1;
        }
        let b = match stroke {
            None => {
                return Vec::new();
            },
            Some(b) => b,
        };
        proof {
            assert forall|i: int| 0 <= i < d.words@.len() implies (#[trigger] d.words@[i]).bbox.bounded() by {
                assert(d.word_ok(d.words@[i]));
            }
        }
        let tol: i32 = 2 * d.quant as i32;
        let li = match word_under(&d.words, b, tol) {
            None => {
                return Vec::new();
            },
            Some(u) => d.words[u].line_index,
        };
        let mut v: Vec<u32> = Vec::new();
        let mut i: usize = 0;
        while i < d.words.len()
            invariant
                d == &self.data,
                self.wf(),
                i <= d.words@.len(),
                v@ == words_over(d.words@, li, b, i as int),
            decreases d.words@.len() - i,
        {
            let w = d.words[i];
            if w.line_index == li && w.bbox.x0 < b.x1 && w.bbox.x1 > b.x0 {
                v.push(i as u32);
            }
            i += 1;
        }
        v
    }

    /// The words of a line with their left edges, left to right (by left edge, then by index).
    pub fn line_words(&self, li: usize) -> (v: Vec<(i32, u32)>)
        requires
            self.wf(),
            li < self.data.lines@.len(),
        ensures
            v@.to_multiset() == line_pairs(self.data.words@, self.data.lines@[li as int]).to_multiset(),
            forall|i: int, j: int| 0 <= i <= j < v@.len() ==> pair_le(#[trigger] v@[i], #[trigger] v@[j]),
    {
        let d = &self.data;
        let l = d.lines[li];
        assert(l.first_word + l.n_words <= d.words@.len());
        let mut v: Vec<(i32, u32)> = Vec::new();
        let mut k: u16 = 0;
        while k < l.n_words
            invariant
                d == &self.data,
                self.wf(),
                l == d.lines@[li as int],
                l.first_word + l.n_words <= d.words@.len(),
                k <= l.n_words,
                v@ == line_pairs(d.words@, l).take(k as int),
            decreases l.n_words - k,
        {
            let wi: usize = l.first_word as usize + k as usize;
            v.push((d.words[wi].bbox.x0, wi as u32));
            k += 1;
            assert(v@ =~= line_pairs(d.words@, l).take(k as int));
        }
        assert(line_pairs(d.words@, l).take(l.n_words as int) =~= line_pairs(d.words@, l));
        sort_pairs(&mut v);
        v
    }
}

/// The first word with a key among `[lo, hi)`, per `pick`.
fn pick_word(ws: &Vec<WordRec>, mode: u8, r: i64, lo: usize, hi: usize) -> (res: Option<usize>)
    requires
        lo <= hi <= ws@.len(),
        mode <= 2,
        forall|i: int| lo <= i < hi ==> (#[trigger] ws@[i]).bbox.bounded(),
        -0x1_0000_0000 <= r <= 0x1_0000_0000,
    ensures
        match res {
            Some(i) => pick(ws@, mode as int, r as int, lo as int, hi as int) == Some(i as int) && lo <= i < hi,
            None => pick(ws@, mode as int, r as int, lo as int, hi as int) is None,
        },
{
    let mut best: Option<usize> = None;
    let mut best_key: i64 = 0;
    let mut i: usize = lo;
    while i < hi
        invariant
            lo <= i <= hi <= ws@.len(),
            mode <= 2,
            forall|j: int| lo <= j < hi ==> (#[trigger] ws@[j]).bbox.bounded(),
            -0x1_0000_0000 <= r <= 0x1_0000_0000,
            match best {
                Some(b) => pick(ws@, mode as int, r as int, lo as int, i as int) == Some(b as int) && lo <= b < i
                    && key_of(mode as int, ws@[b as int], r as int) == Some(best_key as int),
                None => pick(ws@, mode as int, r as int, lo as int, i as int) is None,
            },
        decreases hi - i,
    {
        let w = ws[i];
        assert(ws@[i as int].bbox.bounded());
        let x0 = w.bbox.x0 as i64;
        let x1 = w.bbox.x1 as i64;
        let key: Option<i64> = if mode == 0 {
            if x1 <= r { Some(r - x1) } else { None }
        } else if mode == 1 {
            if x0 >= r { Some(x0 - r) } else { None }
        } else {
            let a = if x0 - r < 0 { r - x0 } else { x0 - r };
            let b = if x1 - r < 0 { r - x1 } else { x1 - r };
            Some(if a < b { a } else { b })
        };
        assert(match key {
            Some(k) => key_of(mode as int, ws@[i as int], r as int) == Some(k as int),
            None => key_of(mode as int, ws@[i as int], r as int) is None,
        });
        match key {
            None => {},
            Some(k) => match best {
                None => {
                    best = Some(i);
                    best_key = k;
                },
                Some(b) => {
                    let wb = ws[b];
                    if k < best_key || (k == best_key && (w.bbox.x0 < wb.bbox.x0 || (w.bbox.x0 == wb.bbox.x0 && i < b))) {
                        best = Some(i);
                        best_key = k;
                    }
                },
            },
        }
        i += 1;
    }
    best
}

/// Halving that rounds toward zero.
fn half_i64(v: i64) -> (h: i64)
    requires
        -0x1_0000_0000 <= v <= 0x1_0000_0000,
    ensures
        h == half(v as int),
{
    if v >= 0 { v / 2 } else { -((-v) / 2) }
}

/// The last word of the last fragment of ayah (s, a) on the page, or `NONE`.
fn last_closer_of(ays: &Vec<AyahRec>, s: u16, a: u16) -> (r: u32)
    requires
        forall|k: int| 0 <= k < ays@.len() && (#[trigger] ays@[k]).n_words > 0 ==> ays@[k].first_word + ays@[k].n_words <= u16::MAX,
    ensures
        r == last_closer(ays@, s, a, ays@.len() as int),
{
    let mut k: usize = ays.len();
    while k > 0
        invariant
            k <= ays@.len(),
            forall|j: int| 0 <= j < ays@.len() && (#[trigger] ays@[j]).n_words > 0 ==> ays@[j].first_word + ays@[j].n_words <= u16::MAX,
            forall|j: int| k <= j < ays@.len() ==> !(#[trigger] ays@[j].surah == s && ays@[j].ayah == a && ays@[j].n_words > 0),
            last_closer(ays@, s, a, ays@.len() as int) == last_closer(ays@, s, a, k as int),
        decreases k,
    {
        let x = ays[k - 1];
        if x.surah == s && x.ayah == a && x.n_words > 0 {
            return (x.first_word + x.n_words - 1) as u32;
        }
        k -= 1;
    }
    NONE
}

/// The first ayah mark that closes ayah (s, a), per `first_medallion`.
fn first_medallion_of(ds: &Vec<DecoRec>, s: u16, a: u16) -> (r: Option<usize>)
    ensures
        match r {
            Some(m) => first_medallion(ds@, s, a, ds@.len() as int) == Some(m as int) && m < ds@.len(),
            None => first_medallion(ds@, s, a, ds@.len() as int) is None,
        },
{
    let mut k: usize = 0;
    while k < ds.len()
        invariant
            k <= ds@.len(),
            first_medallion(ds@, s, a, k as int) is None,
        decreases ds@.len() - k,
    {
        if ds[k].kind == DecoKind::AyahMark && ds[k].surah == s && ds[k].ayah == a {
            proof {
                lemma_medallion_stays(ds@, s, a, k + 1, ds@.len() as int);
            }
            return Some(k);
        }
        k += 1;
    }
    None
}

proof fn lemma_medallion_stays(ds: Seq<DecoRec>, s: u16, a: u16, k: int, n: int)
    requires
        1 <= k <= n,
        first_medallion(ds, s, a, k) is Some,
    ensures
        first_medallion(ds, s, a, n) == first_medallion(ds, s, a, k),
    decreases n - k,
{
    if k < n {
        lemma_medallion_stays(ds, s, a, k, n - 1);
    }
}

impl Page {
    /// The word that follows a mark in reading order: on the line the mark was resolved to, the
    /// word ending nearest left of `slack` past the mark's left edge; with none there, the
    /// nearest word of that line. A rubu' al-hizb stands where its division starts, so it travels
    /// with the word it opens.
    pub fn word_after_path(&self, pi: u32, slack: i32) -> (r: Option<u32>)
        requires
            self.wf(),
            near_fits(&self.data, self.path_line@, pi as int, slack as int, true),
        ensures
            r == word_near(&self.data, self.path_line@, pi as int, slack as int, true),
    {
        self.word_near_path(pi, slack, true)
    }

    /// The word a mark belongs with: on the line the mark was resolved to, the word starting
    /// nearest right of `slack` short of the mark's right edge (the word before it in reading
    /// order); with none there, the nearest word of that line.
    pub fn word_before_path(&self, pi: u32, slack: i32) -> (r: Option<u32>)
        requires
            self.wf(),
            near_fits(&self.data, self.path_line@, pi as int, slack as int, false),
        ensures
            r == word_near(&self.data, self.path_line@, pi as int, slack as int, false),
    {
        self.word_near_path(pi, slack, false)
    }

    fn word_near_path(&self, pi: u32, slack: i32, after: bool) -> (r: Option<u32>)
        requires
            self.wf(),
        ensures
            r == word_near(&self.data, self.path_line@, pi as int, slack as int, after),
    {
        let d = &self.data;
        if pi as usize >= d.paths.len() {
            return None;
        }
        let li = self.path_line[pi as usize];
        if li as usize >= d.lines.len() {
            return None;
        }
        let l = d.lines[li as usize];
        assert(l.first_word + l.n_words <= d.words@.len());
        let b = d.paths[pi as usize].bbox;
        assert(d.paths@[pi as int].bbox.bounded());
        let lo = l.first_word as usize;
        let hi = lo + l.n_words as usize;
        proof {
            assert forall|i: int| lo <= i < hi implies (#[trigger] d.words@[i]).bbox.bounded() by {
                assert(d.word_ok(d.words@[i]));
            }
        }
        let r: i64 = if after { b.x0 as i64 + slack as i64 } else { b.x1 as i64 - slack as i64 };
        match pick_word(&d.words, if after { 0 } else { 1 }, r, lo, hi) {
            Some(i) => Some(i as u32),
            None => {
                let c = half_i64(b.x0 as i64 + b.x1 as i64);
                match pick_word(&d.words, 2, c, lo, hi) {
                    Some(i) => Some(i as u32),
                    None => None,
                }
            },
        }
    }

    /// The word each decoration travels with when the page is laid out again (`NONE` for one
    /// that belongs to no single word: a banner, a basmalah, a page number, a running head, a
    /// sajdah line). `slack` is how far a mark may overlap the word it follows or opens.
    pub fn deco_anchor_words(&self, slack: i32) -> (v: Vec<u32>)
        requires
            self.wf(),
            anchors_fit(&self.data, self.path_line@, slack as int),
        ensures
            v@.len() == self.data.decorations@.len(),
            forall|di: int| 0 <= di < v@.len() ==> #[trigger] v@[di] == anchor_of(&self.data, self.path_line@, slack as int, di),
    {
        let d = &self.data;
        let n = d.decorations.len();
        let ghost pl = self.path_line@;
        let mut out: Vec<u32> = Vec::new();
        let mut k: usize = 0;
        while k < n
            invariant
                k <= n,
                out@.len() == k,
                forall|j: int| 0 <= j < k ==> out@[j] == NONE,
            decreases n - k,
        {
            out.push(NONE);
            k += 1;
        }
        let mut ai: usize = 0;
        while ai < d.ayahs.len()
            invariant
                d == &self.data,
                self.wf(),
                anchors_fit(d, pl, slack as int),
                n == d.decorations@.len(),
                ai <= d.ayahs@.len(),
                out@.len() == n,
                forall|j: int| 0 <= j < n ==> #[trigger] out@[j] == named_closer(d.ayahs@, j, ai as int),
            decreases d.ayahs@.len() - ai,
        {
            let a = d.ayahs[ai];
            if a.ayah_mark_decoration != NONE_U16 && a.n_words > 0 {
                let di = a.ayah_mark_decoration as usize;
                if di < n {
                    assert(d.ayahs@[ai as int].n_words > 0);
                    out.set(di, (a.first_word + a.n_words - 1) as u32);
                }
            }
            ai += 1;
        }
        let mut di: usize = 0;
        while di < n
            invariant
                d == &self.data,
                pl == self.path_line@,
                self.wf(),
                anchors_fit(d, pl, slack as int),
                n == d.decorations@.len(),
                di <= n,
                out@.len() == n,
                forall|j: int| 0 <= j < di ==> #[trigger] out@[j] == own_anchor(d, pl, slack as int, j),
                forall|j: int| di <= j < n ==> #[trigger] out@[j] == named_closer(d.ayahs@, j, d.ayahs@.len() as int),
            decreases n - di,
        {
            if out[di] == NONE {
                let dc = d.decorations[di];
                let ghost dcv = d.decorations@[di as int];
                let w = if dc.kind == DecoKind::SajdahMark || dc.kind == DecoKind::DivisionMark {
                    let others = self.deco_other_paths(di);
                    if others.len() > 0 {
                        let after = dc.kind == DecoKind::DivisionMark;
                        assert(d.decorations@[di as int] == dcv);
                        match self.word_near_path(others[0], slack, after) {
                            Some(w) => w,
                            None => NONE,
                        }
                    } else {
                        NONE
                    }
                } else if dc.kind == DecoKind::AyahMark {
                    last_closer_of(&d.ayahs, dc.surah, dc.ayah)
                } else {
                    NONE
                };
                out.set(di, w);
            }
            di += 1;
        }
        let mut di: usize = 0;
        while di < n
            invariant
                d == &self.data,
                pl == self.path_line@,
                self.wf(),
                n == d.decorations@.len(),
                di <= n,
                out@.len() == n,
                forall|j: int| 0 <= j < di ==> #[trigger] out@[j] == anchor_of(d, pl, slack as int, j),
                forall|j: int| di <= j < n ==> #[trigger] out@[j] == own_anchor(d, pl, slack as int, j),
            decreases n - di,
        {
            let dc = d.decorations[di];
            if dc.kind == DecoKind::SajdahMark {
                match first_medallion_of(&d.decorations, dc.surah, dc.ayah) {
                    Some(m) => {
                        assert(d.decorations@[m as int].kind == DecoKind::AyahMark) by {
                            lemma_medallion_is(d.decorations@, dc.surah, dc.ayah, n as int);
                        }
                        assert(out@[m as int] == own_anchor(d, pl, slack as int, m as int));
                        if out[m] != NONE {
                            let x = out[m];
                            out.set(di, x);
                        }
                    },
                    None => {},
                }
            }
            di += 1;
        }
        out
    }
}

proof fn lemma_medallion_is(ds: Seq<DecoRec>, s: u16, a: u16, k: int)
    requires
        0 <= k <= ds.len(),
    ensures
        first_medallion(ds, s, a, k) matches Some(m) ==> 0 <= m < k && ds[m].kind == DecoKind::AyahMark,
    decreases k,
{
    if k > 0 {
        lemma_medallion_is(ds, s, a, k - 1);
    }
}

proof fn lemma_non_strokes_in(ps: Seq<PathRec>, lo: int, hi: int)
    requires
        0 <= lo,
        hi <= ps.len() < u32::MAX,
    ensures
        forall|j: int| 0 <= j < non_strokes(ps, lo, hi).len() ==> #[trigger] non_strokes(ps, lo, hi)[j] < ps.len(),
    decreases hi - lo,
{
    if hi > lo {
        lemma_non_strokes_in(ps, lo, hi - 1);
        let rest = non_strokes(ps, lo, hi - 1);
        assert forall|j: int| 0 <= j < non_strokes(ps, lo, hi).len() implies #[trigger] non_strokes(ps, lo, hi)[j] < ps.len() by {
            if j < rest.len() {
                assert(non_strokes(ps, lo, hi)[j] == rest[j]);
            }
        }
    }
}

} // verus!
