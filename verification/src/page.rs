//! A loaded page: its records, and what each path is known by once the page is built: the word
//! or decoration that owns it, the line it is laid out with, and the context the style matcher
//! reads.
use vstd::prelude::*;
use crate::model::{string_ok, AyahRec, DecoKind, DecoRec, IBox, LineRec, PageData, PathKind, PathRec, WordRec, COORD_LIMIT, MARK_SAJDAH_LINE, NONE_U16};
use crate::style::{PathCtx, StyleEngine, NONE, DEFAULT_INK};
use crate::memorize::{MaskState, MaskMode, Reveal, MASK_BLOCK_COLOR};
use crate::selection::Selection;
use crate::target::{index_of, word_index};
use std::collections::HashMap;



verus! {

/// The word that owns path `p`: the last word whose range holds it, or `NONE`.
pub open spec fn owner_word(ws: Seq<WordRec>, p: int) -> u32
    decreases ws.len(),
{
    if ws.len() == 0 {
        NONE
    } else if ws.last().first_path <= p < ws.last().first_path + ws.last().n_paths {
        (ws.len() - 1) as u32
    } else {
        owner_word(ws.drop_last(), p)
    }
}

/// The decoration that owns path `p`: the last decoration whose range holds it, or `NONE`.
pub open spec fn owner_deco(ds: Seq<DecoRec>, p: int) -> u32
    decreases ds.len(),
{
    if ds.len() == 0 {
        NONE
    } else if ds.last().first_path <= p < ds.last().first_path + ds.last().n_paths {
        (ds.len() - 1) as u32
    } else {
        owner_deco(ds.drop_last(), p)
    }
}

/// Where the run of paths with the same owner that ends at `i` starts.
pub open spec fn run_start(pw: Seq<u32>, i: int) -> int
    decreases i,
{
    if i <= 0 {
        0
    } else if pw[i - 1] != pw[i] {
        i
    } else {
        run_start(pw, i - 1)
    }
}

/// How many of the paths in `[lo, hi)` are marks.
pub open spec fn marks_in(ps: Seq<PathRec>, lo: int, hi: int) -> nat
    decreases hi - lo,
{
    if hi <= lo {
        0
    } else {
        marks_in(ps, lo, hi - 1) + if ps[hi - 1].kind == PathKind::Mark { 1nat } else { 0nat }
    }
}

/// How many of the paths in `[lo, hi)` carry mark `m`.
pub open spec fn named_in(ps: Seq<PathRec>, m: u8, lo: int, hi: int) -> nat
    decreases hi - lo,
{
    if hi <= lo {
        0
    } else {
        named_in(ps, m, lo, hi - 1) + if ps[hi - 1].mark == m { 1nat } else { 0nat }
    }
}

/// The owning word of every path.
pub open spec fn path_words(ws: Seq<WordRec>, n: nat) -> Seq<u32> {
    Seq::new(n, |p: int| owner_word(ws, p))
}

/// The owning decoration of every path.
pub open spec fn path_decos(ds: Seq<DecoRec>, n: nat) -> Seq<u32> {
    Seq::new(n, |p: int| owner_deco(ds, p))
}

/// What the style matcher knows of path `i`, given every path's word, decoration and line.
pub open spec fn ctx_of(
    ws: Seq<WordRec>,
    ls: Seq<LineRec>,
    ds: Seq<DecoRec>,
    ps: Seq<PathRec>,
    pw: Seq<u32>,
    pd: Seq<u32>,
    pl: Seq<u32>,
    i: int,
) -> PathCtx {
    let wi = pw[i];
    let di = pd[i];
    let p = ps[i];
    let rs = run_start(pw, i);
    PathCtx {
        word: wi,
        deco: di,
        line_number: if wi != NONE {
            ls[ws[wi as int].line_index as int].line_number
        } else if di != NONE {
            ls[pl[i] as int].line_number
        } else {
            0
        },
        surah: if wi != NONE {
            ws[wi as int].surah
        } else if di != NONE {
            ds[di as int].surah
        } else {
            0
        },
        ayah: if wi != NONE {
            ws[wi as int].ayah
        } else if di != NONE {
            ds[di as int].ayah
        } else {
            0
        },
        kind: p.kind,
        mark: p.mark,
        family: p.family,
        category: p.category,
        nth_in_word: if wi != NONE { (i - rs) as u16 } else { 0 },
        nth_mark: if p.kind == PathKind::Mark {
            if wi != NONE { marks_in(ps, rs, i) as u16 } else { 0 }
        } else {
            u16::MAX
        },
        nth_mark_named: named_in(ps, p.mark, rs, i) as u16,
        deco_kind: if di != NONE { ds[di as int].kind } else { DecoKind::Other },
    }
}

/// A path's mark has been seen fewer than 65536 times before it in its run: the count the
/// matcher keeps for it fits in 16 bits.
pub open spec fn named_counts_fit(ws: Seq<WordRec>, ps: Seq<PathRec>) -> bool {
    let pw = path_words(ws, ps.len());
    forall|i: int| 0 <= i < ps.len() ==> #[trigger] named_in(ps, ps[i].mark, run_start(pw, i), i) <= u16::MAX
}

proof fn lemma_owner_word(ws: Seq<WordRec>, p: int)
    requires
        ws.len() < u32::MAX,
    ensures
        owner_word(ws, p) == NONE || (owner_word(ws, p) < ws.len() && ws[owner_word(ws, p) as int].first_path
            <= p < ws[owner_word(ws, p) as int].first_path + ws[owner_word(ws, p) as int].n_paths),
    decreases ws.len(),
{
    if ws.len() > 0 {
        lemma_owner_word(ws.drop_last(), p);
    }
}

proof fn lemma_owner_deco(ds: Seq<DecoRec>, p: int)
    requires
        ds.len() < u32::MAX,
    ensures
        owner_deco(ds, p) == NONE || (owner_deco(ds, p) < ds.len() && ds[owner_deco(ds, p) as int].first_path
            <= p < ds[owner_deco(ds, p) as int].first_path + ds[owner_deco(ds, p) as int].n_paths),
    decreases ds.len(),
{
    if ds.len() > 0 {
        lemma_owner_deco(ds.drop_last(), p);
    }
}

/// The owning word of every path, the later word winning where ranges overlap.
fn compute_path_words(ws: &Vec<WordRec>, n: usize) -> (pw: Vec<u32>)
    requires
        ws@.len() < u32::MAX,
        n < u32::MAX,
        forall|i: int| 0 <= i < ws@.len() ==> (#[trigger] ws@[i]).first_path + ws@[i].n_paths <= n,
    ensures
        pw@ == path_words(ws@, n as nat),
{
    let mut pw: Vec<u32> = Vec::new();
    let mut k: usize = 0;
    while k < n
        invariant
            k <= n,
            pw@.len() == k,
            forall|j: int| 0 <= j < k ==> pw@[j] == NONE,
        decreases n - k,
    {
        pw.push(NONE);
        k += 1;
    }
    let mut wi: usize = 0;
    while wi < ws.len()
        invariant
            ws@.len() < u32::MAX,
            n < u32::MAX,
            forall|i: int| 0 <= i < ws@.len() ==> (#[trigger] ws@[i]).first_path + ws@[i].n_paths <= n,
            wi <= ws@.len(),
            pw@.len() == n,
            forall|p: int| 0 <= p < n ==> pw@[p] == owner_word(ws@.take(wi as int), p),
        decreases ws@.len() - wi,
    {
        let w = ws[wi];
        let ghost before = pw@;
        let end: u32 = w.first_path + w.n_paths as u32;
        let mut p: u32 = w.first_path;
        while p < end
            invariant
                w.first_path <= p <= end,
                end == w.first_path + w.n_paths,
                end <= n,
                pw@.len() == n,
                wi < ws@.len() < u32::MAX,
                forall|q: int| 0 <= q < n ==> pw@[q] == (if w.first_path <= q < p { wi as u32 } else { before[q] }),
            decreases end - p,
        {
            pw.set(p as usize, wi as u32);
            p += 1;
        }
        proof {
            assert(ws@.take(wi + 1).drop_last() =~= ws@.take(wi as int));
            assert(ws@.take(wi + 1).last() == w);
        }
        wi += 1;
    }
    assert(ws@.take(ws@.len() as int) =~= ws@);
    assert(pw@ =~= path_words(ws@, n as nat));
    pw
}

/// The owning decoration of every path, the later decoration winning where ranges overlap.
fn compute_path_decos(ds: &Vec<DecoRec>, n: usize) -> (pd: Vec<u32>)
    requires
        ds@.len() < u32::MAX,
        n < u32::MAX,
        forall|i: int| 0 <= i < ds@.len() ==> (#[trigger] ds@[i]).first_path + ds@[i].n_paths <= n,
    ensures
        pd@ == path_decos(ds@, n as nat),
{
    let mut pd: Vec<u32> = Vec::new();
    let mut k: usize = 0;
    while k < n
        invariant
            k <= n,
            pd@.len() == k,
            forall|j: int| 0 <= j < k ==> pd@[j] == NONE,
        decreases n - k,
    {
        pd.push(NONE);
        k += 1;
    }
    let mut di: usize = 0;
    while di < ds.len()
        invariant
            ds@.len() < u32::MAX,
            n < u32::MAX,
            forall|i: int| 0 <= i < ds@.len() ==> (#[trigger] ds@[i]).first_path + ds@[i].n_paths <= n,
            di <= ds@.len(),
            pd@.len() == n,
            forall|p: int| 0 <= p < n ==> pd@[p] == owner_deco(ds@.take(di as int), p),
        decreases ds@.len() - di,
    {
        let d = ds[di];
        let ghost before = pd@;
        let end: u32 = d.first_path + d.n_paths as u32;
        let mut p: u32 = d.first_path;
        while p < end
            invariant
                d.first_path <= p <= end,
                end == d.first_path + d.n_paths,
                end <= n,
                pd@.len() == n,
                di < ds@.len() < u32::MAX,
                forall|q: int| 0 <= q < n ==> pd@[q] == (if d.first_path <= q < p { di as u32 } else { before[q] }),
            decreases end - p,
        {
            pd.set(p as usize, di as u32);
            p += 1;
        }
        proof {
            assert(ds@.take(di + 1).drop_last() =~= ds@.take(di as int));
            assert(ds@.take(di + 1).last() == d);
        }
        di += 1;
    }
    assert(ds@.take(ds@.len() as int) =~= ds@);
    assert(pd@ =~= path_decos(ds@, n as nat));
    pd
}

/// The box of the paths of one kind in `[lo, hi)`, grown from `acc`.
pub open spec fn fold_paths(ps: Seq<PathRec>, acc: IBox, lo: int, hi: int, kind: PathKind) -> IBox
    decreases hi - lo,
{
    if hi <= lo {
        acc
    } else {
        let a = fold_paths(ps, acc, lo, hi - 1, kind);
        if ps[hi - 1].kind == kind {
            a.spec_union(ps[hi - 1].bbox)
        } else {
            a
        }
    }
}

/// The box of the letters (body paths) of the words in `[wlo, whi)`, grown from `acc`.
pub open spec fn fold_words_body(ws: Seq<WordRec>, ps: Seq<PathRec>, acc: IBox, wlo: int, whi: int) -> IBox
    decreases whi - wlo,
{
    if whi <= wlo {
        acc
    } else {
        let a = fold_words_body(ws, ps, acc, wlo, whi - 1);
        let w = ws[whi - 1];
        fold_paths(ps, a, w.first_path as int, w.first_path + w.n_paths, PathKind::Body)
    }
}

/// A surah banner or basmalah stored on line `li`.
pub open spec fn header_on(d: DecoRec, li: int) -> bool {
    d.line == li && (d.kind == DecoKind::SurahName || d.kind == DecoKind::Basmalah)
}

/// The box of the header ink of the first `k` decorations that are headers on line `li`.
pub open spec fn fold_header_ink(ds: Seq<DecoRec>, ps: Seq<PathRec>, acc: IBox, li: int, k: int) -> IBox
    decreases k,
{
    if k <= 0 {
        acc
    } else {
        let a = fold_header_ink(ds, ps, acc, li, k - 1);
        let d = ds[k - 1];
        if header_on(d, li) {
            fold_paths(ps, a, d.first_path as int, d.first_path + d.n_paths, PathKind::HeaderInk)
        } else {
            a
        }
    }
}

/// The boxes of the first `k` decorations that are headers on line `li`.
pub open spec fn fold_header_boxes(ds: Seq<DecoRec>, acc: IBox, li: int, k: int) -> IBox
    decreases k,
{
    if k <= 0 {
        acc
    } else {
        let a = fold_header_boxes(ds, acc, li, k - 1);
        if header_on(ds[k - 1], li) {
            a.spec_union(ds[k - 1].bbox)
        } else {
            a
        }
    }
}

/// The box a line's reference centre is taken from: its words' letters; for a line without
/// words, the ink of its banner or basmalah, else their boxes; else the line's own box.
pub open spec fn line_box(ls: Seq<LineRec>, ws: Seq<WordRec>, ds: Seq<DecoRec>, ps: Seq<PathRec>, li: int) -> IBox {
    let l = ls[li];
    let body = fold_words_body(ws, ps, IBox::spec_empty(), l.first_word as int, l.first_word + l.n_words);
    let hdr = if body.spec_is_empty() {
        let ink = fold_header_ink(ds, ps, body, li, ds.len() as int);
        if ink.spec_is_empty() {
            fold_header_boxes(ds, ink, li, ds.len() as int)
        } else {
            ink
        }
    } else {
        body
    };
    if hdr.spec_is_empty() {
        l.bbox
    } else {
        hdr
    }
}

/// Twice a line's reference centre height (0 for a line with nothing to measure).
pub open spec fn centre2(ls: Seq<LineRec>, ws: Seq<WordRec>, ds: Seq<DecoRec>, ps: Seq<PathRec>, li: int) -> int {
    let b = line_box(ls, ws, ds, ps, li);
    if b.spec_is_empty() {
        0
    } else {
        b.y0 + b.y1
    }
}

pub open spec fn abs(x: int) -> int {
    if x < 0 {
        -x
    } else {
        x
    }
}

/// The first of the first `k` centres nearest to `y2` (0 when there are none).
pub open spec fn nearest_in(cs: Seq<int>, y2: int, k: int) -> int
    decreases k,
{
    if k <= 1 {
        0
    } else {
        let b = nearest_in(cs, y2, k - 1);
        if abs(cs[k - 1] - y2) < abs(cs[b] - y2) {
            k - 1
        } else {
            b
        }
    }
}

/// A word printed under a box: overlapping it across, and not starting more than `tol` above it.
pub open spec fn under(w: WordRec, pb: IBox, tol: int) -> bool {
    w.bbox.x0 < pb.x1 && w.bbox.x1 > pb.x0 && w.bbox.y0 >= pb.y0 - tol
}

/// The first of the first `k` words under `pb` whose top is nearest below the box's bottom.
pub open spec fn under_in(ws: Seq<WordRec>, pb: IBox, tol: int, k: int) -> Option<int>
    decreases k,
{
    if k <= 0 {
        None
    } else {
        let b = under_in(ws, pb, tol, k - 1);
        let w = ws[k - 1];
        if under(w, pb, tol) && (b is None || w.bbox.y0 - pb.y1 < ws[b->0].bbox.y0 - pb.y1) {
            Some(k - 1)
        } else {
            b
        }
    }
}

/// A fragment that closes its ayah on this page.
pub open spec fn closes(a: AyahRec) -> bool {
    a.fragment == a.fragments && a.n_words > 0
}

/// The line of the ayah mark `di` closes, from the first `k` fragments: the line of the last word
/// of the last fragment that names it, or `NONE`.
pub open spec fn mark_line_in(ays: Seq<AyahRec>, ws: Seq<WordRec>, di: int, k: int) -> u32
    decreases k,
{
    if k <= 0 {
        NONE
    } else {
        let a = ays[k - 1];
        if closes(a) && a.ayah_mark_decoration == di {
            ws[a.first_word + a.n_words - 1].line_index as u32
        } else {
            mark_line_in(ays, ws, di, k - 1)
        }
    }
}

pub open spec fn centres(ls: Seq<LineRec>, ws: Seq<WordRec>, ds: Seq<DecoRec>, ps: Seq<PathRec>) -> Seq<int> {
    Seq::new(ls.len(), |li: int| centre2(ls, ws, ds, ps, li))
}

/// The line a path is laid out with: a word's path takes its word's line; a sajdah line takes
/// the line of the word printed under it; a decoration stored with a line keeps it; an ayah mark
/// takes the line of the ayah it closes; anything else snaps to the nearest line centre.
pub open spec fn line_of_path(
    quant: u16,
    ls: Seq<LineRec>,
    ays: Seq<AyahRec>,
    ws: Seq<WordRec>,
    ds: Seq<DecoRec>,
    ps: Seq<PathRec>,
    pw: Seq<u32>,
    pd: Seq<u32>,
    i: int,
) -> u32 {
    let wi = pw[i];
    let di = pd[i];
    if wi != NONE {
        ws[wi as int].line_index as u32
    } else if di != NONE {
        let d = ds[di as int];
        let u = under_in(ws, ps[i].bbox, 2 * quant, ws.len() as int);
        let ml = mark_line_in(ays, ws, di as int, ays.len() as int);
        if ps[i].mark == MARK_SAJDAH_LINE && u is Some {
            ws[u->0].line_index as u32
        } else if d.line != NONE_U16 && d.line < ls.len() {
            d.line as u32
        } else if ml != NONE {
            ml
        } else {
            nearest_in(centres(ls, ws, ds, ps), d.bbox.y0 + d.bbox.y1, ls.len() as int) as u32
        }
    } else {
        0
    }
}

/// Grow `acc` by the boxes of the paths of one kind in `[lo, hi)`.
fn fold_path_boxes(ps: &Vec<PathRec>, acc: IBox, lo: u32, hi: u32, kind: PathKind) -> (b: IBox)
    requires
        lo <= hi <= ps@.len(),
    ensures
        b == fold_paths(ps@, acc, lo as int, hi as int, kind),
{
    let mut b = acc;
    let mut p = lo;
    while p < hi
        invariant
            lo <= p <= hi <= ps@.len(),
            b == fold_paths(ps@, acc, lo as int, p as int, kind),
        decreases hi - p,
    {
        let r = ps[p as usize];
        if r.kind == kind {
            b.union(&r.bbox);
        }
        p += 1;
    }
    b
}

/// Twice the reference centre height of line `li`.
fn line_centre2(d: &PageData, li: usize) -> (c: i64)
    requires
        d.wf(),
        li < d.lines@.len(),
    ensures
        c == centre2(d.lines@, d.words@, d.decorations@, d.paths@, li as int),
{
    let l = d.lines[li];
    let ghost (ls, ws, ds, ps) = (d.lines@, d.words@, d.decorations@, d.paths@);
    let end: u32 = l.first_word as u32 + l.n_words as u32;
    let mut bb = IBox::empty();
    let mut wi: u32 = l.first_word as u32;
    assert(d.lines@[li as int] == l);
    while wi < end
        invariant
            d.wf(),
            l.first_word <= wi <= end,
            end == l.first_word + l.n_words,
            end <= d.words@.len(),
            bb == fold_words_body(d.words@, d.paths@, IBox::spec_empty(), l.first_word as int, wi as int),
        decreases end - wi,
    {
        let w = d.words[wi as usize];
        assert(d.word_ok(d.words@[wi as int]));
        bb = fold_path_boxes(&d.paths, bb, w.first_path, w.first_path + w.n_paths as u32, PathKind::Body);
        wi += 1;
    }
    if bb.is_empty() {
        let mut k: usize = 0;
        let ghost start = bb;
        while k < d.decorations.len()
            invariant
                d.wf(),
                k <= d.decorations@.len(),
                bb == fold_header_ink(d.decorations@, d.paths@, start, li as int, k as int),
            decreases d.decorations@.len() - k,
        {
            let dc = d.decorations[k];
            assert(d.deco_ok(d.decorations@[k as int]));
            if dc.line as usize == li && (dc.kind == DecoKind::SurahName || dc.kind == DecoKind::Basmalah) {
                bb = fold_path_boxes(&d.paths, bb, dc.first_path, dc.first_path + dc.n_paths as u32, PathKind::HeaderInk);
            }
            k += 1;
        }
        if bb.is_empty() {
            let mut k: usize = 0;
            let ghost start2 = bb;
            while k < d.decorations.len()
                invariant
                    k <= d.decorations@.len(),
                    bb == fold_header_boxes(d.decorations@, start2, li as int, k as int),
                decreases d.decorations@.len() - k,
            {
                let dc = d.decorations[k];
                if dc.line as usize == li && (dc.kind == DecoKind::SurahName || dc.kind == DecoKind::Basmalah) {
                    bb.union(&dc.bbox);
                }
                k += 1;
            }
        }
    }
    if bb.is_empty() {
        bb = l.bbox;
    }
    if bb.is_empty() {
        0
    } else {
        bb.y0 as i64 + bb.y1 as i64
    }
}

pub open spec fn ints(v: Seq<i64>) -> Seq<int> {
    v.map_values(|c: i64| c as int)
}

/// Twice every line's reference centre height.
fn line_centres(d: &PageData) -> (cs: Vec<i64>)
    requires
        d.wf(),
    ensures
        ints(cs@) == centres(d.lines@, d.words@, d.decorations@, d.paths@),
        forall|i: int| 0 <= i < cs@.len() ==> -0x8000_0000 <= #[trigger] cs@[i] <= 0x8000_0000,
{
    let mut cs: Vec<i64> = Vec::new();
    let mut li: usize = 0;
    while li < d.lines.len()
        invariant
            d.wf(),
            li <= d.lines@.len(),
            cs@.len() == li,
            forall|i: int| 0 <= i < li ==> #[trigger] cs@[i] == centre2(d.lines@, d.words@, d.decorations@, d.paths@, i),
            forall|i: int| 0 <= i < cs@.len() ==> -0x8000_0000 <= #[trigger] cs@[i] <= 0x8000_0000,
        decreases d.lines@.len() - li,
    {
        let c = line_centre2(d, li);
        proof {
            lemma_line_box_bounded(d, li as int);
        }
        cs.push(c);
        li += 1;
    }
    assert(ints(cs@) =~= centres(d.lines@, d.words@, d.decorations@, d.paths@));
    cs
}

/// The nearest of the line centres to `y2`, the first on a tie.
fn nearest_line(cs: &Vec<i64>, y2: i64) -> (r: usize)
    requires
        forall|i: int| 0 <= i < cs@.len() ==> -0x8000_0000 <= #[trigger] cs@[i] <= 0x8000_0000,
        -0x8000_0000 <= y2 <= 0x8000_0000,
    ensures
        r == nearest_in(ints(cs@), y2 as int, cs@.len() as int),
        cs@.len() == 0 || r < cs@.len(),
{
    if cs.len() == 0 {
        return 0;
    }
    let mut best: usize = 0;
    let mut k: usize = 1;
    while k < cs.len()
        invariant
            1 <= k <= cs@.len(),
            best < k,
            best == nearest_in(ints(cs@), y2 as int, k as int),
            forall|i: int| 0 <= i < cs@.len() ==> -0x8000_0000 <= #[trigger] cs@[i] <= 0x8000_0000,
            -0x8000_0000 <= y2 <= 0x8000_0000,
        decreases cs@.len() - k,
    {
        let a = cs[k] - y2;
        let a = if a < 0 { -a } else { a };
        let b = cs[best] - y2;
        let b = if b < 0 { -b } else { b };
        if a < b {
            best = k;
        }
        k += 1;
    }
    best
}

/// Every coordinate within the limit, or still at the empty box's extreme.
spec fn loose(b: IBox) -> bool {
    &&& (-COORD_LIMIT <= b.x0 <= COORD_LIMIT || b.x0 == i32::MAX)
    &&& (-COORD_LIMIT <= b.y0 <= COORD_LIMIT || b.y0 == i32::MAX)
    &&& (-COORD_LIMIT <= b.x1 <= COORD_LIMIT || b.x1 == i32::MIN)
    &&& (-COORD_LIMIT <= b.y1 <= COORD_LIMIT || b.y1 == i32::MIN)
}

proof fn lemma_fold_paths_loose(ps: Seq<PathRec>, acc: IBox, lo: int, hi: int, kind: PathKind)
    requires
        loose(acc),
        0 <= lo,
        hi <= ps.len(),
        forall|i: int| 0 <= i < ps.len() ==> (#[trigger] ps[i]).bbox.bounded(),
    ensures
        loose(fold_paths(ps, acc, lo, hi, kind)),
    decreases hi - lo,
{
    if hi > lo {
        lemma_fold_paths_loose(ps, acc, lo, hi - 1, kind);
    }
}

proof fn lemma_fold_words_loose(d: &PageData, acc: IBox, wlo: int, whi: int)
    requires
        d.wf(),
        loose(acc),
        0 <= wlo,
        whi <= d.words@.len(),
    ensures
        loose(fold_words_body(d.words@, d.paths@, acc, wlo, whi)),
    decreases whi - wlo,
{
    if whi > wlo {
        lemma_fold_words_loose(d, acc, wlo, whi - 1);
        let w = d.words@[whi - 1];
        assert(d.word_ok(w));
        lemma_fold_paths_loose(
            d.paths@,
            fold_words_body(d.words@, d.paths@, acc, wlo, whi - 1),
            w.first_path as int,
            w.first_path + w.n_paths,
            PathKind::Body,
        );
    }
}

proof fn lemma_fold_headers_loose(d: &PageData, acc: IBox, li: int, k: int)
    requires
        d.wf(),
        loose(acc),
        k <= d.decorations@.len(),
    ensures
        loose(fold_header_ink(d.decorations@, d.paths@, acc, li, k)),
        loose(fold_header_boxes(d.decorations@, acc, li, k)),
    decreases k,
{
    if k > 0 {
        lemma_fold_headers_loose(d, acc, li, k - 1);
        let dc = d.decorations@[k - 1];
        assert(d.deco_ok(dc));
        if header_on(dc, li) {
            lemma_fold_paths_loose(
                d.paths@,
                fold_header_ink(d.decorations@, d.paths@, acc, li, k - 1),
                dc.first_path as int,
                dc.first_path + dc.n_paths,
                PathKind::HeaderInk,
            );
        }
    }
}

/// A line's reference box, where it holds anything, lies within the coordinate limit.
proof fn lemma_line_box_bounded(d: &PageData, li: int)
    requires
        d.wf(),
        0 <= li < d.lines@.len(),
    ensures
        -0x8000_0000 <= centre2(d.lines@, d.words@, d.decorations@, d.paths@, li) <= 0x8000_0000,
{
    let l = d.lines@[li];
    lemma_fold_words_loose(d, IBox::spec_empty(), l.first_word as int, l.first_word + l.n_words);
    let body = fold_words_body(d.words@, d.paths@, IBox::spec_empty(), l.first_word as int, l.first_word + l.n_words);
    lemma_fold_headers_loose(d, body, li, d.decorations@.len() as int);
    let ink = fold_header_ink(d.decorations@, d.paths@, body, li, d.decorations@.len() as int);
    lemma_fold_headers_loose(d, ink, li, d.decorations@.len() as int);
}

/// The word printed under a box, per `under_in`.
pub(crate) fn word_under(ws: &Vec<WordRec>, pb: IBox, tol: i32) -> (r: Option<usize>)
    requires
        forall|i: int| 0 <= i < ws@.len() ==> (#[trigger] ws@[i]).bbox.bounded(),
        pb.bounded(),
        0 <= tol <= 0x20000,
    ensures
        match r {
            Some(k) => under_in(ws@, pb, tol as int, ws@.len() as int) == Some(k as int) && k < ws@.len(),
            None => under_in(ws@, pb, tol as int, ws@.len() as int) is None,
        },
{
    let mut best: Option<usize> = None;
    let mut k: usize = 0;
    while k < ws.len()
        invariant
            forall|i: int| 0 <= i < ws@.len() ==> (#[trigger] ws@[i]).bbox.bounded(),
            pb.bounded(),
            0 <= tol <= 0x20000,
            k <= ws@.len(),
            match best {
                Some(b) => under_in(ws@, pb, tol as int, k as int) == Some(b as int) && b < k,
                None => under_in(ws@, pb, tol as int, k as int) is None,
            },
        decreases ws@.len() - k,
    {
        let w = ws[k];
        assert(ws@[k as int].bbox.bounded());
        if w.bbox.x0 < pb.x1 && w.bbox.x1 > pb.x0 && w.bbox.y0 >= pb.y0 - tol {
            let better = match best {
                None => true,
                Some(b) => {
                    assert(ws@[b as int].bbox.bounded());
                    w.bbox.y0 - pb.y1 < ws[b].bbox.y0 - pb.y1
                },
            };
            if better {
                best = Some(k);
            }
        }
        k += 1;
    }
    best
}

/// For every decoration, the line of the ayah whose closing mark it is, or `NONE`.
fn mark_lines(d: &PageData) -> (v: Vec<u32>)
    requires
        d.wf(),
    ensures
        v@.len() == d.decorations@.len(),
        forall|di: int|
            0 <= di < v@.len() ==> #[trigger] v@[di] == mark_line_in(d.ayahs@, d.words@, di, d.ayahs@.len() as int),
{
    let mut v: Vec<u32> = Vec::new();
    let mut k: usize = 0;
    while k < d.decorations.len()
        invariant
            k <= d.decorations@.len(),
            v@.len() == k,
            forall|j: int| 0 <= j < k ==> v@[j] == NONE,
        decreases d.decorations@.len() - k,
    {
        v.push(NONE);
        k += 1;
    }
    let mut ai: usize = 0;
    while ai < d.ayahs.len()
        invariant
            d.wf(),
            ai <= d.ayahs@.len(),
            v@.len() == d.decorations@.len(),
            forall|di: int|
                0 <= di < v@.len() ==> #[trigger] v@[di] == mark_line_in(d.ayahs@, d.words@, di, ai as int),
        decreases d.ayahs@.len() - ai,
    {
        let a = d.ayahs[ai];
        assert(d.ayahs@[ai as int] == a);
        if a.fragment == a.fragments && a.n_words > 0 {
            let di = a.ayah_mark_decoration as usize;
            if di < d.decorations.len() {
                let wi = a.first_word as usize + a.n_words as usize - 1;
                let line = d.words[wi].line_index as u32;
                v.set(di, line);
            }
        }
        ai += 1;
    }
    v
}

/// The line path `i` is laid out with, from the owners, the line centres and the mark lines.
fn path_line(d: &PageData, pw: &Vec<u32>, pd: &Vec<u32>, cs: &Vec<i64>, ml: &Vec<u32>, tol: i32, i: usize) -> (line: u32)
    requires
        d.wf(),
        i < d.paths@.len(),
        pw@ == path_words(d.words@, d.paths@.len()),
        pd@ == path_decos(d.decorations@, d.paths@.len()),
        ints(cs@) == centres(d.lines@, d.words@, d.decorations@, d.paths@),
        forall|j: int| 0 <= j < cs@.len() ==> -0x8000_0000 <= #[trigger] cs@[j] <= 0x8000_0000,
        ml@.len() == d.decorations@.len(),
        forall|di: int|
            0 <= di < ml@.len() ==> #[trigger] ml@[di] == mark_line_in(d.ayahs@, d.words@, di, d.ayahs@.len() as int),
        tol == 2 * d.quant,
    ensures
        line == line_of_path(d.quant, d.lines@, d.ayahs@, d.words@, d.decorations@, d.paths@, pw@, pd@, i as int),
        (pw@[i as int] != NONE || pd@[i as int] != NONE) ==> line < d.lines@.len() || d.lines@.len() == 0,
{
        let wi = pw[i];
        let di = pd[i];
        proof {
            lemma_owner_word(d.words@, i as int);
            lemma_owner_deco(d.decorations@, i as int);
        }
        if wi != NONE {
            assert(d.word_ok(d.words@[wi as int]));
            d.words[wi as usize].line_index as u32
        } else if di != NONE {
            let dc = d.decorations[di as usize];
            let p = d.paths[i];
            assert(d.paths@[i as int].bbox.bounded());
            assert(d.deco_ok(d.decorations@[di as int]));
            let u = if p.mark == MARK_SAJDAH_LINE {
                word_under(&d.words, p.bbox, tol)
            } else {
                None
            };
            if p.mark == MARK_SAJDAH_LINE && u.is_some() {
                let k = u.unwrap();
                assert(d.word_ok(d.words@[k as int]));
                d.words[k].line_index as u32
            } else if dc.line != NONE_U16 && (dc.line as usize) < d.lines.len() {
                dc.line as u32
            } else if ml[di as usize] != NONE {
                proof {
                    lemma_mark_line(d, di as int, d.ayahs@.len() as int);
                }
                ml[di as usize]
            } else {
                assert(ints(cs@).len() == cs@.len());
                assert(cs@.len() == d.lines@.len());
                let n = nearest_line(cs, dc.bbox.y0 as i64 + dc.bbox.y1 as i64);
                n as u32
            }
        } else {
            0
        }
}

/// The line every path is laid out with.
fn path_lines(d: &PageData, pw: &Vec<u32>, pd: &Vec<u32>) -> (pl: Vec<u32>)
    requires
        d.wf(),
        pw@ == path_words(d.words@, d.paths@.len()),
        pd@ == path_decos(d.decorations@, d.paths@.len()),
    ensures
        pl@.len() == d.paths@.len(),
        forall|i: int|
            0 <= i < pl@.len() ==> #[trigger] pl@[i] == line_of_path(
                d.quant,
                d.lines@,
                d.ayahs@,
                d.words@,
                d.decorations@,
                d.paths@,
                pw@,
                pd@,
                i,
            ),
        forall|i: int| 0 <= i < pl@.len() && (pw@[i] != NONE || pd@[i] != NONE) ==> #[trigger] pl@[i] < d.lines@.len()
            || d.lines@.len() == 0,
{
    let cs = line_centres(d);
    let ml = mark_lines(d);
    let tol: i32 = 2 * d.quant as i32;
    let mut pl: Vec<u32> = Vec::new();
    let mut i: usize = 0;
    while i < d.paths.len()
        invariant
            d.wf(),
            pw@ == path_words(d.words@, d.paths@.len()),
            pd@ == path_decos(d.decorations@, d.paths@.len()),
            ints(cs@) == centres(d.lines@, d.words@, d.decorations@, d.paths@),
            forall|j: int| 0 <= j < cs@.len() ==> -0x8000_0000 <= #[trigger] cs@[j] <= 0x8000_0000,
            ml@.len() == d.decorations@.len(),
            forall|di: int|
                0 <= di < ml@.len() ==> #[trigger] ml@[di] == mark_line_in(d.ayahs@, d.words@, di, d.ayahs@.len() as int),
            tol == 2 * d.quant,
            i <= d.paths@.len(),
            pl@.len() == i,
            forall|j: int|
                0 <= j < i ==> #[trigger] pl@[j] == line_of_path(
                    d.quant,
                    d.lines@,
                    d.ayahs@,
                    d.words@,
                    d.decorations@,
                    d.paths@,
                    pw@,
                    pd@,
                    j,
                ),
            forall|j: int| 0 <= j < i && (pw@[j] != NONE || pd@[j] != NONE) ==> #[trigger] pl@[j] < d.lines@.len()
                || d.lines@.len() == 0,
        decreases d.paths@.len() - i,
    {
        let line = path_line(d, pw, pd, &cs, &ml, tol, i);
        pl.push(line);
        i += 1;
    }
    pl
}

/// The line an ayah mark takes is a line of the page.
proof fn lemma_mark_line(d: &PageData, di: int, k: int)
    requires
        d.wf(),
        0 <= k <= d.ayahs@.len(),
    ensures
        mark_line_in(d.ayahs@, d.words@, di, k) == NONE || mark_line_in(d.ayahs@, d.words@, di, k)
            < d.lines@.len(),
    decreases k,
{
    if k > 0 {
        lemma_mark_line(d, di, k - 1);
        let a = d.ayahs@[k - 1];
        if closes(a) && a.ayah_mark_decoration == di {
            assert(d.word_ok(d.words@[a.first_word + a.n_words - 1]));
        }
    }
}

proof fn lemma_run(pw: Seq<u32>, i: int)
    requires
        0 <= i < pw.len(),
    ensures
        0 <= run_start(pw, i) <= i,
        forall|j: int| run_start(pw, i) <= j <= i ==> pw[j] == pw[i],
    decreases i,
{
    if i > 0 && pw[i - 1] == pw[i] {
        lemma_run(pw, i - 1);
    }
}

proof fn lemma_marks_bound(ps: Seq<PathRec>, lo: int, hi: int)
    requires
        lo <= hi,
    ensures
        marks_in(ps, lo, hi) <= hi - lo,
    decreases hi - lo,
{
    if hi > lo {
        lemma_marks_bound(ps, lo, hi - 1);
    }
}

proof fn lemma_named_bound(ps: Seq<PathRec>, m: u8, lo: int, hi: int)
    requires
        lo <= hi,
    ensures
        named_in(ps, m, lo, hi) <= hi - lo,
    decreases hi - lo,
{
    if hi > lo {
        lemma_named_bound(ps, m, lo, hi - 1);
    }
}

/// A page can be built: a path owned by a decoration has a line to take, and no mark repeats
/// 65536 times or more within one run of paths.
pub open spec fn buildable(d: &PageData) -> bool {
    &&& d.wf()
    &&& (d.lines@.len() > 0 || forall|p: int| 0 <= p < d.paths@.len() ==> #[trigger] owner_deco(d.decorations@, p) == NONE)
    &&& named_counts_fit(d.words@, d.paths@)
}

fn string_index_ok(i: u16, n: usize) -> (r: bool)
    ensures
        r == string_ok(i, n as nat),
{
    i == NONE_U16 || (i as usize) < n
}

/// Whether every record of the page is well-formed, one record at a time.
pub fn records_wf(d: &PageData) -> (r: bool)
    ensures
        r == d.wf(),
{
    let np = d.paths.len();
    let nw = d.words.len();
    let nl = d.lines.len();
    let ns = d.strings.len();
    if !(np < 0xffff_ffff && nw < 0xffff_ffff && d.decorations.len() < 0xffff_ffff && nl < 0xffff_ffff
        && d.ayahs.len() < 0xffff_ffff && ns <= 0xffff && d.word_strings.len() == nw) {
        return false;
    }
    let mut i: usize = 0;
    while i < nw
        invariant
            nw == d.words@.len(),
            np == d.paths@.len(),
            nl == d.lines@.len(),
            i <= nw,
            forall|j: int| 0 <= j < i ==> d.word_ok(#[trigger] d.words@[j]),
        decreases nw - i,
    {
        let w = d.words[i];
        if !((w.first_path as u64 + w.n_paths as u64) <= np as u64 && (w.line_index as usize) < nl
            && w.bbox.is_bounded()) {
            assert(!d.word_ok(d.words@[i as int]));
            return false;
        }
        i += 1;
    }
    let mut i: usize = 0;
    while i < nw
        invariant
            nw == d.words@.len(),
            nw == d.word_strings@.len(),
            ns == d.strings@.len(),
            i <= nw,
            forall|j: int| 0 <= j < i ==> d.strings_ok(#[trigger] d.word_strings@[j]),
        decreases nw - i,
    {
        let t = d.word_strings[i];
        if !(string_index_ok(t.text, ns) && string_index_ok(t.rasm_imlai, ns) && string_index_ok(t.qpc, ns)
            && string_index_ok(t.rasm, ns) && string_index_ok(t.search, ns)) {
            assert(!d.strings_ok(d.word_strings@[i as int]));
            return false;
        }
        i += 1;
    }
    let nd = d.decorations.len();
    let mut i: usize = 0;
    while i < nd
        invariant
            nd == d.decorations@.len(),
            np == d.paths@.len(),
            ns == d.strings@.len(),
            i <= nd,
            forall|j: int| 0 <= j < i ==> d.deco_ok(#[trigger] d.decorations@[j]),
        decreases nd - i,
    {
        let c = d.decorations[i];
        if !((c.first_path as u64 + c.n_paths as u64) <= np as u64 && string_index_ok(c.text, ns)
            && c.bbox.is_bounded()) {
            assert(!d.deco_ok(d.decorations@[i as int]));
            return false;
        }
        i += 1;
    }
    let mut i: usize = 0;
    while i < nl
        invariant
            nl == d.lines@.len(),
            nw == d.words@.len(),
            i <= nl,
            forall|j: int|
                0 <= j < i ==> (#[trigger] d.lines@[j]).first_word + d.lines@[j].n_words <= nw
                    && d.lines@[j].bbox.bounded(),
        decreases nl - i,
    {
        let l = d.lines[i];
        if !((l.first_word as u64 + l.n_words as u64) <= nw as u64 && l.bbox.is_bounded()) {
            assert(d.lines@[i as int] == l);
            return false;
        }
        i += 1;
    }
    let na = d.ayahs.len();
    let mut i: usize = 0;
    while i < na
        invariant
            na == d.ayahs@.len(),
            nw == d.words@.len(),
            i <= na,
            forall|j: int| 0 <= j < i ==> (#[trigger] d.ayahs@[j]).first_word + d.ayahs@[j].n_words <= nw,
        decreases na - i,
    {
        let a = d.ayahs[i];
        if !((a.first_word as u64 + a.n_words as u64) <= nw as u64) {
            assert(d.ayahs@[i as int] == a);
            return false;
        }
        i += 1;
    }
    let mut i: usize = 0;
    while i < np
        invariant
            np == d.paths@.len(),
            i <= np,
            forall|j: int| 0 <= j < i ==> (#[trigger] d.paths@[j]).bbox.bounded(),
        decreases np - i,
    {
        if !d.paths[i].bbox.is_bounded() {
            return false;
        }
        i += 1;
    }
    true
}

/// Whether no mark repeats 65536 times or more within one run of paths.
fn named_counts_ok(d: &PageData, pw: &Vec<u32>) -> (r: bool)
    requires
        d.wf(),
        pw@ == path_words(d.words@, d.paths@.len()),
    ensures
        r == named_counts_fit(d.words@, d.paths@),
{
    let n = d.paths.len();
    let mut named: Vec<u32> = Vec::new();
    let mut k: usize = 0;
    while k < 256
        invariant
            k <= 256,
            named@.len() == k,
            forall|m: int| 0 <= m < k ==> named@[m] == 0,
        decreases 256 - k,
    {
        named.push(0);
        k += 1;
    }
    let mut cur_word: u32 = NONE;
    let ghost mut rs: int = 0;
    let mut i: usize = 0;
    while i < n
        invariant
            n == d.paths@.len(),
            pw@ == path_words(d.words@, d.paths@.len()),
            i <= n,
            named@.len() == 256,
            i == 0 ==> cur_word == NONE && rs == 0,
            i > 0 ==> cur_word == pw@[i - 1] && rs == run_start(pw@, i - 1),
            0 <= rs <= i,
            forall|m: int| 0 <= m < 256 ==> #[trigger] named@[m] == named_in(d.paths@, m as u8, rs, i as int),
            forall|j: int|
                0 <= j < i ==> #[trigger] named_in(d.paths@, d.paths@[j].mark, run_start(pw@, j), j) <= u16::MAX,
        decreases n - i,
    {
        let wi = pw[i];
        let p = d.paths[i];
        if wi != cur_word {
            cur_word = wi;
            let mut m: usize = 0;
            while m < 256
                invariant
                    m <= 256,
                    named@.len() == 256,
                    forall|q: int| 0 <= q < m ==> named@[q] == 0,
                decreases 256 - m,
            {
                named.set(m, 0);
                m += 1;
            }
            proof {
                rs = i as int;
                assert forall|q: int| 0 <= q < 256 implies #[trigger] named@[q] == named_in(d.paths@, q as u8, rs, i as int) by {}
            }
        }
        assert(rs == run_start(pw@, i as int));
        let nm = named[p.mark as usize];
        assert(named@[p.mark as int] == named_in(d.paths@, p.mark, rs, i as int));
        if nm > 0xffff {
            assert(!(named_in(d.paths@, d.paths@[i as int].mark, run_start(pw@, i as int), i as int) <= u16::MAX));
            return false;
        }
        named.set(p.mark as usize, nm + 1);
        proof {
            assert forall|q: int| 0 <= q < 256 implies #[trigger] named@[q] == named_in(d.paths@, q as u8, rs, i + 1) by {
                if q == p.mark as int {
                } else {
                    assert((q as u8) != p.mark);
                }
            }
        }
        i += 1;
    }
    true
}

/// The matcher's context for every path.
fn compute_ctx(d: &PageData, pw: &Vec<u32>, pd: &Vec<u32>, pl: &Vec<u32>) -> (out: Vec<PathCtx>)
    requires
        buildable(d),
        pw@ == path_words(d.words@, d.paths@.len()),
        pd@ == path_decos(d.decorations@, d.paths@.len()),
        pl@.len() == d.paths@.len(),
        forall|i: int| 0 <= i < pl@.len() && (pw@[i] != NONE || pd@[i] != NONE) ==> #[trigger] pl@[i] < d.lines@.len()
            || d.lines@.len() == 0,
    ensures
        out@.len() == d.paths@.len(),
        forall|i: int|
            0 <= i < out@.len() ==> #[trigger] out@[i] == ctx_of(
                d.words@,
                d.lines@,
                d.decorations@,
                d.paths@,
                pw@,
                pd@,
                pl@,
                i,
            ),
{
    let n = d.paths.len();
    let mut out: Vec<PathCtx> = Vec::new();
    let mut named: Vec<u32> = Vec::new();
    let mut k: usize = 0;
    while k < 256
        invariant
            k <= 256,
            named@.len() == k,
            forall|m: int| 0 <= m < k ==> named@[m] == 0,
        decreases 256 - k,
    {
        named.push(0);
        k += 1;
    }
    let mut cur_word: u32 = NONE;
    let mut nth_in_word: u16 = 0;
    let mut nth_mark: u16 = 0;
    let ghost mut rs: int = 0;
    let mut i: usize = 0;
    while i < n
        invariant
            buildable(d),
            n == d.paths@.len(),
            pw@ == path_words(d.words@, d.paths@.len()),
            pd@ == path_decos(d.decorations@, d.paths@.len()),
            pl@.len() == d.paths@.len(),
            forall|j: int| 0 <= j < pl@.len() && (pw@[j] != NONE || pd@[j] != NONE) ==> #[trigger] pl@[j]
                < d.lines@.len() || d.lines@.len() == 0,
            i <= n,
            named@.len() == 256,
            i == 0 ==> cur_word == NONE && rs == 0,
            i > 0 ==> cur_word == pw@[i - 1] && rs == run_start(pw@, i - 1),
            0 <= rs <= i,
            nth_in_word == (if cur_word != NONE { i - rs } else { 0 }),
            nth_mark == (if cur_word != NONE { marks_in(d.paths@, rs, i as int) } else { 0 }),
            forall|m: int| 0 <= m < 256 ==> #[trigger] named@[m] == named_in(d.paths@, m as u8, rs, i as int),
            out@.len() == i,
            forall|j: int|
                0 <= j < i ==> #[trigger] out@[j] == ctx_of(
                    d.words@,
                    d.lines@,
                    d.decorations@,
                    d.paths@,
                    pw@,
                    pd@,
                    pl@,
                    j,
                ),
        decreases n - i,
    {
        let wi = pw[i];
        let di = pd[i];
        let p = d.paths[i];
        proof {
            lemma_owner_word(d.words@, i as int);
            lemma_owner_deco(d.decorations@, i as int);
            lemma_run(pw@, i as int);
        }
        if wi != cur_word {
            cur_word = wi;
            nth_in_word = 0;
            nth_mark = 0;
            let mut m: usize = 0;
            while m < 256
                invariant
                    m <= 256,
                    named@.len() == 256,
                    forall|q: int| 0 <= q < m ==> named@[q] == 0,
                decreases 256 - m,
            {
                named.set(m, 0);
                m += 1;
            }
            proof {
                rs = i as int;
                assert forall|q: int| 0 <= q < 256 implies #[trigger] named@[q] == named_in(d.paths@, q as u8, rs, i as int) by {}
            }
        }
        assert(rs == run_start(pw@, i as int));
        let (surah, ayah, line_number) = if wi != NONE {
            let w = d.words[wi as usize];
            assert(d.word_ok(d.words@[wi as int]));
            (w.surah, w.ayah, d.lines[w.line_index as usize].line_number)
        } else if di != NONE {
            let dc = d.decorations[di as usize];
            assert(d.lines@.len() > 0);
            (dc.surah, dc.ayah, d.lines[pl[i] as usize].line_number)
        } else {
            (0, 0, 0)
        };
        let nm = named[p.mark as usize];
        proof {
            assert(named@[p.mark as int] == named_in(d.paths@, p.mark, rs, i as int));
            assert(named_in(d.paths@, d.paths@[i as int].mark, run_start(pw@, i as int), i as int) <= u16::MAX);
            lemma_named_bound(d.paths@, p.mark, rs, i as int);
            lemma_marks_bound(d.paths@, rs, i as int);
        }
        let ctx = PathCtx {
            word: wi,
            deco: di,
            line_number,
            surah,
            ayah,
            kind: p.kind,
            mark: p.mark,
            family: p.family,
            category: p.category,
            nth_in_word,
            nth_mark: if p.kind == PathKind::Mark { nth_mark } else { u16::MAX },
            nth_mark_named: nm as u16,
            deco_kind: if di != NONE { d.decorations[di as usize].kind } else { DecoKind::Other },
        };
        out.push(ctx);
        named.set(p.mark as usize, nm + 1);
        if wi != NONE {
            proof {
                let w = d.words@[wi as int];
                assert(pw@[rs] == wi);
                assert(pw@[rs] == owner_word(d.words@, rs));
                lemma_owner_word(d.words@, rs);
                assert(w.first_path <= rs);
                assert(i < w.first_path + w.n_paths);
            }
            nth_in_word += 1;
            if p.kind == PathKind::Mark {
                nth_mark += 1;
            }
        }
        proof {
            assert forall|q: int| 0 <= q < 256 implies #[trigger] named@[q] == named_in(d.paths@, q as u8, rs, i + 1) by {
                if q == p.mark as int {
                } else {
                    assert((q as u8) != p.mark);
                }
            }
        }
        i += 1;
    }
    out
}

/// A loaded page: its records, what each path is known by, its style rules, its mask and
/// reveal, and the reader's selection.
pub struct Page {
    pub data: PageData,
    pub path_word: Vec<u32>,
    pub path_deco: Vec<u32>,
    pub path_line: Vec<u32>,
    pub path_ctx: Vec<PathCtx>,
    /// every word's (surah, ayah, word) key to its index, the last word for a repeated key
    pub word_index: HashMap<u64, u32>,
    pub styles: StyleEngine,
    pub mask: MaskState,
    pub reveal: Option<Reveal>,
    pub selection: Selection,
    /// set when the mask or reveal changed and the colours are to be resolved again
    pub state_dirty: bool,
}

impl Reveal {
    /// One step per word, the window at least one step wide, the position within the steps.
    pub open spec fn wf(&self, n_words: nat) -> bool {
        &&& self.step_of_word@.len() == n_words
        &&& self.lit >= 1
        &&& -1 <= self.at < self.steps
    }
}

impl Page {
    /// The path tables are what the records give, and the rules, mask and reveal are consistent.
    pub open spec fn wf(&self) -> bool {
        let d = &self.data;
        let n = d.paths@.len();
        &&& d.wf()
        &&& self.path_word@ == path_words(d.words@, n)
        &&& self.path_deco@ == path_decos(d.decorations@, n)
        &&& self.path_line@.len() == n
        &&& forall|i: int|
            0 <= i < n ==> #[trigger] self.path_line@[i] == line_of_path(
                d.quant,
                d.lines@,
                d.ayahs@,
                d.words@,
                d.decorations@,
                d.paths@,
                self.path_word@,
                self.path_deco@,
                i,
            )
        &&& self.path_ctx@.len() == n
        &&& forall|i: int|
            0 <= i < n ==> #[trigger] self.path_ctx@[i] == ctx_of(
                d.words@,
                d.lines@,
                d.decorations@,
                d.paths@,
                self.path_word@,
                self.path_deco@,
                self.path_line@,
                i,
            )
        &&& self.word_index@ == index_of(d.words@)
        &&& self.styles.wf()
        &&& self.mask.wf()
        &&& forall|k: int| 0 <= k < self.mask.words@.len() ==> #[trigger] self.mask.words@[k] < d.words@.len()
        &&& self.reveal matches Some(r) ==> r.wf(d.words@.len())
    }

    pub open spec fn n_words(&self) -> nat {
        self.data.words@.len()
    }

    /// Build a page from its records: every path's owner, line and matcher context, no rules, no
    /// mask, no reveal.
    pub fn from_data(data: PageData) -> (p: Page)
        requires
            buildable(&data),
        ensures
            p.wf(),
            p.data == data,
            p.styles.rules@.len() == 0,
            p.styles.next_handle == 1,
            p.styles.default_ink == DEFAULT_INK,
            p.mask.words@.len() == 0,
            p.mask.hidden@ == Set::<u32>::empty(),
            p.mask.mode == MaskMode::Hide,
            p.mask.block_color == MASK_BLOCK_COLOR,
            p.reveal is None,
            p.selection == (Selection { anchor: None, focus: None }),
            p.state_dirty,
    {
        let n = data.paths.len();
        let pw = compute_path_words(&data.words, n);
        let pd = compute_path_decos(&data.decorations, n);
        let pl = path_lines(&data, &pw, &pd);
        let ctx = compute_ctx(&data, &pw, &pd, &pl);
        let wi = word_index(&data.words);
        Page {
            data,
            path_word: pw,
            path_deco: pd,
            path_line: pl,
            path_ctx: ctx,
            word_index: wi,
            styles: StyleEngine::new(),
            mask: MaskState::new(),
            reveal: None,
            selection: Selection { anchor: None, focus: None },
            state_dirty: true,
        }
    }

    /// Build a page from its records when they can be built (`buildable`), or None.
    pub fn load(data: PageData) -> (r: Option<Page>)
        ensures
            r is Some <==> buildable(&data),
            r matches Some(p) ==> {
                &&& p.wf()
                &&& p.data == data
                &&& p.styles.rules@.len() == 0
                &&& p.styles.next_handle == 1
                &&& p.styles.default_ink == DEFAULT_INK
                &&& p.mask.words@.len() == 0
                &&& p.mask.hidden@ == Set::<u32>::empty()
                &&& p.mask.mode == MaskMode::Hide
                &&& p.mask.block_color == MASK_BLOCK_COLOR
                &&& p.reveal is None
                &&& p.selection == (Selection { anchor: None, focus: None })
                &&& p.state_dirty
            },
    {
        if !records_wf(&data) {
            return None;
        }
        let n = data.paths.len();
        let pw = compute_path_words(&data.words, n);
        if !named_counts_ok(&data, &pw) {
            return None;
        }
        if data.lines.len() == 0 {
            let pd = compute_path_decos(&data.decorations, n);
            let mut i: usize = 0;
            while i < n
                invariant
                    n == data.paths@.len(),
                    data.lines@.len() == 0,
                    pd@ == path_decos(data.decorations@, n as nat),
                    i <= n,
                    forall|j: int| 0 <= j < i ==> #[trigger] owner_deco(data.decorations@, j) == NONE,
                decreases n - i,
            {
                if pd[i] != NONE {
                    assert(owner_deco(data.decorations@, i as int) != NONE);
                    return None;
                }
                i += 1;
            }
        }
        Some(Page::from_data(data))
    }

    pub fn data(&self) -> (d: &PageData)
        ensures
            *d == self.data,
    {
        &self.data
    }

    pub fn page_number(&self) -> (n: u16)
        ensures
            n == self.data.page,
    {
        self.data.page
    }

    pub fn quant(&self) -> (q: u16)
        ensures
            q == self.data.quant,
    {
        self.data.quant
    }

    /// The decoration that owns a path, or `NONE`.
    pub fn path_deco(&self, pi: u32) -> (d: u32)
        requires
            self.wf(),
            pi < self.data.paths@.len(),
        ensures
            d == owner_deco(self.data.decorations@, pi as int),
    {
        self.path_deco[pi as usize]
    }

    /// The line a path is laid out with.
    pub fn path_line(&self, pi: u32) -> (l: u32)
        requires
            self.wf(),
            pi < self.data.paths@.len(),
        ensures
            l == self.path_line@[pi as int],
    {
        self.path_line[pi as usize]
    }
}

/// The word a path's context names is a word of the page, or none.
pub proof fn lemma_ctx_word(p: &Page, i: int)
    requires
        p.wf(),
        0 <= i < p.data.paths@.len(),
    ensures
        p.path_ctx@[i].word == NONE || p.path_ctx@[i].word < p.data.words@.len(),
{
    lemma_owner_word(p.data.words@, i);
}

} // verus!
