//! Style engine: layered rules with handles that undo exactly, sub-word selectors, and the
//! winning rule for a path.
use vstd::prelude::*;
use crate::model::{DecoKind, PathKind};
use crate::page::Page;
use crate::memorize::{MaskMode, reveal_color};
use crate::selection::Target;
use crate::target::resolves_to;

verus! {

/// Colour as 0xRRGGBBAA. Alpha 0 hides the path.
pub type Rgba = u32;

/// Ink colour of a page before any style rule.
pub const DEFAULT_INK: Rgba = 0x231f20ff;

/// Sentinel for "no word" / "no decoration".
pub const NONE: u32 = 0xffff_ffff;

/// Mark category codes the theme names (the taxonomy's order).
pub const CATEGORY_HARAKAH: u8 = 1;
pub const CATEGORY_TANWIN: u8 = 2;
pub const CATEGORY_LETTER_DOT: u8 = 3;
pub const CATEGORY_WAQF: u8 = 6;
/// Mark and family codes the theme names.
pub const MARK_MADDAH: u8 = 9;
pub const FAMILY_SIFR: u8 = 5;

/// What a rule applies to. Word/path indices are page-local; marks, categories and families are
/// their taxonomy codes.
#[derive(Clone, Copy, Debug, PartialEq, Eq, Hash, Structural)]
pub enum Selector {
    Page,
    /// one engine path
    Path(u32),
    /// nth path of a word (0-based, in file order)
    WordPath(u32, u16),
    /// nth *mark* path of a word (0-based, counting marks only)
    WordMark(u32, u16),
    /// nth mark of that name in the word (0-based)
    WordMarkNamed(u32, u8, u16),
    /// only the body (letter) paths of a word
    WordBody(u32),
    /// only the mark paths of a word
    WordMarks(u32),
    Word(u32),
    Ayah(u16, u16),
    Line(u8),
    Mark(u8),
    Category(u8),
    Family(u8),
    Kind(PathKind),
    Deco(DecoKind),
    DecoIdx(u32),
}

impl Selector {
    /// How specific a selector is: a rule on a narrower selector beats one on a wider selector in
    /// the same layer.
    pub open spec fn spec_specificity(self) -> u8 {
        match self {
            Selector::Page => 0,
            Selector::Kind(_) | Selector::Deco(_) => 1,
            Selector::Family(_) => 2,
            Selector::Category(_) => 3,
            Selector::Mark(_) => 4,
            Selector::Line(_) => 5,
            Selector::Ayah(..) => 6,
            Selector::DecoIdx(_) => 7,
            Selector::Word(_) => 8,
            Selector::WordBody(_) | Selector::WordMarks(_) => 9,
            Selector::WordMark(..) | Selector::WordMarkNamed(..) | Selector::WordPath(..) => 10,
            Selector::Path(_) => 11,
        }
    }

    pub fn specificity(&self) -> (r: u8)
        ensures
            r == self.spec_specificity(),
    {
        match self {
            Selector::Page => 0,
            Selector::Kind(_) | Selector::Deco(_) => 1,
            Selector::Family(_) => 2,
            Selector::Category(_) => 3,
            Selector::Mark(_) => 4,
            Selector::Line(_) => 5,
            Selector::Ayah(..) => 6,
            Selector::DecoIdx(_) => 7,
            Selector::Word(_) => 8,
            Selector::WordBody(_) | Selector::WordMarks(_) => 9,
            Selector::WordMark(..) | Selector::WordMarkNamed(..) | Selector::WordPath(..) => 10,
            Selector::Path(_) => 11,
        }
    }
}

/// Colour plus how long a change to/from it takes.
#[derive(Clone, Copy, Debug, PartialEq, Eq, Structural)]
pub struct Paint {
    pub color: Rgba,
    pub transition_ms: u32,
}

impl Paint {
    pub fn new(color: Rgba) -> (p: Paint)
        ensures
            p == (Paint { color, transition_ms: 0 }),
    {
        Paint { color, transition_ms: 0 }
    }

    pub fn fade(color: Rgba, ms: u32) -> (p: Paint)
        ensures
            p == (Paint { color, transition_ms: ms }),
    {
        Paint { color, transition_ms: ms }
    }

    pub fn hidden() -> (p: Paint)
        ensures
            p == (Paint { color: 0, transition_ms: 0 }),
    {
        Paint { color: 0, transition_ms: 0 }
    }
}

/// Opaque handle returned by every mutating style call; `remove(handle)` undoes exactly that call.
pub type Handle = u32;

#[derive(Clone, Copy, Debug)]
pub struct Rule {
    pub handle: Handle,
    pub layer: i32,
    pub sel: Selector,
    pub paint: Paint,
    pub seq: u64,
}

/// Well-known layers (higher wins). Apps may use any i32.
pub const LAYER_BASE: i32 = 0;
pub const LAYER_THEME: i32 = 10;
pub const LAYER_HIGHLIGHT: i32 = 50;
pub const LAYER_SELECTION: i32 = 60;
pub const LAYER_TOP: i32 = 100;

#[derive(Debug)]
pub struct StyleEngine {
    pub rules: Vec<Rule>,
    pub next_handle: Handle,
    pub seq: u64,
    pub dirty: bool,
    pub default_ink: Rgba,
}

impl StyleEngine {
    /// Every rule's handle was handed out before, and every rule was added before the counter.
    pub open spec fn wf(&self) -> bool {
        &&& 1 <= self.next_handle
        &&& forall|i: int|
            0 <= i < self.rules@.len() ==> (#[trigger] self.rules@[i]).handle < self.next_handle
                && self.rules@[i].seq <= self.seq
    }

    pub fn new() -> (s: StyleEngine)
        ensures
            s.wf(),
            s.rules@.len() == 0,
            s.next_handle == 1,
            s.seq == 0,
            s.dirty,
            s.default_ink == DEFAULT_INK,
    {
        StyleEngine { rules: Vec::new(), next_handle: 1, seq: 0, dirty: true, default_ink: DEFAULT_INK }
    }

    fn take_handle(&mut self) -> (h: Handle)
        requires
            old(self).next_handle < u32::MAX,
        ensures
            h == old(self).next_handle,
            final(self).next_handle == old(self).next_handle + 1,
            final(self).rules == old(self).rules,
            final(self).seq == old(self).seq,
            final(self).dirty == old(self).dirty,
            final(self).default_ink == old(self).default_ink,
    {
        let h = self.next_handle;
        self.next_handle = self.next_handle + 1;
        h
    }

    /// The rule a push appends.
    pub open spec fn pushed(&self, handle: Handle, layer: i32, sel: Selector, paint: Paint) -> Rule {
        Rule { handle, layer, sel, paint, seq: (self.seq + 1) as u64 }
    }

    pub fn push(&mut self, handle: Handle, layer: i32, sel: Selector, paint: Paint)
        requires
            old(self).seq < u64::MAX,
        ensures
            final(self).rules@ == old(self).rules@.push(old(self).pushed(handle, layer, sel, paint)),
            final(self).seq == old(self).seq + 1,
            final(self).next_handle == old(self).next_handle,
            final(self).dirty,
            final(self).default_ink == old(self).default_ink,
    {
        self.seq = self.seq + 1;
        self.rules.push(Rule { handle, layer, sel, paint, seq: self.seq });
        self.dirty = true;
    }

    /// Add one rule. Returns its handle.
    pub fn add(&mut self, layer: i32, sel: Selector, paint: Paint) -> (h: Handle)
        requires
            old(self).wf(),
            old(self).next_handle < u32::MAX,
            old(self).seq < u64::MAX,
        ensures
            final(self).wf(),
            h == old(self).next_handle,
            final(self).next_handle == old(self).next_handle + 1,
            final(self).rules@ == old(self).rules@.push(old(self).pushed(h, layer, sel, paint)),
            final(self).seq == old(self).seq + 1,
            final(self).dirty,
            final(self).default_ink == old(self).default_ink,
    {
        let h = self.take_handle();
        self.push(h, layer, sel, paint);
        h
    }

    /// Add several rules under one handle.
    pub fn add_many(&mut self, layer: i32, sels: Vec<Selector>, paint: Paint) -> (h: Handle)
        requires
            old(self).wf(),
            old(self).next_handle < u32::MAX,
            old(self).seq + sels@.len() <= u64::MAX,
        ensures
            final(self).wf(),
            h == old(self).next_handle,
            final(self).next_handle == old(self).next_handle + 1,
            final(self).rules@.len() == old(self).rules@.len() + sels@.len(),
            final(self).rules@.take(old(self).rules@.len() as int) == old(self).rules@,
            forall|k: int|
                0 <= k < sels@.len() ==> #[trigger] final(self).rules@[old(self).rules@.len() + k]
                    == (Rule { handle: h, layer, sel: sels@[k], paint, seq: (old(self).seq + k + 1) as u64 }),
            final(self).seq == old(self).seq + sels@.len(),
            final(self).dirty == (old(self).dirty || sels@.len() > 0),
            final(self).default_ink == old(self).default_ink,
    {
        let h = self.take_handle();
        let mut i: usize = 0;
        let ghost base = self.rules@;
        let ghost seq0 = self.seq;
        while i < sels.len()
            invariant
                i <= sels@.len(),
                seq0 + sels@.len() <= u64::MAX,
                self.seq == seq0 + i,
                self.next_handle == old(self).next_handle + 1,
                h == old(self).next_handle,
                base == old(self).rules@,
                seq0 == old(self).seq,
                old(self).wf(),
                self.default_ink == old(self).default_ink,
                self.dirty == (old(self).dirty || i > 0),
                self.rules@.len() == base.len() + i,
                self.rules@.take(base.len() as int) == base,
                forall|k: int|
                    0 <= k < i ==> #[trigger] self.rules@[base.len() + k] == (Rule {
                        handle: h,
                        layer,
                        sel: sels@[k],
                        paint,
                        seq: (seq0 + k + 1) as u64,
                    }),
            decreases sels@.len() - i,
        {
            let ghost before = self.rules@;
            self.push(h, layer, sels[i], paint);
            assert(self.rules@.take(base.len() as int) =~= before.take(base.len() as int));
            i += 1;
        }
        proof {
            assert forall|j: int| 0 <= j < self.rules@.len() implies (#[trigger] self.rules@[j]).handle
                < self.next_handle && self.rules@[j].seq <= self.seq by {
                if j < base.len() {
                    assert(self.rules@[j] == self.rules@.take(base.len() as int)[j]);
                } else {
                    assert(self.rules@[base.len() + (j - base.len())] == self.rules@[j]);
                }
            }
        }
        h
    }

    pub fn push_under(&mut self, handle: Handle, layer: i32, sel: Selector, paint: Paint)
        requires
            old(self).seq < u64::MAX,
        ensures
            final(self).rules@ == old(self).rules@.push(old(self).pushed(handle, layer, sel, paint)),
            final(self).seq == old(self).seq + 1,
            final(self).next_handle == old(self).next_handle,
            final(self).dirty,
            final(self).default_ink == old(self).default_ink,
    {
        self.push(handle, layer, sel, paint);
    }

    pub fn new_handle(&mut self) -> (h: Handle)
        requires
            old(self).next_handle < u32::MAX,
        ensures
            h == old(self).next_handle,
            final(self).next_handle == old(self).next_handle + 1,
            final(self).rules == old(self).rules,
            final(self).seq == old(self).seq,
            final(self).dirty == old(self).dirty,
            final(self).default_ink == old(self).default_ink,
    {
        self.take_handle()
    }

    /// Remove everything added under a handle. Returns the number of rules removed.
    pub fn remove(&mut self, handle: Handle) -> (n: usize)
        ensures
            final(self).rules@ == old(self).rules@.filter(|r: Rule| r.handle != handle),
            n == old(self).rules@.len() - final(self).rules@.len(),
            final(self).dirty == (old(self).dirty || n > 0),
            final(self).next_handle == old(self).next_handle,
            final(self).seq == old(self).seq,
            final(self).default_ink == old(self).default_ink,
            old(self).wf() ==> final(self).wf(),
    {
        let ghost keep = |r: Rule| r.handle != handle;
        let mut kept: Vec<Rule> = Vec::new();
        let mut i: usize = 0;
        let n0 = self.rules.len();
        while i < self.rules.len()
            invariant
                n0 == self.rules@.len(),
                self.rules == old(self).rules,
                i <= self.rules@.len(),
                keep == (|r: Rule| r.handle != handle),
                kept@ == self.rules@.take(i as int).filter(keep),
            decreases self.rules@.len() - i,
        {
            let r = self.rules[i];
            proof {
                assert(self.rules@.take(i + 1) =~= self.rules@.take(i as int).push(r));
                self.rules@.take(i as int).lemma_filter_push(r, keep);
            }
            if r.handle != handle {
                kept.push(r);
            }
            i += 1;
        }
        assert(self.rules@.take(i as int) =~= self.rules@);
        proof {
            self.rules@.lemma_filter_len(keep);
        }
        let removed = n0 - kept.len();
        self.rules = kept;
        if removed > 0 {
            self.dirty = true;
        }
        proof {
            if old(self).wf() {
                assert forall|j: int| 0 <= j < self.rules@.len() implies (#[trigger] self.rules@[j]).handle
                    < self.next_handle && self.rules@[j].seq <= self.seq by {
                    assert(old(self).rules@.filter(keep).contains(self.rules@[j]));
                    old(self).rules@.lemma_filter_contains_rev(keep, self.rules@[j]);
                }
            }
        }
        removed
    }

    /// Change the paint of an existing handle in place (keeps selectors and layer).
    pub fn repaint(&mut self, handle: Handle, paint: Paint) -> (n: usize)
        ensures
            final(self).rules@.len() == old(self).rules@.len(),
            forall|i: int|
                0 <= i < old(self).rules@.len() ==> #[trigger] final(self).rules@[i] == (if old(
                    self,
                ).rules@[i].handle == handle {
                    Rule { paint, ..old(self).rules@[i] }
                } else {
                    old(self).rules@[i]
                }),
            n == old(self).rules@.filter(|r: Rule| r.handle == handle).len(),
            final(self).dirty == (old(self).dirty || n > 0),
            final(self).next_handle == old(self).next_handle,
            final(self).seq == old(self).seq,
            final(self).default_ink == old(self).default_ink,
            old(self).wf() ==> final(self).wf(),
    {
        let ghost same = |r: Rule| r.handle == handle;
        let mut n: usize = 0;
        let mut i: usize = 0;
        while i < self.rules.len()
            invariant
                i <= self.rules@.len(),
                self.rules@.len() == old(self).rules@.len(),
                n <= i,
                same == (|r: Rule| r.handle == handle),
                n == old(self).rules@.take(i as int).filter(same).len(),
                self.next_handle == old(self).next_handle,
                self.seq == old(self).seq,
                self.dirty == old(self).dirty,
                self.default_ink == old(self).default_ink,
                forall|k: int|
                    0 <= k < self.rules@.len() ==> #[trigger] self.rules@[k] == (if k < i
                        && old(self).rules@[k].handle == handle {
                        Rule { paint, ..old(self).rules@[k] }
                    } else {
                        old(self).rules@[k]
                    }),
            decreases self.rules@.len() - i,
        {
            proof {
                assert(old(self).rules@.take(i + 1) =~= old(self).rules@.take(i as int).push(
                    old(self).rules@[i as int],
                ));
                old(self).rules@.take(i as int).lemma_filter_push(old(self).rules@[i as int], same);
                old(self).rules@.take(i as int).lemma_filter_len(same);
            }
            if self.rules[i].handle == handle {
                let mut r = self.rules[i];
                r.paint = paint;
                self.rules.set(i, r);
                n += 1;
            }
            i += 1;
        }
        assert(old(self).rules@.take(i as int) =~= old(self).rules@);
        if n > 0 {
            self.dirty = true;
        }
        n
    }

    pub fn clear(&mut self)
        ensures
            final(self).rules@.len() == 0,
            final(self).dirty == (old(self).dirty || old(self).rules@.len() > 0),
            final(self).next_handle == old(self).next_handle,
            final(self).seq == old(self).seq,
            final(self).default_ink == old(self).default_ink,
            old(self).wf() ==> final(self).wf(),
    {
        if self.rules.len() > 0 {
            self.rules = Vec::new();
            self.dirty = true;
        }
    }

    pub fn set_default_ink(&mut self, c: Rgba)
        ensures
            final(self).default_ink == c,
            final(self).dirty == (old(self).dirty || old(self).default_ink != c),
            final(self).rules == old(self).rules,
            final(self).next_handle == old(self).next_handle,
            final(self).seq == old(self).seq,
    {
        if self.default_ink != c {
            self.default_ink = c;
            self.dirty = true;
        }
    }

    /// Remove every rule of a layer.
    pub fn clear_layer(&mut self, layer: i32)
        ensures
            final(self).rules@ == old(self).rules@.filter(|r: Rule| r.layer != layer),
            final(self).dirty == (old(self).dirty || final(self).rules@.len() != old(self).rules@.len()),
            final(self).next_handle == old(self).next_handle,
            final(self).seq == old(self).seq,
            final(self).default_ink == old(self).default_ink,
            old(self).wf() ==> final(self).wf(),
    {
        let ghost keep = |r: Rule| r.layer != layer;
        let mut kept: Vec<Rule> = Vec::new();
        let mut i: usize = 0;
        while i < self.rules.len()
            invariant
                self.rules == old(self).rules,
                i <= self.rules@.len(),
                keep == (|r: Rule| r.layer != layer),
                kept@ == self.rules@.take(i as int).filter(keep),
            decreases self.rules@.len() - i,
        {
            let r = self.rules[i];
            proof {
                assert(self.rules@.take(i + 1) =~= self.rules@.take(i as int).push(r));
                self.rules@.take(i as int).lemma_filter_push(r, keep);
            }
            if r.layer != layer {
                kept.push(r);
            }
            i += 1;
        }
        assert(self.rules@.take(i as int) =~= self.rules@);
        let n = self.rules.len();
        let changed = kept.len() != n;
        self.rules = kept;
        if changed {
            self.dirty = true;
        }
        proof {
            if old(self).wf() {
                assert forall|j: int| 0 <= j < self.rules@.len() implies (#[trigger] self.rules@[j]).handle
                    < self.next_handle && self.rules@[j].seq <= self.seq by {
                    assert(old(self).rules@.filter(keep).contains(self.rules@[j]));
                    old(self).rules@.lemma_filter_contains_rev(keep, self.rules@[j]);
                }
            }
        }
    }

    /// The handles in use, ascending, each once.
    pub fn handles(&self) -> (v: Vec<Handle>)
        ensures
            forall|i: int, j: int| 0 <= i < j < v@.len() ==> v@[i] < v@[j],
            forall|h: Handle| v@.contains(h) <==> exists|k: int| 0 <= k < self.rules@.len() && #[trigger] self.rules@[k].handle == h,
    {
        let mut v: Vec<Handle> = Vec::new();
        let mut i: usize = 0;
        while i < self.rules.len()
            invariant
                i <= self.rules@.len(),
                forall|a: int, b: int| 0 <= a < b < v@.len() ==> v@[a] < v@[b],
                forall|h: Handle| v@.contains(h) <==> exists|k: int| 0 <= k < i && #[trigger] self.rules@[k].handle == h,
            decreases self.rules@.len() - i,
        {
            let h = self.rules[i].handle;
            let mut pos: usize = 0;
            while pos < v.len() && v[pos] < h
                invariant
                    pos <= v@.len(),
                    forall|t: int| 0 <= t < pos ==> v@[t] < h,
                decreases v@.len() - pos,
            {
                pos += 1;
            }
            let ghost v0 = v@;
            if pos == v.len() || v[pos] != h {
                proof {
                    assert forall|t: int| pos <= t < v0.len() implies v0[t] > h by {
                        assert(v0[pos as int] >= h);
                        if t > pos {
                            assert(v0[pos as int] < v0[t]);
                        }
                    }
                }
                v.insert(pos, h);
                proof {
                    let v1 = v@;
                    assert forall|a: int, b: int| 0 <= a < b < v1.len() implies v1[a] < v1[b] by {
                        if a > pos {
                            assert(v1[a] == v0[a - 1]);
                        }
                        if b > pos {
                            assert(v1[b] == v0[b - 1]);
                        }
                    }
                    assert forall|x: Handle| v1.contains(x) <==> exists|k: int| 0 <= k < i + 1 && #[trigger] self.rules@[k].handle == x by {
                        if v0.contains(x) {
                            let t = choose|t: int| 0 <= t < v0.len() && v0[t] == x;
                            if t < pos {
                                assert(v1[t] == x);
                            } else {
                                assert(v1[t + 1] == x);
                            }
                        }
                        if x == h {
                            assert(v1[pos as int] == x);
                        }
                        if v1.contains(x) {
                            let t = choose|t: int| 0 <= t < v1.len() && v1[t] == x;
                            if t < pos {
                                assert(v0[t] == x);
                            } else if t > pos {
                                assert(v0[t - 1] == x);
                            }
                        }
                        if exists|k: int| 0 <= k < i + 1 && #[trigger] self.rules@[k].handle == x {
                            let k = choose|k: int| 0 <= k < i + 1 && #[trigger] self.rules@[k].handle == x;
                            if k < i {
                                assert(v0.contains(x));
                            }
                        }
                    }
                }
            } else {
                proof {
                    assert(v@[pos as int] == h);
                    assert forall|x: Handle| v@.contains(x) <==> exists|k: int| 0 <= k < i + 1 && #[trigger] self.rules@[k].handle == x by {
                        if exists|k: int| 0 <= k < i + 1 && #[trigger] self.rules@[k].handle == x {
                            let k = choose|k: int| 0 <= k < i + 1 && #[trigger] self.rules@[k].handle == x;
                            if k == i {
                                assert(x == h);
                            }
                        }
                    }
                }
            }
            i += 1;
        }
        v
    }

    pub fn len(&self) -> (n: usize)
        ensures
            n == self.rules@.len(),
    {
        self.rules.len()
    }

    pub fn is_empty(&self) -> (b: bool)
        ensures
            b == (self.rules@.len() == 0),
    {
        self.rules.len() == 0
    }
}

/// Per-path facts the matcher needs, computed when the page is built.
#[derive(Clone, Copy, Debug, PartialEq, Eq, Structural)]
pub struct PathCtx {
    pub word: u32,
    pub deco: u32,
    pub line_number: u8,
    pub surah: u16,
    pub ayah: u16,
    pub kind: PathKind,
    pub mark: u8,
    pub family: u8,
    pub category: u8,
    /// index of this path within its word (all paths), among its word's marks (`u16::MAX` for a
    /// path that is no mark), and among the run's paths of the same mark
    pub nth_in_word: u16,
    pub nth_mark: u16,
    pub nth_mark_named: u16,
    pub deco_kind: DecoKind,
}

/// Whether a selector picks out the path `pi` with context `c`.
pub open spec fn selects(sel: Selector, c: PathCtx, pi: u32) -> bool {
    match sel {
        Selector::Page => true,
        Selector::Path(p) => p == pi,
        Selector::WordPath(w, n) => c.word == w && c.nth_in_word == n,
        Selector::WordMark(w, n) => c.word == w && c.kind == PathKind::Mark && c.nth_mark == n,
        Selector::WordMarkNamed(w, m, n) => c.word == w && c.mark == m && c.nth_mark_named == n,
        Selector::WordBody(w) => c.word == w && c.kind == PathKind::Body,
        Selector::WordMarks(w) => c.word == w && c.kind == PathKind::Mark,
        Selector::Word(w) => c.word == w,
        Selector::Ayah(s, a) => c.surah == s && c.ayah == a && c.ayah != 0,
        Selector::Line(l) => c.line_number == l,
        Selector::Mark(m) => c.mark == m,
        Selector::Category(k) => c.category == k && c.kind == PathKind::Mark,
        Selector::Family(f) => c.family == f,
        Selector::Kind(k) => c.kind == k,
        Selector::Deco(k) => c.deco != NONE && c.deco_kind == k,
        Selector::DecoIdx(d) => c.deco == d,
    }
}

impl Rule {
    pub fn matches(&self, c: &PathCtx, pi: u32) -> (r: bool)
        ensures
            r == selects(self.sel, *c, pi),
    {
        match self.sel {
            Selector::Page => true,
            Selector::Path(p) => p == pi,
            Selector::WordPath(w, n) => c.word == w && c.nth_in_word == n,
            Selector::WordMark(w, n) => c.word == w && c.kind == PathKind::Mark && c.nth_mark == n,
            Selector::WordMarkNamed(w, m, n) => c.word == w && c.mark == m && c.nth_mark_named == n,
            Selector::WordBody(w) => c.word == w && c.kind == PathKind::Body,
            Selector::WordMarks(w) => c.word == w && c.kind == PathKind::Mark,
            Selector::Word(w) => c.word == w,
            Selector::Ayah(s, a) => c.surah == s && c.ayah == a && c.ayah != 0,
            Selector::Line(l) => c.line_number == l,
            Selector::Mark(m) => c.mark == m,
            Selector::Category(k) => c.category == k && c.kind == PathKind::Mark,
            Selector::Family(f) => c.family == f,
            Selector::Kind(k) => c.kind == k,
            Selector::Deco(k) => c.deco != NONE && c.deco_kind == k,
            Selector::DecoIdx(d) => c.deco == d,
        }
    }
}

/// Whether rule `a` outranks rule `b`: a higher layer, then a more specific selector, then the
/// later addition.
pub open spec fn outranks(a: Rule, b: Rule) -> bool {
    ||| a.layer > b.layer
    ||| (a.layer == b.layer && a.sel.spec_specificity() > b.sel.spec_specificity())
    ||| (a.layer == b.layer && a.sel.spec_specificity() == b.sel.spec_specificity() && a.seq > b.seq)
}

/// The winning rule among the first `k` rules that select a path: the first one that no later
/// rule outranks.
pub open spec fn winner(rules: Seq<Rule>, c: PathCtx, pi: u32, k: int) -> Option<Rule>
    decreases k,
{
    if k <= 0 {
        None
    } else {
        let best = winner(rules, c, pi, k - 1);
        let r = rules[k - 1];
        if selects(r.sel, c, pi) && (best is None || outranks(r, best->0)) {
            Some(r)
        } else {
            best
        }
    }
}

/// The paint the rules give a path, or None when no rule selects it.
pub open spec fn rules_paint(rules: Seq<Rule>, c: PathCtx, pi: u32) -> Option<Paint> {
    match winner(rules, c, pi, rules.len() as int) {
        Some(r) => Some(r.paint),
        None => None,
    }
}

/// The winning rule for a path, found in one pass over the rules.
pub fn winning_paint(rules: &Vec<Rule>, c: &PathCtx, pi: u32) -> (r: Option<Paint>)
    ensures
        r == rules_paint(rules@, *c, pi),
{
    let mut best: Option<Rule> = None;
    let mut i: usize = 0;
    while i < rules.len()
        invariant
            i <= rules@.len(),
            best == winner(rules@, *c, pi, i as int),
        decreases rules@.len() - i,
    {
        let r = rules[i];
        if r.matches(c, pi) {
            let better = match best {
                None => true,
                Some(b) => {
                    let sp = r.sel.specificity();
                    let bsp = b.sel.specificity();
                    r.layer > b.layer || (r.layer == b.layer && (sp > bsp || (sp == bsp && r.seq > b.seq)))
                },
            };
            if better {
                best = Some(r);
            }
        }
        i += 1;
    }
    match best {
        Some(b) => Some(b.paint),
        None => None,
    }
}

/// The winning rule selects the path, and no rule that selects the path outranks it.
pub proof fn winner_is_best(rules: Seq<Rule>, c: PathCtx, pi: u32, k: int)
    requires
        0 <= k <= rules.len(),
    ensures
        winner(rules, c, pi, k) matches Some(w) ==> selects(w.sel, c, pi) && exists|j: int|
            0 <= j < k && rules[j] == w,
        winner(rules, c, pi, k) matches Some(w) ==> forall|j: int|
            0 <= j < k && selects(#[trigger] rules[j].sel, c, pi) ==> !outranks(rules[j], w),
        winner(rules, c, pi, k) is None <==> forall|j: int| 0 <= j < k ==> !selects(#[trigger] rules[j].sel, c, pi),
    decreases k,
{
    if k > 0 {
        winner_is_best(rules, c, pi, k - 1);
        let best = winner(rules, c, pi, k - 1);
        let r = rules[k - 1];
        if selects(r.sel, c, pi) && (best is None || outranks(r, best->0)) {
            assert forall|j: int| 0 <= j < k && selects(#[trigger] rules[j].sel, c, pi) implies !outranks(rules[j], r) by {
                if j < k - 1 {
                    let b = best->0;
                    assert(!outranks(rules[j], b));
                }
            }
        }
    }
}

/// The paint a path gets comes from a rule that selects it and that no selecting rule beats:
/// every other selecting rule is on a lower layer, or on the same layer with a less specific
/// selector, or on the same layer with an equally specific selector and added no later. So of
/// two rules tied on layer and specificity, the one added last gives the paint.
pub proof fn latest_of_the_highest_rules_wins(rules: Seq<Rule>, c: PathCtx, pi: u32)
    ensures
        rules_paint(rules, c, pi) is None <==> forall|i: int| 0 <= i < rules.len() ==> !selects(#[trigger] rules[i].sel, c, pi),
        rules_paint(rules, c, pi) matches Some(p) ==> exists|j: int|
            0 <= j < rules.len() && selects(rules[j].sel, c, pi) && rules[j].paint == p && forall|i: int|
                0 <= i < rules.len() && selects(#[trigger] rules[i].sel, c, pi) ==> {
                    ||| rules[i].layer < rules[j].layer
                    ||| (rules[i].layer == rules[j].layer && rules[i].sel.spec_specificity()
                        < rules[j].sel.spec_specificity())
                    ||| (rules[i].layer == rules[j].layer && rules[i].sel.spec_specificity()
                        == rules[j].sel.spec_specificity() && rules[i].seq <= rules[j].seq)
                },
{
    winner_is_best(rules, c, pi, rules.len() as int);
    if let Some(w) = winner(rules, c, pi, rules.len() as int) {
        let j = choose|j: int| 0 <= j < rules.len() && rules[j] == w;
        assert forall|i: int|
            0 <= i < rules.len() && selects(#[trigger] rules[i].sel, c, pi) implies {
                ||| rules[i].layer < rules[j].layer
                ||| (rules[i].layer == rules[j].layer && rules[i].sel.spec_specificity()
                    < rules[j].sel.spec_specificity())
                ||| (rules[i].layer == rules[j].layer && rules[i].sel.spec_specificity()
                    == rules[j].sel.spec_specificity() && rules[i].seq <= rules[j].seq)
            } by {
            assert(!outranks(rules[i], w));
        }
    }
}

/// Adding rules under a fresh handle and then removing that handle leaves the rules as they were:
/// the removal takes away exactly the rules that call added, the handle is then in use by no
/// rule, and removing it a second time takes nothing away.
pub proof fn remove_undoes_add(before: Seq<Rule>, next_handle: Handle, added: Seq<Rule>)
    requires
        forall|i: int| 0 <= i < before.len() ==> (#[trigger] before[i]).handle < next_handle,
        forall|i: int| 0 <= i < added.len() ==> (#[trigger] added[i]).handle == next_handle,
    ensures
        (before + added).filter(|r: Rule| r.handle != next_handle) == before,
        (before + added).len() - (before + added).filter(|r: Rule| r.handle != next_handle).len() == added.len(),
        !exists|k: int| 0 <= k < before.len() && #[trigger] before[k].handle == next_handle,
        before.filter(|r: Rule| r.handle != next_handle) == before,
{
    let keep = |r: Rule| r.handle != next_handle;
    lemma_filter_all(before, keep);
    lemma_filter_none(added, keep);
    Seq::filter_distributes_over_add(before, added, keep);
    assert(before + Seq::<Rule>::empty() =~= before);
}

/// On a style engine, the rules one `add` or `add_many` call appends under the fresh handle are
/// exactly what `remove` of that handle takes away: the rules are as they were before the call,
/// as many are removed as were added, no rule keeps the handle (so `handles` no longer lists
/// it), and a second `remove` of it takes nothing.
pub proof fn engine_remove_undoes_add(e: StyleEngine, added: Seq<Rule>)
    requires
        e.wf(),
        forall|i: int| 0 <= i < added.len() ==> (#[trigger] added[i]).handle == e.next_handle,
    ensures
        (e.rules@ + added).filter(|r: Rule| r.handle != e.next_handle) == e.rules@,
        (e.rules@ + added).len() - (e.rules@ + added).filter(|r: Rule| r.handle != e.next_handle).len()
            == added.len(),
        !exists|k: int| 0 <= k < e.rules@.len() && #[trigger] e.rules@[k].handle == e.next_handle,
        e.rules@.filter(|r: Rule| r.handle != e.next_handle) == e.rules@,
{
    remove_undoes_add(e.rules@, e.next_handle, added);
}

proof fn lemma_filter_all(s: Seq<Rule>, keep: spec_fn(Rule) -> bool)
    requires
        forall|i: int| 0 <= i < s.len() ==> keep(#[trigger] s[i]),
    ensures
        s.filter(keep) == s,
    decreases s.len(),
{
    reveal(Seq::filter);
    if s.len() > 0 {
        lemma_filter_all(s.drop_last(), keep);
        assert(s.drop_last().push(s.last()) =~= s);
    } else {
        assert(s.filter(keep) =~= s);
    }
}

proof fn lemma_filter_none(s: Seq<Rule>, keep: spec_fn(Rule) -> bool)
    requires
        forall|i: int| 0 <= i < s.len() ==> !keep(#[trigger] s[i]),
    ensures
        s.filter(keep) == Seq::<Rule>::empty(),
    decreases s.len(),
{
    reveal(Seq::filter);
    if s.len() > 0 {
        lemma_filter_none(s.drop_last(), keep);
    } else {
        assert(s.filter(keep) =~= Seq::<Rule>::empty());
    }
}

/// Theme colours; None leaves that colour alone. `marks` are (mark code, colour) pairs.
#[derive(Clone, Debug)]
pub struct Theme {
    pub ink: Option<Rgba>,
    pub diacritics: Option<Rgba>,
    pub dots: Option<Rgba>,
    pub waqf: Option<Rgba>,
    pub sifr: Option<Rgba>,
    pub ayah_mark: Option<Rgba>,
    pub numeral: Option<Rgba>,
    pub headers: Option<Rgba>,
    pub marks: Vec<(u8, Rgba)>,
    pub transition_ms: u32,
}

impl Default for Theme {
    fn default() -> (t: Theme)
        ensures
            t.ink is None && t.diacritics is None && t.dots is None && t.waqf is None && t.sifr is None
                && t.ayah_mark is None && t.numeral is None && t.headers is None,
            t.marks@.len() == 0,
            t.transition_ms == 0,
    {
        Theme {
            ink: None,
            diacritics: None,
            dots: None,
            waqf: None,
            sifr: None,
            ayah_mark: None,
            numeral: None,
            headers: None,
            marks: Vec::new(),
            transition_ms: 0,
        }
    }
}

pub open spec fn pick(c: Option<Rgba>, sels: Seq<Selector>) -> Seq<(Selector, Rgba)> {
    match c {
        Some(x) => sels.map_values(|s: Selector| (s, x)),
        None => Seq::empty(),
    }
}

/// The selectors a theme colours, in the order its rules are added, each with its colour.
pub open spec fn theme_picks(t: Theme) -> Seq<(Selector, Rgba)> {
    pick(t.ink, seq![Selector::Page]) + pick(
        t.diacritics,
        seq![Selector::Category(CATEGORY_HARAKAH), Selector::Category(CATEGORY_TANWIN), Selector::Mark(MARK_MADDAH)],
    ) + pick(t.dots, seq![Selector::Category(CATEGORY_LETTER_DOT)]) + pick(t.waqf, seq![Selector::Category(CATEGORY_WAQF)])
        + pick(t.sifr, seq![Selector::Family(FAMILY_SIFR)]) + pick(t.ayah_mark, seq![Selector::Kind(PathKind::AyahMarkOrnament)])
        + pick(t.numeral, seq![Selector::Kind(PathKind::AyahNumber)]) + pick(t.headers, seq![Selector::Kind(PathKind::HeaderInk)])
        + t.marks@.map_values(|m: (u8, Rgba)| (Selector::Mark(m.0), m.1))
}

fn push_pick(v: &mut Vec<(Selector, Rgba)>, c: Option<Rgba>, sel: Selector)
    ensures
        final(v)@ == old(v)@ + pick(c, seq![sel]),
{
    match c {
        Some(x) => {
            v.push((sel, x));
            assert(final(v)@ =~= old(v)@ + pick(c, seq![sel]));
        },
        None => {
            assert(final(v)@ =~= old(v)@ + pick(c, seq![sel]));
        },
    }
}

fn theme_pick_list(t: &Theme) -> (v: Vec<(Selector, Rgba)>)
    ensures
        v@ == theme_picks(*t),
{
    let mut v: Vec<(Selector, Rgba)> = Vec::new();
    push_pick(&mut v, t.ink, Selector::Page);
    let ghost a = v@;
    match t.diacritics {
        Some(c) => {
            v.push((Selector::Category(CATEGORY_HARAKAH), c));
            v.push((Selector::Category(CATEGORY_TANWIN), c));
            v.push((Selector::Mark(MARK_MADDAH), c));
        },
        None => {},
    }
    assert(v@ =~= a + pick(
        t.diacritics,
        seq![Selector::Category(CATEGORY_HARAKAH), Selector::Category(CATEGORY_TANWIN), Selector::Mark(MARK_MADDAH)],
    ));
    push_pick(&mut v, t.dots, Selector::Category(CATEGORY_LETTER_DOT));
    push_pick(&mut v, t.waqf, Selector::Category(CATEGORY_WAQF));
    push_pick(&mut v, t.sifr, Selector::Family(FAMILY_SIFR));
    push_pick(&mut v, t.ayah_mark, Selector::Kind(PathKind::AyahMarkOrnament));
    push_pick(&mut v, t.numeral, Selector::Kind(PathKind::AyahNumber));
    push_pick(&mut v, t.headers, Selector::Kind(PathKind::HeaderInk));
    let ghost b = v@;
    let mut k: usize = 0;
    while k < t.marks.len()
        invariant
            k <= t.marks@.len(),
            v@ == b + t.marks@.take(k as int).map_values(|m: (u8, Rgba)| (Selector::Mark(m.0), m.1)),
        decreases t.marks@.len() - k,
    {
        let (m, c) = t.marks[k];
        v.push((Selector::Mark(m), c));
        proof {
            assert(t.marks@.take(k + 1).map_values(|m: (u8, Rgba)| (Selector::Mark(m.0), m.1)) =~= t.marks@.take(
                k as int,
            ).map_values(|m: (u8, Rgba)| (Selector::Mark(m.0), m.1)).push((Selector::Mark(m), c)));
        }
        k += 1;
    }
    assert(t.marks@.take(k as int) =~= t.marks@);
    assert(v@ =~= theme_picks(*t));
    v
}

/// The paint a page resolves for a path: hidden under a hiding mask, else the winning rule's,
/// else the reveal's colour fading in, else the default ink.
pub open spec fn target_paint_of(p: &Page, pi: int) -> Paint {
    let c = p.path_ctx@[pi];
    if c.word != NONE && p.mask.hidden@.contains(c.word) && p.mask.mode == MaskMode::Hide {
        Paint { color: 0, transition_ms: 0 }
    } else {
        match rules_paint(p.styles.rules@, c, pi as u32) {
            Some(paint) => paint,
            None => match p.reveal {
                Some(r) => Paint { color: reveal_color(r, p.data.words@, c), transition_ms: r.transition_ms },
                None => Paint { color: p.styles.default_ink, transition_ms: 0 },
            },
        }
    }
}

impl Page {
    /// The fields a style call leaves as they were.
    pub open spec fn same_but_styles(&self, o: &Page) -> bool {
        &&& self.data == o.data
        &&& self.path_word == o.path_word
        &&& self.path_deco == o.path_deco
        &&& self.path_line == o.path_line
        &&& self.path_ctx == o.path_ctx
        &&& self.word_index == o.word_index
        &&& self.mask == o.mask
        &&& self.reveal == o.reveal
        &&& self.selection == o.selection
        &&& self.state_dirty == o.state_dirty
    }

    /// The winning rule's paint for a path, or None when no rule applies.
    pub fn rule_paint(&self, pi: u32) -> (r: Option<Paint>)
        requires
            self.wf(),
            pi < self.data.paths@.len(),
        ensures
            r == rules_paint(self.styles.rules@, self.path_ctx@[pi as int], pi),
    {
        winning_paint(&self.styles.rules, &self.path_ctx[pi as usize], pi)
    }

    /// Resolve the target paint of a path: mask, then rules, then reveal, then default.
    pub fn target_paint(&self, pi: u32) -> (p: Paint)
        requires
            self.wf(),
            pi < self.data.paths@.len(),
        ensures
            p == target_paint_of(self, pi as int),
    {
        let c = self.path_ctx[pi as usize];
        if c.word != NONE && self.mask.hidden.contains(&c.word) && self.mask.mode == MaskMode::Hide {
            return Paint::hidden();
        }
        match self.rule_paint(pi) {
            Some(p) => p,
            None => match self.reveal_color_for(pi) {
                Some(col) => {
                    let ms = match &self.reveal {
                        Some(r) => r.transition_ms,
                        None => 0,
                    };
                    Paint::fade(col, ms)
                },
                None => Paint::new(self.styles.default_ink),
            },
        }
    }

    pub fn style(&mut self, sel: Selector, paint: Paint) -> (h: Handle)
        requires
            old(self).wf(),
            old(self).styles.next_handle < u32::MAX,
            old(self).styles.seq < u64::MAX,
        ensures
            final(self).wf(),
            final(self).same_but_styles(old(self)),
            h == old(self).styles.next_handle,
            final(self).styles.rules@ == old(self).styles.rules@.push(old(self).styles.pushed(h, LAYER_BASE, sel, paint)),
    {
        self.styles.add(LAYER_BASE, sel, paint)
    }

    pub fn style_in(&mut self, layer: i32, sel: Selector, paint: Paint) -> (h: Handle)
        requires
            old(self).wf(),
            old(self).styles.next_handle < u32::MAX,
            old(self).styles.seq < u64::MAX,
        ensures
            final(self).wf(),
            final(self).same_but_styles(old(self)),
            h == old(self).styles.next_handle,
            final(self).styles.rules@ == old(self).styles.rules@.push(old(self).styles.pushed(h, layer, sel, paint)),
    {
        self.styles.add(layer, sel, paint)
    }

    /// Recolour the ink of everything a target resolves to, under one handle.
    pub fn style_target(&mut self, layer: i32, target: &Target, paint: Paint) -> (h: Handle)
        requires
            old(self).wf(),
            old(self).styles.next_handle < u32::MAX,
            old(self).styles.seq + old(self).data.words@.len() <= u64::MAX,
        ensures
            final(self).wf(),
            final(self).same_but_styles(old(self)),
            h == old(self).styles.next_handle,
            exists|ws: Seq<u32>| {
                &&& resolves_to(old(self).data.words@, old(self).data.lines@, *target, ws)
                &&& final(self).styles.rules@ == old(self).styles.rules@ + Seq::new(
                    ws.len(),
                    |k: int| Rule { handle: h, layer, sel: Selector::Word(ws[k]), paint, seq: (old(self).styles.seq + k + 1) as u64 },
                )
            },
    {
        let words = self.target_words(target);
        let mut sels: Vec<Selector> = Vec::new();
        let mut k: usize = 0;
        while k < words.len()
            invariant
                k <= words@.len(),
                sels@ == words@.take(k as int).map_values(|w: u32| Selector::Word(w)),
            decreases words@.len() - k,
        {
            sels.push(Selector::Word(words[k]));
            proof {
                assert(words@.take(k + 1).map_values(|w: u32| Selector::Word(w)) =~= words@.take(k as int).map_values(
                    |w: u32| Selector::Word(w),
                ).push(Selector::Word(words@[k as int])));
            }
            k += 1;
        }
        assert(words@.take(k as int) =~= words@);
        proof {
            lemma_resolves_bound(old(self).data.words@, old(self).data.lines@, *target, words@);
        }
        let ghost r0 = self.styles.rules@;
        let h = self.styles.add_many(layer, sels, paint);
        proof {
            let added = Seq::new(
                words@.len(),
                |k: int| Rule { handle: h, layer, sel: Selector::Word(words@[k]), paint, seq: (old(self).styles.seq + k + 1) as u64 },
            );
            assert forall|i: int| 0 <= i < self.styles.rules@.len() implies self.styles.rules@[i] == (r0 + added)[i] by {
                if i < r0.len() {
                    assert(self.styles.rules@[i] == self.styles.rules@.take(r0.len() as int)[i]);
                } else {
                    let k = i - r0.len();
                    assert(self.styles.rules@[r0.len() + k] == self.styles.rules@[i]);
                    assert(sels@[k] == Selector::Word(words@[k]));
                }
            }
            assert(self.styles.rules@ =~= r0 + added);
        }
        h
    }

    /// Remove everything added under a handle. Returns the number of rules removed.
    pub fn remove_style(&mut self, handle: Handle) -> (n: usize)
        requires
            old(self).wf(),
        ensures
            final(self).wf(),
            final(self).same_but_styles(old(self)),
            final(self).styles.rules@ == old(self).styles.rules@.filter(|r: Rule| r.handle != handle),
            n == old(self).styles.rules@.len() - final(self).styles.rules@.len(),
    {
        self.styles.remove(handle)
    }

    /// Change the paint of a handle's rules. Returns how many rules it changed.
    pub fn recolor_style(&mut self, handle: Handle, paint: Paint) -> (n: usize)
        requires
            old(self).wf(),
        ensures
            final(self).wf(),
            final(self).same_but_styles(old(self)),
            final(self).styles.rules@.len() == old(self).styles.rules@.len(),
            forall|i: int|
                0 <= i < old(self).styles.rules@.len() ==> #[trigger] final(self).styles.rules@[i] == (if old(
                    self,
                ).styles.rules@[i].handle == handle {
                    Rule { paint, ..old(self).styles.rules@[i] }
                } else {
                    old(self).styles.rules@[i]
                }),
            n == old(self).styles.rules@.filter(|r: Rule| r.handle == handle).len(),
    {
        self.styles.repaint(handle, paint)
    }

    /// Hide what a selector selects, above every other layer.
    pub fn hide_selector(&mut self, sel: Selector) -> (h: Handle)
        requires
            old(self).wf(),
            old(self).styles.next_handle < u32::MAX,
            old(self).styles.seq < u64::MAX,
        ensures
            final(self).wf(),
            final(self).same_but_styles(old(self)),
            h == old(self).styles.next_handle,
            final(self).styles.rules@ == old(self).styles.rules@.push(
                old(self).styles.pushed(h, LAYER_TOP, sel, Paint { color: 0, transition_ms: 0 }),
            ),
    {
        self.styles.add(LAYER_TOP, sel, Paint::hidden())
    }

    pub fn set_default_ink(&mut self, c: Rgba)
        requires
            old(self).wf(),
        ensures
            final(self).wf(),
            final(self).same_but_styles(old(self)),
            final(self).styles.default_ink == c,
            final(self).styles.rules == old(self).styles.rules,
    {
        self.styles.set_default_ink(c);
    }

    pub fn default_ink(&self) -> (c: Rgba)
        ensures
            c == self.styles.default_ink,
    {
        self.styles.default_ink
    }

    /// Theme in one call: every colour the theme sets becomes a rule on the theme layer, all under
    /// one handle, fading over the theme's transition.
    pub fn theme(&mut self, t: &Theme) -> (h: Handle)
        requires
            old(self).wf(),
            old(self).styles.next_handle < u32::MAX,
            old(self).styles.seq + theme_picks(*t).len() <= u64::MAX,
        ensures
            final(self).wf(),
            final(self).same_but_styles(old(self)),
            h == old(self).styles.next_handle,
            final(self).styles.rules@ == old(self).styles.rules@ + Seq::new(
                theme_picks(*t).len(),
                |k: int| Rule {
                    handle: h,
                    layer: LAYER_THEME,
                    sel: theme_picks(*t)[k].0,
                    paint: Paint { color: theme_picks(*t)[k].1, transition_ms: t.transition_ms },
                    seq: (old(self).styles.seq + k + 1) as u64,
                },
            ),
    {
        let picks = theme_pick_list(t);
        let h = self.styles.new_handle();
        let ghost r0 = self.styles.rules@;
        let ghost s0 = self.styles.seq;
        let ms = t.transition_ms;
        let mut k: usize = 0;
        while k < picks.len()
            invariant
                k <= picks@.len(),
                picks@ == theme_picks(*t),
                r0 == old(self).styles.rules@,
                s0 == old(self).styles.seq,
                s0 + picks@.len() <= u64::MAX,
                self.styles.seq == s0 + k,
                self.styles.next_handle == old(self).styles.next_handle + 1,
                h == old(self).styles.next_handle,
                self.styles.default_ink == old(self).styles.default_ink,
                self.same_but_styles(old(self)),
                old(self).wf(),
                self.styles.rules@ == r0 + Seq::new(
                    k as nat,
                    |j: int| Rule {
                        handle: h,
                        layer: LAYER_THEME,
                        sel: picks@[j].0,
                        paint: Paint { color: picks@[j].1, transition_ms: ms },
                        seq: (s0 + j + 1) as u64,
                    },
                ),
            decreases picks@.len() - k,
        {
            let (sel, c) = picks[k];
            self.styles.push_under(h, LAYER_THEME, sel, Paint::fade(c, ms));
            proof {
                assert(self.styles.rules@ =~= r0 + Seq::new(
                    (k + 1) as nat,
                    |j: int| Rule {
                        handle: h,
                        layer: LAYER_THEME,
                        sel: picks@[j].0,
                        paint: Paint { color: picks@[j].1, transition_ms: ms },
                        seq: (s0 + j + 1) as u64,
                    },
                ));
            }
            k += 1;
        }
        proof {
            assert forall|j: int| 0 <= j < self.styles.rules@.len() implies (#[trigger] self.styles.rules@[j]).handle
                < self.styles.next_handle && self.styles.rules@[j].seq <= self.styles.seq by {
                if j < r0.len() {
                    assert(self.styles.rules@[j] == r0[j]);
                }
            }
        }
        h
    }
}

proof fn lemma_resolves_bound(ws: Seq<crate::model::WordRec>, ls: Seq<crate::model::LineRec>, t: Target, v: Seq<u32>)
    requires
        resolves_to(ws, ls, t, v),
        ws.len() < u32::MAX,
    ensures
        v.len() <= ws.len(),
{
    let s = v.to_set();
    assert forall|x: u32| #[trigger] s.contains(x) implies x < ws.len() by {
        assert(v.contains(x));
    }
    assert(v.no_duplicates()) by {
        assert forall|i: int, j: int| 0 <= i < v.len() && 0 <= j < v.len() && i != j implies v[i] != v[j] by {
            if i < j {
                assert(v[i] < v[j]);
            } else {
                assert(v[j] < v[i]);
            }
        }
    }
    v.unique_seq_to_set();
    let full = Set::new(|x: u32| x < ws.len());
    assert(s.subset_of(full));
    lemma_range_set(ws.len());
    vstd::set_lib::lemma_len_subset(s, full);
}

proof fn lemma_range_set(n: nat)
    requires
        n < u32::MAX,
    ensures
        Set::new(|x: u32| x < n).finite(),
        Set::new(|x: u32| x < n).len() == n,
    decreases n,
{
    if n == 0 {
        assert(Set::new(|x: u32| x < n) =~= Set::<u32>::empty());
    } else {
        lemma_range_set((n - 1) as nat);
        assert(Set::new(|x: u32| x < n) =~= Set::new(|x: u32| x < (n - 1) as nat).insert((n - 1) as u32));
    }
}

} // verus!
