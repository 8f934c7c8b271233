//! Targets (anything that resolves to a list of word indices in reading order) and whole-word
//! range selection.
use vstd::prelude::*;
use crate::page::Page;
use crate::model::PageData;
use crate::strings::{push_char, push_str};

verus! {

#[derive(Clone, Debug, PartialEq)]
pub enum Target {
    Page,
    Word(u32),
    Words(Vec<u32>),
    /// surah:ayah — all fragments on this page
    Ayah(u16, u16),
    /// inclusive range of ayahs (surah, from, to) on this page
    AyahRange(u16, u16, u16),
    /// printed line number (1-based, as in the file)
    Line(u8),
    Surah(u16),
    /// words from index a to b inclusive, either order
    Range(u32, u32),
}

#[derive(Clone, Copy, Debug, Default, PartialEq, Eq, Structural)]
pub struct Selection {
    pub anchor: Option<u32>,
    pub focus: Option<u32>,
}

/// The consecutive indices `lo..=hi`.
pub open spec fn span(lo: int, hi: int) -> Seq<u32> {
    Seq::new((hi - lo + 1) as nat, |k: int| (lo + k) as u32)
}

impl Selection {
    /// The words a selection covers, in reading order.
    pub open spec fn spec_words(self) -> Seq<u32> {
        match (self.anchor, self.focus) {
            (Some(a), Some(f)) => if a <= f { span(a as int, f as int) } else { span(f as int, a as int) },
            (Some(a), None) => seq![a],
            _ => Seq::empty(),
        }
    }

    pub fn words(&self) -> (v: Vec<u32>)
        ensures
            v@ == self.spec_words(),
    {
        match (self.anchor, self.focus) {
            (Some(a), Some(f)) => {
                let lo = if a < f { a } else { f };
                let hi = if a < f { f } else { a };
                let mut v: Vec<u32> = Vec::new();
                let mut x: u32 = lo;
                loop
                    invariant_except_break
                        lo <= x <= hi,
                        v@ == span(lo as int, x as int - 1),
                    ensures
                        v@ == span(lo as int, hi as int),
                    decreases hi - x,
                {
                    let ghost prev = v@;
                    v.push(x);
                    assert forall|k: int| 0 <= k < v@.len() implies v@[k] == span(lo as int, x as int)[k] by {
                        if k < prev.len() {
                            assert(prev[k] == span(lo as int, x as int - 1)[k]);
                        }
                    }
                    assert(v@ =~= span(lo as int, x as int));
                    if x == hi {
                        break;
                    }
                    x += 1;
                }
                assert(v@ =~= self.spec_words());
                v
            },
            (Some(a), None) => {
                let mut v: Vec<u32> = Vec::new();
                v.push(a);
                assert(v@ =~= seq![a]);
                v
            },
            _ => Vec::new(),
        }
    }

    pub fn is_empty(&self) -> (b: bool)
        ensures
            b == self.anchor is None,
    {
        self.anchor.is_none()
    }
}

/// The decimal digits of a number.
pub open spec fn decimal(n: nat) -> Seq<char>
    decreases n,
{
    if n < 10 {
        seq![(48 + n) as char]
    } else {
        decimal(n / 10).push((48 + n % 10) as char)
    }
}

/// Where the run of ayahs that starts at list position `i` ends, scanning from `j` with the
/// highest ayah so far `a1`: a word of another surah, or one that skips an ayah, ends it.
pub open spec fn run_end(d: &PageData, ws: Seq<u32>, s: u16, a1: u16, j: int) -> (int, u16)
    decreases ws.len() - j,
{
    if j >= ws.len() || j < 0 {
        (j, a1)
    } else {
        let x = d.words@[ws[j] as int];
        if x.surah != s || x.ayah > a1 + 1 {
            (j, a1)
        } else {
            run_end(d, ws, s, if x.ayah > a1 { x.ayah } else { a1 }, j + 1)
        }
    }
}

/// One run written out: "s:a" or "s:a0-a1".
pub open spec fn cite_run(s: u16, a0: u16, a1: u16) -> Seq<char> {
    if a1 == a0 {
        decimal(s as nat) + seq![':'] + decimal(a0 as nat)
    } else {
        decimal(s as nat) + seq![':'] + decimal(a0 as nat) + seq!['-'] + decimal(a1 as nat)
    }
}

/// The citation of the list from position `i` on, appended to `out`.
pub open spec fn cite_from(d: &PageData, ws: Seq<u32>, i: int, out: Seq<char>) -> Seq<char>
    decreases ws.len() - i,
{
    if i >= ws.len() || i < 0 {
        out
    } else {
        let w = d.words@[ws[i] as int];
        let (j, a1) = run_end(d, ws, w.surah, w.ayah, i + 1);
        let sep = if out.len() > 0 { seq![',', ' '] } else { Seq::empty() };
        if i < j <= ws.len() {
            cite_from(d, ws, j, out + sep + cite_run(w.surah, w.ayah, a1))
        } else {
            out
        }
    }
}

/// The digits of a number, appended.
pub fn push_decimal(out: &mut String, n: u16)
    ensures
        final(out)@ == old(out)@ + decimal(n as nat),
    decreases n,
{
    if n >= 10 {
        push_decimal(out, n / 10);
    }
    let c: char = match n % 10 {
        0 => '0',
        1 => '1',
        2 => '2',
        3 => '3',
        4 => '4',
        5 => '5',
        6 => '6',
        7 => '7',
        8 => '8',
        _ => '9',
    };
    proof {
        assert(c == (48 + (n % 10) as nat) as char) by {
            assert(48 + (n % 10) < 0xD800);
        }
    }
    push_char(out, c);
    proof {
        if n >= 10 {
            assert(final(out)@ =~= old(out)@ + decimal(n as nat));
        } else {
            assert(final(out)@ =~= old(out)@ + decimal(n as nat));
        }
    }
}

proof fn lemma_run_end(d: &PageData, ws: Seq<u32>, s: u16, a1: u16, j: int)
    requires
        0 <= j,
    ensures
        j <= run_end(d, ws, s, a1, j).0,
        j <= ws.len() ==> run_end(d, ws, s, a1, j).0 <= ws.len(),
        run_end(d, ws, s, a1, j).1 >= a1,
    decreases ws.len() - j,
{
    if j < ws.len() {
        let x = d.words@[ws[j] as int];
        if !(x.surah != s || x.ayah > a1 + 1) {
            lemma_run_end(d, ws, s, if x.ayah > a1 { x.ayah } else { a1 }, j + 1);
        }
    }
}

/// A run of a citation never crosses a surah: every word it takes in is of its surah, with an
/// ayah no later than where the run ends; the run ends at its highest ayah; and it stops only at
/// the end of the list or at a word of another surah or one that leaves an ayah out.
pub proof fn citation_runs(d: &PageData, ws: Seq<u32>, s: u16, a1: u16, j: int)
    requires
        0 <= j <= ws.len(),
        forall|k: int| 0 <= k < ws.len() ==> 0 <= #[trigger] ws[k] < d.words@.len(),
    ensures
        ({
            let (e, a) = run_end(d, ws, s, a1, j);
            &&& j <= e <= ws.len()
            &&& a1 <= a
            &&& forall|k: int| j <= k < e ==> (#[trigger] d.words@[ws[k] as int]).surah == s
                && d.words@[ws[k] as int].ayah <= a
            &&& (a == a1 || exists|k: int| j <= k < e && #[trigger] d.words@[ws[k] as int].ayah == a)
            &&& (e < ws.len() ==> d.words@[ws[e] as int].surah != s || d.words@[ws[e] as int].ayah > a + 1)
        }),
    decreases ws.len() - j,
{
    if j < ws.len() {
        let x = d.words@[ws[j] as int];
        if !(x.surah != s || x.ayah > a1 + 1) {
            let a2 = if x.ayah > a1 { x.ayah } else { a1 };
            citation_runs(d, ws, s, a2, j + 1);
            let (e, a) = run_end(d, ws, s, a2, j + 1);
            if a != a2 {
                let k = choose|k: int| j + 1 <= k < e && #[trigger] d.words@[ws[k] as int].ayah == a;
                assert(d.words@[ws[k] as int].ayah == a);
            } else if a2 != a1 {
                assert(d.words@[ws[j] as int].ayah == a);
            }
        }
    }
}

impl Page {
    /// "2:255", "2:255-257", "2:286, 3:1-2" for a word list in reading order.
    pub fn citation(&self, words: &[u32]) -> (out: String)
        requires
            self.wf(),
            forall|k: int| 0 <= k < words@.len() ==> #[trigger] words@[k] < self.data.words@.len(),
            forall|k: int| 0 <= k < words@.len() ==> self.data.words@[#[trigger] words@[k] as int].ayah < u16::MAX,
        ensures
            out@ == cite_from(&self.data, words@, 0, Seq::empty()),
    {
        let mut out = String::new();
        let mut i: usize = 0;
        while i < words.len()
            invariant
                self.wf(),
                forall|k: int| 0 <= k < words@.len() ==> #[trigger] words@[k] < self.data.words@.len(),
                forall|k: int| 0 <= k < words@.len() ==> self.data.words@[#[trigger] words@[k] as int].ayah < u16::MAX,
                i <= words@.len(),
                cite_from(&self.data, words@, 0, Seq::empty()) == cite_from(&self.data, words@, i as int, out@),
            decreases words@.len() - i,
        {
            let w = self.data.words[words[i] as usize];
            let s = w.surah;
            let a0 = w.ayah;
            let mut a1 = a0;
            let mut j = i + 1;
            proof {
                assert(self.data.words@[words@[i as int] as int] == w);
            }
            while j < words.len()
                invariant
                    self.wf(),
                    forall|k: int| 0 <= k < words@.len() ==> #[trigger] words@[k] < self.data.words@.len(),
                    forall|k: int| 0 <= k < words@.len() ==> self.data.words@[#[trigger] words@[k] as int].ayah < u16::MAX,
                    i < j <= words@.len(),
                    a1 < u16::MAX,
                    run_end(&self.data, words@, s, a0, i + 1) == run_end(&self.data, words@, s, a1, j as int),
                ensures
                    i < j <= words@.len(),
                    run_end(&self.data, words@, s, a0, i + 1) == (j as int, a1),
                decreases words@.len() - j,
            {
                let x = self.data.words[words[j] as usize];
                proof {
                    assert(self.data.words@[words@[j as int] as int] == x);
                }
                if x.surah != s || x.ayah > a1 + 1 {
                    break;
                }
                if x.ayah > a1 {
                    a1 = x.ayah;
                }
                proof {
                    assert(words@[j as int] < self.data.words@.len());
                    assert(self.data.words@[words@[j as int] as int].ayah < u16::MAX);
                }
                j += 1;
            }
            proof {
                lemma_run_end(&self.data, words@, s, a0, i + 1);
            }
            let ghost before = out@;
            if !out.as_str().is_empty() {
                push_str(&mut out, ", ");
                proof {
                    reveal_strlit(", ");
                }
            }
            push_decimal(&mut out, s);
            push_char(&mut out, ':');
            push_decimal(&mut out, a0);
            if a1 != a0 {
                push_char(&mut out, '-');
                push_decimal(&mut out, a1);
            }
            proof {
                let sep = if before.len() > 0 { seq![',', ' '] } else { Seq::<char>::empty() };
                assert(run_end(&self.data, words@, s, a0, i + 1) == (j as int, a1));
                assert(out@ =~= before + sep + cite_run(s, a0, a1));
            }
            i = j;
        }
        out
    }
}

} // verus!
