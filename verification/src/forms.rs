//! The text forms of a page's words: their lookup with its fallbacks, the text of a word list,
//! interning, and which forms the page carries.
use vstd::prelude::*;
use crate::model::{PageData, WordStrings, NONE_U16};
use crate::page::Page;
use crate::target::last_word_with;
use crate::sidecar::{parse_words_sidecar, sidecar, entries_view, opt_view, FormsView, WordForms};
use crate::strings::{push_char, push_str, text_of_str, same_chars, chars_of};
use vstd::string::StringSliceAdditionalSpecFns;
use crate::style::NONE;
use crate::text::{Form, Match, SearchMode, SearchOptions, match_fold, loose_key_of, normalize_query, loose_key};

verus! {

/// The string index a word holds for a form.
pub open spec fn form_index(t: WordStrings, f: Form) -> u16 {
    match f {
        Form::RasmUthmani => t.text,
        Form::RasmImlai => t.rasm_imlai,
        Form::Qpc => t.qpc,
        Form::Rasm => t.rasm,
        Form::Search => t.search,
    }
}

pub open spec fn texts_of(ss: Seq<String>) -> Seq<Seq<char>> {
    ss.map_values(|s: String| s@)
}

/// A word's text in a form: the form's own string, else the Uthmani text, else nothing.
pub open spec fn form_text(strs: Seq<Seq<char>>, t: WordStrings, f: Form) -> Seq<char> {
    let r = form_index(t, f);
    if r == NONE_U16 {
        if f != Form::RasmUthmani && t.text != NONE_U16 {
            strs[t.text as int]
        } else {
            Seq::empty()
        }
    } else {
        strs[r as int]
    }
}

/// The text of the first `k` words of a list, each in form `f`, joined by `wsep` within a
/// printed line and by `lsep` across lines, with the line of the last word so far.
pub open spec fn joined(d: &PageData, ws: Seq<u32>, f: Form, wsep: Seq<char>, lsep: Seq<char>, k: int) -> (Seq<char>, u32)
    decreases k,
{
    if k <= 0 {
        (Seq::empty(), NONE)
    } else {
        let (o, last) = joined(d, ws, f, wsep, lsep, k - 1);
        let wi = ws[k - 1] as int;
        let line = d.words@[wi].line_index as u32;
        let sep = if o.len() == 0 {
            Seq::empty()
        } else if last != NONE && line != last {
            lsep
        } else {
            wsep
        };
        (o + sep + form_text(texts_of(d.strings@), d.word_strings@[wi], f), line)
    }
}

/// Whether any of the first `k` words carries its own string for a form.
pub open spec fn any_form(ts: Seq<WordStrings>, f: Form, k: int) -> bool {
    exists|i: int| 0 <= i < k && form_index(#[trigger] ts[i], f) != NONE_U16
}

/// The first position at or after `k` where a string is in the table, or the table's end.
pub open spec fn position(strs: Seq<Seq<char>>, s: Seq<char>, k: int) -> int
    decreases strs.len() - k,
{
    if k < 0 || k >= strs.len() {
        strs.len() as int
    } else if strs[k] == s {
        k
    } else {
        position(strs, s, k + 1)
    }
}

/// Where a string is in the table: its first position, or the end where it is appended.
pub open spec fn intern_index(strs: Seq<Seq<char>>, s: Seq<char>) -> int {
    position(strs, s, 0)
}

impl Page {
    /// The index of a string in the page's string table, appending it when it is not there.
    pub fn intern(&mut self, s: &str) -> (i: u16)
        requires
            old(self).wf(),
            old(self).data.strings@.len() < NONE_U16,
        ensures
            final(self).wf(),
            i == intern_index(texts_of(old(self).data.strings@), s@),
            texts_of(final(self).data.strings@) == if i < old(self).data.strings@.len() {
                texts_of(old(self).data.strings@)
            } else {
                texts_of(old(self).data.strings@).push(s@)
            },
            final(self).data.words == old(self).data.words,
            final(self).data.word_strings == old(self).data.word_strings,
            final(self).data.lines == old(self).data.lines,
            final(self).data.ayahs == old(self).data.ayahs,
            final(self).data.paths == old(self).data.paths,
            final(self).data.decorations == old(self).data.decorations,
            final(self).data.quant == old(self).data.quant,
            final(self).data.page == old(self).data.page,
            final(self).path_word == old(self).path_word,
            final(self).path_deco == old(self).path_deco,
            final(self).path_line == old(self).path_line,
            final(self).path_ctx == old(self).path_ctx,
            final(self).styles == old(self).styles,
            final(self).mask == old(self).mask,
            final(self).reveal == old(self).reveal,
            final(self).selection == old(self).selection,
            final(self).state_dirty == old(self).state_dirty,
    {
        let ghost strs = texts_of(self.data.strings@);
        let mut k: usize = 0;
        while k < self.data.strings.len()
            invariant
                *self == *old(self),
                old(self).wf(),
                k <= self.data.strings@.len(),
                strs == texts_of(self.data.strings@),
                intern_index(strs, s@) == position(strs, s@, k as int),
            decreases self.data.strings@.len() - k,
        {
            if same_chars(self.data.strings[k].as_str(), s) {
                proof {
                    assert(strs[k as int] == s@);
                }
                return k as u16;
            }
            k += 1;
        }
        let n = self.data.strings.len();
        self.data.strings.push(text_of_str(s));
        proof {
            assert(texts_of(self.data.strings@) =~= strs.push(s@));
            assert(self.data.wf());
        }
        n as u16
    }

    /// A word's text in a form, falling back to its Uthmani text, then to nothing.
    pub fn word_form(&self, wi: u32, form: Form) -> (s: &str)
        requires
            self.wf(),
            wi < self.data.words@.len(),
        ensures
            s@ == form_text(texts_of(self.data.strings@), self.data.word_strings@[wi as int], form),
    {
        let t = self.data.word_strings[wi as usize];
        assert(self.data.strings_ok(self.data.word_strings@[wi as int]));
        proof {
            reveal_strlit("");
            assert(t.text != NONE_U16 ==> texts_of(self.data.strings@)[t.text as int] == self.data.strings@[t.text as int]@);
        }
        let r = match form {
            Form::RasmUthmani => t.text,
            Form::RasmImlai => t.rasm_imlai,
            Form::Qpc => t.qpc,
            Form::Rasm => t.rasm,
            Form::Search => t.search,
        };
        if r == NONE_U16 {
            if form != Form::RasmUthmani && t.text != NONE_U16 {
                return self.data.strings[t.text as usize].as_str();
            }
            ""
        } else {
            proof {
                assert(texts_of(self.data.strings@)[r as int] == self.data.strings@[r as int]@);
            }
            self.data.strings[r as usize].as_str()
        }
    }

    pub fn word_text(&self, wi: u32) -> (s: &str)
        requires
            self.wf(),
            wi < self.data.words@.len(),
        ensures
            s@ == form_text(texts_of(self.data.strings@), self.data.word_strings@[wi as int], Form::RasmUthmani),
    {
        self.word_form(wi, Form::RasmUthmani)
    }

    /// A decoration's text, or nothing.
    pub fn deco_text(&self, di: u32) -> (s: &str)
        requires
            self.wf(),
            di < self.data.decorations@.len(),
        ensures
            s@ == (if self.data.decorations@[di as int].text == NONE_U16 {
                Seq::<char>::empty()
            } else {
                self.data.strings@[self.data.decorations@[di as int].text as int]@
            }),
    {
        let d = self.data.decorations[di as usize];
        assert(self.data.deco_ok(self.data.decorations@[di as int]));
        proof {
            reveal_strlit("");
        }
        if d.text == NONE_U16 {
            ""
        } else {
            self.data.strings[d.text as usize].as_str()
        }
    }

    /// Text of a word list in reading order, with the mushaf's own line breaks.
    pub fn text_of(&self, words: &[u32], form: Form, word_sep: &str, line_sep: &str) -> (out: String)
        requires
            self.wf(),
            forall|k: int| 0 <= k < words@.len() ==> #[trigger] words@[k] < self.data.words@.len(),
        ensures
            out@ == joined(&self.data, words@, form, word_sep@, line_sep@, words@.len() as int).0,
    {
        let mut out = String::new();
        let mut last_line: u32 = NONE;
        let mut k: usize = 0;
        while k < words.len()
            invariant
                self.wf(),
                forall|j: int| 0 <= j < words@.len() ==> #[trigger] words@[j] < self.data.words@.len(),
                k <= words@.len(),
                (out@, last_line) == joined(&self.data, words@, form, word_sep@, line_sep@, k as int),
            decreases words@.len() - k,
        {
            let wi = words[k];
            let w = self.data.words[wi as usize];
            let line = w.line_index as u32;
            if !out.as_str().is_empty() {
                if last_line != NONE && line != last_line {
                    push_str(&mut out, line_sep);
                } else {
                    push_str(&mut out, word_sep);
                }
            }
            let f = self.word_form(wi, form);
            push_str(&mut out, f);
            last_line = line;
            proof {
                assert(words@[k as int] == wi);
            }
            k += 1;
        }
        out
    }

    /// Whether the page carries a form: the Uthmani text always, any other form when a word
    /// holds its own string for it.
    pub fn has_form(&self, form: Form) -> (b: bool)
        requires
            self.wf(),
        ensures
            b == (form == Form::RasmUthmani || any_form(self.data.word_strings@, form, self.data.word_strings@.len() as int)),
    {
        if form == Form::RasmUthmani {
            return true;
        }
        let ts = &self.data.word_strings;
        let mut k: usize = 0;
        while k < ts.len()
            invariant
                ts == &self.data.word_strings,
                form != Form::RasmUthmani,
                k <= ts@.len(),
                !any_form(ts@, form, k as int),
            decreases ts@.len() - k,
        {
            let t = ts[k];
            let r = match form {
                Form::RasmUthmani => t.text,
                Form::RasmImlai => t.rasm_imlai,
                Form::Qpc => t.qpc,
                Form::Rasm => t.rasm,
                Form::Search => t.search,
            };
            if r != NONE_U16 {
                assert(form_index(ts@[k as int], form) != NONE_U16);
                return true;
            }
            k += 1;
        }
        false
    }
}

/// The first position at or after `p` where `q` occurs in `v`.
pub open spec fn find_from(v: Seq<char>, q: Seq<char>, p: int) -> Option<int>
    decreases v.len() - p,
{
    if p < 0 || p + q.len() > v.len() {
        None
    } else if v.subrange(p, p + q.len()) == q {
        Some(p)
    } else if p >= v.len() {
        None
    } else {
        find_from(v, q, p + 1)
    }
}

/// Where a query hits a word's value: at its start for an exact or prefix match, else at the
/// byte offset of its first occurrence.
pub open spec fn hit_index(v: Seq<char>, q: Seq<char>, mode: SearchMode) -> Option<usize> {
    match mode {
        SearchMode::Exact => if v == q { Some(0usize) } else { None },
        SearchMode::Prefix => if q.len() <= v.len() && v.take(q.len() as int) == q { Some(0usize) } else { None },
        SearchMode::Includes => match find_from(v, q, 0) {
            Some(p) => Some(vstd::utf8::encode_utf8(v.take(p)).len() as usize),
            None => None,
        },
    }
}

/// The value a word is searched by in a pass.
pub open spec fn search_value(raw: Seq<char>, normalize: bool, loose: bool) -> Seq<char> {
    if loose {
        loose_key_of(raw)
    } else if normalize {
        match_fold(raw)
    } else {
        raw
    }
}

/// The matches one pass finds among the first `k` words; a pass stops once it has made a match
/// that brings it to the limit.
pub open spec fn pass_matches(d: &PageData, q: Seq<char>, opt: SearchOptions, loose: bool, k: int) -> Seq<Match>
    decreases k,
{
    if k <= 0 {
        Seq::empty()
    } else {
        let prev = pass_matches(d, q, opt, loose, k - 1);
        if prev.len() > 0 && prev.len() >= opt.limit {
            prev
        } else {
            let raw = form_text(texts_of(d.strings@), d.word_strings@[k - 1], opt.form);
            match hit_index(search_value(raw, opt.normalize, loose), q, opt.mode) {
                Some(ix) => prev.push(Match { word: (k - 1) as u32, index: ix, loose }),
                None => prev,
            }
        }
    }
}

/// What a search finds: the strict pass over the query as given (normalised when asked), and
/// when that finds nothing and a loose pass is allowed, the loose pass over the query's loose key.
pub open spec fn search_matches(d: &PageData, query: Seq<char>, opt: SearchOptions) -> Seq<Match> {
    let sq = if opt.normalize { match_fold(query) } else { query };
    let n = d.words@.len() as int;
    if sq.len() == 0 {
        Seq::empty()
    } else {
        let first = pass_matches(d, sq, opt, false, n);
        if first.len() == 0 && opt.loose {
            let lq = loose_key_of(query);
            if lq.len() == 0 {
                Seq::empty()
            } else {
                pass_matches(d, lq, opt, true, n)
            }
        } else {
            first
        }
    }
}

/// The first occurrence of `q` in `v`, as a character position.
fn find_chars(v: &Vec<char>, q: &Vec<char>) -> (r: Option<usize>)
    ensures
        match r {
            Some(p) => find_from(v@, q@, 0) == Some(p as int) && p + q@.len() <= v@.len(),
            None => find_from(v@, q@, 0) is None,
        },
{
    if q.len() > v.len() {
        return None;
    }
    let last = v.len() - q.len();
    let mut p: usize = 0;
    loop
        invariant_except_break
            last == v@.len() - q@.len(),
            p <= last,
            find_from(v@, q@, 0) == find_from(v@, q@, p as int),
        ensures
            find_from(v@, q@, 0) is None,
        decreases last - p,
    {
        let mut j: usize = 0;
        let mut same = true;
        let vl = v.len();
        while j < q.len()
            invariant
                vl == v@.len(),
                p + q@.len() <= v@.len(),
                j <= q@.len(),
                same == forall|t: int| 0 <= t < j ==> v@[p + t] == q@[t],
            decreases q@.len() - j,
        {
            assert(p + j < v@.len());
            if v[p + j] != q[j] {
                same = false;
            }
            j += 1;
        }
        if same {
            assert(v@.subrange(p as int, p + q@.len()) =~= q@);
            return Some(p);
        }
        assert(v@.subrange(p as int, p + q@.len()) != q@) by {
            let t = choose|t: int| 0 <= t < q@.len() && v@[p + t] != q@[t];
            assert(v@.subrange(p as int, p + q@.len())[t] != q@[t]);
        }
        if p == last {
            assert(find_from(v@, q@, p + 1) is None);
            break;
        }
        p += 1;
    }
    None
}

/// The byte length of the first `p` characters.
fn prefix_bytes(v: &Vec<char>, p: usize) -> (n: usize)
    requires
        p <= v@.len(),
    ensures
        n == vstd::utf8::encode_utf8(v@.take(p as int)).len() as usize,
{
    let mut s = String::new();
    let mut k: usize = 0;
    while k < p
        invariant
            k <= p <= v@.len(),
            s@ == v@.take(k as int),
        decreases p - k,
    {
        push_char(&mut s, v[k]);
        assert(v@.take(k + 1) =~= v@.take(k as int).push(v@[k as int]));
        k += 1;
    }
    s.as_str().len()
}

/// Where a query hits a value.
fn hit(v: &str, q: &str, mode: SearchMode) -> (r: Option<usize>)
    ensures
        r == hit_index(v@, q@, mode),
{
    let vc = chars_of(v);
    let qc = chars_of(q);
    match mode {
        SearchMode::Exact => if same_chars(v, q) { Some(0) } else { None },
        SearchMode::Prefix => {
            if qc.len() > vc.len() {
                return None;
            }
            let mut j: usize = 0;
            while j < qc.len()
                invariant
                    mode == SearchMode::Prefix,
                    qc@ == q@,
                    vc@ == v@,
                    qc@.len() <= vc@.len(),
                    j <= qc@.len(),
                    forall|t: int| 0 <= t < j ==> vc@[t] == qc@[t],
                decreases qc@.len() - j,
            {
                if vc[j] != qc[j] {
                    assert(v@.take(q@.len() as int)[j as int] != q@[j as int]);
                    return None;
                }
                j += 1;
            }
            assert(v@.take(q@.len() as int) =~= q@);
            Some(0)
        },
        SearchMode::Includes => match find_chars(&vc, &qc) {
            Some(p) => Some(prefix_bytes(&vc, p)),
            None => None,
        },
    }
}

impl Page {
    /// One pass of a search over every word, with query `q`.
    fn search_pass(&self, q: &str, opt: &SearchOptions, loose: bool, out: &mut Vec<Match>)
        requires
            self.wf(),
            old(out)@.len() == 0,
        ensures
            final(out)@ == pass_matches(&self.data, q@, *opt, loose, self.data.words@.len() as int),
    {
        let n = self.data.words.len();
        let mut wi: usize = 0;
        while wi < n
            invariant
                self.wf(),
                n == self.data.words@.len(),
                wi <= n,
                out@ == pass_matches(&self.data, q@, *opt, loose, wi as int),
                out@.len() == 0 || out@.len() < opt.limit,
            decreases n - wi,
        {
            let raw = self.word_form(wi as u32, opt.form);
            let v: String = if loose {
                loose_key(raw)
            } else if opt.normalize {
                normalize_query(raw)
            } else {
                text_of_str(raw)
            };
            let h = hit(v.as_str(), q, opt.mode);
            match h {
                Some(index) => {
                    out.push(Match { word: wi as u32, index, loose });
                    if out.len() >= opt.limit {
                        proof {
                            lemma_pass_stops(&self.data, q@, *opt, loose, wi as int + 1, n as int);
                        }
                        return;
                    }
                },
                None => {},
            }
            wi += 1;
        }
    }

    /// Search the page's words for a query in one form: exact, prefix or anywhere in the word,
    /// normalised unless asked not to, with a loose retry when the strict pass finds nothing.
    pub fn search(&self, query: &str, opt: &SearchOptions) -> (out: Vec<Match>)
        requires
            self.wf(),
        ensures
            out@ == search_matches(&self.data, query@, *opt),
    {
        let mut out: Vec<Match> = Vec::new();
        let strict_q = if opt.normalize { normalize_query(query) } else { text_of_str(query) };
        if strict_q.as_str().is_empty() {
            return out;
        }
        self.search_pass(strict_q.as_str(), opt, false, &mut out);
        if out.len() == 0 && opt.loose {
            let lq = loose_key(query);
            if !lq.as_str().is_empty() {
                self.search_pass(lq.as_str(), opt, true, &mut out);
            }
        }
        out
    }
}

/// Once a pass has reached its limit after `k` words, it stays as it is.
proof fn lemma_pass_stops(d: &PageData, q: Seq<char>, opt: SearchOptions, loose: bool, k: int, m: int)
    requires
        pass_matches(d, q, opt, loose, k).len() > 0,
        pass_matches(d, q, opt, loose, k).len() >= opt.limit,
        0 <= k <= m,
    ensures
        forall|j: int| k <= j <= m ==> #[trigger] pass_matches(d, q, opt, loose, j) == pass_matches(d, q, opt, loose, k),
    decreases m - k,
{
    if k < m {
        lemma_pass_stops(d, q, opt, loose, k, m - 1);
        assert(pass_matches(d, q, opt, loose, m) == pass_matches(d, q, opt, loose, m - 1));
    }
}

/// The ':'-separated pieces of a word id, as `split(':')` gives them.
pub open spec fn pieces(s: Seq<char>) -> Seq<Seq<char>>
    decreases s.len(),
{
    if s.len() == 0 {
        seq![Seq::<char>::empty()]
    } else {
        let ps = pieces(s.drop_last());
        if s.last() == ':' {
            ps.push(Seq::empty())
        } else {
            ps.update(ps.len() - 1, ps.last().push(s.last()))
        }
    }
}

pub open spec fn is_digit(c: char) -> bool {
    '0' <= c <= '9'
}

pub open spec fn all_digits(s: Seq<char>) -> bool {
    forall|i: int| 0 <= i < s.len() ==> is_digit(#[trigger] s[i])
}

pub open spec fn digits_value(s: Seq<char>) -> nat
    decreases s.len(),
{
    if s.len() == 0 {
        0
    } else {
        digits_value(s.drop_last()) * 10 + ((s.last() as u32) - 48) as nat
    }
}

/// A `u16` written in decimal, with an optional leading '+', as `str::parse::<u16>` reads it.
pub open spec fn parse_u16(p: Seq<char>) -> Option<u16> {
    let ds = if p.len() > 0 && p[0] == '+' { p.drop_first() } else { p };
    if ds.len() > 0 && all_digits(ds) && digits_value(ds) <= 0xffff {
        Some(digits_value(ds) as u16)
    } else {
        None
    }
}

/// The `i`-th number of a word id "s:a:w": 0 where the piece is missing or no number.
pub open spec fn key_field(s: Seq<char>, i: int) -> u16 {
    let ps = pieces(s);
    if i < ps.len() {
        match parse_u16(ps[i]) {
            Some(v) => v,
            None => 0,
        }
    } else {
        0
    }
}

proof fn lemma_position(strs: Seq<Seq<char>>, s: Seq<char>, k: int)
    requires
        0 <= k,
    ensures
        k <= strs.len() ==> k <= position(strs, s, k) <= strs.len(),
        position(strs, s, k) < strs.len() ==> strs[position(strs, s, k)] == s,
    decreases strs.len() - k,
{
    if k < strs.len() && strs[k] != s {
        lemma_position(strs, s, k + 1);
    }
}

proof fn lemma_intern_index(strs: Seq<Seq<char>>, s: Seq<char>)
    ensures
        0 <= intern_index(strs, s) <= strs.len(),
        intern_index(strs, s) < strs.len() ==> strs[intern_index(strs, s)] == s,
{
    lemma_position(strs, s, 0);
}

pub open spec fn intern_spec(strs: Seq<Seq<char>>, s: Seq<char>) -> (Seq<Seq<char>>, u16) {
    let i = intern_index(strs, s);
    (if i < strs.len() { strs } else { strs.push(s) }, i as u16)
}

pub open spec fn set_form(t: WordStrings, f: Form, i: u16) -> WordStrings {
    match f {
        Form::RasmUthmani => WordStrings { text: i, ..t },
        Form::RasmImlai => WordStrings { rasm_imlai: i, ..t },
        Form::Qpc => WordStrings { qpc: i, ..t },
        Form::Rasm => WordStrings { rasm: i, ..t },
        Form::Search => WordStrings { search: i, ..t },
    }
}

/// One form attached: the value interned and its index put in the form's slot.
pub open spec fn attach_one(strs: Seq<Seq<char>>, t: WordStrings, f: Form, v: Option<Seq<char>>) -> (Seq<Seq<char>>, WordStrings) {
    match v {
        Some(x) => {
            let (s2, i) = intern_spec(strs, x);
            (s2, set_form(t, f, i))
        },
        None => (strs, t),
    }
}

/// A word's five forms attached in order.
pub open spec fn attach_all(strs: Seq<Seq<char>>, t: WordStrings, fv: FormsView) -> (Seq<Seq<char>>, WordStrings) {
    let (s1, t1) = attach_one(strs, t, Form::RasmUthmani, fv.0);
    let (s2, t2) = attach_one(s1, t1, Form::RasmImlai, fv.1);
    let (s3, t3) = attach_one(s2, t2, Form::Qpc, fv.2);
    let (s4, t4) = attach_one(s3, t3, Form::Rasm, fv.3);
    attach_one(s4, t4, Form::Search, fv.4)
}

/// The string table, the words' form indices and the count of words updated after the first
/// `k` entries of a sidecar; an entry whose id names no word of the page is skipped.
pub open spec fn attached(
    ws: Seq<crate::model::WordRec>,
    strs: Seq<Seq<char>>,
    tss: Seq<WordStrings>,
    es: Seq<(Seq<char>, FormsView)>,
    k: int,
) -> (Seq<Seq<char>>, Seq<WordStrings>, nat)
    decreases k,
{
    if k <= 0 {
        (strs, tss, 0)
    } else {
        let (s1, t1, n1) = attached(ws, strs, tss, es, k - 1);
        let (key, fv) = es[k - 1];
        match last_word_with(ws, key_field(key, 0), key_field(key, 1), key_field(key, 2), ws.len() as int) {
            None => (s1, t1, n1),
            Some(wi) => {
                let (s2, t2) = attach_all(s1, t1[wi], fv);
                (s2, t1.update(wi, t2), n1 + 1)
            },
        }
    }
}

/// The pieces of a word id.
fn split_key(s: &str) -> (ps: Vec<Vec<char>>)
    ensures
        ps@.len() == pieces(s@).len(),
        forall|i: int| 0 <= i < ps@.len() ==> #[trigger] ps@[i]@ == pieces(s@)[i],
{
    let cs = chars_of(s);
    let mut ps: Vec<Vec<char>> = Vec::new();
    ps.push(Vec::new());
    let mut k: usize = 0;
    assert(s@.take(0) =~= Seq::<char>::empty());
    while k < cs.len()
        invariant
            cs@ == s@,
            k <= cs@.len(),
            ps@.len() == pieces(s@.take(k as int)).len(),
            ps@.len() >= 1,
            forall|i: int| 0 <= i < ps@.len() ==> #[trigger] ps@[i]@ == pieces(s@.take(k as int))[i],
        decreases cs@.len() - k,
    {
        let c = cs[k];
        let ghost prev = pieces(s@.take(k as int));
        assert(s@.take(k + 1).drop_last() =~= s@.take(k as int));
        assert(s@.take(k + 1).last() == c);
        if c == ':' {
            ps.push(Vec::new());
        } else {
            let last = ps.len() - 1;
            let mut cur = ps.pop().unwrap();
            cur.push(c);
            ps.push(cur);
            proof {
                assert(ps@.len() == prev.len());
            }
        }
        proof {
            let now = pieces(s@.take(k + 1));
            assert forall|i: int| 0 <= i < ps@.len() implies #[trigger] ps@[i]@ == now[i] by {}
        }
        k += 1;
    }
    assert(s@.take(cs@.len() as int) =~= s@);
    ps
}

proof fn lemma_digits_grow(s: Seq<char>, c: char)
    requires
        is_digit(c),
    ensures
        digits_value(s.push(c)) >= digits_value(s),
        digits_value(s.push(c)) == digits_value(s) * 10 + ((c as u32) - 48) as nat,
{
    assert(s.push(c).drop_last() =~= s);
}

/// A piece read as a `u16`, or None.
pub fn parse_u16_chars(p: &Vec<char>) -> (r: Option<u16>)
    ensures
        r == parse_u16(p@),
{
    let mut start: usize = 0;
    if p.len() > 0 && p[0] == '+' {
        start = 1;
    }
    let ghost ds = if p@.len() > 0 && p@[0] == '+' { p@.drop_first() } else { p@ };
    if start >= p.len() {
        assert(ds.len() == 0);
        return None;
    }
    let mut value: u32 = 0;
    let mut big = false;
    let mut k: usize = start;
    while k < p.len()
        invariant
            start <= k <= p@.len(),
            ds == (if p@.len() > 0 && p@[0] == '+' { p@.drop_first() } else { p@ }),
            ds == p@.subrange(start as int, p@.len() as int),
            forall|i: int| start <= i < k ==> is_digit(#[trigger] p@[i]),
            !big ==> value == digits_value(p@.subrange(start as int, k as int)) && value <= 0xffff,
            big ==> digits_value(p@.subrange(start as int, k as int)) > 0xffff,
        decreases p@.len() - k,
    {
        let c = p[k];
        if !('0' <= c && c <= '9') {
            proof {
                assert(ds[k - start] == c);
                assert(!is_digit(ds[k - start]));
                assert(!all_digits(ds));
            }
            return None;
        }
        proof {
            assert(p@.subrange(start as int, k + 1) =~= p@.subrange(start as int, k as int).push(c));
            lemma_digits_grow(p@.subrange(start as int, k as int), c);
        }
        if !big {
            let d = (c as u32) - 48;
            let nv = value * 10 + d;
            if nv > 0xffff {
                big = true;
            } else {
                value = nv;
            }
        }
        k += 1;
    }
    assert(p@.subrange(start as int, p@.len() as int) == ds);
    assert forall|i: int| 0 <= i < ds.len() implies is_digit(#[trigger] ds[i]) by {
        assert(ds[i] == p@[start + i]);
    }
    assert(all_digits(ds));
    if big {
        None
    } else {
        Some(value as u16)
    }
}

/// The numbers of a word id "s:a:w".
fn key_numbers(key: &str) -> (r: (u16, u16, u16))
    ensures
        r == (key_field(key@, 0), key_field(key@, 1), key_field(key@, 2)),
{
    let ps = split_key(key);
    let a = if ps.len() > 0 { match parse_u16_chars(&ps[0]) { Some(v) => v, None => 0 } } else { 0 };
    let b = if ps.len() > 1 { match parse_u16_chars(&ps[1]) { Some(v) => v, None => 0 } } else { 0 };
    let c = if ps.len() > 2 { match parse_u16_chars(&ps[2]) { Some(v) => v, None => 0 } } else { 0 };
    (a, b, c)
}

impl Page {
    /// Attach one form of word `wi`.
    fn attach_form(&mut self, wi: usize, f: Form, v: &Option<String>)
        requires
            old(self).wf(),
            wi < old(self).data.words@.len(),
            old(self).data.strings@.len() < NONE_U16,
        ensures
            final(self).wf(),
            (texts_of(final(self).data.strings@), final(self).data.word_strings@[wi as int]) == attach_one(
                texts_of(old(self).data.strings@),
                old(self).data.word_strings@[wi as int],
                f,
                opt_view(*v),
            ),
            final(self).data.word_strings@ == old(self).data.word_strings@.update(
                wi as int,
                final(self).data.word_strings@[wi as int],
            ),
            final(self).data.strings@.len() <= old(self).data.strings@.len() + 1,
            final(self).data.words == old(self).data.words,
            final(self).data.lines == old(self).data.lines,
            final(self).data.ayahs == old(self).data.ayahs,
            final(self).data.paths == old(self).data.paths,
            final(self).data.decorations == old(self).data.decorations,
            final(self).data.quant == old(self).data.quant,
            final(self).data.page == old(self).data.page,
            final(self).path_word == old(self).path_word,
            final(self).path_deco == old(self).path_deco,
            final(self).path_line == old(self).path_line,
            final(self).path_ctx == old(self).path_ctx,
            final(self).styles == old(self).styles,
            final(self).mask == old(self).mask,
            final(self).reveal == old(self).reveal,
            final(self).selection == old(self).selection,
            final(self).state_dirty == old(self).state_dirty,
    {
        match v {
            Some(x) => {
                let ghost strs0 = texts_of(self.data.strings@);
                proof {
                    lemma_intern_index(strs0, x@);
                    assert(self.data.strings_ok(self.data.word_strings@[wi as int]));
                }
                let i = self.intern(x.as_str());
                proof {
                    assert(texts_of(self.data.strings@).len() == self.data.strings@.len());
                    assert(strs0.len() == old(self).data.strings@.len());
                }
                let mut t = self.data.word_strings[wi];
                match f {
                    Form::RasmUthmani => t.text = i,
                    Form::RasmImlai => t.rasm_imlai = i,
                    Form::Qpc => t.qpc = i,
                    Form::Rasm => t.rasm = i,
                    Form::Search => t.search = i,
                }
                proof {
                    assert(self.data.strings_ok(self.data.word_strings@[wi as int]));
                }
                self.data.word_strings.set(wi, t);
                proof {
                    assert forall|k: int| 0 <= k < self.data.words@.len() implies self.data.strings_ok(
                        #[trigger] self.data.word_strings@[k],
                    ) by {}
                }
            },
            None => {},
        }
    }

    /// Attach text forms (rasm_uthmani / rasm_imlai / qpc / rasm / search) for words of this
    /// page, keyed by word id "s:a:w". Returns the number of entries that named a word of the
    /// page. Forms already on a word are kept unless the entry gives a value.
    pub fn attach_forms(&mut self, forms: &Vec<(String, WordForms)>) -> (n: usize)
        requires
            old(self).wf(),
            old(self).data.strings@.len() + 5 * forms@.len() < NONE_U16,
        ensures
            final(self).wf(),
            (texts_of(final(self).data.strings@), final(self).data.word_strings@, n as nat) == attached(
                old(self).data.words@,
                texts_of(old(self).data.strings@),
                old(self).data.word_strings@,
                entries_view(forms@),
                forms@.len() as int,
            ),
            final(self).data.words == old(self).data.words,
            final(self).path_ctx == old(self).path_ctx,
            final(self).styles == old(self).styles,
            final(self).mask == old(self).mask,
    {
        let ghost es = entries_view(forms@);
        let mut n: usize = 0;
        let mut k: usize = 0;
        while k < forms.len()
            invariant
                self.wf(),
                es == entries_view(forms@),
                k <= forms@.len(),
                n <= k,
                self.data.strings@.len() + 5 * (forms@.len() - k) < NONE_U16,
                (texts_of(self.data.strings@), self.data.word_strings@, n as nat) == attached(
                    old(self).data.words@,
                    texts_of(old(self).data.strings@),
                    old(self).data.word_strings@,
                    es,
                    k as int,
                ),
                self.data.words == old(self).data.words,
                self.path_ctx == old(self).path_ctx,
                self.styles == old(self).styles,
                self.mask == old(self).mask,
            decreases forms@.len() - k,
        {
            let (s, a, w) = key_numbers(forms[k].0.as_str());
            let f = &forms[k].1;
            proof {
                assert(es[k as int] == (forms@[k as int].0@, forms@[k as int].1@));
            }
            proof {
                crate::target::lemma_last_word_with(self.data.words@, s, a, w, self.data.words@.len() as int);
            }
            match self.find_word(s, a, w) {
                None => {},
                Some(wi) => {
                    let wi = wi as usize;
                    self.attach_form(wi, Form::RasmUthmani, &f.rasm_uthmani);
                    self.attach_form(wi, Form::RasmImlai, &f.rasm_imlai);
                    self.attach_form(wi, Form::Qpc, &f.qpc);
                    self.attach_form(wi, Form::Rasm, &f.rasm);
                    self.attach_form(wi, Form::Search, &f.search);
                    n += 1;
                },
            }
            k += 1;
        }
        n
    }

    /// Attach a JSON sidecar (see `parse_words_sidecar`). Returns the words updated, or None when
    /// the sidecar does not parse.
    pub fn attach_words_json(&mut self, json: &[u8]) -> (r: Option<usize>)
        requires
            old(self).wf(),
            sidecar(json@) matches Some(es) ==> old(self).data.strings@.len() + 5 * es.len() < NONE_U16,
        ensures
            final(self).wf(),
            r is None <==> sidecar(json@) is None,
            r is None ==> final(self).data.strings == old(self).data.strings
                && final(self).data.word_strings == old(self).data.word_strings,
            sidecar(json@) matches Some(es) ==> r matches Some(n) && (
                texts_of(final(self).data.strings@),
                final(self).data.word_strings@,
                n as nat,
            ) == attached(
                old(self).data.words@,
                texts_of(old(self).data.strings@),
                old(self).data.word_strings@,
                es,
                es.len() as int,
            ),
    {
        match parse_words_sidecar(json) {
            None => None,
            Some(forms) => {
                proof {
                    assert(entries_view(forms@).len() == forms@.len());
                }
                Some(self.attach_forms(&forms))
            },
        }
    }
}

/// `q` opens `v`.
pub open spec fn starts_with(v: Seq<char>, q: Seq<char>) -> bool {
    q.len() <= v.len() && forall|i: int| 0 <= i < q.len() ==> v[i] == q[i]
}

/// An exact search hits a value only when it is the query, and a prefix search only when the
/// query opens the value; either hit is at the value's start.
pub proof fn whole_and_prefix_hits(v: Seq<char>, q: Seq<char>)
    ensures
        hit_index(v, q, SearchMode::Exact) is Some ==> hit_index(v, q, SearchMode::Exact) == Some(0usize),
        hit_index(v, q, SearchMode::Exact) == Some(0usize) <==> (v.len() == q.len() && forall|i: int|
            0 <= i < q.len() ==> v[i] == q[i]),
        hit_index(v, q, SearchMode::Prefix) is Some ==> hit_index(v, q, SearchMode::Prefix) == Some(0usize),
        hit_index(v, q, SearchMode::Prefix) == Some(0usize) <==> starts_with(v, q),
{
    if v.len() == q.len() && forall|i: int| 0 <= i < q.len() ==> v[i] == q[i] {
        assert(v =~= q);
    }
    if starts_with(v, q) {
        assert(v.take(q.len() as int) =~= q);
    }
    if q.len() <= v.len() && v.take(q.len() as int) == q {
        assert forall|i: int| 0 <= i < q.len() implies v[i] == q[i] by {
            assert(v.take(q.len() as int)[i] == v[i]);
        }
    }
}

/// The value word `w` is searched by in a pass.
pub open spec fn word_value(d: &PageData, opt: SearchOptions, loose: bool, w: int) -> Seq<char> {
    search_value(form_text(texts_of(d.strings@), d.word_strings@[w], opt.form), opt.normalize, loose)
}

/// A prefix pass over the first `k` words finds, in reading order and at index 0, only words whose
/// value the query opens; and when it stopped short of its limit it found every such word.
pub proof fn prefix_pass(d: &PageData, q: Seq<char>, opt: SearchOptions, loose: bool, k: int)
    requires
        opt.mode == SearchMode::Prefix,
        0 <= k <= d.words@.len(),
        d.words@.len() < u32::MAX,
        d.word_strings@.len() == d.words@.len(),
    ensures
        ({
            let r = pass_matches(d, q, opt, loose, k);
            &&& forall|i: int| 0 <= i < r.len() ==> {
                &&& 0 <= (#[trigger] r[i]).word < k
                &&& r[i].index == 0
                &&& r[i].loose == loose
                &&& starts_with(word_value(d, opt, loose, r[i].word as int), q)
            }
            &&& forall|i: int, j: int| 0 <= i < j < r.len() ==> (#[trigger] r[i]).word < (#[trigger] r[j]).word
            &&& (r.len() == 0 || r.len() < opt.limit) ==> forall|w: int|
                0 <= w < k && starts_with(#[trigger] word_value(d, opt, loose, w), q) ==> exists|i: int|
                    0 <= i < r.len() && r[i].word == w
        }),
    decreases k,
{
    if k > 0 {
        prefix_pass(d, q, opt, loose, k - 1);
        let prev = pass_matches(d, q, opt, loose, k - 1);
        let r = pass_matches(d, q, opt, loose, k);
        let v = word_value(d, opt, loose, k - 1);
        whole_and_prefix_hits(v, q);
        if !(prev.len() > 0 && prev.len() >= opt.limit) {
            if starts_with(v, q) {
                assert(r == prev.push(Match { word: (k - 1) as u32, index: 0, loose }));
                assert forall|w: int|
                    0 <= w < k && starts_with(#[trigger] word_value(d, opt, loose, w), q) && (r.len() == 0
                        || r.len() < opt.limit) implies exists|i: int| 0 <= i < r.len() && r[i].word == w by {
                    if w == k - 1 {
                        assert(r[prev.len() as int].word == w);
                    } else {
                        let i = choose|i: int| 0 <= i < prev.len() && prev[i].word == w;
                        assert(r[i] == prev[i]);
                    }
                }
            } else {
                assert(r == prev);
            }
        }
    }
}

/// A prefix search finds, at index 0, only words whose value the query opens (its match fold
/// when normalising, or for a loose match the loose key of the query); and when it found fewer
/// than its limit, it found every word whose value the query opens.
pub proof fn prefix_search(d: &PageData, query: Seq<char>, opt: SearchOptions)
    requires
        opt.mode == SearchMode::Prefix,
        d.words@.len() < u32::MAX,
        d.word_strings@.len() == d.words@.len(),
    ensures
        ({
            let r = search_matches(d, query, opt);
            let sq = if opt.normalize { match_fold(query) } else { query };
            &&& forall|i: int| 0 <= i < r.len() ==> {
                &&& 0 <= (#[trigger] r[i]).word < d.words@.len()
                &&& r[i].index == 0
                &&& (!r[i].loose ==> starts_with(word_value(d, opt, false, r[i].word as int), sq))
                &&& (r[i].loose ==> starts_with(word_value(d, opt, true, r[i].word as int), loose_key_of(query)))
            }
            &&& (sq.len() > 0 && r.len() < opt.limit) ==> forall|w: int|
                0 <= w < d.words@.len() && starts_with(#[trigger] word_value(d, opt, false, w), sq) ==> exists|i: int|
                    0 <= i < r.len() && r[i].word == w && !r[i].loose
        }),
{
    let n = d.words@.len() as int;
    let sq = if opt.normalize { match_fold(query) } else { query };
    prefix_pass(d, sq, opt, false, n);
    prefix_pass(d, loose_key_of(query), opt, true, n);
    let first = pass_matches(d, sq, opt, false, n);
    let r = search_matches(d, query, opt);
    if sq.len() > 0 && r.len() < opt.limit {
        assert forall|w: int|
            0 <= w < n && starts_with(#[trigger] word_value(d, opt, false, w), sq) implies exists|i: int|
                0 <= i < r.len() && r[i].word == w && !r[i].loose by {
            if first.len() == 0 {
                assert(exists|i: int| 0 <= i < first.len() && first[i].word == w);
            }
            assert(r == first);
            let i = choose|i: int| 0 <= i < first.len() && first[i].word == w;
            assert(!first[i].loose);
        }
    }
}

/// `q` stands in `v` from character `p` on.
pub open spec fn occurs_at(v: Seq<char>, q: Seq<char>, p: int) -> bool {
    0 <= p && p + q.len() <= v.len() && forall|i: int| 0 <= i < q.len() ==> v[p + i] == q[i]
}

proof fn lemma_find_from(v: Seq<char>, q: Seq<char>, p0: int)
    requires
        0 <= p0,
    ensures
        find_from(v, q, p0) matches Some(p) ==> p0 <= p && occurs_at(v, q, p) && forall|p2: int|
            p0 <= p2 < p ==> !occurs_at(v, q, p2),
        find_from(v, q, p0) is None ==> forall|p2: int| p0 <= p2 ==> !occurs_at(v, q, p2),
    decreases v.len() - p0,
{
    if p0 + q.len() > v.len() {
    } else if v.subrange(p0, p0 + q.len()) == q {
        assert forall|i: int| 0 <= i < q.len() implies v[p0 + i] == q[i] by {
            assert(v.subrange(p0, p0 + q.len())[i] == v[p0 + i]);
        }
    } else {
        if occurs_at(v, q, p0) {
            assert(v.subrange(p0, p0 + q.len()) =~= q);
        }
        if p0 < v.len() {
            lemma_find_from(v, q, p0 + 1);
        } else {
            assert forall|p2: int| p0 <= p2 implies !occurs_at(v, q, p2) by {
                if p2 > p0 {
                    assert(p2 + q.len() > v.len());
                }
            }
        }
    }
}

/// An includes search hits a value when, and only when, the query stands in it; the hit is the
/// byte offset of the first place it stands.
pub proof fn includes_hits(v: Seq<char>, q: Seq<char>)
    ensures
        hit_index(v, q, SearchMode::Includes) is None <==> forall|p: int| !occurs_at(v, q, p),
        hit_index(v, q, SearchMode::Includes) matches Some(ix) ==> exists|p: int|
            occurs_at(v, q, p) && (forall|p2: int| 0 <= p2 < p ==> !occurs_at(v, q, p2)) && ix
                == vstd::utf8::encode_utf8(v.take(p)).len() as usize,
{
    lemma_find_from(v, q, 0);
    if let Some(p) = find_from(v, q, 0) {
        assert(occurs_at(v, q, p));
    } else {
        assert forall|p: int| !occurs_at(v, q, p) by {
            if p >= 0 {
                assert(!occurs_at(v, q, p));
            }
        }
    }
}

/// A number written in decimal reads back as itself: its digits are decimal digits, with no
/// leading zero, and `str::parse::<u16>` would read a `u16` so written as that number.
pub proof fn decimal_reads_back(n: nat)
    ensures
        crate::selection::decimal(n).len() > 0,
        all_digits(crate::selection::decimal(n)),
        digits_value(crate::selection::decimal(n)) == n,
        n > 0 ==> crate::selection::decimal(n)[0] != '0',
        n <= 0xffff ==> parse_u16(crate::selection::decimal(n)) == Some(n as u16),
    decreases n,
{
    let d = crate::selection::decimal(n);
    if n < 10 {
        assert(((48 + n) as char) as u32 == 48 + n);
        assert(d.drop_last() =~= Seq::<char>::empty());
        assert(digits_value(d.drop_last()) == 0);
        assert(d.last() == (48 + n) as char);
        assert(digits_value(d) == digits_value(d.drop_last()) * 10 + ((d.last() as u32) - 48) as nat);
    } else {
        decimal_reads_back(n / 10);
        let p = crate::selection::decimal(n / 10);
        let c = (48 + n % 10) as char;
        assert(c as u32 == 48 + n % 10);
        assert(d == p.push(c));
        assert(d.drop_last() =~= p);
        assert forall|i: int| 0 <= i < d.len() implies is_digit(#[trigger] d[i]) by {
            if i < p.len() {
                assert(d[i] == p[i]);
            }
        }
        assert(d[0] == p[0]);
        assert(d.last() == c);
        assert(digits_value(d) == digits_value(d.drop_last()) * 10 + ((d.last() as u32) - 48) as nat);
        assert(digits_value(d) == digits_value(p) * 10 + n % 10);
        assert(n == (n / 10) * 10 + n % 10);
    }
    if n <= 0xffff {
        assert(d[0] != '+');
    }
}

} // verus!
