//! Arabic text tools: marks, letter folding, whitespace, and the search keys built from them.
use vstd::prelude::*;
use crate::strings::{chars_of, push_char};
pub use crate::sidecar::{parse_words_sidecar, WordForms};

verus! {

/// Harakah, tanwin (with the open forms U+08F0–08F2), omitted alif, the waqf and dabt block,
/// tatweel, the `rubu_al_hizb` sign, small letters and the Quranic annotation signs.
pub open spec fn is_mark(c: char) -> bool {
    let u = c as u32;
    ||| 0x064B <= u <= 0x065F
    ||| u == 0x0670
    ||| 0x06D6 <= u <= 0x06E4
    ||| 0x06E7 <= u <= 0x06ED
    ||| 0x08D3 <= u <= 0x08E1
    ||| 0x08E3 <= u <= 0x08FF
    ||| u == 0x0640
    ||| 0x0610 <= u <= 0x061A
}

/// The letter a hamzah or alif variant folds to: أإآٱ→ا, ى→ي, ة→ه, ؤ→و, ئ→ي.
pub open spec fn fold_char(c: char) -> char {
    let u = c as u32;
    if u == 0x0623 || u == 0x0625 || u == 0x0622 || u == 0x0671 {
        '\u{0627}'
    } else if u == 0x0649 {
        '\u{064A}'
    } else if u == 0x0629 {
        '\u{0647}'
    } else if u == 0x0624 {
        '\u{0648}'
    } else if u == 0x0626 {
        '\u{064A}'
    } else {
        c
    }
}

/// Unicode white space, as `char::is_whitespace` reads it.
pub open spec fn is_space(c: char) -> bool {
    let u = c as u32;
    ||| 0x09 <= u <= 0x0D
    ||| u == 0x20
    ||| u == 0x85
    ||| u == 0xA0
    ||| u == 0x1680
    ||| 0x2000 <= u <= 0x200A
    ||| u == 0x2028
    ||| u == 0x2029
    ||| u == 0x202F
    ||| u == 0x205F
    ||| u == 0x3000
}

/// The bare alif and the lone hamzah a loose key leaves out.
pub open spec fn is_loose_dropped(c: char) -> bool {
    c == '\u{0627}' || c == '\u{0621}'
}

/// A sequence with every mark removed.
pub open spec fn stripped(s: Seq<char>) -> Seq<char>
    decreases s.len(),
{
    if s.len() == 0 {
        Seq::empty()
    } else if is_mark(s[0]) {
        stripped(s.drop_first())
    } else {
        seq![s[0]] + stripped(s.drop_first())
    }
}

/// A sequence with every letter folded.
pub open spec fn folded(s: Seq<char>) -> Seq<char> {
    s.map_values(|c: char| fold_char(c))
}

/// The words of `s` (runs of non-space characters) joined by single spaces. `started` says a
/// word has been written, `pending` that a space separates it from the next word.
pub open spec fn squeeze(s: Seq<char>, started: bool, pending: bool) -> Seq<char>
    decreases s.len(),
{
    if s.len() == 0 {
        Seq::empty()
    } else if is_space(s[0]) {
        squeeze(s.drop_first(), started, started)
    } else if pending {
        seq![' ', s[0]] + squeeze(s.drop_first(), true, false)
    } else {
        seq![s[0]] + squeeze(s.drop_first(), true, false)
    }
}

/// Leading and trailing space dropped, every inner run of space made one ' '.
pub open spec fn collapsed(s: Seq<char>) -> Seq<char> {
    squeeze(s, false, false)
}

/// A sequence without its bare alifs and hamzahs.
pub open spec fn without_alif(s: Seq<char>) -> Seq<char>
    decreases s.len(),
{
    if s.len() == 0 {
        Seq::empty()
    } else if is_loose_dropped(s[0]) {
        without_alif(s.drop_first())
    } else {
        seq![s[0]] + without_alif(s.drop_first())
    }
}

/// Every dagger alif (U+0670) written as a full alif.
pub open spec fn dagger_expanded(s: Seq<char>) -> Seq<char> {
    s.map_values(|c: char| if c == '\u{0670}' { '\u{0627}' } else { c })
}

/// The match fold: marks stripped, letters folded, space collapsed.
pub open spec fn match_fold(s: Seq<char>) -> Seq<char> {
    collapsed(folded(stripped(s)))
}

/// The search key: marks stripped and space collapsed, the letters as written.
pub open spec fn search_key_of(s: Seq<char>) -> Seq<char> {
    collapsed(stripped(s))
}

/// The loose key: the match fold without bare alif and hamzah.
pub open spec fn loose_key_of(s: Seq<char>) -> Seq<char> {
    without_alif(match_fold(s))
}

pub fn is_arabic_mark(c: char) -> (b: bool)
    ensures
        b == is_mark(c),
{
    let u = c as u32;
    (0x064B <= u && u <= 0x065F) || u == 0x0670 || (0x06D6 <= u && u <= 0x06E4) || (0x06E7 <= u
        && u <= 0x06ED) || (0x08D3 <= u && u <= 0x08E1) || (0x08E3 <= u && u <= 0x08FF) || u
        == 0x0640 || (0x0610 <= u && u <= 0x061A)
}

fn fold_one(c: char) -> (r: char)
    ensures
        r == fold_char(c),
{
    let u = c as u32;
    if u == 0x0623 || u == 0x0625 || u == 0x0622 || u == 0x0671 {
        '\u{0627}'
    } else if u == 0x0649 {
        '\u{064A}'
    } else if u == 0x0629 {
        '\u{0647}'
    } else if u == 0x0624 {
        '\u{0648}'
    } else if u == 0x0626 {
        '\u{064A}'
    } else {
        c
    }
}

fn is_space_char(c: char) -> (b: bool)
    ensures
        b == is_space(c),
{
    let u = c as u32;
    (0x09 <= u && u <= 0x0D) || u == 0x20 || u == 0x85 || u == 0xA0 || u == 0x1680 || (0x2000 <= u
        && u <= 0x200A) || u == 0x2028 || u == 0x2029 || u == 0x202F || u == 0x205F || u == 0x3000
}

pub fn strip_marks(s: &str) -> (out: String)
    ensures
        out@ == stripped(s@),
{
    let v = chars_of(s);
    let mut out = String::new();
    let mut i: usize = 0;
    assert(v@.skip(0) =~= v@);
    assert(out@ + stripped(v@) =~= stripped(v@));
    while i < v.len()
        invariant
            i <= v.len(),
            out@ + stripped(v@.skip(i as int)) == stripped(v@),
        decreases v.len() - i,
    {
        assert(v@.skip(i as int).drop_first() =~= v@.skip(i + 1));
        let ghost prev = out@;
        if !is_arabic_mark(v[i]) {
            push_char(&mut out, v[i]);
            assert(out@ + stripped(v@.skip(i + 1)) =~= prev + stripped(v@.skip(i as int)));
        }
        i += 1;
    }
    assert(v@.skip(i as int) =~= Seq::<char>::empty());
    assert(out@ + Seq::<char>::empty() =~= out@);
    out
}


/// أإآٱ→ا, ى→ي, ة→ه, ؤ→و, ئ→ي
pub fn fold(s: &str) -> (out: String)
    ensures
        out@ == folded(s@),
{
    let v = chars_of(s);
    let mut out = String::new();
    let mut i: usize = 0;
    while i < v.len()
        invariant
            i <= v.len(),
            out@ =~= folded(v@.take(i as int)),
        decreases v.len() - i,
    {
        push_char(&mut out, fold_one(v[i]));
        i += 1;
        assert(folded(v@.take(i as int)) =~= folded(v@.take(i - 1)).push(fold_char(v@[i - 1])));
    }
    assert(v@.take(i as int) =~= v@);
    out
}

/// The words of `s` joined by single spaces.
fn collapse_spaces(s: &str) -> (out: String)
    ensures
        out@ == collapsed(s@),
{
    let v = chars_of(s);
    let mut out = String::new();
    let mut i: usize = 0;
    let mut started = false;
    let mut pending = false;
    assert(v@.skip(0) =~= v@);
    assert(out@ + collapsed(v@) =~= collapsed(v@));
    while i < v.len()
        invariant
            i <= v.len(),
            out@ + squeeze(v@.skip(i as int), started, pending) == collapsed(v@),
        decreases v.len() - i,
    {
        assert(v@.skip(i as int).drop_first() =~= v@.skip(i + 1));
        let ghost prev = out@;
        let c = v[i];
        let ghost st0 = started;
        let ghost pd0 = pending;
        if is_space_char(c) {
            pending = started;
        } else {
            if pending {
                push_char(&mut out, ' ');
            }
            push_char(&mut out, c);
            started = true;
            pending = false;
            assert(squeeze(v@.skip(i as int), st0, pd0) == (if pd0 {
                seq![' ', c]
            } else {
                seq![c]
            }) + squeeze(v@.skip(i + 1), true, false));
            assert(out@ + squeeze(v@.skip(i + 1), started, pending) =~= prev + squeeze(
                v@.skip(i as int),
                st0,
                pd0,
            ));
        }
        i += 1;
    }
    assert(v@.skip(i as int) =~= Seq::<char>::empty());
    assert(out@ + Seq::<char>::empty() =~= out@);
    out
}


fn drop_alif(s: &str) -> (out: String)
    ensures
        out@ == without_alif(s@),
{
    let v = chars_of(s);
    let mut out = String::new();
    let mut i: usize = 0;
    assert(v@.skip(0) =~= v@);
    assert(out@ + without_alif(v@) =~= without_alif(v@));
    while i < v.len()
        invariant
            i <= v.len(),
            out@ + without_alif(v@.skip(i as int)) == without_alif(v@),
        decreases v.len() - i,
    {
        assert(v@.skip(i as int).drop_first() =~= v@.skip(i + 1));
        let ghost prev = out@;
        let c = v[i];
        if !(c == '\u{0627}' || c == '\u{0621}') {
            push_char(&mut out, c);
            assert(out@ + without_alif(v@.skip(i + 1)) =~= prev + without_alif(v@.skip(i as int)));
        }
        i += 1;
    }
    assert(v@.skip(i as int) =~= Seq::<char>::empty());
    assert(out@ + Seq::<char>::empty() =~= out@);
    out
}

fn expand_dagger(s: &str) -> (out: String)
    ensures
        out@ == dagger_expanded(s@),
{
    let v = chars_of(s);
    let mut out = String::new();
    let mut i: usize = 0;
    while i < v.len()
        invariant
            i <= v.len(),
            out@ =~= dagger_expanded(v@.take(i as int)),
        decreases v.len() - i,
    {
        let c = v[i];
        push_char(&mut out, if c == '\u{0670}' { '\u{0627}' } else { c });
        i += 1;
        assert(dagger_expanded(v@.take(i as int)) =~= dagger_expanded(v@.take(i - 1)).push(
            if c == '\u{0670}' { '\u{0627}' } else { c },
        ));
    }
    assert(v@.take(i as int) =~= v@);
    out
}

/// strip + fold + collapse whitespace: the default search key.
pub fn normalize_query(s: &str) -> (out: String)
    ensures
        out@ == match_fold(s@),
{
    let a = strip_marks(s);
    let b = fold(a.as_str());
    collapse_spaces(b.as_str())
}

/// Additionally drops bare alif and hamzah so a typed الرحمان finds the printed الرحمن.
pub fn loose_key(s: &str) -> (out: String)
    ensures
        out@ == loose_key_of(s@),
{
    let a = normalize_query(s);
    drop_alif(a.as_str())
}

/// Marks stripped and whitespace collapsed, with every letter left as printed.
pub fn search_key(s: &str) -> (out: String)
    ensures
        out@ == search_key_of(s@),
{
    let a = strip_marks(s);
    collapse_spaces(a.as_str())
}

/// The spellings a word can be searched by: its match fold, and, when the word writes a
/// dagger alif, the match fold of the spelling that writes a full alif in its place.
pub fn search_variants(s: &str) -> (out: Vec<String>)
    ensures
        out.len() >= 1,
        out[0]@ == match_fold(s@),
        match_fold(dagger_expanded(s@)) == match_fold(s@) ==> out.len() == 1,
        match_fold(dagger_expanded(s@)) != match_fold(s@) ==> out.len() == 2 && out[1]@
            == match_fold(dagger_expanded(s@)),
{
    let first = normalize_query(s);
    let e = expand_dagger(s);
    let second = normalize_query(e.as_str());
    let same = first == second;
    let mut out: Vec<String> = Vec::new();
    out.push(first);
    if !same {
        out.push(second);
    }
    out
}


/// Text forms carried per word.
#[derive(Clone, Copy, Debug, PartialEq, Eq, Hash, Structural)]
pub enum Form {
    RasmUthmani,
    RasmImlai,
    Qpc,
    Rasm,
    Search,
}

impl Form {
    /// The form a host asked for by number; anything unknown is the Uthmani text.
    pub fn from_u8(v: u8) -> (f: Form)
        ensures
            f == (if v == 1 {
                Form::RasmImlai
            } else if v == 2 {
                Form::Qpc
            } else if v == 3 {
                Form::Rasm
            } else if v == 4 {
                Form::Search
            } else {
                Form::RasmUthmani
            }),
    {
        match v {
            1 => Form::RasmImlai,
            2 => Form::Qpc,
            3 => Form::Rasm,
            4 => Form::Search,
            _ => Form::RasmUthmani,
        }
    }

    /// The number `from_u8` reads this form from.
    pub open spec fn code(self) -> u8 {
        match self {
            Form::RasmUthmani => 0,
            Form::RasmImlai => 1,
            Form::Qpc => 2,
            Form::Rasm => 3,
            Form::Search => 4,
        }
    }

    pub open spec fn name(self) -> Seq<char> {
        match self {
            Form::RasmUthmani => "rasm_uthmani"@,
            Form::RasmImlai => "rasm_imlai"@,
            Form::Qpc => "qpc"@,
            Form::Rasm => "rasm"@,
            Form::Search => "search"@,
        }
    }

    pub fn as_str(self) -> (s: &'static str)
        ensures
            s@ == self.name(),
    {
        match self {
            Form::RasmUthmani => "rasm_uthmani",
            Form::RasmImlai => "rasm_imlai",
            Form::Qpc => "qpc",
            Form::Rasm => "rasm",
            Form::Search => "search",
        }
    }
}

/// Reading a form's own number gives the form back.
pub proof fn form_code_round_trip(f: Form)
    ensures
        (if f.code() == 1 {
            Form::RasmImlai
        } else if f.code() == 2 {
            Form::Qpc
        } else if f.code() == 3 {
            Form::Rasm
        } else if f.code() == 4 {
            Form::Search
        } else {
            Form::RasmUthmani
        }) == f,
{
}

#[derive(Clone, Copy, Debug, PartialEq, Eq, Structural)]
pub enum SearchMode {
    Includes,
    Exact,
    Prefix,
}

#[derive(Clone, Debug)]
pub struct SearchOptions {
    pub form: Form,
    pub mode: SearchMode,
    pub normalize: bool,
    /// Retry with `loose_key` when the strict pass found nothing.
    pub loose: bool,
    pub limit: usize,
}

impl Default for SearchOptions {
    fn default() -> (o: SearchOptions)
        ensures
            o.form == Form::Search,
            o.mode == SearchMode::Includes,
            o.normalize,
            o.loose,
            o.limit == usize::MAX,
    {
        SearchOptions {
            form: Form::Search,
            mode: SearchMode::Includes,
            normalize: true,
            loose: true,
            limit: usize::MAX,
        }
    }
}

#[derive(Clone, Debug, PartialEq, Eq)]
pub struct Match {
    pub word: u32,
    /// byte offset of the match in the (normalised) word value
    pub index: usize,
    pub loose: bool,
}

/// Every space left in `o` is one ' ' with a letter on each side; `o` ends in a letter; and it
/// starts with one when no word was written before it.
pub open spec fn squeezed_shape(o: Seq<char>, started: bool) -> bool {
    &&& o.len() > 0 ==> !is_space(o.last())
    &&& (o.len() > 0 && !started) ==> !is_space(o[0])
    &&& forall|i: int|
        0 <= i < o.len() && is_space(#[trigger] o[i]) ==> o[i] == ' ' && i + 1 < o.len() && !is_space(o[i + 1])
            && (i > 0 ==> !is_space(o[i - 1]))
}

proof fn lemma_squeeze_idem(s: Seq<char>, started: bool, pending: bool)
    requires
        pending ==> started,
    ensures
        squeeze(squeeze(s, started, pending), started, false) == squeeze(s, started, pending),
    decreases s.len(),
{
    if s.len() > 0 {
        let t = s.drop_first();
        if is_space(s[0]) {
            lemma_squeeze_idem(t, started, started);
        } else {
            lemma_squeeze_idem(t, true, false);
            let o1 = squeeze(t, true, false);
            if pending {
                let o = seq![' ', s[0]] + o1;
                let o2 = seq![s[0]] + o1;
                assert(squeeze(s, started, pending) == o);
                assert(o[0] == ' ');
                assert(o.drop_first() =~= o2);
                assert(o2[0] == s[0]);
                assert(o2.drop_first() =~= o1);
                assert(squeeze(o2, true, true) == seq![' ', s[0]] + squeeze(o1, true, false));
                assert(squeeze(o, started, false) == squeeze(o2, true, true));
            } else {
                let o = seq![s[0]] + o1;
                assert(squeeze(s, started, pending) == o);
                assert(o[0] == s[0]);
                assert(o.drop_first() =~= o1);
                assert(squeeze(o, started, false) == seq![s[0]] + squeeze(o1, true, false));
            }
        }
    }
}

proof fn lemma_squeeze_chars(s: Seq<char>, started: bool, pending: bool)
    ensures
        forall|i: int|
            0 <= i < squeeze(s, started, pending).len() ==> #[trigger] squeeze(s, started, pending)[i] == ' '
                || s.contains(squeeze(s, started, pending)[i]),
    decreases s.len(),
{
    if s.len() > 0 {
        let t = s.drop_first();
        if is_space(s[0]) {
            lemma_squeeze_chars(t, started, started);
            assert forall|c: char| t.contains(c) implies s.contains(c) by {
                let k = choose|k: int| 0 <= k < t.len() && t[k] == c;
                assert(s[k + 1] == c);
            }
            let o = squeeze(s, started, pending);
            assert(o == squeeze(t, started, started));
            assert forall|i: int| 0 <= i < o.len() implies #[trigger] o[i] == ' ' || s.contains(o[i]) by {
                assert(o[i] == ' ' || t.contains(o[i]));
            }
        } else {
            lemma_squeeze_chars(t, true, false);
            assert forall|c: char| t.contains(c) implies s.contains(c) by {
                let k = choose|k: int| 0 <= k < t.len() && t[k] == c;
                assert(s[k + 1] == c);
            }
            assert(s.contains(s[0])) by {
                assert(s[0] == s[0]);
            }
            let o1 = squeeze(t, true, false);
            let o = squeeze(s, started, pending);
            if pending {
                assert(o == seq![' ', s[0]] + o1);
            } else {
                assert(o == seq![s[0]] + o1);
            }
            assert forall|i: int| 0 <= i < o.len() implies #[trigger] o[i] == ' ' || s.contains(o[i]) by {
                if pending {
                    if i >= 2 {
                        assert(o[i] == o1[i - 2]);
                        assert(o1[i - 2] == ' ' || t.contains(o1[i - 2]));
                    } else if i == 1 {
                        assert(o[i] == s[0]);
                    }
                } else {
                    if i >= 1 {
                        assert(o[i] == o1[i - 1]);
                        assert(o1[i - 1] == ' ' || t.contains(o1[i - 1]));
                    } else {
                        assert(o[i] == s[0]);
                    }
                }
            }
        }
    }
}

proof fn lemma_squeeze_shape(s: Seq<char>, started: bool, pending: bool)
    requires
        pending ==> started,
    ensures
        squeezed_shape(squeeze(s, started, pending), started),
    decreases s.len(),
{
    if s.len() > 0 {
        let t = s.drop_first();
        if is_space(s[0]) {
            lemma_squeeze_shape(t, started, started);
        } else {
            lemma_squeeze_shape(t, true, false);
            let o1 = squeeze(t, true, false);
            let o = squeeze(s, started, pending);
            let k: int = if pending { 2 } else { 1 };
            assert(o.len() == o1.len() + k);
            assert forall|i: int| k <= i < o.len() implies o[i] == o1[i - k] by {}
            assert(o[k - 1] == s[0]);
            if pending {
                assert(o[0] == ' ');
            }
            if o1.len() > 0 {
                assert(o.last() == o1[o1.len() - 1]);
            }
            assert forall|i: int|
                0 <= i < o.len() && is_space(#[trigger] o[i]) implies o[i] == ' ' && i + 1 < o.len() && !is_space(o[i + 1])
                && (i > 0 ==> !is_space(o[i - 1])) by {
                if i >= k {
                    assert(o[i] == o1[i - k]);
                    assert(is_space(o1[i - k]));
                    if i + 1 < o.len() {
                        assert(o[i + 1] == o1[i + 1 - k]);
                    }
                    if i - 1 >= k {
                        assert(o[i - 1] == o1[i - 1 - k]);
                    }
                }
            }
        }
    }
}

proof fn lemma_stripped_clean(s: Seq<char>)
    ensures
        forall|i: int| 0 <= i < stripped(s).len() ==> !is_mark(#[trigger] stripped(s)[i]),
    decreases s.len(),
{
    if s.len() > 0 {
        lemma_stripped_clean(s.drop_first());
        let r = stripped(s.drop_first());
        if !is_mark(s[0]) {
            assert forall|i: int| 0 <= i < stripped(s).len() implies !is_mark(#[trigger] stripped(s)[i]) by {
                if i > 0 {
                    assert(stripped(s)[i] == r[i - 1]);
                }
            }
        }
    }
}

proof fn lemma_stripped_keeps(t: Seq<char>)
    requires
        forall|i: int| 0 <= i < t.len() ==> !is_mark(#[trigger] t[i]),
    ensures
        stripped(t) == t,
    decreases t.len(),
{
    if t.len() > 0 {
        let u = t.drop_first();
        assert forall|i: int| 0 <= i < u.len() implies !is_mark(#[trigger] u[i]) by {
            assert(u[i] == t[i + 1]);
        }
        lemma_stripped_keeps(u);
        assert(seq![t[0]] + u =~= t);
    }
}

/// The match fold is idempotent, and what it gives holds no mark and no letter that folds:
/// every space left in it is a single ' ' between two letters, none at either end.
pub proof fn match_fold_idempotent(s: Seq<char>)
    ensures
        match_fold(match_fold(s)) == match_fold(s),
        forall|i: int|
            0 <= i < match_fold(s).len() ==> !is_mark(#[trigger] match_fold(s)[i]) && fold_char(match_fold(s)[i])
                == match_fold(s)[i],
        forall|i: int|
            0 <= i < match_fold(s).len() && is_space(#[trigger] match_fold(s)[i]) ==> match_fold(s)[i] == ' ' && 0 < i
                && i + 1 < match_fold(s).len() && !is_space(match_fold(s)[i - 1]) && !is_space(match_fold(s)[i + 1]),
{
    let a = stripped(s);
    let b = folded(a);
    let r = collapsed(b);
    lemma_stripped_clean(s);
    lemma_squeeze_chars(b, false, false);
    lemma_squeeze_shape(b, false, false);
    assert forall|i: int| 0 <= i < r.len() implies !is_mark(#[trigger] r[i]) && fold_char(r[i]) == r[i] by {
        if r[i] != ' ' {
            let k = choose|k: int| 0 <= k < b.len() && b[k] == r[i];
            assert(b[k] == fold_char(a[k]));
            assert(!is_mark(a[k]));
        }
    }
    lemma_stripped_keeps(r);
    assert(folded(r) =~= r);
    lemma_squeeze_idem(b, false, false);
}

/// An alif with or without hamzah or madda, or alif wasla: أ إ آ ٱ ا.
pub open spec fn alif_form(c: char) -> bool {
    c == '\u{0627}' || c == '\u{0623}' || c == '\u{0625}' || c == '\u{0622}' || c == '\u{0671}'
}

/// Yeh, alef maksura, or yeh with hamzah: ي ى ئ.
pub open spec fn yeh_form(c: char) -> bool {
    c == '\u{064A}' || c == '\u{0649}' || c == '\u{0626}'
}

/// Heh or teh marbuta: ه ة.
pub open spec fn heh_form(c: char) -> bool {
    c == '\u{0647}' || c == '\u{0629}'
}

/// Waw or waw with hamzah: و ؤ.
pub open spec fn waw_form(c: char) -> bool {
    c == '\u{0648}' || c == '\u{0624}'
}

/// Two letters a reader takes for one: the same letter, or two spellings of alif, of yeh, of
/// heh or of waw.
pub open spec fn spelled_alike(a: char, b: char) -> bool {
    ||| a == b
    ||| alif_form(a) && alif_form(b)
    ||| yeh_form(a) && yeh_form(b)
    ||| heh_form(a) && heh_form(b)
    ||| waw_form(a) && waw_form(b)
}

/// The letter fold joins exactly the letters a reader takes for one: two characters fold to the
/// same character when, and only when, they are spelled alike.
pub proof fn fold_joins_spellings(a: char, b: char)
    ensures
        fold_char(a) == fold_char(b) <==> spelled_alike(a, b),
{
}

proof fn lemma_stripped_alike(s: Seq<char>, t: Seq<char>)
    requires
        s.len() == t.len(),
        forall|i: int| 0 <= i < s.len() ==> spelled_alike(#[trigger] s[i], t[i]),
    ensures
        stripped(s).len() == stripped(t).len(),
        forall|i: int| 0 <= i < stripped(s).len() ==> spelled_alike(#[trigger] stripped(s)[i], stripped(t)[i]),
    decreases s.len(),
{
    if s.len() > 0 {
        let s1 = s.drop_first();
        let t1 = t.drop_first();
        assert forall|i: int| 0 <= i < s1.len() implies spelled_alike(#[trigger] s1[i], t1[i]) by {
            assert(s1[i] == s[i + 1] && t1[i] == t[i + 1]);
        }
        lemma_stripped_alike(s1, t1);
        assert(spelled_alike(s[0], t[0]));
        assert(is_mark(s[0]) == is_mark(t[0]));
        if !is_mark(s[0]) {
            assert forall|i: int| 0 <= i < stripped(s).len() implies spelled_alike(#[trigger] stripped(s)[i], stripped(t)[i]) by {
                if i > 0 {
                    assert(stripped(s)[i] == stripped(s1)[i - 1]);
                    assert(stripped(t)[i] == stripped(t1)[i - 1]);
                }
            }
        }
    }
}

/// Two texts that differ only in how letters a reader takes for one are spelled have the same
/// match fold, so the same search key and the same loose key: a query typed with one spelling
/// finds a word printed with the other.
pub proof fn spellings_fold_alike(s: Seq<char>, t: Seq<char>)
    requires
        s.len() == t.len(),
        forall|i: int| 0 <= i < s.len() ==> spelled_alike(#[trigger] s[i], t[i]),
    ensures
        folded(s) == folded(t),
        folded(stripped(s)) == folded(stripped(t)),
        match_fold(s) == match_fold(t),
        loose_key_of(s) == loose_key_of(t),
{
    lemma_stripped_alike(s, t);
    let a = stripped(s);
    let b = stripped(t);
    assert forall|i: int| 0 <= i < a.len() implies #[trigger] folded(a)[i] == folded(b)[i] by {
        fold_joins_spellings(a[i], b[i]);
    }
    assert(folded(a) =~= folded(b));
    assert forall|i: int| 0 <= i < s.len() implies #[trigger] folded(s)[i] == folded(t)[i] by {
        fold_joins_spellings(s[i], t[i]);
    }
    assert(folded(s) =~= folded(t));
}

} // verus!
