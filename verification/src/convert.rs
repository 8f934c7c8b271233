//! The converter's text side: JSON string escapes, the words index written beside a page, and
//! merging a page's words index into the words read off the page.
use vstd::prelude::*;
use crate::strings::{push_char, push_str, text_of_str};
use crate::sidecar::{parse_words_sidecar, sidecar, entries_view, opt_view, FormsView, WordForms};


verus! {

/// Lower-case hex digit of a nibble.
pub open spec fn hex_lower(n: int) -> char {
    if n < 10 {
        (48 + n) as char
    } else {
        (87 + n) as char
    }
}

/// How one character is written inside a JSON string.
pub open spec fn escape_char(c: char) -> Seq<char> {
    if c == '"' {
        seq!['\\', '"']
    } else if c == '\\' {
        seq!['\\', '\\']
    } else if c == '\n' {
        seq!['\\', 'n']
    } else if (c as u32) < 0x20 {
        seq!['\\', 'u', '0', '0', hex_lower(((c as u32) / 16) as int), hex_lower(((c as u32) % 16) as int)]
    } else {
        seq![c]
    }
}

/// A run of characters with every character escaped.
pub open spec fn escaped_chars(s: Seq<char>) -> Seq<char>
    decreases s.len(),
{
    if s.len() == 0 {
        Seq::empty()
    } else {
        escaped_chars(s.drop_last()) + escape_char(s.last())
    }
}

/// A JSON string literal holding `s`.
pub open spec fn json_literal(s: Seq<char>) -> Seq<char> {
    seq!['"'] + escaped_chars(s) + seq!['"']
}

fn hex_digit(n: u32) -> (c: char)
    requires
        n < 16,
    ensures
        c == hex_lower(n as int),
{
    proof {
        assert(48 + n < 0xD800);
        assert(87 + n < 0xD800);
    }
    match n {
        0 => '0',
        1 => '1',
        2 => '2',
        3 => '3',
        4 => '4',
        5 => '5',
        6 => '6',
        7 => '7',
        8 => '8',
        9 => '9',
        10 => 'a',
        11 => 'b',
        12 => 'c',
        13 => 'd',
        14 => 'e',
        _ => 'f',
    }
}

/// Escape for JSON string values.
pub fn json_str(s: &str) -> (o: String)
    ensures
        o@ == json_literal(s@),
{
    let mut o = String::new();
    push_char(&mut o, '"');
    for c in it: s.chars()
        invariant
            it.seq() == s@,
            o@ == seq!['"'] + escaped_chars(it.seq().take(it.index() as int)),
    {
        let ghost before = o@;
        if c == '"' {
            push_char(&mut o, '\\');
            push_char(&mut o, '"');
        } else if c == '\\' {
            push_char(&mut o, '\\');
            push_char(&mut o, '\\');
        } else if c == '\n' {
            push_char(&mut o, '\\');
            push_char(&mut o, 'n');
        } else if (c as u32) < 0x20 {
            let v = c as u32;
            push_char(&mut o, '\\');
            push_char(&mut o, 'u');
            push_char(&mut o, '0');
            push_char(&mut o, '0');
            push_char(&mut o, hex_digit(v / 16));
            push_char(&mut o, hex_digit(v % 16));
        } else {
            push_char(&mut o, c);
        }
        proof {
            let t = it.seq().take(it.index() + 1);
            assert(t.drop_last() =~= it.seq().take(it.index() as int));
            assert(o@ =~= before + escape_char(c));
        }
    }
    assert(s@.take(s@.len() as int) =~= s@);
    push_char(&mut o, '"');
    o
}

/// One word of a converted page: its id "s:a:w" and its five text forms, empty where unknown.
#[derive(Clone, Debug, PartialEq, Eq)]
pub struct WordText {
    pub word_key: String,
    pub rasm_uthmani: String,
    pub rasm_imlai: String,
    pub qpc: String,
    pub rasm: String,
    pub search: String,
}

/// The character views of a word's id and forms, in field order.
pub type WordTextView = (Seq<char>, Seq<char>, Seq<char>, Seq<char>, Seq<char>, Seq<char>);

impl View for WordText {
    type V = WordTextView;

    open spec fn view(&self) -> WordTextView {
        (self.word_key@, self.rasm_uthmani@, self.rasm_imlai@, self.qpc@, self.rasm@, self.search@)
    }
}

/// One word's entry in the words index.
pub open spec fn word_entry(w: WordTextView) -> Seq<char> {
    json_literal(w.0) + ":{\"rasm_uthmani\":"@ + json_literal(w.1) + ",\"rasm_imlai\":"@ + json_literal(w.2)
        + ",\"qpc\":"@ + json_literal(w.3) + ",\"rasm\":"@ + json_literal(w.4) + ",\"search\":"@
        + json_literal(w.5) + seq!['}']
}

/// The entries of a run of words, separated by commas.
pub open spec fn word_entries(ws: Seq<WordTextView>) -> Seq<char>
    decreases ws.len(),
{
    if ws.len() == 0 {
        Seq::empty()
    } else if ws.len() == 1 {
        word_entry(ws[0])
    } else {
        word_entries(ws.drop_last()) + seq![','] + word_entry(ws.last())
    }
}

/// Append one word's entry.
fn push_word_entry(s: &mut String, w: &WordText)
    ensures
        final(s)@ == old(s)@ + word_entry(w@),
{
    let k = json_str(w.word_key.as_str());
    push_str(s, k.as_str());
    push_str(s, ":{\"rasm_uthmani\":");
    let a = json_str(w.rasm_uthmani.as_str());
    push_str(s, a.as_str());
    push_str(s, ",\"rasm_imlai\":");
    let b = json_str(w.rasm_imlai.as_str());
    push_str(s, b.as_str());
    push_str(s, ",\"qpc\":");
    let c = json_str(w.qpc.as_str());
    push_str(s, c.as_str());
    push_str(s, ",\"rasm\":");
    let d = json_str(w.rasm.as_str());
    push_str(s, d.as_str());
    push_str(s, ",\"search\":");
    let e = json_str(w.search.as_str());
    push_str(s, e.as_str());
    push_char(s, '}');
    proof {
        reveal_strlit(":{\"rasm_uthmani\":");
        reveal_strlit(",\"rasm_imlai\":");
        reveal_strlit(",\"qpc\":");
        reveal_strlit(",\"rasm\":");
        reveal_strlit(",\"search\":");
        assert(final(s)@ =~= old(s)@ + word_entry(w@));
    }
}

/// The words index of a page: one object keyed by word id.
pub fn words_json(words: &Vec<WordText>) -> (s: String)
    ensures
        s@ == seq!['{'] + word_entries(words@.map_values(|w: WordText| w@)) + seq!['}'],
{
    let ghost views = words@.map_values(|w: WordText| w@);
    let mut s = String::new();
    push_char(&mut s, '{');
    let mut i: usize = 0;
    while i < words.len()
        invariant
            i <= words@.len(),
            views == words@.map_values(|w: WordText| w@),
            s@ == seq!['{'] + word_entries(views.take(i as int)),
        decreases words@.len() - i,
    {
        let ghost before = s@;
        if i > 0 {
            push_char(&mut s, ',');
        }
        push_word_entry(&mut s, &words[i]);
        proof {
            assert(views[i as int] == words@[i as int]@);
            assert(views.take(i + 1).drop_last() =~= views.take(i as int));
            assert(views.take(i + 1).last() == views[i as int]);
            if i > 0 {
                assert(s@ =~= seq!['{'] + (word_entries(views.take(i as int)) + seq![','] + word_entry(views[i as int])));
            } else {
                assert(views.take(i as int) =~= Seq::<WordTextView>::empty());
                assert(s@ =~= seq!['{'] + word_entry(views[i as int]));
            }
        }
        i += 1;
    }
    assert(views.take(words@.len() as int) =~= views);
    push_char(&mut s, '}');
    s
}

/// The forms the index gives a word id: the last entry under that id, as a map built from the
/// entries in order keeps it.
pub open spec fn lookup(forms: Seq<(Seq<char>, FormsView)>, key: Seq<char>) -> Option<FormsView>
    decreases forms.len(),
{
    if forms.len() == 0 {
        None
    } else if forms.last().0 == key {
        Some(forms.last().1)
    } else {
        lookup(forms.drop_last(), key)
    }
}

/// A form slot after the merge: an empty slot takes the index's value, a filled one keeps its own.
pub open spec fn filled(slot: Seq<char>, v: Option<Seq<char>>) -> Seq<char> {
    match v {
        Some(x) => if slot.len() == 0 { x } else { slot },
        None => slot,
    }
}

/// A word after the merge.
pub open spec fn merged(w: WordTextView, forms: Seq<(Seq<char>, FormsView)>) -> WordTextView {
    match lookup(forms, w.0) {
        Some(f) => (w.0, filled(w.1, f.0), filled(w.2, f.1), filled(w.3, f.2), filled(w.4, f.3), filled(w.5, f.4)),
        None => w,
    }
}

pub open spec fn missing_warning(key: Seq<char>) -> Seq<char> {
    "word "@ + key + ": not in the words index"@
}

pub open spec fn differs_warning(key: Seq<char>) -> Seq<char> {
    "word "@ + key + ": rasm_uthmani differs between page and words index"@
}

/// The warning a word raises: missing from the index, or an Uthmani text that disagrees.
pub open spec fn word_warnings(w: WordTextView, forms: Seq<(Seq<char>, FormsView)>) -> Seq<Seq<char>> {
    match lookup(forms, w.0) {
        None => seq![missing_warning(w.0)],
        Some(f) => match f.0 {
            Some(u) => if w.1.len() != 0 && u != w.1 { seq![differs_warning(w.0)] } else { Seq::empty() },
            None => Seq::empty(),
        },
    }
}

pub open spec fn merge_warnings(ws: Seq<WordTextView>, forms: Seq<(Seq<char>, FormsView)>) -> Seq<Seq<char>>
    decreases ws.len(),
{
    if ws.len() == 0 {
        Seq::empty()
    } else {
        merge_warnings(ws.drop_last(), forms) + word_warnings(ws.last(), forms)
    }
}

/// How many of the words the index holds.
pub open spec fn found(ws: Seq<WordTextView>, forms: Seq<(Seq<char>, FormsView)>) -> nat
    decreases ws.len(),
{
    if ws.len() == 0 {
        0
    } else {
        found(ws.drop_last(), forms) + if lookup(forms, ws.last().0) is Some { 1nat } else { 0nat }
    }
}

pub open spec fn texts(ws: Seq<String>) -> Seq<Seq<char>> {
    ws.map_values(|s: String| s@)
}

pub open spec fn word_views(ws: Seq<WordText>) -> Seq<WordTextView> {
    ws.map_values(|w: WordText| w@)
}

proof fn lemma_found_bound(ws: Seq<WordTextView>, forms: Seq<(Seq<char>, FormsView)>)
    ensures
        found(ws, forms) <= ws.len(),
    decreases ws.len(),
{
    if ws.len() > 0 {
        lemma_found_bound(ws.drop_last(), forms);
    }
}

/// The index entry under a word id, searched from the last entry back.
fn find_forms<'a>(forms: &'a Vec<(String, WordForms)>, key: &String) -> (r: Option<&'a WordForms>)
    ensures
        match r {
            Some(f) => lookup(entries_view(forms@), key@) == Some(f@),
            None => lookup(entries_view(forms@), key@) is None,
        },
{
    let ghost es = entries_view(forms@);
    let mut i: usize = forms.len();
    assert(es.take(i as int) =~= es);
    while i > 0
        invariant
            i <= forms@.len(),
            es == entries_view(forms@),
            lookup(es, key@) == lookup(es.take(i as int), key@),
        decreases i,
    {
        let e = &forms[i - 1];
        proof {
            assert(es.take(i as int).last() == (e.0@, e.1@));
            assert(es.take(i as int).drop_last() =~= es.take(i - 1));
        }
        if e.0 == *key {
            return Some(&e.1);
        }
        i -= 1;
    }
    assert(es.take(0) =~= Seq::<(Seq<char>, FormsView)>::empty());
    None
}

fn fill_slot(slot: &mut String, v: &Option<String>)
    ensures
        final(slot)@ == filled(old(slot)@, opt_view(*v)),
{
    if slot.as_str().is_empty() {
        if let Some(x) = v {
            *slot = x.clone();
        }
    }
}

fn push_message(warnings: &mut Vec<String>, key: &String, tail: &str)
    ensures
        texts(final(warnings)@) == texts(old(warnings)@).push("word "@ + key@ + tail@),
{
    let mut m = text_of_str("word ");
    push_str(&mut m, key.as_str());
    push_str(&mut m, tail);
    warnings.push(m);
    proof {
        assert(texts(final(warnings)@) =~= texts(old(warnings)@).push("word "@ + key@ + tail@));
    }
}

/// A copy of a word.
fn copy_word(w: &WordText) -> (r: WordText)
    ensures
        r@ == w@,
{
    WordText {
        word_key: w.word_key.clone(),
        rasm_uthmani: w.rasm_uthmani.clone(),
        rasm_imlai: w.rasm_imlai.clone(),
        qpc: w.qpc.clone(),
        rasm: w.rasm.clone(),
        search: w.search.clone(),
    }
}

/// Merge one word's index entry into it, pushing the warning it raises.
fn merge_word(w: &mut WordText, forms: &Vec<(String, WordForms)>, warnings: &mut Vec<String>) -> (found_it: bool)
    ensures
        final(w)@ == merged(old(w)@, entries_view(forms@)),
        texts(final(warnings)@) == texts(old(warnings)@) + word_warnings(old(w)@, entries_view(forms@)),
        found_it == lookup(entries_view(forms@), old(w)@.0) is Some,
{
    match find_forms(forms, &w.word_key) {
        None => {
            push_message(warnings, &w.word_key, ": not in the words index");
            proof {
                reveal_strlit(": not in the words index");
                assert(texts(final(warnings)@) =~= texts(old(warnings)@) + word_warnings(old(w)@, entries_view(forms@)));
            }
            false
        },
        Some(f) => {
            let ghost w0 = w@;
            let ghost t0 = texts(warnings@);
            if let Some(u) = &f.rasm_uthmani {
                if !w.rasm_uthmani.as_str().is_empty() && *u != w.rasm_uthmani {
                    push_message(warnings, &w.word_key, ": rasm_uthmani differs between page and words index");
                    proof {
                        reveal_strlit(": rasm_uthmani differs between page and words index");
                    }
                }
            }
            proof {
                assert(texts(warnings@) =~= t0 + word_warnings(w0, entries_view(forms@)));
            }
            fill_slot(&mut w.rasm_uthmani, &f.rasm_uthmani);
            fill_slot(&mut w.rasm_imlai, &f.rasm_imlai);
            fill_slot(&mut w.qpc, &f.qpc);
            fill_slot(&mut w.rasm, &f.rasm);
            fill_slot(&mut w.search, &f.search);
            true
        },
    }
}

/// Merge one page's words index into the words already read from the page. Returns the number of
/// words filled in, and pushes a warning for every word the index and the page disagree about;
/// the data is never repaired here.
pub fn merge_words_index(words: &mut Vec<WordText>, json: &[u8], warnings: &mut Vec<String>) -> (n: usize)
    ensures
        sidecar(json@) is None ==> {
            &&& final(words)@ == old(words)@
            &&& texts(final(warnings)@) == texts(old(warnings)@).push(
                "words index: not valid JSON, ignored"@,
            )
            &&& n == 0
        },
        sidecar(json@) matches Some(forms) ==> {
            &&& word_views(final(words)@) == word_views(old(words)@).map_values(
                |w: WordTextView| merged(w, forms),
            )
            &&& texts(final(warnings)@) == texts(old(warnings)@) + merge_warnings(word_views(old(words)@), forms)
            &&& n == found(word_views(old(words)@), forms)
        },
{
    let forms = match parse_words_sidecar(json) {
        None => {
            warnings.push(text_of_str("words index: not valid JSON, ignored"));
            proof {
                reveal_strlit("words index: not valid JSON, ignored");
                assert(texts(final(warnings)@) =~= texts(old(warnings)@).push(
                    "words index: not valid JSON, ignored"@,
                ));
            }
            return 0;
        },
        Some(f) => f,
    };
    let ghost fs = entries_view(forms@);
    let ghost w0 = word_views(words@);
    let mut n: usize = 0;
    let mut i: usize = 0;
    assert forall|k: int| 0 <= k < words@.len() implies #[trigger] words@[k]@ == w0[k] by {}
    assert(w0.take(0) =~= Seq::<WordTextView>::empty());
    while i < words.len()
        invariant
            fs == entries_view(forms@),
            sidecar(json@) == Some(fs),
            w0 == word_views(old(words)@),
            words@.len() == w0.len(),
            i <= words@.len(),
            forall|k: int| 0 <= k < i ==> #[trigger] words@[k]@ == merged(w0[k], fs),
            forall|k: int| i <= k < words@.len() ==> #[trigger] words@[k]@ == w0[k],
            texts(warnings@) == texts(old(warnings)@) + merge_warnings(w0.take(i as int), fs),
            n == found(w0.take(i as int), fs),
        decreases words@.len() - i,
    {
        let mut w = copy_word(&words[i]);
        let ghost before = texts(warnings@);
        proof {
            lemma_found_bound(w0.take(i as int), fs);
        }
        let hit = merge_word(&mut w, &forms, warnings);
        proof {
            assert(w0.take(i + 1).drop_last() =~= w0.take(i as int));
            assert(w0.take(i + 1).last() == w0[i as int]);
            assert(texts(warnings@) =~= texts(old(warnings)@) + merge_warnings(w0.take(i + 1), fs));
        }
        words.set(i, w);
        if hit {
            n += 1;
        }
        i += 1;
    }
    proof {
        assert(w0.take(words@.len() as int) =~= w0);
        assert(word_views(words@) =~= w0.map_values(|w: WordTextView| merged(w, fs)));
    }
    n
}

} // verus!
