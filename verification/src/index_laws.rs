//! The words index a page writes reads back through the words sidecar reader: every word,
//! with its key and all five forms, in order.
use vstd::prelude::*;
use vstd::utf8::*;
use crate::convert::{json_literal, word_entry, word_entries, WordTextView};
use crate::escapes::{lemma_encode_ascii, lemma_encode_concat, lemma_escaped_plain, lemma_string_at, plain};
use crate::sidecar::{
    eaten, entry_at, forms_of, member_at, obj_members, sidecar, sidecar_entries, string_at, string_object_at, ws_end,
    FormsView,
};

verus! {

broadcast use {encode_utf8_decode_utf8, encode_utf8_valid_utf8, char_u32_cast};

/// One `"key":"value"` member.
pub open spec fn member_text(p: (Seq<char>, Seq<char>)) -> Seq<char> {
    json_literal(p.0) + seq![':'] + json_literal(p.1)
}

/// A member written after `pre` reads back as its (key, value) pair.
#[verifier::rlimit(80)]
#[verifier::spinoff_prover]
proof fn lemma_member(p: (Seq<char>, Seq<char>), pre: Seq<u8>, post: Seq<u8>)
    ensures
        encode_utf8(member_text(p)).len() > 0,
        encode_utf8(member_text(p))[0] == 0x22,
        member_at(pre + encode_utf8(member_text(p)) + post, pre.len() as int) == Some::<(Seq<(Seq<char>, Seq<char>)>, int)>(
            (seq![p], pre.len() + encode_utf8(member_text(p)).len() as int),
        ),
{
    reveal(member_at);
    let ek = encode_utf8(json_literal(p.0));
    let ev = encode_utf8(json_literal(p.1));
    lemma_encode_concat(json_literal(p.0) + seq![':'], json_literal(p.1));
    lemma_encode_concat(json_literal(p.0), seq![':']);
    lemma_encode_ascii(':');
    let em = encode_utf8(member_text(p));
    assert(em =~= ek + seq![0x3au8] + ev);
    let b = pre + em + post;
    let i = pre.len() as int;
    lemma_string_at(p.0, pre, seq![0x3au8] + ev + post);
    assert(b =~= pre + ek + (seq![0x3au8] + ev + post));
    let k1 = i + ek.len();
    assert(b[k1] == 0x3a);
    assert(ws_end(b, k1) == k1);
    assert(eaten(b, k1, 0x3a) == (true, k1 + 1));
    lemma_string_at(p.1, pre + ek + seq![0x3au8], post);
    assert(b =~= (pre + ek + seq![0x3au8]) + ev + post);
    assert(b[k1 + 1] == 0x22);
    assert(ws_end(b, k1 + 1) == k1 + 1);
}

/// The members of an object after its `{`: each member, a comma between two, then `}`.
pub open spec fn members_text(ps: Seq<(Seq<char>, Seq<char>)>) -> Seq<char>
    decreases ps.len(),
{
    if ps.len() == 0 {
        seq!['}']
    } else if ps.len() == 1 {
        member_text(ps[0]) + seq!['}']
    } else {
        member_text(ps[0]) + seq![','] + members_text(ps.drop_first())
    }
}

/// Written members read back as their pairs, in order, ending just after the `}`.
proof fn lemma_members(ps: Seq<(Seq<char>, Seq<char>)>, pre: Seq<u8>, post: Seq<u8>)
    ensures
        encode_utf8(members_text(ps)).len() > 0,
        obj_members(pre + encode_utf8(members_text(ps)) + post, pre.len() as int) == Some::<(Seq<(Seq<char>, Seq<char>)>, int)>(
            (ps, pre.len() + encode_utf8(members_text(ps)).len() as int),
        ),
    decreases ps.len(),
{
    let e = encode_utf8(members_text(ps));
    let b = pre + e + post;
    let i = pre.len() as int;
    if ps.len() == 0 {
        lemma_encode_ascii('}');
        assert(b[i] == 0x7d);
        assert(ws_end(b, i) == i);
        assert(ps =~= Seq::<(Seq<char>, Seq<char>)>::empty());
    } else {
        let em = encode_utf8(member_text(ps[0]));
        let rest = ps.drop_first();
        let (sep, pre2) = if ps.len() == 1 {
            (Seq::<char>::empty(), pre + em)
        } else {
            (seq![','], pre + em + seq![0x2cu8])
        };
        let er = encode_utf8(members_text(rest));
        lemma_members(rest, pre2, post);
        if ps.len() == 1 {
            lemma_encode_concat(member_text(ps[0]), seq!['}']);
            assert(rest.len() == 0);
            assert(members_text(ps) == member_text(ps[0]) + members_text(rest));
            assert(e == em + er);
            assert(b =~= pre2 + er + post);
        } else {
            lemma_encode_concat(member_text(ps[0]) + seq![','], members_text(rest));
            lemma_encode_concat(member_text(ps[0]), seq![',']);
            lemma_encode_ascii(',');
            assert(e =~= em + seq![0x2cu8] + er);
            assert(b =~= pre2 + er + post);
        }
        lemma_member(ps[0], pre, encode_utf8(sep) + er + post);
        assert(b =~= pre + em + (encode_utf8(sep) + er + post)) by {
            if ps.len() == 1 {
                assert(encode_utf8(sep) =~= Seq::<u8>::empty());
            } else {
                lemma_encode_ascii(',');
            }
        }
        assert(b[i] == 0x22);
        assert(ws_end(b, i) == i);
        let k3 = i + em.len();
        if ps.len() == 1 {
            assert(b[k3] == er[0]);
            assert(er[0] == 0x7d) by {
                lemma_encode_ascii('}');
                assert(members_text(rest) == seq!['}']);
            }
            assert(ws_end(b, k3) == k3);
        } else {
            assert(b[k3] == 0x2c);
            assert(ws_end(b, k3) == k3);
        }
        assert(seq![ps[0]] + rest =~= ps);
    }
}

/// The forms of a word's entry in the words index, as (key, value) pairs in written order.
pub open spec fn form_pairs(w: WordTextView) -> Seq<(Seq<char>, Seq<char>)> {
    seq![
        ("rasm_uthmani"@, w.1),
        ("rasm_imlai"@, w.2),
        ("qpc"@, w.3),
        ("rasm"@, w.4),
        ("search"@, w.5),
    ]
}

/// What the sidecar reader makes of a written word: its key, and every form present.
pub open spec fn read_back(w: WordTextView) -> (Seq<char>, FormsView) {
    (w.0, (Some(w.1), Some(w.2), Some(w.3), Some(w.4), Some(w.5)))
}

proof fn lemma_forms(w: WordTextView)
    ensures
        forms_of(form_pairs(w)) == (None::<Seq<char>>, read_back(w).1),
{
    reveal_strlit("rasm_uthmani");
    reveal_strlit("uthmani");
    reveal_strlit("rasm_imlai");
    reveal_strlit("imlaei");
    reveal_strlit("qpc");
    reveal_strlit("rasm");
    reveal_strlit("search");
    reveal_strlit("word_key");
    assert("rasm_uthmani"@.len() == 12 && "uthmani"@.len() == 7 && "rasm_imlai"@.len() == 10);
    assert("imlaei"@.len() == 6 && "qpc"@.len() == 3 && "rasm"@.len() == 4 && "search"@.len() == 6);
    let ps = form_pairs(w);
    let e = Seq::<(Seq<char>, Seq<char>)>::empty();
    let p1 = e.push(("rasm_uthmani"@, w.1));
    let p2 = p1.push(("rasm_imlai"@, w.2));
    let p3 = p2.push(("qpc"@, w.3));
    let p4 = p3.push(("rasm"@, w.4));
    assert(ps =~= p4.push(("search"@, w.5)));
    assert(p4.push(("search"@, w.5)).drop_last() =~= p4);
    assert(p4.drop_last() =~= p3);
    assert(p3.drop_last() =~= p2);
    assert(p2.drop_last() =~= p1);
    assert(p1.drop_last() =~= e);
    let n = None::<Seq<char>>;
    assert(forms_of(e) == (n, crate::sidecar::no_forms()));
    assert(forms_of(p1) == (n, (Some(w.1), None::<Seq<char>>, None::<Seq<char>>, None::<Seq<char>>, None::<Seq<char>>)));
    assert(forms_of(p2) == (n, (Some(w.1), Some(w.2), None::<Seq<char>>, None::<Seq<char>>, None::<Seq<char>>))) by {
        assert("rasm_imlai"@ != "rasm_uthmani"@);
        assert("rasm_imlai"@ != "uthmani"@);
    }
    assert(forms_of(p3) == (n, (Some(w.1), Some(w.2), Some(w.3), None::<Seq<char>>, None::<Seq<char>>))) by {
        assert("qpc"@ != "rasm_uthmani"@ && "qpc"@ != "uthmani"@ && "qpc"@ != "rasm_imlai"@ && "qpc"@ != "imlaei"@);
    }
    assert(forms_of(p4) == (n, (Some(w.1), Some(w.2), Some(w.3), Some(w.4), None::<Seq<char>>))) by {
        assert("rasm"@ != "rasm_uthmani"@ && "rasm"@ != "uthmani"@ && "rasm"@ != "rasm_imlai"@ && "rasm"@ != "imlaei"@);
        assert("rasm"@[0] != "qpc"@[0]);
    }
    assert(forms_of(ps) == (n, read_back(w).1)) by {
        assert("search"@ != "rasm_uthmani"@ && "search"@ != "uthmani"@ && "search"@ != "rasm_imlai"@);
        assert("search"@[0] != "imlaei"@[0]);
        assert("search"@ != "qpc"@ && "search"@ != "rasm"@);
    }
}

proof fn lemma_quoted_plain(k: Seq<char>)
    requires
        forall|i: int| 0 <= i < k.len() ==> #[trigger] k[i] == '_' || ('a' <= k[i] && k[i] <= 'z'),
    ensures
        json_literal(k) == seq!['"'] + k + seq!['"'],
{
    assert forall|i: int| 0 <= i < k.len() implies plain(#[trigger] k[i]) by {}
    lemma_escaped_plain(k);
}

/// A word's entry: its key, then an object of its five forms.
#[verifier::rlimit(40)]
proof fn lemma_entry_text(w: WordTextView)
    ensures
        word_entry(w) == json_literal(w.0) + seq![':', '{'] + members_text(form_pairs(w)),
{
    reveal_strlit("rasm_uthmani");
    reveal_strlit("rasm_imlai");
    reveal_strlit("qpc");
    reveal_strlit("rasm");
    reveal_strlit("search");
    reveal_strlit(":{\"rasm_uthmani\":");
    reveal_strlit(",\"rasm_imlai\":");
    reveal_strlit(",\"qpc\":");
    reveal_strlit(",\"rasm\":");
    reveal_strlit(",\"search\":");
    lemma_quoted_plain("rasm_uthmani"@);
    lemma_quoted_plain("rasm_imlai"@);
    lemma_quoted_plain("qpc"@);
    lemma_quoted_plain("rasm"@);
    lemma_quoted_plain("search"@);
    let ps = form_pairs(w);
    reveal_with_fuel(members_text, 6);
    assert(ps.drop_first().drop_first().drop_first().drop_first() =~= seq![("search"@, w.5)]);
    assert(ps.drop_first().drop_first().drop_first() =~= seq![("rasm"@, w.4), ("search"@, w.5)]);
    assert(ps.drop_first().drop_first() =~= seq![("qpc"@, w.3), ("rasm"@, w.4), ("search"@, w.5)]);
    assert(ps.drop_first() =~= seq![("rasm_imlai"@, w.2), ("qpc"@, w.3), ("rasm"@, w.4), ("search"@, w.5)]);
    assert(":{\"rasm_uthmani\":"@ =~= seq![':', '{'] + json_literal("rasm_uthmani"@) + seq![':']);
    assert(",\"rasm_imlai\":"@ =~= seq![','] + json_literal("rasm_imlai"@) + seq![':']);
    assert(",\"qpc\":"@ =~= seq![','] + json_literal("qpc"@) + seq![':']);
    assert(",\"rasm\":"@ =~= seq![','] + json_literal("rasm"@) + seq![':']);
    assert(",\"search\":"@ =~= seq![','] + json_literal("search"@) + seq![':']);
    assert(word_entry(w) =~= json_literal(w.0) + seq![':', '{'] + members_text(ps));
}

/// A key followed by an object of string members.
pub open spec fn keyed_object_text(k: Seq<char>, ps: Seq<(Seq<char>, Seq<char>)>) -> Seq<char> {
    json_literal(k) + seq![':', '{'] + members_text(ps)
}

/// An object of string members written after `pre` reads back as its pairs.
proof fn lemma_object(ps: Seq<(Seq<char>, Seq<char>)>, pre: Seq<u8>, post: Seq<u8>)
    ensures
        string_object_at(pre + seq![0x7bu8] + encode_utf8(members_text(ps)) + post, pre.len() as int)
            == Some::<(Seq<(Seq<char>, Seq<char>)>, int)>(
            (ps, pre.len() + 1 + encode_utf8(members_text(ps)).len() as int),
        ),
{
    let b = pre + seq![0x7bu8] + encode_utf8(members_text(ps)) + post;
    let i = pre.len() as int;
    assert(b[i] == 0x7b);
    assert(ws_end(b, i) == i);
    lemma_members(ps, pre + seq![0x7bu8], post);
}

/// The bytes of a keyed object: the key's literal, a colon, an opening brace, the members.
proof fn lemma_keyed_bytes(k: Seq<char>, ps: Seq<(Seq<char>, Seq<char>)>)
    ensures
        encode_utf8(keyed_object_text(k, ps)) == encode_utf8(json_literal(k)) + seq![0x3au8] + seq![0x7bu8]
            + encode_utf8(members_text(ps)),
{
    lemma_encode_concat(json_literal(k) + seq![':', '{'], members_text(ps));
    lemma_encode_concat(json_literal(k), seq![':', '{']);
    lemma_encode_concat(seq![':'], seq!['{']);
    lemma_encode_ascii(':');
    lemma_encode_ascii('{');
    assert(seq![':'] + seq!['{'] =~= seq![':', '{']);
    assert(encode_utf8(seq![':', '{']) =~= seq![0x3au8] + seq![0x7bu8]);
    assert(encode_utf8(keyed_object_text(k, ps)) =~= encode_utf8(json_literal(k)) + seq![0x3au8] + seq![0x7bu8]
        + encode_utf8(members_text(ps)));
}

/// A keyed object written after `pre` reads back as the key and the forms its members give.
#[verifier::rlimit(80)]
#[verifier::spinoff_prover]
proof fn lemma_keyed_object(k: Seq<char>, ps: Seq<(Seq<char>, Seq<char>)>, pre: Seq<u8>, post: Seq<u8>)
    ensures
        encode_utf8(keyed_object_text(k, ps)).len() > 0,
        encode_utf8(keyed_object_text(k, ps))[0] == 0x22,
        entry_at(pre + encode_utf8(keyed_object_text(k, ps)) + post, pre.len() as int) == Some::<(Seq<(Seq<char>, FormsView)>, int)>(
            (seq![(k, forms_of(ps).1)], pre.len() + encode_utf8(keyed_object_text(k, ps)).len() as int),
        ),
{
    let ek = encode_utf8(json_literal(k));
    let eo = encode_utf8(members_text(ps));
    lemma_keyed_bytes(k, ps);
    let e = encode_utf8(keyed_object_text(k, ps));
    let b = pre + e + post;
    let i = pre.len() as int;
    let k1 = i + ek.len();
    let j2 = k1 + 1;
    lemma_string_at(k, pre, seq![0x3au8] + seq![0x7bu8] + eo + post);
    assert(b =~= pre + ek + (seq![0x3au8] + seq![0x7bu8] + eo + post));
    lemma_object(ps, pre + ek + seq![0x3au8], post);
    assert(b =~= (pre + ek + seq![0x3au8]) + seq![0x7bu8] + eo + post);
    assert(b[k1] == 0x3a && b[j2] == 0x7b);
    assert(ws_end(b, k1) == k1);
    assert(eaten(b, k1, 0x3a) == (true, j2));
    assert(ws_end(b, j2) == j2);
    assert(string_at(b, i) == Some::<(Seq<char>, int)>((k, k1)));
    assert(string_object_at(b, j2) == Some::<(Seq<(Seq<char>, Seq<char>)>, int)>((ps, i + e.len())));
    reveal(entry_at);
}

/// A word's entry written after `pre` reads back as the word's key and forms.
proof fn lemma_entry(w: WordTextView, pre: Seq<u8>, post: Seq<u8>)
    ensures
        encode_utf8(word_entry(w)).len() > 0,
        encode_utf8(word_entry(w))[0] == 0x22,
        entry_at(pre + encode_utf8(word_entry(w)) + post, pre.len() as int) == Some::<(Seq<(Seq<char>, FormsView)>, int)>(
            (seq![read_back(w)], pre.len() + encode_utf8(word_entry(w)).len() as int),
        ),
{
    lemma_entry_text(w);
    assert(word_entry(w) == keyed_object_text(w.0, form_pairs(w)));
    lemma_keyed_object(w.0, form_pairs(w), pre, post);
    lemma_forms(w);
}

/// The entries of a run of words, read from the front: the first, then a comma and the rest.
proof fn lemma_entries_front(ws: Seq<WordTextView>)
    requires
        ws.len() > 0,
    ensures
        word_entries(ws) == if ws.len() == 1 {
            word_entry(ws[0])
        } else {
            word_entry(ws[0]) + seq![','] + word_entries(ws.drop_first())
        },
    decreases ws.len(),
{
    if ws.len() > 2 {
        let a = ws.drop_last();
        let c = ws.drop_first();
        lemma_entries_front(a);
        assert(a.drop_first() =~= c.drop_last());
        assert(c.last() == ws.last());
        assert(a[0] == ws[0]);
        assert(word_entries(ws) == word_entries(a) + seq![','] + word_entry(ws.last()));
        assert(word_entries(a) == word_entry(ws[0]) + seq![','] + word_entries(a.drop_first()));
        assert(word_entries(c) == word_entries(c.drop_last()) + seq![','] + word_entry(c.last()));
        assert(word_entries(ws) =~= word_entry(ws[0]) + seq![','] + word_entries(c));
    } else if ws.len() == 2 {
        assert(ws.drop_last() =~= seq![ws[0]]);
        assert(ws.drop_first() =~= seq![ws[1]]);
        assert(word_entries(seq![ws[0]]) == word_entry(ws[0]));
        assert(word_entries(seq![ws[1]]) == word_entry(ws[1]));
        assert(ws.last() == ws[1]);
        assert(word_entries(ws) == word_entries(ws.drop_last()) + seq![','] + word_entry(ws.last()));
    }
}

/// Written entries read back as their words, in order, to the closing `}`.
#[verifier::rlimit(80)]
#[verifier::spinoff_prover]
proof fn lemma_entries(ws: Seq<WordTextView>, pre: Seq<u8>, post: Seq<u8>)
    ensures
        sidecar_entries(pre + encode_utf8(word_entries(ws)) + seq![0x7du8] + post, pre.len() as int) == Some(
            ws.map_values(|w: WordTextView| read_back(w)),
        ),
    decreases ws.len(),
{
    let e = encode_utf8(word_entries(ws));
    let b = pre + e + seq![0x7du8] + post;
    let i = pre.len() as int;
    if ws.len() == 0 {
        assert(word_entries(ws) =~= Seq::<char>::empty());
        assert(e =~= Seq::<u8>::empty());
        assert(b[i] == 0x7d);
        assert(ws_end(b, i) == i);
        assert(ws.map_values(|w: WordTextView| read_back(w)) =~= Seq::<(Seq<char>, FormsView)>::empty());
    } else {
        lemma_entries_front(ws);
        let e0 = encode_utf8(word_entry(ws[0]));
        let rest = ws.drop_first();
        let (pre2, rest_ws) = if ws.len() == 1 {
            (pre + e0, Seq::<WordTextView>::empty())
        } else {
            (pre + e0 + seq![0x2cu8], rest)
        };
        let er = encode_utf8(word_entries(rest_ws));
        if ws.len() == 1 {
            assert(word_entries(rest_ws) =~= Seq::<char>::empty());
            assert(er =~= Seq::<u8>::empty());
            assert(e == e0);
        } else {
            lemma_encode_concat(word_entry(ws[0]) + seq![','], word_entries(rest));
            lemma_encode_concat(word_entry(ws[0]), seq![',']);
            lemma_encode_ascii(',');
            assert(e =~= e0 + seq![0x2cu8] + er);
        }
        assert(b =~= pre2 + er + seq![0x7du8] + post);
        lemma_entries(rest_ws, pre2, post);
        let tail = if ws.len() == 1 { seq![0x7du8] + post } else { seq![0x2cu8] + er + seq![0x7du8] + post };
        assert(b =~= pre + e0 + tail);
        lemma_entry(ws[0], pre, tail);
        assert(b[i] == 0x22);
        assert(ws_end(b, i) == i);
        let k3 = i + e0.len();
        assert(ws_end(b, k3) == k3);
        if ws.len() == 1 {
            assert(b[k3] == 0x7d);
            assert(rest_ws.map_values(|w: WordTextView| read_back(w)) =~= Seq::<(Seq<char>, FormsView)>::empty());
        } else {
            assert(b[k3] == 0x2c);
        }
        assert(ws.map_values(|w: WordTextView| read_back(w)) =~= seq![read_back(ws[0])] + rest.map_values(
            |w: WordTextView| read_back(w),
        ));
    }
}

/// The words index a page writes reads back, through the words sidecar reader, as every word
/// with its key and all five of its forms, in order, repeated keys kept.
pub proof fn words_index_round_trip(ws: Seq<WordTextView>)
    ensures
        sidecar(encode_utf8(seq!['{'] + word_entries(ws) + seq!['}'])) == Some(
            ws.map_values(|w: WordTextView| read_back(w)),
        ),
{
    let e = encode_utf8(word_entries(ws));
    lemma_encode_concat(seq!['{'] + word_entries(ws), seq!['}']);
    lemma_encode_concat(seq!['{'], word_entries(ws));
    lemma_encode_ascii('{');
    lemma_encode_ascii('}');
    let b = encode_utf8(seq!['{'] + word_entries(ws) + seq!['}']);
    assert(b =~= seq![0x7bu8] + e + seq![0x7du8] + Seq::<u8>::empty());
    assert(b[0] == 0x7b);
    assert(ws_end(b, 0) == 0);
    lemma_entries(ws, seq![0x7bu8], Seq::<u8>::empty());
}


} // verus!
