//! The catalogue's JSON values: objects, arrays, strings, `true`, `false`, `null` and numbers,
//! read from bytes into a tree. A number is kept as the text it is written in, once that text is
//! known to be a decimal number (sign, digits, point, exponent); turning it into a binary
//! fraction is left to the caller.
use vstd::prelude::*;
use crate::json::{json_body, json_string, lit_at, peek_at, JsonReader};
use crate::sidecar::{lemma_run_end, lemma_ws_end, run_end, ws_end};
use crate::strings::push_char;

verus! {

/// A JSON value. An object keeps its members in the order they are written, repeated keys
/// included.
#[derive(Debug)]
pub enum JsonValue {
    Null,
    Bool(bool),
    Num(String),
    Str(String),
    Arr(Vec<JsonValue>),
    Obj(Vec<(String, JsonValue)>),
}

/// A JSON value as plain values.
pub enum JsonView {
    Null,
    Bool(bool),
    Num(Seq<char>),
    Str(Seq<char>),
    Arr(Seq<JsonView>),
    Obj(Seq<(Seq<char>, JsonView)>),
}

pub open spec fn jview(v: JsonValue) -> JsonView
    decreases v,
{
    match v {
        JsonValue::Null => JsonView::Null,
        JsonValue::Bool(b) => JsonView::Bool(b),
        JsonValue::Num(s) => JsonView::Num(s@),
        JsonValue::Str(s) => JsonView::Str(s@),
        JsonValue::Arr(a) => JsonView::Arr(jviews(a@)),
        JsonValue::Obj(m) => JsonView::Obj(jmembers(m@)),
    }
}

pub open spec fn jviews(s: Seq<JsonValue>) -> Seq<JsonView>
    decreases s,
{
    if s.len() == 0 {
        Seq::empty()
    } else {
        jviews(s.drop_last()).push(jview(s.last()))
    }
}

pub open spec fn jmembers(s: Seq<(String, JsonValue)>) -> Seq<(Seq<char>, JsonView)>
    decreases s,
{
    if s.len() == 0 {
        Seq::empty()
    } else {
        jmembers(s.drop_last()).push((s.last().0@, jview(s.last().1)))
    }
}

/// Why a value does not read: a message of the byte reader, a key without its `:`, the byte
/// found where a `,` or the closing bracket belongs, or a number that is not one.
#[derive(Debug)]
pub enum JsonError {
    Msg(String),
    ColonAfter(String),
    CommaOrBrace(u8),
    CommaOrBracket(u8),
    BadNumber,
}

pub enum JsonErrorView {
    Msg(Seq<char>),
    ColonAfter(Seq<char>),
    CommaOrBrace(u8),
    CommaOrBracket(u8),
    BadNumber,
}

impl View for JsonError {
    type V = JsonErrorView;

    open spec fn view(&self) -> JsonErrorView {
        match self {
            JsonError::Msg(m) => JsonErrorView::Msg(m@),
            JsonError::ColonAfter(k) => JsonErrorView::ColonAfter(k@),
            JsonError::CommaOrBrace(c) => JsonErrorView::CommaOrBrace(*c),
            JsonError::CommaOrBracket(c) => JsonErrorView::CommaOrBracket(*c),
            JsonError::BadNumber => JsonErrorView::BadNumber,
        }
    }
}

/// A byte a number's text may hold.
pub open spec fn is_num_byte(c: u8) -> bool {
    (0x30 <= c <= 0x39) || c == 0x2d || c == 0x2b || c == 0x2e || c == 0x65 || c == 0x45
}

/// The end of the run of number bytes from `i`.
pub open spec fn num_end(b: Seq<u8>, i: int) -> int
    decreases b.len() - i,
{
    if 0 <= i < b.len() && is_num_byte(b[i]) {
        num_end(b, i + 1)
    } else {
        i
    }
}

/// The end of the run of decimal digits from `p`.
pub open spec fn digits_end(t: Seq<u8>, p: int) -> int
    decreases t.len() - p,
{
    if 0 <= p < t.len() && 0x30 <= t[p] <= 0x39 {
        digits_end(t, p + 1)
    } else {
        p
    }
}

pub open spec fn is_sign(c: u8) -> bool {
    c == 0x2b || c == 0x2d
}

/// Nothing more, or an exponent: `e` or `E`, a sign if any, then digits to the end.
pub open spec fn exp_ok(t: Seq<u8>, p: int) -> bool {
    p == t.len() || (0 <= p < t.len() && (t[p] == 0x65 || t[p] == 0x45) && {
        let q = if p + 1 < t.len() && is_sign(t[p + 1]) { p + 2 } else { p + 1 };
        digits_end(t, q) > q && digits_end(t, q) == t.len()
    })
}

/// A decimal number: a sign if any, then digits with an optional point and more digits, or a
/// point and digits, then an optional exponent.
pub open spec fn float_text(t: Seq<u8>) -> bool {
    let a: int = if t.len() > 0 && is_sign(t[0]) { 1 } else { 0 };
    let d = digits_end(t, a);
    if d > a {
        if d < t.len() && t[d] == 0x2e {
            exp_ok(t, digits_end(t, d + 1))
        } else {
            exp_ok(t, d)
        }
    } else {
        d < t.len() && t[d] == 0x2e && digits_end(t, d + 1) > d + 1 && exp_ok(t, digits_end(t, d + 1))
    }
}

/// The characters of ASCII bytes.
pub open spec fn ascii_text(t: Seq<u8>) -> Seq<char> {
    t.map_values(|c: u8| c as char)
}

pub proof fn lemma_json_body_end(b: Seq<u8>, i: int)
    ensures
        json_body(b, i) matches Ok((_, e)) ==> i < e <= b.len(),
    decreases b.len() - i,
{
    if 0 <= i < b.len() && b[i] != 0x22 {
        if b[i] == 0x5c {
            if i + 1 < b.len() {
                if let Ok((_, k)) = crate::json::json_escape(b, i + 2, b[i + 1]) {
                    if k > i {
                        lemma_json_body_end(b, k);
                    }
                }
            }
        } else {
            lemma_run_end(b, i);
            let end = run_end(b, i);
            if end > i {
                lemma_json_body_end(b, end);
            }
        }
    }
}

pub proof fn lemma_json_string_end(b: Seq<u8>, i: int)
    requires
        0 <= i <= b.len(),
    ensures
        json_string(b, i) matches Ok((_, e)) ==> i < e <= b.len(),
{
    lemma_ws_end(b, i);
    lemma_json_body_end(b, ws_end(b, i) + 1);
}

pub open spec fn obj_of(r: Result<(Seq<(Seq<char>, JsonView)>, int), JsonErrorView>) -> Result<(JsonView, int), JsonErrorView> {
    match r {
        Err(e) => Err(e),
        Ok((ms, e)) => Ok((JsonView::Obj(ms), e)),
    }
}

pub open spec fn arr_of(r: Result<(Seq<JsonView>, int), JsonErrorView>) -> Result<(JsonView, int), JsonErrorView> {
    match r {
        Err(e) => Err(e),
        Ok((vs, e)) => Ok((JsonView::Arr(vs), e)),
    }
}

/// The value read at `i`, white space first, and where reading goes on.
pub open spec fn value_at(b: Seq<u8>, i: int) -> Result<(JsonView, int), JsonErrorView>
    decreases b.len() - i, 0int,
{
    if !(0 <= i <= b.len()) {
        Err(JsonErrorView::Msg(Seq::empty()))
    } else {
        match peek_at(b, i) {
            Err(m) => Err(JsonErrorView::Msg(m)),
            Ok((c, j)) => {
                proof {
                    lemma_ws_end(b, i);
                }
                if c == 0x7b || c == 0x5b {
                    proof {
                        lemma_ws_end(b, j + 1);
                    }
                    match peek_at(b, j + 1) {
                        Err(m) => Err(JsonErrorView::Msg(m)),
                        Ok((c2, j2)) => if c == 0x7b {
                            if c2 == 0x7d {
                                Ok((JsonView::Obj(Seq::empty()), j2 + 1))
                            } else {
                                obj_of(members_at(b, j2))
                            }
                        } else {
                            if c2 == 0x5d {
                                Ok((JsonView::Arr(Seq::empty()), j2 + 1))
                            } else {
                                arr_of(items_at(b, j2))
                            }
                        },
                    }
                } else if c == 0x22 {
                    match json_string(b, j) {
                        Err(m) => Err(JsonErrorView::Msg(m)),
                        Ok((s, e)) => Ok((JsonView::Str(s), e)),
                    }
                } else if c == 0x74 && lit_at(b, j, seq![0x74u8, 0x72, 0x75, 0x65]) {
                    Ok((JsonView::Bool(true), j + 4))
                } else if c == 0x66 && lit_at(b, j, seq![0x66u8, 0x61, 0x6c, 0x73, 0x65]) {
                    Ok((JsonView::Bool(false), j + 5))
                } else if c == 0x6e && lit_at(b, j, seq![0x6eu8, 0x75, 0x6c, 0x6c]) {
                    Ok((JsonView::Null, j + 4))
                } else {
                    let e = num_end(b, j);
                    if float_text(b.subrange(j, e)) {
                        Ok((JsonView::Num(ascii_text(b.subrange(j, e))), e))
                    } else {
                        Err(JsonErrorView::BadNumber)
                    }
                }
            },
        }
    }
}

/// The members of an object from `k` (just past `{`, not empty) to just past its `}`.
pub open spec fn members_at(b: Seq<u8>, k: int) -> Result<(Seq<(Seq<char>, JsonView)>, int), JsonErrorView>
    decreases b.len() - k, 1int,
{
    if !(0 <= k <= b.len()) {
        Err(JsonErrorView::Msg(Seq::empty()))
    } else {
        match json_string(b, k) {
            Err(m) => Err(JsonErrorView::Msg(m)),
            Ok((key, k1)) => {
                proof {
                    lemma_json_string_end(b, k);
                    lemma_ws_end(b, k1);
                }
                match peek_at(b, k1) {
                    Err(m) => Err(JsonErrorView::Msg(m)),
                    Ok((c, j)) => if c != 0x3a {
                        Err(JsonErrorView::ColonAfter(key))
                    } else {
                        match value_at(b, j + 1) {
                            Err(e) => Err(e),
                            Ok((v, k2)) => match peek_at(b, k2) {
                                Err(m) => Err(JsonErrorView::Msg(m)),
                                Ok((c2, j2)) => if c2 == 0x2c {
                                    if j2 < k {
                                        Err(JsonErrorView::Msg(Seq::empty()))
                                    } else {
                                        match members_at(b, j2 + 1) {
                                            Err(e) => Err(e),
                                            Ok((rest, e)) => Ok((seq![(key, v)] + rest, e)),
                                        }
                                    }
                                } else if c2 == 0x7d {
                                    Ok((seq![(key, v)], j2 + 1))
                                } else {
                                    Err(JsonErrorView::CommaOrBrace(c2))
                                },
                            },
                        }
                    },
                }
            },
        }
    }
}

/// The items of an array from `k` (just past `[`, not empty) to just past its `]`.
pub open spec fn items_at(b: Seq<u8>, k: int) -> Result<(Seq<JsonView>, int), JsonErrorView>
    decreases b.len() - k, 1int,
{
    if !(0 <= k <= b.len()) {
        Err(JsonErrorView::Msg(Seq::empty()))
    } else {
        match value_at(b, k) {
            Err(e) => Err(e),
            Ok((v, k2)) => match peek_at(b, k2) {
                Err(m) => Err(JsonErrorView::Msg(m)),
                Ok((c2, j2)) => if c2 == 0x2c {
                    if j2 < k {
                        Err(JsonErrorView::Msg(Seq::empty()))
                    } else {
                        match items_at(b, j2 + 1) {
                            Err(e) => Err(e),
                            Ok((rest, e)) => Ok((seq![v] + rest, e)),
                        }
                    }
                } else if c2 == 0x5d {
                    Ok((seq![v], j2 + 1))
                } else {
                    Err(JsonErrorView::CommaOrBracket(c2))
                },
            },
        }
    }
}

proof fn lemma_digits_end(t: Seq<u8>, p: int)
    requires
        0 <= p <= t.len(),
    ensures
        p <= digits_end(t, p) <= t.len(),
    decreases t.len() - p,
{
    if p < t.len() && 0x30 <= t[p] <= 0x39 {
        lemma_digits_end(t, p + 1);
    }
}

proof fn lemma_num_end(b: Seq<u8>, i: int)
    requires
        0 <= i <= b.len(),
    ensures
        i <= num_end(b, i) <= b.len(),
    decreases b.len() - i,
{
    if i < b.len() && is_num_byte(b[i]) {
        lemma_num_end(b, i + 1);
    }
}

fn digits_to(t: &Vec<u8>, p: usize) -> (e: usize)
    requires
        p <= t@.len(),
    ensures
        e == digits_end(t@, p as int),
        p <= e <= t@.len(),
{
    proof {
        lemma_digits_end(t@, p as int);
    }
    let mut e = p;
    while e < t.len() && 0x30 <= t[e] && t[e] <= 0x39
        invariant
            p <= e <= t@.len(),
            digits_end(t@, e as int) == digits_end(t@, p as int),
        decreases t@.len() - e,
    {
        e += 1;
    }
    e
}

fn exp_fine(t: &Vec<u8>, p: usize) -> (r: bool)
    requires
        p <= t@.len(),
    ensures
        r == exp_ok(t@, p as int),
{
    let n = t.len();
    if p == n {
        return true;
    }
    if !(t[p] == 0x65 || t[p] == 0x45) {
        return false;
    }
    let q = if p + 1 < n && (t[p + 1] == 0x2b || t[p + 1] == 0x2d) { p + 2 } else { p + 1 };
    let d = digits_to(t, q);
    d > q && d == n
}

/// Whether bytes spell a decimal number.
pub fn is_float_text(t: &Vec<u8>) -> (r: bool)
    ensures
        r == float_text(t@),
{
    let n = t.len();
    let a: usize = if n > 0 && (t[0] == 0x2b || t[0] == 0x2d) { 1 } else { 0 };
    let d = digits_to(t, a);
    if d > a {
        if d < n && t[d] == 0x2e {
            let d2 = digits_to(t, d + 1);
            exp_fine(t, d2)
        } else {
            exp_fine(t, d)
        }
    } else {
        if d < n && t[d] == 0x2e {
            let d2 = digits_to(t, d + 1);
            d2 > d + 1 && exp_fine(t, d2)
        } else {
            false
        }
    }
}

impl<'a> JsonReader<'a> {
    /// Read the bytes `w` when the bytes here start with them.
    fn word(&mut self, w: &[u8]) -> (r: bool)
        requires
            old(self).i <= old(self).b@.len(),
        ensures
            final(self).b == old(self).b,
            r == lit_at(old(self).b@, old(self).i as int, w@),
            final(self).i == (if r { old(self).i + w@.len() } else { old(self).i as int }),
            final(self).i <= final(self).b@.len(),
    {
        let n = w.len();
        let len = self.b.len();
        if len - self.i < n {
            return false;
        }
        let mut k: usize = 0;
        while k < n
            invariant
                n == w@.len(),
                len == self.b@.len(),
                self.i + n <= len,
                k <= n,
                forall|j: int| 0 <= j < k ==> self.b@[self.i + j] == w@[j],
            decreases n - k,
        {
            if self.b[self.i + k] != w[k] {
                assert(self.b@.subrange(self.i as int, self.i + n)[k as int] != w@[k as int]);
                return false;
            }
            k += 1;
        }
        assert(self.b@.subrange(self.i as int, self.i + n) =~= w@);
        self.i += n;
        true
    }

    /// A number's text from here, when it is a decimal number.
    fn number(&mut self) -> (r: Result<JsonValue, JsonError>)
        requires
            old(self).i <= old(self).b@.len(),
        ensures
            final(self).b == old(self).b,
            final(self).i <= final(self).b@.len(),
            ({
                let e = num_end(old(self).b@, old(self).i as int);
                let t = old(self).b@.subrange(old(self).i as int, e);
                if float_text(t) {
                    r matches Ok(v) && jview(v) == JsonView::Num(ascii_text(t)) && final(self).i == e
                        && e > old(self).i
                } else {
                    r matches Err(x) && x@ == JsonErrorView::BadNumber
                }
            }),
    {
        let j = self.i;
        let len = self.b.len();
        proof {
            lemma_num_end(self.b@, j as int);
        }
        let mut e = j;
        while e < len && (0x30 <= self.b[e] && self.b[e] <= 0x39 || self.b[e] == 0x2d || self.b[e] == 0x2b
            || self.b[e] == 0x2e || self.b[e] == 0x65 || self.b[e] == 0x45)
            invariant
                len == self.b@.len(),
                j <= e <= len,
                num_end(self.b@, e as int) == num_end(self.b@, j as int),
            decreases len - e,
        {
            e += 1;
        }
        let mut t: Vec<u8> = Vec::new();
        let mut k = j;
        while k < e
            invariant
                len == self.b@.len(),
                j <= k <= e <= len,
                t@ == self.b@.subrange(j as int, k as int),
            decreases e - k,
        {
            t.push(self.b[k]);
            k += 1;
            assert(t@ =~= self.b@.subrange(j as int, k as int));
        }
        if !is_float_text(&t) {
            return Err(JsonError::BadNumber);
        }
        assert(t@.len() > 0) by {
            if t@.len() == 0 {
                assert(digits_end(t@, 0) == 0);
            }
        }
        let mut s = String::new();
        let mut m: usize = 0;
        while m < t.len()
            invariant
                m <= t@.len(),
                s@ == ascii_text(t@.take(m as int)),
            decreases t@.len() - m,
        {
            push_char(&mut s, t[m] as char);
            m += 1;
            assert(ascii_text(t@.take(m as int)) =~= ascii_text(t@.take(m - 1)).push(t@[m - 1] as char));
        }
        assert(t@.take(t@.len() as int) =~= t@);
        self.i = e;
        Ok(JsonValue::Num(s))
    }
}

/// Members read so far, in front of what the rest gives.
pub open spec fn with_members(
    p: Seq<(Seq<char>, JsonView)>,
    r: Result<(Seq<(Seq<char>, JsonView)>, int), JsonErrorView>,
) -> Result<(Seq<(Seq<char>, JsonView)>, int), JsonErrorView> {
    match r {
        Err(e) => Err(e),
        Ok((rest, e)) => Ok((p + rest, e)),
    }
}

/// Items read so far, in front of what the rest gives.
pub open spec fn with_items(p: Seq<JsonView>, r: Result<(Seq<JsonView>, int), JsonErrorView>) -> Result<
    (Seq<JsonView>, int),
    JsonErrorView,
> {
    match r {
        Err(e) => Err(e),
        Ok((rest, e)) => Ok((p + rest, e)),
    }
}

impl<'a> JsonReader<'a> {
    /// A JSON value, white space first.
    #[verifier::rlimit(40)]
    pub fn value(&mut self) -> (r: Result<JsonValue, JsonError>)
        requires
            old(self).i <= old(self).b@.len(),
        ensures
            final(self).b == old(self).b,
            final(self).i <= final(self).b@.len(),
            match value_at(old(self).b@, old(self).i as int) {
                Err(e) => r matches Err(x) && x@ == e,
                Ok((v, e)) => r matches Ok(x) && jview(x) == v && final(self).i == e && e > old(self).i,
            },
        decreases old(self).b@.len() - old(self).i, 0int,
    {
        let ghost b = self.b@;
        let ghost i0 = self.i as int;
        let len = self.b.len();
        proof {
            lemma_ws_end(b, i0);
        }
        let c = match self.peek() {
            Err(m) => return Err(JsonError::Msg(m)),
            Ok(c) => c,
        };
        let j = self.i;
        if c == 0x7b || c == 0x5b {
            self.i += 1;
            proof {
                lemma_ws_end(b, j + 1);
            }
            let c2 = match self.peek() {
                Err(m) => return Err(JsonError::Msg(m)),
                Ok(c2) => c2,
            };
            if c == 0x7b {
                if c2 == 0x7d {
                    self.i += 1;
                    return Ok(JsonValue::Obj(Vec::new()));
                }
                match self.members() {
                    Err(e) => Err(e),
                    Ok(ms) => Ok(JsonValue::Obj(ms)),
                }
            } else {
                if c2 == 0x5d {
                    self.i += 1;
                    return Ok(JsonValue::Arr(Vec::new()));
                }
                match self.items() {
                    Err(e) => Err(e),
                    Ok(vs) => Ok(JsonValue::Arr(vs)),
                }
            }
        } else if c == 0x22 {
            proof {
                lemma_json_string_end(b, j as int);
            }
            match self.string() {
                Err(m) => Err(JsonError::Msg(m)),
                Ok(s) => Ok(JsonValue::Str(s)),
            }
        } else if c == 0x74 && self.word(&[0x74u8, 0x72, 0x75, 0x65]) {
            Ok(JsonValue::Bool(true))
        } else if c == 0x66 && self.word(&[0x66u8, 0x61, 0x6c, 0x73, 0x65]) {
            Ok(JsonValue::Bool(false))
        } else if c == 0x6e && self.word(&[0x6eu8, 0x75, 0x6c, 0x6c]) {
            Ok(JsonValue::Null)
        } else {
            self.number()
        }
    }

    /// The members of an object, from its first key to just past its `}`.
    #[verifier::rlimit(40)]
    fn members(&mut self) -> (r: Result<Vec<(String, JsonValue)>, JsonError>)
        requires
            old(self).i <= old(self).b@.len(),
        ensures
            final(self).b == old(self).b,
            final(self).i <= final(self).b@.len(),
            match members_at(old(self).b@, old(self).i as int) {
                Err(e) => r matches Err(x) && x@ == e,
                Ok((ms, e)) => r matches Ok(x) && jmembers(x@) == ms && final(self).i == e && e > old(self).i,
            },
        decreases old(self).b@.len() - old(self).i, 1int,
    {
        let ghost b = self.b@;
        let ghost k0 = self.i as int;
        let len = self.b.len();
        let mut ms: Vec<(String, JsonValue)> = Vec::new();
        assert(jmembers(ms@) =~= Seq::<(Seq<char>, JsonView)>::empty());
        assert(with_members(Seq::empty(), members_at(b, k0)) == members_at(b, k0)) by {
            match members_at(b, k0) {
                Ok((rest, e)) => {
                    assert(Seq::<(Seq<char>, JsonView)>::empty() + rest =~= rest);
                },
                Err(e) => {},
            }
        }
        loop
            invariant
                self.b == old(self).b,
                self.b@ == b,
                len == b.len(),
                b == old(self).b@,
                k0 == old(self).i,
                k0 <= self.i <= b.len(),
                ms@.len() > 0 ==> self.i > k0,
                members_at(b, k0) == with_members(jmembers(ms@), members_at(b, self.i as int)),
            decreases b.len() - self.i,
        {
            let ghost k = self.i as int;
            proof {
                lemma_json_string_end(b, k);
            }
            let key = match self.string() {
                Err(m) => return Err(JsonError::Msg(m)),
                Ok(key) => key,
            };
            let ghost k1 = self.i as int;
            proof {
                lemma_ws_end(b, k1);
            }
            let c = match self.peek() {
                Err(m) => return Err(JsonError::Msg(m)),
                Ok(c) => c,
            };
            if c != 0x3a {
                return Err(JsonError::ColonAfter(key));
            }
            self.i += 1;
            let v = match self.value() {
                Err(e) => return Err(e),
                Ok(v) => v,
            };
            let ghost k2 = self.i as int;
            proof {
                lemma_ws_end(b, k2);
            }
            let c2 = match self.peek() {
                Err(m) => return Err(JsonError::Msg(m)),
                Ok(c2) => c2,
            };
            let ghost before = jmembers(ms@);
            let ghost ms0 = ms@;
            let ghost kv = (key@, jview(v));
            ms.push((key, v));
            proof {
                assert(ms@.drop_last() =~= ms0);
                assert(jmembers(ms@) == before.push(kv));
            }
            if c2 == 0x2c {
                self.i += 1;
                proof {
                    match members_at(b, self.i as int) {
                        Ok((rest, e)) => {
                            assert(before + (seq![kv] + rest) =~= before.push(kv) + rest);
                        },
                        Err(e) => {},
                    }
                }
            } else if c2 == 0x7d {
                self.i += 1;
                proof {
                    assert(before + seq![kv] =~= before.push(kv));
                }
                return Ok(ms);
            } else {
                return Err(JsonError::CommaOrBrace(c2));
            }
        }
    }

    /// The items of an array, from its first item to just past its `]`.
    #[verifier::rlimit(40)]
    fn items(&mut self) -> (r: Result<Vec<JsonValue>, JsonError>)
        requires
            old(self).i <= old(self).b@.len(),
        ensures
            final(self).b == old(self).b,
            final(self).i <= final(self).b@.len(),
            match items_at(old(self).b@, old(self).i as int) {
                Err(e) => r matches Err(x) && x@ == e,
                Ok((vs, e)) => r matches Ok(x) && jviews(x@) == vs && final(self).i == e && e > old(self).i,
            },
        decreases old(self).b@.len() - old(self).i, 1int,
    {
        let ghost b = self.b@;
        let ghost k0 = self.i as int;
        let len = self.b.len();
        let mut vs: Vec<JsonValue> = Vec::new();
        assert(jviews(vs@) =~= Seq::<JsonView>::empty());
        assert(with_items(Seq::empty(), items_at(b, k0)) == items_at(b, k0)) by {
            match items_at(b, k0) {
                Ok((rest, e)) => {
                    assert(Seq::<JsonView>::empty() + rest =~= rest);
                },
                Err(e) => {},
            }
        }
        loop
            invariant
                self.b == old(self).b,
                self.b@ == b,
                len == b.len(),
                b == old(self).b@,
                k0 == old(self).i,
                k0 <= self.i <= b.len(),
                vs@.len() > 0 ==> self.i > k0,
                items_at(b, k0) == with_items(jviews(vs@), items_at(b, self.i as int)),
            decreases b.len() - self.i,
        {
            let v = match self.value() {
                Err(e) => return Err(e),
                Ok(v) => v,
            };
            let ghost k2 = self.i as int;
            proof {
                lemma_ws_end(b, k2);
            }
            let c2 = match self.peek() {
                Err(m) => return Err(JsonError::Msg(m)),
                Ok(c2) => c2,
            };
            let ghost before = jviews(vs@);
            let ghost vs0 = vs@;
            let ghost jv = jview(v);
            vs.push(v);
            proof {
                assert(vs@.drop_last() =~= vs0);
                assert(jviews(vs@) == before.push(jv));
            }
            if c2 == 0x2c {
                self.i += 1;
                proof {
                    match items_at(b, self.i as int) {
                        Ok((rest, e)) => {
                            assert(before + (seq![jv] + rest) =~= before.push(jv) + rest);
                        },
                        Err(e) => {},
                    }
                }
            } else if c2 == 0x5d {
                self.i += 1;
                proof {
                    assert(before + seq![jv] =~= before.push(jv));
                }
                return Ok(vs);
            } else {
                return Err(JsonError::CommaOrBracket(c2));
            }
        }
    }
}

/// A value read from the start of the bytes.
pub fn parse_value(b: &[u8]) -> (r: Result<JsonValue, JsonError>)
    ensures
        match value_at(b@, 0) {
            Err(e) => r matches Err(x) && x@ == e,
            Ok((v, _)) => r matches Ok(x) && jview(x) == v,
        },
{
    let mut p = JsonReader { b, i: 0 };
    p.value()
}

} // verus!
