//! The small JSON codec of the results files and manifests: string escaping
//! and a parser for one object per line. The parser never panics on
//! malformed input; it answers `None`, since a killed run may leave a
//! truncated last line.
use vstd::prelude::*;
use crate::text::{all_digits, digits_value, is_digit};

verus! {

/// A parsed JSON value. `Num` is integer-only: the harness never writes
/// fractional numbers.
#[derive(Debug, PartialEq)]
pub enum JsonVal {
    Str(String),
    Num(i64),
    Bool(bool),
    Null,
    Arr(Vec<JsonVal>),
    Obj(Vec<(String, JsonVal)>),
}

/// A JSON value, with its texts as character sequences.
pub enum Json {
    Str(Seq<char>),
    Num(int),
    Bool(bool),
    Null,
    Arr(Seq<Json>),
    Obj(Seq<(Seq<char>, Json)>),
}

/// The value a `JsonVal` holds.
pub open spec fn json_view(v: JsonVal) -> Json
    decreases v, 1int,
{
    match v {
        JsonVal::Str(s) => Json::Str(s@),
        JsonVal::Num(n) => Json::Num(n as int),
        JsonVal::Bool(b) => Json::Bool(b),
        JsonVal::Null => Json::Null,
        JsonVal::Arr(items) => Json::Arr(json_views(items@)),
        JsonVal::Obj(fields) => Json::Obj(field_views(fields@)),
    }
}

/// The values a sequence of `JsonVal`s holds.
pub open spec fn json_views(s: Seq<JsonVal>) -> Seq<Json>
    decreases s, 0int,
{
    if s.len() == 0 {
        Seq::empty()
    } else {
        json_views(s.drop_last()).push(json_view(s.last()))
    }
}

/// The members a sequence of `(key, value)` pairs holds.
pub open spec fn field_views(s: Seq<(String, JsonVal)>) -> Seq<(Seq<char>, Json)>
    decreases s, 0int,
{
    if s.len() == 0 {
        Seq::empty()
    } else {
        field_views(s.drop_last()).push((s.last().0@, json_view(s.last().1)))
    }
}

/// JSON's white space.
pub open spec fn is_json_ws(c: char) -> bool {
    c == ' ' || c == '\t' || c == '\n' || c == '\r'
}

/// The first index at or after `i` that is not white space.
pub open spec fn skip_ws(s: Seq<char>, i: int) -> int
    decreases s.len() - i,
{
    if 0 <= i < s.len() && is_json_ws(s[i]) {
        skip_ws(s, i + 1)
    } else {
        i
    }
}

pub proof fn lemma_skip_ws(s: Seq<char>, i: int)
    requires
        0 <= i <= s.len(),
    ensures
        i <= skip_ws(s, i) <= s.len(),
        skip_ws(s, i) < s.len() ==> !is_json_ws(s[skip_ws(s, i)]),
    decreases s.len() - i,
{
    if i < s.len() && is_json_ws(s[i]) {
        lemma_skip_ws(s, i + 1);
    }
}

/// The value of a hexadecimal digit.
pub open spec fn hex_value(c: char) -> Option<nat> {
    if '0' <= c && c <= '9' {
        Some((c as nat - 48) as nat)
    } else if 'a' <= c && c <= 'f' {
        Some((c as nat - 87) as nat)
    } else if 'A' <= c && c <= 'F' {
        Some((c as nat - 55) as nat)
    } else {
        None
    }
}

/// The value of a run of hexadecimal digits.
pub open spec fn hex_digits(t: Seq<char>) -> Option<nat>
    decreases t.len(),
{
    if t.len() == 0 {
        Some(0)
    } else {
        match (hex_digits(t.drop_last()), hex_value(t.last())) {
            (Some(h), Some(d)) => Some(h * 16 + d),
            _ => None,
        }
    }
}

/// The code unit of a `\u` escape: the four characters at `i`, read as
/// `u32::from_str_radix(_, 16)` reads them (an optional `+`, then hex
/// digits).
pub open spec fn hex4(s: Seq<char>, i: int) -> Option<nat> {
    if i < 0 || i + 4 > s.len() {
        None
    } else {
        let t = s.subrange(i, i + 4);
        if t[0] == '+' {
            hex_digits(t.drop_first())
        } else {
            hex_digits(t)
        }
    }
}

/// The character a one-letter escape stands for.
pub open spec fn simple_escape(e: char) -> Option<char> {
    if e == '"' {
        Some('"')
    } else if e == '\\' {
        Some('\\')
    } else if e == '/' {
        Some('/')
    } else if e == 'b' {
        Some('\u{8}')
    } else if e == 'f' {
        Some('\u{c}')
    } else if e == 'n' {
        Some('\n')
    } else if e == 'r' {
        Some('\r')
    } else if e == 't' {
        Some('\t')
    } else {
        None
    }
}

/// The rest of a string literal from `i`, read into `acc`: its text and the
/// index after the closing quote.
pub open spec fn string_body(s: Seq<char>, i: int, acc: Seq<char>) -> Option<(Seq<char>, int)>
    decreases s.len() - i,
{
    if i < 0 || i >= s.len() {
        None
    } else if s[i] == '"' {
        Some((acc, i + 1))
    } else if s[i] == '\\' {
        if i + 1 >= s.len() {
            None
        } else {
            let e = s[i + 1];
            if e == 'u' {
                match hex4(s, i + 2) {
                    None => None,
                    Some(cp) => if 0xD800 <= cp <= 0xDBFF {
                        if i + 8 <= s.len() && s[i + 6] == '\\' && s[i + 7] == 'u' {
                            match hex4(s, i + 8) {
                                Some(low) => if 0xDC00 <= low <= 0xDFFF {
                                    let c = 0x10000 + (cp - 0xD800) * 1024 + (low - 0xDC00);
                                    string_body(s, i + 12, acc.push(c as char))
                                } else {
                                    None
                                },
                                None => None,
                            }
                        } else {
                            None
                        }
                    } else if 0xDC00 <= cp <= 0xDFFF {
                        None
                    } else {
                        string_body(s, i + 6, acc.push(cp as char))
                    },
                }
            } else {
                match simple_escape(e) {
                    Some(c) => string_body(s, i + 2, acc.push(c)),
                    None => None,
                }
            }
        }
    } else {
        string_body(s, i + 1, acc.push(s[i]))
    }
}

/// A string literal at `i`: its text and the index after it.
pub open spec fn string_at(s: Seq<char>, i: int) -> Option<(Seq<char>, int)> {
    if 0 <= i < s.len() && s[i] == '"' {
        string_body(s, i + 1, Seq::empty())
    } else {
        None
    }
}

pub proof fn lemma_string_body_progress(s: Seq<char>, i: int, acc: Seq<char>)
    ensures
        string_body(s, i, acc) matches Some((t, k)) ==> i < k <= s.len(),
    decreases s.len() - i,
{
    if 0 <= i < s.len() && s[i] != '"' {
        if s[i] == '\\' {
            if i + 1 < s.len() {
                let e = s[i + 1];
                if e == 'u' {
                    match hex4(s, i + 2) {
                        Some(cp) => {
                            if 0xD800 <= cp <= 0xDBFF {
                                if i + 8 <= s.len() && s[i + 6] == '\\' && s[i + 7] == 'u' {
                                    match hex4(s, i + 8) {
                                        Some(low) => {
                                            let c = 0x10000 + (cp - 0xD800) * 1024 + (low - 0xDC00);
                                            lemma_string_body_progress(s, i + 12, acc.push(c as char));
                                        },
                                        None => {},
                                    }
                                }
                            } else if !(0xDC00 <= cp <= 0xDFFF) {
                                lemma_string_body_progress(s, i + 6, acc.push(cp as char));
                            }
                        },
                        None => {},
                    }
                } else {
                    match simple_escape(e) {
                        Some(c) => lemma_string_body_progress(s, i + 2, acc.push(c)),
                        None => {},
                    }
                }
            }
        } else {
            lemma_string_body_progress(s, i + 1, acc.push(s[i]));
        }
    }
}

/// `char::from_u32`: the character with code point `u`, if there is one.
#[verifier::external_body]
fn char_from_u32(u: u32) -> (r: Option<char>)
    ensures
        r == (if u <= 0x10FFFF && !(0xD800 <= u <= 0xDFFF) { Some(u as char) } else { None }),
{
    char::from_u32(u)
}

fn hex_digit(c: char) -> (r: Option<u32>)
    ensures
        match r {
            Some(d) => hex_value(c) == Some(d as nat) && d < 16,
            None => hex_value(c) is None,
        },
{
    if '0' <= c && c <= '9' {
        Some((c as u32) - 48)
    } else if 'a' <= c && c <= 'f' {
        Some((c as u32) - 87)
    } else if 'A' <= c && c <= 'F' {
        Some((c as u32) - 55)
    } else {
        None
    }
}

proof fn lemma_hex_digits_bound(t: Seq<char>)
    ensures
        hex_digits(t) matches Some(v) ==> v < pow16(t.len()),
    decreases t.len(),
{
    if t.len() > 0 {
        lemma_hex_digits_bound(t.drop_last());
        match (hex_digits(t.drop_last()), hex_value(t.last())) {
            (Some(h), Some(d)) => {
                assert(h * 16 + d < pow16(t.len())) by (nonlinear_arith)
                    requires h < pow16((t.len() - 1) as nat), d < 16, pow16(t.len()) == pow16((t.len() - 1) as nat) * 16;
            },
            _ => {},
        }
    }
}

/// `16` to the power `n`.
pub open spec fn pow16(n: nat) -> nat
    decreases n,
{
    if n == 0 { 1 } else { pow16((n - 1) as nat) * 16 }
}

/// The value of the hexadecimal digits `t` (at most four of them).
fn hex_run(t: &[char]) -> (r: Option<u32>)
    requires
        t@.len() <= 4,
    ensures
        match r {
            Some(v) => hex_digits(t@) == Some(v as nat),
            None => hex_digits(t@) is None,
        },
{
    let mut acc: u32 = 0;
    let mut k: usize = 0;
    proof { assert(t@.take(0) =~= Seq::<char>::empty()); }
    while k < t.len()
        invariant
            0 <= k <= t@.len(),
            t@.len() <= 4,
            hex_digits(t@.take(k as int)) == Some(acc as nat),
            acc < pow16(k as nat),
        decreases t@.len() - k,
    {
        proof {
            assert(t@.take(k + 1).drop_last() =~= t@.take(k as int));
            assert(t@.take(k + 1).last() == t@[k as int]);
        }
        match hex_digit(t[k]) {
            None => {
                proof {
                    assert(hex_digits(t@.take(k + 1)) is None);
                    lemma_hex_digits_none_extends(t@, k + 1);
                }
                return None;
            },
            Some(d) => {
                proof {
                    assert(pow16(k as nat) <= 4096) by {
                        assert(pow16(0) == 1);
                        assert(pow16(1) == 16);
                        assert(pow16(2) == 256);
                        assert(pow16(3) == 4096);
                    }
                    assert(acc * 16 + d < pow16((k + 1) as nat)) by (nonlinear_arith)
                        requires acc < pow16(k as nat), d < 16, pow16((k + 1) as nat) == pow16(k as nat) * 16;
                }
                acc = acc * 16 + d;
            },
        }
        k = k + 1;
    }
    proof { assert(t@.take(t@.len() as int) =~= t@); }
    Some(acc)
}

proof fn lemma_hex_digits_none_extends(t: Seq<char>, k: int)
    requires
        0 <= k <= t.len(),
        hex_digits(t.take(k)) is None,
    ensures
        hex_digits(t) is None,
    decreases t.len() - k,
{
    if k < t.len() {
        assert(t.take(k + 1).drop_last() =~= t.take(k));
        lemma_hex_digits_none_extends(t, k + 1);
    } else {
        assert(t.take(k) =~= t);
    }
}

struct Parser<'a> {
    b: &'a [char],
    i: usize,
}

impl<'a> Parser<'a> {
    fn ws(&mut self)
        requires
            old(self).i <= old(self).b@.len(),
        ensures
            final(self).b == old(self).b,
            final(self).i == skip_ws(old(self).b@, old(self).i as int),
            old(self).i <= final(self).i <= final(self).b@.len(),
    {
        proof { lemma_skip_ws(self.b@, self.i as int); }
        while self.i < self.b.len() && is_json_space(self.b[self.i])
            invariant
                self.i <= self.b@.len(),
                self.b == old(self).b,
                skip_ws(self.b@, self.i as int) == skip_ws(old(self).b@, old(self).i as int),
            decreases self.b@.len() - self.i,
        {
            self.i = self.i + 1;
        }
    }

    fn expect(&mut self, c: char) -> (r: Option<()>)
        requires
            old(self).i <= old(self).b@.len(),
        ensures
            final(self).b == old(self).b,
            final(self).i <= final(self).b@.len(),
            (r is Some) == (old(self).i < old(self).b@.len() && old(self).b@[old(self).i as int] == c),
            r is Some ==> final(self).i == old(self).i + 1,
            r is None ==> final(self).i == old(self).i,
    {
        if self.i < self.b.len() && self.b[self.i] == c {
            self.i = self.i + 1;
            Some(())
        } else {
            None
        }
    }

    fn hex4(&mut self) -> (r: Option<u32>)
        requires
            old(self).i <= old(self).b@.len(),
        ensures
            final(self).b == old(self).b,
            final(self).i <= final(self).b@.len(),
            match r {
                Some(v) => hex4(old(self).b@, old(self).i as int) == Some(v as nat) && final(self).i == old(self).i + 4,
                None => hex4(old(self).b@, old(self).i as int) is None,
            },
    {
        if self.b.len() < 4 || self.i > self.b.len() - 4 {
            return None;
        }
        let t = vstd::slice::slice_subrange(self.b, self.i, self.i + 4);
        proof { assert(t@ =~= self.b@.subrange(self.i as int, self.i + 4)); }
        let v = if t[0] == '+' {
            let rest = vstd::slice::slice_subrange(t, 1, 4);
            proof { assert(rest@ =~= t@.drop_first()); }
            hex_run(rest)
        } else {
            hex_run(t)
        };
        match v {
            Some(v) => {
                self.i = self.i + 4;
                Some(v)
            },
            None => None,
        }
    }

    fn string(&mut self) -> (r: Option<String>)
        requires
            old(self).i <= old(self).b@.len(),
        ensures
            final(self).b == old(self).b,
            final(self).i <= final(self).b@.len(),
            match r {
                Some(t) => string_at(old(self).b@, old(self).i as int) == Some((t@, final(self).i as int)),
                None => string_at(old(self).b@, old(self).i as int) is None,
            },
    {
        if self.expect('"').is_none() {
            return None;
        }
        let mut out: Vec<char> = Vec::new();
        loop
            invariant
                self.b == old(self).b,
                self.i <= self.b@.len(),
                string_at(old(self).b@, old(self).i as int) == string_body(self.b@, self.i as int, out@),
            decreases self.b@.len() - self.i,
        {
            if self.i >= self.b.len() {
                return None;
            }
            let c = self.b[self.i];
            self.i = self.i + 1;
            if c == '"' {
                return Some(crate::text::string_from(out.as_slice()));
            } else if c == '\\' {
                if self.i >= self.b.len() {
                    return None;
                }
                let esc = self.b[self.i];
                self.i = self.i + 1;
                if esc == 'u' {
                    let at = self.i;
                    let cp = match self.hex4() {
                        Some(v) => v,
                        None => return None,
                    };
                    if 0xD800 <= cp && cp <= 0xDBFF {
                        if self.expect('\\').is_none() {
                            return None;
                        }
                        if self.expect('u').is_none() {
                            return None;
                        }
                        let low = match self.hex4() {
                            Some(v) => v,
                            None => return None,
                        };
                        if !(0xDC00 <= low && low <= 0xDFFF) {
                            return None;
                        }
                        let code = 0x10000 + ((cp - 0xD800) * 1024) + (low - 0xDC00);
                        match char_from_u32(code) {
                            Some(ch) => out.push(ch),
                            None => return None,
                        }
                    } else if 0xDC00 <= cp && cp <= 0xDFFF {
                        return None;
                    } else {
                        proof { lemma_hex_digits_small(self.b@, at as int); }
                        match char_from_u32(cp) {
                            Some(ch) => out.push(ch),
                            None => return None,
                        }
                    }
                } else {
                    let ch = if esc == '"' {
                        '"'
                    } else if esc == '\\' {
                        '\\'
                    } else if esc == '/' {
                        '/'
                    } else if esc == 'b' {
                        '\u{8}'
                    } else if esc == 'f' {
                        '\u{c}'
                    } else if esc == 'n' {
                        '\n'
                    } else if esc == 'r' {
                        '\r'
                    } else if esc == 't' {
                        '\t'
                    } else {
                        return None;
                    };
                    out.push(ch);
                }
            } else {
                out.push(c);
            }
        }
    }
}

proof fn lemma_hex_digits_small(s: Seq<char>, i: int)
    ensures
        hex4(s, i) matches Some(v) ==> v <= 0xFFFF,
{
    if 0 <= i && i + 4 <= s.len() {
        let t = s.subrange(i, i + 4);
        lemma_hex_digits_bound(t);
        lemma_hex_digits_bound(t.drop_first());
        assert(pow16(4) == 65536) by {
            assert(pow16(0) == 1);
            assert(pow16(1) == 16);
            assert(pow16(2) == 256);
            assert(pow16(3) == 4096);
        }
        assert(pow16(3) == 4096) by {
            assert(pow16(0) == 1);
            assert(pow16(1) == 16);
            assert(pow16(2) == 256);
        }
    }
}

fn is_json_space(c: char) -> (b: bool)
    ensures
        b == is_json_ws(c),
{
    c == ' ' || c == '\t' || c == '\n' || c == '\r'
}

/// The length of the run of decimal digits at `i`.
pub open spec fn digit_run(s: Seq<char>, i: int) -> int
    decreases s.len() - i,
{
    if 0 <= i < s.len() && is_digit(s[i]) {
        1 + digit_run(s, i + 1)
    } else {
        0
    }
}

proof fn lemma_digit_run(s: Seq<char>, i: int)
    requires
        0 <= i <= s.len(),
    ensures
        0 <= digit_run(s, i) <= s.len() - i,
        all_digits(s.subrange(i, i + digit_run(s, i))),
    decreases s.len() - i,
{
    if i < s.len() && is_digit(s[i]) {
        lemma_digit_run(s, i + 1);
        assert forall|k: int| 0 <= k < digit_run(s, i) implies is_digit(#[trigger] s.subrange(i, i + digit_run(s, i))[k]) by {
            if k > 0 {
                assert(s.subrange(i, i + digit_run(s, i))[k] == s.subrange(i + 1, i + 1 + digit_run(s, i + 1))[k - 1]);
            }
        }
    }
}

/// An integer at `j`: an optional `-` and one or more digits, whose value
/// fits an `i64`.
pub open spec fn number_at(s: Seq<char>, j: int) -> Option<(Json, int)> {
    let d = if 0 <= j < s.len() && s[j] == '-' { j + 1 } else { j };
    let n = digit_run(s, d);
    if n == 0 {
        None
    } else {
        let mag = digits_value(s.subrange(d, d + n));
        let v: int = if d == j + 1 { -mag } else { mag as int };
        if i64::MIN <= v <= i64::MAX {
            Some((Json::Num(v), d + n))
        } else {
            None
        }
    }
}

/// The literal `word` at `j`, standing for `v`.
pub open spec fn literal_at(s: Seq<char>, j: int, word: Seq<char>, v: Json) -> Option<(Json, int)> {
    if 0 <= j && j + word.len() <= s.len() && s.subrange(j, j + word.len()) == word {
        Some((v, j + word.len()))
    } else {
        None
    }
}

/// A value after white space at `i`: the value and the index after it.
pub open spec fn value_at(s: Seq<char>, i: int) -> Option<(Json, int)>
    decreases s.len() - i, 1int,
{
    if i < 0 || i > s.len() {
        None
    } else {
        let j = skip_ws(s, i);
        proof { lemma_skip_ws(s, i); }
        if j >= s.len() {
            None
        } else if s[j] == '"' {
            match string_at(s, j) {
                Some((t, k)) => Some((Json::Str(t), k)),
                None => None,
            }
        } else if s[j] == '{' {
            object_at(s, j)
        } else if s[j] == '[' {
            array_at(s, j)
        } else if s[j] == 't' {
            literal_at(s, j, "true"@, Json::Bool(true))
        } else if s[j] == 'f' {
            literal_at(s, j, "false"@, Json::Bool(false))
        } else if s[j] == 'n' {
            literal_at(s, j, "null"@, Json::Null)
        } else if s[j] == '-' || is_digit(s[j]) {
            number_at(s, j)
        } else {
            None
        }
    }
}

/// An array whose `[` is at `i`.
pub open spec fn array_at(s: Seq<char>, i: int) -> Option<(Json, int)>
    decreases s.len() - i, 0int,
{
    if !(0 <= i < s.len() && s[i] == '[') {
        None
    } else {
        let j = skip_ws(s, i + 1);
        if j < s.len() && s[j] == ']' {
            Some((Json::Arr(Seq::empty()), j + 1))
        } else {
            items_from(s, i + 1, Seq::empty())
        }
    }
}

/// The remaining items of an array from `i`, after the items `acc`.
pub open spec fn items_from(s: Seq<char>, i: int, acc: Seq<Json>) -> Option<(Json, int)>
    decreases s.len() - i, 2int,
{
    if i < 0 || i > s.len() {
        None
    } else {
        match value_at(s, i) {
            None => None,
            Some((v, k)) => {
                let k2 = skip_ws(s, k);
                if i < k2 < s.len() && s[k2] == ',' {
                    items_from(s, k2 + 1, acc.push(v))
                } else if 0 <= k2 < s.len() && s[k2] == ']' {
                    Some((Json::Arr(acc.push(v)), k2 + 1))
                } else {
                    None
                }
            },
        }
    }
}

/// An object whose `{` is at `i`.
pub open spec fn object_at(s: Seq<char>, i: int) -> Option<(Json, int)>
    decreases s.len() - i, 0int,
{
    if !(0 <= i < s.len() && s[i] == '{') {
        None
    } else {
        let j = skip_ws(s, i + 1);
        if j < s.len() && s[j] == '}' {
            Some((Json::Obj(Seq::empty()), j + 1))
        } else {
            members_from(s, i + 1, Seq::empty())
        }
    }
}

/// The remaining members of an object from `i`, after the members `acc`.
pub open spec fn members_from(s: Seq<char>, i: int, acc: Seq<(Seq<char>, Json)>) -> Option<(Json, int)>
    decreases s.len() - i, 2int,
{
    if i < 0 || i > s.len() {
        None
    } else {
        let k = skip_ws(s, i);
        proof { lemma_skip_ws(s, i); }
        match string_at(s, k) {
            None => None,
            Some((key, k2)) => {
                proof { lemma_string_body_progress(s, k + 1, Seq::empty()); }
                let k3 = skip_ws(s, k2);
                proof { lemma_skip_ws(s, k2); }
                if k3 < s.len() && s[k3] == ':' {
                    match value_at(s, k3 + 1) {
                        None => None,
                        Some((v, k4)) => {
                            let k5 = skip_ws(s, k4);
                            if i < k5 < s.len() && s[k5] == ',' {
                                members_from(s, k5 + 1, acc.push((key, v)))
                            } else if 0 <= k5 < s.len() && s[k5] == '}' {
                                Some((Json::Obj(acc.push((key, v))), k5 + 1))
                            } else {
                                None
                            }
                        },
                    }
                } else {
                    None
                }
            },
        }
    }
}

/// What `parse_object` accepts: white space, one object, white space, and
/// nothing after it; the object's members.
pub open spec fn object_line(s: Seq<char>) -> Option<Seq<(Seq<char>, Json)>> {
    let j = skip_ws(s, 0);
    match object_at(s, j) {
        Some((Json::Obj(fields), k)) => if skip_ws(s, k) == s.len() { Some(fields) } else { None },
        _ => None,
    }
}

proof fn lemma_skip_ws_idem(s: Seq<char>, i: int)
    requires
        0 <= i <= s.len(),
    ensures
        skip_ws(s, skip_ws(s, i)) == skip_ws(s, i),
    decreases s.len() - i,
{
    if i < s.len() && is_json_ws(s[i]) {
        lemma_skip_ws_idem(s, i + 1);
    }
}

fn is_digit_char(c: char) -> (b: bool)
    ensures
        b == is_digit(c),
{
    '0' <= c && c <= '9'
}

impl<'a> Parser<'a> {
    fn literal(&mut self, word: &str, val: JsonVal) -> (r: Option<JsonVal>)
        requires
            old(self).i <= old(self).b@.len(),
            word@.len() > 0,
        ensures
            final(self).b == old(self).b,
            final(self).i <= final(self).b@.len(),
            match r {
                Some(v) => literal_at(old(self).b@, old(self).i as int, word@, json_view(val)) == Some((json_view(v), final(self).i as int))
                    && final(self).i > old(self).i,
                None => literal_at(old(self).b@, old(self).i as int, word@, json_view(val)) is None,
            },
    {
        let w = crate::text::chars_of(word);
        let rest = vstd::slice::slice_subrange(self.b, self.i, self.b.len());
        proof { assert(rest@ =~= self.b@.skip(self.i as int)); }
        if crate::text::has_prefix(rest, w.as_slice()) {
            proof { assert(rest@.take(w@.len() as int) =~= self.b@.subrange(self.i as int, self.i + w@.len())); }
            self.i = self.i + w.len();
            Some(val)
        } else {
            proof {
                if self.i + w@.len() <= self.b@.len() {
                    assert(rest@.take(w@.len() as int) =~= self.b@.subrange(self.i as int, self.i + w@.len()));
                }
            }
            None
        }
    }

    fn number(&mut self) -> (r: Option<JsonVal>)
        requires
            old(self).i <= old(self).b@.len(),
        ensures
            final(self).b == old(self).b,
            final(self).i <= final(self).b@.len(),
            match r {
                Some(v) => number_at(old(self).b@, old(self).i as int) == Some((json_view(v), final(self).i as int))
                    && final(self).i > old(self).i,
                None => number_at(old(self).b@, old(self).i as int) is None,
            },
    {
        let start = self.i;
        if self.i < self.b.len() && self.b[self.i] == '-' {
            self.i = self.i + 1;
        }
        let ds = self.i;
        proof { lemma_digit_run(self.b@, ds as int); }
        while self.i < self.b.len() && is_digit_char(self.b[self.i])
            invariant
                self.b == old(self).b,
                ds <= self.i <= self.b@.len(),
                digit_run(self.b@, ds as int) == (self.i - ds) + digit_run(self.b@, self.i as int),
            decreases self.b@.len() - self.i,
        {
            self.i = self.i + 1;
        }
        if self.i == ds {
            self.i = start;
            return None;
        }
        let digits = vstd::slice::slice_subrange(self.b, ds, self.i);
        proof {
            assert(digits@ =~= self.b@.subrange(ds as int, ds + digit_run(self.b@, ds as int)));
        }
        let neg = ds == start + 1;
        let limit: u64 = if neg { 9223372036854775808u64 } else { 9223372036854775807u64 };
        match crate::text::digits_up_to(digits, limit) {
            None => None,
            Some(m) => {
                let v: i64 = if neg {
                    if m == 9223372036854775808u64 {
                        i64::MIN
                    } else {
                        -(m as i64)
                    }
                } else {
                    m as i64
                };
                Some(JsonVal::Num(v))
            },
        }
    }

    fn value(&mut self) -> (r: Option<JsonVal>)
        requires
            old(self).i <= old(self).b@.len(),
        ensures
            final(self).b == old(self).b,
            final(self).i <= final(self).b@.len(),
            match r {
                Some(v) => value_at(old(self).b@, old(self).i as int) == Some((json_view(v), final(self).i as int))
                    && final(self).i > old(self).i,
                None => value_at(old(self).b@, old(self).i as int) is None,
            },
        decreases old(self).b@.len() - old(self).i, 1int,
    {
        self.ws();
        if self.i >= self.b.len() {
            return None;
        }
        let c = self.b[self.i];
        proof {
            reveal_strlit("true");
            reveal_strlit("false");
            reveal_strlit("null");
        }
        if c == '"' {
            let j = self.i;
            proof { lemma_string_body_progress(self.b@, j + 1, Seq::empty()); }
            match self.string() {
                Some(t) => Some(JsonVal::Str(t)),
                None => None,
            }
        } else if c == '{' {
            self.object()
        } else if c == '[' {
            self.array()
        } else if c == 't' {
            self.literal("true", JsonVal::Bool(true))
        } else if c == 'f' {
            self.literal("false", JsonVal::Bool(false))
        } else if c == 'n' {
            self.literal("null", JsonVal::Null)
        } else if c == '-' || is_digit_char(c) {
            self.number()
        } else {
            None
        }
    }

    fn array(&mut self) -> (r: Option<JsonVal>)
        requires
            old(self).i <= old(self).b@.len(),
        ensures
            final(self).b == old(self).b,
            final(self).i <= final(self).b@.len(),
            match r {
                Some(v) => array_at(old(self).b@, old(self).i as int) == Some((json_view(v), final(self).i as int))
                    && final(self).i > old(self).i,
                None => array_at(old(self).b@, old(self).i as int) is None,
            },
        decreases old(self).b@.len() - old(self).i, 0int,
    {
        let i0 = self.i;
        if self.expect('[').is_none() {
            return None;
        }
        let mut out: Vec<JsonVal> = Vec::new();
        self.ws();
        if self.i < self.b.len() && self.b[self.i] == ']' {
            self.i = self.i + 1;
            proof { assert(json_views(out@) =~= Seq::empty()); }
            return Some(JsonVal::Arr(out));
        }
        let ghost mut start: int = i0 + 1;
        proof { assert(json_views(out@) =~= Seq::empty()); lemma_skip_ws_idem(self.b@, start); }
        loop
            invariant
                self.b == old(self).b,
                i0 == old(self).i,
                i0 < start <= self.i <= self.b@.len(),
                skip_ws(self.b@, self.i as int) == skip_ws(self.b@, start),
                array_at(self.b@, i0 as int) == items_from(self.b@, start, json_views(out@)),
            decreases self.b@.len() - self.i,
        {
            let at = self.i;
            proof {
                lemma_skip_ws(self.b@, start);
                lemma_skip_ws(self.b@, at as int);
            }
            let v = match self.value() {
                Some(v) => v,
                None => {
                    proof {
                        assert(value_at(self.b@, at as int) == value_at(self.b@, start)) by {
                            lemma_value_at_ws(self.b@, start, at as int);
                        }
                    }
                    return None;
                },
            };
            proof { lemma_value_at_ws(self.b@, start, at as int); }
            let k = self.i;
            self.ws();
            proof { lemma_skip_ws(self.b@, k as int); }
            let ghost prev = out@;
            if self.i < self.b.len() && self.b[self.i] == ',' {
                out.push(v);
                proof { assert(out@.drop_last() =~= prev); }
                self.i = self.i + 1;
                proof { start = self.i as int; }
            } else if self.i < self.b.len() && self.b[self.i] == ']' {
                out.push(v);
                proof { assert(out@.drop_last() =~= prev); }
                self.i = self.i + 1;
                return Some(JsonVal::Arr(out));
            } else {
                return None;
            }
        }
    }

    fn object(&mut self) -> (r: Option<JsonVal>)
        requires
            old(self).i <= old(self).b@.len(),
        ensures
            final(self).b == old(self).b,
            final(self).i <= final(self).b@.len(),
            match r {
                Some(v) => object_at(old(self).b@, old(self).i as int) == Some((json_view(v), final(self).i as int))
                    && final(self).i > old(self).i,
                None => object_at(old(self).b@, old(self).i as int) is None,
            },
        decreases old(self).b@.len() - old(self).i, 0int,
    {
        let i0 = self.i;
        if self.expect('{').is_none() {
            return None;
        }
        let mut out: Vec<(String, JsonVal)> = Vec::new();
        self.ws();
        if self.i < self.b.len() && self.b[self.i] == '}' {
            self.i = self.i + 1;
            proof { assert(field_views(out@) =~= Seq::empty()); }
            return Some(JsonVal::Obj(out));
        }
        let ghost mut start: int = i0 + 1;
        proof { assert(field_views(out@) =~= Seq::empty()); lemma_skip_ws_idem(self.b@, start); }
        loop
            invariant
                self.b == old(self).b,
                i0 == old(self).i,
                i0 < start <= self.i <= self.b@.len(),
                skip_ws(self.b@, self.i as int) == skip_ws(self.b@, start),
                object_at(self.b@, i0 as int) == members_from(self.b@, start, field_views(out@)),
            decreases self.b@.len() - self.i,
        {
            proof {
                lemma_skip_ws(self.b@, start);
                lemma_skip_ws(self.b@, self.i as int);
                lemma_skip_ws_idem(self.b@, start);
            }
            self.ws();
            let kpos = self.i;
            proof { lemma_string_body_progress(self.b@, kpos + 1, Seq::empty()); }
            let key = match self.string() {
                Some(t) => t,
                None => return None,
            };
            let k2 = self.i;
            self.ws();
            proof { lemma_skip_ws(self.b@, k2 as int); }
            if self.expect(':').is_none() {
                return None;
            }
            let v = match self.value() {
                Some(v) => v,
                None => return None,
            };
            let k4 = self.i;
            self.ws();
            proof { lemma_skip_ws(self.b@, k4 as int); }
            let ghost prev = out@;
            if self.i < self.b.len() && self.b[self.i] == ',' {
                out.push((key, v));
                proof { assert(out@.drop_last() =~= prev); }
                self.i = self.i + 1;
                proof { start = self.i as int; }
            } else if self.i < self.b.len() && self.b[self.i] == '}' {
                out.push((key, v));
                proof { assert(out@.drop_last() =~= prev); }
                self.i = self.i + 1;
                return Some(JsonVal::Obj(out));
            } else {
                return None;
            }
        }
    }
}

/// Reading a value from any point of the white space before it.
proof fn lemma_value_at_ws(s: Seq<char>, i: int, j: int)
    requires
        0 <= i <= j <= s.len(),
        skip_ws(s, i) == skip_ws(s, j),
    ensures
        value_at(s, i) == value_at(s, j),
{
}

/// Parse a single JSON object from `line`: `None` on any syntax error, or
/// on anything but white space after the object.
pub fn parse_object(line: &str) -> (r: Option<Vec<(String, JsonVal)>>)
    ensures
        match r {
            Some(fields) => object_line(line@) == Some(field_views(fields@)),
            None => object_line(line@) is None,
        },
{
    let b = crate::text::chars_of(line);
    let mut p = Parser { b: b.as_slice(), i: 0 };
    p.ws();
    let obj = match p.object() {
        Some(o) => o,
        None => return None,
    };
    p.ws();
    if p.i != p.b.len() {
        return None;
    }
    match obj {
        JsonVal::Obj(fields) => Some(fields),
        _ => None,
    }
}

/// The lower-case hexadecimal digit for `d < 16`.
pub open spec fn hex_char(d: nat) -> char {
    if d < 10 {
        (d + 48) as char
    } else {
        (d + 87) as char
    }
}

/// How `escape` writes one character: the two-character escapes for `"`,
/// `\`, newline, carriage return and tab, `\u00XX` for the other control
/// characters, and any other character as itself.
pub open spec fn escape_char(c: char) -> Seq<char> {
    if c == '"' {
        seq!['\\', '"']
    } else if c == '\\' {
        seq!['\\', '\\']
    } else if c == '\n' {
        seq!['\\', 'n']
    } else if c == '\r' {
        seq!['\\', 'r']
    } else if c == '\t' {
        seq!['\\', 't']
    } else if (c as u32) < 0x20 {
        seq!['\\', 'u', '0', '0', hex_char((c as u32 / 16) as nat), hex_char((c as u32 % 16) as nat)]
    } else {
        seq![c]
    }
}

/// The escaped characters of `s`, without the quotes.
pub open spec fn escape_body(s: Seq<char>) -> Seq<char>
    decreases s.len(),
{
    if s.len() == 0 {
        Seq::empty()
    } else {
        escape_body(s.drop_last()) + escape_char(s.last())
    }
}

/// `s` as a JSON string literal.
pub open spec fn escaped(s: Seq<char>) -> Seq<char> {
    seq!['"'] + escape_body(s) + seq!['"']
}

fn push_hex(out: &mut Vec<char>, d: u32)
    requires
        d < 16,
    ensures
        final(out)@ == old(out)@.push(hex_char(d as nat)),
{
    if d < 10 {
        out.push(((d + 48) as u8) as char);
    } else {
        out.push(((d + 87) as u8) as char);
    }
}

/// Escape a string per RFC 8259 and wrap it in double quotes.
pub fn escape(s: &str) -> (r: String)
    ensures
        r@ == escaped(s@),
{
    let v = crate::text::chars_of(s);
    let mut out: Vec<char> = Vec::new();
    out.push('"');
    let mut i: usize = 0;
    while i < v.len()
        invariant
            0 <= i <= v@.len(),
            out@ == seq!['"'] + escape_body(v@.take(i as int)),
        decreases v@.len() - i,
    {
        let c = v[i];
        let ghost before = out@;
        if c == '"' {
            out.push('\\');
            out.push('"');
        } else if c == '\\' {
            out.push('\\');
            out.push('\\');
        } else if c == '\n' {
            out.push('\\');
            out.push('n');
        } else if c == '\r' {
            out.push('\\');
            out.push('r');
        } else if c == '\t' {
            out.push('\\');
            out.push('t');
        } else if (c as u32) < 0x20 {
            out.push('\\');
            out.push('u');
            out.push('0');
            out.push('0');
            push_hex(&mut out, (c as u32) / 16);
            push_hex(&mut out, (c as u32) % 16);
        } else {
            out.push(c);
        }
        proof {
            assert(v@.take(i + 1).drop_last() =~= v@.take(i as int));
            assert(v@.take(i + 1).last() == c);
            assert(out@ =~= before + escape_char(c));
        }
        i = i + 1;
    }
    out.push('"');
    proof { assert(v@.take(v@.len() as int) =~= v@); }
    crate::text::string_from(out.as_slice())
}

proof fn lemma_escape_body_append(a: Seq<char>, b: Seq<char>)
    ensures
        escape_body(a + b) == escape_body(a) + escape_body(b),
    decreases b.len(),
{
    if b.len() == 0 {
        assert(a + b =~= a);
    } else {
        lemma_escape_body_append(a, b.drop_last());
        assert((a + b).drop_last() =~= a + b.drop_last());
    }
}

proof fn lemma_hex_pair(c: char)
    requires
        (c as u32) < 0x20,
    ensures
        hex_digits(seq!['0', '0', hex_char((c as u32 / 16) as nat), hex_char((c as u32 % 16) as nat)]) == Some(c as u32 as nat),
{
    let t = seq!['0', '0', hex_char((c as u32 / 16) as nat), hex_char((c as u32 % 16) as nat)];
    assert(t.drop_last().drop_last().drop_last().drop_last() =~= Seq::<char>::empty());
    assert(t.drop_last().drop_last().drop_last() =~= seq!['0']);
    assert(t.drop_last().drop_last() =~= seq!['0', '0']);
    assert(t.drop_last() =~= seq!['0', '0', hex_char((c as u32 / 16) as nat)]);
    reveal_with_fuel(hex_digits, 5);
}

/// Reading the escaped form of one character back gives the character.
proof fn lemma_escape_char_reads_back(s: Seq<char>, p: int, c: char, acc: Seq<char>)
    requires
        0 <= p,
        p + escape_char(c).len() <= s.len(),
        s.subrange(p, p + escape_char(c).len()) == escape_char(c),
    ensures
        string_body(s, p, acc) == string_body(s, p + escape_char(c).len(), acc.push(c)),
{
    let e = escape_char(c);
    assert(s[p] == e[0]);
    if c == '"' || c == '\\' || c == '\n' || c == '\r' || c == '\t' {
        assert(s[p + 1] == e[1]);
    } else if (c as u32) < 0x20 {
        assert(s[p + 1] == e[1]);
        assert(s.subrange(p + 2, p + 6) =~= e.subrange(2, 6));
        lemma_hex_pair(c);
        assert(e.subrange(2, 6) =~= seq!['0', '0', hex_char((c as u32 / 16) as nat), hex_char((c as u32 % 16) as nat)]);
        assert((c as u32 as nat) as char == c);
    }
}

/// `s` holds the text `t` from index `p` on.
pub open spec fn holds_at(s: Seq<char>, p: int, t: Seq<char>) -> bool {
    0 <= p && p + t.len() <= s.len() && s.subrange(p, p + t.len()) == t
}

/// Reading the escaped text of `t`, held in `s` at `p`, from the position
/// of its `k`-th character gives `t` back, and the index after the
/// closing quote.
proof fn lemma_escaped_reads_back_from(s: Seq<char>, p: int, t: Seq<char>, k: int)
    requires
        holds_at(s, p, escaped(t)),
        0 <= k <= t.len(),
    ensures
        string_body(s, p + 1 + escape_body(t.take(k)).len() as int, t.take(k))
            == Some((t, p + escaped(t).len() as int)),
    decreases t.len() - k,
{
    let e = escaped(t);
    assert forall|j: int| 0 <= j < e.len() implies s[p + j] == e[j] by {
        assert(s.subrange(p, p + e.len())[j] == s[p + j]);
    }
    if k == t.len() {
        assert(t.take(k) =~= t);
        assert(s[p + 1 + escape_body(t).len() as int] == e[1 + escape_body(t).len() as int]);
    } else {
        let c = t[k];
        lemma_escape_body_append(t.take(k), t.skip(k));
        assert(t.take(k) + t.skip(k) =~= t);
        lemma_escape_body_append(t.take(k + 1), t.skip(k + 1));
        assert(t.take(k + 1) + t.skip(k + 1) =~= t);
        assert(t.take(k + 1).drop_last() =~= t.take(k));
        assert(escape_body(t.take(k + 1)) == escape_body(t.take(k)) + escape_char(c));
        let q: int = 1 + escape_body(t.take(k)).len() as int;
        assert(s.subrange(p + q, p + q + escape_char(c).len() as int) =~= escape_char(c)) by {
            assert forall|j: int| 0 <= j < escape_char(c).len() implies s[p + q + j] == escape_char(c)[j] by {
                assert(s[p + q + j] == e[q + j]);
                assert(e[q + j] == escape_body(t)[q - 1 + j]);
                assert(escape_body(t)[q - 1 + j] == escape_body(t.take(k + 1))[q - 1 + j]);
            }
        }
        lemma_escape_char_reads_back(s, p + q, c, t.take(k));
        assert(t.take(k).push(c) =~= t.take(k + 1));
        lemma_escaped_reads_back_from(s, p, t, k + 1);
    }
}

/// The string literal `escape` writes for `t`, held in `s` at `p`, reads
/// back as `t` and ends where the literal ends.
pub proof fn lemma_escaped_at(s: Seq<char>, p: int, t: Seq<char>)
    requires
        holds_at(s, p, escaped(t)),
    ensures
        string_at(s, p) == Some((t, p + escaped(t).len() as int)),
{
    lemma_escaped_reads_back_from(s, p, t, 0);
    assert(t.take(0) =~= Seq::<char>::empty());
    assert(s.subrange(p, p + escaped(t).len())[0] == s[p]);
}

/// Escaping round-trips: the string literal `escape` writes for `t`, read
/// back from the front of any text, gives `t` and ends where the literal
/// ends.
pub proof fn lemma_escape_round_trip(t: Seq<char>, rest: Seq<char>)
    ensures
        string_at(escaped(t) + rest, 0) == Some((t, escaped(t).len() as int)),
        value_at(escaped(t) + rest, 0) == Some((Json::Str(t), escaped(t).len() as int)),
{
    let s = escaped(t) + rest;
    assert(s.subrange(0, escaped(t).len() as int) =~= escaped(t));
    lemma_escaped_at(s, 0, t);
    assert(s[0] == '"');
    assert(!is_json_ws(s[0]));
}

} // verus!
