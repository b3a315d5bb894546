//! The text the harness writes for a JSON value, and the proof that the
//! parser of `json` reads that text back as the value it was written for.
use vstd::prelude::*;
use crate::bench::json::{
    escaped, escape_body, escape_char, holds_at, is_json_ws, items_from, lemma_escaped_at, members_from, object_at, object_line, array_at,
    skip_ws, string_at, value_at, digit_run, Json,
};
use crate::text::{all_digits, decimal, digits_value, is_digit, lemma_decimal, signed_decimal};

verus! {

/// `,"name":` followed by `value`.
pub open spec fn member_text(name: Seq<char>, value: Seq<char>) -> Seq<char> {
    seq![','] + escaped(name) + seq![':'] + value
}

/// The text written for a value: no white space, items and members
/// separated by commas, integers in decimal.
pub open spec fn json_text(v: Json) -> Seq<char>
    decreases v, 1int,
{
    match v {
        Json::Str(t) => escaped(t),
        Json::Num(n) => signed_decimal(n),
        Json::Bool(b) => if b { "true"@ } else { "false"@ },
        Json::Null => "null"@,
        Json::Arr(items) => seq!['['] + items_text(items) + seq![']'],
        Json::Obj(fields) => seq!['{'] + fields_text(fields) + seq!['}'],
    }
}

/// The items of an array, separated by commas.
pub open spec fn items_text(items: Seq<Json>) -> Seq<char>
    decreases items, 0int,
{
    if items.len() == 0 {
        Seq::empty()
    } else if items.len() == 1 {
        json_text(items[0])
    } else {
        items_text(items.drop_last()) + seq![','] + json_text(items.last())
    }
}

/// The members of an object, `"name":value`, separated by commas.
pub open spec fn fields_text(fields: Seq<(Seq<char>, Json)>) -> Seq<char>
    decreases fields, 0int,
{
    if fields.len() == 0 {
        Seq::empty()
    } else if fields.len() == 1 {
        escaped(fields[0].0) + seq![':'] + json_text(fields[0].1)
    } else {
        fields_text(fields.drop_last()) + member_text(fields.last().0, json_text(fields.last().1))
    }
}

/// Every number in the value fits an `i64`, the parser's range.
pub open spec fn json_fits(v: Json) -> bool
    decreases v, 1int,
{
    match v {
        Json::Num(n) => i64::MIN <= n <= i64::MAX,
        Json::Arr(items) => items_fit(items),
        Json::Obj(fields) => fields_fit(fields),
        _ => true,
    }
}

/// Every number in the items fits an `i64`.
pub open spec fn items_fit(items: Seq<Json>) -> bool
    decreases items, 0int,
{
    if items.len() == 0 {
        true
    } else {
        items_fit(items.drop_last()) && json_fits(items.last())
    }
}

/// Every number in the members' values fits an `i64`.
pub open spec fn fields_fit(fields: Seq<(Seq<char>, Json)>) -> bool
    decreases fields, 0int,
{
    if fields.len() == 0 {
        true
    } else {
        fields_fit(fields.drop_last()) && json_fits(fields.last().1)
    }
}

/// One more member fits when the earlier ones and its value do.
pub broadcast proof fn lemma_fields_fit_push(fields: Seq<(Seq<char>, Json)>, x: (Seq<char>, Json))
    ensures
        #[trigger] fields_fit(fields.push(x)) == (fields_fit(fields) && json_fits(x.1)),
{
    assert(fields.push(x).drop_last() =~= fields);
}

/// Texts joined by commas.
spec fn joined(pieces: Seq<Seq<char>>) -> Seq<char>
    decreases pieces.len(),
{
    if pieces.len() == 0 {
        Seq::empty()
    } else if pieces.len() == 1 {
        pieces[0]
    } else {
        joined(pieces.drop_last()) + seq![','] + pieces.last()
    }
}

/// Where the `k`-th piece starts in the joined text.
spec fn piece_start(pieces: Seq<Seq<char>>, k: int) -> int {
    if k == 0 { 0 } else { joined(pieces.take(k)).len() + 1int }
}

/// The joined text of the first `j` pieces starts the joined text of all,
/// and a comma follows it when pieces remain.
proof fn lemma_joined_prefix(pieces: Seq<Seq<char>>, j: int)
    requires
        1 <= j <= pieces.len(),
    ensures
        joined(pieces.take(j)).len() <= joined(pieces).len(),
        joined(pieces).subrange(0, joined(pieces.take(j)).len() as int) == joined(pieces.take(j)),
        j < pieces.len() ==> joined(pieces.take(j)).len() < joined(pieces).len(),
        j < pieces.len() ==> joined(pieces)[joined(pieces.take(j)).len() as int] == ',',
    decreases pieces.len(),
{
    let n = pieces.len() as int;
    if j == n {
        assert(pieces.take(j) =~= pieces);
        assert(joined(pieces).subrange(0, joined(pieces).len() as int) =~= joined(pieces));
    } else {
        let d = pieces.drop_last();
        assert(d.take(j) =~= pieces.take(j));
        assert(n >= 2);
        if j < n - 1 {
            lemma_joined_prefix(d, j);
        } else {
            assert(d.take(j) =~= d);
            assert(joined(d).subrange(0, joined(d).len() as int) =~= joined(d));
        }
        let jd = joined(d);
        let l = joined(pieces.take(j)).len() as int;
        assert(joined(pieces) == jd + seq![','] + pieces.last());
        assert(joined(pieces).subrange(0, l) =~= jd.subrange(0, l));
        if j < n - 1 {
            assert(joined(pieces)[l] == jd[l]);
        }
    }
}

/// The `k`-th piece stands in the joined text from `piece_start`, and a
/// comma follows it, or the text ends.
proof fn lemma_joined_piece(pieces: Seq<Seq<char>>, k: int)
    requires
        0 <= k < pieces.len(),
    ensures
        piece_start(pieces, k) + pieces[k].len() == joined(pieces.take(k + 1)).len(),
        joined(pieces.take(k + 1)).len() <= joined(pieces).len(),
        joined(pieces).subrange(piece_start(pieces, k), joined(pieces.take(k + 1)).len() as int) == pieces[k],
        k + 1 < pieces.len() ==> joined(pieces.take(k + 1)).len() < joined(pieces).len(),
        k + 1 < pieces.len() ==> joined(pieces)[joined(pieces.take(k + 1)).len() as int] == ',',
        k + 1 < pieces.len() ==> piece_start(pieces, k + 1) == joined(pieces.take(k + 1)).len() + 1,
        k + 1 == pieces.len() ==> joined(pieces.take(k + 1)).len() == joined(pieces).len(),
{
    let t = pieces.take(k + 1);
    lemma_joined_prefix(pieces, k + 1);
    if k == 0 {
        assert(t.len() == 1);
        assert(joined(t) == pieces[0]);
    } else {
        assert(t.drop_last() =~= pieces.take(k));
        assert(joined(t) == joined(pieces.take(k)) + seq![','] + pieces[k]);
    }
    let e = joined(t).len() as int;
    let st = piece_start(pieces, k);
    assert(joined(pieces).subrange(st, e) =~= joined(t).subrange(st, e));
    assert(joined(t).subrange(st, e) =~= pieces[k]);
    if k + 1 == pieces.len() {
        assert(t =~= pieces);
    }
}

/// The items' texts, joined by commas, are the array's inner text.
proof fn lemma_items_joined(items: Seq<Json>, pieces: Seq<Seq<char>>)
    requires
        pieces.len() == items.len(),
        forall|i: int| 0 <= i < items.len() ==> #[trigger] pieces[i] == json_text(items[i]),
    ensures
        items_text(items) == joined(pieces),
    decreases items.len(),
{
    if items.len() >= 2 {
        lemma_items_joined(items.drop_last(), pieces.drop_last());
    }
}

/// The text of one member, `"name":value`.
pub open spec fn field_text(f: (Seq<char>, Json)) -> Seq<char> {
    escaped(f.0) + seq![':'] + json_text(f.1)
}

/// The members' texts, joined by commas, are the object's inner text.
proof fn lemma_fields_joined(fields: Seq<(Seq<char>, Json)>, pieces: Seq<Seq<char>>)
    requires
        pieces.len() == fields.len(),
        forall|i: int| 0 <= i < fields.len() ==> #[trigger] pieces[i] == field_text(fields[i]),
    ensures
        fields_text(fields) == joined(pieces),
    decreases fields.len(),
{
    if fields.len() >= 2 {
        lemma_fields_joined(fields.drop_last(), pieces.drop_last());
        assert(fields_text(fields) =~= joined(pieces.drop_last()) + seq![','] + pieces.last());
    }
}

proof fn lemma_items_fit_index(items: Seq<Json>, k: int)
    requires
        items_fit(items),
        0 <= k < items.len(),
    ensures
        json_fits(items[k]),
    decreases items.len(),
{
    if k < items.len() - 1 {
        lemma_items_fit_index(items.drop_last(), k);
    }
}

proof fn lemma_fields_fit_index(fields: Seq<(Seq<char>, Json)>, k: int)
    requires
        fields_fit(fields),
        0 <= k < fields.len(),
    ensures
        json_fits(fields[k].1),
    decreases fields.len(),
{
    if k < fields.len() - 1 {
        lemma_fields_fit_index(fields.drop_last(), k);
    }
}

/// A character that can open a value's text.
pub open spec fn opens_value(c: char) -> bool {
    c == '"' || c == '-' || is_digit(c) || c == 't' || c == 'f' || c == 'n' || c == '[' || c == '{'
}

/// A value's text is never empty, and opens as a value does.
proof fn lemma_text_opens(v: Json)
    ensures
        json_text(v).len() >= 1,
        opens_value(json_text(v)[0]),
{
    reveal_strlit("true");
    reveal_strlit("false");
    reveal_strlit("null");
    match v {
        Json::Num(n) => {
            if n < 0 {
                lemma_decimal((-n) as nat);
            } else {
                lemma_decimal(n as nat);
                assert(is_digit(decimal(n as nat)[0]));
            }
        },
        _ => {},
    }
}

/// A piece of a text held at `p` is held at its offset.
proof fn lemma_holds_sub(s: Seq<char>, p: int, t: Seq<char>, a: int, b: int)
    requires
        holds_at(s, p, t),
        0 <= a <= b <= t.len(),
    ensures
        holds_at(s, p + a, t.subrange(a, b)),
{
    assert forall|i: int| 0 <= i < b - a implies s.subrange(p + a, p + b)[i] == t.subrange(a, b)[i] by {
        assert(s.subrange(p, p + t.len())[a + i] == t[a + i]);
    }
    assert(s.subrange(p + a, p + b) =~= t.subrange(a, b));
}

/// A character of a text held at `p`.
proof fn lemma_holds_char(s: Seq<char>, p: int, t: Seq<char>, i: int)
    requires
        holds_at(s, p, t),
        0 <= i < t.len(),
    ensures
        s[p + i] == t[i],
{
    assert(s.subrange(p, p + t.len())[i] == t[i]);
}

/// The run of digits at `d` is exactly `l` long when `l` digits stand
/// there and no digit follows them.
proof fn lemma_digit_run_exact(s: Seq<char>, d: int, l: int)
    requires
        0 <= d,
        0 <= l,
        d + l <= s.len(),
        all_digits(s.subrange(d, d + l)),
        d + l == s.len() || !is_digit(s[d + l]),
    ensures
        digit_run(s, d) == l,
    decreases l,
{
    if l > 0 {
        assert(s.subrange(d, d + l)[0] == s[d]);
        assert forall|i: int| 0 <= i < l - 1 implies is_digit(#[trigger] s.subrange(d + 1, d + l)[i]) by {
            assert(s.subrange(d + 1, d + l)[i] == s.subrange(d, d + l)[i + 1]);
        }
        lemma_digit_run_exact(s, d + 1, l - 1);
    }
}

/// No digit follows position `e`: the end of the text, or another character.
pub open spec fn ends_value(s: Seq<char>, e: int) -> bool {
    e >= s.len() || !is_digit(s[e])
}

/// The texts of an array's items.
spec fn item_texts(items: Seq<Json>) -> Seq<Seq<char>> {
    Seq::new(items.len(), |i: int| json_text(items[i]))
}

/// The texts of an object's members.
spec fn member_texts(fields: Seq<(Seq<char>, Json)>) -> Seq<Seq<char>> {
    Seq::new(fields.len(), |i: int| field_text(fields[i]))
}

/// The text of a value, held in `s` at `p` with no digit after it, reads
/// back as the value and ends where the text ends.
pub proof fn lemma_value_text(s: Seq<char>, p: int, v: Json)
    requires
        holds_at(s, p, json_text(v)),
        json_fits(v),
        ends_value(s, p + json_text(v).len()),
    ensures
        value_at(s, p) == Some((v, p + json_text(v).len())),
    decreases v, 0int,
{
    let t = json_text(v);
    lemma_text_opens(v);
    lemma_holds_char(s, p, t, 0);
    assert(skip_ws(s, p) == p);
    match v {
        Json::Str(x) => {
            lemma_escaped_at(s, p, x);
        },
        Json::Num(n) => {
            let mag: nat = if n < 0 { (-n) as nat } else { n as nat };
            let dec = decimal(mag);
            lemma_decimal(mag);
            let d = if n < 0 { p + 1 } else { p };
            if n < 0 {
                lemma_holds_sub(s, p, t, 1, t.len() as int);
                assert(t.subrange(1, t.len() as int) =~= dec);
            } else {
                assert(t.subrange(0, t.len() as int) =~= dec);
                lemma_holds_sub(s, p, t, 0, t.len() as int);
                assert(is_digit(dec[0]));
            }
            assert(s.subrange(d, d + dec.len()) == dec);
            lemma_digit_run_exact(s, d, dec.len() as int);
        },
        Json::Bool(b) => {
            reveal_strlit("true");
            reveal_strlit("false");
        },
        Json::Null => {
            reveal_strlit("null");
        },
        Json::Arr(items) => {
            if items.len() == 0 {
                lemma_holds_char(s, p, t, 1);
                assert(items =~= Seq::<Json>::empty());
            } else {
                let pieces = item_texts(items);
                lemma_items_joined(items, pieces);
                lemma_joined_piece(pieces, 0);
                lemma_text_opens(items[0]);
                assert(joined(pieces)[0] == pieces[0][0]) by {
                    assert(joined(pieces).subrange(0, pieces[0].len() as int)[0] == joined(pieces)[0]);
                    assert(joined(pieces).subrange(0, pieces[0].len() as int) == pieces[0]);
                }
                lemma_holds_char(s, p, t, 1);
                lemma_items_text(s, p, items, 0);
                assert(items.take(0) =~= Seq::<Json>::empty());
            }
        },
        Json::Obj(fields) => {
            if fields.len() == 0 {
                lemma_holds_char(s, p, t, 1);
                assert(fields =~= Seq::<(Seq<char>, Json)>::empty());
            } else {
                let pieces = member_texts(fields);
                lemma_fields_joined(fields, pieces);
                lemma_joined_piece(pieces, 0);
                assert(joined(pieces)[0] == pieces[0][0]) by {
                    assert(joined(pieces).subrange(0, pieces[0].len() as int)[0] == joined(pieces)[0]);
                    assert(joined(pieces).subrange(0, pieces[0].len() as int) == pieces[0]);
                }
                lemma_holds_char(s, p, t, 1);
                lemma_fields_text(s, p, fields, 0);
                assert(fields.take(0) =~= Seq::<(Seq<char>, Json)>::empty());
            }
        },
    }
}

/// Where the `k`-th piece of a bracketed, comma-joined text held at `p`
/// stands, and what follows it: a comma, or the closing bracket.
proof fn lemma_bracketed_piece(s: Seq<char>, p: int, pieces: Seq<Seq<char>>, close: char, k: int)
    requires
        holds_at(s, p, seq!['['] + joined(pieces) + seq![close]) || holds_at(s, p, seq!['{'] + joined(pieces) + seq![close]),
        0 <= k < pieces.len(),
    ensures
        holds_at(s, p + 1 + piece_start(pieces, k), pieces[k]),
        k + 1 < pieces.len() ==> s[p + 1 + joined(pieces.take(k + 1)).len()] == ',',
        k + 1 < pieces.len() ==> piece_start(pieces, k + 1) == joined(pieces.take(k + 1)).len() + 1,
        k + 1 == pieces.len() ==> s[p + 1 + joined(pieces.take(k + 1)).len()] == close,
        k + 1 == pieces.len() ==> joined(pieces.take(k + 1)).len() + 2 == joined(pieces).len() + 2,
{
    let j = joined(pieces);
    lemma_joined_piece(pieces, k);
    let st = piece_start(pieces, k);
    let en = joined(pieces.take(k + 1)).len() as int;
    let open = if holds_at(s, p, seq!['['] + j + seq![close]) { '[' } else { '{' };
    let t = seq![open] + j + seq![close];
    assert(holds_at(s, p, t));
    assert(t.subrange(1 + st, 1 + en) =~= j.subrange(st, en));
    lemma_holds_sub(s, p, t, 1 + st, 1 + en);
    if k + 1 < pieces.len() {
        assert(t[1 + en] == j[en]);
    } else {
        assert(t[1 + en] == close);
    }
    lemma_holds_char(s, p, t, 1 + en);
}

/// Reading an array's text from its `k`-th item on, after the first `k`
/// items, gives the array and the index after its `]`.
proof fn lemma_items_text(s: Seq<char>, p: int, items: Seq<Json>, k: int)
    requires
        holds_at(s, p, json_text(Json::Arr(items))),
        items_fit(items),
        0 <= k < items.len(),
    ensures
        items_from(s, p + 1 + piece_start(item_texts(items), k), items.take(k))
            == Some((Json::Arr(items), p + json_text(Json::Arr(items)).len())),
    decreases items, items.len() - k,
{
    let pieces = item_texts(items);
    lemma_items_joined(items, pieces);
    assert(json_text(Json::Arr(items)) == seq!['['] + joined(pieces) + seq![']']);
    lemma_bracketed_piece(s, p, pieces, ']', k);
    let q = p + 1 + piece_start(pieces, k);
    let e = p + 1 + joined(pieces.take(k + 1)).len();
    lemma_joined_piece(pieces, k);
    assert(pieces[k] == json_text(items[k]));
    lemma_items_fit_index(items, k);
    lemma_value_text(s, q, items[k]);
    lemma_text_opens(items[k]);
    assert(items.take(k).push(items[k]) =~= items.take(k + 1));
    if k + 1 < items.len() {
        lemma_items_text(s, p, items, k + 1);
    } else {
        assert(items.take(k + 1) =~= items);
    }
}

/// Reading an object's text from its `k`-th member on, after the first
/// `k` members, gives the object and the index after its `}`.
proof fn lemma_fields_text(s: Seq<char>, p: int, fields: Seq<(Seq<char>, Json)>, k: int)
    requires
        holds_at(s, p, json_text(Json::Obj(fields))),
        fields_fit(fields),
        0 <= k < fields.len(),
    ensures
        members_from(s, p + 1 + piece_start(member_texts(fields), k), fields.take(k))
            == Some((Json::Obj(fields), p + json_text(Json::Obj(fields)).len())),
    decreases fields, fields.len() - k,
{
    let pieces = member_texts(fields);
    lemma_fields_joined(fields, pieces);
    assert(json_text(Json::Obj(fields)) == seq!['{'] + joined(pieces) + seq!['}']);
    lemma_bracketed_piece(s, p, pieces, '}', k);
    let q = p + 1 + piece_start(pieces, k);
    lemma_joined_piece(pieces, k);
    let key = fields[k].0;
    let val = fields[k].1;
    lemma_fields_fit_index(fields, k);
    lemma_member_at(s, q, key, val);
    lemma_value_text(s, q + escaped(key).len() + 1, val);
    assert(fields.take(k).push((key, val)) =~= fields.take(k + 1));
    if k + 1 < fields.len() {
        lemma_fields_text(s, p, fields, k + 1);
    } else {
        assert(fields.take(k + 1) =~= fields);
    }
}

/// A member's text held at `q`: its name reads back, a `:` follows, and
/// the value's text stands after it.
proof fn lemma_member_at(s: Seq<char>, q: int, key: Seq<char>, val: Json)
    requires
        holds_at(s, q, field_text((key, val))),
    ensures
        skip_ws(s, q) == q,
        string_at(s, q) == Some((key, q + escaped(key).len())),
        skip_ws(s, q + escaped(key).len()) == q + escaped(key).len(),
        s[q + escaped(key).len()] == ':',
        holds_at(s, q + escaped(key).len() + 1, json_text(val)),
        q + escaped(key).len() + 1 + json_text(val).len() == q + field_text((key, val)).len(),
{
    let ek = escaped(key);
    let piece = field_text((key, val));
    assert(piece.subrange(0, ek.len() as int) =~= ek);
    lemma_holds_sub(s, q, piece, 0, ek.len() as int);
    lemma_escaped_at(s, q, key);
    lemma_holds_char(s, q, piece, 0);
    lemma_holds_char(s, q, piece, ek.len() as int);
    assert(piece.subrange(ek.len() + 1int, piece.len() as int) =~= json_text(val));
    lemma_holds_sub(s, q, piece, ek.len() + 1int, piece.len() as int);
}

/// Escaping leaves a text alone when it holds no quote, no backslash and
/// no control character.
pub proof fn lemma_escaped_plain(t: Seq<char>)
    requires
        forall|i: int| 0 <= i < t.len() ==> #[trigger] t[i] != '"' && t[i] != '\\' && (t[i] as u32) >= 0x20,
    ensures
        escaped(t) == seq!['"'] + t + seq!['"'],
    decreases t.len(),
{
    lemma_escape_body_plain(t);
}

proof fn lemma_escape_body_plain(t: Seq<char>)
    requires
        forall|i: int| 0 <= i < t.len() ==> #[trigger] t[i] != '"' && t[i] != '\\' && (t[i] as u32) >= 0x20,
    ensures
        escape_body(t) == t,
    decreases t.len(),
{
    if t.len() > 0 {
        let d = t.drop_last();
        assert forall|i: int| 0 <= i < d.len() implies #[trigger] d[i] != '"' && d[i] != '\\' && (d[i] as u32) >= 0x20 by {
            assert(d[i] == t[i]);
        }
        lemma_escape_body_plain(d);
        let c = t.last();
        assert(c == t[t.len() - 1]);
        assert(c != '\n' && c != '\r' && c != '\t') by {
            assert(('\n' as u32) < 0x20);
            assert(('\r' as u32) < 0x20);
            assert(('\t' as u32) < 0x20);
        }
        assert(escape_char(c) == seq![c]);
        assert(t =~= d.push(c));
    }
}

/// What the writer writes for a value whose numbers fit, the parser reads
/// back: the value, ending where the text ends.
pub proof fn lemma_value_round_trip(v: Json)
    requires
        json_fits(v),
    ensures
        value_at(json_text(v), 0) == Some((v, json_text(v).len() as int)),
{
    let s = json_text(v);
    assert(s.subrange(0, s.len() as int) =~= s);
    lemma_value_text(s, 0, v);
}

/// A written object reads back, as a line, as its members.
pub proof fn lemma_object_line_round_trip(fields: Seq<(Seq<char>, Json)>)
    requires
        fields_fit(fields),
    ensures
        object_line(json_text(Json::Obj(fields))) == Some(fields),
{
    let s = json_text(Json::Obj(fields));
    lemma_value_round_trip(Json::Obj(fields));
    assert(s[0] == '{');
    assert(skip_ws(s, 0) == 0);
    assert(skip_ws(s, s.len() as int) == s.len());
}

} // verus!
