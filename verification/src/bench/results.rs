//! The results file's lines: a `{"fixture":{...}}` header, then one `Row`
//! per line, written with `json::escape` and read with
//! `json::parse_object`. Field names match the struct fields. Opening,
//! appending and reading the file is the application's part.
use vstd::prelude::*;
use crate::bench::json::{escape, escaped, field_views, json_view, parse_object, object_line, Json, JsonVal};
use crate::bench::json_write::{items_fit, items_text, json_fits, fields_fit, fields_text, lemma_fields_fit_push, json_text, lemma_escaped_plain, lemma_object_line_round_trip, member_text};
use crate::bench::verdict::{answer_named, lemma_answer_name_round_trip, lemma_verdict_key_round_trip, Answer, OracleAnswers, Verdict, VerdictView, verdict_of_key};
use crate::text::{chars_of, decimal, push_chars, push_str_chars, signed_decimal, string_from, u64_decimal, i64_decimal};

verus! {

/// Identifies one benchmark run: what was run, and under what limits.
pub struct Fixture {
    pub sha: String,
    pub version: String,
    pub timeout_s: u64,
    pub mem_mb: u64,
    pub jobs: usize,
    pub cpu_max: String,
    pub memory_max: String,
    pub corpus: String,
    pub started: String,
    /// The resolved solver path; absent in files written before the field
    /// existed.
    pub solver: Option<String>,
    /// The digest of that binary, so two builds of one sha never resume
    /// into one results file. `None` when it could not be taken.
    pub solver_md5: Option<String>,
}

/// A fixture, with its texts as character sequences.
pub struct FixtureView {
    pub sha: Seq<char>,
    pub version: Seq<char>,
    pub timeout_s: u64,
    pub mem_mb: u64,
    pub jobs: usize,
    pub cpu_max: Seq<char>,
    pub memory_max: Seq<char>,
    pub corpus: Seq<char>,
    pub started: Seq<char>,
    pub solver: Option<Seq<char>>,
    pub solver_md5: Option<Seq<char>>,
}

/// The text an optional string holds.
pub open spec fn opt_view(o: Option<String>) -> Option<Seq<char>> {
    match o {
        Some(s) => Some(s@),
        None => None,
    }
}

impl View for Fixture {
    type V = FixtureView;

    open spec fn view(&self) -> FixtureView {
        FixtureView {
            sha: self.sha@,
            version: self.version@,
            timeout_s: self.timeout_s,
            mem_mb: self.mem_mb,
            jobs: self.jobs,
            cpu_max: self.cpu_max@,
            memory_max: self.memory_max@,
            corpus: self.corpus@,
            started: self.started@,
            solver: opt_view(self.solver),
            solver_md5: opt_view(self.solver_md5),
        }
    }
}

/// The fixture's header line. `solver` and `solver_md5` are written only
/// when known, so a fixture without them reads as it did before the
/// fields existed.
pub open spec fn fixture_json(f: FixtureView) -> Seq<char> {
    "{\"fixture\":{\"sha\":"@ + escaped(f.sha)
        + member_text("version"@, escaped(f.version))
        + member_text("timeout_s"@, decimal(f.timeout_s as nat))
        + member_text("mem_mb"@, decimal(f.mem_mb as nat))
        + member_text("jobs"@, decimal(f.jobs as nat))
        + member_text("cpu_max"@, escaped(f.cpu_max))
        + member_text("memory_max"@, escaped(f.memory_max))
        + member_text("corpus"@, escaped(f.corpus))
        + member_text("started"@, escaped(f.started))
        + (match f.solver { Some(s) => member_text("solver"@, escaped(s)), None => Seq::empty() })
        + (match f.solver_md5 { Some(m) => member_text("solver_md5"@, escaped(m)), None => Seq::empty() })
        + "}}"@
}

/// The value of the first member named `name`.
pub open spec fn member_of(fields: Seq<(Seq<char>, Json)>, name: Seq<char>) -> Option<Json>
    decreases fields.len(),
{
    if fields.len() == 0 {
        None
    } else if fields[0].0 == name {
        Some(fields[0].1)
    } else {
        member_of(fields.drop_first(), name)
    }
}

/// Looking a name up after one more member: what the earlier members
/// give, else the new member if it bears the name.
pub broadcast proof fn lemma_member_of_push(fields: Seq<(Seq<char>, Json)>, x: (Seq<char>, Json), name: Seq<char>)
    ensures
        #[trigger] member_of(fields.push(x), name) == (match member_of(fields, name) {
            Some(v) => Some(v),
            None => if x.0 == name { Some(x.1) } else { None },
        }),
    decreases fields.len(),
{
    let p = fields.push(x);
    assert(p.len() > 0);
    if fields.len() > 0 {
        assert(p[0] == fields[0]);
        assert(p.drop_first() =~= fields.drop_first().push(x));
        lemma_member_of_push(fields.drop_first(), x, name);
    } else {
        assert(p[0] == x);
        assert(p.drop_first() =~= Seq::<(Seq<char>, Json)>::empty());
    }
}

/// The text of the first member named `name`, if it is a string.
pub open spec fn str_member(fields: Seq<(Seq<char>, Json)>, name: Seq<char>) -> Option<Seq<char>> {
    match member_of(fields, name) {
        Some(Json::Str(s)) => Some(s),
        _ => None,
    }
}

/// The number of the first member named `name`, if it is a number.
pub open spec fn num_member(fields: Seq<(Seq<char>, Json)>, name: Seq<char>) -> Option<int> {
    match member_of(fields, name) {
        Some(Json::Num(n)) => Some(n),
        _ => None,
    }
}

/// The text of the first member named `name`, or nothing.
pub open spec fn str_or_empty(fields: Seq<(Seq<char>, Json)>, name: Seq<char>) -> Seq<char> {
    match str_member(fields, name) {
        Some(s) => s,
        None => Seq::empty(),
    }
}

/// The fixture a header line holds: `sha` and `version` must be strings,
/// `timeout_s`, `mem_mb` and `jobs` numbers (cast as `as` casts them); the
/// other strings default to empty, and `solver`, `solver_md5` to absent.
pub open spec fn fixture_from(line: Seq<char>) -> Option<FixtureView> {
    match object_line(line) {
        None => None,
        Some(fields) => match member_of(fields, "fixture"@) {
            Some(Json::Obj(inner)) => match (
                str_member(inner, "sha"@),
                str_member(inner, "version"@),
                num_member(inner, "timeout_s"@),
                num_member(inner, "mem_mb"@),
                num_member(inner, "jobs"@),
            ) {
                (Some(sha), Some(version), Some(t), Some(m), Some(j)) => Some(FixtureView {
                    sha,
                    version,
                    timeout_s: t as u64,
                    mem_mb: m as u64,
                    jobs: j as usize,
                    cpu_max: str_or_empty(inner, "cpu_max"@),
                    memory_max: str_or_empty(inner, "memory_max"@),
                    corpus: str_or_empty(inner, "corpus"@),
                    started: str_or_empty(inner, "started"@),
                    solver: str_member(inner, "solver"@),
                    solver_md5: str_member(inner, "solver_md5"@),
                }),
                _ => None,
            },
            _ => None,
        },
    }
}

/// Two fixtures belong to one run when the sha and the limits match, and
/// the solver digests too when both carry one.
pub open spec fn same_run_spec(a: FixtureView, b: FixtureView) -> bool {
    let same_binary = match (a.solver_md5, b.solver_md5) {
        (Some(x), Some(y)) => x == y,
        _ => true,
    };
    same_binary && a.sha == b.sha && a.timeout_s == b.timeout_s && a.mem_mb == b.mem_mb && a.jobs == b.jobs
}

proof fn lemma_field_views_index(s: Seq<(String, JsonVal)>, i: int)
    requires
        0 <= i < s.len(),
    ensures
        field_views(s).len() == s.len(),
        field_views(s)[i] == (s[i].0@, json_view(s[i].1)),
    decreases s.len(),
{
    if i < s.len() - 1 {
        lemma_field_views_index(s.drop_last(), i);
    } else {
        lemma_field_views_len(s.drop_last());
    }
}

proof fn lemma_field_views_len(s: Seq<(String, JsonVal)>)
    ensures
        field_views(s).len() == s.len(),
    decreases s.len(),
{
    if s.len() > 0 {
        lemma_field_views_len(s.drop_last());
    }
}

proof fn lemma_member_of_skip(fields: Seq<(Seq<char>, Json)>, name: Seq<char>, i: int)
    requires
        0 <= i <= fields.len(),
        forall|j: int| 0 <= j < i ==> fields[j].0 != name,
    ensures
        member_of(fields, name) == member_of(fields.skip(i), name),
    decreases i,
{
    if i > 0 {
        lemma_member_of_skip(fields.drop_first(), name, i - 1);
        assert(fields.drop_first().skip(i - 1) =~= fields.skip(i));
    } else {
        assert(fields.skip(0) =~= fields);
    }
}

/// The value of the first member named `name`.
pub fn member<'a>(fields: &'a [(String, JsonVal)], name: &str) -> (r: Option<&'a JsonVal>)
    ensures
        match r {
            Some(v) => member_of(field_views(fields@), name@) == Some(json_view(*v)),
            None => member_of(field_views(fields@), name@) is None,
        },
{
    let ghost fv = field_views(fields@);
    let wanted = name.to_owned();
    proof { lemma_field_views_len(fields@); }
    let mut i: usize = 0;
    while i < fields.len()
        invariant
            0 <= i <= fields@.len(),
            fv == field_views(fields@),
            fv.len() == fields@.len(),
            wanted@ == name@,
            forall|j: int| 0 <= j < i ==> fv[j].0 != name@,
        decreases fields@.len() - i,
    {
        proof { lemma_field_views_index(fields@, i as int); }
        if same_text(&fields[i].0, &wanted) {
            proof {
                lemma_member_of_skip(fv, name@, i as int);
                assert(fv.skip(i as int)[0] == fv[i as int]);
            }
            return Some(&fields[i].1);
        }
        i = i + 1;
    }
    proof {
        lemma_member_of_skip(fv, name@, i as int);
        assert(fv.skip(i as int) =~= Seq::<(Seq<char>, Json)>::empty());
    }
    None
}

/// The text of the first member named `name`, if it is a string.
pub fn str_field(fields: &[(String, JsonVal)], name: &str) -> (r: Option<String>)
    ensures
        opt_view(r) == str_member(field_views(fields@), name@),
{
    match member(fields, name) {
        Some(JsonVal::Str(s)) => Some(s.clone()),
        _ => None,
    }
}

/// The number of the first member named `name`, if it is a number.
pub fn num_field(fields: &[(String, JsonVal)], name: &str) -> (r: Option<i64>)
    ensures
        match r {
            Some(n) => num_member(field_views(fields@), name@) == Some(n as int),
            None => num_member(field_views(fields@), name@) is None,
        },
{
    match member(fields, name) {
        Some(JsonVal::Num(n)) => Some(*n),
        _ => None,
    }
}

fn str_or_default(fields: &[(String, JsonVal)], name: &str) -> (r: String)
    ensures
        r@ == str_or_empty(field_views(fields@), name@),
{
    match str_field(fields, name) {
        Some(s) => s,
        None => String::new(),
    }
}

/// Append the escaped literal of `s` to `out`.
fn push_escaped(out: &mut Vec<char>, s: &str)
    ensures
        final(out)@ == old(out)@ + escaped(s@),
{
    let e = escape(s);
    push_str_chars(out, e.as_str());
}

/// Append `,"name":` and the string member `value` to `out`.
fn push_str_member(out: &mut Vec<char>, name: &str, value: &str)
    ensures
        final(out)@ == old(out)@ + member_text(name@, escaped(value@)),
{
    let ghost o = out@;
    out.push(',');
    push_escaped(out, name);
    out.push(':');
    push_escaped(out, value);
    proof { assert(out@ =~= o + member_text(name@, escaped(value@))); }
}

/// Append `,"name":` and the number member `n` to `out`.
fn push_num_member(out: &mut Vec<char>, name: &str, n: u64)
    ensures
        final(out)@ == old(out)@ + member_text(name@, decimal(n as nat)),
{
    let ghost o = out@;
    out.push(',');
    push_escaped(out, name);
    out.push(':');
    let d = u64_decimal(n);
    push_chars(out, d.as_slice());
    proof { assert(out@ =~= o + member_text(name@, decimal(n as nat))); }
}

/// Whether two strings hold the same text.
fn same_text(a: &String, b: &String) -> (r: bool)
    ensures
        r == (a@ == b@),
{
    a.eq(b)
}

/// The members of a fixture's header object, in the order they are
/// written; `solver` and `solver_md5` only when known.
pub open spec fn fixture_members(f: FixtureView) -> Seq<(Seq<char>, Json)> {
    let with_solver = match f.solver {
        Some(x) => fixture_base(f).push(("solver"@, Json::Str(x))),
        None => fixture_base(f),
    };
    match f.solver_md5 {
        Some(m) => with_solver.push(("solver_md5"@, Json::Str(m))),
        None => with_solver,
    }
}

/// The members every fixture has.
pub open spec fn fixture_base(f: FixtureView) -> Seq<(Seq<char>, Json)> {
    seq![("sha"@, Json::Str(f.sha))]
        .push(("version"@, Json::Str(f.version)))
        .push(("timeout_s"@, Json::Num(f.timeout_s as int)))
        .push(("mem_mb"@, Json::Num(f.mem_mb as int)))
        .push(("jobs"@, Json::Num(f.jobs as int)))
        .push(("cpu_max"@, Json::Str(f.cpu_max)))
        .push(("memory_max"@, Json::Str(f.memory_max)))
        .push(("corpus"@, Json::Str(f.corpus)))
        .push(("started"@, Json::Str(f.started)))
}

/// The header line as a JSON value: `{"fixture":{...}}`.
pub open spec fn fixture_value(f: FixtureView) -> Json {
    Json::Obj(seq![("fixture"@, Json::Obj(fixture_members(f)))])
}

/// Appending to both sides of an equation of texts keeps it.
proof fn lemma_append_both(p: Seq<char>, x: Seq<char>, m: Seq<char>, y: Seq<char>)
    requires
        p + x == y,
    ensures
        p + (x + m) == y + m,
{
    assert(p + (x + m) =~= (p + x) + m);
}

/// What the header line holds before its members: `{"fixture":{`.
spec fn fixture_open() -> Seq<char> {
    seq!['{'] + escaped("fixture"@) + seq![':'] + seq!['{']
}

/// The members every fixture has, after the header's opening, read as
/// the header line writes them.
#[verifier::spinoff_prover]
proof fn lemma_fixture_base_text(f: FixtureView)
    ensures
        fixture_open() + fields_text(fixture_base(f)) == "{\"fixture\":{\"sha\":"@ + escaped(f.sha)
            + member_text("version"@, escaped(f.version))
            + member_text("timeout_s"@, decimal(f.timeout_s as nat))
            + member_text("mem_mb"@, decimal(f.mem_mb as nat))
            + member_text("jobs"@, decimal(f.jobs as nat))
            + member_text("cpu_max"@, escaped(f.cpu_max))
            + member_text("memory_max"@, escaped(f.memory_max))
            + member_text("corpus"@, escaped(f.corpus))
            + member_text("started"@, escaped(f.started)),
{
    let b = fixture_base(f);
    let p = fixture_open();
    assert(p + escaped("sha"@) + seq![':'] =~= "{\"fixture\":{\"sha\":"@) by {
        reveal_strlit("{\"fixture\":{\"sha\":");
        reveal_strlit("fixture");
        reveal_strlit("sha");
        lemma_escaped_plain("fixture"@);
        lemma_escaped_plain("sha"@);
    }
    assert(json_text(Json::Num(f.timeout_s as int)) == decimal(f.timeout_s as nat));
    assert(json_text(Json::Num(f.mem_mb as int)) == decimal(f.mem_mb as nat));
    assert(json_text(Json::Num(f.jobs as int)) == decimal(f.jobs as nat));
    assert(json_text(Json::Str(f.sha)) == escaped(f.sha));
    assert(json_text(Json::Str(f.version)) == escaped(f.version));
    assert(json_text(Json::Str(f.cpu_max)) == escaped(f.cpu_max));
    assert(json_text(Json::Str(f.memory_max)) == escaped(f.memory_max));
    assert(json_text(Json::Str(f.corpus)) == escaped(f.corpus));
    assert(json_text(Json::Str(f.started)) == escaped(f.started));
    assert(b.take(1)[0] == ("sha"@, Json::Str(f.sha)));
    let h0 = "{\"fixture\":{\"sha\":"@ + escaped(f.sha);
    assert(fields_text(b.take(1)) == escaped("sha"@) + seq![':'] + escaped(f.sha));
    assert(p + fields_text(b.take(1)) =~= h0);
    let m1 = member_text("version"@, escaped(f.version));
    assert(b.take(2).drop_last() =~= b.take(1));
    assert(fields_text(b.take(2)) == fields_text(b.take(1)) + m1);
    lemma_append_both(p, fields_text(b.take(1)), m1, h0);
    let m2 = member_text("timeout_s"@, decimal(f.timeout_s as nat));
    assert(b.take(3).drop_last() =~= b.take(2));
    assert(fields_text(b.take(3)) == fields_text(b.take(2)) + m2);
    lemma_append_both(p, fields_text(b.take(2)), m2, h0 + m1);
    let m3 = member_text("mem_mb"@, decimal(f.mem_mb as nat));
    assert(b.take(4).drop_last() =~= b.take(3));
    assert(fields_text(b.take(4)) == fields_text(b.take(3)) + m3);
    lemma_append_both(p, fields_text(b.take(3)), m3, h0 + m1 + m2);
    let m4 = member_text("jobs"@, decimal(f.jobs as nat));
    assert(b.take(5).drop_last() =~= b.take(4));
    assert(fields_text(b.take(5)) == fields_text(b.take(4)) + m4);
    lemma_append_both(p, fields_text(b.take(4)), m4, h0 + m1 + m2 + m3);
    let m5 = member_text("cpu_max"@, escaped(f.cpu_max));
    assert(b.take(6).drop_last() =~= b.take(5));
    assert(fields_text(b.take(6)) == fields_text(b.take(5)) + m5);
    lemma_append_both(p, fields_text(b.take(5)), m5, h0 + m1 + m2 + m3 + m4);
    let m6 = member_text("memory_max"@, escaped(f.memory_max));
    assert(b.take(7).drop_last() =~= b.take(6));
    assert(fields_text(b.take(7)) == fields_text(b.take(6)) + m6);
    lemma_append_both(p, fields_text(b.take(6)), m6, h0 + m1 + m2 + m3 + m4 + m5);
    let m7 = member_text("corpus"@, escaped(f.corpus));
    assert(b.take(8).drop_last() =~= b.take(7));
    assert(fields_text(b.take(8)) == fields_text(b.take(7)) + m7);
    lemma_append_both(p, fields_text(b.take(7)), m7, h0 + m1 + m2 + m3 + m4 + m5 + m6);
    let m8 = member_text("started"@, escaped(f.started));
    assert(b.drop_last() =~= b.take(8));
    assert(fields_text(b) == fields_text(b.take(8)) + m8);
    lemma_append_both(p, fields_text(b.take(8)), m8, h0 + m1 + m2 + m3 + m4 + m5 + m6 + m7);
}

/// `{"name":{members}}` regrouped as its opening, the members, and `}}`.
proof fn lemma_wrapped_object(e: Seq<char>, x: Seq<char>)
    ensures
        seq!['{'] + (e + seq![':'] + (seq!['{'] + x + seq!['}'])) + seq!['}']
            == (seq!['{'] + e + seq![':'] + seq!['{']) + x + seq!['}', '}'],
{
    assert(seq!['{'] + (e + seq![':'] + (seq!['{'] + x + seq!['}'])) + seq!['}']
        =~= (seq!['{'] + e + seq![':'] + seq!['{']) + x + seq!['}', '}']);
}

/// All of a fixture's members, after the header's opening, read as the
/// header line writes them, up to its closing `}}`.
#[verifier::spinoff_prover]
#[verifier::rlimit(40)]
proof fn lemma_fixture_members_text(f: FixtureView)
    ensures
        fixture_json(f) == fixture_open() + fields_text(fixture_members(f)) + seq!['}', '}'],
{
    let ms = fixture_members(f);
    let b = fixture_base(f);
    let p = fixture_open();
    lemma_fixture_base_text(f);
    let h9 = p + fields_text(b);
    let opt1 = match f.solver { Some(s) => member_text("solver"@, escaped(s)), None => Seq::<char>::empty() };
    let opt2 = match f.solver_md5 { Some(m) => member_text("solver_md5"@, escaped(m)), None => Seq::<char>::empty() };
    let w = match f.solver { Some(x) => b.push(("solver"@, Json::Str(x))), None => b };
    assert(fields_text(w) == fields_text(b) + opt1) by {
        if f.solver is Some {
            let x = f.solver.unwrap();
            assert(w.drop_last() =~= b);
            assert(w.last() == ("solver"@, Json::Str(x)));
            assert(json_text(Json::Str(x)) == escaped(x));
        } else {
            assert(fields_text(b) + opt1 =~= fields_text(b));
        }
    }
    lemma_append_both(p, fields_text(b), opt1, h9);
    assert(fields_text(ms) == fields_text(w) + opt2) by {
        if f.solver_md5 is Some {
            let x = f.solver_md5.unwrap();
            assert(ms.drop_last() =~= w);
            assert(ms.last() == ("solver_md5"@, Json::Str(x)));
            assert(json_text(Json::Str(x)) == escaped(x));
        } else {
            assert(fields_text(w) + opt2 =~= fields_text(w));
        }
    }
    lemma_append_both(p, fields_text(w), opt2, h9 + opt1);
    assert("}}"@ == seq!['}', '}']) by {
        reveal_strlit("}}");
    }
}

/// The header line is the text of the header value.
proof fn lemma_fixture_json_text(f: FixtureView)
    ensures
        fixture_json(f) == json_text(fixture_value(f)),
{
    let ms = fixture_members(f);
    lemma_fixture_members_text(f);
    let outer = seq![("fixture"@, Json::Obj(ms))];
    assert(fields_text(outer) == escaped("fixture"@) + seq![':'] + json_text(Json::Obj(ms)));
    lemma_wrapped_object(escaped("fixture"@), fields_text(ms));
}

/// Every number among a fixture's members fits the parser's range when
/// its limits do.
proof fn lemma_fixture_fits(f: FixtureView)
    requires
        f.timeout_s <= i64::MAX,
        f.mem_mb <= i64::MAX,
        f.jobs <= i64::MAX,
    ensures
        fields_fit(fixture_members(f)),
{
    broadcast use lemma_fields_fit_push;
    assert(seq![("sha"@, Json::Str(f.sha))] =~= Seq::<(Seq<char>, Json)>::empty().push(("sha"@, Json::Str(f.sha))));
}

/// Looking a fixture's members up by name finds what was written under
/// that name, and nothing for a member that was left out.
#[verifier::spinoff_prover]
#[verifier::rlimit(40)]
proof fn lemma_fixture_lookups(f: FixtureView)
    ensures
        str_member(fixture_members(f), "sha"@) == Some(f.sha),
        str_member(fixture_members(f), "version"@) == Some(f.version),
        num_member(fixture_members(f), "timeout_s"@) == Some(f.timeout_s as int),
        num_member(fixture_members(f), "mem_mb"@) == Some(f.mem_mb as int),
        num_member(fixture_members(f), "jobs"@) == Some(f.jobs as int),
        str_or_empty(fixture_members(f), "cpu_max"@) == f.cpu_max,
        str_or_empty(fixture_members(f), "memory_max"@) == f.memory_max,
        str_or_empty(fixture_members(f), "corpus"@) == f.corpus,
        str_or_empty(fixture_members(f), "started"@) == f.started,
        str_member(fixture_members(f), "solver"@) == f.solver,
        str_member(fixture_members(f), "solver_md5"@) == f.solver_md5,
{
    reveal_strlit("sha");
    reveal_strlit("version");
    reveal_strlit("timeout_s");
    reveal_strlit("mem_mb");
    reveal_strlit("jobs");
    reveal_strlit("cpu_max");
    reveal_strlit("memory_max");
    reveal_strlit("corpus");
    reveal_strlit("started");
    reveal_strlit("solver");
    reveal_strlit("solver_md5");
    broadcast use lemma_member_of_push;
    assert(seq![("sha"@, Json::Str(f.sha))] =~= Seq::<(Seq<char>, Json)>::empty().push(("sha"@, Json::Str(f.sha))));
    assert("sha"@.len() == 3 && "sha"@[0] == 's');
    assert("version"@.len() == 7 && "version"@[0] == 'v');
    assert("timeout_s"@.len() == 9 && "timeout_s"@[0] == 't');
    assert("mem_mb"@.len() == 6 && "mem_mb"@[0] == 'm');
    assert("jobs"@.len() == 4 && "jobs"@[0] == 'j');
    assert("cpu_max"@.len() == 7 && "cpu_max"@[0] == 'c');
    assert("memory_max"@.len() == 10 && "memory_max"@[0] == 'm');
    assert("corpus"@.len() == 6 && "corpus"@[0] == 'c');
    assert("started"@.len() == 7 && "started"@[0] == 's');
    assert("solver"@.len() == 6 && "solver"@[0] == 's');
    assert("solver_md5"@.len() == 10 && "solver_md5"@[0] == 's');
}

/// A fixture's header line parses as an object with one member,
/// `fixture`, whose value holds the fixture's members.
proof fn lemma_fixture_line(f: FixtureView)
    requires
        f.timeout_s <= i64::MAX,
        f.mem_mb <= i64::MAX,
        f.jobs <= i64::MAX,
    ensures
        object_line(json_text(fixture_value(f))) == Some(seq![("fixture"@, Json::Obj(fixture_members(f)))]),
{
    let outer = seq![("fixture"@, Json::Obj(fixture_members(f)))];
    lemma_fixture_fits(f);
    assert(json_fits(Json::Obj(fixture_members(f))));
    assert(fields_fit(outer)) by {
        lemma_fields_fit_push(Seq::empty(), ("fixture"@, Json::Obj(fixture_members(f))));
    }
    lemma_object_line_round_trip(outer);
}

/// A fixture's header line reads back as the fixture, whenever its limits
/// fit the parser's integer range.
#[verifier::spinoff_prover]
pub proof fn lemma_fixture_round_trip(f: FixtureView)
    requires
        f.timeout_s <= i64::MAX,
        f.mem_mb <= i64::MAX,
        f.jobs <= i64::MAX,
    ensures
        fixture_from(fixture_json(f)) == Some(f),
{
    let ms = fixture_members(f);
    let outer = seq![("fixture"@, Json::Obj(ms))];
    lemma_fixture_line(f);
    lemma_fixture_json_text(f);
    assert(member_of(outer, "fixture"@) == Some(Json::Obj(ms)));
    lemma_fixture_lookups(f);
}

impl Fixture {
    /// The fixture's header line.
    pub fn to_json(&self) -> (r: String)
        ensures
            r@ == fixture_json(self@),
    {
        let mut out: Vec<char> = Vec::new();
        push_str_chars(&mut out, "{\"fixture\":{\"sha\":");
        push_escaped(&mut out, self.sha.as_str());
        push_str_member(&mut out, "version", self.version.as_str());
        push_num_member(&mut out, "timeout_s", self.timeout_s);
        push_num_member(&mut out, "mem_mb", self.mem_mb);
        push_num_member(&mut out, "jobs", self.jobs as u64);
        push_str_member(&mut out, "cpu_max", self.cpu_max.as_str());
        push_str_member(&mut out, "memory_max", self.memory_max.as_str());
        push_str_member(&mut out, "corpus", self.corpus.as_str());
        push_str_member(&mut out, "started", self.started.as_str());
        let ghost before_opt = out@;
        match &self.solver {
            Some(solver) => push_str_member(&mut out, "solver", solver.as_str()),
            None => {},
        }
        let ghost mid = out@;
        proof {
            assert(mid =~= before_opt + (match self@.solver { Some(s) => member_text("solver"@, escaped(s)), None => Seq::empty() }));
        }
        match &self.solver_md5 {
            Some(md5) => push_str_member(&mut out, "solver_md5", md5.as_str()),
            None => {},
        }
        let ghost after_opt = out@;
        proof {
            assert(after_opt =~= mid + (match self@.solver_md5 { Some(m) => member_text("solver_md5"@, escaped(m)), None => Seq::empty() }));
        }
        push_str_chars(&mut out, "}}");
        string_from(out.as_slice())
    }

    /// The fixture a header line holds, if it holds one.
    pub fn from_json(line: &str) -> (r: Option<Fixture>)
        ensures
            match r {
                Some(f) => fixture_from(line@) == Some(f@),
                None => fixture_from(line@) is None,
            },
    {
        let fields = match parse_object(line) {
            Some(f) => f,
            None => return None,
        };
        let inner = match member(fields.as_slice(), "fixture") {
            Some(JsonVal::Obj(o)) => o,
            _ => return None,
        };
        let ghost iv = field_views(inner@);
        let sha = match str_field(inner.as_slice(), "sha") {
            Some(s) => s,
            None => return None,
        };
        let version = match str_field(inner.as_slice(), "version") {
            Some(s) => s,
            None => return None,
        };
        let timeout_s = match num_field(inner.as_slice(), "timeout_s") {
            Some(n) => n,
            None => return None,
        };
        let mem_mb = match num_field(inner.as_slice(), "mem_mb") {
            Some(n) => n,
            None => return None,
        };
        let jobs = match num_field(inner.as_slice(), "jobs") {
            Some(n) => n,
            None => return None,
        };
        let f = Fixture {
            sha,
            version,
            timeout_s: timeout_s as u64,
            mem_mb: mem_mb as u64,
            jobs: jobs as usize,
            cpu_max: str_or_default(inner.as_slice(), "cpu_max"),
            memory_max: str_or_default(inner.as_slice(), "memory_max"),
            corpus: str_or_default(inner.as_slice(), "corpus"),
            started: str_or_default(inner.as_slice(), "started"),
            solver: str_field(inner.as_slice(), "solver"),
            solver_md5: str_field(inner.as_slice(), "solver_md5"),
        };
        Some(f)
    }

    /// Whether two fixtures belong to one run: the same sha, timeout,
    /// memory and jobs, and the same solver digest when both carry one. A
    /// file written before the digest existed stays resumable.
    pub fn same_run(&self, other: &Fixture) -> (b: bool)
        ensures
            b == same_run_spec(self@, other@),
    {
        let same_binary = match (&self.solver_md5, &other.solver_md5) {
            (Some(a), Some(b)) => same_text(a, b),
            _ => true,
        };
        same_binary && same_text(&self.sha, &other.sha) && self.timeout_s == other.timeout_s
            && self.mem_mb == other.mem_mb && self.jobs == other.jobs
    }
}

/// One benchmark instance's observed result.
#[derive(Clone)]
pub struct Row {
    pub path: String,
    pub logic: String,
    pub bytes: u64,
    pub status: Option<Answer>,
    pub rc: Option<i32>,
    pub wall_ms: u64,
    pub answers: Vec<Answer>,
    /// `(error …)` lines seen on stdout before the first answer.
    pub stdout_errors: usize,
    /// The first of those lines; absent on rows written before the field
    /// existed and on rows that saw no stdout error.
    pub first_error: Option<String>,
    pub fence: Option<String>,
    pub stderr_head: String,
    pub verdict: Verdict,
    pub oracle: Option<OracleAnswers>,
}

/// A row, with its texts as character sequences.
pub struct RowView {
    pub path: Seq<char>,
    pub logic: Seq<char>,
    pub bytes: u64,
    pub status: Option<Answer>,
    pub rc: Option<i32>,
    pub wall_ms: u64,
    pub answers: Seq<Answer>,
    pub stdout_errors: usize,
    pub first_error: Option<Seq<char>>,
    pub fence: Option<Seq<char>>,
    pub stderr_head: Seq<char>,
    pub verdict: VerdictView,
    pub oracle: Option<OracleAnswers>,
}

impl View for Row {
    type V = RowView;

    open spec fn view(&self) -> RowView {
        RowView {
            path: self.path@,
            logic: self.logic@,
            bytes: self.bytes,
            status: self.status,
            rc: self.rc,
            wall_ms: self.wall_ms,
            answers: self.answers@,
            stdout_errors: self.stdout_errors,
            first_error: opt_view(self.first_error),
            fence: opt_view(self.fence),
            stderr_head: self.stderr_head@,
            verdict: self.verdict@,
            oracle: self.oracle,
        }
    }
}

/// An optional answer as JSON: its spelling, or `null`.
pub open spec fn answer_json_spec(a: Option<Answer>) -> Seq<char> {
    match a {
        Some(a) => escaped(a.name()),
        None => "null"@,
    }
}

/// An optional string as JSON: its literal, or `null`.
pub open spec fn opt_str_json(s: Option<Seq<char>>) -> Seq<char> {
    match s {
        Some(t) => escaped(t),
        None => "null"@,
    }
}

/// The answers' literals, separated by commas.
pub open spec fn answers_items(s: Seq<Answer>) -> Seq<char>
    decreases s.len(),
{
    if s.len() == 0 {
        Seq::empty()
    } else if s.len() == 1 {
        escaped(s[0].name())
    } else {
        answers_items(s.drop_last()) + seq![','] + escaped(s.last().name())
    }
}

/// The oracle answers as JSON, or `null`.
pub open spec fn oracle_json(o: Option<OracleAnswers>) -> Seq<char> {
    match o {
        Some(o) => "{\"z3\":"@ + answer_json_spec(o.z3) + ",\"cvc5\":"@ + answer_json_spec(o.cvc5) + "}"@,
        None => "null"@,
    }
}

/// An exit status as JSON, or `null`.
pub open spec fn rc_json(rc: Option<i32>) -> Seq<char> {
    match rc {
        Some(v) => signed_decimal(v as int),
        None => "null"@,
    }
}

/// A row's line in the results file.
pub open spec fn row_json(r: RowView) -> Seq<char> {
    "{\"path\":"@ + escaped(r.path)
        + member_text("logic"@, escaped(r.logic))
        + member_text("bytes"@, decimal(r.bytes as nat))
        + member_text("status"@, answer_json_spec(r.status))
        + member_text("rc"@, rc_json(r.rc))
        + member_text("wall_ms"@, decimal(r.wall_ms as nat))
        + member_text("answers"@, seq!['['] + answers_items(r.answers) + seq![']'])
        + member_text("stdout_errors"@, decimal(r.stdout_errors as nat))
        + member_text("first_error"@, opt_str_json(r.first_error))
        + member_text("fence"@, opt_str_json(r.fence))
        + member_text("stderr_head"@, escaped(r.stderr_head))
        + member_text("verdict"@, escaped(r.verdict.key()))
        + member_text("oracle"@, oracle_json(r.oracle))
        + "}"@
}

/// The answer the first member named `name` spells, if it is a string
/// that spells one.
pub open spec fn answer_member(fields: Seq<(Seq<char>, Json)>, name: Seq<char>) -> Option<Answer> {
    match member_of(fields, name) {
        Some(Json::Str(s)) => answer_named(s),
        _ => None,
    }
}

/// The answers that the string items of an array spell; other items are
/// skipped.
pub open spec fn answers_from(items: Seq<Json>) -> Seq<Answer>
    decreases items.len(),
{
    if items.len() == 0 {
        Seq::empty()
    } else {
        let prev = answers_from(items.drop_last());
        match items.last() {
            Json::Str(s) => match answer_named(s) {
                Some(a) => prev.push(a),
                None => prev,
            },
            _ => prev,
        }
    }
}

/// The row a results line holds. `path`, `logic`, `bytes`, `wall_ms` and
/// `verdict` are required; the other fields default (to absent, empty or
/// zero) when missing or of the wrong kind, so older rows stay readable.
pub open spec fn row_from(line: Seq<char>) -> Option<RowView> {
    match object_line(line) {
        None => None,
        Some(f) => match (
            str_member(f, "path"@),
            str_member(f, "logic"@),
            num_member(f, "bytes"@),
            num_member(f, "wall_ms"@),
            str_member(f, "verdict"@),
        ) {
            (Some(path), Some(logic), Some(bytes), Some(wall_ms), Some(key)) => Some(RowView {
                path,
                logic,
                bytes: bytes as u64,
                status: answer_member(f, "status"@),
                rc: match num_member(f, "rc"@) {
                    Some(n) => Some(n as i32),
                    None => None,
                },
                wall_ms: wall_ms as u64,
                answers: match member_of(f, "answers"@) {
                    Some(Json::Arr(items)) => answers_from(items),
                    _ => Seq::empty(),
                },
                stdout_errors: match num_member(f, "stdout_errors"@) {
                    Some(n) => n as usize,
                    None => 0,
                },
                first_error: str_member(f, "first_error"@),
                fence: str_member(f, "fence"@),
                stderr_head: str_or_empty(f, "stderr_head"@),
                verdict: verdict_of_key(key),
                oracle: match member_of(f, "oracle"@) {
                    Some(Json::Obj(o)) => Some(OracleAnswers { z3: answer_member(o, "z3"@), cvc5: answer_member(o, "cvc5"@) }),
                    _ => None,
                },
            }),
            _ => None,
        },
    }
}

/// An optional answer as JSON: its spelling, or `null`.
pub fn answer_json(a: Option<Answer>) -> (r: String)
    ensures
        r@ == answer_json_spec(a),
{
    match a {
        Some(a) => escape(a.as_str()),
        None => "null".to_owned(),
    }
}

fn push_member_text(out: &mut Vec<char>, name: &str, value: &Vec<char>)
    ensures
        final(out)@ == old(out)@ + member_text(name@, value@),
{
    let ghost o = out@;
    out.push(',');
    push_escaped(out, name);
    out.push(':');
    push_chars(out, value.as_slice());
    proof { assert(out@ =~= o + member_text(name@, value@)); }
}

fn text_of(s: &str) -> (r: Vec<char>)
    ensures
        r@ == s@,
{
    chars_of(s)
}

fn escaped_of(s: &str) -> (r: Vec<char>)
    ensures
        r@ == escaped(s@),
{
    let e = escape(s);
    chars_of(e.as_str())
}

fn answer_text(a: Option<Answer>) -> (r: Vec<char>)
    ensures
        r@ == answer_json_spec(a),
{
    let s = answer_json(a);
    chars_of(s.as_str())
}

fn opt_str_text(o: &Option<String>) -> (r: Vec<char>)
    ensures
        r@ == opt_str_json(opt_view(*o)),
{
    match o {
        Some(t) => escaped_of(t.as_str()),
        None => text_of("null"),
    }
}

fn answers_text(s: &Vec<Answer>) -> (r: Vec<char>)
    ensures
        r@ == seq!['['] + answers_items(s@) + seq![']'],
{
    let mut out: Vec<char> = Vec::new();
    out.push('[');
    let mut i: usize = 0;
    while i < s.len()
        invariant
            0 <= i <= s@.len(),
            out@ == seq!['['] + answers_items(s@.take(i as int)),
        decreases s@.len() - i,
    {
        let ghost before = out@;
        if i > 0 {
            out.push(',');
        }
        let e = escaped_of(s[i].as_str());
        push_chars(&mut out, e.as_slice());
        proof {
            assert(s@.take(i + 1).drop_last() =~= s@.take(i as int));
            assert(s@.take(i + 1).last() == s@[i as int]);
            if i == 0 {
                assert(s@.take(1)[0] == s@[0]);
                assert(out@ =~= seq!['['] + answers_items(s@.take(1)));
            } else {
                assert(out@ =~= seq!['['] + answers_items(s@.take(i + 1)));
            }
        }
        i = i + 1;
    }
    out.push(']');
    proof { assert(s@.take(s@.len() as int) =~= s@); }
    out
}

fn oracle_text(o: &Option<OracleAnswers>) -> (r: Vec<char>)
    ensures
        r@ == oracle_json(*o),
{
    match o {
        Some(o) => {
            let mut out = text_of("{\"z3\":");
            let z = answer_text(o.z3);
            push_chars(&mut out, z.as_slice());
            push_str_chars(&mut out, ",\"cvc5\":");
            let c = answer_text(o.cvc5);
            push_chars(&mut out, c.as_slice());
            push_str_chars(&mut out, "}");
            out
        },
        None => text_of("null"),
    }
}

fn rc_text(rc: Option<i32>) -> (r: Vec<char>)
    ensures
        r@ == rc_json(rc),
{
    match rc {
        Some(v) => i64_decimal(v as i64),
        None => text_of("null"),
    }
}

fn answer_field(fields: &[(String, JsonVal)], name: &str) -> (r: Option<Answer>)
    ensures
        r == answer_member(field_views(fields@), name@),
{
    match member(fields, name) {
        Some(JsonVal::Str(s)) => Answer::parse(s.as_str()),
        _ => None,
    }
}

fn answers_field(items: &Vec<JsonVal>) -> (r: Vec<Answer>)
    ensures
        r@ == answers_from(crate::bench::json::json_views(items@)),
{
    let mut out: Vec<Answer> = Vec::new();
    let mut i: usize = 0;
    proof { assert(items@.take(0) =~= Seq::<JsonVal>::empty()); }
    while i < items.len()
        invariant
            0 <= i <= items@.len(),
            out@ == answers_from(crate::bench::json::json_views(items@.take(i as int))),
        decreases items@.len() - i,
    {
        proof {
            assert(items@.take(i + 1).drop_last() =~= items@.take(i as int));
            assert(items@.take(i + 1).last() == items@[i as int]);
            let jv = crate::bench::json::json_views(items@.take(i + 1));
            assert(jv.drop_last() =~= crate::bench::json::json_views(items@.take(i as int)));
            assert(jv.last() == json_view(items@[i as int]));
        }
        match &items[i] {
            JsonVal::Str(s) => match Answer::parse(s.as_str()) {
                Some(a) => out.push(a),
                None => {},
            },
            _ => {},
        }
        i = i + 1;
    }
    proof { assert(items@.take(items@.len() as int) =~= items@); }
    out
}

/// An optional answer as a JSON value: its spelling, or `null`.
pub open spec fn answer_value(a: Option<Answer>) -> Json {
    match a {
        Some(a) => Json::Str(a.name()),
        None => Json::Null,
    }
}

/// An optional string as a JSON value, or `null`.
pub open spec fn opt_str_value(s: Option<Seq<char>>) -> Json {
    match s {
        Some(t) => Json::Str(t),
        None => Json::Null,
    }
}

/// An exit status as a JSON value, or `null`.
pub open spec fn rc_value(rc: Option<i32>) -> Json {
    match rc {
        Some(v) => Json::Num(v as int),
        None => Json::Null,
    }
}

/// The answers' spellings as JSON strings.
pub open spec fn answers_value(s: Seq<Answer>) -> Seq<Json>
    decreases s.len(),
{
    if s.len() == 0 {
        Seq::empty()
    } else {
        answers_value(s.drop_last()).push(Json::Str(s.last().name()))
    }
}

/// The oracle answers as a JSON value, or `null`.
pub open spec fn oracle_value(o: Option<OracleAnswers>) -> Json {
    match o {
        Some(o) => Json::Obj(seq![("z3"@, answer_value(o.z3))].push(("cvc5"@, answer_value(o.cvc5)))),
        None => Json::Null,
    }
}

/// The members of a row's line, in the order they are written.
pub open spec fn row_members(r: RowView) -> Seq<(Seq<char>, Json)> {
    seq![("path"@, Json::Str(r.path))]
        .push(("logic"@, Json::Str(r.logic)))
        .push(("bytes"@, Json::Num(r.bytes as int)))
        .push(("status"@, answer_value(r.status)))
        .push(("rc"@, rc_value(r.rc)))
        .push(("wall_ms"@, Json::Num(r.wall_ms as int)))
        .push(("answers"@, Json::Arr(answers_value(r.answers))))
        .push(("stdout_errors"@, Json::Num(r.stdout_errors as int)))
        .push(("first_error"@, opt_str_value(r.first_error)))
        .push(("fence"@, opt_str_value(r.fence)))
        .push(("stderr_head"@, Json::Str(r.stderr_head)))
        .push(("verdict"@, Json::Str(r.verdict.key())))
        .push(("oracle"@, oracle_value(r.oracle)))
}

proof fn lemma_answers_value_len(s: Seq<Answer>)
    ensures
        answers_value(s).len() == s.len(),
    decreases s.len(),
{
    if s.len() > 0 {
        lemma_answers_value_len(s.drop_last());
    }
}

/// The answers' items are written as the array's inner text.
proof fn lemma_answers_text(s: Seq<Answer>)
    ensures
        items_text(answers_value(s)) == answers_items(s),
    decreases s.len(),
{
    if s.len() > 0 {
        lemma_answers_text(s.drop_last());
        lemma_answers_value_len(s);
        let v = answers_value(s);
        assert(v.drop_last() =~= answers_value(s.drop_last()));
        assert(v.last() == Json::Str(s.last().name()));
        assert(json_text(Json::Str(s.last().name())) == escaped(s.last().name()));
        if s.len() == 1 {
            assert(v[0] == v.last());
            assert(s[0] == s.last());
        }
    }
}

/// The answers read back from their written items are the answers.
proof fn lemma_answers_read(s: Seq<Answer>)
    ensures
        answers_from(answers_value(s)) == s,
        items_fit(answers_value(s)),
    decreases s.len(),
{
    if s.len() > 0 {
        lemma_answers_read(s.drop_last());
        lemma_answer_name_round_trip(s.last());
        let v = answers_value(s);
        assert(v.drop_last() =~= answers_value(s.drop_last()));
        assert(json_fits(v.last()));
        assert(s.drop_last().push(s.last()) =~= s);
    }
}

/// The oracle answers are written as the row's line writes them.
proof fn lemma_oracle_text(o: Option<OracleAnswers>)
    ensures
        json_text(oracle_value(o)) == oracle_json(o),
{
    reveal_strlit("null");
    match o {
        Some(o) => {
            let x1 = ("z3"@, answer_value(o.z3));
            let x2 = ("cvc5"@, answer_value(o.cvc5));
            let fs = seq![x1].push(x2);
            assert(fs.drop_last() =~= seq![x1]);
            assert(seq![x1][0] == x1);
            assert(fs.last() == x2);
            assert(json_text(answer_value(o.z3)) == answer_json_spec(o.z3));
            assert(json_text(answer_value(o.cvc5)) == answer_json_spec(o.cvc5));
            let e1 = escaped("z3"@);
            let e2 = escaped("cvc5"@);
            assert(fields_text(seq![x1]) == e1 + seq![':'] + answer_json_spec(o.z3));
            assert(fields_text(fs) == e1 + seq![':'] + answer_json_spec(o.z3) + member_text("cvc5"@, answer_json_spec(o.cvc5)));
            assert(seq!['{'] + e1 + seq![':'] =~= "{\"z3\":"@) by {
                reveal_strlit("{\"z3\":");
                reveal_strlit("z3");
                lemma_escaped_plain("z3"@);
            }
            assert(seq![','] + e2 + seq![':'] =~= ",\"cvc5\":"@) by {
                reveal_strlit(",\"cvc5\":");
                reveal_strlit("cvc5");
                lemma_escaped_plain("cvc5"@);
            }
            assert("}"@ == seq!['}']) by {
                reveal_strlit("}");
            }
            assert(json_text(oracle_value(Some(o))) =~= oracle_json(Some(o)));
        },
        None => {},
    }
}

/// Each member's value is written as the row's line writes it.
proof fn lemma_row_value_texts(r: RowView)
    ensures
        json_text(answer_value(r.status)) == answer_json_spec(r.status),
        json_text(rc_value(r.rc)) == rc_json(r.rc),
        json_text(Json::Arr(answers_value(r.answers))) == seq!['['] + answers_items(r.answers) + seq![']'],
        json_text(opt_str_value(r.first_error)) == opt_str_json(r.first_error),
        json_text(opt_str_value(r.fence)) == opt_str_json(r.fence),
        json_text(oracle_value(r.oracle)) == oracle_json(r.oracle),
        json_text(Json::Num(r.bytes as int)) == decimal(r.bytes as nat),
        json_text(Json::Num(r.wall_ms as int)) == decimal(r.wall_ms as nat),
        json_text(Json::Num(r.stdout_errors as int)) == decimal(r.stdout_errors as nat),
        json_text(Json::Str(r.path)) == escaped(r.path),
        json_text(Json::Str(r.logic)) == escaped(r.logic),
        json_text(Json::Str(r.stderr_head)) == escaped(r.stderr_head),
        json_text(Json::Str(r.verdict.key())) == escaped(r.verdict.key()),
{
    reveal_strlit("null");
    lemma_answers_text(r.answers);
    lemma_oracle_text(r.oracle);
}

/// A row's line is the text of its members, as an object.
#[verifier::spinoff_prover]
#[verifier::rlimit(40)]
proof fn lemma_row_json_text(r: RowView)
    ensures
        row_json(r) == json_text(Json::Obj(row_members(r))),
{
    let b = row_members(r);
    lemma_row_value_texts(r);
    let p = seq!['{'];
    assert(p + escaped("path"@) + seq![':'] =~= "{\"path\":"@) by {
        reveal_strlit("{\"path\":");
        reveal_strlit("path");
        lemma_escaped_plain("path"@);
    }
    let h0 = "{\"path\":"@ + escaped(r.path);
    assert(b.take(1)[0] == ("path"@, Json::Str(r.path)));
    assert(fields_text(b.take(1)) == escaped("path"@) + seq![':'] + escaped(r.path));
    assert(p + fields_text(b.take(1)) =~= h0);
    let m1 = member_text("logic"@, escaped(r.logic));
    assert(b.take(2).drop_last() =~= b.take(1));
    assert(fields_text(b.take(2)) == fields_text(b.take(1)) + m1);
    lemma_append_both(p, fields_text(b.take(1)), m1, h0);
    let m2 = member_text("bytes"@, decimal(r.bytes as nat));
    assert(b.take(3).drop_last() =~= b.take(2));
    assert(fields_text(b.take(3)) == fields_text(b.take(2)) + m2);
    lemma_append_both(p, fields_text(b.take(2)), m2, h0 + m1);
    let m3 = member_text("status"@, answer_json_spec(r.status));
    assert(b.take(4).drop_last() =~= b.take(3));
    assert(fields_text(b.take(4)) == fields_text(b.take(3)) + m3);
    lemma_append_both(p, fields_text(b.take(3)), m3, h0 + m1 + m2);
    let m4 = member_text("rc"@, rc_json(r.rc));
    assert(b.take(5).drop_last() =~= b.take(4));
    assert(fields_text(b.take(5)) == fields_text(b.take(4)) + m4);
    lemma_append_both(p, fields_text(b.take(4)), m4, h0 + m1 + m2 + m3);
    let m5 = member_text("wall_ms"@, decimal(r.wall_ms as nat));
    assert(b.take(6).drop_last() =~= b.take(5));
    assert(fields_text(b.take(6)) == fields_text(b.take(5)) + m5);
    lemma_append_both(p, fields_text(b.take(5)), m5, h0 + m1 + m2 + m3 + m4);
    let m6 = member_text("answers"@, seq!['['] + answers_items(r.answers) + seq![']']);
    assert(b.take(7).drop_last() =~= b.take(6));
    assert(fields_text(b.take(7)) == fields_text(b.take(6)) + m6);
    lemma_append_both(p, fields_text(b.take(6)), m6, h0 + m1 + m2 + m3 + m4 + m5);
    let m7 = member_text("stdout_errors"@, decimal(r.stdout_errors as nat));
    assert(b.take(8).drop_last() =~= b.take(7));
    assert(fields_text(b.take(8)) == fields_text(b.take(7)) + m7);
    lemma_append_both(p, fields_text(b.take(7)), m7, h0 + m1 + m2 + m3 + m4 + m5 + m6);
    let m8 = member_text("first_error"@, opt_str_json(r.first_error));
    assert(b.take(9).drop_last() =~= b.take(8));
    assert(fields_text(b.take(9)) == fields_text(b.take(8)) + m8);
    lemma_append_both(p, fields_text(b.take(8)), m8, h0 + m1 + m2 + m3 + m4 + m5 + m6 + m7);
    let m9 = member_text("fence"@, opt_str_json(r.fence));
    assert(b.take(10).drop_last() =~= b.take(9));
    assert(fields_text(b.take(10)) == fields_text(b.take(9)) + m9);
    lemma_append_both(p, fields_text(b.take(9)), m9, h0 + m1 + m2 + m3 + m4 + m5 + m6 + m7 + m8);
    let m10 = member_text("stderr_head"@, escaped(r.stderr_head));
    assert(b.take(11).drop_last() =~= b.take(10));
    assert(fields_text(b.take(11)) == fields_text(b.take(10)) + m10);
    lemma_append_both(p, fields_text(b.take(10)), m10, h0 + m1 + m2 + m3 + m4 + m5 + m6 + m7 + m8 + m9);
    let m11 = member_text("verdict"@, escaped(r.verdict.key()));
    assert(b.take(12).drop_last() =~= b.take(11));
    assert(fields_text(b.take(12)) == fields_text(b.take(11)) + m11);
    lemma_append_both(p, fields_text(b.take(11)), m11, h0 + m1 + m2 + m3 + m4 + m5 + m6 + m7 + m8 + m9 + m10);
    let m12 = member_text("oracle"@, oracle_json(r.oracle));
    assert(b.drop_last() =~= b.take(12));
    assert(fields_text(b) == fields_text(b.take(12)) + m12);
    lemma_append_both(p, fields_text(b.take(12)), m12, h0 + m1 + m2 + m3 + m4 + m5 + m6 + m7 + m8 + m9 + m10 + m11);
    assert("}"@ == seq!['}']) by {
        reveal_strlit("}");
    }
}

/// Every number in a row's members fits the parser's range when its
/// counts do.
proof fn lemma_row_fits(r: RowView)
    requires
        r.bytes <= i64::MAX,
        r.wall_ms <= i64::MAX,
        r.stdout_errors <= i64::MAX,
    ensures
        fields_fit(row_members(r)),
{
    broadcast use lemma_fields_fit_push;
    lemma_answers_read(r.answers);
    assert(json_fits(answer_value(r.status)));
    assert(json_fits(rc_value(r.rc)));
    assert(json_fits(opt_str_value(r.first_error)));
    assert(json_fits(opt_str_value(r.fence)));
    assert(json_fits(Json::Arr(answers_value(r.answers))));
    assert(seq![("path"@, Json::Str(r.path))] =~= Seq::<(Seq<char>, Json)>::empty().push(("path"@, Json::Str(r.path))));
    match r.oracle {
        Some(o) => {
            assert(seq![("z3"@, answer_value(o.z3))] =~= Seq::<(Seq<char>, Json)>::empty().push(("z3"@, answer_value(o.z3))));
            assert(json_fits(answer_value(o.z3)));
            assert(json_fits(answer_value(o.cvc5)));
            assert(fields_fit(Seq::<(Seq<char>, Json)>::empty()));
            let x1 = ("z3"@, answer_value(o.z3));
            let x2 = ("cvc5"@, answer_value(o.cvc5));
            assert(fields_fit(seq![x1]));
            assert(fields_fit(seq![x1].push(x2)));
            assert(json_fits(oracle_value(r.oracle)));
        },
        None => {},
    }
}

/// Looking a row's members up by name finds what was written under that
/// name.
#[verifier::spinoff_prover]
#[verifier::rlimit(40)]
proof fn lemma_row_lookups(r: RowView)
    ensures
        str_member(row_members(r), "path"@) == Some(r.path),
        str_member(row_members(r), "logic"@) == Some(r.logic),
        num_member(row_members(r), "bytes"@) == Some(r.bytes as int),
        member_of(row_members(r), "status"@) == Some(answer_value(r.status)),
        member_of(row_members(r), "rc"@) == Some(rc_value(r.rc)),
        num_member(row_members(r), "wall_ms"@) == Some(r.wall_ms as int),
        member_of(row_members(r), "answers"@) == Some(Json::Arr(answers_value(r.answers))),
        num_member(row_members(r), "stdout_errors"@) == Some(r.stdout_errors as int),
        member_of(row_members(r), "first_error"@) == Some(opt_str_value(r.first_error)),
        member_of(row_members(r), "fence"@) == Some(opt_str_value(r.fence)),
        str_or_empty(row_members(r), "stderr_head"@) == r.stderr_head,
        str_member(row_members(r), "verdict"@) == Some(r.verdict.key()),
        member_of(row_members(r), "oracle"@) == Some(oracle_value(r.oracle)),
{
    broadcast use lemma_member_of_push;
    assert("path"@.len() == 4 && "path"@[0] == 'p') by { reveal_strlit("path"); }
    assert("logic"@.len() == 5 && "logic"@[0] == 'l') by { reveal_strlit("logic"); }
    assert("bytes"@.len() == 5 && "bytes"@[0] == 'b') by { reveal_strlit("bytes"); }
    assert("status"@.len() == 6 && "status"@[0] == 's') by { reveal_strlit("status"); }
    assert("rc"@.len() == 2 && "rc"@[0] == 'r') by { reveal_strlit("rc"); }
    assert("wall_ms"@.len() == 7 && "wall_ms"@[0] == 'w') by { reveal_strlit("wall_ms"); }
    assert("answers"@.len() == 7 && "answers"@[0] == 'a') by { reveal_strlit("answers"); }
    assert("stdout_errors"@.len() == 13 && "stdout_errors"@[0] == 's') by { reveal_strlit("stdout_errors"); }
    assert("first_error"@.len() == 11 && "first_error"@[0] == 'f') by { reveal_strlit("first_error"); }
    assert("fence"@.len() == 5 && "fence"@[0] == 'f') by { reveal_strlit("fence"); }
    assert("stderr_head"@.len() == 11 && "stderr_head"@[0] == 's') by { reveal_strlit("stderr_head"); }
    assert("verdict"@.len() == 7 && "verdict"@[0] == 'v') by { reveal_strlit("verdict"); }
    assert("oracle"@.len() == 6 && "oracle"@[0] == 'o') by { reveal_strlit("oracle"); }
    assert(seq![("path"@, Json::Str(r.path))] =~= Seq::<(Seq<char>, Json)>::empty().push(("path"@, Json::Str(r.path))));
}

/// A row's line reads back as the row, whenever its counts fit the
/// parser's integer range.
#[verifier::spinoff_prover]
pub proof fn lemma_row_round_trip(r: RowView)
    requires
        r.bytes <= i64::MAX,
        r.wall_ms <= i64::MAX,
        r.stdout_errors <= i64::MAX,
    ensures
        row_from(row_json(r)) == Some(r),
{
    let ms = row_members(r);
    assert(object_line(row_json(r)) == Some(ms)) by {
        lemma_row_json_text(r);
        lemma_row_fits(r);
        lemma_object_line_round_trip(ms);
    }
    lemma_row_lookups(r);
    lemma_verdict_key_round_trip(r.verdict);
    lemma_answers_read(r.answers);
    match r.status {
        Some(a) => lemma_answer_name_round_trip(a),
        None => {},
    }
    match r.oracle {
        Some(o) => {
            let os = seq![("z3"@, answer_value(o.z3))].push(("cvc5"@, answer_value(o.cvc5)));
            broadcast use lemma_member_of_push;
            assert("z3"@.len() == 2) by { reveal_strlit("z3"); }
            assert("cvc5"@.len() == 4) by { reveal_strlit("cvc5"); }
            assert(seq![("z3"@, answer_value(o.z3))] =~= Seq::<(Seq<char>, Json)>::empty().push(("z3"@, answer_value(o.z3))));
            assert(member_of(os, "z3"@) == Some(answer_value(o.z3)));
            assert(member_of(os, "cvc5"@) == Some(answer_value(o.cvc5)));
            match o.z3 {
                Some(a) => lemma_answer_name_round_trip(a),
                None => {},
            }
            match o.cvc5 {
                Some(a) => lemma_answer_name_round_trip(a),
                None => {},
            }
        },
        None => {},
    }
}

impl Row {
    /// The row's line in the results file.
    pub fn to_json(&self) -> (r: String)
        ensures
            r@ == row_json(self@),
    {
        let mut out = text_of("{\"path\":");
        push_escaped(&mut out, self.path.as_str());
        push_str_member(&mut out, "logic", self.logic.as_str());
        push_num_member(&mut out, "bytes", self.bytes);
        push_member_text(&mut out, "status", &answer_text(self.status));
        push_member_text(&mut out, "rc", &rc_text(self.rc));
        push_num_member(&mut out, "wall_ms", self.wall_ms);
        push_member_text(&mut out, "answers", &answers_text(&self.answers));
        push_num_member(&mut out, "stdout_errors", self.stdout_errors as u64);
        push_member_text(&mut out, "first_error", &opt_str_text(&self.first_error));
        push_member_text(&mut out, "fence", &opt_str_text(&self.fence));
        push_str_member(&mut out, "stderr_head", self.stderr_head.as_str());
        let key = self.verdict.key();
        push_str_member(&mut out, "verdict", key.as_str());
        push_member_text(&mut out, "oracle", &oracle_text(&self.oracle));
        push_str_chars(&mut out, "}");
        string_from(out.as_slice())
    }

    /// The row a results line holds, if it holds one.
    pub fn from_json(line: &str) -> (r: Option<Row>)
        ensures
            match r {
                Some(row) => row_from(line@) == Some(row@),
                None => row_from(line@) is None,
            },
    {
        let fields = match parse_object(line) {
            Some(f) => f,
            None => return None,
        };
        let f = fields.as_slice();
        let path = match str_field(f, "path") {
            Some(s) => s,
            None => return None,
        };
        let logic = match str_field(f, "logic") {
            Some(s) => s,
            None => return None,
        };
        let bytes = match num_field(f, "bytes") {
            Some(n) => n as u64,
            None => return None,
        };
        let status = answer_field(f, "status");
        let rc = match num_field(f, "rc") {
            Some(n) => Some(n as i32),
            None => None,
        };
        let wall_ms = match num_field(f, "wall_ms") {
            Some(n) => n as u64,
            None => return None,
        };
        let answers = match member(f, "answers") {
            Some(JsonVal::Arr(items)) => answers_field(items),
            _ => Vec::new(),
        };
        let stdout_errors = match num_field(f, "stdout_errors") {
            Some(n) => n as usize,
            None => 0,
        };
        let first_error = str_field(f, "first_error");
        let fence = str_field(f, "fence");
        let stderr_head = str_or_default(f, "stderr_head");
        let verdict = match str_field(f, "verdict") {
            Some(k) => Verdict::parse(k.as_str()),
            None => return None,
        };
        let oracle = match member(f, "oracle") {
            Some(JsonVal::Obj(o)) => Some(OracleAnswers { z3: answer_field(o.as_slice(), "z3"), cvc5: answer_field(o.as_slice(), "cvc5") }),
            _ => None,
        };
        Some(Row {
            path,
            logic,
            bytes,
            status,
            rc,
            wall_ms,
            answers,
            stdout_errors,
            first_error,
            fence,
            stderr_head,
            verdict,
            oracle,
        })
    }
}

} // verus!
