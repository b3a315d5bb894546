//! What a run's output says: the answers on stdout, the fence tag of the
//! last `stats:` line on stderr, and the stderr kept in a row.
use vstd::prelude::*;
use crate::bench::oracle::Oracle;
use crate::bench::process::Limits;
use crate::bench::instance::Instance;
use crate::bench::process::Exec;
use crate::bench::results::{Row, RowView};
use crate::bench::verdict::{classify, verdict_of_run, Answer, Observed, OracleAnswers, Verdict};
use crate::text::{chars_of, eq_str, lines, lines_of, position_or_len, index_of_or_len, lemma_index_of_bound, prefix_within, chars_within, push_chars, split_whitespace, starts_with, starts_with_str, string_from, trim, trim_chars, trim_start, trim_start_index, words};

verus! {

/// Everything one run needs: what to invoke, under what limits, how wide,
/// and which oracles to fall back on.
pub struct RunConfig {
    pub solver: String,
    pub solver_args: Vec<String>,
    pub limits: Limits,
    pub jobs: usize,
    pub oracle: Oracle,
}

/// The most stderr a row keeps, in bytes.
pub const STDERR_HEAD_BYTES: usize = 2048;

/// The answer a trimmed stdout line states, if it is one.
pub open spec fn answer_line(t: Seq<char>) -> Option<Answer> {
    if t == "sat"@ {
        Some(Answer::Sat)
    } else if t == "unsat"@ {
        Some(Answer::Unsat)
    } else if t == "unknown"@ {
        Some(Answer::Unknown)
    } else {
        None
    }
}

/// The answer a trimmed stdout line states, if it is one.
pub fn answer_line_of(t: &[char]) -> (r: Option<Answer>)
    ensures
        r == answer_line(t@),
{
    if eq_str(t, "sat") {
        Some(Answer::Sat)
    } else if eq_str(t, "unsat") {
        Some(Answer::Unsat)
    } else if eq_str(t, "unknown") {
        Some(Answer::Unknown)
    } else {
        None
    }
}

/// The answers of the lines `ls`, in order, and the number of `(error`
/// lines before the first answer.
pub open spec fn scan_answers(ls: Seq<Seq<char>>) -> (Seq<Answer>, nat)
    decreases ls.len(),
{
    if ls.len() == 0 {
        (Seq::empty(), 0)
    } else {
        let (answers, errors) = scan_answers(ls.drop_last());
        let t = trim(ls.last());
        match answer_line(t) {
            Some(a) => (answers.push(a), errors),
            None => if answers.len() == 0 && starts_with(t, "(error"@) {
                (answers, errors + 1)
            } else {
                (answers, errors)
            },
        }
    }
}

/// The solver's answers in order, and the number of `(error …)` lines that
/// came before the first one. Any other line is ignored.
pub fn parse_answers(stdout: &str) -> (r: (Vec<Answer>, usize))
    ensures
        (r.0@, r.1 as nat) == scan_answers(lines(stdout@)),
{
    let text = chars_of(stdout);
    let ls = lines_of(text.as_slice());
    let ghost lv = ls@.map_values(|l: Vec<char>| l@);
    let mut answers: Vec<Answer> = Vec::new();
    let mut errors: usize = 0;
    let mut i: usize = 0;
    while i < ls.len()
        invariant
            0 <= i <= ls@.len(),
            lv == ls@.map_values(|l: Vec<char>| l@),
            (answers@, errors as nat) == scan_answers(lv.take(i as int)),
            errors <= i,
        decreases ls@.len() - i,
    {
        let t = trim_chars(ls[i].as_slice());
        proof {
            assert(lv.take(i + 1).drop_last() =~= lv.take(i as int));
            assert(lv.take(i + 1).last() == ls@[i as int]@);
        }
        match answer_line_of(t.as_slice()) {
            Some(a) => answers.push(a),
            None => {
                if answers.len() == 0 && starts_with_str(t.as_slice(), "(error") {
                    errors = errors + 1;
                }
            },
        }
        i = i + 1;
    }
    proof { assert(lv.take(ls@.len() as int) =~= lv); }
    (answers, errors)
}

/// A `stats:` line: one whose text after leading white space starts so.
pub open spec fn is_stats_line(l: Seq<char>) -> bool {
    starts_with(trim_start(l), "stats:"@)
}

fn stats_line(l: &[char]) -> (b: bool)
    ensures
        b == is_stats_line(l@),
{
    let st = trim_start_index(l);
    let rest = vstd::slice::slice_subrange(l, st, l.len());
    proof { assert(rest@ =~= l@.skip(st as int)); }
    starts_with_str(rest, "stats:")
}

/// The last `stats:` line among `ls`.
pub open spec fn last_stats_line(ls: Seq<Seq<char>>) -> Option<Seq<char>>
    decreases ls.len(),
{
    if ls.len() == 0 {
        None
    } else if is_stats_line(ls.last()) {
        Some(ls.last())
    } else {
        last_stats_line(ls.drop_last())
    }
}

/// What follows `fence=` in the first word that starts with it.
pub open spec fn fence_field(ws: Seq<Seq<char>>) -> Option<Seq<char>>
    decreases ws.len(),
{
    if ws.len() == 0 {
        None
    } else if starts_with(ws[0], "fence="@) {
        Some(ws[0].skip(6))
    } else {
        fence_field(ws.drop_first())
    }
}

/// The fence tag of the last `stats:` line of `stderr`; `-` means none.
pub open spec fn stats_fence(stderr: Seq<char>) -> Option<Seq<char>> {
    match last_stats_line(lines(stderr)) {
        None => None,
        Some(l) => match fence_field(words(l)) {
            None => None,
            Some(tag) => if tag == "-"@ { None } else { Some(tag) },
        },
    }
}

/// The `fence=` tag of the last `stats:` line, or `None` for `-` or none.
pub fn parse_stats_fence(stderr: &str) -> (r: Option<String>)
    ensures
        match r {
            Some(t) => stats_fence(stderr@) == Some(t@),
            None => stats_fence(stderr@) is None,
        },
{
    let text = chars_of(stderr);
    let ls = lines_of(text.as_slice());
    let ghost lv = ls@.map_values(|l: Vec<char>| l@);
    let mut i: usize = ls.len();
    proof { assert(lv.take(i as int) =~= lv); }
    while i > 0 && !stats_line(ls[i - 1].as_slice())
        invariant
            0 <= i <= ls@.len(),
            lv == ls@.map_values(|l: Vec<char>| l@),
            last_stats_line(lv) == last_stats_line(lv.take(i as int)),
        decreases i,
    {
        proof {
            assert(lv.take(i as int).drop_last() =~= lv.take(i - 1));
            assert(lv.take(i as int).last() == ls@[i - 1]@);
        }
        i = i - 1;
    }
    if i == 0 {
        return None;
    }
    proof { assert(lv.take(i as int).last() == ls@[i - 1]@); }
    let ws = split_whitespace(ls[i - 1].as_slice());
    let ghost wv = ws@.map_values(|w: Vec<char>| w@);
    let mut j: usize = 0;
    proof { assert(wv.skip(0) =~= wv); }
    while j < ws.len() && !starts_with_str(ws[j].as_slice(), "fence=")
        invariant
            0 <= j <= ws@.len(),
            wv == ws@.map_values(|w: Vec<char>| w@),
            fence_field(wv) == fence_field(wv.skip(j as int)),
        decreases ws@.len() - j,
    {
        proof {
            assert(wv.skip(j as int).drop_first() =~= wv.skip(j + 1));
            assert(wv.skip(j as int)[0] == ws@[j as int]@);
        }
        j = j + 1;
    }
    if j == ws.len() {
        proof { assert(wv.skip(j as int) =~= Seq::<Seq<char>>::empty()); }
        return None;
    }
    proof {
        assert(wv.skip(j as int)[0] == ws@[j as int]@);
        reveal_strlit("fence=");
    }
    let w = ws[j].as_slice();
    let tag = vstd::slice::slice_subrange(w, 6, w.len());
    proof { assert(tag@ =~= w@.skip(6)); }
    if eq_str(tag, "-") {
        None
    } else {
        Some(string_from(tag))
    }
}

/// `s` with its `stats:` lines removed; each line keeps its `\n`.
pub open spec fn without_stats(s: Seq<char>) -> Seq<char>
    decreases s.len(),
{
    if s.len() == 0 {
        Seq::empty()
    } else {
        let i = index_of_or_len(s, '\n');
        proof { lemma_index_of_bound(s, '\n'); }
        let end = if i < s.len() { i + 1 } else { s.len() as int };
        let piece = s.take(end);
        (if is_stats_line(piece) { Seq::empty() } else { piece }) + without_stats(s.skip(end))
    }
}

/// `stderr` without its `stats:` lines, cut to the longest prefix that
/// fits in `max` bytes and ends on a character boundary.
pub open spec fn stripped_stderr(stderr: Seq<char>, max: nat) -> Seq<char> {
    let kept = without_stats(stderr);
    kept.take(chars_within(kept, max) as int)
}

proof fn lemma_chars_within_bound(s: Seq<char>, max: nat)
    ensures
        chars_within(s, max) <= s.len(),
    decreases s.len(),
{
    if s.len() > 0 && crate::text::utf8_width(s[0]) <= max {
        lemma_chars_within_bound(s.drop_first(), (max - crate::text::utf8_width(s[0])) as nat);
    }
}

/// `stderr` minus its `stats:` lines, truncated to the largest character
/// boundary at or below `max` bytes.
pub fn strip_stats(stderr: &str, max: usize) -> (r: String)
    ensures
        r@ == stripped_stderr(stderr@, max as nat),
{
    let s = chars_of(stderr);
    let mut kept: Vec<char> = Vec::new();
    let mut i: usize = 0;
    proof { assert(s@.skip(0) =~= s@); }
    while i < s.len()
        invariant
            0 <= i <= s@.len(),
            without_stats(s@) == kept@ + without_stats(s@.skip(i as int)),
        decreases s@.len() - i,
    {
        let rest = vstd::slice::slice_subrange(s.as_slice(), i, s.len());
        proof { assert(rest@ =~= s@.skip(i as int)); lemma_index_of_bound(rest@, '\n'); }
        let j = position_or_len(rest, '\n');
        let end = if j < rest.len() { j + 1 } else { rest.len() };
        let piece = vstd::slice::slice_subrange(rest, 0, end);
        proof {
            assert(piece@ =~= rest@.take(end as int));
            assert(rest@.skip(end as int) =~= s@.skip(i + end));
        }
        let ghost before = kept@;
        if !stats_line(piece) {
            push_chars(&mut kept, piece);
        }
        proof {
            assert(without_stats(rest@) =~= (if is_stats_line(piece@) { Seq::empty() } else { piece@ }) + without_stats(s@.skip(i + end)));
            assert(kept@ =~= before + (if is_stats_line(piece@) { Seq::<char>::empty() } else { piece@ }));
        }
        i = i + end;
    }
    proof { assert(s@.skip(i as int) =~= Seq::<char>::empty()); assert(kept@ =~= without_stats(s@)); }
    let k = prefix_within(kept.as_slice(), max);
    proof { lemma_chars_within_bound(kept@, max as nat); }
    let head = vstd::slice::slice_subrange(kept.as_slice(), 0, k);
    proof { assert(head@ =~= kept@.take(k as int)); }
    string_from(head)
}

/// The first line counted as an error before the first answer, as it
/// appears on stdout, cut to 512 bytes on a character boundary.
pub open spec fn first_error_in(ls: Seq<Seq<char>>) -> Option<Seq<char>>
    decreases ls.len(),
{
    if ls.len() == 0 {
        None
    } else {
        let t = trim(ls[0]);
        if answer_line(t) is Some {
            None
        } else if starts_with(t, "(error"@) {
            Some(ls[0].take(chars_within(ls[0], 512) as int))
        } else {
            first_error_in(ls.drop_first())
        }
    }
}

/// The first `(error …)` line before the first answer, kept verbatim up to
/// 512 bytes.
pub fn first_error_line(stdout: &str) -> (r: Option<String>)
    ensures
        crate::bench::results::opt_view(r) == first_error_in(lines(stdout@)),
{
    let text = chars_of(stdout);
    let ls = lines_of(text.as_slice());
    let ghost lv = ls@.map_values(|l: Vec<char>| l@);
    let mut i: usize = 0;
    proof { assert(lv.skip(0) =~= lv); }
    while i < ls.len()
        invariant
            0 <= i <= ls@.len(),
            lv == ls@.map_values(|l: Vec<char>| l@),
            lv == lines(stdout@),
            first_error_in(lv) == first_error_in(lv.skip(i as int)),
        decreases ls@.len() - i,
    {
        proof {
            assert(lv.skip(i as int)[0] == ls@[i as int]@);
            assert(lv.skip(i as int).drop_first() =~= lv.skip(i + 1));
        }
        let t = trim_chars(ls[i].as_slice());
        if answer_line_of(t.as_slice()).is_some() {
            return None;
        }
        if starts_with_str(t.as_slice(), "(error") {
            let line = ls[i].as_slice();
            let k = prefix_within(line, 512);
            proof { lemma_chars_within_bound(line@, 512); }
            let head = vstd::slice::slice_subrange(line, 0, k);
            proof { assert(head@ =~= line@.take(k as int)); }
            return Some(string_from(head));
        }
        i = i + 1;
    }
    proof { assert(lv.skip(i as int) =~= Seq::<Seq<char>>::empty()); }
    None
}

/// Which oracle to ask next.
pub enum OracleAsk {
    Z3,
    Cvc5,
}

/// The oracle to consult next, only while the classifier still needs one:
/// z3 first, then cvc5.
pub fn next_oracle(v: &Verdict, oracle: &Option<OracleAnswers>) -> (r: Option<OracleAsk>)
    ensures
        match r {
            Some(OracleAsk::Z3) => v@ is NeedsOracle && oracle is None,
            Some(OracleAsk::Cvc5) => v@ is NeedsOracle && (oracle matches Some(o) && o.cvc5 is None),
            None => !(v@ is NeedsOracle) || (oracle matches Some(o) && o.cvc5 is Some),
        },
{
    if !v.needs_oracle() {
        return None;
    }
    match oracle {
        None => Some(OracleAsk::Z3),
        Some(o) => if o.cvc5.is_none() { Some(OracleAsk::Cvc5) } else { None },
    }
}

/// The verdict of a run, given the oracle answers gathered so far.
pub fn observe(exec: &Exec, status: Option<Answer>, oracle: Option<&OracleAnswers>) -> (r: Verdict)
    ensures
        r@ == verdict_of_run(
            exec.rc,
            exec.killed_by_timeout,
            scan_answers(lines(exec.stdout@)).0,
            exec.stderr@,
            stats_fence(exec.stderr@),
            status,
            crate::bench::verdict::oracle_of(oracle),
            scan_answers(lines(exec.stdout@)).1,
        ),
{
    let (answers, stdout_errors) = parse_answers(exec.stdout.as_str());
    let fence = parse_stats_fence(exec.stderr.as_str());
    let f: Option<&str> = match &fence {
        Some(t) => Some(t.as_str()),
        None => None,
    };
    let o = Observed {
        rc: exec.rc,
        killed_by_timeout: exec.killed_by_timeout,
        answers: answers.as_slice(),
        stderr: exec.stderr.as_str(),
        fence: f,
        status,
        oracle,
        stdout_errors,
    };
    classify(&o)
}

/// A row for an instance that never reached the solver.
pub fn bare_row(inst: &Instance, verdict: Verdict) -> (r: Row)
    ensures
        r@ == (RowView {
            path: inst.rel_path@,
            logic: inst.logic@,
            bytes: inst.bytes,
            status: inst.status,
            rc: None,
            wall_ms: 0,
            answers: Seq::empty(),
            stdout_errors: 0,
            first_error: None,
            fence: None,
            stderr_head: Seq::empty(),
            verdict: verdict@,
            oracle: None,
        }),
{
    let r = Row {
        path: inst.rel_path.clone(),
        logic: inst.logic.clone(),
        bytes: inst.bytes,
        status: inst.status,
        rc: None,
        wall_ms: 0,
        answers: Vec::new(),
        stdout_errors: 0,
        first_error: None,
        fence: None,
        stderr_head: String::new(),
        verdict,
        oracle: None,
    };
    proof { assert(r@.answers =~= Seq::<Answer>::empty()); }
    r
}

/// The note put before the stderr of a run whose verdict never settled.
pub open spec fn unsettled_note() -> Seq<char> {
    "shinri-bench: classifier still needed an oracle after z3 and cvc5\n"@
}

/// The row of a run, once the oracles it needed have answered: what was
/// observed, and the verdict. A verdict that still needs an oracle after
/// both were asked is recorded as `unverified`, with a note before the
/// stderr, rather than dropped.
pub fn build_row(inst: &Instance, exec: &Exec, oracle: Option<OracleAnswers>, verdict: Verdict) -> (r: Row)
    ensures
        r@.path == inst.rel_path@,
        r@.logic == inst.logic@,
        r@.bytes == inst.bytes,
        r@.status == inst.status,
        r@.rc == exec.rc,
        r@.wall_ms == exec.wall_ms,
        r@.answers == scan_answers(lines(exec.stdout@)).0,
        r@.stdout_errors as nat == scan_answers(lines(exec.stdout@)).1,
        r@.first_error == first_error_in(lines(exec.stdout@)),
        r@.fence == stats_fence(exec.stderr@),
        r@.oracle == oracle,
        verdict@ is NeedsOracle ==> r@.verdict is Unverified
            && r@.stderr_head == stripped_stderr(unsettled_note() + exec.stderr@, STDERR_HEAD_BYTES as nat),
        !(verdict@ is NeedsOracle) ==> r@.verdict == verdict@
            && r@.stderr_head == stripped_stderr(exec.stderr@, STDERR_HEAD_BYTES as nat),
{
    let (answers, stdout_errors) = parse_answers(exec.stdout.as_str());
    let fence = parse_stats_fence(exec.stderr.as_str());
    let first_error = first_error_line(exec.stdout.as_str());
    let (verdict, stderr_head) = if verdict.needs_oracle() {
        let mut note = chars_of("shinri-bench: classifier still needed an oracle after z3 and cvc5\n");
        crate::text::push_str_chars(&mut note, exec.stderr.as_str());
        let joined = string_from(note.as_slice());
        (Verdict::Unverified, strip_stats(joined.as_str(), STDERR_HEAD_BYTES))
    } else {
        (verdict, strip_stats(exec.stderr.as_str(), STDERR_HEAD_BYTES))
    };
    Row {
        path: inst.rel_path.clone(),
        logic: inst.logic.clone(),
        bytes: inst.bytes,
        status: inst.status,
        rc: exec.rc,
        wall_ms: exec.wall_ms,
        answers,
        stdout_errors,
        first_error,
        fence,
        stderr_head,
        verdict,
        oracle,
    }
}

} // verus!
