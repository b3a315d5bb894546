//! Verdict classification: an observed solver run (exit code, answers,
//! stderr, `:status`, oracle answers) becomes one `Verdict`, by a fixed
//! precedence of rules.
use vstd::prelude::*;
use crate::text::{chars_of, contains, contains_str, decimal, eq_str, push_chars, push_str_chars, starts_with, starts_with_str, string_from, u64_decimal};

verus! {

/// A decided or undecided SMT-LIB answer.
#[derive(Clone, Copy, Debug, PartialEq, Eq, Structural)]
pub enum Answer {
    Sat,
    Unsat,
    Unknown,
    Timeout,
}

impl Answer {
    /// The answer's SMT-LIB spelling.
    pub open spec fn name(self) -> Seq<char> {
        match self {
            Answer::Sat => "sat"@,
            Answer::Unsat => "unsat"@,
            Answer::Unknown => "unknown"@,
            Answer::Timeout => "timeout"@,
        }
    }

    /// The answer spelled `s`, if any.
    pub fn parse(s: &str) -> (r: Option<Answer>)
        ensures
            r == answer_named(s@),
    {
        let v = chars_of(s);
        if eq_str(v.as_slice(), "sat") {
            Some(Answer::Sat)
        } else if eq_str(v.as_slice(), "unsat") {
            Some(Answer::Unsat)
        } else if eq_str(v.as_slice(), "unknown") {
            Some(Answer::Unknown)
        } else if eq_str(v.as_slice(), "timeout") {
            Some(Answer::Timeout)
        } else {
            None
        }
    }

    /// The answer's spelling.
    pub fn as_str(self) -> (r: &'static str)
        ensures
            r@ == self.name(),
    {
        match self {
            Answer::Sat => "sat",
            Answer::Unsat => "unsat",
            Answer::Unknown => "unknown",
            Answer::Timeout => "timeout",
        }
    }
}

/// The answer whose spelling is `s`.
pub open spec fn answer_named(s: Seq<char>) -> Option<Answer> {
    if s == "sat"@ {
        Some(Answer::Sat)
    } else if s == "unsat"@ {
        Some(Answer::Unsat)
    } else if s == "unknown"@ {
        Some(Answer::Unknown)
    } else if s == "timeout"@ {
        Some(Answer::Timeout)
    } else {
        None
    }
}

/// Parsing an answer's spelling gives the answer back.
pub proof fn lemma_answer_name_round_trip(a: Answer)
    ensures
        answer_named(a.name()) == Some(a),
{
    reveal_strlit("sat");
    reveal_strlit("unsat");
    reveal_strlit("unknown");
    reveal_strlit("timeout");
    assert("sat"@.len() != "unsat"@.len());
    assert("unknown"@[0] != "sat"@[0]);
    assert("unknown"@[0] != "timeout"@[0]);
    assert("timeout"@[0] != "sat"@[0]);
    assert("unknown"@.len() != "unsat"@.len());
    assert("timeout"@.len() != "unsat"@.len());
}

/// The two reference-oracle answers, when the runner consulted them.
#[derive(Clone, Copy, Debug, PartialEq, Eq, Structural)]
pub struct OracleAnswers {
    pub z3: Option<Answer>,
    pub cvc5: Option<Answer>,
}

impl Default for OracleAnswers {
    fn default() -> (r: OracleAnswers)
        ensures
            r.z3 is None && r.cvc5 is None,
    {
        OracleAnswers { z3: None, cvc5: None }
    }
}

/// The classification of one benchmark run.
#[derive(Clone, Debug, PartialEq, Eq)]
pub enum Verdict {
    Correct,
    Wrong,
    StatusSuspect,
    ParseError,
    Panic,
    Oom,
    Timeout,
    Unknown(String),
    Unverified,
    Malformed(String),
    /// Not final: the runner must consult the oracle and classify again.
    NeedsOracle,
}

/// A verdict, with its texts as character sequences.
pub enum VerdictView {
    Correct,
    Wrong,
    StatusSuspect,
    ParseError,
    Panic,
    Oom,
    Timeout,
    Unknown(Seq<char>),
    Unverified,
    Malformed(Seq<char>),
    NeedsOracle,
}

impl View for Verdict {
    type V = VerdictView;

    open spec fn view(&self) -> VerdictView {
        match self {
            Verdict::Correct => VerdictView::Correct,
            Verdict::Wrong => VerdictView::Wrong,
            Verdict::StatusSuspect => VerdictView::StatusSuspect,
            Verdict::ParseError => VerdictView::ParseError,
            Verdict::Panic => VerdictView::Panic,
            Verdict::Oom => VerdictView::Oom,
            Verdict::Timeout => VerdictView::Timeout,
            Verdict::Unknown(t) => VerdictView::Unknown(t@),
            Verdict::Unverified => VerdictView::Unverified,
            Verdict::Malformed(r) => VerdictView::Malformed(r@),
            Verdict::NeedsOracle => VerdictView::NeedsOracle,
        }
    }
}

impl VerdictView {
    /// The verdict's key in a results file.
    pub open spec fn key(self) -> Seq<char> {
        match self {
            VerdictView::Correct => "correct"@,
            VerdictView::Wrong => "wrong"@,
            VerdictView::StatusSuspect => "status-suspect"@,
            VerdictView::ParseError => "parse-error"@,
            VerdictView::Panic => "panic"@,
            VerdictView::Oom => "oom"@,
            VerdictView::Timeout => "timeout"@,
            VerdictView::Unknown(t) => "unknown:"@ + t,
            VerdictView::Unverified => "unverified"@,
            VerdictView::Malformed(r) => "malformed:"@ + r,
            VerdictView::NeedsOracle => "needs-oracle"@,
        }
    }
}

/// The verdict a key names; a key that names none is a malformed verdict
/// that records it.
pub open spec fn verdict_of_key(k: Seq<char>) -> VerdictView {
    if starts_with(k, "unknown:"@) {
        VerdictView::Unknown(k.skip(8))
    } else if starts_with(k, "malformed:"@) {
        VerdictView::Malformed(k.skip(10))
    } else if k == "correct"@ {
        VerdictView::Correct
    } else if k == "wrong"@ {
        VerdictView::Wrong
    } else if k == "status-suspect"@ {
        VerdictView::StatusSuspect
    } else if k == "parse-error"@ {
        VerdictView::ParseError
    } else if k == "panic"@ {
        VerdictView::Panic
    } else if k == "oom"@ {
        VerdictView::Oom
    } else if k == "timeout"@ {
        VerdictView::Timeout
    } else if k == "unverified"@ {
        VerdictView::Unverified
    } else if k == "needs-oracle"@ {
        VerdictView::NeedsOracle
    } else {
        VerdictView::Malformed("unrecognized-key:"@ + k)
    }
}

/// A verdict's key parses to that verdict, so keys identify verdicts.
pub proof fn lemma_verdict_key_round_trip(v: VerdictView)
    ensures
        verdict_of_key(v.key()) == v,
{
    reveal_strlit("unknown:");
    reveal_strlit("malformed:");
    reveal_strlit("correct");
    reveal_strlit("wrong");
    reveal_strlit("status-suspect");
    reveal_strlit("parse-error");
    reveal_strlit("panic");
    reveal_strlit("oom");
    reveal_strlit("timeout");
    reveal_strlit("unverified");
    reveal_strlit("needs-oracle");
    let k = v.key();
    match v {
        VerdictView::Unknown(t) => {
            assert(k.take(8) =~= "unknown:"@);
            assert(k.skip(8) =~= t);
        },
        VerdictView::Malformed(r) => {
            assert(k.take(8)[0] != "unknown:"@[0]);
            assert(k.take(10) =~= "malformed:"@);
            assert(k.skip(10) =~= r);
        },
        _ => {
            assert(k.len() < 8 || k.take(8)[0] != "unknown:"@[0] || k.take(8)[2] != "unknown:"@[2]);
            assert(k.len() < 10 || k.take(10)[0] != "malformed:"@[0]);
            assert("correct"@[0] != "wrong"@[0] && "correct"@[0] != "status-suspect"@[0]);
            assert("correct"@[0] != "parse-error"@[0] && "correct"@[0] != "panic"@[0]);
            assert("correct"@[0] != "oom"@[0] && "correct"@[0] != "timeout"@[0]);
            assert("correct"@[0] != "unverified"@[0] && "correct"@[0] != "needs-oracle"@[0]);
            assert("wrong"@[0] != "status-suspect"@[0] && "wrong"@[0] != "parse-error"@[0]);
            assert("wrong"@[0] != "panic"@[0] && "wrong"@[0] != "oom"@[0]);
            assert("wrong"@[0] != "timeout"@[0] && "wrong"@[0] != "unverified"@[0]);
            assert("wrong"@[0] != "needs-oracle"@[0]);
            assert("status-suspect"@[0] != "parse-error"@[0] && "status-suspect"@[0] != "panic"@[0]);
            assert("status-suspect"@[0] != "oom"@[0] && "status-suspect"@[0] != "timeout"@[0]);
            assert("status-suspect"@[0] != "unverified"@[0] && "status-suspect"@[0] != "needs-oracle"@[0]);
            assert("parse-error"@.len() != "panic"@.len() && "parse-error"@[0] != "oom"@[0]);
            assert("parse-error"@[0] != "timeout"@[0] && "parse-error"@[0] != "unverified"@[0]);
            assert("parse-error"@[0] != "needs-oracle"@[0] && "panic"@[0] != "oom"@[0]);
            assert("panic"@[0] != "timeout"@[0] && "panic"@[0] != "unverified"@[0]);
            assert("panic"@[0] != "needs-oracle"@[0] && "oom"@[0] != "timeout"@[0]);
            assert("oom"@[0] != "unverified"@[0] && "oom"@[0] != "needs-oracle"@[0]);
            assert("timeout"@[0] != "unverified"@[0] && "timeout"@[0] != "needs-oracle"@[0]);
            assert("unverified"@[0] != "needs-oracle"@[0]);
        },
    }
}

impl Verdict {
    /// The verdict's key in a results file.
    pub fn key(&self) -> (r: String)
        ensures
            r@ == self@.key(),
    {
        match self {
            Verdict::Correct => "correct".to_owned(),
            Verdict::Wrong => "wrong".to_owned(),
            Verdict::StatusSuspect => "status-suspect".to_owned(),
            Verdict::ParseError => "parse-error".to_owned(),
            Verdict::Panic => "panic".to_owned(),
            Verdict::Oom => "oom".to_owned(),
            Verdict::Timeout => "timeout".to_owned(),
            Verdict::Unknown(tag) => {
                let mut v: Vec<char> = Vec::new();
                push_str_chars(&mut v, "unknown:");
                push_str_chars(&mut v, tag.as_str());
                string_from(v.as_slice())
            },
            Verdict::Unverified => "unverified".to_owned(),
            Verdict::Malformed(reason) => {
                let mut v: Vec<char> = Vec::new();
                push_str_chars(&mut v, "malformed:");
                push_str_chars(&mut v, reason.as_str());
                string_from(v.as_slice())
            },
            Verdict::NeedsOracle => "needs-oracle".to_owned(),
        }
    }

    /// The verdict a key names.
    pub fn parse(key: &str) -> (r: Verdict)
        ensures
            r@ == verdict_of_key(key@),
    {
        let k = chars_of(key);
        proof {
            reveal_strlit("unknown:");
            reveal_strlit("malformed:");
        }
        if starts_with_str(k.as_slice(), "unknown:") {
            let rest = vstd::slice::slice_subrange(k.as_slice(), 8, k.len());
            return Verdict::Unknown(string_from(rest));
        }
        if starts_with_str(k.as_slice(), "malformed:") {
            let rest = vstd::slice::slice_subrange(k.as_slice(), 10, k.len());
            return Verdict::Malformed(string_from(rest));
        }
        let ks = k.as_slice();
        if eq_str(ks, "correct") {
            Verdict::Correct
        } else if eq_str(ks, "wrong") {
            Verdict::Wrong
        } else if eq_str(ks, "status-suspect") {
            Verdict::StatusSuspect
        } else if eq_str(ks, "parse-error") {
            Verdict::ParseError
        } else if eq_str(ks, "panic") {
            Verdict::Panic
        } else if eq_str(ks, "oom") {
            Verdict::Oom
        } else if eq_str(ks, "timeout") {
            Verdict::Timeout
        } else if eq_str(ks, "unverified") {
            Verdict::Unverified
        } else if eq_str(ks, "needs-oracle") {
            Verdict::NeedsOracle
        } else {
            let mut v: Vec<char> = Vec::new();
            push_str_chars(&mut v, "unrecognized-key:");
            push_chars(&mut v, ks);
            Verdict::Malformed(string_from(v.as_slice()))
        }
    }

    /// Whether this is the non-final `NeedsOracle`.
    pub fn needs_oracle(&self) -> (b: bool)
        ensures
            b == (self@ is NeedsOracle),
    {
        matches!(self, Verdict::NeedsOracle)
    }
}

/// What the runner observed about one solver invocation.
pub struct Observed<'a> {
    pub rc: Option<i32>,
    /// Set when the wall-clock limit killed the run.
    pub killed_by_timeout: bool,
    /// The stdout `sat`/`unsat`/`unknown` lines, in order.
    pub answers: &'a [Answer],
    pub stderr: &'a str,
    pub fence: Option<&'a str>,
    /// `:status`; `None` when absent.
    pub status: Option<Answer>,
    pub oracle: Option<&'a OracleAnswers>,
    /// Count of `(error` lines on stdout seen before the first answer.
    pub stdout_errors: usize,
}

/// A decided answer without a usable `:status`: the z3 oracle decides.
pub open spec fn decided_without_status(a: Answer, oracle: Option<OracleAnswers>) -> VerdictView {
    match oracle {
        None => VerdictView::NeedsOracle,
        Some(o) => match o.z3 {
            None => VerdictView::NeedsOracle,
            Some(z) => if z == a {
                VerdictView::Correct
            } else if z == Answer::Unknown || z == Answer::Timeout {
                VerdictView::Unverified
            } else {
                VerdictView::Wrong
            },
        },
    }
}

/// A decided answer that contradicts `:status`: wrong unless both oracles
/// side with the solver, in which case the status is suspect.
pub open spec fn decided_against_status(a: Answer, oracle: Option<OracleAnswers>) -> VerdictView {
    match oracle {
        None => VerdictView::NeedsOracle,
        Some(o) => match o.z3 {
            None => VerdictView::NeedsOracle,
            Some(z) => if z == Answer::Unknown || z == Answer::Timeout || z != a {
                VerdictView::Wrong
            } else {
                match o.cvc5 {
                    None => VerdictView::NeedsOracle,
                    Some(c) => if c == a { VerdictView::StatusSuspect } else { VerdictView::Wrong },
                }
            },
        },
    }
}

/// The oracle answers an observation carries, by value.
pub open spec fn oracle_of(o: Option<&OracleAnswers>) -> Option<OracleAnswers> {
    match o {
        Some(a) => Some(*a),
        None => None,
    }
}

/// The verdict of a run, by the first rule that applies: timeout, panic,
/// out of memory, parse error, a count of answers other than one, an
/// `unknown` answer (keyed on the fence), and last the decided answer
/// against `:status` and the oracles.
pub open spec fn verdict_of_run(
    rc: Option<i32>,
    killed_by_timeout: bool,
    answers: Seq<Answer>,
    stderr: Seq<char>,
    fence: Option<Seq<char>>,
    status: Option<Answer>,
    oracle: Option<OracleAnswers>,
    stdout_errors: nat,
) -> VerdictView {
    if killed_by_timeout {
        VerdictView::Timeout
    } else if rc == Some(101i32) || contains(stderr, "panicked at"@) {
        VerdictView::Panic
    } else if (contains(stderr, "memory allocation of"@) && contains(stderr, "failed"@))
        || rc == Some(134i32) || rc is None {
        VerdictView::Oom
    } else if (stdout_errors > 0 && answers.len() == 0) || rc == Some(2i32) {
        VerdictView::ParseError
    } else if answers.len() != 1 {
        VerdictView::Malformed("answers="@ + decimal(answers.len()))
    } else if answers[0] == Answer::Unknown {
        VerdictView::Unknown(
            match fence {
                Some(f) => f,
                None => "-"@,
            },
        )
    } else {
        match status {
            None => decided_without_status(answers[0], oracle),
            Some(s) => if s == Answer::Unknown {
                decided_without_status(answers[0], oracle)
            } else if s == answers[0] {
                VerdictView::Correct
            } else {
                decided_against_status(answers[0], oracle)
            },
        }
    }
}

/// The fence an observation carries, as text.
pub open spec fn fence_of(f: Option<&str>) -> Option<Seq<char>> {
    match f {
        Some(t) => Some(t@),
        None => None,
    }
}

/// The verdict of an observed run.
pub open spec fn classify_spec(o: Observed) -> VerdictView {
    verdict_of_run(o.rc, o.killed_by_timeout, o.answers@, o.stderr@, fence_of(o.fence), o.status, oracle_of(o.oracle), o.stdout_errors as nat)
}

fn classify_decided_no_status(a: Answer, oracle: Option<&OracleAnswers>) -> (r: Verdict)
    ensures
        r@ == decided_without_status(a, oracle_of(oracle)),
{
    let oracle = match oracle {
        Some(o) => o,
        None => return Verdict::NeedsOracle,
    };
    match oracle.z3 {
        Some(z) => if z == a {
            Verdict::Correct
        } else if z == Answer::Unknown || z == Answer::Timeout {
            Verdict::Unverified
        } else {
            Verdict::Wrong
        },
        None => Verdict::NeedsOracle,
    }
}

fn classify_decided_status_contradiction(a: Answer, oracle: Option<&OracleAnswers>) -> (r: Verdict)
    ensures
        r@ == decided_against_status(a, oracle_of(oracle)),
{
    let oracle = match oracle {
        Some(o) => o,
        None => return Verdict::NeedsOracle,
    };
    match oracle.z3 {
        None => Verdict::NeedsOracle,
        Some(z) => if z == Answer::Unknown || z == Answer::Timeout || z != a {
            Verdict::Wrong
        } else {
            match oracle.cvc5 {
                None => Verdict::NeedsOracle,
                Some(c) => if c == a { Verdict::StatusSuspect } else { Verdict::Wrong },
            }
        },
    }
}

/// Classify one observed run.
pub fn classify(o: &Observed) -> (r: Verdict)
    ensures
        r@ == classify_spec(*o),
{
    if o.killed_by_timeout {
        return Verdict::Timeout;
    }
    let err = chars_of(o.stderr);
    if o.rc == Some(101i32) || contains_str(err.as_slice(), "panicked at") {
        return Verdict::Panic;
    }
    if (contains_str(err.as_slice(), "memory allocation of") && contains_str(err.as_slice(), "failed"))
        || o.rc == Some(134i32) || o.rc.is_none() {
        return Verdict::Oom;
    }
    if (o.stdout_errors > 0 && o.answers.len() == 0) || o.rc == Some(2i32) {
        return Verdict::ParseError;
    }
    if o.answers.len() != 1 {
        let mut v: Vec<char> = Vec::new();
        push_str_chars(&mut v, "answers=");
        let n = u64_decimal(o.answers.len() as u64);
        push_chars(&mut v, n.as_slice());
        return Verdict::Malformed(string_from(v.as_slice()));
    }
    let a = o.answers[0];
    if a == Answer::Unknown {
        let tag = match o.fence {
            Some(f) => f.to_owned(),
            None => "-".to_owned(),
        };
        return Verdict::Unknown(tag);
    }
    match o.status {
        None => classify_decided_no_status(a, o.oracle),
        Some(s) => if s == Answer::Unknown {
            classify_decided_no_status(a, o.oracle)
        } else if s == a {
            Verdict::Correct
        } else {
            classify_decided_status_contradiction(a, o.oracle)
        },
    }
}

/// Classification settles once both oracles have answered: with a z3 and
/// a cvc5 answer at hand, no run needs the oracle again.
pub proof fn lemma_classify_settles_with_both_oracles(o: Observed)
    requires
        o.oracle matches Some(x) && x.z3 is Some && x.cvc5 is Some,
    ensures
        !(classify_spec(o) is NeedsOracle),
{
}

/// Without a usable `:status` only z3 is asked: a z3 answer settles it.
pub proof fn lemma_classify_without_status_needs_only_z3(o: Observed)
    requires
        o.oracle matches Some(x) && x.z3 is Some,
        o.status is None || o.status == Some(Answer::Unknown),
    ensures
        !(classify_spec(o) is NeedsOracle),
{
}


/// A run that ended normally with the one decided answer `a`: not killed,
/// an exit code other than those of a panic (101), an abort (134) or a
/// usage error (2), and no panic or allocation-failure message on stderr.
pub open spec fn ended_with(o: Observed, a: Answer) -> bool {
    &&& !o.killed_by_timeout
    &&& (o.rc matches Some(c) && c != 101i32 && c != 134i32 && c != 2i32)
    &&& !contains(o.stderr@, "panicked at"@)
    &&& !contains(o.stderr@, "memory allocation of"@)
    &&& o.answers@ == seq![a]
    &&& (a == Answer::Sat || a == Answer::Unsat)
}

/// A run the wall clock killed is a timeout, whatever else it shows.
pub proof fn lemma_classify_killed_is_timeout(o: Observed)
    requires
        o.killed_by_timeout,
    ensures
        classify_spec(o) == VerdictView::Timeout,
{
}

/// How a decided answer `a` is judged. A `:status` equal to `a` makes it
/// correct. Without a usable `:status` (none, or `unknown`), z3 decides:
/// z3 giving `a` makes it correct, z3 giving the other decided answer
/// makes it wrong, an undecided z3 leaves it unverified, and no z3 answer
/// yet means the oracle is needed. Against a decided `:status` the answer
/// is wrong unless z3 and cvc5 both give `a`, which makes the status
/// suspect.
pub proof fn lemma_classify_judges_decided_answers(o: Observed, a: Answer)
    requires
        ended_with(o, a),
    ensures
        o.status == Some(a) ==> classify_spec(o) == VerdictView::Correct,
        (o.status is None || o.status == Some(Answer::Unknown)) ==> {
            &&& (o.oracle matches Some(x) && x.z3 == Some(a)) ==> classify_spec(o) == VerdictView::Correct
            &&& (o.oracle matches Some(x) && (x.z3 == Some(Answer::Sat) || x.z3 == Some(Answer::Unsat))
                && x.z3 != Some(a)) ==> classify_spec(o) == VerdictView::Wrong
            &&& (o.oracle matches Some(x) && (x.z3 == Some(Answer::Unknown) || x.z3 == Some(Answer::Timeout)))
                ==> classify_spec(o) == VerdictView::Unverified
            &&& (o.oracle is None || (o.oracle matches Some(x) && x.z3 is None))
                ==> classify_spec(o) == VerdictView::NeedsOracle
        },
        (o.status matches Some(s) && (s == Answer::Sat || s == Answer::Unsat) && s != a) ==> {
            &&& (o.oracle matches Some(x) && x.z3 is Some && x.z3 != Some(a))
                ==> classify_spec(o) == VerdictView::Wrong
            &&& (o.oracle matches Some(x) && x.z3 == Some(a) && x.cvc5 == Some(a))
                ==> classify_spec(o) == VerdictView::StatusSuspect
            &&& (o.oracle matches Some(x) && x.z3 == Some(a) && x.cvc5 is Some && x.cvc5 != Some(a))
                ==> classify_spec(o) == VerdictView::Wrong
        },
{
    assert(o.answers@.len() == 1 && o.answers@[0] == a);
}


/// The rules before the answer is judged, in order: a panic exit (101) or
/// panic message is a panic; then an abort (134), no exit code at all, or
/// an allocation failure is out of memory; then exit code 2, or `(error`
/// lines with no answer, is a parse error; then anything but exactly one
/// answer is malformed, naming the count; one `unknown` answer is unknown,
/// tagged with the fence or `-`.
pub proof fn lemma_classify_failed_runs(o: Observed)
    requires
        !o.killed_by_timeout,
    ensures
        (o.rc == Some(101i32) || contains(o.stderr@, "panicked at"@)) ==> classify_spec(o) == VerdictView::Panic,
        !(o.rc == Some(101i32) || contains(o.stderr@, "panicked at"@))
            && (o.rc == Some(134i32) || o.rc is None
                || (contains(o.stderr@, "memory allocation of"@) && contains(o.stderr@, "failed"@)))
            ==> classify_spec(o) == VerdictView::Oom,
        (o.rc matches Some(c) && c != 101i32 && c != 134i32) && !contains(o.stderr@, "panicked at"@)
            && !contains(o.stderr@, "memory allocation of"@)
            && (o.rc == Some(2i32) || (o.stdout_errors > 0 && o.answers@.len() == 0))
            ==> classify_spec(o) == VerdictView::ParseError,
        (o.rc matches Some(c) && c != 101i32 && c != 134i32 && c != 2i32) && !contains(o.stderr@, "panicked at"@)
            && !contains(o.stderr@, "memory allocation of"@) && o.answers@.len() >= 1 && o.answers@.len() != 1
            ==> classify_spec(o) == VerdictView::Malformed("answers="@ + decimal(o.answers@.len())),
        (o.rc matches Some(c) && c != 101i32 && c != 134i32 && c != 2i32) && !contains(o.stderr@, "panicked at"@)
            && !contains(o.stderr@, "memory allocation of"@) && o.answers@ == seq![Answer::Unknown]
            ==> classify_spec(o) == VerdictView::Unknown(match o.fence { Some(f) => f@, None => "-"@ }),
{
}

} // verus!
