//! The reference oracles, consulted on demand: which programs they are, how
//! they are invoked, and how their output is read. The last decided line on
//! stdout wins; anything else is `unknown`.
use vstd::prelude::*;
use crate::bench::process::Exec;
use crate::bench::runner::{answer_line, answer_line_of};
use crate::bench::verdict::Answer;
use crate::text::{chars_of, lines, lines_of, trim, trim_chars};

verus! {

/// The oracle programs to invoke, resolved on `PATH` by default.
pub struct Oracle {
    pub z3: String,
    pub cvc5: String,
}

impl Default for Oracle {
    fn default() -> (r: Oracle)
        ensures
            r.z3@ == "z3"@,
            r.cvc5@ == "cvc5"@,
    {
        Oracle { z3: "z3".to_owned(), cvc5: "cvc5".to_owned() }
    }
}

impl Oracle {
    /// The arguments cvc5 is run with on `file`: it needs `--lang smt2`
    /// for a file with no language hint.
    pub fn cvc5_args(&self, file: &str) -> (r: Vec<String>)
        ensures
            r@.len() == 3,
            r@[0]@ == "--lang"@,
            r@[1]@ == "smt2"@,
            r@[2]@ == file@,
    {
        let mut v: Vec<String> = Vec::new();
        v.push("--lang".to_owned());
        v.push("smt2".to_owned());
        v.push(file.to_owned());
        v
    }
}

/// The last decided answer (`sat` or `unsat`) among the lines `ls`.
pub open spec fn last_decided(ls: Seq<Seq<char>>) -> Option<Answer>
    decreases ls.len(),
{
    if ls.len() == 0 {
        None
    } else {
        match answer_line(trim(ls.last())) {
            Some(Answer::Sat) => Some(Answer::Sat),
            Some(Answer::Unsat) => Some(Answer::Unsat),
            _ => last_decided(ls.drop_last()),
        }
    }
}

/// What an oracle run answered: unknown when it could not run, timeout
/// when the budget killed it, else its last decided stdout line.
pub open spec fn oracle_answer(exec: Exec) -> Answer {
    if exec.spawn_error is Some {
        Answer::Unknown
    } else if exec.killed_by_timeout {
        Answer::Timeout
    } else {
        match last_decided(lines(exec.stdout@)) {
            Some(a) => a,
            None => Answer::Unknown,
        }
    }
}

/// Read an oracle's answer from its run.
pub fn answer_of(exec: &Exec) -> (r: Answer)
    ensures
        r == oracle_answer(*exec),
{
    if exec.spawn_error.is_some() {
        return Answer::Unknown;
    }
    if exec.killed_by_timeout {
        return Answer::Timeout;
    }
    let text = chars_of(exec.stdout.as_str());
    let ls = lines_of(text.as_slice());
    let ghost lv = ls@.map_values(|l: Vec<char>| l@);
    let mut i: usize = ls.len();
    proof { assert(lv.take(i as int) =~= lv); }
    while i > 0
        invariant
            0 <= i <= ls@.len(),
            lv == ls@.map_values(|l: Vec<char>| l@),
            lv == lines(exec.stdout@),
            exec.spawn_error is None,
            !exec.killed_by_timeout,
            last_decided(lv) == last_decided(lv.take(i as int)),
        decreases i,
    {
        let t = trim_chars(ls[i - 1].as_slice());
        proof {
            assert(lv.take(i as int).drop_last() =~= lv.take(i - 1));
            assert(lv.take(i as int).last() == ls@[i - 1]@);
        }
        match answer_line_of(t.as_slice()) {
            Some(Answer::Sat) => return Answer::Sat,
            Some(Answer::Unsat) => return Answer::Unsat,
            _ => {},
        }
        i = i - 1;
    }
    Answer::Unknown
}

/// Why an oracle is unavailable, when its run shows it: it could not be
/// spawned, or the limit wrapper reported 127 (not found or not
/// executable).
pub fn unavailable_reason(exec: &Exec) -> (r: Option<String>)
    ensures
        match r {
            Some(m) => match exec.spawn_error {
                Some(e) => m@ == e@,
                None => exec.rc == Some(127i32) && m@ == "exit 127 (not found or not executable)"@,
            },
            None => exec.spawn_error is None && exec.rc != Some(127i32),
        },
{
    match &exec.spawn_error {
        Some(e) => Some(e.clone()),
        None => if exec.rc == Some(127i32) {
            Some("exit 127 (not found or not executable)".to_owned())
        } else {
            None
        },
    }
}

} // verus!
