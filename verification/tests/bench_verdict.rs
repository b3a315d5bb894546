use shinri::bench::verdict::{classify, Answer, Observed, OracleAnswers, Verdict};
use shinri::bench::verdict::Answer::{Sat, Timeout, Unknown, Unsat};

fn obs<'a>(
    rc: Option<i32>,
    answers: &'a [Answer],
    stderr: &'a str,
    status: Option<Answer>,
) -> Observed<'a> {
    Observed {
        rc,
        killed_by_timeout: false,
        answers,
        stderr,
        fence: None,
        status,
        oracle: None,
        stdout_errors: 0,
    }
}

#[test]
fn correct_matches_status() {
    assert_eq!(
        classify(&obs(Some(0), &[Unsat], "", Some(Unsat))),
        Verdict::Correct
    );
}

#[test]
fn decided_without_status_needs_oracle() {
    assert_eq!(
        classify(&obs(Some(0), &[Sat], "", None)),
        Verdict::NeedsOracle
    );
    assert_eq!(
        classify(&obs(Some(0), &[Sat], "", Some(Unknown))),
        Verdict::NeedsOracle
    );
}

#[test]
fn oracle_agreement_is_correct() {
    let o = OracleAnswers {
        z3: Some(Sat),
        cvc5: None,
    };
    let mut ob = obs(Some(0), &[Sat], "", None);
    ob.oracle = Some(&o);
    assert_eq!(classify(&ob), Verdict::Correct);
}

#[test]
fn oracle_disagreement_without_status_is_wrong() {
    let o = OracleAnswers {
        z3: Some(Unsat),
        cvc5: None,
    };
    let mut ob = obs(Some(0), &[Sat], "", None);
    ob.oracle = Some(&o);
    assert_eq!(classify(&ob), Verdict::Wrong);
}

#[test]
fn oracle_unknown_or_timeout_is_unverified() {
    for z in [Unknown, Timeout] {
        let o = OracleAnswers {
            z3: Some(z),
            cvc5: Some(Timeout),
        };
        let mut ob = obs(Some(0), &[Sat], "", None);
        ob.oracle = Some(&o);
        assert_eq!(classify(&ob), Verdict::Unverified);
    }
}

#[test]
fn contradicting_status_needs_oracle_first() {
    assert_eq!(
        classify(&obs(Some(0), &[Sat], "", Some(Unsat))),
        Verdict::NeedsOracle
    );
}

#[test]
fn contradicting_status_with_oracle_on_status_side_is_wrong() {
    let o = OracleAnswers {
        z3: Some(Unsat),
        cvc5: None,
    };
    let mut ob = obs(Some(0), &[Sat], "", Some(Unsat));
    ob.oracle = Some(&o);
    assert_eq!(classify(&ob), Verdict::Wrong);
}

#[test]
fn contradicting_status_z3_agrees_needs_cvc5() {
    let o = OracleAnswers {
        z3: Some(Sat),
        cvc5: None,
    };
    let mut ob = obs(Some(0), &[Sat], "", Some(Unsat));
    ob.oracle = Some(&o);
    assert_eq!(classify(&ob), Verdict::NeedsOracle);
}

#[test]
fn both_oracles_agree_with_shinri_is_status_suspect() {
    let o = OracleAnswers {
        z3: Some(Sat),
        cvc5: Some(Sat),
    };
    let mut ob = obs(Some(0), &[Sat], "", Some(Unsat));
    ob.oracle = Some(&o);
    assert_eq!(classify(&ob), Verdict::StatusSuspect);
}

#[test]
fn cvc5_sides_with_status_is_wrong() {
    let o = OracleAnswers {
        z3: Some(Sat),
        cvc5: Some(Unsat),
    };
    let mut ob = obs(Some(0), &[Sat], "", Some(Unsat));
    ob.oracle = Some(&o);
    assert_eq!(classify(&ob), Verdict::Wrong);
}

#[test]
fn oracle_timeout_on_contradiction_is_still_wrong() {
    // :status is an independent claim; an oracle that cannot decide does
    // not rescue a contradiction of it.
    let o = OracleAnswers {
        z3: Some(Timeout),
        cvc5: Some(Unknown),
    };
    let mut ob = obs(Some(0), &[Sat], "", Some(Unsat));
    ob.oracle = Some(&o);
    assert_eq!(classify(&ob), Verdict::Wrong);
}

#[test]
fn unknown_answer_keys_on_fence() {
    let mut ob = obs(Some(0), &[Unknown], "", Some(Sat));
    ob.fence = Some("str-order");
    assert_eq!(classify(&ob), Verdict::Unknown("str-order".into()));
    let ob2 = obs(Some(0), &[Unknown], "", Some(Sat));
    assert_eq!(classify(&ob2), Verdict::Unknown("-".into()));
}

#[test]
fn error_before_answer_is_parse_error() {
    let mut ob = obs(Some(0), &[], "", None);
    ob.stdout_errors = 1;
    assert_eq!(classify(&ob), Verdict::ParseError);
}

#[test]
fn panic_is_panic() {
    assert_eq!(
        classify(&obs(
            Some(101),
            &[],
            "thread 'main' panicked at ...",
            Some(Sat)
        )),
        Verdict::Panic
    );
}

#[test]
fn allocation_failure_is_oom() {
    assert_eq!(
        classify(&obs(
            Some(134),
            &[],
            "memory allocation of 4294967296 bytes failed",
            None
        )),
        Verdict::Oom
    );
    assert_eq!(classify(&obs(None, &[], "", None)), Verdict::Oom); // SIGKILL before the limit
}

#[test]
fn timeout_is_timeout() {
    let mut ob = obs(Some(124), &[], "", Some(Sat));
    ob.killed_by_timeout = true;
    assert_eq!(classify(&ob), Verdict::Timeout);
    let mut ob2 = obs(None, &[], "", None);
    ob2.killed_by_timeout = true;
    assert_eq!(classify(&ob2), Verdict::Timeout);
}

#[test]
fn two_answers_is_malformed() {
    assert!(matches!(
        classify(&obs(Some(0), &[Sat, Sat], "", Some(Sat))),
        Verdict::Malformed(_)
    ));
}

#[test]
fn no_answer_clean_exit_is_malformed() {
    assert!(matches!(
        classify(&obs(Some(0), &[], "", Some(Sat))),
        Verdict::Malformed(_)
    ));
}

#[test]
fn keys_round_trip() {
    for v in [
        Verdict::Correct,
        Verdict::Wrong,
        Verdict::StatusSuspect,
        Verdict::ParseError,
        Verdict::Panic,
        Verdict::Oom,
        Verdict::Timeout,
        Verdict::Unknown("x-y".into()),
        Verdict::Unverified,
        Verdict::Malformed("spawn".into()),
        Verdict::NeedsOracle,
    ] {
        assert_eq!(Verdict::parse(&v.key()), v);
    }
}

#[test]
fn malformed_answer_count_names_the_count() {
    assert_eq!(
        classify(&obs(Some(0), &[Sat, Unsat, Sat], "", None)),
        Verdict::Malformed("answers=3".into())
    );
}

#[test]
fn unrecognised_key_is_kept_in_a_malformed_verdict() {
    assert_eq!(
        Verdict::parse("bogus"),
        Verdict::Malformed("unrecognized-key:bogus".into())
    );
    assert_eq!(Verdict::Unknown("f".into()).key(), "unknown:f");
    assert_eq!(Verdict::Malformed("m".into()).key(), "malformed:m");
}

#[test]
fn answers_round_trip_through_their_spelling() {
    for a in [Sat, Unsat, Unknown, Timeout] {
        assert_eq!(Answer::parse(a.as_str()), Some(a));
    }
    assert_eq!(Answer::parse("SAT"), None);
    assert_eq!(Answer::parse(""), None);
}

#[test]
fn both_oracles_settle_every_contradiction() {
    for z in [Sat, Unsat, Unknown, Timeout] {
        for c in [Sat, Unsat, Unknown, Timeout] {
            let o = OracleAnswers { z3: Some(z), cvc5: Some(c) };
            let mut ob = obs(Some(0), &[Sat], "", Some(Unsat));
            ob.oracle = Some(&o);
            assert_ne!(classify(&ob), Verdict::NeedsOracle);
        }
    }
}

#[test]
fn parse_exit_status_is_parse_error() {
    assert_eq!(classify(&obs(Some(2), &[Sat], "", Some(Sat))), Verdict::ParseError);
}
