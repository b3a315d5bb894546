use shinri::bench::instance::Instance;
use shinri::bench::process::Exec;
use shinri::bench::runner::{bare_row, build_row, first_error_line, next_oracle, parse_answers, parse_stats_fence, strip_stats, OracleAsk};
use shinri::bench::verdict::{Answer, OracleAnswers, Verdict};

#[test]
fn answers_and_error_count() {
    assert_eq!(
        parse_answers("success\n(error \"x\")\nunsat\n"),
        (vec![Answer::Unsat], 1)
    );
    assert_eq!(
        parse_answers("sat\n(error \"after\")\n"),
        (vec![Answer::Sat], 0)
    );
    assert_eq!(parse_answers("(define-fun x () Int 3)\n"), (vec![], 0));
}

#[test]
fn fence_from_last_stats_line() {
    assert_eq!(
        parse_stats_fence("stats: cmd=check-sat wall_ms=3 outcome=unknown fence=str-order\n"),
        Some("str-order".into())
    );
    assert_eq!(
        parse_stats_fence("stats: cmd=check-sat wall_ms=3 outcome=sat fence=-\n"),
        None
    );
    assert_eq!(parse_stats_fence("junk\n"), None);
}

#[test]
fn stderr_head_drops_stats_and_truncates_on_char_boundary() {
    let s = "stats: cmd=check-sat wall_ms=1 outcome=sat fence=-\nerr é line\n";
    assert_eq!(strip_stats(s, 100), "err é line\n");
    assert_eq!(strip_stats(s, 5), "err ");
    assert_eq!(strip_stats(s, 6), "err \u{e9}");
}

#[test]
fn the_last_stats_line_wins() {
    let s = "stats: fence=a\nnoise\n  stats: x=1 fence=b\n";
    assert_eq!(parse_stats_fence(s), Some("b".into()));
    assert_eq!(parse_stats_fence("stats: x=1\n"), None);
}

#[test]
fn first_error_is_kept_verbatim() {
    assert_eq!(first_error_line("success\n (error \"a\") \nsat\n").as_deref(), Some(" (error \"a\") "));
    assert_eq!(first_error_line("sat\n(error \"b\")\n"), None);
    let long = format!("(error \"{}\")", "é".repeat(400));
    assert_eq!(first_error_line(&long).unwrap().len(), 512);
}

fn inst() -> Instance {
    Instance {
        rel_path: "QF_T/a.smt2".into(),
        abs_path: std::path::PathBuf::from("/c/QF_T/a.smt2"),
        logic: "QF_T".into(),
        bytes: 9,
        status: Some(Answer::Sat),
    }
}

#[test]
fn oracles_are_asked_lazily_z3_first() {
    assert!(matches!(next_oracle(&Verdict::NeedsOracle, &None), Some(OracleAsk::Z3)));
    let z = Some(OracleAnswers { z3: Some(Answer::Sat), cvc5: None });
    assert!(matches!(next_oracle(&Verdict::NeedsOracle, &z), Some(OracleAsk::Cvc5)));
    let both = Some(OracleAnswers { z3: Some(Answer::Sat), cvc5: Some(Answer::Sat) });
    assert!(next_oracle(&Verdict::NeedsOracle, &both).is_none());
    assert!(next_oracle(&Verdict::Correct, &None).is_none());
}

#[test]
fn a_row_carries_what_was_observed() {
    let exec = Exec {
        rc: Some(0),
        stdout: "(error \"x\")\nunknown\n".into(),
        stderr: "stats: fence=str-order\nwarn\n".into(),
        wall_ms: 40,
        killed_by_timeout: false,
        spawn_error: None,
    };
    let row = build_row(&inst(), &exec, None, Verdict::Unknown("str-order".into()));
    assert_eq!(row.answers, vec![Answer::Unknown]);
    assert_eq!(row.stdout_errors, 1);
    assert_eq!(row.first_error.as_deref(), Some("(error \"x\")"));
    assert_eq!(row.fence.as_deref(), Some("str-order"));
    assert_eq!(row.stderr_head, "warn\n");
    assert_eq!(row.wall_ms, 40);
    let unsettled = build_row(&inst(), &exec, None, Verdict::NeedsOracle);
    assert_eq!(unsettled.verdict, Verdict::Unverified);
    assert!(unsettled.stderr_head.starts_with("shinri-bench: classifier still needed"));
    let bare = bare_row(&inst(), Verdict::Malformed("spawn: x".into()));
    assert_eq!(bare.rc, None);
    assert_eq!(bare.wall_ms, 0);
    assert_eq!(bare.path, "QF_T/a.smt2");
}
