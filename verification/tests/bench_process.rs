use shinri::bench::oracle::{answer_of, unavailable_reason, Oracle};
use shinri::bench::process::{limit_args, shell_status, timed_out, Exec, Limits};
use shinri::bench::verdict::Answer;

#[test]
fn the_limit_chain_wraps_the_program() {
    let args = limit_args("z3", &["f.smt2".to_string()], &Limits { timeout_s: 20, mem_mb: 3 });
    assert_eq!(
        args,
        vec!["--as=3145728", "timeout", "-s", "KILL", "21", "timeout", "20", "z3", "f.smt2"]
    );
}

#[test]
fn a_signal_death_reads_as_128_plus_the_signal() {
    assert_eq!(shell_status(Some(3), None), Some(3));
    assert_eq!(shell_status(None, Some(6)), Some(134));
    assert_eq!(shell_status(None, None), None);
}

#[test]
fn only_a_kill_after_the_budget_is_a_timeout() {
    assert!(timed_out(Some(124), 1, 20));
    assert!(timed_out(Some(137), 20_000, 20));
    assert!(!timed_out(Some(137), 19_999, 20));
    assert!(timed_out(None, 20_000, 20));
    assert!(!timed_out(Some(0), 99_999, 20));
    assert!(timed_out(Some(137), u64::MAX, u64::MAX));
}

fn exec(stdout: &str) -> Exec {
    Exec { rc: Some(0), stdout: stdout.into(), stderr: String::new(), wall_ms: 1, killed_by_timeout: false, spawn_error: None }
}

#[test]
fn the_last_decided_line_wins() {
    assert_eq!(answer_of(&exec("sat\nunsat\n(model)\n")), Answer::Unsat);
    assert_eq!(answer_of(&exec("success\n")), Answer::Unknown);
    let mut t = exec("sat\n");
    t.killed_by_timeout = true;
    assert_eq!(answer_of(&t), Answer::Timeout);
    let mut s = exec("sat\n");
    s.spawn_error = Some("nope".into());
    assert_eq!(answer_of(&s), Answer::Unknown);
    assert_eq!(unavailable_reason(&s).as_deref(), Some("nope"));
    let mut m = exec("");
    m.rc = Some(127);
    assert_eq!(unavailable_reason(&m).as_deref(), Some("exit 127 (not found or not executable)"));
    assert_eq!(unavailable_reason(&exec("")), None);
}

#[test]
fn oracles_default_to_the_names_on_path() {
    let o = Oracle::default();
    assert_eq!((o.z3.as_str(), o.cvc5.as_str()), ("z3", "cvc5"));
    assert_eq!(o.cvc5_args("f"), vec!["--lang", "smt2", "f"]);
}

#[test]
fn a_trailing_unknown_line_is_not_a_decided_answer() {
    assert_eq!(answer_of(&exec("sat\nunknown\n")), Answer::Sat);
    assert_eq!(answer_of(&exec("unsat\ntimeout\n")), Answer::Unsat);
    assert_eq!(answer_of(&exec("unknown\n")), Answer::Unknown);
}
