use shinri::bench::results::{answer_json, Fixture, Row};
use shinri::bench::verdict::{Answer, OracleAnswers, Verdict};

fn fixture() -> Fixture {
    Fixture {
        sha: "abc".into(),
        version: "shinri 0.1.0".into(),
        timeout_s: 20,
        mem_mb: 3072,
        jobs: 6,
        cpu_max: "800000 100000".into(),
        memory_max: "34359738368".into(),
        corpus: "zenodo.11061097".into(),
        started: "2026-09-08T00:00:00Z".into(),
        solver: Some("target/release/shinri".into()),
        solver_md5: Some("d41d8cd98f00b204e9800998ecf8427e".into()),
    }
}

fn row() -> Row {
    Row {
        path: "QF_S/a \"q\"\n.smt2".into(),
        logic: "QF_S".into(),
        bytes: 7,
        status: None,
        rc: Some(0),
        wall_ms: 12,
        answers: vec![Answer::Sat],
        stdout_errors: 3,
        first_error: Some("(error \"sort error: Arity { expected: 2, found: 64 }\")".into()),
        fence: None,
        stderr_head: "line1\nline2\\".into(),
        verdict: Verdict::Unverified,
        oracle: Some(OracleAnswers {
            z3: Some(Answer::Timeout),
            cvc5: None,
        }),
    }
}

#[test]
fn row_round_trips() {
    let r = row();
    let back = Row::from_json(&r.to_json()).unwrap();
    assert_eq!(back.path, r.path);
    assert_eq!(back.stderr_head, r.stderr_head);
    assert_eq!(back.verdict, r.verdict);
    assert_eq!(back.oracle, r.oracle);
    assert_eq!(back.answers, r.answers);
    assert_eq!(back.stdout_errors, r.stdout_errors);
    assert_eq!(back.first_error, r.first_error);
}

#[test]
fn stdout_errors_defaults_to_zero_on_older_rows() {
    // A line written before the field existed must still parse.
    let older = r#"{"path":"a.smt2","logic":"QF_UF","bytes":7,"status":null,"rc":0,"wall_ms":12,"answers":["sat"],"fence":null,"stderr_head":"","verdict":"unverified","oracle":null}"#;
    let back = Row::from_json(older).expect("older rows stay readable");
    assert_eq!(back.stdout_errors, 0);
    assert_eq!(back.first_error, None);
    assert_eq!(back.answers, vec![Answer::Sat]);
}

#[test]
fn fixture_round_trips() {
    let f = fixture();
    let back = Fixture::from_json(&f.to_json()).unwrap();
    assert!(f.same_run(&back));
    assert_eq!(back.started, f.started);
    assert_eq!(back.solver.as_deref(), Some("target/release/shinri"));
    assert_eq!(
        back.solver_md5.as_deref(),
        Some("d41d8cd98f00b204e9800998ecf8427e")
    );
}

#[test]
fn same_run_tolerates_a_missing_digest_but_not_a_different_one() {
    // An older fixture line predates both fields; it must stay resumable
    // against a fixture that now carries them.
    let mut older = fixture();
    older.solver = None;
    older.solver_md5 = None;
    assert!(older.same_run(&fixture()));
    assert!(fixture().same_run(&older));
    // Two different builds of the same sha are two different runs.
    let mut other_build = fixture();
    other_build.solver_md5 = Some("00000000000000000000000000000000".into());
    assert!(!fixture().same_run(&other_build));
}

#[test]
fn a_fixture_without_a_solver_serialises_as_it_did_before_the_fields() {
    let mut f = fixture();
    f.solver = None;
    f.solver_md5 = None;
    assert!(!f.to_json().contains("solver"));
    let back = Fixture::from_json(&f.to_json()).unwrap();
    assert_eq!(back.solver, None);
    assert_eq!(back.solver_md5, None);
}

#[test]
fn fixture_line_has_the_documented_shape() {
    let mut f = fixture();
    f.solver = None;
    f.solver_md5 = None;
    assert_eq!(
        f.to_json(),
        "{\"fixture\":{\"sha\":\"abc\",\"version\":\"shinri 0.1.0\",\"timeout_s\":20,\"mem_mb\":3072,\"jobs\":6,\"cpu_max\":\"800000 100000\",\"memory_max\":\"34359738368\",\"corpus\":\"zenodo.11061097\",\"started\":\"2026-09-08T00:00:00Z\"}}"
    );
}

#[test]
fn a_fixture_line_needs_its_required_fields() {
    assert!(Fixture::from_json("{\"fixture\":{\"sha\":\"a\",\"version\":\"v\",\"timeout_s\":1,\"mem_mb\":2}}").is_none());
    assert!(Fixture::from_json("{\"other\":{}}").is_none());
    assert!(Fixture::from_json("{\"fixture\":3}").is_none());
    let f = Fixture::from_json("{\"fixture\":{\"sha\":\"a\",\"version\":\"v\",\"timeout_s\":1,\"mem_mb\":2,\"jobs\":3}}").unwrap();
    assert_eq!(f.cpu_max, "");
    assert_eq!(f.jobs, 3);
}

#[test]
fn row_line_has_the_documented_shape() {
    let r = Row {
        path: "p".into(),
        logic: "L".into(),
        bytes: 1,
        status: Some(Answer::Sat),
        rc: Some(-9),
        wall_ms: 2,
        answers: vec![Answer::Sat, Answer::Unknown],
        stdout_errors: 0,
        first_error: None,
        fence: Some("f".into()),
        stderr_head: String::new(),
        verdict: Verdict::Unknown("f".into()),
        oracle: None,
    };
    assert_eq!(
        r.to_json(),
        "{\"path\":\"p\",\"logic\":\"L\",\"bytes\":1,\"status\":\"sat\",\"rc\":-9,\"wall_ms\":2,\"answers\":[\"sat\",\"unknown\"],\"stdout_errors\":0,\"first_error\":null,\"fence\":\"f\",\"stderr_head\":\"\",\"verdict\":\"unknown:f\",\"oracle\":null}"
    );
    let back = Row::from_json(&r.to_json()).unwrap();
    assert_eq!(back.rc, Some(-9));
    assert_eq!(back.fence.as_deref(), Some("f"));
}

#[test]
fn a_row_without_a_verdict_is_unreadable() {
    assert!(Row::from_json(r#"{"path":"a","logic":"L","bytes":1,"wall_ms":2}"#).is_none());
    assert!(Row::from_json(r#"{"path":"a","logic":"L","bytes":1,"wall_ms":2,"verdict":"oom"}"#).is_some());
}

#[test]
fn answer_json_spells_or_is_null() {
    assert_eq!(answer_json(Some(Answer::Unsat)), "\"unsat\"");
    assert_eq!(answer_json(None), "null");
}
