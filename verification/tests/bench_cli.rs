use shinri::bench::cli::{civil_from_epoch, compact_timestamp, corpus_provenance, iso_timestamp, check_limits, list, parse_fetch_args, parse_rerun_args, parse_report_args, parse_run_args, sha_with_dirty_flag, verdict_selected, Progress};
use shinri::bench::verdict::Verdict;

fn argv(args: &[&str]) -> Vec<String> {
    args.iter().map(|s| s.to_string()).collect()
}

fn run_id() -> String {
    "20260908T000000Z".to_string()
}

#[test]
fn run_args_have_documented_defaults() {
    let a = parse_run_args(&["--logics".into(), "QF_AX,QF_S".into()], run_id()).unwrap();
    assert_eq!((a.timeout_s, a.mem_mb, a.jobs), (20, 3072, 6));
    assert_eq!(a.logics, vec!["QF_AX", "QF_S"]);
    assert!(a.run_id.len() >= 15); // YYYYMMDDTHHMMSSZ
}

#[test]
fn rerun_requires_verdicts() {
    assert!(parse_rerun_args(&["bench/results/x/results.jsonl".into()], run_id()).is_err());
}

#[test]
fn run_args_accept_every_documented_flag() {
    let a = parse_run_args(&argv(&[
        "--logics",
        "QF_AX",
        "--timeout",
        "5",
        "--mem-mb",
        "512",
        "--jobs",
        "2",
        "--run-id",
        "smoke",
        "--solver",
        "/bin/true",
        "--corpus",
        "c",
        "--results",
        "r",
    ]), run_id())
    .unwrap();
    assert_eq!((a.timeout_s, a.mem_mb, a.jobs), (5, 512, 2));
    assert_eq!(a.run_id, "smoke");
    assert_eq!(a.solver.as_deref(), Some("/bin/true"));
    assert_eq!(a.corpus, "c");
    assert_eq!(a.results, "r");
}

#[test]
fn run_args_reject_bad_values() {
    assert!(parse_run_args(&argv(&["--timeout"]), run_id()).is_err()); // missing value
    assert!(parse_run_args(&argv(&["--timeout", "soon"]), run_id()).is_err());
    assert!(parse_run_args(&argv(&["--timeout", "0"]), run_id()).is_err());
    assert!(parse_run_args(&argv(&["--mem-mb", "0"]), run_id()).is_err());
    // An explicit but empty list is a typo, not "every logic".
    assert!(parse_run_args(&argv(&["--logics", ""]), run_id()).is_err());
    assert!(parse_run_args(&argv(&["--logics", ",,"]), run_id()).is_err());
    assert!(parse_fetch_args(&argv(&["--logics", ""])).is_err());
    assert!(parse_run_args(&argv(&["--jobs", "0"]), run_id()).is_err());
    assert!(parse_run_args(&argv(&["--run-id", "a/b"]), run_id()).is_err());
    assert!(parse_run_args(&argv(&["--nope"]), run_id()).is_err());
    assert!(parse_run_args(&argv(&["extra"]), run_id()).is_err());
}

#[test]
fn fetch_args_default_to_the_repo_paths() {
    let a = parse_fetch_args(&[]).unwrap();
    assert_eq!(a.manifest, "bench/manifest.toml");
    assert_eq!(a.corpus, "bench/corpus");
    assert!(a.logics.is_empty() && a.mirror.is_none() && !a.dry_run);

    let b = parse_fetch_args(&argv(&["--dry-run", "--mirror", "/m", "--logics", "QF_AX"])).unwrap();
    assert!(b.dry_run);
    assert_eq!(b.mirror.as_deref(), Some("/m"));
    assert_eq!(b.logics, vec!["QF_AX"]);
}

#[test]
fn rerun_args_take_a_source_and_verdicts() {
    let a = parse_rerun_args(&argv(&[
        "bench/results/x/results.jsonl",
        "--verdict",
        "wrong,unknown",
        "--jobs",
        "1",
    ]), run_id())
    .unwrap();
    assert_eq!(a.source, "bench/results/x/results.jsonl");
    assert_eq!(a.verdicts, vec!["wrong", "unknown"]);
    assert_eq!(a.jobs, 1);
    assert_eq!(a.results, None);
    // Two positional arguments are a mistake, not a second source.
    assert!(parse_rerun_args(&argv(&["a.jsonl", "b.jsonl", "--verdict", "wrong"]), run_id()).is_err());
}

#[test]
fn report_args_take_one_run_dir() {
    assert_eq!(
        parse_report_args(&argv(&["bench/results/x"])).unwrap().run_dir,
        "bench/results/x"
    );
    assert!(parse_report_args(&[]).is_err());
    assert!(parse_report_args(&argv(&["a", "b"])).is_err());
}

#[test]
fn verdict_selector_matches_family_but_not_prefix() {
    let unknown = Verdict::Unknown("str-order".to_string());
    assert!(verdict_selected(&unknown, &["unknown".to_string()]));
    assert!(verdict_selected(
        &unknown,
        &["unknown:str-order".to_string()]
    ));
    assert!(!verdict_selected(&unknown, &["unknown:other".to_string()]));
    // `unverified` starts with neither; a bare prefix must not match.
    assert!(!verdict_selected(
        &Verdict::Unverified,
        &["unk".to_string()]
    ));
    assert!(verdict_selected(
        &Verdict::Correct,
        &["wrong".to_string(), "correct".to_string()]
    ));
}

#[test]
fn dirty_tree_gets_its_own_sha() {
    // Clean tree: `git status --porcelain` says nothing.
    assert_eq!(sha_with_dirty_flag("abc123", ""), "abc123");
    assert_eq!(sha_with_dirty_flag("abc123", "\n  \n"), "abc123");
    // Any modification must not compare equal to the committed sha.
    assert_eq!(
        sha_with_dirty_flag("abc123", " M crates/shinri-bench/src/main.rs"),
        "abc123-dirty"
    );
    assert_eq!(sha_with_dirty_flag("abc123", "?? new.rs"), "abc123-dirty");
    assert_ne!(
        sha_with_dirty_flag("abc123", " M x.rs"),
        sha_with_dirty_flag("abc123", "")
    );
}

#[test]
fn progress_prints_every_50_rows_and_once_at_the_end() {
    let mut p = Progress::default();
    for i in 1..=51 {
        let _ = p.tick(i, 51, &Verdict::Correct);
    }
    assert_eq!(p.printed, 50); // printed at 50, not at 51
    let _ = p.finish();
    assert_eq!(p.printed, 51);
    assert_eq!(p.correct, 51);
    // A second finish does not repeat the line.
    let before = p.printed;
    let _ = p.finish();
    assert_eq!(p.printed, before);
}

#[test]
fn progress_line_lists_every_tally() {
    let mut p = Progress::default();
    let first = p.tick(1, 2, &Verdict::Wrong);
    assert!(first.is_none());
    let line = p.finish().unwrap();
    assert_eq!(
        line,
        "1/2  correct=0 wrong=1 status-suspect=0 parse-error=0 panic=0 oom=0 timeout=0 unknown=0 unverified=0 malformed=0"
    );
    assert!(p.finish().is_none());
}

#[test]
fn lists_and_limits() {
    assert_eq!(list(" A, ,B,"), vec!["A", "B"]);
    assert!(list("").is_empty());
    assert!(check_limits(1, 1, 1, "ok").is_ok());
    assert_eq!(check_limits(0, 1, 1, "ok").unwrap_err(), "--timeout must be at least 1 second");
    assert_eq!(check_limits(1, 1, 1, ".hidden").unwrap_err(), "--run-id must be a plain directory name: .hidden");
    assert!(check_limits(1, 1, 1, "a\\b").is_err());
    assert!(check_limits(1, 1, 1, "").is_err());
}

#[test]
fn flag_errors_say_what_is_wrong() {
    assert_eq!(parse_run_args(&argv(&["--timeout"]), run_id()).err().unwrap(), "--timeout needs a value");
    assert_eq!(parse_run_args(&argv(&["--jobs", "x"]), run_id()).err().unwrap(), "--jobs: not a number: x");
    assert_eq!(parse_run_args(&argv(&["--logics", ","]), run_id()).err().unwrap(), "--logics: no logic names in \",\"");
    assert_eq!(parse_run_args(&argv(&["extra"]), run_id()).err().unwrap(), "run: unexpected argument: extra");
    assert_eq!(parse_rerun_args(&argv(&["--verdict", "wrong"]), run_id()).err().unwrap(), "rerun: missing <RESULTS.jsonl>");
    assert_eq!(parse_rerun_args(&argv(&["--x"]), run_id()).err().unwrap(), "rerun: unexpected argument: --x");
    assert_eq!(parse_report_args(&argv(&["--x"])).err().unwrap(), "report: expected exactly one run directory");
}

#[test]
fn corpus_field_describes_where_the_instances_came_from() {
    let record = || "10.5281/zenodo.11061097".to_string();
    // The repo corpus is the one the manifest actually pins.
    assert_eq!(
        corpus_provenance("bench/corpus", record()),
        "10.5281/zenodo.11061097"
    );
    assert_eq!(corpus_provenance("bench//corpus/", record()), "10.5281/zenodo.11061097");
    // Anywhere else, the record would be a false provenance claim.
    assert_eq!(corpus_provenance("/tmp/other", record()), "/tmp/other");
}

#[test]
fn timestamps_are_utc_civil_dates() {
    assert_eq!(iso_timestamp(0), "1970-01-01T00:00:00Z");
    assert_eq!(iso_timestamp(1_757_289_600), "2025-09-08T00:00:00Z");
    assert_eq!(iso_timestamp(1_788_870_896), "2026-09-08T12:34:56Z");
    // Leap day, last second.
    assert_eq!(iso_timestamp(1_709_251_199), "2024-02-29T23:59:59Z");
    // Century non-leap boundary.
    assert_eq!(iso_timestamp(951_868_800), "2000-03-01T00:00:00Z");
    assert_eq!(compact_timestamp(1_757_289_600), "20250908T000000Z");
    assert_eq!(compact_timestamp(1_757_289_600).len(), 16);
}

#[test]
fn civil_dates_at_the_edges() {
    assert_eq!(civil_from_epoch(0), (1970, 1, 1, 0, 0, 0));
    assert_eq!(civil_from_epoch(951_782_400), (2000, 2, 29, 0, 0, 0));
    assert_eq!(civil_from_epoch(4_107_542_400), (2100, 3, 1, 0, 0, 0));
    assert_eq!(civil_from_epoch(4_107_542_399), (2100, 2, 28, 23, 59, 59));
    let (y, _, _, _, _, _) = civil_from_epoch(u64::MAX);
    assert!(y > 584_000_000_000);
}
