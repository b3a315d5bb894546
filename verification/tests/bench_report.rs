use shinri::bench::report::{
    answer, cell, diag_line, gap_key, keep_cheapest, median, normalise_diag, opt_ms, order_by_bytes, p90,
    size_deciles, slowest_correct, sort_keys, str_lt, Counts,
};
use shinri::bench::results::Row;
use shinri::bench::verdict::{Answer, Verdict};

#[test]
fn diag_normalisation_merges_symbol_and_number_variants() {
    assert_eq!(
        normalise_diag("(error \"unknown symbol foo\")"),
        normalise_diag("(error \"unknown symbol bar\")")
    );
    assert_eq!(
        normalise_diag("line 12: unexpected token |x|"),
        "line N: unexpected token S"
    );
}

#[test]
fn radix_literals_and_unclosed_quotes_collapse() {
    assert_eq!(normalise_diag("bad #x1F and 0xZZ and #b01 \"open"), "bad N and NxZZ and N S");
    assert_eq!(normalise_diag("é 7  \t"), "é N");
}

#[test]
fn diag_line_prefers_the_marker_then_the_first_non_blank_line() {
    assert_eq!(diag_line("\n  \nfirst\n(error \"x\")\n", "(error"), "(error \"x\")");
    assert_eq!(diag_line("\n  \nfirst\nsecond\n", "(error"), "first");
    assert_eq!(diag_line(" \n", "(error"), "-");
}

#[test]
fn median_and_p90_pick_the_documented_elements() {
    assert_eq!(median(&[]), None);
    assert_eq!(median(&[1, 2, 3, 4]), Some(3));
    assert_eq!(p90(&[]), None);
    assert_eq!(p90(&[5]), Some(5));
    let v: Vec<u64> = (1..=10).collect();
    assert_eq!(p90(&v), Some(9));
    let w: Vec<u64> = (1..=11).collect();
    assert_eq!(p90(&w), Some(10));
}

#[test]
fn small_cells() {
    assert_eq!(opt_ms(Some(12)), "12");
    assert_eq!(opt_ms(None), "n/a");
    assert_eq!(answer(Some(Answer::Sat)), "sat");
    assert_eq!(answer(None), "-");
    assert_eq!(cell("a|b"), "a\\|b");
}

#[test]
fn counts_keep_every_verdict() {
    let mut c = Counts::default();
    for v in [Verdict::Correct, Verdict::NeedsOracle, Verdict::Unknown("f".into()), Verdict::Correct] {
        c.add(&v);
    }
    assert_eq!((c.total, c.correct, c.other, c.unknown), (4, 2, 1, 1));
    let mut all = Counts::default();
    all.merge(&c);
    all.merge(&c);
    assert_eq!((all.total, all.correct), (8, 4));
}

fn row(verdict: Verdict, stderr_head: &str) -> Row {
    Row {
        path: "a".into(),
        logic: "L".into(),
        bytes: 1,
        status: None,
        rc: Some(1),
        wall_ms: 1,
        answers: vec![],
        stdout_errors: 0,
        first_error: None,
        fence: None,
        stderr_head: stderr_head.into(),
        verdict,
        oracle: None,
    }
}

#[test]
fn gap_keys_bucket_by_diagnostic() {
    assert_eq!(gap_key(&row(Verdict::Correct, "")), None);
    assert_eq!(gap_key(&row(Verdict::Wrong, "")), None);
    assert_eq!(
        gap_key(&row(Verdict::ParseError, "x\n(error \"line 3: bad\")\n")).as_deref(),
        Some("parse-error:(error S)")
    );
    assert_eq!(
        gap_key(&row(Verdict::Panic, "thread 'main' panicked at src/a.rs:12:5:\n")).as_deref(),
        Some("panic:thread 'main' panicked at src/a.rs:N:N:")
    );
    assert_eq!(gap_key(&row(Verdict::Timeout, "")).as_deref(), Some("timeout"));
    assert_eq!(gap_key(&row(Verdict::Unknown("f".into()), "")).as_deref(), Some("unknown:f"));
}

#[test]
fn size_deciles_split_rows_evenly() {
    let slow: Vec<bool> = (0..25).map(|i| i % 4 == 0).collect();
    let bins = size_deciles(&slow);
    assert_eq!(bins.len(), 10);
    let bounds: Vec<(usize, usize)> = bins.iter().map(|b| (b.first, b.end)).collect();
    assert_eq!(
        bounds,
        vec![(0, 2), (2, 5), (5, 7), (7, 10), (10, 12), (12, 15), (15, 17), (17, 20), (20, 22), (22, 25)]
    );
    let hits: Vec<usize> = bins.iter().map(|b| b.hits).collect();
    // rows 0, 4, 8, 12, 16, 20, 24 are slow
    assert_eq!(hits, vec![1, 1, 0, 1, 0, 1, 1, 0, 1, 1]);
}

#[test]
fn size_deciles_of_few_rows_leave_empty_bins() {
    let bins = size_deciles(&[true, false, true]);
    let non_empty: Vec<(usize, usize, usize)> =
        bins.iter().filter(|b| b.first < b.end).map(|b| (b.first, b.end, b.hits)).collect();
    assert_eq!(non_empty, vec![(0, 1, 1), (1, 2, 0), (2, 3, 1)]);
    assert!(size_deciles(&[]).iter().all(|b| b.first == 0 && b.end == 0 && b.hits == 0));
}

#[test]
fn str_order_matches_rust_strings() {
    for (a, b) in [("a", "b"), ("ab", "a"), ("", "x"), ("x", ""), ("abc", "abd"), ("é", "z"), ("same", "same")] {
        assert_eq!(str_lt(a, b), a < b, "{a:?} < {b:?}");
    }
}

#[test]
fn keep_cheapest_keeps_three_in_order() {
    let mut ex: Vec<(u64, String)> = Vec::new();
    for (bytes, path) in [(50u64, "e"), (10, "b"), (10, "a"), (70, "f"), (5, "z"), (10, "a")] {
        keep_cheapest(&mut ex, bytes, path.to_string(), 3);
        assert!(ex.len() <= 3);
        assert!(ex.windows(2).all(|w| w[0] <= w[1]), "kept list is ascending");
    }
    let got: Vec<(u64, &str)> = ex.iter().map(|(b, p)| (*b, p.as_str())).collect();
    assert_eq!(got, vec![(5, "z"), (10, "a"), (10, "a")]);
}

fn sized(path: &str, bytes: u64, wall_ms: u64) -> Row {
    let mut r = row(Verdict::Correct, "");
    r.path = path.into();
    r.bytes = bytes;
    r.wall_ms = wall_ms;
    r
}

#[test]
fn sort_keys_orders_by_number_then_text() {
    let keys = vec![
        (3u64, "b".to_string()),
        (1u64, "z".to_string()),
        (3u64, "a".to_string()),
        (2u64, "m".to_string()),
    ];
    assert_eq!(sort_keys(&keys), vec![1, 3, 2, 0]);
    assert_eq!(sort_keys(&[]), Vec::<usize>::new());
}

#[test]
fn rows_are_ordered_by_size_then_path() {
    let rows = vec![sized("c", 20, 1), sized("b", 10, 1), sized("a", 20, 1)];
    assert_eq!(order_by_bytes(&rows), vec![1, 2, 0]);
}

#[test]
fn slowest_correct_rows_come_first_ties_by_path() {
    let rows = vec![sized("a", 1, 5), sized("b", 1, 50), sized("c", 1, 7), sized("d", 1, 50)];
    assert_eq!(slowest_correct(&rows, 3), vec![1, 3, 2]);
    assert_eq!(slowest_correct(&rows, 10), vec![1, 3, 2, 0]);
    assert_eq!(slowest_correct(&rows, 0), Vec::<usize>::new());
}

#[test]
fn report_order_does_not_depend_on_input_order() {
    let a = vec![(7u64, "q".to_string()), (1, "b".to_string()), (7, "a".to_string()), (1, "a".to_string())];
    let mut b = a.clone();
    b.reverse();
    let ka: Vec<&(u64, String)> = sort_keys(&a).iter().map(|&i| &a[i]).collect();
    let kb: Vec<&(u64, String)> = sort_keys(&b).iter().map(|&i| &b[i]).collect();
    assert_eq!(ka, kb);
    assert_eq!(ka[0], &(1, "a".to_string()));
    assert_eq!(ka[3], &(7, "q".to_string()));
}
