use shinri::bench::corpus::{
    archive_filename, check_count, check_digest, fetch_outcome, mirror_url, parse_manifest, parse_value,
    plan_fetch, select_archives, ArchiveSpec, FetchStep, Manifest, TomlValue,
};

const MINI: &str = "record = \"10.5281/zenodo.1\"\nbase_url = \"https://h/f/\"\n\n[[archive]]\nlogic = \"QF_AX\"\nfile = \"QF_AX.tar.zst\"\nsize = 10\nmd5 = \"6d323ea02eb4d74e8ac77420bf94e3cb\"\nsmt2_count = 551\n";

#[test]
fn parses_manifest() {
    let m = parse_manifest(MINI).unwrap();
    assert_eq!(m.record, "10.5281/zenodo.1");
    assert_eq!(m.archives.len(), 1);
    assert_eq!(m.archives[0].url, "https://h/f/QF_AX.tar.zst/content");
    assert_eq!(m.archives[0].smt2_count, Some(551));
}

#[test]
fn rejects_missing_md5_and_unknown_key() {
    assert!(
        parse_manifest(&MINI.replace("md5 = \"6d323ea02eb4d74e8ac77420bf94e3cb\"\n", ""))
            .is_err()
    );
    assert!(parse_manifest(&format!("{MINI}sha1 = \"x\"\n")).is_err());
}

#[test]
fn mirror_rewrites_prefix() {
    assert_eq!(
        mirror_url(
            "https://zenodo.org/api/records/11061097/files/QF_AX.tar.zst/content",
            "https://zenodo.org/api/records/11061097/files/",
            "/mnt/mirror"
        ),
        "/mnt/mirror/QF_AX.tar.zst/content"
    );
}

#[test]
fn manifest_errors_name_the_line_and_the_problem() {
    assert_eq!(
        parse_manifest(&MINI.replace("md5 = \"6d323ea02eb4d74e8ac77420bf94e3cb\"\n", "")).err().unwrap(),
        "archive `QF_AX` missing `md5`"
    );
    assert_eq!(
        parse_manifest(&format!("{MINI}sha1 = \"x\"\n")).err().unwrap(),
        "manifest.toml:10: unknown archive key `sha1`"
    );
    assert_eq!(
        parse_manifest("# c\nrecord\n").err().unwrap(),
        "manifest.toml:2: expected `key = value`"
    );
    assert_eq!(
        parse_manifest("mirror = \"x\"\n").err().unwrap(),
        "manifest.toml:1: unknown top-level key `mirror`"
    );
    assert_eq!(
        parse_manifest("record = 1x\n").err().unwrap(),
        "manifest.toml:1: cannot parse value: \"1x\""
    );
    assert_eq!(
        parse_manifest("base_url = \"b\"\n").err().unwrap(),
        "manifest.toml: missing top-level `record`"
    );
    assert_eq!(
        parse_manifest("record = 7\nbase_url = \"b\"\n").err().unwrap(),
        "expected a string, got integer 7"
    );
    assert_eq!(
        parse_manifest("record = \"r\"\nbase_url = \"b\"\n[[archive]]\nlogic = \"L\"\nfile = \"f\"\nsize = \"big\"\n").err().unwrap(),
        "expected an integer, got string \"big\""
    );
}

#[test]
fn a_later_key_overrides_an_earlier_one() {
    let m = parse_manifest("record = \"a\"\nrecord = \"b\"\nbase_url = \"u/\"\n").unwrap();
    assert_eq!(m.record, "b");
    assert_eq!(m.archives.len(), 0);
}

#[test]
fn values_are_quoted_strings_or_unsigned_integers() {
    assert!(matches!(parse_value("  \"x y\" "), Ok(TomlValue::Str(s)) if s == "x y"));
    assert!(matches!(parse_value("+12"), Ok(TomlValue::Int(12))));
    assert!(matches!(parse_value("\"\""), Ok(TomlValue::Str(s)) if s.is_empty()));
    assert!(parse_value("\"").is_err());
    assert!(parse_value("-1").is_err());
}

#[test]
fn mirror_leaves_foreign_urls_alone_and_names_archives() {
    assert_eq!(mirror_url("https://x/a", "https://y/", "/m"), "https://x/a");
    assert_eq!(archive_filename("https://h/f/QF_AX.tar.zst/content"), "QF_AX.tar.zst");
    assert_eq!(archive_filename("plain"), "plain");
}

fn spec(logic: &str, url: &str, md5: &str) -> ArchiveSpec {
    ArchiveSpec { logic: logic.into(), url: url.into(), md5: md5.into(), size: 10, smt2_count: Some(3) }
}

fn download_url(step: FetchStep) -> Option<String> {
    match step {
        FetchStep::Skip => None,
        FetchStep::Download(u) => Some(u),
    }
}

#[test]
fn plan_fetch_skips_when_the_trimmed_record_matches() {
    let a = spec("QF_BV", "https://z.org/r/QF_BV.tar.zst", "abc123");
    assert!(matches!(plan_fetch(&a, "https://z.org/r", None, Some("abc123\n")), FetchStep::Skip));
    assert!(matches!(plan_fetch(&a, "https://z.org/r", None, Some("  abc123")), FetchStep::Skip));
}

#[test]
fn plan_fetch_downloads_on_a_stale_or_missing_record() {
    let a = spec("QF_BV", "https://z.org/r/QF_BV.tar.zst", "abc123");
    assert_eq!(
        download_url(plan_fetch(&a, "https://z.org/r", None, Some("other"))).as_deref(),
        Some("https://z.org/r/QF_BV.tar.zst")
    );
    assert_eq!(
        download_url(plan_fetch(&a, "https://z.org/r", None, None)).as_deref(),
        Some("https://z.org/r/QF_BV.tar.zst")
    );
}

#[test]
fn plan_fetch_uses_the_mirror() {
    let a = spec("QF_BV", "https://z.org/r/QF_BV.tar.zst", "abc123");
    assert_eq!(
        download_url(plan_fetch(&a, "https://z.org/r/", Some("/srv/mirror"), None)).as_deref(),
        Some("file:///srv/mirror/QF_BV.tar.zst")
    );
    assert_eq!(
        download_url(plan_fetch(&a, "https://z.org/r/", Some("http://m.example"), None)).as_deref(),
        Some("http://m.example/QF_BV.tar.zst")
    );
}

#[test]
fn check_digest_names_both_digests_on_a_mismatch() {
    assert_eq!(check_digest("abc", "abc", "x.bad"), Ok(()));
    assert_eq!(
        check_digest("abc", "abd", "/c/QF_BV.tar.zst.bad"),
        Err("md5 mismatch: expected abc, got abd (renamed to /c/QF_BV.tar.zst.bad)".to_string())
    );
}

#[test]
fn check_count_compares_only_a_given_count() {
    assert_eq!(check_count(None, 7), Ok(()));
    assert_eq!(check_count(Some(7), 7), Ok(()));
    assert_eq!(check_count(Some(12), 7), Err("expected 12 .smt2 files, found 7".to_string()));
}

#[test]
fn select_archives_refuses_the_first_unknown_logic() {
    let m = Manifest {
        record: "r".into(),
        base_url: "https://z.org/r".into(),
        archives: vec![spec("QF_BV", "u1", "m1"), spec("QF_ABV", "u2", "m2")],
    };
    let ok = select_archives(&m, &["QF_ABV".to_string(), "QF_BV".to_string()]);
    assert_eq!(ok, Ok(vec![1, 0]));
    let bad = select_archives(&m, &["QF_BV".to_string(), "QF_LIA".to_string(), "QF_NIA".to_string()]);
    assert_eq!(bad, Err("unknown logic: QF_LIA".to_string()));
}

#[test]
fn fetch_outcome_joins_failures() {
    assert_eq!(fetch_outcome(&[]), Ok(()));
    let one = [("QF_BV".to_string(), "boom".to_string())];
    assert_eq!(fetch_outcome(&one), Err("QF_BV: boom".to_string()));
    let two = [
        ("QF_BV".to_string(), "boom".to_string()),
        ("QF_ABV".to_string(), "md5 mismatch".to_string()),
    ];
    assert_eq!(fetch_outcome(&two), Err("QF_BV: boom; QF_ABV: md5 mismatch".to_string()));
}
