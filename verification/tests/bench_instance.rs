use shinri::bench::instance::{order_instances, scan_status, Instance};
use shinri::bench::verdict::Answer;

#[test]
fn status_present() {
    assert_eq!(
        scan_status("(set-logic QF_BV)\n(set-info :status unsat)\n"),
        Some(Answer::Unsat)
    );
    assert_eq!(
        scan_status("(set-info   :status   sat )"),
        Some(Answer::Sat)
    );
    assert_eq!(
        scan_status("(set-info :status unknown)"),
        Some(Answer::Unknown)
    );
}

#[test]
fn status_absent_or_in_comment() {
    assert_eq!(scan_status("(set-logic QF_BV)\n(check-sat)\n"), None);
    assert_eq!(
        scan_status("; (set-info :status sat)\n(set-logic QF_BV)"),
        None
    );
}

#[test]
fn status_after_check_sat_still_counts_and_crlf() {
    assert_eq!(
        scan_status("(check-sat)\r\n(set-info :status sat)\r\n"),
        Some(Answer::Sat)
    );
}

#[test]
fn only_the_first_declared_status_counts() {
    assert_eq!(
        scan_status("(set-info :source |x|)\n(set-info :status unsat)\n(set-info :status sat)"),
        Some(Answer::Unsat)
    );
    assert_eq!(scan_status("(set-info :status bogus)(set-info :status sat)"), Some(Answer::Sat));
    assert_eq!(scan_status("(set-info :status sat;)"), Some(Answer::Sat));
    assert_eq!(scan_status("(set-info :status timeout)"), None);
}

#[test]
fn timeout_is_no_status_value() {
    assert_eq!(
        scan_status("(set-info :status timeout)\n(set-info :status sat)\n"),
        Some(Answer::Sat)
    );
}

fn inst(rel: &str) -> Instance {
    Instance { rel_path: rel.into(), abs_path: std::path::PathBuf::from(rel), logic: "QF_BV".into(), bytes: 1, status: None }
}

#[test]
fn instances_are_ordered_by_relative_path() {
    let insts = vec![inst("QF_BV/b/x.smt2"), inst("QF_ABV/a.smt2"), inst("QF_BV/a.smt2")];
    assert_eq!(order_instances(&insts), vec![1, 2, 0]);
}
