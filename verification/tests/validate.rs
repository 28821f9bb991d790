use okq::commands::lint::{rank_str, visible, RawDiagnostic};
use okq::ignore_rules::IgnoreSet;
use okq::commands::validate::report;

#[test]
fn rank_orders_error_highest() {
    assert!(rank_str("error") > rank_str("warning"));
    assert!(rank_str("warning") > rank_str("info"));
    assert_eq!(rank_str("error"), 2);
    assert_eq!(rank_str("warning"), 1);
    assert_eq!(rank_str("info"), 0);
}

#[test]
fn counts_do_not_depend_on_the_floor() {
    let ds = vec![
        RawDiagnostic { severity: "info".to_string(), path: None, message: "note".to_string() },
        RawDiagnostic { severity: "error".to_string(), path: Some("a.md".to_string()), message: "bad".to_string() },
    ];
    let all = report(&ds, 0);
    let errors_only = report(&ds, 2);
    assert_eq!((all.errors, all.infos), (errors_only.errors, errors_only.infos));
    assert!(!all.conformant);
    assert_eq!(errors_only.diagnostics.len(), 1);
    assert_eq!(errors_only.diagnostics[0].severity, "error");
}

#[test]
fn ignored_files_drop_out_before_counting() {
    let files = vec![(".okqignore".to_string(), "drafts/\n".to_string())];
    let (set, failed) = IgnoreSet::load(&files);
    assert!(failed.is_empty());
    let ds = vec![
        RawDiagnostic { severity: "error".to_string(), path: Some("drafts/x.md".to_string()), message: "bad".to_string() },
        RawDiagnostic { severity: "warning".to_string(), path: Some("a.md".to_string()), message: "meh".to_string() },
        RawDiagnostic { severity: "info".to_string(), path: None, message: "note".to_string() },
    ];
    let kept = visible(ds, &set);
    assert_eq!(kept.len(), 2);
    let out = report(&kept, 0);
    assert_eq!((out.errors, out.warnings, out.infos), (0, 1, 1));
    assert!(out.conformant);
}
