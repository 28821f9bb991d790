use okq::cli::{LintArgs, SeverityArg};
use okq::commands::lint::parse_filters;
use okq::commands::lint::{findings, parse_rule, rule_key, split_rule, RawDiagnostic};
use okq::error::exit;

#[test]
fn splits_a_rule_prefix_off_the_message() {
    let (rule, msg) = split_rule("[L15] no inbound links");
    assert_eq!(rule.as_deref(), Some("L15"));
    assert_eq!(msg, "no inbound links");
}

#[test]
fn a_message_without_a_code_degrades_to_none() {
    for message in [
        "no prefix at all",
        "[not-a-rule] something",
        "[L] missing digits",
        "[unterminated message",
    ] {
        let (rule, msg) = split_rule(message);
        assert_eq!(rule, None, "{message:?}");
        assert_eq!(msg, message, "{message:?}");
    }
}

#[test]
fn rules_are_parsed_case_insensitively_and_validated() {
    assert_eq!(parse_rule("l15").unwrap(), "L15");
    assert_eq!(parse_rule(" L4 ").unwrap(), "L4");
    assert!(parse_rule("L99").is_err());
    assert!(parse_rule("nonsense").is_err());
}

#[test]
fn unknown_rule_is_a_usage_error() {
    let e = parse_rule("L99").unwrap_err();
    assert_eq!(e.exit_code(), exit::USAGE);
}

#[test]
fn rule_ordering_is_numeric_not_lexical() {
    assert!(rule_key(Some("L2")) < rule_key(Some("L10")));
    assert!(rule_key(Some("L16")) < rule_key(None));
}

fn raw(sev: &str, path: Option<&str>, msg: &str) -> RawDiagnostic {
    RawDiagnostic { severity: sev.to_string(), path: path.map(|p| p.to_string()), message: msg.to_string() }
}

#[test]
fn a_malformed_bundle_lints_without_panicking() {
    let ds = vec![
        raw("warning", Some("broken.md"), "[L4] section `Intro` is empty"),
        raw("info", None, "[L"),
        raw("", Some(""), ""),
        raw("error", Some("x/y.md"), "[L9] no inbound links"),
        raw("weird", None, "[Lx] odd"),
    ];
    let out = findings(&ds, &Vec::new(), &Vec::new(), 0);
    assert_eq!(out.findings, out.diagnostics.len());
}

#[test]
fn findings_are_ordered_by_rule_then_path() {
    let ds = vec![
        raw("info", Some("b.md"), "[L10] second"),
        raw("info", Some("a.md"), "[L10] first"),
        raw("warning", Some("c.md"), "[L2] early"),
    ];
    let out = findings(&ds, &Vec::new(), &Vec::new(), 0);
    let paths: Vec<_> = out.diagnostics.iter().map(|f| f.path.clone().unwrap()).collect();
    assert_eq!(paths, vec!["c.md", "a.md", "b.md"]);
}

#[test]
fn only_and_ignore_filter_rules() {
    let ds = vec![raw("info", Some("a.md"), "[L10] x"), raw("info", Some("b.md"), "[L11] y")];
    let only = findings(&ds, &vec!["L10".to_string()], &Vec::new(), 0);
    assert_eq!(only.findings, 1);
    let ignored = findings(&ds, &Vec::new(), &vec!["L10".to_string()], 0);
    assert_eq!(ignored.findings, 1);
    assert_eq!(ignored.diagnostics[0].path.as_deref(), Some("b.md"));
}


fn at(sev: &str, path: &str, msg: &str) -> RawDiagnostic {
    RawDiagnostic { severity: sev.to_string(), path: Some(path.to_string()), message: msg.to_string() }
}

fn sample() -> Vec<RawDiagnostic> {
    vec![
        at("warning", "a.md", "[L9] not listed in an index"),
        at("info", "b.md", "[L12] no description"),
        at("warning", "c.md", "[L9] not listed in an index"),
    ]
}

fn largs(rule: &[&str], ignore: &[&str]) -> LintArgs {
    LintArgs {
        rule: rule.iter().map(|s| s.to_string()).collect(),
        ignore: ignore.iter().map(|s| s.to_string()).collect(),
        severity: SeverityArg::Info,
        today: None,
        check: false,
    }
}

#[test]
fn rule_filters_narrow_the_report() {
    let (only, ignore) = parse_filters(&largs(&["l9"], &[])).unwrap();
    let out = findings(&sample(), &only, &ignore, 0);
    assert_eq!(out.findings, 2);
    assert!(out.diagnostics.iter().all(|d| d.rule.as_deref() == Some("L9")));
}

#[test]
fn ignore_suppresses_a_rule() {
    let (only, ignore) = parse_filters(&largs(&[], &["L12"])).unwrap();
    let out = findings(&sample(), &only, &ignore, 0);
    assert!(out.diagnostics.iter().all(|d| d.rule.as_deref() != Some("L12")));
    assert_eq!(out.findings, 2);
}

#[test]
fn rule_and_ignore_together_is_a_usage_error() {
    assert_eq!(parse_filters(&largs(&["L1"], &["L2"])).err().unwrap().exit_code(), exit::USAGE);
}

#[test]
fn an_unknown_rule_code_is_a_usage_error() {
    assert_eq!(parse_filters(&largs(&[], &["L99"])).err().unwrap().exit_code(), exit::USAGE);
    assert_eq!(parse_filters(&largs(&["nonsense"], &[])).err().unwrap().exit_code(), exit::USAGE);
}

#[test]
fn severity_floor_drops_info_findings() {
    let out = findings(&sample(), &Vec::new(), &Vec::new(), 1);
    assert_eq!(out.infos, 0);
    assert!(out.diagnostics.iter().all(|d| d.severity == "warning"));
    assert_eq!(out.findings, out.warnings + out.infos);
}
