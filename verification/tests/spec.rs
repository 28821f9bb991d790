use okq::cli::SpecArgs;
use okq::commands::spec::run;
use okq::error::exit;

const DOC: &str = "# Open Knowledge Format (OKF)\n\n**Version 0.2**\n\nIntro.\n\n\
## 5. Trust\n\n### 5.3 Trust tiers\n\nunverified, machine-confirmed, human-reviewed.\n\n\
## 6. Links\n\nLinks text.\n\n## 11. Conformance\n\nA conformant bundle.\n";

const SOURCE: &str = "upstream";

#[test]
fn whole_spec_is_verbatim() {
    let out = run(DOC, SOURCE, &SpecArgs { section: None }).unwrap();
    assert_eq!(out.text, DOC);
    assert_eq!(out.okf_version, "0.2");
    assert!(out.section.is_none());
}

#[test]
fn prints_the_exact_spec_text() {
    let out = run(DOC, SOURCE, &SpecArgs { section: None }).unwrap();
    assert_eq!(out.text, DOC);
    assert_eq!(out.schema, "okq.spec/v1");
    assert_eq!(out.license, "Apache-2.0");
    assert_eq!(out.source, SOURCE);
}

#[test]
fn section_by_heading_and_slug() {
    for query in ["5.3 Trust tiers", "5-3-trust-tiers"] {
        let out = run(DOC, SOURCE, &SpecArgs { section: Some(query.into()) }).unwrap();
        assert_eq!(out.section.as_deref(), Some("5.3 Trust tiers"));
        assert!(out.text.contains("machine-confirmed"));
        assert!(!out.text.contains("## 6."), "section must end at siblings");
    }
}

#[test]
fn section_selects_one_heading() {
    let out = run(DOC, SOURCE, &SpecArgs { section: Some("11. Conformance".into()) }).unwrap();
    assert!(out.text.starts_with("## 11. Conformance"));
    assert!(out.text.contains("conformant"));
    let by_slug = run(DOC, SOURCE, &SpecArgs { section: Some("11-conformance".into()) }).unwrap();
    assert_eq!(out.text, by_slug.text);
    assert_eq!(out.line, Some(17));
}

#[test]
fn missing_section_is_exit_5() {
    let err = run(DOC, SOURCE, &SpecArgs { section: Some("no such heading".into()) }).err().unwrap();
    assert_eq!(err.exit_code(), exit::SECTION);
}

#[test]
fn unknown_section_exits_5() {
    let err = run(DOC, SOURCE, &SpecArgs { section: Some("nothing like this".into()) }).err().unwrap();
    assert_eq!(err.exit_code(), 5);
}
