use okq::concept::ConceptId;
use okq::model::{Concept, TrustEvents, TrustTier};
use okq::trust::{tier_name, ConceptTrust};
use okq::trust::resolve_today;

#[test]
fn today_flag_must_be_an_iso_date() {
    assert!(resolve_today(Some("2026-08-02"), None).unwrap().is_some());
    assert!(resolve_today(Some("last tuesday"), None).is_err());
}

#[test]
fn today_flag_is_trimmed_and_calendar_checked() {
    assert_eq!(resolve_today(Some(" 2024-02-29 "), None).unwrap(), Some((2024, 2, 29)));
    assert!(resolve_today(Some("2023-02-29"), None).is_err());
    assert!(resolve_today(Some("2026-13-01"), None).is_err());
}

#[test]
fn no_flag_uses_the_system_date() {
    assert_eq!(resolve_today(None, Some((2026, 1, 2))).unwrap(), Some((2026, 1, 2)));
    assert_eq!(resolve_today(None, None).unwrap(), None);
}

#[test]
fn bad_today_message_quotes_the_input() {
    match resolve_today(Some("soon"), None) {
        Err(okq::error::AppError::Usage(m)) => {
            assert_eq!(m, "--today must be an ISO date (YYYY-MM-DD), got \"soon\"")
        }
        _ => panic!("expected a usage error"),
    }
}


fn with(status: &str, trust: TrustTier, stale: bool) -> Concept {
    Concept {
        id: ConceptId::new(vec!["doc".to_string()]).unwrap(),
        path: "doc.md".to_string(),
        type_: Some("doc".to_string()),
        title: None,
        tags: Vec::new(),
        fields: Vec::new(),
        links: Vec::new(),
        body: String::new(),
        status: status.to_string(),
        trust,
        stale,
        events: TrustEvents { generated: None, verified: Vec::new() },
        frontmatter_yaml: String::new(),
    }
}

#[test]
fn no_trust_frontmatter_is_all_default() {
    let t = ConceptTrust::of(&with("stable", TrustTier::Unverified, false));
    assert!(t.is_default());
    assert!(t.labels().is_empty());
    let d = ConceptTrust::default();
    assert!(d.is_default());
}

#[test]
fn bare_verified_mapping_counts_as_one_event() {
    let t = ConceptTrust::of(&with("stable", TrustTier::HumanReviewed, false));
    assert_eq!(t.trust.as_deref(), Some("human-reviewed"));
}

#[test]
fn human_verifier_outranks_machine() {
    assert_eq!(ConceptTrust::of(&with("stable", TrustTier::MachineConfirmed, false)).trust.as_deref(), Some("machine-confirmed"));
    assert_eq!(tier_name(TrustTier::HumanReviewed), "human-reviewed");
}

#[test]
fn unknown_status_is_reported_verbatim() {
    let t = ConceptTrust::of(&with("active", TrustTier::Unverified, false));
    assert_eq!(t.status.as_deref(), Some("active"));
}

#[test]
fn stable_status_is_omitted() {
    assert_eq!(ConceptTrust::of(&with("stable", TrustTier::Unverified, false)).status, None);
}

#[test]
fn staleness_compares_against_today() {
    assert_eq!(ConceptTrust::of(&with("stable", TrustTier::Unverified, true)).stale, Some(true));
    assert_eq!(ConceptTrust::of(&with("stable", TrustTier::Unverified, false)).stale, None);
}

#[test]
fn labels_list_non_defaults_in_order() {
    let t = ConceptTrust::of(&with("draft", TrustTier::HumanReviewed, true));
    assert_eq!(t.labels(), vec!["draft".to_string(), "human-reviewed".to_string(), "stale".to_string()]);
}
