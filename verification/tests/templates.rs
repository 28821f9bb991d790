use okq::templates::{base_readme, civil_from_days, ensure_type_readme, inject_okq_block, today_iso, README_BEGIN, README_END};

#[test]
fn today_is_iso_shaped() {
    let d = today_iso();
    assert_eq!(d.len(), 10);
    assert_eq!(d.as_bytes()[4], b'-');
    assert_eq!(d.as_bytes()[7], b'-');
}

#[test]
fn civil_epoch_is_1970() {
    assert_eq!(civil_from_days(0), (1970, 1, 1));
    assert_eq!(civil_from_days(31), (1970, 2, 1));
}

#[test]
fn civil_leap_day_and_before_epoch() {
    assert_eq!(civil_from_days(11016), (2000, 2, 29));
    assert_eq!(civil_from_days(-1), (1969, 12, 31));
}

#[test]
fn ensure_type_adds_when_missing() {
    assert!(ensure_type_readme("# Hi\n").starts_with("---\ntype: readme\n---"));
    assert!(ensure_type_readme("---\ntitle: X\n---\n\nBody\n").contains("type: readme"));
    let typed = "---\ntype: readme\n---\n\nBody\n";
    assert_eq!(ensure_type_readme(typed), typed);
}

#[test]
fn templates_inject_replaces_between_markers() {
    let existing = format!("# Doc\n\n{README_BEGIN}\nold\n{README_END}\n\n## Keep me\n");
    let out = inject_okq_block(&existing);
    assert!(out.contains("## Keep me"));
    assert!(!out.contains("old"));
    assert_eq!(out.matches(README_BEGIN).count(), 1);
}

#[test]
fn injecting_the_block_again_changes_nothing() {
    let once = inject_okq_block("# Doc\n\nprose\n");
    assert_eq!(inject_okq_block(&once), once);
}

#[test]
fn ensuring_the_type_twice_is_ensuring_it_once() {
    for text in ["# Plain\n", "---\ntitle: x\n---\nbody\n", "---\ntype: doc\n---\n", "---\nno end"] {
        let once = ensure_type_readme(text);
        assert_eq!(ensure_type_readme(&once), once);
    }
}

#[test]
fn a_fresh_readme_survives_init_unchanged() {
    let base = base_readme("kb");
    assert_eq!(inject_okq_block(&ensure_type_readme(&base)), base);
}
