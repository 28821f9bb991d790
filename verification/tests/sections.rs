use okq::sections::{body_start_line, parse_sections, slugify};

#[test]
fn slugify_basic() {
    assert_eq!(slugify("Open Questions"), "open-questions");
    assert_eq!(slugify("  Schema!! "), "schema");
    assert_eq!(slugify("ADR-0002 — Stack"), "adr-0002-stack");
}

#[test]
fn body_start_line_with_frontmatter() {
    let raw = "---\ntype: x\ntitle: y\n---\n\n# Heading\nbody\n";
    assert_eq!(body_start_line(raw), 6);
}

#[test]
fn body_start_line_no_frontmatter() {
    assert_eq!(body_start_line("# Heading\nbody\n"), 1);
}

#[test]
fn sections_split_and_lines() {
    let body = "# Title\n\nintro\n\n## Schema\n\ncols\n\n## Notes\n\nmore\n";
    let secs = parse_sections(body, 6);
    assert_eq!(secs.len(), 3);
    assert_eq!(secs[0].heading, "Title");
    assert_eq!(secs[0].level, 1);
    assert_eq!(secs[0].line, 6);
    assert_eq!(secs[1].heading, "Schema");
    assert_eq!(secs[1].slug, "schema");
    assert_eq!(secs[1].level, 2);
    assert_eq!(secs[1].line, 10);
    assert!(secs[1].body.contains("cols"));
    assert!(!secs[1].body.contains("Notes"));
}

#[test]
fn fenced_code_headings_are_not_sections() {
    let body = "# Real\n\n```\n# not a heading\n```\n";
    let secs = parse_sections(body, 1);
    assert_eq!(secs.len(), 1);
    assert_eq!(secs[0].heading, "Real");
}

#[test]
fn a_level_one_section_runs_to_the_end() {
    let secs = parse_sections("# A\n\n## B\n\ntext\n", 1);
    assert_eq!(secs.len(), 2);
    assert!(secs[0].body.contains("## B"));
    assert_eq!(secs[1].body, "## B\n\ntext");
}

#[test]
fn sections_come_in_document_order() {
    let body = "# One\ntext\n## Two\n\n```\n# not a heading\n```\n# Three\n";
    let secs = parse_sections(body, 5);
    let lines: Vec<usize> = secs.iter().map(|s| s.line).collect();
    assert_eq!(lines, vec![5, 7, 12]);
    assert!(lines.windows(2).all(|w| w[0] < w[1]));
}

#[test]
fn a_slug_is_its_own_slug() {
    for heading in ["Open Questions", "  Schema!! ", "ADR-0002 — Stack", "a--b__c", "--x--"] {
        let once = slugify(heading);
        assert_eq!(slugify(&once), once);
        assert!(!once.starts_with('-') && !once.ends_with('-') && !once.contains("--"));
    }
}
