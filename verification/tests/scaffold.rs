use okq::commands::index::IndexFile;
use okq::commands::listing::{index_dirs, plan_indexes};
use okq::commands::scaffold::{init, init_listings, init_report, new, next_adr_number, readme_update, Action};
use okq::error::AppError;
use okq::model::ConceptRecord;
use okq::templates::{adrs_index, features_index, root_index};
use okq::trust::ConceptTrust;

fn strings(v: &[&str]) -> Vec<String> {
    v.iter().map(|s| s.to_string()).collect()
}

#[test]
fn init_readme_is_idempotent() {
    let (first, created) = readme_update(None, "kb");
    assert_eq!(first.verb, "created");
    let readme = created.unwrap();
    let (second, rewritten) = readme_update(Some(&readme), "kb");
    assert_eq!(second.verb, "updated");
    assert!(rewritten.is_none());
    assert_eq!(readme.matches("<!-- okq:begin -->").count(), 1);
}

#[test]
fn init_injects_into_an_existing_readme_and_then_holds_still() {
    let (_, once) = readme_update(Some("# Project\n\nImportant prose.\n"), "kb");
    let once = once.unwrap();
    assert!(once.contains("Important prose."));
    assert!(once.contains("type: readme"));
    assert!(once.contains("<!-- okq:end -->"));
    let (_, twice) = readme_update(Some(&once), "kb");
    assert!(twice.is_none());
}

#[test]
fn init_seeds_an_adr_only_when_there_is_none() {
    let fresh = init("kb", "2026-01-02", &Vec::new());
    assert_eq!(fresh.len(), 4);
    assert_eq!(fresh[3].path, "adrs/0001-record-architecture-decisions.md");
    let seeded = init("kb", "2026-01-02", &strings(&["0007-x.md"]));
    assert_eq!(seeded.len(), 3);
    assert_eq!(seeded[0].path, "index.md");
}

#[test]
fn new_adr_numbers_after_the_highest() {
    assert_eq!(next_adr_number(&strings(&["0001-a.md", "0003-b.md", "index.md"])), 4);
    let (folder, file, content) = new("adr", "Adopt Tantivy", "2026-01-02", &strings(&["0001-a.md"])).unwrap();
    assert_eq!(folder, "adrs");
    assert_eq!(file, "0002-adopt-tantivy.md");
    assert!(content.contains("title: Adopt Tantivy"));
    assert!(content.contains("type: adr"));
    assert!(content.contains("\n# Adopt Tantivy\n"));
    assert!(content.contains("status: draft"));
    assert!(content.contains("generated: { by: okq/"));
    assert!(!content.contains("timestamp:"));
}

#[test]
fn new_feature_slugifies() {
    let (folder, file, content) = new("feature", "Saved Searches", "2026-01-02", &Vec::new()).unwrap();
    assert_eq!((folder.as_str(), file.as_str()), ("features", "saved-searches.md"));
    assert!(content.contains("status: draft"));
    assert!(!content.contains("timestamp:"));
}

#[test]
fn new_unknown_type_is_a_usage_error() {
    match new("runbook", "X", "2026-01-02", &Vec::new()) {
        Err(AppError::Usage(m)) => assert_eq!(m, "unknown type \"runbook\"; known types: adr, feature"),
        _ => panic!("expected a usage error"),
    }
}

fn record(path: &str, type_: &str, title: &str) -> ConceptRecord {
    ConceptRecord {
        id: path.trim_end_matches(".md").to_string(),
        type_: Some(type_.to_string()),
        title: title.to_string(),
        path: path.to_string(),
        line: 1,
        tags: Vec::new(),
        trust: ConceptTrust::default(),
    }
}

/// The concepts of a freshly scaffolded bundle named `kb`.
fn seeded_records() -> Vec<ConceptRecord> {
    vec![record("adrs/0001-record-architecture-decisions.md", "adr", "Record architecture decisions")]
}

/// The index files of that bundle as `init`'s templates left them.
fn template_indexes(records: &Vec<ConceptRecord>) -> Vec<(String, Option<String>)> {
    let paths: Vec<String> = records.iter().map(|r| r.path.clone()).collect();
    index_dirs(&paths)
        .into_iter()
        .map(|d| {
            let text = match d.as_str() {
                "" => root_index("kb"),
                "adrs" => adrs_index(),
                _ => features_index(),
            };
            (d, Some(text))
        })
        .collect()
}

fn adrs_listing(writes: &[(String, String)]) -> String {
    writes.iter().find(|(p, _)| p == "adrs/index.md").map(|(_, t)| t.clone()).expect("adrs/index.md written")
}

#[test]
fn init_listings_include_the_seed_adr() {
    let records = seeded_records();
    let created = vec![Action { path: "adrs/index.md".to_string(), verb: "created".to_string() }];
    let (report, plan) = init_listings(created, &records, &template_indexes(&records), "kb");
    assert_eq!(report.iter().filter(|a| a.path == "adrs/index.md").count(), 1);
    let index = adrs_listing(&plan.writes);
    assert!(index.contains("<!-- okq:index:begin -->"), "no listing block");
    assert!(index.contains("0001-record-architecture-decisions.md"), "seed ADR missing:\n{index}");
}

#[test]
fn init_stays_idempotent_with_listing_generation() {
    let records = seeded_records();
    let current = template_indexes(&records);
    let first = plan_indexes(&records, &current, "kb", false);
    let written: Vec<(String, Option<String>)> = current
        .iter()
        .map(|(d, old)| {
            let path = if d.is_empty() { "index.md".to_string() } else { format!("{d}/index.md") };
            let text = first.writes.iter().find(|(p, _)| *p == path).map(|(_, t)| t.clone());
            (d.clone(), text.or_else(|| old.clone()))
        })
        .collect();
    let second = plan_indexes(&records, &written, "kb", false);
    assert!(second.writes.is_empty(), "a second pass rewrote {:?}", second.writes);
    assert!(second.files.iter().all(|f| f.verb == "unchanged"));
    let text = adrs_listing(&first.writes);
    assert_eq!(text.matches("<!-- okq:index:begin -->").count(), 1);
}

#[test]
fn init_reports_each_path_once() {
    let actions = vec![
        Action { verb: "created".to_string(), path: "index.md".to_string() },
        Action { verb: "created".to_string(), path: "adrs/index.md".to_string() },
        Action { verb: "created".to_string(), path: "README.md".to_string() },
    ];
    let files = vec![
        IndexFile { path: "index.md".to_string(), verb: "updated".to_string(), concepts: 1 },
        IndexFile { path: "adrs/index.md".to_string(), verb: "updated".to_string(), concepts: 1 },
        IndexFile { path: "features/index.md".to_string(), verb: "unchanged".to_string(), concepts: 0 },
        IndexFile { path: "guides/index.md".to_string(), verb: "created".to_string(), concepts: 2 },
    ];
    let report = init_report(actions, &files);
    let mut paths: Vec<&str> = report.iter().map(|a| a.path.as_str()).collect();
    let n = paths.len();
    paths.sort_unstable();
    paths.dedup();
    assert_eq!(paths.len(), n, "duplicate paths in the report");
    assert_eq!(n, 4);
    assert!(paths.contains(&"guides/index.md"));
    assert!(!paths.contains(&"features/index.md"));
}
