use okq::cli::GetArgs;
use okq::commands::get::{normalize_key, render_human, run, FrontmatterPick};
use okq::concept::ConceptId;
use okq::error::AppError;
use okq::model::{Bundle, Concept, Field, TrustEvent, TrustEvents, TrustTier};
use okq::view::Corpus;

fn id(s: &str) -> ConceptId {
    ConceptId::new(s.split('/').map(|p| p.to_string()).collect()).unwrap()
}

fn field(k: &str, vs: &[&str], rendered: &str) -> Field {
    Field { key: k.to_string(), values: vs.iter().map(|v| v.to_string()).collect(), rendered: rendered.to_string() }
}

const USERS_BODY: &str = "# Users\n\nThe users table.\n\n## Schema\n\n- id: int\n- email: text\n\n## Notes\n\nPII lives here.\n";
const USERS_RAW: &str = "---\ntype: table\ntitle: Users\ndescription: The users table.\ntags: [pii, core]\n---\n\n# Users\n\nThe users table.\n\n## Schema\n\n- id: int\n- email: text\n\n## Notes\n\nPII lives here.\n";
const ORDERS_BODY: &str = "# Orders\n\n## Notes\n\nfirst\n\n## Notes\n\nsecond\n";

fn concept(ident: &str, title: Option<&str>, fields: Vec<Field>, yaml: &str, body: &str) -> Concept {
    Concept {
        id: id(ident),
        path: format!("{ident}.md"),
        type_: Some("table".to_string()),
        title: title.map(|t| t.to_string()),
        tags: Vec::new(),
        fields,
        links: Vec::new(),
        body: body.to_string(),
        status: "stable".to_string(),
        trust: TrustTier::Unverified,
        stale: false,
        events: TrustEvents { generated: None, verified: Vec::new() },
        frontmatter_yaml: yaml.to_string(),
    }
}

fn fixture() -> (Corpus, Vec<Result<String, String>>) {
    let users = concept(
        "tables/users",
        Some("Users"),
        vec![
            field("type", &["table"], "table"),
            field("title", &["Users"], "Users"),
            field("description", &["The users table."], "The users table."),
            field("tags", &["pii", "core"], "- pii\n- core"),
        ],
        "type: table\ntitle: Users\ndescription: The users table.\ntags:\n- pii\n- core",
        USERS_BODY,
    );
    let orders = concept(
        "tables/orders",
        Some("Orders"),
        vec![field("type", &["table"], "table"), field("title", &["Orders"], "Orders")],
        "type: table\ntitle: Orders",
        ORDERS_BODY,
    );
    let texts = vec![
        Ok(USERS_RAW.to_string()),
        Ok(format!("---\ntype: table\ntitle: Orders\n---\n\n{ORDERS_BODY}")),
    ];
    (Corpus::new(Bundle::new(vec![users, orders]).unwrap(), Vec::new()), texts)
}

fn args(concept: &str) -> GetArgs {
    GetArgs { concept: concept.to_string(), frontmatter: false, body: false, section: None, field: None }
}

fn human(a: &GetArgs) -> String {
    let (c, t) = fixture();
    render_human(&run(&c, a, &t).ok().unwrap(), true)
}

#[test]
fn frontmatter_only_omits_body() {
    let out = human(&GetArgs { frontmatter: true, ..args("tables/users") });
    assert!(out.contains("type: table"), "should show frontmatter");
    assert!(!out.contains("## Schema"), "should not show body");
}

#[test]
fn body_only_omits_frontmatter() {
    let out = human(&GetArgs { body: true, ..args("tables/users") });
    assert!(out.contains("## Schema"), "should show body");
    assert!(!out.contains("type: table"), "should not show frontmatter");
}

#[test]
fn default_shows_header_frontmatter_and_body() {
    let out = human(&args("tables/users"));
    assert!(out.starts_with("tables/users.md:1\n---\ntype: table\n"));
    assert!(out.ends_with("PII lives here.\n"));
}

#[test]
fn section_by_slug() {
    let (c, t) = fixture();
    let got = run(&c, &GetArgs { section: Some("schema".to_string()), ..args("tables/users") }, &t).ok().unwrap();
    let secs = got.output.sections.unwrap();
    assert_eq!(secs.len(), 1);
    assert!(secs[0].body.contains("email: text"));
    assert_eq!(secs[0].line, 12);
    assert!(got.output.body.is_none());
}

#[test]
fn md_path_form_resolves() {
    let (c, t) = fixture();
    assert!(run(&c, &args("tables/users.md"), &t).is_ok());
}

#[test]
fn bare_name_resolves_to_unique_concept() {
    let out = human(&GetArgs { frontmatter: true, ..args("users") });
    assert!(out.contains("title: Users"));
}

#[test]
fn partial_does_not_match_arbitrary_substring() {
    let (c, t) = fixture();
    assert_eq!(run(&c, &args("ser"), &t).err().unwrap().exit_code(), 4);
}

#[test]
fn ambiguous_partial_exits_4() {
    let a = concept("a/notes", Some("A Notes"), Vec::new(), "", "# Notes\n");
    let b = concept("b/notes", Some("B Notes"), Vec::new(), "", "# Notes\n");
    let c = Corpus::new(Bundle::new(vec![a, b]).unwrap(), Vec::new());
    match run(&c, &args("notes"), &Vec::new()).err().unwrap() {
        AppError::ConceptAmbiguous { candidates, .. } => assert_eq!(candidates, vec!["a/notes", "b/notes"]),
        _ => panic!("expected an ambiguity"),
    }
}

#[test]
fn missing_concept_exits_4() {
    let (c, t) = fixture();
    assert_eq!(run(&c, &args("tables/missing"), &t).err().unwrap().exit_code(), 4);
}

#[test]
fn missing_section_exits_5() {
    let (c, t) = fixture();
    let e = run(&c, &GetArgs { section: Some("Nonexistent".to_string()), ..args("tables/users") }, &t).err().unwrap();
    assert_eq!(e.exit_code(), 5);
}

#[test]
fn ambiguous_section_exits_5() {
    let (c, t) = fixture();
    let e = run(&c, &GetArgs { section: Some("Notes".to_string()), ..args("tables/orders") }, &t).err().unwrap();
    assert_eq!(e.exit_code(), 5);
    match e {
        AppError::SectionAmbiguous { candidates, .. } => {
            assert_eq!(candidates, vec!["Notes (line 8)", "Notes (line 12)"])
        }
        _ => panic!("expected an ambiguity"),
    }
}

#[test]
fn unreadable_file_for_section_is_an_io_error() {
    let (c, _) = fixture();
    let texts = vec![Err("permission denied".to_string()), Ok(String::new())];
    let e = run(&c, &GetArgs { section: Some("schema".to_string()), ..args("tables/users") }, &texts).err().unwrap();
    assert_eq!(e.exit_code(), 1);
}

#[test]
fn field_selects_one_key_leniently() {
    let (c, t) = fixture();
    let got = run(&c, &GetArgs { field: Some("TAGS".to_string()), ..args("tables/users") }, &t).ok().unwrap();
    match &got.output.frontmatter {
        Some(FrontmatterPick::Field(k, i)) => {
            assert_eq!(k, "tags");
            assert_eq!(*i, 3);
        }
        _ => panic!("expected a field pick"),
    }
    assert_eq!(got.field_yaml.as_deref(), Some("- pii\n- core"));
    assert!(got.frontmatter_yaml.is_none());
    assert_eq!(render_human(&got, true), "- pii\n- core\n");
}

#[test]
fn unknown_field_exits_5() {
    let (c, t) = fixture();
    let e = run(&c, &GetArgs { field: Some("owner".to_string()), ..args("tables/users") }, &t).err().unwrap();
    assert_eq!(e.exit_code(), 5);
}

#[test]
fn normalized_keys_fold_case_and_underscores() {
    assert_eq!(normalize_key("Depends_On"), "depends-on");
    assert_eq!(normalize_key("depends-on"), "depends-on");
}

#[test]
fn no_frontmatter_infers_title_from_filename() {
    let plain = concept("plain-note", None, Vec::new(), "{}", "# Something else\n");
    let c = Corpus::new(Bundle::new(vec![plain]).unwrap(), Vec::new());
    let got = run(&c, &args("plain-note"), &Vec::new()).ok().unwrap();
    assert_eq!(got.output.title, "plain-note");
    assert!(render_human(&got, true).contains("{}"));
}

#[test]
fn provenance_rows_are_aligned() {
    let mut c0 = concept("t", Some("T"), Vec::new(), "", "# T\n");
    c0.trust = TrustTier::HumanReviewed;
    c0.events = TrustEvents {
        generated: Some(TrustEvent { by: Some("okq/0.7.0".to_string()), at: Some("2026-06-30T14:00:00Z".to_string()) }),
        verified: vec![TrustEvent { by: Some("human:mike".to_string()), at: None }, TrustEvent { by: Some(" ".to_string()), at: Some("2026-07-01".to_string()) }],
    };
    let c = Corpus::new(Bundle::new(vec![c0]).unwrap(), Vec::new());
    let got = run(&c, &GetArgs { body: true, ..args("t") }, &Vec::new()).ok().unwrap();
    let out = render_human(&got, true);
    assert!(out.starts_with(
        "t.md:1  [human-reviewed]\ngenerated  okq/0.7.0   2026-06-30T14:00:00Z\nverified   human:mike\nverified   -           2026-07-01\n"
    ));
}
