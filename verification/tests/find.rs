use okq::cli::FindArgs;
use okq::commands::find::{render_human, run};
use okq::concept::ConceptId;
use okq::error::AppError;
use okq::model::{Bundle, Concept, Field, TrustEvents, TrustTier};
use okq::view::Corpus;

fn id(s: &str) -> ConceptId {
    ConceptId::new(s.split('/').map(|p| p.to_string()).collect()).unwrap()
}

fn field(k: &str, vs: &[&str]) -> Field {
    Field { key: k.to_string(), values: vs.iter().map(|v| v.to_string()).collect(), rendered: vs.join("\n") }
}

fn concept(ident: &str, ty: &str, title: &str, status: &str, tags: &[&str], body: &str) -> Concept {
    Concept {
        id: id(ident),
        path: format!("{ident}.md"),
        type_: Some(ty.to_string()),
        title: Some(title.to_string()),
        tags: tags.iter().map(|t| t.to_string()).collect(),
        fields: vec![field("type", &[ty]), field("title", &[title]), field("status", &[status]), field("tags", tags)],
        links: Vec::new(),
        body: body.to_string(),
        status: status.to_string(),
        trust: TrustTier::Unverified,
        stale: false,
        events: TrustEvents { generated: None, verified: Vec::new() },
        frontmatter_yaml: String::new(),
    }
}

fn fixture() -> Corpus {
    let b = Bundle::new(vec![
        concept("adrs/0001-pick-rust", "adr", "Pick Rust", "accepted", &["rust", "lang"], "# Pick Rust\n\nWe chose Rust for speed.\n"),
        concept("adrs/0002-pick-tantivy", "adr", "Pick Tantivy", "draft", &["rust", "search"], "# Pick Tantivy\n\nTantivy gives us BM25.\n"),
        concept("guides/style", "guide", "Style Guide", "accepted", &["docs"], "# Style Guide\n\nWrite clearly.\n"),
    ])
    .unwrap();
    Corpus::new(b, Vec::new())
}

fn args() -> FindArgs {
    FindArgs {
        tag: Vec::new(),
        type_: Vec::new(),
        where_: Vec::new(),
        match_: None,
        regex: false,
        status: Vec::new(),
        trust: Vec::new(),
        stale: false,
        today: None,
    }
}

fn strings(v: &[&str]) -> Vec<String> {
    v.iter().map(|s| s.to_string()).collect()
}

fn found(a: &FindArgs) -> Vec<String> {
    run(&fixture(), a).ok().unwrap().results.into_iter().map(|r| r.id).collect()
}

#[test]
fn tag_filter() {
    let a = FindArgs { tag: strings(&["search"]), ..args() };
    assert_eq!(found(&a), vec!["adrs/0002-pick-tantivy"]);
}

#[test]
fn repeated_tag_is_and() {
    let a = FindArgs { tag: strings(&["rust", "search"]), ..args() };
    assert_eq!(found(&a), vec!["adrs/0002-pick-tantivy"]);
}

#[test]
fn tags_match_case_insensitively() {
    let a = FindArgs { tag: strings(&["RUST"]), ..args() };
    assert_eq!(found(&a).len(), 2);
}

#[test]
fn repeated_type_is_or() {
    let a = FindArgs { type_: strings(&["adr", "guide"]), ..args() };
    let out = run(&fixture(), &a).ok().unwrap();
    assert_eq!(out.count, 3);
    assert_eq!(out.schema, "okq.find/v1");
}

#[test]
fn cross_flag_is_and() {
    let a = FindArgs { type_: strings(&["adr"]), where_: strings(&["status=accepted"]), ..args() };
    assert_eq!(found(&a), vec!["adrs/0001-pick-rust"]);
}

#[test]
fn where_sequence_membership() {
    let a = FindArgs { where_: strings(&["tags=lang"]), ..args() };
    assert_eq!(found(&a), vec!["adrs/0001-pick-rust"]);
}

#[test]
fn match_is_case_insensitive_substring() {
    let a = FindArgs { match_: Some("bm25".to_string()), ..args() };
    assert_eq!(found(&a), vec!["adrs/0002-pick-tantivy"]);
}

#[test]
fn match_looks_at_the_title_too() {
    let a = FindArgs { match_: Some("style guide".to_string()), ..args() };
    assert_eq!(found(&a), vec!["guides/style"]);
}

#[test]
fn match_regex() {
    let a = FindArgs { match_: Some("BM[0-9]+".to_string()), regex: true, ..args() };
    assert_eq!(found(&a), vec!["adrs/0002-pick-tantivy"]);
}

#[test]
fn no_predicates_lists_all_concepts() {
    assert_eq!(run(&fixture(), &args()).ok().unwrap().count, 3);
}

#[test]
fn empty_result_exits_zero() {
    let a = FindArgs { tag: strings(&["nonexistent"]), ..args() };
    assert_eq!(run(&fixture(), &a).ok().unwrap().count, 0);
}

#[test]
fn malformed_where_exits_2() {
    let a = FindArgs { where_: strings(&["nopredicate"]), ..args() };
    let e = run(&fixture(), &a).err().unwrap();
    assert_eq!(e.exit_code(), 2);
    match e {
        AppError::Usage(m) => assert_eq!(m, "--where must be FIELD=VALUE, got \"nopredicate\""),
        _ => panic!("expected a usage error"),
    }
    let empty = FindArgs { where_: strings(&["=x"]), ..args() };
    match run(&fixture(), &empty).err().unwrap() {
        AppError::Usage(m) => assert_eq!(m, "--where field is empty in \"=x\""),
        _ => panic!("expected a usage error"),
    }
}

#[test]
fn invalid_regex_exits_2() {
    let a = FindArgs { match_: Some("[".to_string()), regex: true, ..args() };
    match run(&fixture(), &a).err().unwrap() {
        AppError::Usage(m) => assert!(m.starts_with("invalid --match regex: ")),
        _ => panic!("expected a usage error"),
    }
}

#[test]
fn status_filter_is_trimmed_and_case_insensitive() {
    let a = FindArgs { status: strings(&[" DRAFT "]), ..args() };
    assert_eq!(found(&a), vec!["adrs/0002-pick-tantivy"]);
}

#[test]
fn trust_filter_names_tiers() {
    let a = FindArgs { trust: strings(&["Unverified"]), ..args() };
    assert_eq!(found(&a).len(), 3);
    let b = FindArgs { trust: strings(&["human-reviewed"]), ..args() };
    assert_eq!(found(&b).len(), 0);
    let bad = FindArgs { trust: strings(&["trusted"]), ..args() };
    match run(&fixture(), &bad).err().unwrap() {
        AppError::Usage(m) => {
            assert_eq!(m, "unknown --trust tier \"trusted\"; known: unverified, machine-confirmed, human-reviewed")
        }
        _ => panic!("expected a usage error"),
    }
}

#[test]
fn hidden_concepts_are_not_found() {
    let b = Bundle::new(vec![
        concept("keep", "doc", "Keep", "stable", &[], "# Keep\n"),
        concept("tests/fixture", "doc", "Fixture", "stable", &[], "# Fixture\n"),
    ])
    .unwrap();
    let c = Corpus::new(b, vec![id("tests/fixture")]);
    let out = run(&c, &args()).ok().unwrap();
    assert_eq!(out.count, 1);
    assert_eq!(out.results[0].id, "keep");
}

#[test]
fn human_listing_shows_type_title_and_non_default_trust() {
    let a = FindArgs { tag: strings(&["search"]), ..args() };
    let out = run(&fixture(), &a).ok().unwrap();
    assert_eq!(render_human(&out, true), "adrs/0002-pick-tantivy.md:1\tadr\tPick Tantivy  [draft]\n");
}
