use okq::cli::StatsArgs;
use okq::commands::stats::{distribution, render_human, run, tally};
use okq::concept::ConceptId;
use okq::model::{Bundle, Concept, Field, Link, TrustEvents, TrustTier};
use okq::view::Corpus;

fn id(s: &str) -> ConceptId {
    ConceptId::new(s.split('/').map(|p| p.to_string()).collect()).unwrap()
}

fn concept(ident: &str, ty: Option<&str>, tags: &[&str], related: &[&str], links: &[(&str, &str)]) -> Concept {
    let mut fields = Vec::new();
    if !related.is_empty() {
        fields.push(Field {
            key: "related".to_string(),
            values: related.iter().map(|v| v.to_string()).collect(),
            rendered: String::new(),
        });
    }
    Concept {
        id: id(ident),
        path: format!("{ident}.md"),
        type_: ty.map(|t| t.to_string()),
        title: Some(ident.to_uppercase()),
        tags: tags.iter().map(|t| t.to_string()).collect(),
        fields,
        links: links.iter().map(|(raw, t)| Link { raw: raw.to_string(), target: id(t) }).collect(),
        body: String::new(),
        status: "stable".to_string(),
        trust: TrustTier::Unverified,
        stale: false,
        events: TrustEvents { generated: None, verified: Vec::new() },
        frontmatter_yaml: String::new(),
    }
}

// a --related--> b, a --link--> c, c --link--> nope (dead).
fn fixture() -> Corpus {
    let b = Bundle::new(vec![
        concept("a", Some("adr"), &["x", "y"], &["b"], &[("c.md", "c")]),
        concept("b", Some("adr"), &["x"], &[], &[]),
        concept("c", Some("guide"), &[], &[], &[("nope.md", "nope")]),
        concept("orphan", Some("note"), &[], &[], &[]),
    ])
    .unwrap();
    Corpus::new(b, Vec::new())
}

fn pairs(v: &[(String, usize)]) -> Vec<(&str, usize)> {
    v.iter().map(|(k, n)| (k.as_str(), *n)).collect()
}

#[test]
fn totals_and_counts() {
    let out = run(&fixture(), &StatsArgs { top: 10 }, 0);
    assert_eq!(out.schema, "okq.stats/v1");
    assert_eq!(out.concepts, 4);
    assert_eq!(out.edges, 2);
    assert_eq!(out.dead_links, 1);
    assert_eq!(out.phantoms, 0);
    assert_eq!(out.parse_errors, 0);
    assert_eq!(out.orphans, 2);
}

#[test]
fn distributions() {
    let out = run(&fixture(), &StatsArgs { top: 10 }, 0);
    assert_eq!(pairs(&out.types), vec![("adr", 2), ("guide", 1), ("note", 1)]);
    assert_eq!(pairs(&out.tags), vec![("x", 2), ("y", 1)]);
    assert_eq!(pairs(&out.edge_types), vec![("link", 1), ("related", 1)]);
}

#[test]
fn hubs_are_linked_to_only() {
    let out = run(&fixture(), &StatsArgs { top: 10 }, 0);
    let hubs: Vec<&str> = out.hubs.iter().map(|h| h.id.as_str()).collect();
    assert!(hubs.contains(&"b"));
    assert!(hubs.contains(&"c"));
    assert!(!hubs.contains(&"a"));
    assert!(!hubs.contains(&"orphan"));
    assert_eq!(out.hubs[0].in_degree, 1);
    assert_eq!(hubs, vec!["b", "c"]);
}

#[test]
fn untyped_concepts_bucket() {
    let b = Bundle::new(vec![concept("plain", None, &[], &[], &[])]).unwrap();
    let out = run(&Corpus::new(b, Vec::new()), &StatsArgs { top: 10 }, 0);
    assert_eq!(pairs(&out.types), vec![("(untyped)", 1)]);
}

#[test]
fn stats_exits_zero_even_when_empty() {
    let out = run(&Corpus::new(Bundle::new(Vec::new()).unwrap(), Vec::new()), &StatsArgs { top: 10 }, 0);
    assert_eq!(out.concepts, 0);
    assert_eq!(out.edges, 0);
}

#[test]
fn top_caps_hubs() {
    let out = run(&fixture(), &StatsArgs { top: 1 }, 0);
    assert_eq!(out.hubs.len(), 1);
    assert_eq!(out.hubs[0].id, "b");
}

#[test]
fn stats_counts_only_visible_concepts() {
    let b = Bundle::new(vec![concept("adrs/one", Some("adr"), &[], &[], &[]), concept("notes/n", Some("note"), &[], &[], &[])]).unwrap();
    let out = run(&Corpus::new(b, vec![id("notes/n")]), &StatsArgs { top: 10 }, 0);
    assert_eq!(out.concepts, 1);
}

#[test]
fn tally_counts_each_value_in_key_order() {
    let items: Vec<String> = ["b", "a", "b", "c", "b"].iter().map(|s| s.to_string()).collect();
    assert_eq!(pairs(&tally(&items)), vec![("a", 1), ("b", 3), ("c", 1)]);
}

#[test]
fn distribution_orders_by_count_and_caps() {
    let map = vec![("a".to_string(), 1), ("b".to_string(), 3), ("c".to_string(), 3)];
    assert_eq!(distribution(&map, 0), "b 3, c 3, a 1");
    assert_eq!(distribution(&map, 2), "b 3, c 3, … (3 total)");
    assert_eq!(distribution(&Vec::new(), 0), "");
}

#[test]
fn human_summary() {
    let out = run(&fixture(), &StatsArgs { top: 10 }, 0);
    let text = render_human(&out, "0.50", 10, true);
    assert!(text.starts_with("Concepts: 4    Edges: 2    Density: 0.50 edges/concept\n"));
    assert!(text.contains("Orphans: 2     Dead links: 1    Parse errors: 0\n\n"));
    assert!(text.contains("Types:  adr 2, guide 1, note 1\n"));
    assert!(text.contains("\nHubs (most linked-to):\n    1  b.md  B\n"));
}
