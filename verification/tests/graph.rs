use okq::cli::{BacklinksArgs, DeadlinksArgs, DirectionArg, NeighborsArgs, OrphansArgs, PathArgs};
use okq::commands::graph::{backlinks, deadlinks, direction, neighbors, orphans, path, render_deadlinks, render_nodes, render_path};
use okq::concept::ConceptId;
use okq::error::{check_code, exit};
use okq::graph::{Direction, EdgeFilter, Graph};
use okq::model::{Bundle, Concept, Field, Link, TrustEvents, TrustTier};
use okq::view::Corpus;

fn id(s: &str) -> ConceptId {
    ConceptId::new(s.split('/').map(|p| p.to_string()).collect()).unwrap()
}

fn concept(ident: &str, title: &str, fields: &[(&str, &[&str])], links: &[(&str, &str)], body: &str) -> Concept {
    Concept {
        id: id(ident),
        path: format!("{ident}.md"),
        type_: Some("doc".to_string()),
        title: Some(title.to_string()),
        tags: Vec::new(),
        fields: fields
            .iter()
            .map(|(k, vs)| Field {
                key: k.to_string(),
                values: vs.iter().map(|v| v.to_string()).collect(),
                rendered: vs.join("\n"),
            })
            .collect(),
        links: links.iter().map(|(raw, t)| Link { raw: raw.to_string(), target: id(t) }).collect(),
        body: body.to_string(),
        status: "stable".to_string(),
        trust: TrustTier::Unverified,
        stale: false,
        events: TrustEvents { generated: None, verified: Vec::new() },
        frontmatter_yaml: format!("type: doc\ntitle: {title}"),
    }
}

fn corpus(cs: Vec<Concept>) -> Corpus {
    Corpus::new(Bundle::new(cs).unwrap(), Vec::new())
}

// a --related--> b, a --link--> c, c --supersedes--> a, c --link--> nope (dead).
fn fixture() -> Corpus {
    corpus(vec![
        concept("a", "A", &[("type", &["doc"]), ("related", &["b"])], &[("c.md", "c")], "# A\n\nLinks to [C](c.md) inline.\n"),
        concept("b", "B", &[], &[], "# B\n\nLeaf.\n"),
        concept("c", "C", &[("supersedes", &["a"])], &[("nope.md", "nope")], "# C\n\nBroken [link](nope.md).\n"),
        concept("orphan", "Orphan", &[], &[], "# Orphan\n\nNothing links here.\n"),
    ])
}

fn nargs(c: &str, depth: usize, dir: DirectionArg, edge: &[&str]) -> NeighborsArgs {
    NeighborsArgs { concept: c.to_string(), depth, direction: dir, edge: edge.iter().map(|e| e.to_string()).collect() }
}

fn ids_of(out: &okq::commands::graph::GraphListOutput) -> Vec<String> {
    out.results.iter().map(|r| r.concept.id.clone()).collect()
}

#[test]
fn neighbors_both_directions() {
    let out = neighbors(&fixture(), &nargs("a", 1, DirectionArg::Both, &[])).ok().unwrap();
    assert_eq!(out.schema, "okq.neighbors/v1");
    assert_eq!(ids_of(&out), vec!["b", "c"]);
    assert_eq!(out.count, 2);
}

#[test]
fn neighbors_direction_in() {
    let out = neighbors(&fixture(), &nargs("a", 1, DirectionArg::In, &[])).ok().unwrap();
    assert_eq!(ids_of(&out), vec!["c"]);
    assert_eq!(out.results[0].edge, "supersedes");
    assert_eq!(out.results[0].direction, "in");
}

#[test]
fn neighbors_edge_filter() {
    let out = neighbors(&fixture(), &nargs("a", 1, DirectionArg::Both, &["related"])).ok().unwrap();
    assert_eq!(ids_of(&out), vec!["b"]);
}

#[test]
fn neighbors_depth_two_keeps_first_hop_edge() {
    let out = neighbors(&fixture(), &nargs("c", 2, DirectionArg::Both, &[])).ok().unwrap();
    let b = out.results.iter().find(|r| r.concept.id == "b").unwrap();
    assert_eq!(b.distance, 2);
    assert_eq!(b.edge, "supersedes");
}

#[test]
fn backlinks_inbound_only() {
    let out = backlinks(&fixture(), &BacklinksArgs { concept: "a".to_string(), edge: Vec::new() }).ok().unwrap();
    assert_eq!(out.schema, "okq.backlinks/v1");
    assert_eq!(ids_of(&out), vec!["c"]);
}

fn pargs(from: &str, to: &str, undirected: bool) -> PathArgs {
    PathArgs { from: from.to_string(), to: to.to_string(), undirected, edge: Vec::new() }
}

#[test]
fn path_directed() {
    let out = path(&fixture(), &pargs("c", "b", false)).ok().unwrap();
    assert!(out.found);
    assert_eq!(out.length, 2);
    let nodes: Vec<_> = out.path.iter().map(|n| n.concept.id.clone()).collect();
    assert_eq!(nodes, vec!["c", "a", "b"]);
    assert_eq!(out.path[0].edge, None);
    assert_eq!(out.path[1].edge.as_deref(), Some("supersedes"));
    assert_eq!(out.path[2].edge.as_deref(), Some("related"));
}

#[test]
fn path_respects_direction() {
    let out = path(&fixture(), &pargs("b", "a", false)).ok().unwrap();
    assert!(!out.found);
    assert_eq!(out.length, 0);
    let out2 = path(&fixture(), &pargs("b", "a", true)).ok().unwrap();
    assert!(out2.found);
}

#[test]
fn path_to_itself_is_one_node() {
    let out = path(&fixture(), &pargs("a", "a", false)).ok().unwrap();
    assert!(out.found);
    assert_eq!(out.length, 0);
    assert_eq!(out.path.len(), 1);
}

#[test]
fn path_missing_endpoint_exits_4() {
    let err = path(&fixture(), &pargs("a", "nope", false)).err().unwrap();
    assert_eq!(err.exit_code(), 4);
}

#[test]
fn orphans_lists_unreferenced() {
    let out = orphans(&fixture(), &OrphansArgs { check: false });
    assert_eq!(out.schema, "okq.orphans/v1");
    let ids: Vec<_> = out.results.iter().map(|r| r.id.clone()).collect();
    assert_eq!(ids, vec!["orphan"]);
}

#[test]
fn orphans_check_exits_3_when_found() {
    let out = orphans(&fixture(), &OrphansArgs { check: true });
    assert_eq!(check_code(true, out.count), exit::CHECK_FAILED);
    assert_eq!(check_code(false, out.count), exit::SUCCESS);
}

fn dargs(phantoms: bool, phantoms_only: bool) -> DeadlinksArgs {
    DeadlinksArgs { check: false, phantoms, phantoms_only }
}

#[test]
fn deadlinks_reports_broken_target() {
    let texts = vec![
        Ok::<String, String>(String::new()),
        Ok(String::new()),
        Ok("---\ntype: doc\n---\n\n# C\n\nBroken [link](nope.md).\n".to_string()),
        Ok(String::new()),
    ];
    let _ = &texts;
    let texts: Vec<Option<String>> = texts.into_iter().map(|t| t.ok()).collect();
    let out = deadlinks(&fixture(), &dargs(false, false), &texts);
    assert_eq!(out.schema, "okq.deadlinks/v1");
    assert_eq!(out.count, 1);
    assert_eq!(out.results[0].source_id, "c");
    assert_eq!(out.results[0].raw, "nope.md");
    assert_eq!(out.results[0].edge, "link");
    assert_eq!(out.results[0].kind, "broken");
    assert_eq!(out.results[0].source_path, "c.md");
    assert_eq!(out.results[0].line, 7);
}

#[test]
fn deadlinks_check_exits_3() {
    let out = deadlinks(&fixture(), &dargs(false, false), &Vec::new());
    assert_eq!(out.results[0].line, 1);
    assert_eq!(check_code(true, out.count), 3);
}

#[test]
fn neighbors_missing_concept_exits_4() {
    let err = neighbors(&fixture(), &nargs("ghost", 1, DirectionArg::Both, &[])).err().unwrap();
    assert_eq!(err.exit_code(), 4);
}

#[test]
fn graph_commands_accept_partial_names() {
    let c = corpus(vec![
        concept("adrs/one", "One", &[("related", &["two"])], &[], "# One\n"),
        concept("adrs/two", "Two", &[], &[], "# Two\n"),
    ]);
    let out = neighbors(&c, &nargs("one", 1, DirectionArg::Both, &[])).ok().unwrap();
    assert_eq!(ids_of(&out), vec!["adrs/two"]);
    assert_eq!(out.concept, "adrs/one");
}

fn wiki_fixture() -> Corpus {
    corpus(vec![
        concept("Leaf", "Leaf", &[], &[], "# Leaf\n\n## Intro\n\nLeaf body.\n"),
        concept(
            "hub",
            "Hub",
            &[],
            &[],
            "# Hub\n\nBare [[Leaf]], aliased [[Leaf|the leaf]], heading [[Leaf#Intro]],\n\
             path [[notes/Deep]], embed ![[Leaf]], a phantom [[Missing]],\n\
             and a broken path [[notes/Gone]].\n",
        ),
        concept("notes/Deep", "Deep", &[], &[], "# Deep\n\nNested note.\n"),
    ])
}

#[test]
fn wikilinks_become_edges() {
    let out = neighbors(&wiki_fixture(), &nargs("hub", 1, DirectionArg::Out, &[])).ok().unwrap();
    assert_eq!(ids_of(&out), vec!["Leaf", "notes/Deep"]);
    assert!(out.results.iter().all(|r| r.edge == "wikilink"));
}

#[test]
fn wikilinks_edge_filter_and_backlinks() {
    let out = neighbors(&wiki_fixture(), &nargs("hub", 1, DirectionArg::Both, &["wikilink"])).ok().unwrap();
    assert_eq!(ids_of(&out), vec!["Leaf", "notes/Deep"]);
    let none = neighbors(&wiki_fixture(), &nargs("hub", 1, DirectionArg::Both, &["made-up"])).ok().unwrap();
    assert_eq!(none.count, 0);
    let b = backlinks(&wiki_fixture(), &BacklinksArgs { concept: "Leaf".to_string(), edge: Vec::new() }).ok().unwrap();
    assert_eq!(ids_of(&b), vec!["hub"]);
    assert_eq!(b.results[0].edge, "wikilink");
}

#[test]
fn dead_wikilink_reported() {
    let out = deadlinks(&wiki_fixture(), &dargs(false, false), &Vec::new());
    assert_eq!(out.count, 1);
    assert_eq!(out.results[0].source_id, "hub");
    assert_eq!(out.results[0].raw, "notes/Gone");
    assert_eq!(out.results[0].edge, "wikilink");
    assert_eq!(out.results[0].kind, "broken");

    let all = deadlinks(&wiki_fixture(), &dargs(true, false), &Vec::new());
    assert_eq!(all.count, 2);
    let phantom = all.results.iter().find(|r| r.raw == "Missing").unwrap();
    assert_eq!(phantom.kind, "phantom");
    assert_eq!(phantom.source_id, "hub");

    let only = deadlinks(&wiki_fixture(), &dargs(false, true), &Vec::new());
    assert_eq!(only.count, 1);
    assert_eq!(only.results[0].raw, "Missing");
    assert_eq!(only.results[0].kind, "phantom");
}

#[test]
fn wikilink_resolves_case_insensitively() {
    let c = corpus(vec![
        concept("a", "A", &[], &[], "# A\n\nlink [[leaf]].\n"),
        concept("Leaf", "Leaf", &[], &[], "# Leaf\n"),
    ]);
    let out = neighbors(&c, &nargs("a", 1, DirectionArg::Out, &[])).ok().unwrap();
    assert_eq!(ids_of(&out), vec!["Leaf"]);
}

fn alias_fixture() -> Corpus {
    corpus(vec![
        concept("daily", "Daily", &[], &[], "# Daily\n\nMet [[Hooman]] and [[HB]] today.\n"),
        concept("people/Hooman Bahador", "Hooman Bahador", &[("aliases", &["Hooman", "HB"])], &[], "# Hooman Bahador\n"),
    ])
}

#[test]
fn wikilink_to_alias_forms_edge_not_phantom() {
    let out = neighbors(&alias_fixture(), &nargs("daily", 1, DirectionArg::Out, &[])).ok().unwrap();
    assert_eq!(ids_of(&out), vec!["people/Hooman Bahador"]);
    assert_eq!(out.results[0].edge, "wikilink");
    let d = deadlinks(&alias_fixture(), &dargs(true, false), &Vec::new());
    assert_eq!(d.count, 0);
}

#[test]
fn hidden_concepts_are_not_nodes_and_links_into_them_are_dead() {
    let b = Bundle::new(vec![
        concept("a", "A", &[], &[("keep.md", "keep"), ("secret.md", "secret")], "# A\n"),
        concept("keep", "Keep", &[], &[], "# Keep\n"),
        concept("secret", "Secret", &[], &[], "# Secret\n"),
    ])
    .unwrap();
    let c = Corpus::new(b, vec![id("secret")]);
    let out = neighbors(&c, &nargs("a", 1, DirectionArg::Out, &[])).ok().unwrap();
    assert_eq!(ids_of(&out), vec!["keep"]);
    let d = deadlinks(&c, &dargs(false, false), &Vec::new());
    assert_eq!(d.count, 1);
    assert_eq!(d.results[0].raw, "secret.md");
    assert_eq!(neighbors(&c, &nargs("secret", 1, DirectionArg::Both, &[])).err().unwrap().exit_code(), 4);
}

#[test]
fn every_outbound_edge_is_an_inbound_edge_of_its_target() {
    let c = fixture();
    for from in ["a", "b", "c", "orphan"] {
        let out = neighbors(&c, &nargs(from, 1, DirectionArg::Out, &[])).ok().unwrap();
        for r in &out.results {
            let back = backlinks(&c, &BacklinksArgs { concept: r.concept.id.clone(), edge: Vec::new() }).ok().unwrap();
            assert!(back.results.iter().any(|x| x.concept.id == from && x.edge == r.edge));
        }
    }
}

#[test]
fn undirected_paths_are_symmetric_in_length() {
    let c = fixture();
    for (x, y) in [("a", "b"), ("b", "c"), ("c", "orphan"), ("b", "orphan")] {
        let p = path(&c, &pargs(x, y, true)).ok().unwrap();
        let q = path(&c, &pargs(y, x, true)).ok().unwrap();
        assert_eq!(p.found, q.found);
        assert_eq!(p.length, q.length);
    }
}

#[test]
fn graph_degrees_and_counts() {
    let c = fixture();
    let g = Graph::build(c.bundle(), c.hidden());
    assert_eq!(g.total_edges(), 3);
    assert_eq!(g.in_degree(&id("a")), 1);
    assert_eq!(g.out_degree(&id("a")), 2);
    assert_eq!(g.in_degree(&id("nope")), 0);
    assert_eq!(g.broken_count(), 1);
    assert_eq!(g.phantom_count(), 0);
    let kinds = g.edge_kind_counts();
    assert_eq!(
        kinds,
        vec![("link".to_string(), 1), ("related".to_string(), 1), ("supersedes".to_string(), 1)]
    );
    let r = g.neighbors(&id("a"), 1, Direction::Both, &EdgeFilter::new(&[]));
    assert_eq!(r.len(), 2);
}

#[test]
fn direction_maps_each_flag() {
    assert_eq!(direction(DirectionArg::In), Direction::In);
    assert_eq!(direction(DirectionArg::Out), Direction::Out);
    assert_eq!(direction(DirectionArg::Both), Direction::Both);
    assert_eq!(Direction::Both.as_str(), "both");
}

#[test]
fn human_listings() {
    let c = fixture();
    let out = neighbors(&c, &nargs("a", 1, DirectionArg::Both, &[])).ok().unwrap();
    assert_eq!(render_nodes(&out, true), "b.md:1  related (out)  B\nc.md:1  link (out)  C\n");
    assert_eq!(
        render_nodes(&out, false).lines().next().unwrap(),
        "\u{1b}[1mb.md:1\u{1b}[0m  related (out)  B"
    );
    let p = path(&c, &pargs("c", "b", false)).ok().unwrap();
    assert_eq!(render_path(&p, true), "c.md:1  C\n  -[supersedes]->  a.md:1  A\n  -[related]->  b.md:1  B\n");
    let d = deadlinks(&c, &dargs(false, false), &Vec::new());
    assert_eq!(render_deadlinks(&d, true), "c.md:1  -[link]->  nope.md\n");
}

#[test]
fn every_edge_is_counted_from_both_ends() {
    let c = fixture();
    let g = Graph::build(c.bundle(), c.hidden());
    let names = ["a", "b", "c", "orphan"];
    let ins: usize = names.iter().map(|n| g.in_degree(&id(n))).sum();
    let outs: usize = names.iter().map(|n| g.out_degree(&id(n))).sum();
    let kinds: usize = g.edge_kind_counts().iter().map(|(_, n)| *n).sum();
    assert_eq!(g.total_edges(), 3);
    assert_eq!(ins, g.total_edges());
    assert_eq!(outs, g.total_edges());
    assert_eq!(kinds, g.total_edges());
}
