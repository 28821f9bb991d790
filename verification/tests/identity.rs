use okq::concept::ConceptId;
use okq::model::{resolve_concept, Bundle, Concept, TrustEvents, TrustTier};
use okq::view::Corpus;

fn concept(ident: &str) -> Concept {
    Concept {
        id: ConceptId::new(ident.split('/').map(str::to_string).collect()).unwrap(),
        path: format!("{ident}.md"),
        type_: None,
        title: None,
        tags: Vec::new(),
        fields: Vec::new(),
        links: Vec::new(),
        body: String::new(),
        status: "stable".to_string(),
        trust: TrustTier::Unverified,
        stale: false,
        events: TrustEvents { generated: None, verified: Vec::new() },
        frontmatter_yaml: String::new(),
    }
}

#[test]
fn every_concept_is_found_by_its_own_id() {
    let ids = ["adrs/0001-x", "adrs/x", "x", ".hidden/notes", "a/b/c.txt"];
    let corpus = Corpus::new(Bundle::new(ids.iter().map(|i| concept(i)).collect()).unwrap(), Vec::new());
    for i in ids {
        let found = resolve_concept(&corpus, i).unwrap();
        assert_eq!(found.to_text(), i);
    }
}
