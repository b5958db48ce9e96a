use kermlc::spec_mcp::index::build_index;

#[test]
fn index_joins_clauses_and_productions() {
    let md = "## <span id=\"page-51-0\"></span>**7.3.2 Types**\n\n## <span id=\"page-52-0\"></span>**7.3.2.3 Specialization**\n";
    let bnf = "// Clause 8.2.4.1.2 Specialization\n\nSpecialization =\n    'specializes'\n";
    let idx = build_index(md, bnf).unwrap();

    let clauses = idx.list_clauses();
    assert!(clauses.iter().any(|c| c.id == "7.3.2"));
    assert!(clauses.iter().any(|c| c.id == "7.3.2.3"));

    let prods = idx.productions_for_clause("8.2.4.1.2");
    assert_eq!(prods.len(), 1);
    assert_eq!(prods[0].name, "Specialization");
}

#[test]
fn index_lookups_clause_by_id() {
    let md = "## <span id=\"page-51-0\"></span>**7.3.2 Types**\n";
    let idx = build_index(md, "").unwrap();
    let clause = idx.clause("7.3.2").unwrap();
    assert_eq!(clause.title, "Types");
    assert_eq!(clause.anchor, "page-51-0");
}

#[test]
fn index_returns_body_text_for_clause() {
    let md = "## <span id=\"page-51-0\"></span>**7.3.2 Types**\n\nBody content here.\n\n## <span id=\"page-52-0\"></span>**7.3.3 Next**\n";
    let idx = build_index(md, "").unwrap();
    let body = idx.body_for_clause("7.3.2").unwrap();
    assert!(body.contains("Body content here."));
    assert!(!body.contains("7.3.3"));
}

// Own tests.

#[test]
fn lookup_by_id_takes_last_duplicate_and_anchor_takes_first() {
    let md = "# <span id=\"x\"></span>**1 First**\n# <span id=\"x\"></span>**1 Second**\n";
    let idx = build_index(md, "").unwrap();
    assert_eq!(idx.clause("1").unwrap().title, "Second");
    assert_eq!(idx.resolve_anchor("x").unwrap().title, "First");
    assert!(idx.clause("2").is_none());
    assert!(idx.body_for_clause("2").is_none());
    assert!(idx.productions_for_clause("1").is_empty());
}

#[test]
fn figures_are_found_with_their_clause() {
    let md = "## **8.3.1 Overview**\n\n![](_page_1_Figure_2.jpeg)\n\n**Figure 1. KerML Syntax Layers**\n\n## **8.3.2 Next**\n![](_page_9.png)\n**Figure 2. Not A Jpeg**\n![](_page_3.jpeg) **Figure 3. Same Line**\n![](_page_4.jpeg)\n  **Figure 99999999999.  Big  **\n";
    let idx = build_index(md, "").unwrap();
    let figs = idx.figures();
    assert_eq!(figs.len(), 2);
    assert_eq!(figs[0].number, 1);
    assert_eq!(figs[0].title, "KerML Syntax Layers");
    assert_eq!(figs[0].image_path, "_page_1_Figure_2.jpeg");
    assert_eq!(figs[0].clause_id, "8.3.1");
    // a number that does not fit in u32 reads as 0
    assert_eq!(figs[1].number, 0);
    assert_eq!(figs[1].title, "Big");
    assert_eq!(figs[1].clause_id, "8.3.2");
    assert_eq!(idx.figures_for_clause("8.3.1").len(), 1);
}
