use kermlc::spec_mcp::tools::SpecServer;

fn build_test_server() -> SpecServer {
    let md = "## <span id=\"page-51-0\"></span>**7.3.2 Types**\n\n## <span id=\"page-52-0\"></span>**7.3.2.3 Specialization**\n";
    let bnf = "// Clause 8.2.4.1.2 Specialization\n\nSpecialization =\n    'specializes'\n\n// Clause 8.2.4.3.1 Features\n\nFeatureDeclaration : Feature =\n    'feature'\n";
    let crates_dir = std::path::PathBuf::from("../../crates");
    SpecServer::new(md.to_string(), bnf.to_string(), crates_dir).unwrap()
}

#[test]
fn constructs_server_from_synthetic_spec() {
    let _ = build_test_server();
}

#[test]
fn get_section_returns_title_and_anchor() {
    let server = build_test_server();
    let result = server.get_section_impl("7.3.2").unwrap();
    assert_eq!(result.title, "Types");
    assert_eq!(result.anchor, "page-51-0");
    assert!(result.productions.is_empty());
}

#[test]
fn get_section_returns_none_for_missing_clause() {
    let server = build_test_server();
    assert!(server.get_section_impl("99.99").is_none());
}

#[test]
fn list_sections_returns_all_clauses() {
    let server = build_test_server();
    let clauses = server.list_sections_impl();
    assert_eq!(clauses.len(), 2);
    assert!(clauses.iter().any(|c| c.id == "7.3.2"));
    assert!(clauses.iter().any(|c| c.id == "7.3.2.3"));
}

#[test]
fn get_section_includes_productions() {
    let md = "## <span id=\"page-51-0\"></span>**8.2.4.1.2 Specialization**\n";
    let bnf = "// Clause 8.2.4.1.2 Specialization\n\nSpecialization =\n    'specializes'\n";
    let crates_dir = std::path::PathBuf::from("../../crates");
    let server = SpecServer::new(md.to_string(), bnf.to_string(), crates_dir).unwrap();
    let result = server.get_section_impl("8.2.4.1.2").unwrap();
    assert!(result.productions.contains(&"Specialization".to_string()));
}

#[test]
fn follow_anchor_link_resolves_to_clause() {
    let server = build_test_server();
    let result = server.follow_link_impl("#page-51-0");
    assert_eq!(result.kind, "section");
    assert_eq!(result.clause_id.as_deref(), Some("7.3.2"));
    assert_eq!(result.title.as_deref(), Some("Types"));
}

#[test]
fn follow_anchor_link_not_found() {
    let server = build_test_server();
    let result = server.follow_link_impl("#nonexistent");
    assert_eq!(result.kind, "anchor_not_found");
    assert!(result.error.is_some());
}

// Own tests.

#[test]
fn search_matches_id_or_lowercased_title() {
    let server = build_test_server();
    let hits = server.search_sections_impl("SPECIAL");
    assert_eq!(hits.len(), 1);
    assert_eq!(hits[0].id, "7.3.2.3");
    let hits = server.search_sections_impl("7.3.2");
    assert_eq!(hits.len(), 2);
    assert!(server.search_sections_impl("nothing").is_empty());
}

#[test]
fn get_section_trims_body_and_links_follow_hash() {
    let server = build_test_server();
    let s = server.get_section_impl("7.3.2").unwrap();
    assert_eq!(s.body_md, "");
    assert_eq!(s.line, 1);
    let r = server.follow_link_impl("kerml.md#page-52-0");
    assert_eq!(r.kind, "section");
    assert_eq!(r.clause_id.as_deref(), Some("7.3.2.3"));
    let miss = server.follow_link_impl("#nope");
    assert_eq!(miss.error.as_deref(), Some("no clause has anchor nope"));
}

#[test]
fn clause_signals_come_from_productions() {
    let server = build_test_server();
    let sigs = server.clause_signals("8.2.4.3.1");
    assert_eq!(sigs.len(), 1);
    assert!(matches!(&sigs[0], kermlc::spec_mcp::implementation::CodeSignal::ParserMethod(m) if m == "parse_feature_decl"));
}

#[test]
fn get_figure_by_number() {
    let md = "## **8.3.1 Overview**\n![](_page_7.jpeg)\n**Figure 4. Layers**\n";
    let crates_dir = std::path::PathBuf::from("crates");
    let server = SpecServer::new(md.to_string(), String::new(), crates_dir).unwrap();
    let fig = server.get_figure_impl(4).unwrap();
    assert_eq!(fig.number, 4);
    assert_eq!(fig.title, "Layers");
    assert_eq!(fig.clause_id, "8.3.1");
    assert!(fig.image_path.ends_with(".jpeg"));
    assert!(server.get_figure_impl(5).is_none());
}

#[test]
fn server_keeps_its_crates_dir() {
    let dir = std::path::PathBuf::from("some/where/crates");
    let server = SpecServer::new(String::from("# 1 Scope\n"), String::new(), dir.clone()).unwrap();
    assert_eq!(server.crates_dir(), &dir);
}

#[test]
fn empty_query_finds_every_clause() {
    let server = build_test_server();
    let all = server.list_sections_impl();
    let found = server.search_sections_impl("");
    assert_eq!(found.len(), all.len());
    assert!(!found.is_empty());
}
