use kermlc::spec_mcp::implementation::{
    classify, derive_signals, signal_needle, unique_lines, CodeSignal, ImplStatus,
};

#[test]
fn derives_parse_method_name_from_production() {
    let signals = derive_signals("8.2.4.3.1", &["FeatureDeclaration"]);
    assert!(signals
        .iter()
        .any(|s| matches!(s, CodeSignal::ParserMethod(m) if m == "parse_feature_decl")));
}

#[test]
fn derives_token_kind_from_lexical_production() {
    let signals = derive_signals("8.2.2.2", &["SINGLE_LINE_NOTE", "MULTILINE_NOTE"]);
    assert!(signals
        .iter()
        .any(|s| matches!(s, CodeSignal::TokenKind(t) if t == "Comment")));
}

#[test]
fn classifies_out_of_scope_when_no_signals() {
    let signals = derive_signals("8.4.3.1", &[]);
    let status = classify(&signals, Vec::new());
    assert_eq!(status.status, ImplStatus::OutOfScope);
}

// Own tests.

#[test]
fn classify_by_hits() {
    let signals = derive_signals("8.2.4.3.1", &["FeatureDeclaration"]);
    let found = classify(&signals, vec!["a.rs:1:fn parse_feature_decl".to_string()]);
    assert_eq!(found.status, ImplStatus::Implemented);
    assert_eq!(found.entry_points.len(), 1);
    let none = classify(&signals, Vec::new());
    assert_eq!(none.status, ImplStatus::NotStarted);
}

#[test]
fn needles_and_snake_case() {
    let signals = derive_signals("8.2.3", &["TypeDeclarationDeclaration", "A", "ownedX"]);
    let needles: Vec<String> = signals.iter().map(signal_needle).collect();
    assert_eq!(needles, ["fn parse_type_decl_decl", "fn parse_a", "fn parse_owned_x"]);
    let lex = derive_signals("8.2.2.1", &["BASIC_NAME", "UNKNOWN", "STRING_VALUE"]);
    let needles: Vec<String> = lex.iter().map(signal_needle).collect();
    assert_eq!(needles, ["Ident,", "StringLiteral,"]);
    assert!(derive_signals("9.1", &["Feature"]).is_empty());
}

#[test]
fn unique_lines_keeps_first_occurrences() {
    let hits = unique_lines("a:1\nb:2\na:1\n\nb:2\nc:3");
    assert_eq!(hits, ["a:1", "b:2", "", "c:3"]);
}
