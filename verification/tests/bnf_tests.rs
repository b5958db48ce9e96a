use kermlc::spec_mcp::bnf::parse_bnf;

const SAMPLE: &str = "\
// Clause 8.2.2.1 Line Terminators and White Space

LINE_TERMINATOR =
    '\\n' | '\\r' | '\\r\\n'

WHITE_SPACE =
    ' ' | '\\t' | '\\f' | LINE_TERMINATOR

// Clause 8.2.4.3.1 Features

Feature =
    'feature' FeatureDeclaration?
";

#[test]
fn parses_clause_markers_and_productions() {
    let productions = parse_bnf(SAMPLE).unwrap();
    let names: Vec<&str> = productions.iter().map(|p| p.name.as_str()).collect();
    assert_eq!(names, ["LINE_TERMINATOR", "WHITE_SPACE", "Feature"]);

    let line_term = &productions[0];
    assert_eq!(line_term.clause_id, "8.2.2.1");
    assert_eq!(line_term.body.trim(), "'\\n' | '\\r' | '\\r\\n'");

    let feature = &productions[2];
    assert_eq!(feature.clause_id, "8.2.4.3.1");
    assert_eq!(feature.body.trim(), "'feature' FeatureDeclaration?");
}

#[test]
fn assigns_productions_to_most_recent_clause_marker() {
    let productions = parse_bnf(SAMPLE).unwrap();
    assert_eq!(productions[0].clause_id, "8.2.2.1");
    assert_eq!(productions[1].clause_id, "8.2.2.1");
    assert_eq!(productions[2].clause_id, "8.2.4.3.1");
}

#[test]
fn parses_inheritance_style_production() {
    let src = "\
// Clause 8.2.3.1 Test

FeatureDeclaration : Feature =
    'feature' FeatureName?
";
    let productions = parse_bnf(src).unwrap();
    assert_eq!(productions.len(), 1);
    assert_eq!(productions[0].name, "FeatureDeclaration");
    assert_eq!(productions[0].clause_id, "8.2.3.1");
    assert_eq!(productions[0].body.trim(), "'feature' FeatureName?");
}

#[test]
fn skips_regular_comments_between_productions() {
    let src = "\
// Clause 8.2.2.2 Notes

// This is a regular comment, not a clause marker
SINGLE_LINE_NOTE =
    '//' LINE_TEXT

// Notes:
//   1. Some note text.
MULTILINE_NOTE =
    '//*' COMMENT_TEXT '*/'
";
    let productions = parse_bnf(src).unwrap();
    let names: Vec<&str> = productions.iter().map(|p| p.name.as_str()).collect();
    assert_eq!(names, ["SINGLE_LINE_NOTE", "MULTILINE_NOTE"]);
    assert_eq!(productions[0].clause_id, "8.2.2.2");
    assert_eq!(productions[1].clause_id, "8.2.2.2");
}

// Own tests.

#[test]
fn production_body_on_first_line_and_crlf() {
    let src = "// Clause 1.2. Intro\r\nA = 'a'\r\n  | 'b'\r\n\r\nB: = x\nC : D =   y z\n!directive = no\n";
    let ps = parse_bnf(src).unwrap();
    let names: Vec<&str> = ps.iter().map(|p| p.name.as_str()).collect();
    assert_eq!(names, ["A", "B", "C"]);
    assert_eq!(ps[0].clause_id, "1.2");
    assert_eq!(ps[0].body, "'a'\n| 'b'");
    assert_eq!(ps[0].line, 2);
    assert_eq!(ps[1].body, "x");
    // the `: Base =` form takes its body from the lines below only
    assert_eq!(ps[2].body, "!directive = no");
    assert_eq!(ps[2].line, 6);
}

#[test]
fn lines_without_equals_are_not_productions() {
    let ps = parse_bnf("Name\n9Bad = x\n_bad = y\nGood=\n  z\n").unwrap();
    assert_eq!(ps.len(), 1);
    assert_eq!(ps[0].name, "Good");
    assert_eq!(ps[0].clause_id, "");
    assert_eq!(ps[0].body, "z");
}
