use kermlc::spec_mcp::clause_tree::extract_clause_tree;

const FRAGMENT: &str = "\
# **Kernel Modeling Language**

## <span id=\"page-26-0\"></span>**1 Scope**

### <span id=\"page-36-1\"></span>**6.1 Language Architecture**

#### <span id=\"page-40-4\"></span>**7.2.2 Elements and Relationships**

## <span id=\"page-98-0\"></span>**8 Metamodel**

#### **8.3.2.1.1 Overview**
";

#[test]
fn extracts_numbered_headings_with_anchors() {
    let tree = extract_clause_tree(FRAGMENT).unwrap();
    let ids: Vec<&str> = tree.iter().map(|n| n.id.as_str()).collect();
    assert!(ids.contains(&"1"));
    assert!(ids.contains(&"6.1"));
    assert!(ids.contains(&"7.2.2"));
    assert!(ids.contains(&"8"));
    assert!(ids.contains(&"8.3.2.1.1"));
}

#[test]
fn captures_anchor_id_from_span() {
    let tree = extract_clause_tree(FRAGMENT).unwrap();
    let scope = tree.iter().find(|n| n.id == "1").unwrap();
    assert_eq!(scope.anchor, "page-26-0");
    let metamodel = tree.iter().find(|n| n.id == "8").unwrap();
    assert_eq!(metamodel.anchor, "page-98-0");
}

#[test]
fn anchor_empty_when_no_span() {
    let tree = extract_clause_tree(FRAGMENT).unwrap();
    let overview = tree.iter().find(|n| n.id == "8.3.2.1.1").unwrap();
    assert_eq!(overview.anchor, "");
}

#[test]
fn captures_line_number_level_and_title() {
    let tree = extract_clause_tree(FRAGMENT).unwrap();
    let la = tree.iter().find(|n| n.id == "6.1").unwrap();
    assert_eq!(la.title, "Language Architecture");
    assert_eq!(la.level, 3);
    assert!(la.line > 0);
}

#[test]
fn ignores_non_numbered_headings() {
    let tree = extract_clause_tree(FRAGMENT).unwrap();
    assert!(!tree.iter().any(|n| n.title.contains("Kernel Modeling")));
}

#[test]
fn body_range_covers_section_content() {
    let tree = extract_clause_tree(FRAGMENT).unwrap();
    let scope = tree.iter().find(|n| n.id == "1").unwrap();
    let body = &FRAGMENT[scope.body_start..scope.body_end];
    assert!(body.contains("6.1"));
    assert!(!body.starts_with('#'));
}

// Own tests.

#[test]
fn heading_shapes_that_match_and_that_do_not() {
    let src = "##### **1 Too Deep**\n# **2.1. Dots Trimmed**  \n#**3 No Space**\n## <span id=\"\"></span>**4 Empty Anchor**\n## **5Missing Space**\n####  **6  Wide   Title **\n";
    let tree = extract_clause_tree(src).unwrap();
    let ids: Vec<&str> = tree.iter().map(|n| n.id.as_str()).collect();
    assert_eq!(ids, ["2.1", "3", "6"]);
    assert_eq!(tree[0].title, "Dots Trimmed");
    assert_eq!(tree[0].level, 1);
    assert_eq!(tree[0].line, 2);
    assert_eq!(tree[2].title, "Wide   Title ");
    assert_eq!(tree[2].level, 4);
}

#[test]
fn body_runs_to_next_peer_or_end() {
    let src = "# **1 A**\ntext\n## **1.1 B**\nmore\n# **2 C**\nlast";
    let tree = extract_clause_tree(src).unwrap();
    assert_eq!(tree.len(), 3);
    assert_eq!(&src[tree[0].body_start..tree[0].body_end], "text\n## **1.1 B**\nmore\n");
    assert_eq!(&src[tree[1].body_start..tree[1].body_end], "more\n");
    assert_eq!(&src[tree[2].body_start..tree[2].body_end], "last");
}
