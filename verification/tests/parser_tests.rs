use kermlc::ast::{Expr, FeatureDirection, Member, TypeExpr};
use kermlc::diagnostic::LabelStyle;
use kermlc::diagnostic::DiagnosticSink;
use kermlc::interner::StringInterner;
use kermlc::parser::{ParseResult, Parser};
use kermlc::source_map::SourceMap;

fn parse(input: &str) -> (ParseResult, StringInterner, DiagnosticSink) {
    let mut interner = StringInterner::new();
    let mut source_map = SourceMap::new();
    let mut sink = DiagnosticSink::new();
    let file_id = source_map.add_file("test.kerml".into(), input.into());
    let result = Parser::parse(input, file_id, &mut interner, &mut sink);
    (result, interner, sink)
}

#[test]
fn parse_empty_package() {
    let (result, interner, sink) = parse("package Foo {}");
    assert!(!sink.has_errors());
    assert_eq!(result.source_file.packages.len(), 1);
    let pkg = &result.packages[result.source_file.packages[0]];
    assert_eq!(interner.resolve(pkg.name), "Foo");
}

#[test]
fn parse_type_with_specialization() {
    let (result, _interner, sink) = parse("package Vehicles { type Car :> Vehicle {} }");
    assert!(!sink.has_errors());
    let pkg = &result.packages[result.source_file.packages[0]];
    assert_eq!(pkg.members.len(), 1);
}

#[test]
fn parse_feature_decl() {
    let (_result, _interner, sink) =
        parse("package P { type T { feature x : Integer [0..1]; } }");
    assert!(!sink.has_errors());
}

#[test]
fn parse_import() {
    let (result, _, sink) = parse("package P { import Vehicles::*; }");
    assert!(!sink.has_errors());
    let pkg = &result.packages[result.source_file.packages[0]];
    assert_eq!(pkg.imports.len(), 1);
    assert!(pkg.imports[0].is_wildcard);
}

#[test]
fn parse_in_feature() {
    let (result, _interner, sink) = parse("package P { type T { in feature f : Tp; } }");
    assert!(!sink.has_errors());
    let pkg = &result.packages[result.source_file.packages[0]];
    let Member::Type(ty_id) = &pkg.members[0] else {
        panic!("expected type member");
    };
    let ty = &result.types[*ty_id];
    let Member::Feature(feat_id) = &ty.members[0] else {
        panic!("expected feature member");
    };
    let feat = &result.features[*feat_id];
    assert_eq!(feat.direction, Some(FeatureDirection::In));
}

#[test]
fn parse_out_feature() {
    let (result, _interner, sink) = parse("package P { type T { out feature g : Tp; } }");
    assert!(!sink.has_errors());
    let pkg = &result.packages[result.source_file.packages[0]];
    let Member::Type(ty_id) = &pkg.members[0] else {
        panic!("expected type member");
    };
    let ty = &result.types[*ty_id];
    let Member::Feature(feat_id) = &ty.members[0] else {
        panic!("expected feature member");
    };
    let feat = &result.features[*feat_id];
    assert_eq!(feat.direction, Some(FeatureDirection::Out));
}

#[test]
fn parse_inout_feature() {
    let (result, _interner, sink) = parse("package P { type T { inout feature h : Tp; } }");
    assert!(!sink.has_errors());
    let pkg = &result.packages[result.source_file.packages[0]];
    let Member::Type(ty_id) = &pkg.members[0] else {
        panic!("expected type member");
    };
    let ty = &result.types[*ty_id];
    let Member::Feature(feat_id) = &ty.members[0] else {
        panic!("expected feature member");
    };
    let feat = &result.features[*feat_id];
    assert_eq!(feat.direction, Some(FeatureDirection::InOut));
}

#[test]
fn parse_undirected_feature() {
    let (result, _interner, sink) = parse("package P { type T { feature x : Tp; } }");
    assert!(!sink.has_errors());
    let pkg = &result.packages[result.source_file.packages[0]];
    let Member::Type(ty_id) = &pkg.members[0] else {
        panic!("expected type member");
    };
    let ty = &result.types[*ty_id];
    let Member::Feature(feat_id) = &ty.members[0] else {
        panic!("expected feature member");
    };
    let feat = &result.features[*feat_id];
    assert_eq!(feat.direction, None);
}

#[test]
fn error_recovery_missing_brace() {
    let (result, _, sink) = parse("package Foo { type Bar {} ");
    // Should have an error for missing closing brace
    assert!(sink.has_errors());
    // But should still have parsed some content
    assert!(!result.source_file.packages.is_empty());
}

#[test]
fn parse_feature_conjugation_tilde() {
    let (result, interner, sink) = parse("package P { type T { feature g ~ T; } }");
    assert!(!sink.has_errors(), "errors: {:?}", sink.diagnostics());
    let pkg = &result.packages[result.source_file.packages[0]];
    let Member::Type(ty_id) = &pkg.members[0] else {
        panic!("expected type member");
    };
    let ty = &result.types[*ty_id];
    let Member::Feature(feat_id) = &ty.members[0] else {
        panic!("expected feature member");
    };
    let feat = &result.features[*feat_id];
    assert_eq!(interner.resolve(feat.name), "g");
    assert!(feat.conjugation.is_some(), "should have conjugation");
    assert!(feat.type_ref.is_none(), "should NOT have type_ref");
}

#[test]
fn parse_feature_conjugation_keyword() {
    let (result, _interner, sink) = parse("package P { type T { feature g conjugates T; } }");
    assert!(!sink.has_errors(), "errors: {:?}", sink.diagnostics());
    let pkg = &result.packages[result.source_file.packages[0]];
    let Member::Type(ty_id) = &pkg.members[0] else {
        panic!("expected type member");
    };
    let ty = &result.types[*ty_id];
    let Member::Feature(feat_id) = &ty.members[0] else {
        panic!("expected feature member");
    };
    let feat = &result.features[*feat_id];
    assert!(feat.conjugation.is_some());
}

#[test]
fn parse_feature_conjugation_qualified() {
    let (result, _interner, sink) = parse("package P { type T { feature g ~ A::f; } }");
    assert!(!sink.has_errors(), "errors: {:?}", sink.diagnostics());
    let pkg = &result.packages[result.source_file.packages[0]];
    let Member::Type(ty_id) = &pkg.members[0] else {
        panic!("expected type member");
    };
    let ty = &result.types[*ty_id];
    let Member::Feature(feat_id) = &ty.members[0] else {
        panic!("expected feature member");
    };
    let feat = &result.features[*feat_id];
    let conj = feat.conjugation.as_ref().expect("should have conjugation");
    assert_eq!(conj.segments.len(), 2, "A::f has 2 segments");
}

#[test]
fn parse_inline_conjugated_type_ref() {
    let (result, interner, sink) =
        parse("package P { type T { feature f : ~T; } }");
    assert!(!sink.has_errors(), "errors: {:?}", sink.diagnostics());
    let pkg = &result.packages[result.source_file.packages[0]];
    let Member::Type(ty_id) = &pkg.members[0] else {
        panic!("expected type member");
    };
    let ty = &result.types[*ty_id];
    let Member::Feature(feat_id) = &ty.members[0] else {
        panic!("expected feature member");
    };
    let feat = &result.features[*feat_id];
    assert_eq!(interner.resolve(feat.name), "f");
    let type_ref = feat.type_ref.as_ref().expect("should have type_ref");
    match type_ref {
        TypeExpr::Conjugated(qn, _) => {
            assert_eq!(qn.segments.len(), 1);
            assert_eq!(interner.resolve(qn.segments[0]), "T");
        }
        _ => panic!("expected TypeExpr::Conjugated, got {:?}", type_ref),
    }
    assert!(
        feat.conjugation.is_none(),
        "conjugation field should be None"
    );
}

#[test]
fn parse_inline_conjugated_type_ref_qualified() {
    let (result, interner, sink) =
        parse("package P { type T { feature f : ~A::B; } }");
    assert!(!sink.has_errors(), "errors: {:?}", sink.diagnostics());
    let pkg = &result.packages[result.source_file.packages[0]];
    let Member::Type(ty_id) = &pkg.members[0] else {
        panic!("expected type member");
    };
    let ty = &result.types[*ty_id];
    let Member::Feature(feat_id) = &ty.members[0] else {
        panic!("expected feature member");
    };
    let feat = &result.features[*feat_id];
    match feat.type_ref.as_ref().unwrap() {
        TypeExpr::Conjugated(qn, _) => {
            assert_eq!(qn.segments.len(), 2);
            assert_eq!(interner.resolve(qn.segments[0]), "A");
            assert_eq!(interner.resolve(qn.segments[1]), "B");
        }
        _ => panic!("expected TypeExpr::Conjugated"),
    }
}

#[test]
fn parse_multiplicity_name_exact() {
    let (result, _interner, sink) =
        parse("package P { type T { feature x : T [n]; } }");
    assert!(!sink.has_errors(), "errors: {:?}", sink.diagnostics());
    let pkg = &result.packages[result.source_file.packages[0]];
    let feat_id = match &pkg.members[0] {
        Member::Type(id) => {
            match &result.types[*id].members[0] {
                Member::Feature(fid) => *fid,
                _ => panic!("expected feature"),
            }
        }
        _ => panic!("expected type"),
    };
    let feat = &result.features[feat_id];
    let mult =
        feat.multiplicity.as_ref().expect("should have multiplicity");
    assert!(mult.lower.is_none(), "exact mult should have no lower");
    assert!(matches!(mult.upper, Some(Expr::Name { .. })));
}

#[test]
fn parse_multiplicity_name_range() {
    let (_result, _interner, sink) =
        parse("package P { type T { feature x : T [a..b]; } }");
    assert!(
        !sink.has_errors(),
        "errors: {:?}",
        sink.diagnostics()
    );
}

#[test]
fn parse_multiplicity_int_to_name() {
    let (_result, _interner, sink) =
        parse("package P { type T { feature x : T [1..n]; } }");
    assert!(
        !sink.has_errors(),
        "errors: {:?}",
        sink.diagnostics()
    );
}

#[test]
fn parse_multiplicity_name_to_star() {
    let (_result, _interner, sink) =
        parse("package P { type T { feature x : T [n..*]; } }");
    assert!(
        !sink.has_errors(),
        "errors: {:?}",
        sink.diagnostics()
    );
}

#[test]
fn parse_multiplicity_qualified_name() {
    let (_result, _interner, sink) = parse(
        "package P { type T { feature x : T [Pkg::count]; } }",
    );
    assert!(
        !sink.has_errors(),
        "errors: {:?}",
        sink.diagnostics()
    );
}

// Own tests.

#[test]
fn parse_reports_expected_kind_and_recovers() {
    let (result, interner, sink) = parse("package P { type ; type Q {} }");
    assert!(sink.has_errors());
    let msgs: Vec<&str> = sink.diagnostics().iter().map(|d| d.message.as_str()).collect();
    assert!(msgs.contains(&"expected Ident"), "got {:?}", msgs);
    let pkg = &result.packages[result.source_file.packages[0]];
    assert_eq!(pkg.members.len(), 1);
    let Member::Type(q) = &pkg.members[0] else {
        panic!("expected type member");
    };
    assert_eq!(interner.resolve(result.types[*q].name), "Q");
}

#[test]
fn parse_top_level_import_is_an_error() {
    let (result, _, sink) = parse("import A::*; type T;");
    assert!(sink.has_errors());
    assert_eq!(sink.diagnostics()[0].message, "import must be inside a package");
    assert_eq!(result.source_file.members.len(), 1);
}

#[test]
fn parse_conjugation_declaration() {
    let (result, interner, sink) = parse("package P { conjugation c conjugate A::B conjugates C; }");
    assert!(!sink.has_errors(), "errors: {:?}", sink.diagnostics());
    let pkg = &result.packages[result.source_file.packages[0]];
    let Member::Conjugation(cid) = &pkg.members[0] else {
        panic!("expected conjugation member");
    };
    let c = &result.conjugations[*cid];
    assert_eq!(interner.resolve(c.name), "c");
    assert_eq!(c.conjugated_type.segments.len(), 2);
    assert_eq!(interner.resolve(c.original_type.segments[0]), "C");
}

#[test]
fn parse_int_multiplicity_values() {
    let (result, _, sink) = parse("feature x : T [2..18446744073709551616];");
    assert!(!sink.has_errors());
    let Member::Feature(f) = &result.source_file.members[0] else {
        panic!("expected feature");
    };
    let m = result.features[*f].multiplicity.as_ref().unwrap();
    assert!(matches!(m.lower, Some(Expr::IntLiteral { value: 2, .. })));
    // a value that does not fit in u64 reads as 0
    assert!(matches!(m.upper, Some(Expr::IntLiteral { value: 0, .. })));
}

#[test]
fn parse_nested_packages_and_chains() {
    let (result, interner, sink) =
        parse("package A { package B { type T { feature f chains a::b.c; } } import A::B; }");
    assert!(!sink.has_errors(), "errors: {:?}", sink.diagnostics());
    let a = &result.packages[result.source_file.packages[0]];
    assert_eq!(interner.resolve(a.name), "A");
    assert_eq!(a.imports.len(), 1);
    assert!(!a.imports[0].is_wildcard);
    let Member::Package(b) = &a.members[0] else {
        panic!("expected package");
    };
    let Member::Type(t) = &result.packages[*b].members[0] else {
        panic!("expected type");
    };
    let Member::Feature(f) = &result.types[*t].members[0] else {
        panic!("expected feature");
    };
    let chain = result.features[*f].chain.as_ref().unwrap();
    assert_eq!(chain.segments.len(), 2);
    assert_eq!(chain.segments[0].segments.len(), 2);
}

#[test]
fn parse_empty_input_gives_empty_result() {
    let (result, _, sink) = parse("  // nothing here\n");
    assert!(!sink.has_errors());
    assert!(result.source_file.packages.is_empty());
    assert!(result.source_file.members.is_empty());
}

#[test]
fn every_syntax_error_has_one_primary_label() {
    let (_result, _interner, sink) = parse("package P { type ; feature x : ; } import Q::*; 42");
    assert!(sink.has_errors());
    for d in sink.diagnostics() {
        assert_eq!(d.labels.len(), 1);
        assert_eq!(d.labels[0].style, LabelStyle::Primary);
        assert_eq!(d.labels[0].message, d.message);
    }
}

fn seg_texts(interner: &StringInterner, q: &kermlc::ast::QualifiedName) -> Vec<String> {
    q.segments.iter().map(|s| interner.resolve(*s).to_string()).collect()
}

#[test]
fn specializations_are_kept_as_written() {
    let (result, interner, sink) = parse("package P { type A specializes B, C::D {} }");
    assert!(!sink.has_errors());
    let pkg = &result.packages[result.source_file.packages[0]];
    let Member::Type(a) = &pkg.members[0] else {
        panic!("expected type member");
    };
    let ty = &result.types[*a];
    assert_eq!(ty.specializations.len(), 2);
    assert_eq!(seg_texts(&interner, &ty.specializations[0]), vec!["B"]);
    assert_eq!(seg_texts(&interner, &ty.specializations[1]), vec!["C", "D"]);
    assert!(ty.conjugation.is_none());
    assert!(ty.members.is_empty());
}

#[test]
fn import_path_leaves_out_the_wildcard() {
    let (result, interner, sink) = parse("package P { import A::B::*; import C; }");
    assert!(!sink.has_errors());
    let pkg = &result.packages[result.source_file.packages[0]];
    assert_eq!(pkg.imports.len(), 2);
    assert_eq!(seg_texts(&interner, &pkg.imports[0].path), vec!["A", "B"]);
    assert!(pkg.imports[0].is_wildcard);
    assert_eq!(seg_texts(&interner, &pkg.imports[1].path), vec!["C"]);
    assert!(!pkg.imports[1].is_wildcard);
}

#[test]
fn single_bound_is_the_upper_one() {
    let (result, _interner, sink) = parse("package P { type T { feature x : T [3]; feature y : T [1..*]; } }");
    assert!(!sink.has_errors());
    let m = result.features[kermlc::arena::Idx::from_raw(0)].multiplicity.as_ref().unwrap();
    assert!(m.lower.is_none());
    assert!(matches!(m.upper, Some(Expr::IntLiteral { value: 3, .. })));
    let m2 = result.features[kermlc::arena::Idx::from_raw(1)].multiplicity.as_ref().unwrap();
    assert!(matches!(m2.lower, Some(Expr::IntLiteral { value: 1, .. })));
    assert!(matches!(m2.upper, Some(Expr::Star { .. })));
}

#[test]
fn conjugation_declaration_sides_are_kept() {
    let (result, interner, sink) = parse("package P { conjugation c conjugate A::X conjugates B; }");
    assert!(!sink.has_errors());
    let c = &result.conjugations[kermlc::arena::Idx::from_raw(0)];
    assert_eq!(seg_texts(&interner, &c.conjugated_type), vec!["A", "X"]);
    assert_eq!(seg_texts(&interner, &c.original_type), vec!["B"]);
}
