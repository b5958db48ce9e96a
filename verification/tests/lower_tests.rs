use kermlc::diagnostic::DiagnosticSink;
use kermlc::hir::{DefKind, FeatureDirection, MultBound, ResolutionState, SemanticModel};
use kermlc::interner::StringInterner;
use kermlc::lower::lower_ast;
use kermlc::parser::Parser;
use kermlc::source_map::SourceMap;

fn lower(input: &str) -> (SemanticModel, StringInterner, DiagnosticSink) {
    let mut interner = StringInterner::new();
    let mut source_map = SourceMap::new();
    let mut sink = DiagnosticSink::new();
    let file_id = source_map.add_file("test.kerml".into(), input.into());
    let parse = Parser::parse(input, file_id, &mut interner, &mut sink);
    let model = lower_ast(&parse, &mut interner, &mut sink);
    (model, interner, sink)
}

#[test]
fn lower_creates_package_def() {
    let (model, interner, sink) = lower("package Foo {}");
    assert!(!sink.has_errors());
    assert_eq!(model.roots.len(), 1);
    let root = &model.defs[model.roots[0]];
    assert_eq!(root.kind, DefKind::Package);
    assert_eq!(interner.resolve(root.name), "Foo");
}

#[test]
fn lower_creates_type_with_unresolved_specialization() {
    let (model, interner, sink) = lower("package P { type Car :> Vehicle {} }");
    assert!(!sink.has_errors());

    let pkg = &model.defs[model.roots[0]];
    assert_eq!(pkg.children.len(), 1);

    let car = &model.defs[pkg.children[0]];
    assert_eq!(car.kind, DefKind::Type);
    assert_eq!(interner.resolve(car.name), "Car");
    assert_eq!(car.specializations.len(), 1);
    assert_eq!(car.specializations[0].resolution, ResolutionState::Unresolved);
}

#[test]
fn lower_feature_direction() {
    let (model, interner, sink) = lower("package P { type T { in feature f : Integer; } }");
    assert!(!sink.has_errors());

    let pkg = &model.defs[model.roots[0]];
    let ty = &model.defs[pkg.children[0]];
    let feat = &model.defs[ty.children[0]];
    assert_eq!(feat.kind, DefKind::Feature);
    assert_eq!(interner.resolve(feat.name), "f");
    assert_eq!(feat.direction, Some(FeatureDirection::In));
}

#[test]
fn lower_feature_conjugation() {
    let (model, interner, sink) = lower("package P { type T { in feature f; } feature g ~ T::f; }");
    assert!(!sink.has_errors(), "errors: {:?}", sink.diagnostics());

    let pkg = &model.defs[model.roots[0]];
    let g = &model.defs[pkg.children[1]];
    assert_eq!(g.kind, DefKind::Feature);
    assert_eq!(interner.resolve(g.name), "g");
    assert!(g.conjugation.is_some(), "feature g should have conjugation ref");
    let conj = g.conjugation.as_ref().unwrap();
    assert_eq!(
        conj.resolution,
        ResolutionState::Unresolved,
        "should be unresolved at lowering time"
    );
}

#[test]
fn lower_creates_feature_with_type_ref() {
    let (model, interner, sink) = lower("package P { type T { feature x : Integer [0..1]; } }");
    assert!(!sink.has_errors());

    let pkg = &model.defs[model.roots[0]];
    let ty = &model.defs[pkg.children[0]];
    let feat = &model.defs[ty.children[0]];
    assert_eq!(feat.kind, DefKind::Feature);
    assert_eq!(interner.resolve(feat.name), "x");
    assert!(feat.type_ref.is_some());
    assert!(feat.multiplicity.is_some());
    let mult = feat.multiplicity.as_ref().unwrap();
    assert!(matches!(mult.lower, MultBound::Exact(0)));
    assert!(matches!(mult.upper, MultBound::Exact(1)));
}

#[test]
fn lower_inline_conjugated_type_ref() {
    let (model, interner, sink) =
        lower("package P { type T { in feature f : T; } type U { feature g : ~T; } }");
    assert!(!sink.has_errors(), "errors: {:?}", sink.diagnostics());

    let pkg = &model.defs[model.roots[0]];
    let u_id = pkg.children[1];
    let g_id = model.defs[u_id].children[0];
    let g = &model.defs[g_id];

    assert_eq!(interner.resolve(g.name), "g");
    assert!(g.type_ref.is_some(), "g should have type_ref");
    let type_ref = g.type_ref.as_ref().unwrap();
    assert!(
        type_ref.is_resolved(),
        "type_ref should be pre-resolved to anonymous type"
    );

    let anon_id = type_ref.resolved_def().unwrap();
    let anon = &model.defs[anon_id];
    assert_eq!(anon.kind, DefKind::Type);
    assert_eq!(interner.resolve(anon.name), "~T");
    assert!(anon.conjugation.is_some(), "anonymous type should have conjugation");
    assert_eq!(
        anon.conjugation.as_ref().unwrap().resolution,
        ResolutionState::Unresolved,
        "conjugation target should be unresolved at lowering time"
    );
}

#[test]
fn lower_synthesized_type_precedes_feature_and_both_are_children() {
    let (model, _interner, sink) = lower("package P { type T {} feature g : ~T; }");
    assert!(!sink.has_errors());
    let pkg = model.roots[0];
    // T, then the anonymous ~T, then g; the package lists g before ~T.
    assert_eq!(model.defs.len(), 4);
    let children = &model.defs[pkg].children;
    assert_eq!(children.len(), 3);
    let g = children[1];
    let anon = children[2];
    assert_eq!(g.raw(), 3);
    assert_eq!(anon.raw(), 2);
    assert_eq!(model.defs[anon].parent, Some(pkg));
    assert_eq!(model.defs[g].type_ref.as_ref().unwrap().resolved_def(), Some(anon));
}

#[test]
fn lower_multiplicity_forms() {
    let (model, _interner, sink) =
        lower("package P { type T { feature a : T [4]; feature b : T [*]; feature c : T [1..n]; } }");
    assert!(!sink.has_errors());
    let pkg = model.roots[0];
    let t = model.defs[pkg].children[0];
    let kids = &model.defs[t].children;
    let a = model.defs[kids[0]].multiplicity.as_ref().unwrap();
    assert!(matches!(a.lower, MultBound::Exact(0)));
    assert!(matches!(a.upper, MultBound::Exact(4)));
    let b = model.defs[kids[1]].multiplicity.as_ref().unwrap();
    assert!(matches!(b.lower, MultBound::Exact(0)));
    assert!(matches!(b.upper, MultBound::Unbounded));
    let c = model.defs[kids[2]].multiplicity.as_ref().unwrap();
    assert!(matches!(c.lower, MultBound::Exact(1)));
    match &c.upper {
        MultBound::Ref(r) => {
            assert_eq!(r.segments.len(), 1);
            assert_eq!(r.resolution, ResolutionState::Unresolved);
        }
        _ => panic!("upper bound should refer to n"),
    }
}

#[test]
fn lower_top_level_members_become_roots() {
    let (model, _interner, sink) = lower("package A {} type T {} feature f : T;");
    assert!(!sink.has_errors());
    assert_eq!(model.roots.len(), 3);
    for r in &model.roots {
        assert!(model.defs[*r].parent.is_none());
    }
    assert_eq!(model.defs[model.roots[0]].kind, DefKind::Package);
    assert_eq!(model.defs[model.roots[1]].kind, DefKind::Type);
    assert_eq!(model.defs[model.roots[2]].kind, DefKind::Feature);
}
