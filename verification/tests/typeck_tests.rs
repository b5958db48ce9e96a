use kermlc::diagnostic::DiagnosticSink;
use kermlc::hir::{FeatureDirection, InheritanceKind, SemanticModel};
use kermlc::interner::StringInterner;
use kermlc::lower::lower_ast;
use kermlc::parser::Parser;
use kermlc::resolve::resolve_pass;
use kermlc::source_map::SourceMap;
use kermlc::typeck::typecheck_pass;

fn compile_to_model(input: &str) -> (SemanticModel, StringInterner, DiagnosticSink) {
    let mut interner = StringInterner::new();
    let mut source_map = SourceMap::new();
    let mut sink = DiagnosticSink::new();
    let file_id = source_map.add_file("test.kerml".into(), input.into());
    let parse = Parser::parse(input, file_id, &mut interner, &mut sink);
    let mut model = lower_ast(&parse, &mut interner, &mut sink);

    for _ in 0..10 {
        let r = resolve_pass(&mut model, &interner, &mut sink);
        let t = typecheck_pass(&mut model, &interner, &mut sink);
        if !r && !t {
            break;
        }
    }

    (model, interner, sink)
}

#[test]
fn check_specialization_adds_inherited_features() {
    let (model, interner, sink) =
        compile_to_model("package P { type A { feature x : A; } type B :> A {} }");
    assert!(!sink.has_errors());

    let pkg = model.roots[0];
    let b_id = model.defs[pkg].children[1];
    assert_eq!(interner.resolve(model.defs[b_id].name), "B");
    assert!(model.defs[b_id].type_checked);

    assert!(
        !model.defs[b_id].inherited_features.is_empty(),
        "B should inherit features from A"
    );
}

#[test]
fn check_conjugation_inherits_features() {
    let (model, interner, sink) =
        compile_to_model("package P { type T { feature f : T; } type U ~ T {} }");
    assert!(!sink.has_errors());

    let pkg = model.roots[0];
    let u_id = model.defs[pkg].children[1];
    assert_eq!(interner.resolve(model.defs[u_id].name), "U");
    assert!(model.defs[u_id].type_checked);
    assert!(
        !model.defs[u_id].inherited_features.is_empty(),
        "U should inherit features from conjugated T"
    );
}

#[test]
fn check_conjugation_flips_directions() {
    let (model, interner, _sink) = compile_to_model(
        r#"package P {
            type A {
                in feature f : A;
                out feature g : A;
                inout feature h : A;
                feature x : A;
            }
            type B ~ A {}
        }"#,
    );

    let pkg = model.roots[0];
    let b_id = model.defs[pkg].children[1];
    assert_eq!(interner.resolve(model.defs[b_id].name), "B");

    let inherited = &model.defs[b_id].inherited_features;
    assert_eq!(inherited.len(), 4);

    for inh in inherited {
        let name = interner.resolve(model.defs[inh.def_id].name);
        assert_eq!(inh.kind, InheritanceKind::Conjugation);
        match name {
            "f" => assert_eq!(inh.direction_override, Some(FeatureDirection::Out)),
            "g" => assert_eq!(inh.direction_override, Some(FeatureDirection::In)),
            "h" => assert_eq!(inh.direction_override, Some(FeatureDirection::InOut)),
            "x" => {
                assert_eq!(inh.direction_override, None)
            }
            other => panic!("unexpected feature: {other}"),
        }
    }
}

#[test]
fn check_feature_type_ref_resolved() {
    let (model, interner, sink) =
        compile_to_model("package P { type A {} type B { feature x : A; } }");
    assert!(!sink.has_errors());

    let pkg = model.roots[0];
    let b_id = model.defs[pkg].children[1];
    let x_id = model.defs[b_id].children[0];
    assert_eq!(interner.resolve(model.defs[x_id].name), "x");
    assert!(model.defs[x_id].type_ref.as_ref().unwrap().is_resolved());
    assert!(model.defs[x_id].type_checked);
}

#[test]
fn inherited_features_are_sorted_and_unique() {
    let (model, _interner, _sink) = compile_to_model(
        "package P { type A { feature x : A; feature y : A; } type B :> A { feature z : A; } type C :> A, B {} }",
    );
    let pkg = model.roots[0];
    let c = model.defs[pkg].children[2];
    let inh = &model.defs[c].inherited_features;
    // x and y from A, z from B, and A's features again through B only once.
    assert_eq!(inh.len(), 3);
    for w in inh.windows(2) {
        assert!(w[0].def_id.raw() < w[1].def_id.raw());
    }
    for f in inh {
        assert_eq!(f.kind, InheritanceKind::Specialization);
        assert_eq!(f.direction_override, None);
    }
}

#[test]
fn type_waits_for_unresolved_specialization() {
    let (model, _interner, _sink) = compile_to_model("package P { type A :> Missing {} }");
    let pkg = model.roots[0];
    let a = model.defs[pkg].children[0];
    assert!(!model.defs[a].type_checked);
    assert!(model.defs[a].inherited_features.is_empty());
}

#[test]
fn conjugating_twice_restores_direction() {
    let (model, interner, _sink) = compile_to_model(
        "package P { type A { in feature f : A; } type B ~ A {} type C ~ B {} }",
    );
    let pkg = model.roots[0];
    let c = model.defs[pkg].children[2];
    let inh = &model.defs[c].inherited_features;
    assert_eq!(inh.len(), 1);
    assert_eq!(interner.resolve(model.defs[inh[0].def_id].name), "f");
    assert_eq!(inh[0].direction_override, Some(FeatureDirection::In));
}

#[test]
fn nested_types_not_inherited() {
    let (model, interner, sink) =
        compile_to_model("package P { type A { type Inner {} feature f : A; } type B :> A {} }");
    assert!(!sink.has_errors(), "{:?}", sink.diagnostics());

    let pkg = model.roots[0];
    let b_id = model.defs[pkg].children[1];
    assert_eq!(interner.resolve(model.defs[b_id].name), "B");

    assert_eq!(
        model.defs[b_id].inherited_features.len(),
        1,
        "B should only inherit features, not nested types"
    );
    let name = interner.resolve(model.defs[model.defs[b_id].inherited_features[0].def_id].name);
    assert_eq!(name, "f");
}

#[test]
fn conjugation_declaration_conjugates_the_type() {
    let (model, interner, sink) = compile_to_model(
        "package P { type A { in feature f : A; } type B {} conjugation c conjugate B conjugates A; }",
    );
    assert!(!sink.has_errors(), "{:?}", sink.diagnostics());
    let pkg = model.roots[0];
    let a_id = model.defs[pkg].children[0];
    let b_id = model.defs[pkg].children[1];
    let c_id = model.defs[pkg].children[2];
    assert_eq!(interner.resolve(model.defs[b_id].name), "B");
    let conj = model.defs[b_id].conjugation.as_ref().expect("B should conjugate A");
    assert_eq!(conj.resolved_def(), Some(a_id));
    assert!(model.defs[b_id].type_checked);
    assert!(model.defs[c_id].type_checked);
    assert_eq!(model.defs[b_id].inherited_features.len(), 1);
    let inh = &model.defs[b_id].inherited_features[0];
    assert_eq!(inh.kind, InheritanceKind::Conjugation);
    assert_eq!(inh.direction_override, Some(FeatureDirection::Out));
}

#[test]
fn conjugation_declaration_keeps_an_existing_conjugation() {
    let (model, _interner, sink) = compile_to_model(
        "package P { type A { in feature f : A; } type D { out feature g : D; } type B ~ D {} conjugation c conjugate B conjugates A; }",
    );
    assert!(!sink.has_errors(), "{:?}", sink.diagnostics());
    let pkg = model.roots[0];
    let d_id = model.defs[pkg].children[1];
    let b_id = model.defs[pkg].children[2];
    let c_id = model.defs[pkg].children[3];
    assert_eq!(model.defs[b_id].conjugation.as_ref().unwrap().resolved_def(), Some(d_id));
    assert!(model.defs[c_id].type_checked);
}
