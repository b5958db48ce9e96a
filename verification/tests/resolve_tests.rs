use kermlc::diagnostic::DiagnosticSink;
use kermlc::hir::{Def, DefKind, MultBound, NameRef, ResolutionState, SemanticModel};
use kermlc::span::{FileId, Span};
use kermlc::interner::StringInterner;
use kermlc::lower::lower_ast;
use kermlc::parser::Parser;
use kermlc::resolve::{
    detect_specialization_cycles, emit_unresolved_errors, resolve_pass, try_resolve_name,
};
use kermlc::scope::{find_member, resolve_in_scope, resolve_qualified};
use kermlc::source_map::SourceMap;
use kermlc::typeck::typecheck_pass;

fn parse_and_lower(input: &str) -> (SemanticModel, StringInterner, DiagnosticSink) {
    let mut interner = StringInterner::new();
    let mut source_map = SourceMap::new();
    let mut sink = DiagnosticSink::new();
    let file_id = source_map.add_file("test.kerml".into(), input.into());
    let parse = Parser::parse(input, file_id, &mut interner, &mut sink);
    let model = lower_ast(&parse, &mut interner, &mut sink);
    (model, interner, sink)
}

#[test]
fn resolve_resolve_local_type() {
    let (mut model, interner, mut sink) = parse_and_lower("package P { type A {} type B :> A {} }");
    assert!(!sink.has_errors());

    let changed = resolve_pass(&mut model, &interner, &mut sink);
    assert!(changed);

    let pkg = model.roots[0];
    let b_id = model.defs[pkg].children[1];
    assert!(model.defs[b_id].specializations[0].is_resolved());
}

#[test]
fn resolve_resolve_qualified_name() {
    let (mut model, interner, mut sink) =
        parse_and_lower("package A { type X {} } package B { type Y :> A::X {} }");
    assert!(!sink.has_errors());

    let changed = resolve_pass(&mut model, &interner, &mut sink);
    assert!(changed);

    let b_pkg = model.roots[1];
    let y_id = model.defs[b_pkg].children[0];
    assert!(model.defs[y_id].specializations[0].is_resolved());
}

#[test]
fn resolve_resolve_import() {
    let (mut model, interner, mut sink) =
        parse_and_lower("package A { type X {} } package B { import A::*; type Y :> X {} }");
    assert!(!sink.has_errors());

    resolve_pass(&mut model, &interner, &mut sink);
    resolve_pass(&mut model, &interner, &mut sink);

    let b_pkg = model.roots[1];
    let y_id = model.defs[b_pkg].children[0];
    assert!(
        model.defs[y_id].specializations[0].is_resolved(),
        "Y's specialization of X should resolve via import"
    );
}

#[test]
fn resolve_unresolved_name_produces_error() {
    let (mut model, interner, mut sink) = parse_and_lower("package P { type A :> NonExistent {} }");

    resolve_pass(&mut model, &interner, &mut sink);

    let pkg = model.roots[0];
    let a_id = model.defs[pkg].children[0];
    assert!(!model.defs[a_id].specializations[0].is_resolved());

    emit_unresolved_errors(&model, &interner, &mut sink);
    assert!(sink.has_errors());
}

#[test]
fn resolve_direct_cycle_detected_as_error() {
    let (mut model, interner, mut sink) =
        parse_and_lower("package P { type A :> B {} type B :> A {} }");

    resolve_pass(&mut model, &interner, &mut sink);

    let found = detect_specialization_cycles(&model, &interner, &mut sink);
    assert!(found, "should detect cycle between A and B");
    assert!(sink.has_errors());
}

#[test]
fn resolve_self_cycle_detected_as_error() {
    let (mut model, interner, mut sink) = parse_and_lower("package P { type A :> A {} }");

    resolve_pass(&mut model, &interner, &mut sink);

    let found = detect_specialization_cycles(&model, &interner, &mut sink);
    assert!(found, "should detect self-cycle on A");
    assert!(sink.has_errors());
}

#[test]
fn resolve_transitive_cycle_detected() {
    let (mut model, interner, mut sink) =
        parse_and_lower("package P { type A :> B {} type B :> C {} type C :> A {} }");

    resolve_pass(&mut model, &interner, &mut sink);

    let found = detect_specialization_cycles(&model, &interner, &mut sink);
    assert!(found, "should detect transitive cycle A -> B -> C -> A");
    assert!(sink.has_errors());
}

#[test]
fn resolve_no_cycle_in_valid_chain() {
    let (mut model, interner, mut sink) =
        parse_and_lower("package P { type C {} type B :> C {} type A :> B {} }");

    resolve_pass(&mut model, &interner, &mut sink);

    let found = detect_specialization_cycles(&model, &interner, &mut sink);
    assert!(!found, "should not detect cycle in a valid chain");
    assert!(!sink.has_errors());
}

#[test]
fn resolve_resolve_multiplicity_feature_ref() {
    let (mut model, interner, mut sink) =
        parse_and_lower("package P { type T { feature n : T; feature x : T [1..n]; } }");
    assert!(!sink.has_errors(), "parse errors: {:?}", sink.diagnostics());

    resolve_pass(&mut model, &interner, &mut sink);

    let pkg = model.roots[0];
    let ty = model.defs[pkg].children[0];
    let x_id = model.defs[ty].children[1];
    let mult = model.defs[x_id]
        .multiplicity
        .as_ref()
        .expect("x should have multiplicity");

    if let MultBound::Ref(ref name_ref) = mult.upper {
        assert!(
            name_ref.is_resolved(),
            "multiplicity ref 'n' should resolve to the feature"
        );
    } else {
        panic!("upper bound should be MultBound::Ref, got {:?}", mult.upper);
    }
}

#[test]
fn resolve_unresolved_multiplicity_ref_produces_error() {
    let (mut model, interner, mut sink) =
        parse_and_lower("package P { type T { feature x : T [1..noSuchFeature]; } }");

    resolve_pass(&mut model, &interner, &mut sink);
    emit_unresolved_errors(&model, &interner, &mut sink);

    assert!(sink.has_errors(), "unresolved multiplicity ref should produce error");
    let has_mult_error = sink
        .diagnostics()
        .iter()
        .any(|d| d.message.contains("multiplicity bound"));
    assert!(
        has_mult_error,
        "error should mention 'multiplicity bound': {:?}",
        sink.diagnostics()
    );
}

#[test]
fn find_member_direct_child() {
    let (mut model, interner, mut sink) = parse_and_lower("package P { type T { feature f : T; } }");
    resolve_pass(&mut model, &interner, &mut sink);

    let pkg = model.roots[0];
    let t_id = model.defs[pkg].children[0];
    let f_id = model.defs[t_id].children[0];
    let f_name = model.defs[f_id].name;

    let found = find_member(&model, t_id, f_name);
    assert_eq!(found, Some(f_id));
}

#[test]
fn find_member_not_found() {
    let (model, mut interner, _sink) = parse_and_lower("package P { type T { feature f : T; } }");

    let pkg = model.roots[0];
    let t_id = model.defs[pkg].children[0];
    let bad_name = interner.intern("nonexistent");

    let found = find_member(&model, t_id, bad_name);
    assert_eq!(found, None);
}

#[test]
fn find_member_inherited_feature() {
    let (mut model, interner, mut sink) =
        parse_and_lower("package P { type A { feature x : A; } type B :> A {} }");
    for _ in 0..10 {
        let r = resolve_pass(&mut model, &interner, &mut sink);
        let t = typecheck_pass(&mut model, &interner, &mut sink);
        if !r && !t {
            break;
        }
    }

    let pkg = model.roots[0];
    let a_id = model.defs[pkg].children[0];
    let x_id = model.defs[a_id].children[0];
    let x_name = model.defs[x_id].name;
    let b_id = model.defs[pkg].children[1];

    let found = find_member(&model, b_id, x_name);
    assert_eq!(found, Some(x_id));
}

#[test]
fn find_member_no_parent_walking() {
    let (model, mut interner, _sink) = parse_and_lower("package P { type T {} feature outside : T; }");

    let pkg = model.roots[0];
    let t_id = model.defs[pkg].children[0];
    let outside_name = interner.intern("outside");

    let found = find_member(&model, t_id, outside_name);
    assert_eq!(found, None);
}

#[test]
fn resolve_in_scope_walks_up_to_ancestors_then_roots() {
    let (model, mut interner, _sink) =
        parse_and_lower("package Q { type Z {} } package P { type T { feature f : T; } type U {} }");
    let p = model.roots[1];
    let t = model.defs[p].children[0];
    let f = model.defs[t].children[0];
    let u = model.defs[p].children[1];
    let u_name = interner.intern("U");
    let q_name = interner.intern("Q");
    let z_name = interner.intern("Z");
    // From inside feature f, `U` is found in the enclosing package.
    assert_eq!(resolve_in_scope(&model, f, u_name), Some(u));
    // `Q` is a root.
    assert_eq!(resolve_in_scope(&model, f, q_name), Some(model.roots[0]));
    // `Z` is only reachable qualified.
    assert_eq!(resolve_in_scope(&model, f, z_name), None);
    let z = model.defs[model.roots[0]].children[0];
    assert_eq!(resolve_qualified(&model, f, &[q_name, z_name]), Some(z));
}

#[test]
fn try_resolve_through_named_import() {
    let (mut model, mut interner, mut sink) =
        parse_and_lower("package A { type X {} } package B { import A::X; type Y :> X {} }");
    resolve_pass(&mut model, &interner, &mut sink);
    let b = model.roots[1];
    let y = model.defs[b].children[0];
    let x = model.defs[model.roots[0]].children[0];
    assert_eq!(model.defs[b].imports[0].path.resolved_def(), Some(x));
    assert_eq!(model.defs[y].specializations[0].resolved_def(), Some(x));
    let x_name = interner.intern("X");
    assert_eq!(try_resolve_name(&model, y, &[x_name]), Some(x));
    assert_eq!(try_resolve_name(&model, y, &[]), None);
}

#[test]
fn unresolved_error_names_the_qualified_path() {
    let (mut model, interner, mut sink) = parse_and_lower("package P { type A :> No::Such {} }");
    resolve_pass(&mut model, &interner, &mut sink);
    emit_unresolved_errors(&model, &interner, &mut sink);
    let ds = sink.diagnostics();
    assert_eq!(ds.len(), 1);
    assert_eq!(ds[0].message, "unresolved type `No::Such`");
    assert_eq!(ds[0].labels.len(), 1);
    assert_eq!(ds[0].labels[0].message, "not found");
}

#[test]
fn cycle_error_names_the_type() {
    let (mut model, interner, mut sink) = parse_and_lower("package P { type A :> A {} }");
    resolve_pass(&mut model, &interner, &mut sink);
    detect_specialization_cycles(&model, &interner, &mut sink);
    let ds = sink.diagnostics();
    assert_eq!(ds.len(), 1);
    assert_eq!(
        ds[0].message,
        "circular specialization: `A` is part of a specialization cycle"
    );
    assert_eq!(ds[0].labels[0].message, "cycle detected here");
}

#[test]
fn resolution_only_turns_unresolved_into_resolved() {
    let (mut model, interner, mut sink) = parse_and_lower("package P { type A {} type B :> A, Missing {} }");
    resolve_pass(&mut model, &interner, &mut sink);
    let pkg = model.roots[0];
    let a = model.defs[pkg].children[0];
    let b = model.defs[pkg].children[1];
    assert_eq!(model.defs[b].specializations[0].resolution, ResolutionState::Resolved(a));
    assert_eq!(model.defs[b].specializations[1].resolution, ResolutionState::Unresolved);
    // A second pass resolves nothing more and reports no progress.
    let changed = resolve_pass(&mut model, &interner, &mut sink);
    assert!(!changed);
    assert_eq!(model.defs[b].specializations[0].resolution, ResolutionState::Resolved(a));
}

#[test]
fn chain_segment_not_found_in_type_is_reported() {
    let mut interner = StringInterner::new();
    let x = interner.intern("x");
    let a = interner.intern("a");
    let b = interner.intern("b");
    let mut model = SemanticModel::new();
    let mut d = Def::new(x, DefKind::Feature, Span::new(FileId(0), 0, 1));
    let first = NameRef::unresolved(vec![a], Span::new(FileId(0), 2, 3));
    let mut second = NameRef::unresolved(vec![b], Span::new(FileId(0), 4, 5));
    second.resolution = ResolutionState::Error;
    d.chain_segments.push(first);
    d.chain_segments.push(second);
    model.alloc_def(d);
    let mut sink = DiagnosticSink::new();
    emit_unresolved_errors(&model, &interner, &mut sink);
    let ds = sink.diagnostics();
    assert_eq!(ds.len(), 2);
    assert_eq!(ds[0].message, "unresolved chain segment `a`");
    assert_eq!(ds[0].labels[0].message, "not found");
    assert_eq!(ds[1].message, "unresolved chain segment `b`");
    assert_eq!(ds[1].labels.len(), 1);
    assert_eq!(ds[1].labels[0].message, "member not found in type");
    assert_eq!(ds[1].labels[0].span, Span::new(FileId(0), 4, 5));
}
