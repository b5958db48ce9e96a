use kermlc::diagnostic::DiagnosticSink;
use kermlc::hir::SemanticModel;
use kermlc::interner::StringInterner;
use kermlc::lower::lower_ast;
use kermlc::parser::Parser;
use kermlc::pipeline::{finalize_resolution, resolve_and_typecheck};
use kermlc::resolve::resolve_pass;
use kermlc::source_map::SourceMap;

fn compile(input: &str) -> (SemanticModel, StringInterner, DiagnosticSink) {
    let mut interner = StringInterner::new();
    let mut source_map = SourceMap::new();
    let mut sink = DiagnosticSink::new();
    let file_id = source_map.add_file("test.kerml".into(), input.into());
    let parse = Parser::parse(input, file_id, &mut interner, &mut sink);
    let mut model = lower_ast(&parse, &mut interner, &mut sink);
    resolve_and_typecheck(&mut model, &interner, &mut sink);
    (model, interner, sink)
}

/// The front end with the standard library, as a driver runs it.
fn compile_source(source: &str) -> (SemanticModel, StringInterner, DiagnosticSink) {
    let c = kermlc::compile_source(source, "test.kerml").unwrap();
    (c.model, c.interner, c.sink)
}

#[test]
fn fixpoint_resolves_cross_references() {
    let (model, _interner, sink) = compile(
        r#"
        package P {
            type A { feature x : B; }
            type B { feature y : A; }
        }
        "#,
    );
    assert!(!sink.has_errors());

    let pkg = model.roots[0];
    let a_id = model.defs[pkg].children[0];
    let b_id = model.defs[pkg].children[1];

    let x_id = model.defs[a_id].children[0];
    assert!(model.defs[x_id].type_ref.as_ref().unwrap().is_resolved());
    assert_eq!(model.defs[x_id].type_ref.as_ref().unwrap().resolved_def(), Some(b_id));

    let y_id = model.defs[b_id].children[0];
    assert!(model.defs[y_id].type_ref.as_ref().unwrap().is_resolved());
    assert_eq!(model.defs[y_id].type_ref.as_ref().unwrap().resolved_def(), Some(a_id));
}

#[test]
fn fixpoint_resolves_specialization_chain() {
    let (model, interner, sink) = compile(
        r#"
        package P {
            type A { feature x : A; }
            type B :> A {}
            type C :> B {}
        }
        "#,
    );
    assert!(!sink.has_errors());

    let pkg = model.roots[0];
    let c_id = model.defs[pkg].children[2];
    assert_eq!(interner.resolve(model.defs[c_id].name), "C");
    assert!(model.defs[c_id].type_checked);

    assert!(
        !model.defs[c_id].inherited_features.is_empty(),
        "C should inherit features from B which inherits from A"
    );
}

#[test]
fn fixpoint_with_imports() {
    let (model, interner, sink) = compile(
        r#"
        package Lib { type Base { feature id : Base; } }
        package App {
            import Lib::*;
            type Widget :> Base {}
        }
        "#,
    );
    assert!(!sink.has_errors());

    let app_pkg = model.roots[1];
    let widget_id = model.defs[app_pkg].children[0];
    assert_eq!(interner.resolve(model.defs[widget_id].name), "Widget");
    assert!(model.defs[widget_id].specializations[0].is_resolved());
    assert!(model.defs[widget_id].type_checked);
}

#[test]
fn fixpoint_unresolved_emits_error() {
    let (_model, _interner, sink) = compile("package P { type A :> DoesNotExist {} }");
    assert!(sink.has_errors());
}

#[test]
fn cross_package_qualified_resolution() {
    let (_model, _interner, sink) = compile_source(
        r#"
        package A { type X {} }
        package B { type Y :> A::X {} }
        "#,
    );
    assert!(
        !sink.has_errors(),
        "Cross-package qualified name should resolve: {:?}",
        sink.diagnostics()
    );
}

#[test]
fn specialization_chain_inherits_features() {
    let (model, _interner, sink) = compile_source(
        r#"
        package P {
            type A { feature x : A; }
            type B :> A {}
            type C :> B {}
        }
        "#,
    );
    assert!(!sink.has_errors());

    let pkg = model.roots[0];
    let c_id = model.defs[pkg].children[2];
    assert!(
        !model.defs[c_id].inherited_features.is_empty(),
        "C should inherit features through specialization chain A -> B -> C"
    );
}

#[test]
fn validation_catches_bad_multiplicity() {
    let (_model, _interner, sink) = compile_source("package P { type T { feature x : T [5..2]; } }");
    assert!(sink.has_errors(), "Should catch lower > upper multiplicity");
}

#[test]
fn fixpoint_reports_unresolved_before_cycles() {
    let (_model, _interner, sink) = compile("package P { type A :> A, Nowhere {} }");
    let ds = sink.diagnostics();
    assert_eq!(ds.len(), 2);
    assert_eq!(ds[0].message, "unresolved type `Nowhere`");
    assert_eq!(
        ds[1].message,
        "circular specialization: `A` is part of a specialization cycle"
    );
}

#[test]
fn stdlib_types_are_inherited_implicitly() {
    let (model, interner, sink) = compile_source("package P { type T {} }");
    assert!(!sink.has_errors(), "{:?}", sink.diagnostics());
    let pkg = model.roots[0];
    let t = model.defs[pkg].children[0];
    assert_eq!(model.defs[t].specializations.len(), 1);
    let base = model.defs[t].specializations[0].resolved_def().unwrap();
    assert_eq!(interner.resolve(model.defs[base].name), "Anything");
    assert!(model.defs[t].type_checked);
}

#[test]
fn compile_source_keeps_the_file_and_adds_the_library() {
    let c = kermlc::compile_source("package P { type T {} }", "model.kerml").unwrap();
    assert!(!c.sink.has_errors());
    assert_eq!(c.source_map.file_count(), 1);
    let f = kermlc::span::FileId(0);
    assert_eq!(c.source_map.file_name(f), "model.kerml");
    assert_eq!(c.source_map.file_source(f), "package P { type T {} }");
    // The package and its type, then the six library types.
    assert_eq!(c.model.defs.len(), 8);
    assert_eq!(c.model.roots.len(), 7);
    let names: Vec<&str> = c.model.roots[1..].iter().map(|&r| c.interner.resolve(c.model.defs[r].name)).collect();
    assert_eq!(names, vec!["Anything", "Object", "DataValue", "Occurrence", "Performance", "Link"]);
}

#[test]
fn compile_source_reports_parse_errors_first() {
    let c = kermlc::compile_source("package P { type T : }", "broken.kerml").unwrap();
    assert!(c.sink.has_errors());
    assert!(!c.sink.diagnostics().is_empty());
}

fn parse_and_lower(input: &str) -> (SemanticModel, StringInterner, DiagnosticSink) {
    let mut interner = StringInterner::new();
    let mut source_map = SourceMap::new();
    let mut sink = DiagnosticSink::new();
    let file_id = source_map.add_file("test.kerml".into(), input.into());
    let parse = Parser::parse(input, file_id, &mut interner, &mut sink);
    let model = lower_ast(&parse, &mut interner, &mut sink);
    (model, interner, sink)
}

#[test]
fn finalize_resolution_emits_unresolved_errors() {
    let (mut model, interner, mut sink) = parse_and_lower("package P { type A :> NonExistent {} }");
    resolve_pass(&mut model, &interner, &mut sink);

    finalize_resolution(&model, &interner, &mut sink);

    assert!(sink.has_errors());
    let has_unresolved = sink
        .diagnostics()
        .iter()
        .any(|d| d.message.contains("unresolved type `NonExistent`"));
    assert!(has_unresolved, "finalizer must emit unresolved-name errors");
}

#[test]
fn finalize_resolution_detects_specialization_cycles() {
    let (mut model, interner, mut sink) = parse_and_lower("package P { type A :> B {} type B :> A {} }");
    resolve_pass(&mut model, &interner, &mut sink);

    finalize_resolution(&model, &interner, &mut sink);

    assert!(sink.has_errors());
    let has_cycle = sink
        .diagnostics()
        .iter()
        .any(|d| d.message.contains("circular specialization"));
    assert!(has_cycle, "finalizer must detect specialization cycles");
}
