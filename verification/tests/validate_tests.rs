use kermlc::diagnostic::{DiagnosticSink, Severity};
use kermlc::hir::SemanticModel;
use kermlc::interner::StringInterner;
use kermlc::lower::lower_ast;
use kermlc::parser::Parser;
use kermlc::resolve::{emit_unresolved_errors, resolve_pass};
use kermlc::source_map::SourceMap;
use kermlc::typeck::typecheck_pass;
use kermlc::validate::{decimal_text, validate};

fn compile_and_validate(input: &str) -> (SemanticModel, DiagnosticSink) {
    let mut interner = StringInterner::new();
    let mut source_map = SourceMap::new();
    let mut sink = DiagnosticSink::new();
    let file_id = source_map.add_file("test.kerml".into(), input.into());
    let parse = Parser::parse(input, file_id, &mut interner, &mut sink);
    let mut model = lower_ast(&parse, &mut interner, &mut sink);

    for _ in 0..10 {
        let r = resolve_pass(&mut model, &interner, &mut sink);
        let t = typecheck_pass(&mut model, &interner, &mut sink);
        if !r && !t {
            break;
        }
    }
    emit_unresolved_errors(&model, &interner, &mut sink);

    validate(&model, &interner, &mut sink);
    (model, sink)
}

#[test]
fn valid_model_passes() {
    let (_model, sink) = compile_and_validate("package P { type A {} type B :> A { feature x : A; } }");
    assert!(!sink.has_errors());
}

#[test]
fn invalid_multiplicity_bounds() {
    let (_model, sink) = compile_and_validate("package P { type T { feature x : T [5..2]; } }");
    assert!(sink.has_errors());
}

#[test]
fn specialization_target_must_be_type() {
    let (_model, sink) = compile_and_validate("package P { type A :> P {} }");
    assert!(sink.has_errors());
}

#[test]
fn duplicate_features_detected() {
    let (_model, sink) = compile_and_validate("package P { type A { feature x : A; feature x : A; } }");
    assert!(sink.has_errors());
}

#[test]
fn feature_conjugation_target_must_be_feature() {
    let (_model, sink) = compile_and_validate("package P { type A { in feature f; } feature g ~ A; }");
    assert!(sink.has_errors(), "conjugating a Type (not Feature) should error");
}

#[test]
fn feature_conjugation_valid() {
    let (_model, sink) = compile_and_validate("package P { type A { in feature f; } feature g ~ A::f; }");
    assert!(
        !sink.has_errors(),
        "valid feature conjugation should pass: {:?}",
        sink.diagnostics()
    );
}

#[test]
fn conjugation_target_no_features_warns() {
    let (_model, sink) = compile_and_validate("package P { type Empty {} type B ~ Empty {} }");
    assert!(!sink.has_errors());
    let warnings: Vec<_> = sink
        .diagnostics()
        .iter()
        .filter(|d| d.message.contains("no features"))
        .collect();
    assert!(
        !warnings.is_empty(),
        "should warn about conjugation target with no features"
    );
}

#[test]
fn multiplicity_with_feature_ref_defers_validation() {
    let (_model, sink) =
        compile_and_validate("package P { type T { feature n : T; feature x : T [5..n]; } }");
    let bound_errors: Vec<_> = sink
        .diagnostics()
        .iter()
        .filter(|d| d.message.contains("exceeds upper bound"))
        .collect();
    assert!(
        bound_errors.is_empty(),
        "symbolic bound should defer validation, got: {:?}",
        bound_errors
    );
}

#[test]
fn validation_messages_are_exact() {
    let (_model, sink) = compile_and_validate("package P { type A :> P {} type T { feature x : T [5..2]; } }");
    let messages: Vec<&str> = sink.diagnostics().iter().map(|d| d.message.as_str()).collect();
    assert_eq!(
        messages,
        vec![
            "`P` is a Package, not a type",
            "multiplicity lower bound (5) exceeds upper bound (2)",
        ]
    );
    let d = &sink.diagnostics()[0];
    assert_eq!(d.labels.len(), 1);
    assert_eq!(d.labels[0].message, "expected a type here");
}

#[test]
fn duplicate_feature_labels_both_definitions() {
    let (_model, sink) = compile_and_validate("package P { type A { feature x : A; feature y : A; feature x : A; } }");
    let ds = sink.diagnostics();
    assert_eq!(ds.len(), 1);
    assert_eq!(ds[0].message, "duplicate feature `x`");
    assert_eq!(ds[0].labels.len(), 2);
    assert_eq!(ds[0].labels[0].message, "duplicate definition");
    assert_eq!(ds[0].labels[1].message, "first defined here");
    assert!(ds[0].labels[0].span.start > ds[0].labels[1].span.start);
}

#[test]
fn self_conjugation_is_an_error() {
    let (_model, sink) = compile_and_validate(
        "package P { type A { feature f : A; } conjugation c conjugate A conjugates A; }",
    );
    let errs: Vec<_> = sink
        .diagnostics()
        .iter()
        .filter(|d| d.message == "type `A` cannot conjugate itself")
        .collect();
    assert_eq!(errs.len(), 1, "{:?}", sink.diagnostics());
}

#[test]
fn redefinition_widening_and_narrowing() {
    let (_model, sink) = compile_and_validate(
        "package P { type A { feature x : A [2..3]; } type B :> A { feature x : A [1..*]; } }",
    );
    let ds = sink.diagnostics();
    let msgs: Vec<&str> = ds.iter().map(|d| d.message.as_str()).collect();
    assert!(msgs.contains(&"redefined feature `x` narrows lower multiplicity bound from 2 to 1"), "{msgs:?}");
    assert!(msgs.contains(&"redefined feature `x` widens upper multiplicity bound to unbounded"), "{msgs:?}");
    let narrow = ds.iter().find(|d| d.message.contains("narrows")).unwrap();
    assert_eq!(narrow.severity, Severity::Warning);
    let widen = ds.iter().find(|d| d.message.contains("widens")).unwrap();
    assert_eq!(widen.severity, Severity::Error);
}

#[test]
fn decimal_text_of_numbers() {
    assert_eq!(decimal_text(0), "0");
    assert_eq!(decimal_text(7), "7");
    assert_eq!(decimal_text(10), "10");
    assert_eq!(decimal_text(4096), "4096");
    assert_eq!(decimal_text(u64::MAX), "18446744073709551615");
}
