use kermlc::arena::Arena;
use kermlc::ast::{PackageDecl, QualifiedName, TypeDecl};
use kermlc::diagnostic::{Diagnostic, DiagnosticSink, Label, Severity};
use kermlc::hir::{conjugate_direction, FeatureDirection, MultBound, NameRef};
use kermlc::interner::StringInterner;
use kermlc::source_map::SourceMap;
use kermlc::span::{FileId, Span};

#[test]
fn create_error_diagnostic() {
    let diag = Diagnostic::error("type not found")
        .with_code("E0001")
        .with_label(Label::primary(Span::new(FileId(0), 10, 20), "not found here"));
    assert_eq!(diag.severity, Severity::Error);
    assert_eq!(diag.message, "type not found");
    assert_eq!(diag.labels.len(), 1);
}

#[test]
fn build_simple_ast() {
    let mut interner = StringInterner::new();
    let mut packages = Arena::new();

    let pkg_name = interner.intern("Vehicles");
    let pkg_id = packages.allocate(PackageDecl {
        name: pkg_name,
        span: Span::dummy(),
        imports: vec![],
        members: vec![],
    });

    assert_eq!(interner.resolve(packages[pkg_id].name), "Vehicles");
}

#[test]
fn type_decl_with_specialization() {
    let mut interner = StringInterner::new();
    let mut types = Arena::new();

    let name = interner.intern("Car");
    let vehicle = interner.intern("Vehicle");
    let type_id = types.allocate(TypeDecl {
        name,
        span: Span::dummy(),
        specializations: vec![QualifiedName { segments: vec![vehicle], span: Span::dummy() }],
        conjugation: None,
        members: vec![],
    });

    assert_eq!(types[type_id].specializations.len(), 1);
}

#[test]
fn add_file_and_retrieve() {
    let mut sm = SourceMap::new();
    let id = sm.add_file("test.kerml".into(), "package Foo {}".into());
    assert_eq!(sm.file_name(id), "test.kerml");
    assert_eq!(sm.file_source(id), "package Foo {}");
}

#[test]
fn line_col_from_offset() {
    let mut sm = SourceMap::new();
    let id = sm.add_file("test.kerml".into(), "line1\nline2\nline3".into());
    // 'l' of "line2" is at byte offset 6
    let (line, col) = sm.line_col(id, 6);
    assert_eq!(line, 1); // 0-indexed lines
    assert_eq!(col, 0);
}

#[test]
fn span_creation() {
    let span = Span::new(FileId(0), 10, 25);
    assert_eq!(span.file, FileId(0));
    assert_eq!(span.start, 10);
    assert_eq!(span.end, 25);
}

#[test]
fn span_len() {
    let span = Span::new(FileId(0), 10, 25);
    assert_eq!(span.len(), 15);
}

#[test]
fn dummy_span() {
    let span = Span::dummy();
    assert_eq!(span.file, FileId(u32::MAX));
}

#[test]
fn conjugate_in_becomes_out() {
    assert_eq!(conjugate_direction(Some(FeatureDirection::In)), Some(FeatureDirection::Out));
}

#[test]
fn conjugate_out_becomes_in() {
    assert_eq!(conjugate_direction(Some(FeatureDirection::Out)), Some(FeatureDirection::In));
}

#[test]
fn conjugate_inout_stays_inout() {
    assert_eq!(conjugate_direction(Some(FeatureDirection::InOut)), Some(FeatureDirection::InOut));
}

#[test]
fn conjugate_none_stays_none() {
    assert_eq!(conjugate_direction(None), None);
}

#[test]
fn types_mult_bound_ref_is_not_copy() {
    let nr = NameRef::unresolved(vec![], Span::new(FileId(0), 0, 0));
    let bound = MultBound::Ref(nr);
    let _cloned = bound.clone();
}

#[test]
fn alloc_and_get() {
    let mut arena: Arena<String> = Arena::new();
    let id = arena.allocate("hello".to_string());
    assert_eq!(arena[id], "hello");
}

#[test]
fn alloc_returns_sequential_ids() {
    let mut arena: Arena<u32> = Arena::new();
    let a = arena.allocate(10);
    let b = arena.allocate(20);
    assert_eq!(a.raw(), 0);
    assert_eq!(b.raw(), 1);
}

#[test]
fn arena_len() {
    let mut arena: Arena<u32> = Arena::new();
    assert_eq!(arena.len(), 0);
    arena.allocate(1);
    arena.allocate(2);
    assert_eq!(arena.len(), 2);
}

#[test]
fn mutable_access() {
    let mut arena: Arena<String> = Arena::new();
    let id = arena.allocate("hello".to_string());
    *arena.get_mut(id) = "world".to_string();
    assert_eq!(arena[id], "world");
}

#[test]
fn iter_over_arena() {
    let mut arena: Arena<u32> = Arena::new();
    let a = arena.allocate(10);
    let b = arena.allocate(20);
    let items = arena.iter();
    assert_eq!(items, vec![(a, &10), (b, &20)]);
}

// Own tests.

#[test]
fn conjugating_twice_restores_every_direction() {
    for d in [None, Some(FeatureDirection::In), Some(FeatureDirection::Out), Some(FeatureDirection::InOut)] {
        assert_eq!(conjugate_direction(conjugate_direction(d)), d);
    }
}

#[test]
fn interning_is_idempotent_and_faithful() {
    let mut interner = StringInterner::new();
    let a = interner.intern("Car");
    let b = interner.intern("Vehicle");
    let a2 = interner.intern("Car");
    assert_eq!(a, a2);
    assert_ne!(a, b);
    assert_eq!(interner.resolve(a), "Car");
    assert_eq!(interner.resolve(b), "Vehicle");
    assert_eq!(interner.len(), 2);
}

#[test]
fn sink_keeps_errors_once_emitted() {
    let mut sink = DiagnosticSink::new();
    assert!(!sink.has_errors());
    sink.emit(Diagnostic::warning("careful"));
    assert!(!sink.has_errors());
    sink.emit(Diagnostic::error("broken"));
    assert!(sink.has_errors());
    sink.emit(Diagnostic::warning("again"));
    assert!(sink.has_errors());
    assert_eq!(sink.diagnostics().len(), 3);
}

#[test]
fn line_col_at_file_start_and_last_line() {
    let mut sm = SourceMap::new();
    let id = sm.add_file("a.kerml".into(), "ab\ncd\n\nef".into());
    assert_eq!(sm.line_col(id, 0), (0, 0));
    assert_eq!(sm.line_col(id, 4), (1, 1));
    assert_eq!(sm.line_col(id, 6), (2, 0));
    assert_eq!(sm.line_col(id, 8), (3, 1));
    assert_eq!(sm.line_starts(id), &[0, 3, 6, 7]);
    assert_eq!(sm.file_count(), 1);
}

#[test]
fn span_merge_covers_both() {
    let a = Span::new(FileId(1), 5, 9);
    let b = Span::new(FileId(1), 2, 7);
    let m = a.merge(b);
    assert_eq!(m, Span::new(FileId(1), 2, 9));
    assert!(Span::new(FileId(1), 3, 3).is_empty());
}
