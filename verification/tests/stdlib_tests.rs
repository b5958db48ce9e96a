use kermlc::hir::{Def, DefKind, NameRef, ResolutionState, SemanticModel};
use kermlc::interner::StringInterner;
use kermlc::span::Span;
use kermlc::stdlib::{add_implicit_specializations, load_stdlib};

#[test]
fn stdlib_creates_six_types() {
    let mut model = SemanticModel::new();
    let mut interner = StringInterner::new();
    let stdlib = load_stdlib(&mut model, &mut interner);

    assert_eq!(model.roots.len(), 6);
    assert_eq!(model.defs[stdlib.anything].kind, DefKind::Type);
    assert_eq!(
        interner.resolve(model.defs[stdlib.anything].name),
        "Anything"
    );

    // Object specializes Anything
    let object = &model.defs[stdlib.object];
    assert_eq!(object.specializations.len(), 1);
    assert_eq!(
        object.specializations[0].resolution,
        ResolutionState::Resolved(stdlib.anything)
    );
}

#[test]
fn implicit_specialization_added_for_type_without_explicit() {
    let mut model = SemanticModel::new();
    let mut interner = StringInterner::new();
    let stdlib = load_stdlib(&mut model, &mut interner);

    // Create a user-defined type with no explicit specialization
    let user_type = model.alloc_def(Def::new(
        interner.intern("Vehicle"),
        DefKind::Type,
        Span::dummy(),
    ));
    model.roots.push(user_type);

    add_implicit_specializations(&mut model, &stdlib);

    // Vehicle should now implicitly specialize Anything
    let vehicle = &model.defs[user_type];
    assert_eq!(vehicle.specializations.len(), 1);
    assert_eq!(
        vehicle.specializations[0].resolution,
        ResolutionState::Resolved(stdlib.anything)
    );
}

#[test]
fn implicit_specialization_not_added_when_explicit_exists() {
    let mut model = SemanticModel::new();
    let mut interner = StringInterner::new();
    let stdlib = load_stdlib(&mut model, &mut interner);

    // Create a type that already has an explicit specialization
    let base = model.alloc_def(Def::new(
        interner.intern("Base"),
        DefKind::Type,
        Span::dummy(),
    ));
    model.roots.push(base);

    let mut child_def = Def::new(interner.intern("Child"), DefKind::Type, Span::dummy());
    child_def.specializations.push(NameRef {
        segments: vec![interner.intern("Base")],
        span: Span::dummy(),
        resolution: ResolutionState::Resolved(base),
    });
    let child = model.alloc_def(child_def);
    model.roots.push(child);

    add_implicit_specializations(&mut model, &stdlib);

    // Child should still have only its explicit specialization
    assert_eq!(model.defs[child].specializations.len(), 1);
    assert_eq!(
        model.defs[child].specializations[0].resolution,
        ResolutionState::Resolved(base)
    );
}

#[test]
fn implicit_specialization_not_added_to_stdlib_types() {
    let mut model = SemanticModel::new();
    let mut interner = StringInterner::new();
    let stdlib = load_stdlib(&mut model, &mut interner);

    add_implicit_specializations(&mut model, &stdlib);

    // Anything should have no specializations
    assert_eq!(model.defs[stdlib.anything].specializations.len(), 0);
    // Object should still have exactly one (explicit -> Anything)
    assert_eq!(model.defs[stdlib.object].specializations.len(), 1);
}

#[test]
fn implicit_specialization_not_added_to_packages_or_features() {
    let mut model = SemanticModel::new();
    let mut interner = StringInterner::new();
    let stdlib = load_stdlib(&mut model, &mut interner);

    let pkg = model.alloc_def(Def::new(
        interner.intern("MyPkg"),
        DefKind::Package,
        Span::dummy(),
    ));
    model.roots.push(pkg);

    let feat = model.alloc_def(Def::new(
        interner.intern("myFeat"),
        DefKind::Feature,
        Span::dummy(),
    ));
    model.roots.push(feat);

    add_implicit_specializations(&mut model, &stdlib);

    assert_eq!(model.defs[pkg].specializations.len(), 0);
    assert_eq!(model.defs[feat].specializations.len(), 0);
}

// Own tests.

#[test]
fn library_types_are_roots_in_order_and_checked() {
    let mut model = SemanticModel::new();
    let mut interner = StringInterner::new();
    let stdlib = load_stdlib(&mut model, &mut interner);
    let names: Vec<&str> = model.roots.iter().map(|&id| interner.resolve(model.defs[id].name)).collect();
    assert_eq!(names, ["Anything", "Object", "DataValue", "Occurrence", "Performance", "Link"]);
    assert!(model.roots.iter().all(|&id| model.defs[id].type_checked));
    assert_eq!(model.defs[stdlib.link].specializations[0].segments, vec![model.defs[stdlib.anything].name]);
    assert_eq!(interner.len(), 6);
}
