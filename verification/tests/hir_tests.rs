use kermlc::hir::{Def, DefId, DefKind, FeatureDirection, MembershipKind, NameRef, ResolutionState, SemanticModel, Visibility};
use kermlc::interner::StringInterner;
use kermlc::span::Span;

#[test]
fn alloc_membership() {
    let mut model = SemanticModel::new();
    let mut interner = StringInterner::new();
    let parent = model.alloc_def(Def::new(interner.intern("P"), DefKind::Package, Span::dummy()));
    let child = model.alloc_def(Def::new(interner.intern("T"), DefKind::Type, Span::dummy()));
    let mid = model.add_member(parent, child, Visibility::Public, MembershipKind::Owning, Span::dummy());
    assert_eq!(model.memberships[mid].member_def, child);
    assert_eq!(model.memberships[mid].visibility, Visibility::Public);
    assert_eq!(model.defs[child].parent, Some(parent));
    let children: Vec<DefId> = model.children(parent);
    assert_eq!(children, vec![child]);
}

#[test]
fn find_child_by_name() {
    let mut model = SemanticModel::new();
    let mut interner = StringInterner::new();
    let parent = model.alloc_def(Def::new(interner.intern("P"), DefKind::Package, Span::dummy()));
    let child = model.alloc_def(Def::new(interner.intern("T"), DefKind::Type, Span::dummy()));
    let name = interner.intern("T");
    model.add_member(parent, child, Visibility::Public, MembershipKind::Owning, Span::dummy());
    assert_eq!(model.find_child(parent, name), Some(child));
    let other = interner.intern("U");
    assert_eq!(model.find_child(parent, other), None);
}

#[test]
fn direction_of_direct_feature() {
    let mut model = SemanticModel::new();
    let mut interner = StringInterner::new();
    let ty = model.alloc_def(Def::new(interner.intern("T"), DefKind::Type, Span::dummy()));
    let mut feat_def = Def::new(interner.intern("f"), DefKind::Feature, Span::dummy());
    feat_def.direction = Some(FeatureDirection::In);
    let feat = model.alloc_def(feat_def);
    model.add_member(ty, feat, Visibility::Public, MembershipKind::Feature, Span::dummy());
    assert_eq!(model.direction_of(feat, ty), Some(FeatureDirection::In));
}

#[test]
fn direction_through_specialization_and_conjugation() {
    let mut model = SemanticModel::new();
    let mut interner = StringInterner::new();
    let base = model.alloc_def(Def::new(interner.intern("Base"), DefKind::Type, Span::dummy()));
    let mut feat_def = Def::new(interner.intern("f"), DefKind::Feature, Span::dummy());
    feat_def.direction = Some(FeatureDirection::In);
    let feat = model.alloc_def(feat_def);
    model.add_member(base, feat, Visibility::Public, MembershipKind::Feature, Span::dummy());
    let mut sub_def = Def::new(interner.intern("Sub"), DefKind::Type, Span::dummy());
    let mut spec = NameRef::unresolved(vec![], Span::dummy());
    spec.resolution = ResolutionState::Resolved(base);
    sub_def.specializations.push(spec);
    let sub = model.alloc_def(sub_def);
    let mut conj_def = Def::new(interner.intern("Conj"), DefKind::Type, Span::dummy());
    let mut c = NameRef::unresolved(vec![], Span::dummy());
    c.resolution = ResolutionState::Resolved(base);
    conj_def.conjugation = Some(c);
    let conj = model.alloc_def(conj_def);
    let other = model.alloc_def(Def::new(interner.intern("Other"), DefKind::Type, Span::dummy()));
    assert_eq!(model.direction_of(feat, sub), Some(FeatureDirection::In));
    assert_eq!(model.direction_of(feat, conj), Some(FeatureDirection::Out));
    assert_eq!(model.direction_of(feat, other), None);
}

#[test]
fn alloc_def_extends_the_type_table() {
    let mut model = SemanticModel::new();
    let mut interner = StringInterner::new();
    let a = model.alloc_def(Def::new(interner.intern("A"), DefKind::Type, Span::dummy()));
    let b = model.alloc_def(Def::new(interner.intern("B"), DefKind::Type, Span::dummy()));
    assert_eq!(a.raw(), 0);
    assert_eq!(b.raw(), 1);
    assert_eq!(model.def_to_type.len(), 2);
    assert!(model.def_to_type.iter().all(|t| t.is_none()));
}

#[test]
fn find_root_takes_the_first_of_a_name() {
    let mut model = SemanticModel::new();
    let mut interner = StringInterner::new();
    let p = interner.intern("P");
    let first = model.alloc_def(Def::new(p, DefKind::Package, Span::dummy()));
    let second = model.alloc_def(Def::new(p, DefKind::Package, Span::dummy()));
    model.roots.push(first);
    model.roots.push(second);
    assert_eq!(model.find_root(p), Some(first));
}
