//! Looking names up in the semantic model: in a scope and its ancestors, along a
//! qualified path, through imports, and among the members of a type.
use vstd::prelude::*;
use crate::hir::{first_named, def_ok, Def, DefId, Import, InheritedFeature, ResolutionState, SemanticModel};
use crate::interner::SymbolId;

verus! {

/// The first child named `name` of definition `q` or, failing that, of its ancestors,
/// nearest first.
pub open spec fn lookup_up(defs: Seq<Def>, q: int, name: SymbolId) -> Option<DefId>
    decreases q,
{
    if q < 0 || q >= defs.len() {
        None
    } else {
        match first_named(defs, defs[q].children@, name) {
            Some(f) => Some(f),
            None => match defs[q].parent {
                Some(p) => if p.index() < q {
                    lookup_up(defs, p.index() as int, name)
                } else {
                    None
                },
                None => None,
            },
        }
    }
}

/// What `name` means in `scope`: a child of the scope or of an ancestor, nearest
/// first, else a root.
pub open spec fn in_scope(defs: Seq<Def>, roots: Seq<DefId>, scope: int, name: SymbolId) -> Option<DefId> {
    match lookup_up(defs, scope, name) {
        Some(f) => Some(f),
        None => first_named(defs, roots, name),
    }
}

/// The definition reached from `start` by taking, for each of `segs`, the first child
/// with that name.
pub open spec fn children_path(defs: Seq<Def>, start: DefId, segs: Seq<SymbolId>) -> Option<DefId>
    decreases segs.len(),
{
    if segs.len() == 0 {
        Some(start)
    } else {
        match first_named(defs, defs[start.index() as int].children@, segs[0]) {
            Some(c) => children_path(defs, c, segs.drop_first()),
            None => None,
        }
    }
}

/// What the qualified name `segs` means from `scope`: its first segment looked up in
/// scope, the rest as children.
pub open spec fn qualified(defs: Seq<Def>, roots: Seq<DefId>, scope: int, segs: Seq<SymbolId>) -> Option<DefId> {
    if segs.len() == 0 {
        None
    } else {
        match in_scope(defs, roots, scope, segs[0]) {
            Some(s) => children_path(defs, s, segs.drop_first()),
            None => None,
        }
    }
}

/// What the qualified name `segs` means from the roots.
pub open spec fn qualified_from_root(defs: Seq<Def>, roots: Seq<DefId>, segs: Seq<SymbolId>) -> Option<DefId> {
    if segs.len() == 0 {
        None
    } else {
        match first_named(defs, roots, segs[0]) {
            Some(s) => children_path(defs, s, segs.drop_first()),
            None => None,
        }
    }
}

/// What import `imp` makes `name` mean, if anything: a resolved wildcard import brings
/// in the children of its target, a resolved named import its target under its last
/// segment.
pub open spec fn import_match(defs: Seq<Def>, imp: Import, name: SymbolId) -> Option<DefId> {
    match imp.path.resolution {
        ResolutionState::Resolved(t) => if imp.is_wildcard {
            first_named(defs, defs[t.index() as int].children@, name)
        } else if imp.path.segments@.len() > 0 && imp.path.segments@.last() == name {
            Some(t)
        } else {
            None
        },
        _ => None,
    }
}

/// What the first of `imports` that says anything makes `name` mean.
pub open spec fn via_imports(defs: Seq<Def>, imports: Seq<Import>, name: SymbolId) -> Option<DefId>
    decreases imports.len(),
{
    if imports.len() == 0 {
        None
    } else {
        match import_match(defs, imports[0], name) {
            Some(f) => Some(f),
            None => via_imports(defs, imports.drop_first(), name),
        }
    }
}

/// Imports are consulted in order, every one of them: when the `j`-th import brings in
/// `name` and none before it does, `name` means what the `j`-th brings in, however far
/// down the list it stands; and when none of them brings it in, imports give nothing.
pub proof fn lemma_imports_consulted_in_order(defs: Seq<Def>, imports: Seq<Import>, name: SymbolId, j: int)
    requires
        0 <= j < imports.len(),
        import_match(defs, imports[j], name) is Some,
        forall|i: int| 0 <= i < j ==> import_match(defs, #[trigger] imports[i], name) is None,
    ensures
        via_imports(defs, imports, name) == import_match(defs, imports[j], name),
    decreases j,
{
    if j > 0 {
        let rest = imports.drop_first();
        assert forall|i: int| 0 <= i < j - 1 implies import_match(defs, #[trigger] rest[i], name) is None by {
            assert(rest[i] == imports[i + 1]);
        }
        assert(rest[j - 1] == imports[j]);
        assert(import_match(defs, imports[0], name) is None);
        lemma_imports_consulted_in_order(defs, rest, name, j - 1);
    }
}

/// When no import brings in `name`, imports give nothing.
pub proof fn lemma_imports_none(defs: Seq<Def>, imports: Seq<Import>, name: SymbolId)
    requires
        forall|i: int| 0 <= i < imports.len() ==> import_match(defs, #[trigger] imports[i], name) is None,
    ensures
        via_imports(defs, imports, name) is None,
    decreases imports.len(),
{
    if imports.len() > 0 {
        let rest = imports.drop_first();
        assert forall|i: int| 0 <= i < rest.len() implies import_match(defs, #[trigger] rest[i], name) is None by {
            assert(rest[i] == imports[i + 1]);
        }
        assert(import_match(defs, imports[0], name) is None);
        lemma_imports_none(defs, rest, name);
    }
}

/// The first of `inh` whose feature is named `name`.
pub open spec fn first_inherited_named(defs: Seq<Def>, inh: Seq<InheritedFeature>, name: SymbolId) -> Option<DefId>
    decreases inh.len(),
{
    if inh.len() == 0 {
        None
    } else if defs[inh[0].def_id.index() as int].name == name {
        Some(inh[0].def_id)
    } else {
        first_inherited_named(defs, inh.drop_first(), name)
    }
}

/// A member of type `t` named `name`: a child first, else an inherited feature.
pub open spec fn member_named(defs: Seq<Def>, t: int, name: SymbolId) -> Option<DefId> {
    match first_named(defs, defs[t].children@, name) {
        Some(f) => Some(f),
        None => first_inherited_named(defs, defs[t].inherited_features@, name),
    }
}

pub proof fn lemma_first_named_in(defs: Seq<Def>, ids: Seq<DefId>, name: SymbolId)
    ensures
        first_named(defs, ids, name) matches Some(f) ==> exists|k: int| 0 <= k < ids.len() && ids[k] == f,
        first_named(defs, ids, name) matches Some(f) ==> defs[f.index() as int].name == name,
    decreases ids.len(),
{
    if ids.len() > 0 && defs[ids[0].index() as int].name != name {
        lemma_first_named_in(defs, ids.drop_first(), name);
        match first_named(defs, ids, name) {
            Some(f) => {
                let k = choose|k: int| 0 <= k < ids.drop_first().len() && ids.drop_first()[k] == f;
                assert(ids[k + 1] == f);
            },
            None => {},
        }
    }
}

/// A path of children ends at a definition named by its last segment.
pub proof fn lemma_children_path_named(defs: Seq<Def>, start: DefId, segs: Seq<SymbolId>)
    requires
        segs.len() > 0,
    ensures
        children_path(defs, start, segs) matches Some(t) ==> defs[t.index() as int].name == segs.last(),
    decreases segs.len(),
{
    match first_named(defs, defs[start.index() as int].children@, segs[0]) {
        Some(c) => {
            lemma_first_named_in(defs, defs[start.index() as int].children@, segs[0]);
            if segs.len() > 1 {
                lemma_children_path_named(defs, c, segs.drop_first());
                assert(segs.drop_first().last() == segs.last());
            } else {
                assert(segs.drop_first().len() == 0);
                assert(children_path(defs, c, segs.drop_first()) == Some(c));
                assert(segs[0] == segs.last());
            }
        },
        None => {},
    }
}

/// What a name means in a scope or its ancestors is a definition of that name.
pub proof fn lemma_lookup_up_named(defs: Seq<Def>, q: int, name: SymbolId)
    ensures
        lookup_up(defs, q, name) matches Some(f) ==> defs[f.index() as int].name == name,
    decreases q,
{
    if 0 <= q < defs.len() {
        lemma_first_named_in(defs, defs[q].children@, name);
        match defs[q].parent {
            Some(p) => {
                if p.index() < q {
                    lemma_lookup_up_named(defs, p.index() as int, name);
                }
            },
            None => {},
        }
    }
}

/// A qualified name, looked up from a scope or from the roots, means a definition
/// named by its last segment.
pub proof fn lemma_qualified_named(defs: Seq<Def>, roots: Seq<DefId>, scope: int, segs: Seq<SymbolId>)
    ensures
        qualified(defs, roots, scope, segs) matches Some(t) ==> defs[t.index() as int].name == segs.last(),
        qualified_from_root(defs, roots, segs) matches Some(t) ==> defs[t.index() as int].name == segs.last(),
{
    if segs.len() > 0 {
        lemma_lookup_up_named(defs, scope, segs[0]);
        lemma_first_named_in(defs, roots, segs[0]);
        if segs.len() > 1 {
            match in_scope(defs, roots, scope, segs[0]) {
                Some(s) => lemma_children_path_named(defs, s, segs.drop_first()),
                None => {},
            }
            match first_named(defs, roots, segs[0]) {
                Some(s) => lemma_children_path_named(defs, s, segs.drop_first()),
                None => {},
            }
            assert(segs.drop_first().last() == segs.last());
        } else {
            assert(segs.drop_first().len() == 0);
            assert(segs[0] == segs.last());
            match in_scope(defs, roots, scope, segs[0]) {
                Some(s) => assert(children_path(defs, s, segs.drop_first()) == Some(s)),
                None => {},
            }
            match first_named(defs, roots, segs[0]) {
                Some(s) => assert(children_path(defs, s, segs.drop_first()) == Some(s)),
                None => {},
            }
        }
    }
}

/// An import resolved to a definition named by the import's last segment brings in
/// only definitions of the name asked for.
pub proof fn lemma_via_imports_named(defs: Seq<Def>, imports: Seq<Import>, name: SymbolId)
    requires
        forall|k: int|
            0 <= k < imports.len() && (#[trigger] imports[k]).path.segments@.len() > 0 ==> (
            imports[k].path.resolution matches ResolutionState::Resolved(t) ==> defs[t.index() as int].name
                == imports[k].path.segments@.last()),
    ensures
        via_imports(defs, imports, name) matches Some(f) ==> defs[f.index() as int].name == name,
    decreases imports.len(),
{
    if imports.len() > 0 {
        let imp = imports[0];
        match imp.path.resolution {
            ResolutionState::Resolved(t) => {
                lemma_first_named_in(defs, defs[t.index() as int].children@, name);
            },
            _ => {},
        }
        assert forall|k: int|
            0 <= k < imports.drop_first().len() && (#[trigger] imports.drop_first()[k]).path.segments@.len() > 0 implies (
            imports.drop_first()[k].path.resolution matches ResolutionState::Resolved(t) ==> defs[t.index() as int].name
                == imports.drop_first()[k].path.segments@.last()) by {
            assert(imports.drop_first()[k] == imports[k + 1]);
        }
        lemma_via_imports_named(defs, imports.drop_first(), name);
    }
}

/// Every child of every definition lies below `n`.
pub proof fn lemma_child_in_model(m: &SemanticModel, p: int, name: SymbolId)
    requires
        m.wf(),
        0 <= p < m.defs@.len(),
    ensures
        first_named(m.defs@, m.defs@[p].children@, name) matches Some(f) ==> f.index() < m.defs@.len(),
{
    lemma_first_named_in(m.defs@, m.defs@[p].children@, name);
    assert(def_ok(m.defs@[p], p, m.defs@.len()));
}

/// Look up a name in the scope of a given def.
/// Searches: own children, then ancestors' children, then root scope.
pub fn resolve_in_scope(model: &SemanticModel, scope: DefId, name: SymbolId) -> (r: Option<DefId>)
    requires
        model.wf(),
        scope.index() < model.defs@.len(),
    ensures
        r == in_scope(model.defs@, model.roots@, scope.index() as int, name),
        r matches Some(f) ==> f.index() < model.defs@.len(),
{
    let ghost defs = model.defs@;
    let mut current = scope;
    proof {
        assert(def_ok(defs[scope.index() as int], scope.index() as int, defs.len()));
    }
    loop
        invariant
            model.wf(),
            defs == model.defs@,
            current.index() < defs.len(),
            lookup_up(defs, scope.index() as int, name) == lookup_up(defs, current.index() as int, name),
        ensures
            lookup_up(defs, scope.index() as int, name) is None,
        decreases current.index(),
    {
        proof {
            assert(def_ok(defs[current.index() as int], current.index() as int, defs.len()));
            lemma_child_in_model(model, current.index() as int, name);
        }
        match model.find_child(current, name) {
            Some(found) => {
                return Some(found);
            },
            None => {},
        }
        match model.defs[current].parent {
            Some(p) => {
                current = p;
            },
            None => {
                break;
            },
        }
    }
    proof {
        lemma_first_named_in(defs, model.roots@, name);
    }
    model.find_root(name)
}

/// The definition reached from `start` through the children named by `segs`.
pub(crate) fn follow_children(model: &SemanticModel, start: DefId, segs: &[SymbolId], from: usize) -> (r: Option<DefId>)
    requires
        model.wf(),
        start.index() < model.defs@.len(),
        from <= segs@.len(),
    ensures
        r == children_path(model.defs@, start, segs@.subrange(from as int, segs@.len() as int)),
        r matches Some(f) ==> f.index() < model.defs@.len(),
{
    let ghost defs = model.defs@;
    let mut current = start;
    let mut i = from;
    while i < segs.len()
        invariant
            model.wf(),
            defs == model.defs@,
            current.index() < defs.len(),
            from <= i <= segs@.len(),
            children_path(defs, start, segs@.subrange(from as int, segs@.len() as int)) == children_path(
                defs,
                current,
                segs@.subrange(i as int, segs@.len() as int),
            ),
        decreases segs@.len() - i,
    {
        proof {
            assert(def_ok(defs[current.index() as int], current.index() as int, defs.len()));
            lemma_child_in_model(model, current.index() as int, segs@[i as int]);
            assert(segs@.subrange(i as int, segs@.len() as int).drop_first() =~= segs@.subrange(i + 1, segs@.len() as int));
            assert(segs@.subrange(i as int, segs@.len() as int)[0] == segs@[i as int]);
        }
        match model.find_child(current, segs[i]) {
            Some(c) => {
                current = c;
            },
            None => {
                return None;
            },
        }
        i = i + 1;
    }
    proof {
        assert(segs@.subrange(i as int, segs@.len() as int) =~= Seq::<SymbolId>::empty());
    }
    Some(current)
}

/// Resolve a qualified name (multi-segment) starting from a scope.
/// For `A::B::C`, first resolves `A` in scope, then `B` as child of A, then `C` as child of B.
pub fn resolve_qualified(model: &SemanticModel, scope: DefId, segments: &[SymbolId]) -> (r: Option<DefId>)
    requires
        model.wf(),
        scope.index() < model.defs@.len(),
    ensures
        r == qualified(model.defs@, model.roots@, scope.index() as int, segments@),
        r matches Some(f) ==> f.index() < model.defs@.len(),
{
    if segments.len() == 0 {
        return None;
    }
    match resolve_in_scope(model, scope, segments[0]) {
        Some(first) => {
            proof {
                assert(segments@.subrange(1, segments@.len() as int) =~= segments@.drop_first());
            }
            follow_children(model, first, segments, 1)
        },
        None => None,
    }
}

/// Resolve a qualified name starting from root scope (no enclosing def).
pub fn resolve_qualified_from_root(model: &SemanticModel, segments: &[SymbolId]) -> (r: Option<DefId>)
    requires
        model.wf(),
    ensures
        r == qualified_from_root(model.defs@, model.roots@, segments@),
        r matches Some(f) ==> f.index() < model.defs@.len(),
{
    if segments.len() == 0 {
        return None;
    }
    proof {
        lemma_first_named_in(model.defs@, model.roots@, segments@[0]);
    }
    match model.find_root(segments[0]) {
        Some(first) => {
            proof {
                assert(segments@.subrange(1, segments@.len() as int) =~= segments@.drop_first());
            }
            follow_children(model, first, segments, 1)
        },
        None => None,
    }
}

/// Try to resolve imports for a given def's scope.
/// Returns any defs imported by wildcard imports.
pub fn resolve_via_imports(model: &SemanticModel, scope: DefId, name: SymbolId) -> (r: Option<DefId>)
    requires
        model.wf(),
        scope.index() < model.defs@.len(),
    ensures
        r == via_imports(model.defs@, model.defs@[scope.index() as int].imports@, name),
        r matches Some(f) ==> f.index() < model.defs@.len(),
{
    let ghost defs = model.defs@;
    let imports = &model.defs[scope].imports;
    let ghost imps = imports@;
    proof {
        assert(def_ok(defs[scope.index() as int], scope.index() as int, defs.len()));
        assert(imps.subrange(0, imps.len() as int) =~= imps);
    }
    let mut i: usize = 0;
    while i < imports.len()
        invariant
            model.wf(),
            defs == model.defs@,
            imps == imports@,
            imps == defs[scope.index() as int].imports@,
            forall|k: int| 0 <= k < imps.len() ==> crate::hir::ref_ok((#[trigger] imps[k]).path, defs.len()),
            i <= imps.len(),
            via_imports(defs, imps, name) == via_imports(defs, imps.subrange(i as int, imps.len() as int), name),
        decreases imps.len() - i,
    {
        let imp = &imports[i];
        proof {
            assert(imps.subrange(i as int, imps.len() as int)[0] == imps[i as int]);
            assert(imps.subrange(i as int, imps.len() as int).drop_first() =~= imps.subrange(i + 1, imps.len() as int));
            assert(crate::hir::ref_ok(imps[i as int].path, defs.len()));
        }
        match imp.path.resolved_def() {
            Some(target) => {
                if imp.is_wildcard {
                    proof {
                        lemma_child_in_model(model, target.index() as int, name);
                    }
                    match model.find_child(target, name) {
                        Some(found) => {
                            return Some(found);
                        },
                        None => {},
                    }
                } else {
                    let segs = &imp.path.segments;
                    if segs.len() > 0 && segs[segs.len() - 1] == name {
                        return Some(target);
                    }
                }
            },
            None => {},
        }
        i = i + 1;
    }
    None
}

/// Find a member of a type by name.
/// Searches direct children, then inherited features.
/// No parent walking, no imports — strict member lookup only.
pub fn find_member(model: &SemanticModel, type_def_id: DefId, name: SymbolId) -> (r: Option<DefId>)
    requires
        model.wf(),
        type_def_id.index() < model.defs@.len(),
    ensures
        r == member_named(model.defs@, type_def_id.index() as int, name),
{
    let ghost defs = model.defs@;
    proof {
        assert(def_ok(defs[type_def_id.index() as int], type_def_id.index() as int, defs.len()));
    }
    match model.find_child(type_def_id, name) {
        Some(found) => {
            return Some(found);
        },
        None => {},
    }
    let inh = &model.defs[type_def_id].inherited_features;
    let ghost s = inh@;
    proof {
        assert(s.subrange(0, s.len() as int) =~= s);
    }
    let mut i: usize = 0;
    while i < inh.len()
        invariant
            model.wf(),
            defs == model.defs@,
            s == inh@,
            s == defs[type_def_id.index() as int].inherited_features@,
            first_named(defs, defs[type_def_id.index() as int].children@, name) is None,
            forall|k: int| 0 <= k < s.len() ==> (#[trigger] s[k]).def_id.index() < defs.len(),
            i <= s.len(),
            first_inherited_named(defs, s, name) == first_inherited_named(defs, s.subrange(i as int, s.len() as int), name),
        decreases s.len() - i,
    {
        let f = inh[i].def_id;
        proof {
            assert(s.subrange(i as int, s.len() as int)[0] == s[i as int]);
            assert(s.subrange(i as int, s.len() as int).drop_first() =~= s.subrange(i + 1, s.len() as int));
        }
        if model.defs[f].name == name {
            return Some(f);
        }
        i = i + 1;
    }
    None
}

} // verus!
