//! Name resolution over the semantic model, reports on what stays unresolved, and the
//! detection of specialization cycles.
use vstd::prelude::*;
use crate::hir::{
    def_ok, ref_ok, Def, DefId, DefKind, HirMultiplicity, Import, MultBound, NameRef,
    ResolutionState, SemanticModel,
};
use crate::interner::SymbolId;
use crate::scope::{
    children_path, qualified, qualified_from_root, resolve_qualified, resolve_qualified_from_root,
    resolve_via_imports, via_imports,
};

verus! {

/// What the qualified name `segs` means through the imports of scope `q` or, failing
/// that, of its ancestors, nearest first: its first segment brought in by an import,
/// the rest as children.
pub open spec fn imports_up(defs: Seq<Def>, q: int, segs: Seq<SymbolId>) -> Option<DefId>
    decreases q,
{
    if q < 0 || q >= defs.len() || segs.len() == 0 {
        None
    } else {
        let here = match via_imports(defs, defs[q].imports@, segs[0]) {
            Some(f) => children_path(defs, f, segs.drop_first()),
            None => None,
        };
        match here {
            Some(r) => Some(r),
            None => match defs[q].parent {
                Some(p) => if p.index() < q {
                    imports_up(defs, p.index() as int, segs)
                } else {
                    None
                },
                None => None,
            },
        }
    }
}

/// What the name `segs` means from `scope`: looked up in scope, else through imports,
/// else from the roots.
pub open spec fn try_resolve(defs: Seq<Def>, roots: Seq<DefId>, scope: int, segs: Seq<SymbolId>) -> Option<DefId> {
    if segs.len() == 0 {
        None
    } else {
        match qualified(defs, roots, scope, segs) {
            Some(f) => Some(f),
            None => match imports_up(defs, scope, segs) {
                Some(f) => Some(f),
                None => qualified_from_root(defs, roots, segs),
            },
        }
    }
}

/// Try to resolve a multi-segment name from the perspective of `scope`.
pub fn try_resolve_name(model: &SemanticModel, scope: DefId, segments: &[SymbolId]) -> (r: Option<DefId>)
    requires
        model.wf(),
        scope.index() < model.defs@.len(),
    ensures
        r == try_resolve(model.defs@, model.roots@, scope.index() as int, segments@),
        r matches Some(f) ==> f.index() < model.defs@.len(),
{
    let ghost defs = model.defs@;
    if segments.len() == 0 {
        return None;
    }
    match resolve_qualified(model, scope, segments) {
        Some(found) => {
            return Some(found);
        },
        None => {},
    }
    let mut current = scope;
    proof {
        assert(segments@.subrange(1, segments@.len() as int) =~= segments@.drop_first());
    }
    loop
        invariant
            model.wf(),
            defs == model.defs@,
            segments@.len() > 0,
            qualified(defs, model.roots@, scope.index() as int, segments@) is None,
            current.index() < defs.len(),
            segments@.subrange(1, segments@.len() as int) == segments@.drop_first(),
            imports_up(defs, scope.index() as int, segments@) == imports_up(defs, current.index() as int, segments@),
        ensures
            imports_up(defs, scope.index() as int, segments@) is None,
        decreases current.index(),
    {
        proof {
            assert(def_ok(defs[current.index() as int], current.index() as int, defs.len()));
        }
        match resolve_via_imports(model, current, segments[0]) {
            Some(found) => {
                let rest = crate::scope::follow_children(model, found, segments, 1);
                match rest {
                    Some(r) => {
                        return Some(r);
                    },
                    None => {},
                }
            },
            None => {},
        }
        match model.defs[current].parent {
            Some(p) => {
                current = p;
            },
            None => {
                break;
            },
        }
    }
    resolve_qualified_from_root(model, segments)
}

/// A place in a definition where a name reference may stand.
#[derive(Clone, Copy, Debug, PartialEq, Eq, Structural)]
pub enum RefSlot {
    Import(usize),
    Specialization(usize),
    Conjugation,
    ConjugatedType,
    OriginalType,
    TypeRef,
    ChainSegment(usize),
    LowerBound,
    UpperBound,
}

/// The reference at slot `s` of `d`, if there is one.
pub open spec fn slot_ref(d: Def, s: RefSlot) -> Option<NameRef> {
    match s {
        RefSlot::Import(k) => if k < d.imports@.len() {
            Some(d.imports@[k as int].path)
        } else {
            None
        },
        RefSlot::Specialization(k) => if k < d.specializations@.len() {
            Some(d.specializations@[k as int])
        } else {
            None
        },
        RefSlot::Conjugation => d.conjugation,
        RefSlot::ConjugatedType => match d.conjugation_decl {
            Some(p) => Some(p.0),
            None => None,
        },
        RefSlot::OriginalType => match d.conjugation_decl {
            Some(p) => Some(p.1),
            None => None,
        },
        RefSlot::TypeRef => d.type_ref,
        RefSlot::ChainSegment(k) => if k < d.chain_segments@.len() {
            Some(d.chain_segments@[k as int])
        } else {
            None
        },
        RefSlot::LowerBound => match d.multiplicity {
            Some(m) => match m.lower {
                MultBound::Ref(r) => Some(r),
                _ => None,
            },
            None => None,
        },
        RefSlot::UpperBound => match d.multiplicity {
            Some(m) => match m.upper {
                MultBound::Ref(r) => Some(r),
                _ => None,
            },
            None => None,
        },
    }
}

/// The slots of `d` in the order a pass visits them: imports, specializations, the
/// conjugation, the two sides of a conjugation declaration, the typing, the chain
/// segments and the multiplicity bounds.
pub open spec fn def_slots(d: Def) -> Seq<RefSlot> {
    Seq::new(d.imports@.len(), |k: int| RefSlot::Import(k as usize)) + Seq::new(
        d.specializations@.len(),
        |k: int| RefSlot::Specialization(k as usize),
    ) + seq![RefSlot::Conjugation] + (if d.kind == DefKind::Conjugation {
        seq![RefSlot::ConjugatedType, RefSlot::OriginalType]
    } else {
        Seq::empty()
    }) + seq![RefSlot::TypeRef] + Seq::new(
        d.chain_segments@.len(),
        |k: int| RefSlot::ChainSegment(k as usize),
    ) + (if d.multiplicity is Some {
        seq![RefSlot::LowerBound, RefSlot::UpperBound]
    } else {
        Seq::empty()
    })
}

/// `r` with resolution `res`.
pub open spec fn with_res(r: NameRef, res: ResolutionState) -> NameRef {
    NameRef { segments: r.segments, span: r.span, resolution: res }
}

pub open spec fn bound_with_res(b: MultBound, res: ResolutionState) -> MultBound {
    match b {
        MultBound::Ref(r) => MultBound::Ref(with_res(r, res)),
        other => other,
    }
}

/// `b` is `a` with the reference at slot `s` given resolution `res`.
pub open spec fn slot_set(a: Def, b: Def, s: RefSlot, res: ResolutionState) -> bool {
    &&& b.name == a.name
    &&& b.kind == a.kind
    &&& b.span == a.span
    &&& b.parent == a.parent
    &&& b.children == a.children
    &&& b.direction == a.direction
    &&& b.inherited_features == a.inherited_features
    &&& b.type_checked == a.type_checked
    &&& b.imports@ == match s {
        RefSlot::Import(k) => a.imports@.update(
            k as int,
            Import {
                path: with_res(a.imports@[k as int].path, res),
                is_wildcard: a.imports@[k as int].is_wildcard,
                span: a.imports@[k as int].span,
            },
        ),
        _ => a.imports@,
    }
    &&& b.specializations@ == match s {
        RefSlot::Specialization(k) => a.specializations@.update(k as int, with_res(a.specializations@[k as int], res)),
        _ => a.specializations@,
    }
    &&& b.conjugation == match (s, a.conjugation) {
        (RefSlot::Conjugation, Some(r)) => Some(with_res(r, res)),
        _ => a.conjugation,
    }
    &&& b.conjugation_decl == match (s, a.conjugation_decl) {
        (RefSlot::ConjugatedType, Some(p)) => Some((with_res(p.0, res), p.1)),
        (RefSlot::OriginalType, Some(p)) => Some((p.0, with_res(p.1, res))),
        _ => a.conjugation_decl,
    }
    &&& b.type_ref == match (s, a.type_ref) {
        (RefSlot::TypeRef, Some(r)) => Some(with_res(r, res)),
        _ => a.type_ref,
    }
    &&& b.chain_segments@ == match s {
        RefSlot::ChainSegment(k) => a.chain_segments@.update(k as int, with_res(a.chain_segments@[k as int], res)),
        _ => a.chain_segments@,
    }
    &&& b.multiplicity == match (s, a.multiplicity) {
        (RefSlot::LowerBound, Some(m)) => Some(
            HirMultiplicity { lower: bound_with_res(m.lower, res), upper: m.upper, span: m.span },
        ),
        (RefSlot::UpperBound, Some(m)) => Some(
            HirMultiplicity { lower: m.lower, upper: bound_with_res(m.upper, res), span: m.span },
        ),
        _ => a.multiplicity,
    }
}

/// What the reference at slot `s` of definition `i` resolves to in state `defs`: only an
/// unresolved reference whose name means something there.
pub open spec fn resolved_at(defs: Seq<Def>, roots: Seq<DefId>, i: int, s: RefSlot) -> Option<DefId> {
    match slot_ref(defs[i], s) {
        Some(r) => if r.resolution == ResolutionState::Unresolved {
            try_resolve(defs, roots, i, r.segments@)
        } else {
            None
        },
        None => None,
    }
}

/// `b` is `a` after visiting slot `s` of definition `i`.
pub open spec fn ref_step(a: Seq<Def>, b: Seq<Def>, roots: Seq<DefId>, i: int, s: RefSlot) -> bool {
    match resolved_at(a, roots, i, s) {
        Some(t) => {
            &&& b.len() == a.len()
            &&& forall|m: int| 0 <= m < a.len() && m != i ==> #[trigger] b[m] == a[m]
            &&& slot_set(a[i], b[i], s, ResolutionState::Resolved(t))
        },
        None => b == a,
    }
}


/// The reference at slot `s` of `d`, if there is one.
fn slot_ref_of(d: &Def, s: RefSlot) -> (r: Option<&NameRef>)
    ensures
        r is Some <==> slot_ref(*d, s) is Some,
        r matches Some(x) ==> *x == slot_ref(*d, s)->0,
{
    match s {
        RefSlot::Import(k) => if k < d.imports.len() {
            Some(&d.imports[k].path)
        } else {
            None
        },
        RefSlot::Specialization(k) => if k < d.specializations.len() {
            Some(&d.specializations[k])
        } else {
            None
        },
        RefSlot::Conjugation => match &d.conjugation {
            Some(r) => Some(r),
            None => None,
        },
        RefSlot::ConjugatedType => match &d.conjugation_decl {
            Some(p) => Some(&p.0),
            None => None,
        },
        RefSlot::OriginalType => match &d.conjugation_decl {
            Some(p) => Some(&p.1),
            None => None,
        },
        RefSlot::TypeRef => match &d.type_ref {
            Some(r) => Some(r),
            None => None,
        },
        RefSlot::ChainSegment(k) => if k < d.chain_segments.len() {
            Some(&d.chain_segments[k])
        } else {
            None
        },
        RefSlot::LowerBound => match &d.multiplicity {
            Some(m) => match &m.lower {
                MultBound::Ref(r) => Some(r),
                _ => None,
            },
            None => None,
        },
        RefSlot::UpperBound => match &d.multiplicity {
            Some(m) => match &m.upper {
                MultBound::Ref(r) => Some(r),
                _ => None,
            },
            None => None,
        },
    }
}

/// Gives the reference at slot `s` of `d` the resolution `res`.
fn set_slot(d: &mut Def, s: RefSlot, res: ResolutionState)
    requires
        slot_ref(*old(d), s) is Some,
    ensures
        slot_set(*old(d), *final(d), s, res),
{
    match s {
        RefSlot::Import(k) => {
            let mut v: Vec<Import> = Vec::new();
            std::mem::swap(&mut v, &mut d.imports);
            let ghost v0 = v@;
            let mut imp = v.remove(k);
            imp.path.resolution = res;
            v.insert(k, imp);
            std::mem::swap(&mut v, &mut d.imports);
            proof {
                assert(d.imports@ =~= v0.update(
                    k as int,
                    Import {
                        path: with_res(v0[k as int].path, res),
                        is_wildcard: v0[k as int].is_wildcard,
                        span: v0[k as int].span,
                    },
                ));
            }
        },
        RefSlot::Specialization(k) => {
            let mut v: Vec<NameRef> = Vec::new();
            std::mem::swap(&mut v, &mut d.specializations);
            let ghost v0 = v@;
            let mut r = v.remove(k);
            r.resolution = res;
            v.insert(k, r);
            std::mem::swap(&mut v, &mut d.specializations);
            proof {
                assert(d.specializations@ =~= v0.update(k as int, with_res(v0[k as int], res)));
            }
        },
        RefSlot::ChainSegment(k) => {
            let mut v: Vec<NameRef> = Vec::new();
            std::mem::swap(&mut v, &mut d.chain_segments);
            let ghost v0 = v@;
            let mut r = v.remove(k);
            r.resolution = res;
            v.insert(k, r);
            std::mem::swap(&mut v, &mut d.chain_segments);
            proof {
                assert(d.chain_segments@ =~= v0.update(k as int, with_res(v0[k as int], res)));
            }
        },
        RefSlot::Conjugation => {
            let mut c: Option<NameRef> = None;
            std::mem::swap(&mut c, &mut d.conjugation);
            match c {
                Some(mut r) => {
                    r.resolution = res;
                    d.conjugation = Some(r);
                },
                None => {},
            }
        },
        RefSlot::TypeRef => {
            let mut c: Option<NameRef> = None;
            std::mem::swap(&mut c, &mut d.type_ref);
            match c {
                Some(mut r) => {
                    r.resolution = res;
                    d.type_ref = Some(r);
                },
                None => {},
            }
        },
        RefSlot::ConjugatedType => {
            let mut c: Option<(NameRef, NameRef)> = None;
            std::mem::swap(&mut c, &mut d.conjugation_decl);
            match c {
                Some((mut a, b)) => {
                    a.resolution = res;
                    d.conjugation_decl = Some((a, b));
                },
                None => {},
            }
        },
        RefSlot::OriginalType => {
            let mut c: Option<(NameRef, NameRef)> = None;
            std::mem::swap(&mut c, &mut d.conjugation_decl);
            match c {
                Some((a, mut b)) => {
                    b.resolution = res;
                    d.conjugation_decl = Some((a, b));
                },
                None => {},
            }
        },
        RefSlot::LowerBound => {
            let mut c: Option<HirMultiplicity> = None;
            std::mem::swap(&mut c, &mut d.multiplicity);
            match c {
                Some(mut m) => {
                    let mut b = MultBound::Unbounded;
                    std::mem::swap(&mut b, &mut m.lower);
                    match b {
                        MultBound::Ref(mut r) => {
                            r.resolution = res;
                            m.lower = MultBound::Ref(r);
                        },
                        other => {
                            m.lower = other;
                        },
                    }
                    d.multiplicity = Some(m);
                },
                None => {},
            }
        },
        RefSlot::UpperBound => {
            let mut c: Option<HirMultiplicity> = None;
            std::mem::swap(&mut c, &mut d.multiplicity);
            match c {
                Some(mut m) => {
                    let mut b = MultBound::Unbounded;
                    std::mem::swap(&mut b, &mut m.upper);
                    match b {
                        MultBound::Ref(mut r) => {
                            r.resolution = res;
                            m.upper = MultBound::Ref(r);
                        },
                        other => {
                            m.upper = other;
                        },
                    }
                    d.multiplicity = Some(m);
                },
                None => {},
            }
        },
    }
}


/// Setting a slot to a definition that exists keeps a definition well formed, and
/// keeps its slots.
proof fn lemma_slot_set_ok(a: Def, b: Def, s: RefSlot, t: DefId, i: int, n: nat)
    requires
        def_ok(a, i, n),
        slot_ref(a, s) is Some,
        slot_set(a, b, s, ResolutionState::Resolved(t)),
        t.index() < n,
    ensures
        def_ok(b, i, n),
        def_slots(b) == def_slots(a),
{
    lemma_slot_set_same_slots(a, b, s, ResolutionState::Resolved(t));
    assert forall|k: int| 0 <= k < b.specializations@.len() implies ref_ok(#[trigger] b.specializations@[k], n) by {
        assert(ref_ok(a.specializations@[k], n));
    }
    assert forall|k: int| 0 <= k < b.chain_segments@.len() implies ref_ok(#[trigger] b.chain_segments@[k], n) by {
        assert(ref_ok(a.chain_segments@[k], n));
    }
    assert forall|k: int| 0 <= k < b.imports@.len() implies ref_ok((#[trigger] b.imports@[k]).path, n) by {
        assert(ref_ok(a.imports@[k].path, n));
    }
}

proof fn lemma_slot_set_same_slots(a: Def, b: Def, s: RefSlot, res: ResolutionState)
    requires
        slot_ref(a, s) is Some,
        slot_set(a, b, s, res),
    ensures
        def_slots(b) == def_slots(a),
        b.imports@.len() == a.imports@.len(),
        b.specializations@.len() == a.specializations@.len(),
        b.chain_segments@.len() == a.chain_segments@.len(),
{
    assert(b.imports@.len() == a.imports@.len());
    assert(b.specializations@.len() == a.specializations@.len());
    assert(b.chain_segments@.len() == a.chain_segments@.len());
    assert(b.multiplicity is Some <==> a.multiplicity is Some);
}

proof fn lemma_slot_set_interned(a: Def, b: Def, s: RefSlot, res: ResolutionState, n: nat)
    requires
        slot_ref(a, s) is Some,
        slot_set(a, b, s, res),
        def_interned(a, n),
    ensures
        def_interned(b, n),
{
    lemma_slot_set_same_slots(a, b, s, res);
    assert forall|k: int| 0 <= k < b.specializations@.len() implies ref_interned(#[trigger] b.specializations@[k], n) by {
        assert(ref_interned(a.specializations@[k], n));
    }
    assert forall|k: int| 0 <= k < b.chain_segments@.len() implies ref_interned(#[trigger] b.chain_segments@[k], n) by {
        assert(ref_interned(a.chain_segments@[k], n));
    }
}

/// Visits slot `s` of definition `def_id`: an unresolved reference there whose name
/// means something in scope becomes resolved to it. Returns whether it did.
pub fn resolve_slot(model: &mut SemanticModel, def_id: DefId, s: RefSlot) -> (changed: bool)
    requires
        old(model).wf(),
        def_id.index() < old(model).defs@.len(),
    ensures
        final(model).wf(),
        final(model).roots == old(model).roots,
        final(model).type_infos == old(model).type_infos,
        final(model).def_to_type == old(model).def_to_type,
        ref_step(old(model).defs@, final(model).defs@, old(model).roots@, def_id.index() as int, s),
        changed == resolved_at(old(model).defs@, old(model).roots@, def_id.index() as int, s) is Some,
        forall|n: nat| reports_interned(old(model).defs@, n) ==> reports_interned(final(model).defs@, n),
        forall|n: nat| names_interned(old(model).defs@, n) ==> names_interned(final(model).defs@, n),
        model_faithful(old(model).defs@) ==> model_faithful(final(model).defs@),
{
    let ghost defs0 = model.defs@;
    let ghost i = def_id.index() as int;
    let target = match slot_ref_of(&model.defs[def_id], s) {
        Some(nr) => match nr.resolution {
            ResolutionState::Unresolved => try_resolve_name(model, def_id, nr.segments.as_slice()),
            _ => None,
        },
        None => None,
    };
    match target {
        Some(t) => {
            let d = model.defs.get_mut(def_id);
            set_slot(d, s, ResolutionState::Resolved(t));
            proof {
                let defs1 = model.defs@;
                let n = defs0.len();
                assert(def_ok(defs0[i], i, n));
                lemma_slot_set_ok(defs0[i], defs1[i], s, t, i, n);
                assert forall|m: int| 0 <= m < n implies def_ok(#[trigger] defs1[m], m, n) by {
                    if m != i {
                        assert(defs1[m] == defs0[m]);
                    }
                }
                assert forall|k: nat| reports_interned(defs0, k) implies reports_interned(defs1, k) by {
                    assert forall|m: int| 0 <= m < defs1.len() implies def_interned(#[trigger] defs1[m], k) by {
                        assert(def_interned(defs0[m], k));
                        if m == i {
                            lemma_slot_set_interned(defs0[i], defs1[i], s, ResolutionState::Resolved(t), k);
                        } else {
                            assert(defs1[m] == defs0[m]);
                        }
                    }
                }
                if model_faithful(defs0) {
                    lemma_resolution_faithful(defs0, defs1, model.roots@, i, s);
                }
                assert forall|k: nat| names_interned(defs0, k) implies names_interned(defs1, k) by {
                    assert forall|m: int| 0 <= m < defs1.len() implies ((#[trigger] defs1[m]).name.0 as int) < k by {
                        assert((defs0[m].name.0 as int) < k);
                        if m != i {
                            assert(defs1[m] == defs0[m]);
                        }
                    }
                }
            }
            true
        },
        None => false,
    }
}

/// The slots of `d`, in visiting order.
fn slots_of(d: &Def) -> (r: Vec<RefSlot>)
    ensures
        r@ == def_slots(*d),
{
    let mut r: Vec<RefSlot> = Vec::new();
    let mut k: usize = 0;
    while k < d.imports.len()
        invariant
            k <= d.imports@.len(),
            r@ == Seq::new(k as nat, |j: int| RefSlot::Import(j as usize)),
        decreases d.imports@.len() - k,
    {
        r.push(RefSlot::Import(k));
        k = k + 1;
        assert(r@ =~= Seq::new(k as nat, |j: int| RefSlot::Import(j as usize)));
    }
    let ghost a = r@;
    k = 0;
    while k < d.specializations.len()
        invariant
            k <= d.specializations@.len(),
            r@ == a + Seq::new(k as nat, |j: int| RefSlot::Specialization(j as usize)),
        decreases d.specializations@.len() - k,
    {
        r.push(RefSlot::Specialization(k));
        k = k + 1;
        assert(r@ =~= a + Seq::new(k as nat, |j: int| RefSlot::Specialization(j as usize)));
    }
    r.push(RefSlot::Conjugation);
    if d.kind == DefKind::Conjugation {
        r.push(RefSlot::ConjugatedType);
        r.push(RefSlot::OriginalType);
    }
    r.push(RefSlot::TypeRef);
    let ghost b = r@;
    k = 0;
    while k < d.chain_segments.len()
        invariant
            k <= d.chain_segments@.len(),
            r@ == b + Seq::new(k as nat, |j: int| RefSlot::ChainSegment(j as usize)),
        decreases d.chain_segments@.len() - k,
    {
        r.push(RefSlot::ChainSegment(k));
        k = k + 1;
        assert(r@ =~= b + Seq::new(k as nat, |j: int| RefSlot::ChainSegment(j as usize)));
    }
    if d.multiplicity.is_some() {
        r.push(RefSlot::LowerBound);
        r.push(RefSlot::UpperBound);
    }
    assert(r@ =~= def_slots(*d));
    r
}

/// The slots a pass over `defs` visits, definition by definition, for the first `k`
/// definitions.
pub open spec fn pass_slots(defs: Seq<Def>, k: nat) -> Seq<(int, RefSlot)>
    decreases k,
{
    if k == 0 {
        Seq::empty()
    } else {
        pass_slots(defs, (k - 1) as nat) + def_slots(defs[k - 1]).map_values(|s: RefSlot| ((k - 1) as int, s))
    }
}

/// `ds` are the states that visiting the slots `steps` in order goes through.
pub open spec fn resolve_trace(ds: Seq<Seq<Def>>, steps: Seq<(int, RefSlot)>, roots: Seq<DefId>) -> bool {
    &&& ds.len() == steps.len() + 1
    &&& forall|k: int| 0 <= k < steps.len() ==> #[trigger] ref_step(ds[k], ds[k + 1], roots, steps[k].0, steps[k].1)
}

/// Whether some visit along the trace resolves a reference.
pub open spec fn trace_resolves(ds: Seq<Seq<Def>>, steps: Seq<(int, RefSlot)>, roots: Seq<DefId>) -> bool {
    exists|k: int| 0 <= k < steps.len() && #[trigger] resolved_at(ds[k], roots, steps[k].0, steps[k].1) is Some
}

proof fn lemma_trace_push(
    ds: Seq<Seq<Def>>,
    steps: Seq<(int, RefSlot)>,
    roots: Seq<DefId>,
    next: Seq<Def>,
    step: (int, RefSlot),
)
    requires
        resolve_trace(ds, steps, roots),
        ref_step(ds.last(), next, roots, step.0, step.1),
    ensures
        resolve_trace(ds.push(next), steps.push(step), roots),
        trace_resolves(ds.push(next), steps.push(step), roots) == (trace_resolves(ds, steps, roots)
            || resolved_at(ds.last(), roots, step.0, step.1) is Some),
{
    let ds1 = ds.push(next);
    let st1 = steps.push(step);
    assert forall|k: int| 0 <= k < st1.len() implies #[trigger] ref_step(ds1[k], ds1[k + 1], roots, st1[k].0, st1[k].1) by {
        if k < steps.len() {
            assert(ds1[k] == ds[k] && ds1[k + 1] == ds[k + 1] && st1[k] == steps[k]);
        } else {
            assert(ds1[k] == ds.last());
        }
    }
    if trace_resolves(ds, steps, roots) {
        let k = choose|k: int| 0 <= k < steps.len() && #[trigger] resolved_at(ds[k], roots, steps[k].0, steps[k].1) is Some;
        assert(ds1[k] == ds[k] && st1[k] == steps[k]);
        assert(resolved_at(ds1[k], roots, st1[k].0, st1[k].1) is Some);
    }
    if resolved_at(ds.last(), roots, step.0, step.1) is Some {
        let k = steps.len() as int;
        assert(ds1[k] == ds.last() && st1[k] == step);
        assert(resolved_at(ds1[k], roots, st1[k].0, st1[k].1) is Some);
    }
    if trace_resolves(ds1, st1, roots) {
        let k = choose|k: int| 0 <= k < st1.len() && #[trigger] resolved_at(ds1[k], roots, st1[k].0, st1[k].1) is Some;
        if k < steps.len() {
            assert(ds1[k] == ds[k] && st1[k] == steps[k]);
            assert(resolved_at(ds[k], roots, steps[k].0, steps[k].1) is Some);
        }
    }
}

/// `b` and `changed` are what one pass of name resolution makes of the definitions `a`:
/// the last state of a trace through every slot of every definition, and whether some
/// visit resolved a reference.
pub open spec fn resolve_pass_result(a: Seq<Def>, roots: Seq<DefId>, b: Seq<Def>, changed: bool) -> bool {
    exists|ds: Seq<Seq<Def>>|
        {
            &&& resolve_trace(ds, pass_slots(a, a.len()), roots)
            &&& ds[0] == a
            &&& ds.last() == b
            &&& changed == trace_resolves(ds, pass_slots(a, a.len()), roots)
        }
}

/// Run one pass of name resolution over the entire model: for each definition in
/// order, each unresolved reference in slot order is resolved when its name means
/// something in scope, every visit seeing what the ones before it did.
/// Returns `true` if any name was resolved (i.e., progress was made).
pub fn resolve_pass(
    model: &mut SemanticModel,
    interner: &crate::interner::StringInterner,
    sink: &mut crate::diagnostic::DiagnosticSink,
) -> (changed: bool)
    requires
        old(model).wf(),
    ensures
        final(model).wf(),
        final(model).roots == old(model).roots,
        final(model).type_infos == old(model).type_infos,
        final(model).def_to_type == old(model).def_to_type,
        final(sink)@ == old(sink)@,
        resolve_pass_result(old(model).defs@, old(model).roots@, final(model).defs@, changed),
        reports_interned(old(model).defs@, interner@.len()) ==> reports_interned(final(model).defs@, interner@.len()),
        names_interned(old(model).defs@, interner@.len()) ==> names_interned(final(model).defs@, interner@.len()),
        model_faithful(old(model).defs@) ==> model_faithful(final(model).defs@),
        crate::hir::same_names(old(model).defs@, final(model).defs@),
{
    let ghost defs0 = model.defs@;
    let ghost roots = model.roots@;
    let n = model.defs.len();
    let ghost mut ds: Seq<Seq<Def>> = seq![model.defs@];
    let ghost mut steps: Seq<(int, RefSlot)> = Seq::empty();
    let mut changed = false;
    let mut i: usize = 0;
    while i < n
        invariant
            model.wf(),
            model.defs@.len() == n,
            n == defs0.len(),
            model.roots == old(model).roots,
            roots == old(model).roots@,
            model.type_infos == old(model).type_infos,
            model.def_to_type == old(model).def_to_type,
            i <= n,
            forall|m: int| 0 <= m < n ==> #[trigger] def_slots(model.defs@[m]) == def_slots(defs0[m]),
            steps == pass_slots(defs0, i as nat),
            reports_interned(defs0, interner@.len()) ==> reports_interned(model.defs@, interner@.len()),
            names_interned(defs0, interner@.len()) ==> names_interned(model.defs@, interner@.len()),
            model_faithful(defs0) ==> model_faithful(model.defs@),
            crate::hir::same_names(defs0, model.defs@),
            resolve_trace(ds, steps, roots),
            ds[0] == defs0,
            ds.last() == model.defs@,
            changed == trace_resolves(ds, steps, roots),
        decreases n - i,
    {
        let id = DefId::from_raw(i as u32);
        let slots = slots_of(&model.defs[id]);
        let ghost base = steps;
        let mut j: usize = 0;
        proof {
            assert(def_slots(defs0[i as int]).map_values(|s: RefSlot| (i as int, s)).subrange(0, 0) =~= Seq::<(int, RefSlot)>::empty());
            assert(steps =~= base + def_slots(defs0[i as int]).map_values(|s: RefSlot| (i as int, s)).subrange(0, 0));
        }
        while j < slots.len()
            invariant
                model.wf(),
                model.defs@.len() == n,
                n == defs0.len(),
                model.roots == old(model).roots,
                roots == old(model).roots@,
                model.type_infos == old(model).type_infos,
                model.def_to_type == old(model).def_to_type,
                i < n,
                id.index() == i,
                slots@ == def_slots(defs0[i as int]),
                forall|m: int| 0 <= m < n ==> #[trigger] def_slots(model.defs@[m]) == def_slots(defs0[m]),
                base == pass_slots(defs0, i as nat),
                reports_interned(defs0, interner@.len()) ==> reports_interned(model.defs@, interner@.len()),
                names_interned(defs0, interner@.len()) ==> names_interned(model.defs@, interner@.len()),
                model_faithful(defs0) ==> model_faithful(model.defs@),
                crate::hir::same_names(defs0, model.defs@),
                j <= slots@.len(),
                steps == base + def_slots(defs0[i as int]).map_values(|s: RefSlot| (i as int, s)).subrange(0, j as int),
                resolve_trace(ds, steps, roots),
                ds[0] == defs0,
                ds.last() == model.defs@,
                changed == trace_resolves(ds, steps, roots),
            decreases slots@.len() - j,
        {
            let s = slots[j];
            let ghost before = model.defs@;
            let c = resolve_slot(model, id, s);
            proof {
                lemma_trace_push(ds, steps, roots, model.defs@, (i as int, s));
                ds = ds.push(model.defs@);
                steps = steps.push((i as int, s));
                let mapped = def_slots(defs0[i as int]).map_values(|s: RefSlot| (i as int, s));
                assert(mapped.subrange(0, j + 1) =~= mapped.subrange(0, j as int).push((i as int, s)));
                assert(steps =~= base + mapped.subrange(0, j + 1));
                assert forall|m: int| 0 <= m < n implies (#[trigger] model.defs@[m]).name == defs0[m].name by {
                    if m != i && resolved_at(before, roots, i as int, s) is Some {
                        assert(model.defs@[m] == before[m]);
                    }
                }
                assert forall|m: int| 0 <= m < n implies #[trigger] def_slots(model.defs@[m]) == def_slots(defs0[m]) by {
                    if m != i && resolved_at(before, roots, i as int, s) is Some {
                        assert(model.defs@[m] == before[m]);
                    } else if resolved_at(before, roots, i as int, s) is Some {
                        lemma_slot_set_same_slots(before[m], model.defs@[m], s, ResolutionState::Resolved(resolved_at(before, roots, i as int, s)->0));
                    }
                }
            }
            if c {
                changed = true;
            }
            j = j + 1;
        }
        proof {
            let mapped = def_slots(defs0[i as int]).map_values(|s: RefSlot| (i as int, s));
            assert(mapped.subrange(0, j as int) =~= mapped);
            assert(steps =~= pass_slots(defs0, (i + 1) as nat));
        }
        i = i + 1;
    }
    proof {
        assert(steps == pass_slots(defs0, defs0.len()));
    }
    changed
}


/// The references of `d` that are reported when left unresolved, each with the words
/// that say what it names: specializations, the conjugation target, the typing, the two
/// sides of a conjugation declaration, chain segments and multiplicity bounds.
pub open spec fn def_reports(d: Def) -> Seq<(NameRef, Seq<char>)> {
    d.specializations@.map_values(|r: NameRef| (r, "type"@)) + (match d.conjugation {
        Some(c) => seq![(c, "conjugation target"@)],
        None => Seq::empty(),
    }) + (match d.type_ref {
        Some(t) => seq![(t, "type"@)],
        None => Seq::empty(),
    }) + (match d.conjugation_decl {
        Some(p) => seq![(p.0, "conjugated type"@), (p.1, "original type"@)],
        None => Seq::empty(),
    }) + d.chain_segments@.map_values(|r: NameRef| (r, "chain segment"@)) + (match d.multiplicity {
        Some(m) => bound_reports(m.lower) + bound_reports(m.upper),
        None => Seq::empty(),
    })
}

/// A bound that refers to a feature is reported as a multiplicity bound.
pub open spec fn bound_reports(b: MultBound) -> Seq<(NameRef, Seq<char>)> {
    match b {
        MultBound::Ref(r) => seq![(r, "multiplicity bound"@)],
        _ => Seq::empty(),
    }
}

/// Whether entry `rep` is reported: its reference is unresolved, or it is a chain
/// segment that names no member of the type it was looked up in.
pub open spec fn reported(rep: (NameRef, Seq<char>)) -> bool {
    ||| rep.0.resolution == ResolutionState::Unresolved
    ||| (rep.0.resolution == ResolutionState::Error && rep.1 == "chain segment"@)
}

/// The label of the report of `rep`.
pub open spec fn report_label(rep: (NameRef, Seq<char>)) -> Seq<char> {
    if rep.0.resolution == ResolutionState::Error {
        "member not found in type"@
    } else {
        "not found"@
    }
}

/// The entries of `rs` that are reported, in order.
pub open spec fn unresolved_reports(rs: Seq<(NameRef, Seq<char>)>) -> Seq<(NameRef, Seq<char>)>
    decreases rs.len(),
{
    if rs.len() == 0 {
        Seq::empty()
    } else {
        unresolved_reports(rs.drop_last()) + (if reported(rs.last()) {
            seq![rs.last()]
        } else {
            Seq::empty()
        })
    }
}

/// What the first `k` definitions report.
pub open spec fn model_reports(defs: Seq<Def>, k: nat) -> Seq<(NameRef, Seq<char>)>
    decreases k,
{
    if k == 0 {
        Seq::empty()
    } else {
        model_reports(defs, (k - 1) as nat) + unresolved_reports(def_reports(defs[k - 1]))
    }
}

/// The texts of `segs` joined by `::`.
pub open spec fn joined(names: Seq<Seq<char>>, segs: Seq<SymbolId>) -> Seq<char>
    decreases segs.len(),
{
    if segs.len() == 0 {
        Seq::empty()
    } else if segs.len() == 1 {
        names[segs[0].0 as int]
    } else {
        joined(names, segs.drop_last()) + "::"@ + names[segs.last().0 as int]
    }
}

/// `d` is the error that reports reference `rep.0`, which names a `rep.1`.
pub open spec fn reports_unresolved(d: crate::diagnostic::Diagnostic, rep: (NameRef, Seq<char>), names: Seq<Seq<char>>) -> bool {
    &&& d.severity == crate::diagnostic::Severity::Error
    &&& d.message@ == "unresolved "@ + rep.1 + " `"@ + joined(names, rep.0.segments@) + "`"@
    &&& d.code is None
    &&& d.labels@.len() == 1
    &&& d.labels@[0].span == rep.0.span
    &&& d.labels@[0].message@ == report_label(rep)
    &&& d.labels@[0].style == crate::diagnostic::LabelStyle::Primary
    &&& d.notes@.len() == 0
    &&& d.suggestions@.len() == 0
}

/// `ds` report the references `reps`, one each, in order.
pub open spec fn reports_match(ds: Seq<crate::diagnostic::Diagnostic>, reps: Seq<(NameRef, Seq<char>)>, names: Seq<Seq<char>>) -> bool {
    &&& ds.len() == reps.len()
    &&& forall|k: int| 0 <= k < ds.len() ==> reports_unresolved(#[trigger] ds[k], reps[k], names)
}

/// Every segment of `r` is one of `n` interned strings.
pub open spec fn ref_interned(r: NameRef, n: nat) -> bool {
    forall|j: int| 0 <= j < r.segments@.len() ==> ((#[trigger] r.segments@[j]).0 as int) < n
}

pub open spec fn bound_interned(b: MultBound, n: nat) -> bool {
    b matches MultBound::Ref(r) ==> ref_interned(r, n)
}

/// Every name that `d` may report is made of `n` interned strings.
pub open spec fn def_interned(d: Def, n: nat) -> bool {
    &&& forall|k: int| 0 <= k < d.specializations@.len() ==> ref_interned(#[trigger] d.specializations@[k], n)
    &&& (d.conjugation matches Some(c) ==> ref_interned(c, n))
    &&& (d.type_ref matches Some(t) ==> ref_interned(t, n))
    &&& (d.conjugation_decl matches Some(p) ==> ref_interned(p.0, n) && ref_interned(p.1, n))
    &&& forall|k: int| 0 <= k < d.chain_segments@.len() ==> ref_interned(#[trigger] d.chain_segments@[k], n)
    &&& (d.multiplicity matches Some(m) ==> bound_interned(m.lower, n) && bound_interned(m.upper, n))
}

/// Every name that the definitions `defs` may report is made of `n` interned strings.
pub open spec fn reports_interned(defs: Seq<Def>, n: nat) -> bool {
    forall|i: int| 0 <= i < defs.len() ==> def_interned(#[trigger] defs[i], n)
}

/// `s2` extends `s1` by the reports `r2`, and `s1` extends `s0` by the reports `r1`.
proof fn lemma_report_concat(
    s0: Seq<crate::diagnostic::Diagnostic>,
    s1: Seq<crate::diagnostic::Diagnostic>,
    s2: Seq<crate::diagnostic::Diagnostic>,
    r1: Seq<(NameRef, Seq<char>)>,
    r2: Seq<(NameRef, Seq<char>)>,
    names: Seq<Seq<char>>,
)
    requires
        s1.len() >= s0.len(),
        s1.subrange(0, s0.len() as int) == s0,
        reports_match(s1.subrange(s0.len() as int, s1.len() as int), r1, names),
        s2.len() >= s1.len(),
        s2.subrange(0, s1.len() as int) == s1,
        reports_match(s2.subrange(s1.len() as int, s2.len() as int), r2, names),
    ensures
        s2.subrange(0, s0.len() as int) == s0,
        reports_match(s2.subrange(s0.len() as int, s2.len() as int), r1 + r2, names),
{
    assert(s2.subrange(0, s0.len() as int) =~= s1.subrange(0, s0.len() as int));
    lemma_reports_append(
        s1.subrange(s0.len() as int, s1.len() as int),
        r1,
        s2.subrange(s1.len() as int, s2.len() as int),
        r2,
        names,
    );
    assert(s2.subrange(s0.len() as int, s2.len() as int) =~= s1.subrange(s0.len() as int, s1.len() as int)
        + s2.subrange(s1.len() as int, s2.len() as int));
}

/// `s2` extends `s1`, which extends `s0` by the reports of `acc`, by the reports of `one`.
proof fn lemma_report_step(
    s0: Seq<crate::diagnostic::Diagnostic>,
    s1: Seq<crate::diagnostic::Diagnostic>,
    s2: Seq<crate::diagnostic::Diagnostic>,
    acc: Seq<(NameRef, Seq<char>)>,
    one: Seq<(NameRef, Seq<char>)>,
    names: Seq<Seq<char>>,
)
    requires
        s1.len() >= s0.len(),
        s1.subrange(0, s0.len() as int) == s0,
        reports_match(s1.subrange(s0.len() as int, s1.len() as int), unresolved_reports(acc), names),
        s2.len() >= s1.len(),
        s2.subrange(0, s1.len() as int) == s1,
        reports_match(s2.subrange(s1.len() as int, s2.len() as int), unresolved_reports(one), names),
    ensures
        s2.subrange(0, s0.len() as int) == s0,
        reports_match(s2.subrange(s0.len() as int, s2.len() as int), unresolved_reports(acc + one), names),
{
    assert(s2.subrange(0, s0.len() as int) =~= s1.subrange(0, s0.len() as int));
    lemma_unresolved_append(acc, one);
    lemma_reports_append(
        s1.subrange(s0.len() as int, s1.len() as int),
        unresolved_reports(acc),
        s2.subrange(s1.len() as int, s2.len() as int),
        unresolved_reports(one),
        names,
    );
    assert(s2.subrange(s0.len() as int, s2.len() as int) =~= s1.subrange(s0.len() as int, s1.len() as int)
        + s2.subrange(s1.len() as int, s2.len() as int));
}

proof fn lemma_reports_append(
    a: Seq<crate::diagnostic::Diagnostic>,
    ra: Seq<(NameRef, Seq<char>)>,
    b: Seq<crate::diagnostic::Diagnostic>,
    rb: Seq<(NameRef, Seq<char>)>,
    names: Seq<Seq<char>>,
)
    requires
        reports_match(a, ra, names),
        reports_match(b, rb, names),
    ensures
        reports_match(a + b, ra + rb, names),
{
    assert forall|k: int| 0 <= k < (a + b).len() implies reports_unresolved(#[trigger] (a + b)[k], (ra + rb)[k], names) by {
        if k < a.len() {
            assert((a + b)[k] == a[k] && (ra + rb)[k] == ra[k]);
        } else {
            assert((a + b)[k] == b[k - a.len()] && (ra + rb)[k] == rb[k - a.len()]);
        }
    }
}

proof fn lemma_unresolved_append(a: Seq<(NameRef, Seq<char>)>, b: Seq<(NameRef, Seq<char>)>)
    ensures
        unresolved_reports(a + b) == unresolved_reports(a) + unresolved_reports(b),
    decreases b.len(),
{
    if b.len() == 0 {
        assert(a + b =~= a);
        assert(unresolved_reports(a) + unresolved_reports(b) =~= unresolved_reports(a));
    } else {
        assert((a + b).drop_last() =~= a + b.drop_last());
        lemma_unresolved_append(a, b.drop_last());
        assert((a + b).last() == b.last());
    }
}

/// The text of `segs` joined by `::`.
fn join_segments(segs: &Vec<SymbolId>, interner: &crate::interner::StringInterner) -> (r: String)
    requires
        forall|j: int| 0 <= j < segs@.len() ==> ((#[trigger] segs@[j]).0 as int) < interner@.len(),
    ensures
        r@ == joined(interner@, segs@),
{
    let mut r = String::new();
    let mut i: usize = 0;
    while i < segs.len()
        invariant
            i <= segs@.len(),
            forall|j: int| 0 <= j < segs@.len() ==> ((#[trigger] segs@[j]).0 as int) < interner@.len(),
            r@ == joined(interner@, segs@.subrange(0, i as int)),
        decreases segs@.len() - i,
    {
        proof {
            assert(segs@.subrange(0, i + 1).drop_last() =~= segs@.subrange(0, i as int));
            assert(segs@.subrange(0, i + 1).last() == segs@[i as int]);
            assert(segs@[i as int].0 < interner@.len());
        }
        let text = interner.resolve(segs[i]);
        if i == 0 {
            r = String::from_str(text);
            proof {
                assert(segs@.subrange(0, 1)[0] == segs@[0]);
            }
        } else {
            r = r.concat("::").concat(text);
        }
        i = i + 1;
    }
    proof {
        assert(segs@.subrange(0, i as int) =~= segs@);
    }
    r
}

/// The kinds of reference other than a chain segment are told apart from it.
proof fn lemma_report_kinds()
    ensures
        "type"@ != "chain segment"@,
        "conjugation target"@ != "chain segment"@,
        "conjugated type"@ != "chain segment"@,
        "original type"@ != "chain segment"@,
        "multiplicity bound"@ != "chain segment"@,
{
    reveal_strlit("chain segment");
    reveal_strlit("type");
    reveal_strlit("conjugation target");
    reveal_strlit("conjugated type");
    reveal_strlit("original type");
    reveal_strlit("multiplicity bound");
    assert("type"@.len() != "chain segment"@.len());
    assert("conjugation target"@.len() != "chain segment"@.len());
    assert("conjugated type"@.len() != "chain segment"@.len());
    assert("original type"@[0] != "chain segment"@[0]);
    assert("multiplicity bound"@.len() != "chain segment"@.len());
}

/// Reports `nr`, which names a `kind`, if it is unresolved, or if it is a chain segment
/// (`chain`) that names no member of the type it was looked up in.
fn report_if_unresolved(
    nr: &NameRef,
    kind: &str,
    chain: bool,
    interner: &crate::interner::StringInterner,
    sink: &mut crate::diagnostic::DiagnosticSink,
)
    requires
        forall|j: int| 0 <= j < nr.segments@.len() ==> ((#[trigger] nr.segments@[j]).0 as int) < interner@.len(),
        chain == (kind@ == "chain segment"@),
    ensures
        final(sink)@.len() >= old(sink)@.len(),
        final(sink)@.subrange(0, old(sink)@.len() as int) == old(sink)@,
        reports_match(
            final(sink)@.subrange(old(sink)@.len() as int, final(sink)@.len() as int),
            unresolved_reports(seq![(*nr, kind@)]),
            interner@,
        ),
{
    proof {
        let one = seq![(*nr, kind@)];
        assert(one.drop_last() =~= Seq::<(NameRef, Seq<char>)>::empty());
        assert(one.last() == (*nr, kind@));
        assert(unresolved_reports(Seq::<(NameRef, Seq<char>)>::empty()) == Seq::<(NameRef, Seq<char>)>::empty());
        assert(unresolved_reports(one) == unresolved_reports(one.drop_last()) + (if reported(one.last()) {
            seq![one.last()]
        } else {
            Seq::empty()
        }));
    }
    let (report, label) = match nr.resolution {
        ResolutionState::Unresolved => (true, "not found"),
        ResolutionState::Error => (chain, "member not found in type"),
        _ => (false, "not found"),
    };
    if report {
        let name = join_segments(&nr.segments, interner);
        let message = String::from_str("unresolved ").concat(kind).concat(" `").concat(name.as_str()).concat("`");
        let d = crate::diagnostic::Diagnostic::error(message.as_str()).with_label(
            crate::diagnostic::Label::primary(nr.span, label),
        );
        let ghost before = sink@;
        sink.emit(d);
        proof {
            assert(sink@.subrange(0, before.len() as int) =~= before);
            let added = sink@.subrange(before.len() as int, sink@.len() as int);
            assert(added =~= seq![d]);
            assert(unresolved_reports(seq![(*nr, kind@)]) =~= seq![(*nr, kind@)]);
            assert(reports_unresolved(added[0], (*nr, kind@), interner@));
        }
    } else {
        proof {
            assert(sink@.subrange(0, sink@.len() as int) =~= sink@);
            assert(sink@.subrange(sink@.len() as int, sink@.len() as int) =~= Seq::<crate::diagnostic::Diagnostic>::empty());
            assert(unresolved_reports(seq![(*nr, kind@)]) =~= Seq::<(NameRef, Seq<char>)>::empty());
        }
    }
}


/// Reports the unresolved references of `d`, in the order of [`def_reports`].
fn report_def(d: &Def, interner: &crate::interner::StringInterner, sink: &mut crate::diagnostic::DiagnosticSink)
    requires
        def_interned(*d, interner@.len()),
    ensures
        final(sink)@.len() >= old(sink)@.len(),
        final(sink)@.subrange(0, old(sink)@.len() as int) == old(sink)@,
        reports_match(
            final(sink)@.subrange(old(sink)@.len() as int, final(sink)@.len() as int),
            unresolved_reports(def_reports(*d)),
            interner@,
        ),
{
    let ghost s0 = sink@;
    let ghost names = interner@;
    let ghost mut acc: Seq<(NameRef, Seq<char>)> = Seq::empty();
    proof {
        assert(sink@.subrange(0, s0.len() as int) =~= s0);
        assert(sink@.subrange(s0.len() as int, sink@.len() as int) =~= Seq::<crate::diagnostic::Diagnostic>::empty());
        assert(unresolved_reports(acc) == Seq::<(NameRef, Seq<char>)>::empty());
    }
    let mut k: usize = 0;
    while k < d.specializations.len()
        invariant
            def_interned(*d, interner@.len()),
            names == interner@,
            k <= d.specializations@.len(),
            acc == d.specializations@.subrange(0, k as int).map_values(|r: NameRef| (r, "type"@)),
            sink@.len() >= s0.len(),
            sink@.subrange(0, s0.len() as int) == s0,
            reports_match(sink@.subrange(s0.len() as int, sink@.len() as int), unresolved_reports(acc), names),
        decreases d.specializations@.len() - k,
    {
        let ghost s1 = sink@;
        proof {
            lemma_report_kinds();
        }
        report_if_unresolved(&d.specializations[k], "type", false, interner, sink);
        proof {
            let one = seq![(d.specializations@[k as int], "type"@)];
            lemma_report_step(s0, s1, sink@, acc, one, names);
            acc = acc + one;
            assert(acc =~= d.specializations@.subrange(0, k + 1).map_values(|r: NameRef| (r, "type"@)));
        }
        k = k + 1;
    }
    proof {
        assert(d.specializations@.subrange(0, k as int) =~= d.specializations@);
    }
    match &d.conjugation {
        Some(c) => {
            let ghost s1 = sink@;
            proof {
                lemma_report_kinds();
            }
            report_if_unresolved(c, "conjugation target", false, interner, sink);
            proof {
                lemma_report_step(s0, s1, sink@, acc, seq![(*c, "conjugation target"@)], names);
                acc = acc + seq![(*c, "conjugation target"@)];
            }
        },
        None => {},
    }
    match &d.type_ref {
        Some(t) => {
            let ghost s1 = sink@;
            proof {
                lemma_report_kinds();
            }
            report_if_unresolved(t, "type", false, interner, sink);
            proof {
                lemma_report_step(s0, s1, sink@, acc, seq![(*t, "type"@)], names);
                acc = acc + seq![(*t, "type"@)];
            }
        },
        None => {},
    }
    match &d.conjugation_decl {
        Some(p) => {
            let ghost s1 = sink@;
            proof {
                lemma_report_kinds();
            }
            report_if_unresolved(&p.0, "conjugated type", false, interner, sink);
            proof {
                lemma_report_step(s0, s1, sink@, acc, seq![(p.0, "conjugated type"@)], names);
                acc = acc + seq![(p.0, "conjugated type"@)];
            }
            let ghost s2 = sink@;
            proof {
                lemma_report_kinds();
            }
            report_if_unresolved(&p.1, "original type", false, interner, sink);
            proof {
                lemma_report_step(s0, s2, sink@, acc, seq![(p.1, "original type"@)], names);
                acc = acc + seq![(p.1, "original type"@)];
                assert(acc =~= d.specializations@.map_values(|r: NameRef| (r, "type"@)) + (match d.conjugation {
                    Some(c) => seq![(c, "conjugation target"@)],
                    None => Seq::empty(),
                }) + (match d.type_ref {
                    Some(t) => seq![(t, "type"@)],
                    None => Seq::empty(),
                }) + seq![(p.0, "conjugated type"@), (p.1, "original type"@)]);
            }
        },
        None => {},
    }
    let ghost head = acc;
    proof {
        assert(head =~= d.specializations@.map_values(|r: NameRef| (r, "type"@)) + (match d.conjugation {
            Some(c) => seq![(c, "conjugation target"@)],
            None => Seq::empty(),
        }) + (match d.type_ref {
            Some(t) => seq![(t, "type"@)],
            None => Seq::empty(),
        }) + (match d.conjugation_decl {
            Some(p) => seq![(p.0, "conjugated type"@), (p.1, "original type"@)],
            None => Seq::empty(),
        }));
    }
    k = 0;
    while k < d.chain_segments.len()
        invariant
            def_interned(*d, interner@.len()),
            names == interner@,
            k <= d.chain_segments@.len(),
            acc == head + d.chain_segments@.subrange(0, k as int).map_values(|r: NameRef| (r, "chain segment"@)),
            sink@.len() >= s0.len(),
            sink@.subrange(0, s0.len() as int) == s0,
            reports_match(sink@.subrange(s0.len() as int, sink@.len() as int), unresolved_reports(acc), names),
        decreases d.chain_segments@.len() - k,
    {
        let ghost s1 = sink@;
        report_if_unresolved(&d.chain_segments[k], "chain segment", true, interner, sink);
        proof {
            let one = seq![(d.chain_segments@[k as int], "chain segment"@)];
            lemma_report_step(s0, s1, sink@, acc, one, names);
            acc = acc + one;
            assert(acc =~= head + d.chain_segments@.subrange(0, k + 1).map_values(|r: NameRef| (r, "chain segment"@)));
        }
        k = k + 1;
    }
    proof {
        assert(d.chain_segments@.subrange(0, k as int) =~= d.chain_segments@);
    }
    match &d.multiplicity {
        Some(m) => {
            match &m.lower {
                MultBound::Ref(r) => {
                    let ghost s1 = sink@;
                    proof {
                        lemma_report_kinds();
                    }
                    report_if_unresolved(r, "multiplicity bound", false, interner, sink);
                    proof {
                        lemma_report_step(s0, s1, sink@, acc, seq![(*r, "multiplicity bound"@)], names);
                        acc = acc + seq![(*r, "multiplicity bound"@)];
                    }
                },
                _ => {},
            }
            match &m.upper {
                MultBound::Ref(r) => {
                    let ghost s1 = sink@;
                    proof {
                        lemma_report_kinds();
                    }
                    report_if_unresolved(r, "multiplicity bound", false, interner, sink);
                    proof {
                        lemma_report_step(s0, s1, sink@, acc, seq![(*r, "multiplicity bound"@)], names);
                        acc = acc + seq![(*r, "multiplicity bound"@)];
                    }
                },
                _ => {},
            }
        },
        None => {},
    }
    proof {
        assert(acc =~= def_reports(*d));
    }
}

/// Emit diagnostics for anything still unresolved: for each definition in order, one
/// error per unresolved reference among [`def_reports`], naming what it refers to.
pub fn emit_unresolved_errors(
    model: &SemanticModel,
    interner: &crate::interner::StringInterner,
    sink: &mut crate::diagnostic::DiagnosticSink,
)
    requires
        model.defs@.len() <= u32::MAX,
        reports_interned(model.defs@, interner@.len()),
    ensures
        final(sink)@.len() >= old(sink)@.len(),
        final(sink)@.subrange(0, old(sink)@.len() as int) == old(sink)@,
        reports_match(
            final(sink)@.subrange(old(sink)@.len() as int, final(sink)@.len() as int),
            model_reports(model.defs@, model.defs@.len()),
            interner@,
        ),
{
    let ghost s0 = sink@;
    let n = model.defs.len();
    let mut i: usize = 0;
    proof {
        assert(sink@.subrange(0, s0.len() as int) =~= s0);
        assert(sink@.subrange(s0.len() as int, sink@.len() as int) =~= Seq::<crate::diagnostic::Diagnostic>::empty());
    }
    while i < n
        invariant
            n == model.defs@.len(),
            n <= u32::MAX,
            reports_interned(model.defs@, interner@.len()),
            i <= n,
            sink@.len() >= s0.len(),
            sink@.subrange(0, s0.len() as int) == s0,
            reports_match(sink@.subrange(s0.len() as int, sink@.len() as int), model_reports(model.defs@, i as nat), interner@),
        decreases n - i,
    {
        let id = DefId::from_raw(i as u32);
        let ghost s1 = sink@;
        proof {
            assert(def_interned(model.defs@[i as int], interner@.len()));
        }
        report_def(&model.defs[id], interner, sink);
        proof {
            lemma_report_concat(
                s0,
                s1,
                sink@,
                model_reports(model.defs@, i as nat),
                unresolved_reports(def_reports(model.defs@[i as int])),
                interner@,
            );
        }
        i = i + 1;
    }
}


/// `v` is among the resolved specialization targets of definition `u`.
pub open spec fn spec_edge(defs: Seq<Def>, u: int, v: int) -> bool {
    exists|k: int| 0 <= k < defs[u].specializations@.len() && targets(#[trigger] defs[u].specializations@[k], v)
}

/// `r` is resolved to definition `v`.
pub open spec fn targets(r: NameRef, v: int) -> bool {
    r.resolution matches ResolutionState::Resolved(t) && t.index() == v
}

/// `w` is a walk of at least one step along specialization edges.
pub open spec fn spec_walk(defs: Seq<Def>, w: Seq<int>) -> bool {
    &&& w.len() >= 2
    &&& forall|k: int| 0 <= k < w.len() - 1 ==> #[trigger] spec_edge(defs, w[k], w[k + 1])
}

/// Definition `v` lies on a cycle of specializations.
pub open spec fn on_cycle(defs: Seq<Def>, v: int) -> bool {
    exists|w: Seq<int>| spec_walk(defs, w) && w[0] == v && w.last() == v
}

/// `d` reports that definition `v` is part of a specialization cycle.
pub open spec fn reports_cycle(d: crate::diagnostic::Diagnostic, defs: Seq<Def>, v: int, names: Seq<Seq<char>>) -> bool {
    &&& d.severity == crate::diagnostic::Severity::Error
    &&& d.message@ == "circular specialization: `"@ + names[defs[v].name.0 as int]
        + "` is part of a specialization cycle"@
    &&& d.code is None
    &&& d.labels@.len() == 1
    &&& d.labels@[0].span == defs[v].span
    &&& d.labels@[0].message@ == "cycle detected here"@
    &&& d.labels@[0].style == crate::diagnostic::LabelStyle::Primary
    &&& d.notes@.len() == 0
    &&& d.suggestions@.len() == 0
}

/// How many return markers `st` holds.
pub open spec fn markers(st: Seq<(DefId, bool)>) -> nat
    decreases st.len(),
{
    if st.len() == 0 {
        0
    } else {
        markers(st.drop_last()) + if st.last().1 {
            1nat
        } else {
            0nat
        }
    }
}

#[derive(Clone, Copy, Debug, PartialEq, Eq, Structural)]
enum Color {
    White,
    Gray,
    Black,
}

/// How many of `cs` are white.
spec fn whites(cs: Seq<Color>) -> nat
    decreases cs.len(),
{
    if cs.len() == 0 {
        0
    } else {
        whites(cs.drop_last()) + if cs.last() == Color::White {
            1nat
        } else {
            0nat
        }
    }
}

proof fn lemma_whites_update(cs: Seq<Color>, i: int, c: Color)
    requires
        0 <= i < cs.len(),
    ensures
        whites(cs.update(i, c)) + (if cs[i] == Color::White {
            1nat
        } else {
            0nat
        }) == whites(cs) + (if c == Color::White {
            1nat
        } else {
            0nat
        }),
    decreases cs.len(),
{
    if i < cs.len() - 1 {
        assert(cs.update(i, c).drop_last() =~= cs.drop_last().update(i, c));
        lemma_whites_update(cs.drop_last(), i, c);
    } else {
        assert(cs.update(i, c).drop_last() =~= cs.drop_last());
    }
}

proof fn lemma_markers_push(st: Seq<(DefId, bool)>, e: (DefId, bool))
    ensures
        markers(st.push(e)) == markers(st) + if e.1 {
            1nat
        } else {
            0nat
        },
{
    assert(st.push(e).drop_last() =~= st);
}

/// Entry `p` of `st` sits above the marker of a definition it specializes, or is the
/// start itself below every marker; a marker belongs to the definition at its depth.
spec fn entry_ok(defs: Seq<Def>, st: Seq<(DefId, bool)>, path: Seq<int>, start: int, p: int) -> bool {
    let m = markers(st.subrange(0, p));
    &&& st[p].0.index() < defs.len()
    &&& (st[p].1 ==> st[p].0.index() == path[m as int])
    &&& (!st[p].1 && m == 0 ==> st[p].0.index() == start)
    &&& (!st[p].1 && m > 0 ==> spec_edge(defs, path[m - 1], st[p].0.index() as int))
}

/// The stack discipline of the search from `start`: the return markers on `st` are
/// those of the gray `path`, in order, and every entry is in place.
spec fn stack_ok(defs: Seq<Def>, st: Seq<(DefId, bool)>, path: Seq<int>, start: int) -> bool {
    &&& markers(st) == path.len()
    &&& forall|p: int| 0 <= p < st.len() ==> #[trigger] entry_ok(defs, st, path, start, p)
}

/// The gray `path` runs from `start` along specialization edges.
spec fn path_ok(defs: Seq<Def>, path: Seq<int>, start: int) -> bool {
    &&& (path.len() > 0 ==> path[0] == start)
    &&& forall|k: int| 0 <= k < path.len() ==> 0 <= #[trigger] path[k] < defs.len()
    &&& forall|k: int| 0 <= k < path.len() - 1 ==> #[trigger] spec_edge(defs, path[k], path[k + 1])
}

/// A walk from `path[i]` to the end of the path, and back by an edge to `path[i]`.
proof fn lemma_cycle_from_path(defs: Seq<Def>, path: Seq<int>, start: int, i: int)
    requires
        path_ok(defs, path, start),
        0 <= i < path.len(),
        spec_edge(defs, path.last(), path[i]),
    ensures
        on_cycle(defs, path[i]),
{
    let w = path.subrange(i, path.len() as int).push(path[i]);
    assert forall|k: int| 0 <= k < w.len() - 1 implies #[trigger] spec_edge(defs, w[k], w[k + 1]) by {
        if k < w.len() - 2 {
            assert(w[k] == path[i + k] && w[k + 1] == path[i + k + 1]);
            assert(spec_edge(defs, path[i + k], path[i + k + 1]));
        } else {
            assert(w[k] == path.last());
        }
    }
    assert(spec_walk(defs, w));
    assert(w[0] == path[i]);
    assert(w.last() == path[i]);
}


proof fn lemma_markers_prefix(st: Seq<(DefId, bool)>, p: int, q: int)
    requires
        0 <= p <= q <= st.len(),
    ensures
        markers(st.subrange(0, p)) <= markers(st.subrange(0, q)),
        p < q && st[p].1 ==> markers(st.subrange(0, p)) < markers(st.subrange(0, q)),
    decreases q - p,
{
    if p < q {
        lemma_markers_prefix(st, p, q - 1);
        assert(st.subrange(0, q).drop_last() =~= st.subrange(0, q - 1));
        assert(st.subrange(0, q).last() == st[q - 1]);
    }
}

proof fn lemma_stack_pop(defs: Seq<Def>, st: Seq<(DefId, bool)>, path: Seq<int>, start: int)
    requires
        stack_ok(defs, st, path, start),
        st.len() > 0,
    ensures
        st.last().0.index() < defs.len(),
        st.last().1 ==> path.len() > 0 && st.last().0.index() == path.last() && stack_ok(
            defs,
            st.drop_last(),
            path.drop_last(),
            start,
        ),
        !st.last().1 ==> {
            &&& stack_ok(defs, st.drop_last(), path, start)
            &&& (path.len() == 0 ==> st.last().0.index() == start)
            &&& (path.len() > 0 ==> spec_edge(defs, path.last(), st.last().0.index() as int))
        },
{
    let rest = st.drop_last();
    let n = st.len() - 1;
    assert(st.subrange(0, n) =~= rest);
    assert(st[n] == st.last());
    assert(entry_ok(defs, st, path, start, n));
    assert(markers(st) == markers(rest) + if st.last().1 { 1nat } else { 0nat });
    let path2 = if st.last().1 { path.drop_last() } else { path };
    assert forall|p: int| 0 <= p < rest.len() implies #[trigger] entry_ok(defs, rest, path2, start, p) by {
        assert(entry_ok(defs, st, path, start, p));
        assert(rest.subrange(0, p) =~= st.subrange(0, p));
        assert(rest[p] == st[p]);
        let mp = markers(st.subrange(0, p));
        lemma_markers_prefix(st, p, n);
        if rest[p].1 {
            assert(mp < markers(rest));
            assert(path2[mp as int] == path[mp as int]);
        } else if mp > 0 {
            assert(mp <= markers(rest));
            assert(path2[mp - 1] == path[mp - 1]);
        }
    }
    if st.last().1 {
        assert(path[path.len() - 1] == path.last());
    } else if path.len() > 0 {
        assert(path[path.len() - 1] == path.last());
    }
}

proof fn lemma_stack_push_marker(defs: Seq<Def>, st: Seq<(DefId, bool)>, path: Seq<int>, start: int, v: DefId)
    requires
        stack_ok(defs, st, path, start),
        v.index() < defs.len(),
    ensures
        stack_ok(defs, st.push((v, true)), path.push(v.index() as int), start),
{
    let st1 = st.push((v, true));
    let path1 = path.push(v.index() as int);
    lemma_markers_push(st, (v, true));
    assert(st.subrange(0, st.len() as int) =~= st);
    assert forall|p: int| 0 <= p < st1.len() implies #[trigger] entry_ok(defs, st1, path1, start, p) by {
        if p < st.len() {
            assert(entry_ok(defs, st, path, start, p));
            assert(st1.subrange(0, p) =~= st.subrange(0, p));
            assert(st1[p] == st[p]);
            let mp = markers(st.subrange(0, p));
            lemma_markers_prefix(st, p, st.len() as int);
            if st[p].1 {
                assert(path1[mp as int] == path[mp as int]);
            } else if mp > 0 {
                assert(path1[mp - 1] == path[mp - 1]);
            }
        } else {
            assert(st1.subrange(0, p) =~= st);
            assert(st1[p] == (v, true));
        }
    }
}

proof fn lemma_stack_push_child(defs: Seq<Def>, st: Seq<(DefId, bool)>, path: Seq<int>, start: int, t: DefId)
    requires
        stack_ok(defs, st, path, start),
        path.len() > 0,
        t.index() < defs.len(),
        spec_edge(defs, path.last(), t.index() as int),
    ensures
        stack_ok(defs, st.push((t, false)), path, start),
{
    let st1 = st.push((t, false));
    lemma_markers_push(st, (t, false));
    assert forall|p: int| 0 <= p < st1.len() implies #[trigger] entry_ok(defs, st1, path, start, p) by {
        if p < st.len() {
            assert(entry_ok(defs, st, path, start, p));
            assert(st1.subrange(0, p) =~= st.subrange(0, p));
            assert(st1[p] == st[p]);
        } else {
            assert(st1.subrange(0, p) =~= st);
            assert(st1[p] == (t, false));
            assert(path[path.len() - 1] == path.last());
        }
    }
}

/// The stack `st` holds an entry for `w` in the segment of the `j`-th gray definition:
/// above its marker and below the next one.
spec fn in_segment(st: Seq<(DefId, bool)>, w: int, j: int) -> bool {
    exists|p: int|
        0 <= p < st.len() && !st[p].1 && st[p].0.index() == w && #[trigger] markers(st.subrange(0, p)) == j + 1
}

/// Every successor of a finished definition finished before it.
spec fn closed(defs: Seq<Def>, colors: Seq<Color>, fin: Seq<int>) -> bool {
    forall|x: int, w: int|
        0 <= x < colors.len() && colors[x] == Color::Black && #[trigger] spec_edge(defs, x, w) ==> 0 <= w
            < colors.len() && colors[w] == Color::Black && fin[w] < fin[x]
}

/// Each successor of a gray definition still waits in its segment, is finished, or is
/// the next definition on the path.
spec fn pending_ok(defs: Seq<Def>, st: Seq<(DefId, bool)>, path: Seq<int>, colors: Seq<Color>) -> bool {
    forall|j: int, w: int|
        0 <= j < path.len() && #[trigger] spec_edge(defs, path[j], w) ==> {
            ||| in_segment(st, w, j)
            ||| (0 <= w < colors.len() && colors[w] == Color::Black)
            ||| (j + 1 < path.len() && path[j + 1] == w)
        }
}

proof fn lemma_segment_push(st: Seq<(DefId, bool)>, e: (DefId, bool), w: int, j: int)
    requires
        in_segment(st, w, j),
    ensures
        in_segment(st.push(e), w, j),
{
    let p = choose|p: int|
        0 <= p < st.len() && !st[p].1 && st[p].0.index() == w && #[trigger] markers(st.subrange(0, p)) == j + 1;
    assert(st.push(e).subrange(0, p) =~= st.subrange(0, p));
    assert(st.push(e)[p] == st[p]);
}

proof fn lemma_segment_new(st: Seq<(DefId, bool)>, t: DefId, j: int)
    requires
        markers(st) == j + 1,
    ensures
        in_segment(st.push((t, false)), t.index() as int, j),
{
    let st1 = st.push((t, false));
    let p = st.len() as int;
    assert(st1.subrange(0, p) =~= st);
    assert(st1[p] == (t, false));
}

proof fn lemma_segment_pop(st: Seq<(DefId, bool)>, w: int, j: int)
    requires
        in_segment(st, w, j),
        st.len() > 0,
    ensures
        in_segment(st.drop_last(), w, j) || (!st.last().1 && st.last().0.index() == w && markers(st.drop_last()) == j + 1),
{
    let p = choose|p: int|
        0 <= p < st.len() && !st[p].1 && st[p].0.index() == w && #[trigger] markers(st.subrange(0, p)) == j + 1;
    if p < st.len() - 1 {
        assert(st.drop_last().subrange(0, p) =~= st.subrange(0, p));
        assert(st.drop_last()[p] == st[p]);
    } else {
        assert(st.subrange(0, p) =~= st.drop_last());
    }
}

/// Nothing waits in the segment of the last gray definition when its marker is on top.
proof fn lemma_segment_empty_at_marker(st: Seq<(DefId, bool)>, w: int)
    requires
        st.len() > 0,
        st.last().1,
    ensures
        !in_segment(st.drop_last(), w, markers(st) - 1),
{
    let rest = st.drop_last();
    assert(markers(st) == markers(rest) + 1) by {
        assert(st.drop_last() == rest);
    }
    if in_segment(rest, w, markers(st) - 1) {
        let p = choose|p: int|
            0 <= p < rest.len() && !rest[p].1 && rest[p].0.index() == w && #[trigger] markers(rest.subrange(0, p))
                == markers(st);
        lemma_markers_prefix(rest, p, rest.len() as int);
        assert(rest.subrange(0, rest.len() as int) =~= rest);
    }
}

/// `v` can be reached from `t` along specialization edges.
pub open spec fn reaches(defs: Seq<Def>, t: int, v: int) -> bool {
    exists|w: Seq<int>|
        w.len() >= 1 && w[0] == t && w.last() == v && forall|k: int|
            0 <= k < w.len() - 1 ==> #[trigger] spec_edge(defs, w[k], w[k + 1])
}

/// Some definition reachable from a type lies on a specialization cycle.
pub open spec fn cycle_from_type(defs: Seq<Def>) -> bool {
    exists|t: int, v: int|
        0 <= t < defs.len() && defs[t].kind == DefKind::Type && #[trigger] reaches(defs, t, v) && on_cycle(defs, v)
}

/// Along a walk that starts at a finished definition, every definition is finished
/// and finished no later than the first.
proof fn lemma_closed_walk(defs: Seq<Def>, colors: Seq<Color>, fin: Seq<int>, w: Seq<int>, k: int)
    requires
        closed(defs, colors, fin),
        w.len() >= 1,
        0 <= w[0] < colors.len(),
        colors[w[0]] == Color::Black,
        forall|q: int| 0 <= q < w.len() - 1 ==> #[trigger] spec_edge(defs, w[q], w[q + 1]),
        0 <= k < w.len(),
    ensures
        0 <= w[k] < colors.len(),
        colors[w[k]] == Color::Black,
        k > 0 ==> fin[w[k]] < fin[w[0]],
    decreases k,
{
    if k > 0 {
        lemma_closed_walk(defs, colors, fin, w, k - 1);
        let q = k - 1;
        assert(spec_edge(defs, w[q], w[q + 1]));
        assert(q + 1 == k);
    }
}

/// Once every type is finished and the finished definitions are closed, no definition
/// reachable from a type lies on a cycle.
proof fn lemma_closed_no_cycle(defs: Seq<Def>, colors: Seq<Color>, fin: Seq<int>)
    requires
        closed(defs, colors, fin),
        colors.len() == defs.len(),
        forall|t: int| 0 <= t < defs.len() && defs[t].kind == DefKind::Type ==> #[trigger] colors[t] == Color::Black,
    ensures
        !cycle_from_type(defs),
{
    if cycle_from_type(defs) {
        let (t, v) = choose|t: int, v: int|
            0 <= t < defs.len() && defs[t].kind == DefKind::Type && #[trigger] reaches(defs, t, v) && on_cycle(defs, v);
        assert(colors[t] == Color::Black);
        let w = choose|w: Seq<int>|
            w.len() >= 1 && w[0] == t && w.last() == v && forall|k: int|
                0 <= k < w.len() - 1 ==> #[trigger] spec_edge(defs, w[k], w[k + 1]);
        lemma_closed_walk(defs, colors, fin, w, w.len() - 1);
        let c = choose|c: Seq<int>| spec_walk(defs, c) && c[0] == v && c.last() == v;
        lemma_closed_walk(defs, colors, fin, c, c.len() - 1);
    }
}

/// Every finished definition finished before `counter`.
spec fn fin_below(colors: Seq<Color>, fin: Seq<int>, counter: int) -> bool {
    forall|x: int| 0 <= x < colors.len() && #[trigger] colors[x] == Color::Black ==> fin[x] < counter
}

/// `w` is a target of one of the first `k` specializations of `u`.
spec fn edge_upto(defs: Seq<Def>, u: int, w: int, k: int) -> bool {
    exists|q: int| 0 <= q < k && targets(#[trigger] defs[u].specializations@[q], w)
}

proof fn lemma_pending_marker_pop(defs: Seq<Def>, st: Seq<(DefId, bool)>, path: Seq<int>, colors: Seq<Color>, start: int)
    requires
        pending_ok(defs, st, path, colors),
        stack_ok(defs, st, path, start),
        st.len() > 0,
        st.last().1,
        path.len() > 0,
    ensures
        forall|w: int| #[trigger] spec_edge(defs, path.last(), w) ==> 0 <= w < colors.len() && colors[w] == Color::Black,
        forall|j: int, w: int|
            0 <= j < path.len() - 1 && #[trigger] spec_edge(defs, path[j], w) ==> {
                ||| in_segment(st.drop_last(), w, j)
                ||| (0 <= w < colors.len() && colors[w] == Color::Black)
                ||| (j + 1 < path.len() && path[j + 1] == w)
            },
{
    let m = path.len() as int;
    assert(markers(st) == m);
    assert forall|w: int| #[trigger] spec_edge(defs, path.last(), w) implies 0 <= w < colors.len() && colors[w] == Color::Black by {
        assert(path[m - 1] == path.last());
        assert(spec_edge(defs, path[m - 1], w));
        if in_segment(st, w, m - 1) {
            lemma_segment_pop(st, w, m - 1);
            lemma_segment_empty_at_marker(st, w);
        }
    }
    assert forall|j: int, w: int|
        0 <= j < path.len() - 1 && #[trigger] spec_edge(defs, path[j], w) implies {
            ||| in_segment(st.drop_last(), w, j)
            ||| (0 <= w < colors.len() && colors[w] == Color::Black)
            ||| (j + 1 < path.len() && path[j + 1] == w)
        } by {
        if in_segment(st, w, j) {
            lemma_segment_pop(st, w, j);
        }
    }
}

proof fn lemma_pending_child_pop(defs: Seq<Def>, st: Seq<(DefId, bool)>, path: Seq<int>, colors: Seq<Color>)
    requires
        pending_ok(defs, st, path, colors),
        st.len() > 0,
        !st.last().1,
        markers(st.drop_last()) == path.len(),
    ensures
        forall|j: int, w: int|
            0 <= j < path.len() && #[trigger] spec_edge(defs, path[j], w) ==> {
                ||| in_segment(st.drop_last(), w, j)
                ||| (0 <= w < colors.len() && colors[w] == Color::Black)
                ||| (j + 1 < path.len() && path[j + 1] == w)
                ||| (j == path.len() - 1 && w == st.last().0.index())
            },
{
    assert forall|j: int, w: int|
        0 <= j < path.len() && #[trigger] spec_edge(defs, path[j], w) implies {
            ||| in_segment(st.drop_last(), w, j)
            ||| (0 <= w < colors.len() && colors[w] == Color::Black)
            ||| (j + 1 < path.len() && path[j + 1] == w)
            ||| (j == path.len() - 1 && w == st.last().0.index())
        } by {
        if in_segment(st, w, j) {
            lemma_segment_pop(st, w, j);
        }
    }
}

/// `d` reports a definition that lies on a specialization cycle reachable from a type.
pub open spec fn cycle_reported(d: crate::diagnostic::Diagnostic, defs: Seq<Def>, names: Seq<Seq<char>>) -> bool {
    exists|v: int|
        0 <= v < defs.len() && on_cycle(defs, v) && reports_cycle(d, defs, v, names) && exists|t: int|
            0 <= t < defs.len() && defs[t].kind == DefKind::Type && #[trigger] reaches(defs, t, v)
}

/// Every diagnostic of `ds` reports a definition on a specialization cycle.
pub open spec fn all_cycle_reports(ds: Seq<crate::diagnostic::Diagnostic>, defs: Seq<Def>, names: Seq<Seq<char>>) -> bool {
    forall|k: int| 0 <= k < ds.len() ==> cycle_reported(#[trigger] ds[k], defs, names)
}

/// Every definition's name is one of `n` interned strings.
pub open spec fn names_interned(defs: Seq<Def>, n: nat) -> bool {
    forall|i: int| 0 <= i < defs.len() ==> ((#[trigger] defs[i]).name.0 as int) < n
}

/// The error reporting that definition `node` is part of a specialization cycle.
fn cycle_error(model: &SemanticModel, interner: &crate::interner::StringInterner, node: DefId) -> (d: crate::diagnostic::Diagnostic)
    requires
        node.index() < model.defs@.len(),
        names_interned(model.defs@, interner@.len()),
    ensures
        reports_cycle(d, model.defs@, node.index() as int, interner@),
{
    proof {
        assert((model.defs@[node.index() as int].name.0 as int) < interner@.len());
    }
    let name = interner.resolve(model.defs[node].name);
    let message = String::from_str("circular specialization: `").concat(name).concat("` is part of a specialization cycle");
    crate::diagnostic::Diagnostic::error(message.as_str()).with_label(
        crate::diagnostic::Label::primary(model.defs[node].span, "cycle detected here"),
    )
}

/// A walk along the path from its start to `path[i]`.
proof fn lemma_path_reaches(defs: Seq<Def>, path: Seq<int>, start: int, i: int)
    requires
        path_ok(defs, path, start),
        0 <= i < path.len(),
    ensures
        reaches(defs, start, path[i]),
{
    let w = path.subrange(0, i + 1);
    assert forall|k: int| 0 <= k < w.len() - 1 implies #[trigger] spec_edge(defs, w[k], w[k + 1]) by {
        assert(w[k] == path[k] && w[k + 1] == path[k + 1]);
        assert(spec_edge(defs, path[k], path[k + 1]));
    }
    assert(w[0] == start && w.last() == path[i]);
}

/// The depth-first search from type `start`: gray marks the definitions on the current
/// path; reaching a gray definition again closes a cycle, which is reported. Returns
/// whether it reported one, with the finishing times, counted on from `counter0`, of
/// the definitions it finished.
fn search_from(
    model: &SemanticModel,
    interner: &crate::interner::StringInterner,
    sink: &mut crate::diagnostic::DiagnosticSink,
    start: DefId,
    colors: &mut Vec<Color>,
    Ghost(fin0): Ghost<Seq<int>>,
    Ghost(counter0): Ghost<int>,
) -> (res: (bool, Ghost<Seq<int>>, Ghost<int>))
    requires
        model.wf(),
        names_interned(model.defs@, interner@.len()),
        start.index() < model.defs@.len(),
        model.defs@[start.index() as int].kind == DefKind::Type,
        old(colors)@.len() == model.defs@.len(),
        fin0.len() == model.defs@.len(),
        old(colors)@[start.index() as int] == Color::White,
        forall|x: int| 0 <= x < old(colors)@.len() ==> #[trigger] old(colors)@[x] != Color::Gray,
    ensures
        final(colors)@.len() == old(colors)@.len(),
        forall|x: int| 0 <= x < final(colors)@.len() ==> #[trigger] final(colors)@[x] != Color::Gray,
        final(colors)@[start.index() as int] == Color::Black,
        res.1@.len() == fin0.len(),
        forall|x: int|
            0 <= x < old(colors)@.len() && #[trigger] old(colors)@[x] == Color::Black ==> final(colors)@[x] == Color::Black
                && res.1@[x] == fin0[x],
        closed(model.defs@, old(colors)@, fin0) && fin_below(old(colors)@, fin0, counter0) && !res.0 ==> closed(
            model.defs@,
            final(colors)@,
            res.1@,
        ) && fin_below(final(colors)@, res.1@, res.2@),
        final(sink)@.len() >= old(sink)@.len(),
        final(sink)@.subrange(0, old(sink)@.len() as int) == old(sink)@,
        all_cycle_reports(final(sink)@.subrange(old(sink)@.len() as int, final(sink)@.len() as int), model.defs@, interner@),
        res.0 == (final(sink)@.len() > old(sink)@.len()),
{
    let ghost defs = model.defs@;
    let ghost names = interner@;
    let ghost s0 = sink@;
    let ghost w0 = whites(colors@);
    let ghost st0 = start.index() as int;
    let ghost colors0 = colors@;
    let ghost c0 = closed(defs, colors0, fin0) && fin_below(colors0, fin0, counter0);
    let ghost mut fin = fin0;
    let ghost mut counter = counter0;
    let mut found = false;
    let mut stack: Vec<(DefId, bool)> = Vec::new();
    stack.push((start, false));
    let ghost mut path: Seq<int> = Seq::empty();
    proof {
        let st = stack@;
        assert(st.drop_last() =~= Seq::<(DefId, bool)>::empty());
        assert(markers(Seq::<(DefId, bool)>::empty()) == 0);
        assert(markers(st) == 0);
        assert(st.subrange(0, 0) =~= Seq::<(DefId, bool)>::empty());
        assert(entry_ok(defs, st, path, st0, 0));
        assert(sink@.subrange(0, s0.len() as int) =~= s0);
        assert(sink@.subrange(s0.len() as int, sink@.len() as int) =~= Seq::<crate::diagnostic::Diagnostic>::empty());
    }
    loop
        invariant
            model.wf(),
            defs == model.defs@,
            defs[st0].kind == DefKind::Type,
            names == interner@,
            names_interned(defs, names.len()),
            st0 == start.index(),
            colors@.len() == defs.len(),
            colors0.len() == defs.len(),
            fin.len() == defs.len(),
            stack_ok(defs, stack@, path, st0),
            path_ok(defs, path, st0),
            forall|i: int, j: int| 0 <= i < j < path.len() ==> path[i] != path[j],
            forall|x: int| 0 <= x < colors@.len() ==> (#[trigger] colors@[x] == Color::Gray <==> path.contains(x)),
            forall|x: int|
                0 <= x < colors0.len() && #[trigger] colors0[x] == Color::Black ==> colors@[x] == Color::Black && fin[x]
                    == fin0[x],
            colors@[st0] == Color::White ==> stack@ == seq![(start, false)] && path.len() == 0,
            c0 == (closed(defs, colors0, fin0) && fin_below(colors0, fin0, counter0)),
            c0 && !found ==> closed(defs, colors@, fin) && fin_below(colors@, fin, counter) && pending_ok(
                defs,
                stack@,
                path,
                colors@,
            ),
            whites(colors@) <= w0,
            sink@.len() >= s0.len(),
            sink@.subrange(0, s0.len() as int) == s0,
            all_cycle_reports(sink@.subrange(s0.len() as int, sink@.len() as int), defs, names),
            found == (sink@.len() > s0.len()),
        ensures
            path.len() == 0,
            colors@[st0] != Color::White,
        decreases whites(colors@), stack@.len(),
    {
        let ghost st = stack@;
        let top = stack.pop();
        match top {
            None => {
                break;
            },
            Some((node, returning)) => {
                proof {
                    assert(st.last() == (node, returning));
                    lemma_stack_pop(defs, st, path, st0);
                }
                let v: usize = node.raw() as usize;
                if returning {
                    let ghost cs0 = colors@;
                    proof {
                        if c0 && !found {
                            lemma_pending_marker_pop(defs, st, path, cs0, st0);
                        }
                    }
                    colors.set(v, Color::Black);
                    proof {
                        let old_path = path;
                        let last = path.len() - 1;
                        assert(old_path[last] == v);
                        lemma_whites_update(cs0, v as int, Color::Black);
                        if c0 && !found {
                            let fin1 = fin.update(v as int, counter);
                            assert forall|x: int, w: int|
                                0 <= x < colors@.len() && colors@[x] == Color::Black && #[trigger] spec_edge(defs, x, w) implies 0
                                    <= w < colors@.len() && colors@[w] == Color::Black && fin1[w] < fin1[x] by {
                                if x == v {
                                    assert(spec_edge(defs, old_path.last(), w));
                                    assert(cs0[w] == Color::Black);
                                    assert(w != v);
                                    assert(fin[w] < counter);
                                } else {
                                    assert(cs0[x] == Color::Black);
                                    assert(cs0[w] == Color::Black && fin[w] < fin[x]);
                                    assert(w != v);
                                }
                            }
                            assert forall|x: int| 0 <= x < colors@.len() && #[trigger] colors@[x] == Color::Black implies fin1[x] < counter + 1 by {
                                if x != v {
                                    assert(cs0[x] == Color::Black);
                                }
                            }
                            let new_path = old_path.drop_last();
                            assert forall|j: int, w: int|
                                0 <= j < new_path.len() && #[trigger] spec_edge(defs, new_path[j], w) implies {
                                    ||| in_segment(stack@, w, j)
                                    ||| (0 <= w < colors@.len() && colors@[w] == Color::Black)
                                    ||| (j + 1 < new_path.len() && new_path[j + 1] == w)
                                } by {
                                assert(new_path[j] == old_path[j]);
                                assert(spec_edge(defs, old_path[j], w));
                                if j + 1 < old_path.len() && old_path[j + 1] == w {
                                    if j + 1 == last {
                                        assert(w == v);
                                    } else {
                                        assert(new_path[j + 1] == w);
                                    }
                                } else if 0 <= w < cs0.len() && cs0[w] == Color::Black {
                                    assert(colors@[w] == Color::Black);
                                }
                            }
                            fin = fin1;
                            counter = counter + 1;
                        }
                        path = path.drop_last();
                        assert forall|x: int| 0 <= x < colors@.len() implies (#[trigger] colors@[x] == Color::Gray <==> path.contains(x)) by {
                            if x == v {
                                if path.contains(x) {
                                    let j = choose|j: int| 0 <= j < path.len() && path[j] == x;
                                    assert(old_path[j] == old_path[last]);
                                }
                            } else {
                                assert(colors@[x] == cs0[x]);
                                if old_path.contains(x) {
                                    let j = choose|j: int| 0 <= j < old_path.len() && old_path[j] == x;
                                    assert(j != last);
                                    assert(path[j] == x);
                                }
                                if path.contains(x) {
                                    let j = choose|j: int| 0 <= j < path.len() && path[j] == x;
                                    assert(old_path[j] == x);
                                }
                            }
                        }
                        assert forall|x: int|
                            0 <= x < colors0.len() && #[trigger] colors0[x] == Color::Black implies colors@[x] == Color::Black && fin[x]
                                == fin0[x] by {
                            assert(cs0[x] == Color::Black);
                            assert(x != v);
                        }
                    }
                } else {
                    let c = colors[v];
                    proof {
                        if c0 && !found {
                            lemma_pending_child_pop(defs, st, path, colors@);
                        }
                    }
                    if c == Color::Black {
                    } else if c == Color::Gray {
                        let ghost s1 = sink@;
                        let d = cycle_error(model, interner, node);
                        sink.emit(d);
                        found = true;
                        proof {
                            assert(path.contains(v as int));
                            let i = choose|i: int| 0 <= i < path.len() && path[i] == v as int;
                            lemma_cycle_from_path(defs, path, st0, i);
                            lemma_path_reaches(defs, path, st0, i);
                            assert(cycle_reported(d, defs, names));
                            let added0 = s1.subrange(s0.len() as int, s1.len() as int);
                            let added1 = sink@.subrange(s0.len() as int, sink@.len() as int);
                            assert(added1 =~= added0.push(d));
                            assert(sink@.subrange(0, s0.len() as int) =~= s1.subrange(0, s0.len() as int));
                            assert forall|k: int| 0 <= k < added1.len() implies cycle_reported(#[trigger] added1[k], defs, names) by {
                                if k < added0.len() {
                                    assert(added1[k] == added0[k]);
                                }
                            }
                        }
                    } else {
                        let ghost cs0 = colors@;
                        colors.set(v, Color::Gray);
                        let ghost rest = stack@;
                        stack.push((node, true));
                        let ghost old_path = path;
                        proof {
                            lemma_whites_update(cs0, v as int, Color::Gray);
                            assert(!path.contains(v as int));
                            lemma_stack_push_marker(defs, rest, path, st0, node);
                            path = path.push(v as int);
                            assert forall|k: int| 0 <= k < path.len() - 1 implies #[trigger] spec_edge(defs, path[k], path[k + 1]) by {
                                if k < old_path.len() - 1 {
                                    assert(path[k] == old_path[k] && path[k + 1] == old_path[k + 1]);
                                    assert(spec_edge(defs, old_path[k], old_path[k + 1]));
                                } else {
                                    assert(path[k] == old_path.last());
                                }
                            }
                            assert(path_ok(defs, path, st0));
                            assert forall|i: int, j: int| 0 <= i < j < path.len() implies path[i] != path[j] by {
                                if j == path.len() - 1 {
                                    if path[i] == path[j] {
                                        assert(old_path[i] == v as int);
                                        assert(old_path.contains(v as int));
                                    }
                                } else {
                                    assert(path[i] == old_path[i] && path[j] == old_path[j]);
                                }
                            }
                            assert forall|x: int| 0 <= x < colors@.len() implies (#[trigger] colors@[x] == Color::Gray <==> path.contains(x)) by {
                                if x == v {
                                    assert(path[path.len() - 1] == v);
                                } else {
                                    assert(colors@[x] == cs0[x]);
                                    if old_path.contains(x) {
                                        let j = choose|j: int| 0 <= j < old_path.len() && old_path[j] == x;
                                        assert(path[j] == x);
                                    }
                                    if path.contains(x) {
                                        let j = choose|j: int| 0 <= j < path.len() && path[j] == x;
                                        assert(j < old_path.len());
                                        assert(old_path[j] == x);
                                    }
                                }
                            }
                            assert forall|x: int|
                                0 <= x < colors0.len() && #[trigger] colors0[x] == Color::Black implies colors@[x] == Color::Black && fin[x]
                                    == fin0[x] by {
                                assert(cs0[x] == Color::Black);
                            }
                            if c0 && !found {
                                assert forall|x: int, w: int|
                                    0 <= x < colors@.len() && colors@[x] == Color::Black && #[trigger] spec_edge(defs, x, w) implies 0
                                        <= w < colors@.len() && colors@[w] == Color::Black && fin[w] < fin[x] by {
                                    assert(cs0[x] == Color::Black);
                                }
                                assert forall|x: int| 0 <= x < colors@.len() && #[trigger] colors@[x] == Color::Black implies fin[x] < counter by {
                                    assert(cs0[x] == Color::Black);
                                }
                                assert forall|j: int, w: int|
                                    0 <= j < old_path.len() && #[trigger] spec_edge(defs, old_path[j], w) implies {
                                        ||| in_segment(stack@, w, j)
                                        ||| (0 <= w < colors@.len() && colors@[w] == Color::Black)
                                        ||| (j + 1 < path.len() && path[j + 1] == w)
                                    } by {
                                    if in_segment(rest, w, j) {
                                        lemma_segment_push(rest, (node, true), w, j);
                                    } else if 0 <= w < cs0.len() && cs0[w] == Color::Black {
                                        assert(colors@[w] == Color::Black);
                                    } else if j + 1 < old_path.len() && old_path[j + 1] == w {
                                        assert(path[j + 1] == w);
                                    } else {
                                        assert(w == v);
                                        assert(path[j + 1] == w);
                                    }
                                }
                            }
                        }
                        let specs = &model.defs[node].specializations;
                        let ghost m = old_path.len() as int;
                        let mut k: usize = 0;
                        proof {
                            assert(markers(stack@) == m + 1);
                        }
                        while k < specs.len()
                            invariant
                                model.wf(),
                                defs == model.defs@,
                                *specs == defs[node.index() as int].specializations,
                                node.index() < defs.len(),
                                v == node.index(),
                                m >= 0,
                                path.len() == m + 1,
                                path.last() == node.index(),
                                stack_ok(defs, stack@, path, st0),
                                path_ok(defs, path, st0),
                                markers(stack@) == m + 1,
                                k <= specs@.len(),
                                c0 && !found ==> forall|j: int, w: int|
                                    0 <= j < m && #[trigger] spec_edge(defs, path[j], w) ==> {
                                        ||| in_segment(stack@, w, j)
                                        ||| (0 <= w < colors@.len() && colors@[w] == Color::Black)
                                        ||| (j + 1 < path.len() && path[j + 1] == w)
                                    },
                                c0 && !found ==> forall|w: int| #[trigger] edge_upto(defs, v as int, w, k as int) ==> in_segment(stack@, w, m),
                            decreases specs@.len() - k,
                        {
                            proof {
                                assert(def_ok(defs[node.index() as int], node.index() as int, defs.len()));
                                assert(ref_ok(specs@[k as int], defs.len()));
                            }
                            let ghost before = stack@;
                            match specs[k].resolved_def() {
                                Some(t) => {
                                    proof {
                                        assert(targets(specs@[k as int], t.index() as int));
                                        assert(spec_edge(defs, node.index() as int, t.index() as int));
                                        lemma_stack_push_child(defs, stack@, path, st0, t);
                                    }
                                    stack.push((t, false));
                                    proof {
                                        lemma_markers_push(before, (t, false));
                                        if c0 && !found {
                                            lemma_segment_new(before, t, m);
                                            assert forall|j: int, w: int|
                                                0 <= j < m && #[trigger] spec_edge(defs, path[j], w) implies {
                                                    ||| in_segment(stack@, w, j)
                                                    ||| (0 <= w < colors@.len() && colors@[w] == Color::Black)
                                                    ||| (j + 1 < path.len() && path[j + 1] == w)
                                                } by {
                                                if in_segment(before, w, j) {
                                                    lemma_segment_push(before, (t, false), w, j);
                                                }
                                            }
                                            assert forall|w: int| #[trigger] edge_upto(defs, v as int, w, k + 1) implies in_segment(stack@, w, m) by {
                                                let q = choose|q: int| 0 <= q < k + 1 && targets(#[trigger] defs[v as int].specializations@[q], w);
                                                if q < k {
                                                    assert(edge_upto(defs, v as int, w, k as int));
                                                    lemma_segment_push(before, (t, false), w, m);
                                                } else {
                                                    assert(w == t.index());
                                                }
                                            }
                                        }
                                    }
                                },
                                None => {
                                    proof {
                                        if c0 && !found {
                                            assert forall|w: int| #[trigger] edge_upto(defs, v as int, w, k + 1) implies in_segment(stack@, w, m) by {
                                                let q = choose|q: int| 0 <= q < k + 1 && targets(#[trigger] defs[v as int].specializations@[q], w);
                                                if q < k {
                                                    assert(edge_upto(defs, v as int, w, k as int));
                                                }
                                            }
                                        }
                                    }
                                },
                            }
                            k = k + 1;
                        }
                        proof {
                            if c0 && !found {
                                assert forall|j: int, w: int|
                                    0 <= j < path.len() && #[trigger] spec_edge(defs, path[j], w) implies {
                                        ||| in_segment(stack@, w, j)
                                        ||| (0 <= w < colors@.len() && colors@[w] == Color::Black)
                                        ||| (j + 1 < path.len() && path[j + 1] == w)
                                    } by {
                                    if j == m {
                                        assert(path[j] == v);
                                        let q = choose|q: int|
                                            0 <= q < defs[v as int].specializations@.len() && targets(
                                                #[trigger] defs[v as int].specializations@[q],
                                                w,
                                            );
                                        assert(edge_upto(defs, v as int, w, k as int));
                                    }
                                }
                            }
                        }
                    }
                }
            },
        }
    }
    (found, Ghost(fin), Ghost(counter))
}

/// Detect cycles in the specialization graph among resolved types: a depth-first
/// search from every type not yet visited, following resolved specializations, reports
/// each definition it finds again on its own path. A cycle is found exactly when some
/// definition reachable from a type lies on a specialization cycle, and every reported
/// definition is such a one. Returns `true` if any cycle was found.
pub fn detect_specialization_cycles(
    model: &SemanticModel,
    interner: &crate::interner::StringInterner,
    sink: &mut crate::diagnostic::DiagnosticSink,
) -> (found: bool)
    requires
        model.wf(),
        names_interned(model.defs@, interner@.len()),
    ensures
        final(sink)@.len() >= old(sink)@.len(),
        final(sink)@.subrange(0, old(sink)@.len() as int) == old(sink)@,
        all_cycle_reports(final(sink)@.subrange(old(sink)@.len() as int, final(sink)@.len() as int), model.defs@, interner@),
        found == (final(sink)@.len() > old(sink)@.len()),
        found == cycle_from_type(model.defs@),
{
    let ghost s0 = sink@;
    let ghost defs = model.defs@;
    let n = model.defs.len();
    let mut colors: Vec<Color> = Vec::new();
    let mut i: usize = 0;
    while i < n
        invariant
            i <= n,
            colors@.len() == i,
            forall|x: int| 0 <= x < colors@.len() ==> #[trigger] colors@[x] == Color::White,
        decreases n - i,
    {
        colors.push(Color::White);
        i = i + 1;
    }
    let ghost mut fin: Seq<int> = Seq::new(n as nat, |x: int| 0int);
    let ghost mut counter: int = 0;
    let mut found = false;
    proof {
        assert(sink@.subrange(0, s0.len() as int) =~= s0);
        assert(sink@.subrange(s0.len() as int, sink@.len() as int) =~= Seq::<crate::diagnostic::Diagnostic>::empty());
    }
    let mut k: usize = 0;
    while k < n
        invariant
            model.wf(),
            defs == model.defs@,
            n == defs.len(),
            names_interned(defs, interner@.len()),
            k <= n,
            colors@.len() == n,
            fin.len() == n,
            forall|x: int| 0 <= x < colors@.len() ==> #[trigger] colors@[x] != Color::Gray,
            forall|t: int| 0 <= t < k && defs[t].kind == DefKind::Type ==> #[trigger] colors@[t] == Color::Black,
            !found ==> closed(defs, colors@, fin) && fin_below(colors@, fin, counter),
            sink@.len() >= s0.len(),
            sink@.subrange(0, s0.len() as int) == s0,
            all_cycle_reports(sink@.subrange(s0.len() as int, sink@.len() as int), defs, interner@),
            found == (sink@.len() > s0.len()),
        decreases n - k,
    {
        let id = DefId::from_raw(k as u32);
        if model.defs[id].kind == DefKind::Type && colors[k] == Color::White {
            let ghost s1 = sink@;
            let ghost cs = colors@;
            let (f, Ghost(fin1), Ghost(counter1)) = search_from(model, interner, sink, id, &mut colors, Ghost(fin), Ghost(counter));
            proof {
                let a0 = s1.subrange(s0.len() as int, s1.len() as int);
                let a1 = sink@.subrange(s1.len() as int, sink@.len() as int);
                let all = sink@.subrange(s0.len() as int, sink@.len() as int);
                assert(all =~= a0 + a1);
                assert(sink@.subrange(0, s0.len() as int) =~= s1.subrange(0, s0.len() as int));
                assert forall|j: int| 0 <= j < all.len() implies cycle_reported(#[trigger] all[j], defs, interner@) by {
                    if j < a0.len() {
                        assert(all[j] == a0[j]);
                    } else {
                        assert(all[j] == a1[j - a0.len()]);
                    }
                }
                assert forall|t: int| 0 <= t < k + 1 && defs[t].kind == DefKind::Type implies #[trigger] colors@[t] == Color::Black by {
                    if t < k {
                        assert(cs[t] == Color::Black);
                    }
                }
                fin = fin1;
                counter = counter1;
            }
            if f {
                found = true;
            }
        } else {
            proof {
                assert forall|t: int| 0 <= t < k + 1 && defs[t].kind == DefKind::Type implies #[trigger] colors@[t] == Color::Black by {
                    if t == k {
                        assert(colors@[t] != Color::Gray);
                    }
                }
            }
        }
        k = k + 1;
    }
    proof {
        if !found {
            lemma_closed_no_cycle(defs, colors@, fin);
        } else {
            let all = sink@.subrange(s0.len() as int, sink@.len() as int);
            assert(all.len() > 0);
            assert(cycle_reported(all[0], defs, interner@));
            let v = choose|v: int|
                0 <= v < defs.len() && on_cycle(defs, v) && reports_cycle(all[0], defs, v, interner@) && exists|t: int|
                    0 <= t < defs.len() && defs[t].kind == DefKind::Type && #[trigger] reaches(defs, t, v);
            let t = choose|t: int| 0 <= t < defs.len() && defs[t].kind == DefKind::Type && #[trigger] reaches(defs, t, v);
            assert(reaches(defs, t, v) && on_cycle(defs, v));
        }
    }
    found
}

/// A resolved reference with a name points at a definition called by its last segment.
pub open spec fn faithful(defs: Seq<Def>, r: NameRef) -> bool {
    r.segments@.len() > 0 ==> (r.resolution matches ResolutionState::Resolved(t) ==> defs[t.index() as int].name
        == r.segments@.last())
}

/// Every reference of the model is faithful to its name.
pub open spec fn model_faithful(defs: Seq<Def>) -> bool {
    forall|i: int, s: RefSlot|
        0 <= i < defs.len() && (#[trigger] slot_ref(defs[i], s)) is Some ==> faithful(defs, slot_ref(defs[i], s)->0)
}

proof fn lemma_imports_faithful(defs: Seq<Def>, q: int)
    requires
        model_faithful(defs),
        0 <= q < defs.len(),
    ensures
        forall|k: int|
            0 <= k < defs[q].imports@.len() && (#[trigger] defs[q].imports@[k]).path.segments@.len() > 0 ==> (
            defs[q].imports@[k].path.resolution matches ResolutionState::Resolved(t) ==> defs[t.index() as int].name
                == defs[q].imports@[k].path.segments@.last()),
{
    assert forall|k: int|
        0 <= k < defs[q].imports@.len() && (#[trigger] defs[q].imports@[k]).path.segments@.len() > 0 implies (
        defs[q].imports@[k].path.resolution matches ResolutionState::Resolved(t) ==> defs[t.index() as int].name
            == defs[q].imports@[k].path.segments@.last()) by {
        assert(defs[q].imports@.len() == defs[q].imports.len());
        assert((k as usize) as int == k);
        assert(slot_ref(defs[q], RefSlot::Import(k as usize)) == Some(defs[q].imports@[k].path));
    }
}

proof fn lemma_imports_up_named(defs: Seq<Def>, q: int, segs: Seq<SymbolId>)
    requires
        model_faithful(defs),
    ensures
        imports_up(defs, q, segs) matches Some(t) ==> defs[t.index() as int].name == segs.last(),
    decreases q,
{
    if 0 <= q < defs.len() && segs.len() > 0 {
        lemma_imports_faithful(defs, q);
        crate::scope::lemma_via_imports_named(defs, defs[q].imports@, segs[0]);
        match via_imports(defs, defs[q].imports@, segs[0]) {
            Some(f) => {
                if segs.len() > 1 {
                    crate::scope::lemma_children_path_named(defs, f, segs.drop_first());
                    assert(segs.drop_first().last() == segs.last());
                } else {
                    assert(children_path(defs, f, segs.drop_first()) == Some(f));
                    assert(segs[0] == segs.last());
                }
            },
            None => {},
        }
        match defs[q].parent {
            Some(p) => {
                if p.index() < q {
                    lemma_imports_up_named(defs, p.index() as int, segs);
                }
            },
            None => {},
        }
    }
}

/// In a faithful model, what a name resolves to is called by its last segment.
pub proof fn lemma_try_resolve_named(defs: Seq<Def>, roots: Seq<DefId>, scope: int, segs: Seq<SymbolId>)
    requires
        model_faithful(defs),
    ensures
        try_resolve(defs, roots, scope, segs) matches Some(t) ==> defs[t.index() as int].name == segs.last(),
{
    crate::scope::lemma_qualified_named(defs, roots, scope, segs);
    lemma_imports_up_named(defs, scope, segs);
}

pub(crate) proof fn lemma_slot_ref_ok(d: Def, s: RefSlot, i: int, n: nat)
    requires
        def_ok(d, i, n),
        slot_ref(d, s) is Some,
    ensures
        ref_ok(slot_ref(d, s)->0, n),
{
    match s {
        RefSlot::Import(k) => {
            assert(ref_ok(d.imports@[k as int].path, n));
        },
        RefSlot::Specialization(k) => {
            assert(ref_ok(d.specializations@[k as int], n));
        },
        RefSlot::ChainSegment(k) => {
            assert(ref_ok(d.chain_segments@[k as int], n));
        },
        _ => {},
    }
}

proof fn lemma_slot_set_other(a: Def, b: Def, s: RefSlot, res: ResolutionState, s2: RefSlot)
    requires
        slot_ref(a, s) is Some,
        slot_set(a, b, s, res),
        s2 != s,
    ensures
        slot_ref(b, s2) == slot_ref(a, s2),
{
    lemma_slot_set_same_slots(a, b, s, res);
}

/// Resolution is faithful to names: in a well-formed, faithful model, a visit of a slot
/// resolves a reference only to a definition called by the reference's last segment,
/// so the model stays faithful.
pub proof fn lemma_resolution_faithful(a: Seq<Def>, b: Seq<Def>, roots: Seq<DefId>, i: int, s: RefSlot)
    requires
        forall|m: int| 0 <= m < a.len() ==> def_ok(#[trigger] a[m], m, a.len()),
        forall|m: int| 0 <= m < b.len() ==> def_ok(#[trigger] b[m], m, b.len()),
        model_faithful(a),
        0 <= i < a.len(),
        ref_step(a, b, roots, i, s),
    ensures
        model_faithful(b),
{
    match resolved_at(a, roots, i, s) {
        None => {},
        Some(t) => {
            let n = a.len();
            let r = slot_ref(a[i], s)->0;
            lemma_try_resolve_named(a, roots, i, r.segments@);
            lemma_slot_set_same_slots(a[i], b[i], s, ResolutionState::Resolved(t));
            assert forall|m: int, s2: RefSlot|
                0 <= m < b.len() && (#[trigger] slot_ref(b[m], s2)) is Some implies faithful(b, slot_ref(b[m], s2)->0) by {
                let r2 = slot_ref(b[m], s2)->0;
                lemma_slot_ref_ok(b[m], s2, m, n);
                if m != i || s2 != s {
                    if m != i {
                        assert(b[m] == a[m]);
                    } else {
                        lemma_slot_set_other(a[i], b[i], s, ResolutionState::Resolved(t), s2);
                    }
                    assert(slot_ref(a[m], s2) == Some(r2));
                    assert(faithful(a, r2));
                    match r2.resolution {
                        ResolutionState::Resolved(u) => {
                            if u.index() != i {
                                assert(b[u.index() as int] == a[u.index() as int]);
                            }
                        },
                        _ => {},
                    }
                } else {
                    assert(r2 == with_res(r, ResolutionState::Resolved(t)));
                    if t.index() != i {
                        assert(b[t.index() as int] == a[t.index() as int]);
                    }
                }
            }
        },
    }
}

} // verus!
