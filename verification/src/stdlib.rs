//! The minimal Kernel Semantic Library: the base types that every model starts from.
use vstd::prelude::*;
use crate::hir::{def_ok, lemma_def_ok_mono, Def, DefId, DefKind, NameRef, ResolutionState, SemanticModel};
use crate::resolve::{
    def_interned, faithful, lemma_slot_ref_ok, model_faithful, names_interned, ref_interned, reports_interned, slot_ref,
    RefSlot,
};
use crate::interner::{StringInterner, SymbolId, lemma_intern_laws};
use crate::span::{Span, dummy_file};

verus! {

/// Holds DefIds for the standard library types for easy reference.
#[derive(Clone, Debug)]
pub struct StdlibDefs {
    pub anything: DefId,
    pub object: DefId,
    pub data_value: DefId,
    pub occurrence: DefId,
    pub performance: DefId,
    pub link: DefId,
}

pub open spec fn dummy_span() -> Span {
    Span { file: dummy_file(), start: 0, end: 0 }
}

/// `d` is a library type named `name`: already type-checked, with no source text, and
/// specializing exactly what `spec` says (a resolved reference to `Anything` for every
/// type but `Anything` itself).
pub open spec fn is_library_type(d: Def, name: SymbolId, spec: Option<(SymbolId, DefId)>) -> bool {
    &&& d.name == name
    &&& d.kind == DefKind::Type
    &&& d.span == dummy_span()
    &&& d.parent is None
    &&& d.children@.len() == 0
    &&& d.conjugation is None
    &&& d.conjugation_decl is None
    &&& d.type_ref is None
    &&& d.chain_segments@.len() == 0
    &&& d.multiplicity is None
    &&& d.direction is None
    &&& d.imports@.len() == 0
    &&& d.inherited_features@.len() == 0
    &&& d.type_checked
    &&& match spec {
        None => d.specializations@.len() == 0,
        Some((sym, target)) => {
            &&& d.specializations@.len() == 1
            &&& d.specializations@[0].segments@ == seq![sym]
            &&& d.specializations@[0].span == dummy_span()
            &&& d.specializations@[0].resolution == ResolutionState::Resolved(target)
        },
    }
}

impl StdlibDefs {
    pub open spec fn ids(&self) -> Seq<DefId> {
        seq![self.anything, self.object, self.data_value, self.occurrence, self.performance, self.link]
    }
}

/// The names of the library types, in the order they are created.
pub open spec fn library_names() -> Seq<Seq<char>> {
    seq!["Anything"@, "Object"@, "DataValue"@, "Occurrence"@, "Performance"@, "Link"@]
}

/// A name made of the first `n` interned strings is made of the first `m`, for `m` no
/// smaller.
proof fn lemma_def_interned_mono(d: Def, n: nat, m: nat)
    requires
        def_interned(d, n),
        n <= m,
    ensures
        def_interned(d, m),
{
    assert forall|k: int| 0 <= k < d.specializations@.len() implies ref_interned(#[trigger] d.specializations@[k], m) by {
        assert(ref_interned(d.specializations@[k], n));
    }
    assert forall|k: int| 0 <= k < d.chain_segments@.len() implies ref_interned(#[trigger] d.chain_segments@[k], m) by {
        assert(ref_interned(d.chain_segments@[k], n));
    }
}

/// Creates library type `name`, specializing `base` when given; `base` must be a type
/// named `Anything`.
fn library_type(
    model: &mut SemanticModel,
    interner: &mut StringInterner,
    name: &str,
    base: Option<DefId>,
) -> (id: DefId)
    requires
        old(interner).wf(),
        old(interner)@.len() + 2 < u32::MAX,
        old(model).defs@.len() < u32::MAX,
        base matches Some(b) ==> {
            &&& b.index() < old(model).defs@.len()
            &&& old(model).defs@[b.index() as int].name.0 < old(interner)@.len()
            &&& old(interner).text(old(model).defs@[b.index() as int].name) == "Anything"@
        },
    ensures
        final(interner).wf(),
        old(interner)@.len() <= final(interner)@.len() <= old(interner)@.len() + 1,
        forall|i: int| 0 <= i < old(interner)@.len() ==> #[trigger] final(interner)@[i] == old(interner)@[i],
        id.index() == old(model).defs@.len(),
        final(model).defs@ == old(model).defs@.push(final(model).defs@[id.index() as int]),
        final(model).type_infos == old(model).type_infos,
        final(model).roots == old(model).roots,
        old(model).wf() ==> final(model).wf(),
        old(model).wf() && model_faithful(old(model).defs@) ==> model_faithful(final(model).defs@),
        names_interned(old(model).defs@, old(interner)@.len()) ==> names_interned(final(model).defs@, final(interner)@.len()),
        reports_interned(old(model).defs@, old(interner)@.len()) ==> reports_interned(final(model).defs@, final(interner)@.len()),
        ({
            let d = final(model).defs@[id.index() as int];
            &&& d.name.0 < final(interner)@.len()
            &&& final(interner).text(d.name) == name@
            &&& is_library_type(
                d,
                d.name,
                match base {
                    None => None,
                    Some(b) => Some((old(model).defs@[b.index() as int].name, b)),
                },
            )
        }),
{
    let sym = interner.intern(name);
    let mut def = Def::new(sym, DefKind::Type, Span::dummy());
    match base {
        Some(b) => {
            let ghost before = interner@;
            let ghost base_name = model.defs@[b.index() as int].name;
            proof {
                assert(before[base_name.0 as int] == old(interner)@[base_name.0 as int]);
                assert(before.contains("Anything"@));
            }
            let anything = interner.intern("Anything");
            proof {
                assert(interner@ == before);
                lemma_intern_laws(interner, anything, base_name);
            }
            let mut segments: Vec<SymbolId> = Vec::new();
            segments.push(anything);
            def.specializations.push(
                NameRef {
                    segments,
                    span: Span::dummy(),
                    resolution: ResolutionState::Resolved(b),
                },
            );
        },
        None => {},
    }
    def.type_checked = true;
    let ghost m0 = model.defs@;
    let id = model.alloc_def(def);
    proof {
        let n1 = model.defs@.len();
        let il = interner@.len();
        assert(model.defs@[id.index() as int] == def);
        if old(model).wf() {
            assert forall|i: int| 0 <= i < n1 implies def_ok(#[trigger] model.defs@[i], i, n1) by {
                if i < n1 - 1 {
                    assert(model.defs@[i] == m0[i]);
                    lemma_def_ok_mono(m0[i], i, (n1 - 1) as nat, n1);
                } else {
                    assert(crate::hir::refs_ok(def.specializations@, n1));
                }
            }
            assert forall|k: int| 0 <= k < model.roots@.len() implies (#[trigger] model.roots@[k]).index() < n1 by {
                assert(model.roots@[k] == old(model).roots@[k]);
            }
        }
        if old(model).wf() && model_faithful(old(model).defs@) {
            let d1 = model.defs@;
            assert forall|i: int, s: RefSlot|
                0 <= i < n1 && (#[trigger] slot_ref(d1[i], s)) is Some implies faithful(d1, slot_ref(d1[i], s)->0) by {
                if i < n1 - 1 {
                    assert(d1[i] == m0[i]);
                    lemma_slot_ref_ok(m0[i], s, i, (n1 - 1) as nat);
                    match slot_ref(m0[i], s)->0.resolution {
                        ResolutionState::Resolved(t) => {
                            assert(d1[t.index() as int] == m0[t.index() as int]);
                        },
                        _ => {},
                    }
                } else {
                    match s {
                        RefSlot::Specialization(k) => {
                            match base {
                                Some(b) => {
                                    assert(d1[b.index() as int] == m0[b.index() as int]);
                                },
                                None => {},
                            }
                        },
                        _ => {},
                    }
                }
            }
        }
        if names_interned(old(model).defs@, old(interner)@.len()) {
            assert forall|i: int| 0 <= i < n1 implies ((#[trigger] model.defs@[i]).name.0 as int) < il by {
                if i < n1 - 1 {
                    assert(model.defs@[i] == m0[i]);
                }
            }
        }
        if reports_interned(old(model).defs@, old(interner)@.len()) {
            assert forall|i: int| 0 <= i < n1 implies def_interned(#[trigger] model.defs@[i], il) by {
                if i < n1 - 1 {
                    assert(model.defs@[i] == m0[i]);
                    lemma_def_interned_mono(m0[i], old(interner)@.len(), il);
                } else {
                    assert forall|k: int| 0 <= k < def.specializations@.len() implies ref_interned(#[trigger] def.specializations@[k], il) by {
                        assert forall|j: int| 0 <= j < def.specializations@[k].segments@.len() implies ((#[trigger] def.specializations@[k].segments@[j]).0 as int) < il by {}
                    }
                }
            }
        }
        assert forall|i: int| 0 <= i < old(interner)@.len() implies #[trigger] interner@[i] == old(interner)@[i] by {
            if !old(interner)@.contains(name@) {
                assert(interner@ == old(interner)@.push(name@));
            }
        }
    }
    id
}

/// Loads the minimal Kernel Semantic Library base types into the model: `Anything`, the
/// root of all types, and `Object`, `DataValue`, `Occurrence`, `Performance` and `Link`,
/// each specializing `Anything`. They are added as roots, in that order, and are marked
/// type-checked.
pub fn load_stdlib(model: &mut SemanticModel, interner: &mut StringInterner) -> (r: StdlibDefs)
    requires
        old(interner).wf(),
        old(interner)@.len() + 8 < u32::MAX,
        old(model).defs@.len() + 6 < u32::MAX,
    ensures
        final(interner).wf(),
        final(interner)@.len() >= old(interner)@.len(),
        final(interner)@.subrange(0, old(interner)@.len() as int) == old(interner)@,
        final(model).defs@.len() == old(model).defs@.len() + 6,
        final(model).defs@.subrange(0, old(model).defs@.len() as int) == old(model).defs@,
        final(model).type_infos == old(model).type_infos,
        final(model).roots@ == old(model).roots@ + r.ids(),
        old(model).wf() ==> final(model).wf(),
        old(model).wf() && model_faithful(old(model).defs@) ==> model_faithful(final(model).defs@),
        names_interned(old(model).defs@, old(interner)@.len()) ==> names_interned(final(model).defs@, final(interner)@.len()),
        reports_interned(old(model).defs@, old(interner)@.len()) ==> reports_interned(final(model).defs@, final(interner)@.len()),
        forall|k: int|
            #![trigger r.ids()[k]]
            0 <= k < 6 ==> {
                let d = final(model).defs@[r.ids()[k].index() as int];
                &&& r.ids()[k].index() == old(model).defs@.len() + k
                &&& d.name.0 < final(interner)@.len()
                &&& final(interner).text(d.name) == library_names()[k]
                &&& is_library_type(
                    d,
                    d.name,
                    if k == 0 {
                        None
                    } else {
                        Some((final(model).defs@[r.anything.index() as int].name, r.anything))
                    },
                )
            },
{
    let ghost d0 = model.defs@;
    let anything = library_type(model, interner, "Anything", None);
    let ghost d1 = model.defs@;
    let object = library_type(model, interner, "Object", Some(anything));
    let ghost d2 = model.defs@;
    let data_value = library_type(model, interner, "DataValue", Some(anything));
    let ghost d3 = model.defs@;
    let occurrence = library_type(model, interner, "Occurrence", Some(anything));
    let ghost d4 = model.defs@;
    let performance = library_type(model, interner, "Performance", Some(anything));
    let ghost d5 = model.defs@;
    let link = library_type(model, interner, "Link", Some(anything));
    let ghost w6 = model.wf();
    model.roots.push(anything);
    model.roots.push(object);
    model.roots.push(data_value);
    model.roots.push(occurrence);
    model.roots.push(performance);
    model.roots.push(link);
    let r = StdlibDefs { anything, object, data_value, occurrence, performance, link };
    proof {
        assert(model.roots@ =~= old(model).roots@ + r.ids());
        if w6 {
            let n = model.defs@.len();
            assert forall|k: int| 0 <= k < model.roots@.len() implies (#[trigger] model.roots@[k]).index() < n by {
                if k < old(model).roots@.len() {
                    assert(model.roots@[k] == old(model).roots@[k]);
                } else {
                    assert(model.roots@[k] == r.ids()[k - old(model).roots@.len()]);
                }
            }
        }
        assert(model.defs@.subrange(0, d0.len() as int) =~= d0);
        assert(interner@.subrange(0, old(interner)@.len() as int) =~= old(interner)@);
    }
    r
}

/// Adds an implicit `specializes Anything` to every type that has no explicit
/// specialization, except the library types themselves. Packages, features and
/// conjugation declarations are left alone, as is everything else of each definition.
pub fn add_implicit_specializations(model: &mut SemanticModel, stdlib: &StdlibDefs)
    requires
        old(model).defs@.len() <= u32::MAX,
    ensures
        final(model).defs@.len() == old(model).defs@.len(),
        final(model).type_infos == old(model).type_infos,
        final(model).roots == old(model).roots,
        final(model).def_to_type == old(model).def_to_type,
        old(model).wf() && stdlib.anything.index() < old(model).defs@.len() ==> final(model).wf(),
        old(model).wf() && model_faithful(old(model).defs@) ==> model_faithful(final(model).defs@),
        forall|n: nat| #[trigger] names_interned(old(model).defs@, n) ==> names_interned(final(model).defs@, n),
        forall|n: nat| #[trigger] reports_interned(old(model).defs@, n) ==> reports_interned(final(model).defs@, n),
        forall|i: int|
            0 <= i < old(model).defs@.len() ==> {
                let d = old(model).defs@[i];
                let e = #[trigger] final(model).defs@[i];
                if gets_implicit_specialization(d, i, stdlib) {
                    &&& e.specializations@.len() == 1
                    &&& e.specializations@[0].segments@.len() == 0
                    &&& e.specializations@[0].span == dummy_span()
                    &&& e.specializations@[0].resolution == ResolutionState::Resolved(stdlib.anything)
                    &&& same_but_specializations(d, e)
                } else {
                    e == d
                }
            },
{
    let n = model.defs.len();
    let mut i: usize = 0;
    while i < n
        invariant
            n == old(model).defs@.len(),
            n <= u32::MAX,
            i <= n,
            model.defs@.len() == n,
            model.type_infos == old(model).type_infos,
            model.roots == old(model).roots,
            model.def_to_type == old(model).def_to_type,
            forall|j: int|
                0 <= j < n ==> {
                    let d = old(model).defs@[j];
                    let e = #[trigger] model.defs@[j];
                    if j < i && gets_implicit_specialization(d, j, stdlib) {
                        &&& e.specializations@.len() == 1
                        &&& e.specializations@[0].segments@.len() == 0
                        &&& e.specializations@[0].span == dummy_span()
                        &&& e.specializations@[0].resolution == ResolutionState::Resolved(stdlib.anything)
                        &&& same_but_specializations(d, e)
                    } else {
                        e == d
                    }
                },
        decreases n - i,
    {
        let id: DefId = crate::arena::Idx::from_raw(i as u32);
        let is_library = id == stdlib.anything || id == stdlib.object || id == stdlib.data_value
            || id == stdlib.occurrence || id == stdlib.performance || id == stdlib.link;
        assert(id.index() == i);
        if !is_library && model.defs[id].kind == DefKind::Type && model.defs[id].specializations.len() == 0 {
            let ghost before = model.defs@;
            let d = model.defs.get_mut(id);
            d.specializations.push(
                NameRef {
                    segments: Vec::new(),
                    span: Span::dummy(),
                    resolution: ResolutionState::Resolved(stdlib.anything),
                },
            );
            proof {
                assert(model.defs@[i as int].specializations@.len() == 1);
                assert(same_but_specializations(before[i as int], model.defs@[i as int]));
                assert forall|j: int| 0 <= j < n && j != i implies #[trigger] model.defs@[j] == before[j] by {}
            }
        }
        i = i + 1;
    }
    proof {
        let n0 = old(model).defs@.len();
        if old(model).wf() && stdlib.anything.index() < n0 {
            assert forall|j: int| 0 <= j < n0 implies def_ok(#[trigger] model.defs@[j], j, n0) by {
                assert(def_ok(old(model).defs@[j], j, n0));
                let e = model.defs@[j];
                if gets_implicit_specialization(old(model).defs@[j], j, stdlib) {
                    assert(crate::hir::ref_ok(e.specializations@[0], n0));
                    assert(crate::hir::refs_ok(e.specializations@, n0));
                }
            }
        }
        if old(model).wf() && model_faithful(old(model).defs@) {
            let d0 = old(model).defs@;
            let d1 = model.defs@;
            assert forall|j: int, s: RefSlot|
                0 <= j < n0 && (#[trigger] slot_ref(d1[j], s)) is Some implies faithful(d1, slot_ref(d1[j], s)->0) by {
                let changed = gets_implicit_specialization(d0[j], j, stdlib);
                if !(changed && s is Specialization) {
                    assert(slot_ref(d1[j], s) == slot_ref(d0[j], s));
                    lemma_slot_ref_ok(d0[j], s, j, n0);
                    match slot_ref(d0[j], s)->0.resolution {
                        ResolutionState::Resolved(t) => {
                            assert(d1[t.index() as int].name == d0[t.index() as int].name);
                        },
                        _ => {},
                    }
                }
            }
        }
        assert forall|n: nat| #[trigger] names_interned(old(model).defs@, n) implies names_interned(model.defs@, n) by {
            assert forall|j: int| 0 <= j < n0 implies ((#[trigger] model.defs@[j]).name.0 as int) < n by {
                assert(old(model).defs@[j].name == model.defs@[j].name);
            }
        }
        assert forall|n: nat| #[trigger] reports_interned(old(model).defs@, n) implies reports_interned(model.defs@, n) by {
            assert forall|j: int| 0 <= j < n0 implies def_interned(#[trigger] model.defs@[j], n) by {
                assert(def_interned(old(model).defs@[j], n));
                let e = model.defs@[j];
                if gets_implicit_specialization(old(model).defs@[j], j, stdlib) {
                    assert(ref_interned(e.specializations@[0], n));
                    assert forall|k: int| 0 <= k < e.specializations@.len() implies ref_interned(#[trigger] e.specializations@[k], n) by {
                        assert(k == 0);
                    }
                }
            }
        }
    }
}

/// Whether definition `d`, at position `i`, gets `specializes Anything` added: it is a
/// type, specializes nothing, and is not a library type.
pub open spec fn gets_implicit_specialization(d: Def, i: int, stdlib: &StdlibDefs) -> bool {
    &&& d.kind == DefKind::Type
    &&& d.specializations@.len() == 0
    &&& !(stdlib.anything.index() == i || stdlib.object.index() == i || stdlib.data_value.index()
        == i || stdlib.occurrence.index() == i || stdlib.performance.index() == i
        || stdlib.link.index() == i)
}

/// `a` and `b` agree in every field but their specializations.
pub open spec fn same_but_specializations(a: Def, b: Def) -> bool {
    &&& a.name == b.name
    &&& a.kind == b.kind
    &&& a.span == b.span
    &&& a.parent == b.parent
    &&& a.children == b.children
    &&& a.conjugation == b.conjugation
    &&& a.type_ref == b.type_ref
    &&& a.chain_segments == b.chain_segments
    &&& a.multiplicity == b.multiplicity
    &&& a.direction == b.direction
    &&& a.conjugation_decl == b.conjugation_decl
    &&& a.imports == b.imports
    &&& a.inherited_features == b.inherited_features
    &&& a.type_checked == b.type_checked
}

} // verus!
