//! The fixpoint of name resolution and type checking, and the diagnostics that follow.
use vstd::prelude::*;
use crate::diagnostic::{Diagnostic, DiagnosticSink};
use crate::hir::{same_names, Def, DefId, SemanticModel, TypeId, TypeInfo};
use crate::interner::StringInterner;
use crate::resolve::{
    all_cycle_reports, cycle_from_type, detect_specialization_cycles, emit_unresolved_errors, model_faithful, model_reports,
    names_interned, reports_interned, reports_match, resolve_pass, resolve_pass_result,
};
use crate::typeck::{typecheck_pass, typecheck_pass_result};
use crate::validate::{appended, validate, validation_reports};

verus! {

/// The most rounds the fixpoint runs.
pub const MAX_ITERATIONS: usize = 100;

/// One round, a resolution pass and then a type checking pass, takes `a` and `ai` to `b`
/// and `bi`; `progress` says whether either pass changed something.
pub open spec fn round(
    a: Seq<Def>,
    ai: Seq<TypeInfo>,
    roots: Seq<DefId>,
    def_to_type: Seq<Option<TypeId>>,
    b: Seq<Def>,
    bi: Seq<TypeInfo>,
    progress: bool,
) -> bool {
    exists|mid: Seq<Def>, r: bool, t: bool|
        {
            &&& resolve_pass_result(a, roots, mid, r)
            &&& typecheck_pass_result(mid, ai, def_to_type, b, bi, t)
            &&& progress == (r || t)
        }
}

/// `b` and `bi` are where the rounds from `a` and `ai` stop: after the first round
/// without progress, or after [`MAX_ITERATIONS`] rounds.
pub open spec fn fixpoint_result(
    a: Seq<Def>,
    ai: Seq<TypeInfo>,
    roots: Seq<DefId>,
    def_to_type: Seq<Option<TypeId>>,
    b: Seq<Def>,
    bi: Seq<TypeInfo>,
) -> bool {
    exists|ds: Seq<Seq<Def>>, ts: Seq<Seq<TypeInfo>>, ps: Seq<bool>|
        #![trigger ds[0], ts[0], ps.len()]
        {
            &&& 1 <= ps.len() <= MAX_ITERATIONS
            &&& ds.len() == ps.len() + 1
            &&& ts.len() == ps.len() + 1
            &&& ds[0] == a
            &&& ts[0] == ai
            &&& ds.last() == b
            &&& ts.last() == bi
            &&& forall|j: int|
                0 <= j < ps.len() ==> #[trigger] round(ds[j], ts[j], roots, def_to_type, ds[j + 1], ts[j + 1], ps[j])
            &&& forall|j: int| 0 <= j < ps.len() - 1 ==> #[trigger] ps[j]
            &&& (ps.len() < MAX_ITERATIONS ==> !ps.last())
        }
}

/// What finishing resolution adds to the sink, starting at `s0`: the errors for what
/// stays unresolved, up to position `k`, then the reports of specialization cycles,
/// present exactly when a cycle is reachable from a type.
pub open spec fn finalized(s0: Seq<Diagnostic>, s: Seq<Diagnostic>, defs: Seq<Def>, names: Seq<Seq<char>>) -> bool {
    exists|k: int|
        {
            &&& s0.len() <= k <= s.len()
            &&& s.subrange(0, s0.len() as int) == s0
            &&& reports_match(s.subrange(s0.len() as int, k), model_reports(defs, defs.len()), names)
            &&& all_cycle_reports(s.subrange(k, s.len() as int), defs, names)
            &&& (s.len() > k) == cycle_from_type(defs)
        }
}

/// Emit diagnostics for what stays unresolved, then report specialization cycles.
pub fn finalize_resolution(model: &SemanticModel, interner: &StringInterner, sink: &mut DiagnosticSink)
    requires
        model.wf(),
        reports_interned(model.defs@, interner@.len()),
        names_interned(model.defs@, interner@.len()),
    ensures
        finalized(old(sink)@, final(sink)@, model.defs@, interner@),
{
    let ghost s0 = sink@;
    emit_unresolved_errors(model, interner, sink);
    let ghost s2 = sink@;
    let _ = detect_specialization_cycles(model, interner, sink);
    proof {
        let k = s2.len() as int;
        assert(sink@.subrange(0, s0.len() as int) =~= s2.subrange(0, s0.len() as int));
        assert(sink@.subrange(s0.len() as int, k) =~= s2.subrange(s0.len() as int, k));
    }
}

/// Runs the interleaved fixpoint loop of name resolution and type checking.
/// Iterates until neither pass makes progress, then emits diagnostics
/// for anything still unresolved, and then for specialization cycles.
pub fn resolve_and_typecheck(model: &mut SemanticModel, interner: &StringInterner, sink: &mut DiagnosticSink)
    requires
        old(model).wf(),
        reports_interned(old(model).defs@, interner@.len()),
        names_interned(old(model).defs@, interner@.len()),
    ensures
        final(model).wf(),
        final(model).roots == old(model).roots,
        final(model).def_to_type == old(model).def_to_type,
        model_faithful(old(model).defs@) ==> model_faithful(final(model).defs@),
        fixpoint_result(
            old(model).defs@,
            old(model).type_infos@,
            old(model).roots@,
            old(model).def_to_type@,
            final(model).defs@,
            final(model).type_infos@,
        ),
        finalized(old(sink)@, final(sink)@, final(model).defs@, interner@),
        reports_interned(final(model).defs@, interner@.len()),
        names_interned(final(model).defs@, interner@.len()),
        same_names(old(model).defs@, final(model).defs@),
{
    let ghost a = model.defs@;
    let ghost ai = model.type_infos@;
    let ghost roots = model.roots@;
    let ghost dtt = model.def_to_type@;
    let ghost s0 = sink@;
    let ghost mut ds: Seq<Seq<Def>> = seq![model.defs@];
    let ghost mut ts: Seq<Seq<TypeInfo>> = seq![model.type_infos@];
    let ghost mut ps: Seq<bool> = Seq::empty();
    let mut it: usize = 0;
    while it < MAX_ITERATIONS
        invariant_except_break
            forall|j: int| 0 <= j < ps.len() ==> #[trigger] ps[j],
        invariant
            model.wf(),
            model.roots == old(model).roots,
            model.def_to_type == old(model).def_to_type,
            roots == old(model).roots@,
            dtt == old(model).def_to_type@,
            reports_interned(model.defs@, interner@.len()),
            names_interned(model.defs@, interner@.len()),
            model_faithful(a) ==> model_faithful(model.defs@),
            same_names(a, model.defs@),
            sink@ == s0,
            it <= MAX_ITERATIONS,
            ps.len() == it,
            ds.len() == it + 1,
            ts.len() == it + 1,
            ds[0] == a,
            ts[0] == ai,
            ds.last() == model.defs@,
            ts.last() == model.type_infos@,
            forall|j: int|
                0 <= j < ps.len() ==> #[trigger] round(ds[j], ts[j], roots, dtt, ds[j + 1], ts[j + 1], ps[j]),
        ensures
            1 <= ps.len(),
            forall|j: int| 0 <= j < ps.len() - 1 ==> #[trigger] ps[j],
            ps.len() < MAX_ITERATIONS ==> !ps.last(),
        decreases MAX_ITERATIONS - it,
    {
        let ghost before = model.defs@;
        let ghost before_ti = model.type_infos@;
        let names_changed = resolve_pass(model, interner, sink);
        let ghost mid = model.defs@;
        let types_changed = typecheck_pass(model, interner, sink);
        proof {
            let p = names_changed || types_changed;
            assert(round(before, before_ti, roots, dtt, model.defs@, model.type_infos@, p));
            let ds1 = ds.push(model.defs@);
            let ts1 = ts.push(model.type_infos@);
            let ps1 = ps.push(p);
            assert forall|j: int|
                0 <= j < ps1.len() implies #[trigger] round(ds1[j], ts1[j], roots, dtt, ds1[j + 1], ts1[j + 1], ps1[j]) by {
                if j < ps.len() {
                    assert(ds1[j] == ds[j] && ds1[j + 1] == ds[j + 1] && ts1[j] == ts[j] && ts1[j + 1] == ts[j + 1]);
                    assert(ps1[j] == ps[j]);
                }
            }
            assert forall|j: int| 0 <= j < ps.len() implies ps1[j] == ps[j] by {}
            ds = ds1;
            ts = ts1;
            ps = ps1;
        }
        it = it + 1;
        if !names_changed && !types_changed {
            break;
        }
    }
    proof {
        assert(1 <= ps.len() <= MAX_ITERATIONS);
        assert(ds.len() == ps.len() + 1 && ts.len() == ps.len() + 1);
        assert(ds[0] == a && ts[0] == ai && ds.last() == model.defs@ && ts.last() == model.type_infos@);
        assert(forall|j: int|
            0 <= j < ps.len() ==> #[trigger] round(ds[j], ts[j], roots, dtt, ds[j + 1], ts[j + 1], ps[j]));
        assert(forall|j: int| 0 <= j < ps.len() - 1 ==> #[trigger] ps[j]);
        assert(ps.len() < MAX_ITERATIONS ==> !ps.last());
        assert(fixpoint_result(a, ai, roots, dtt, model.defs@, model.type_infos@));
        assert(sink@.subrange(0, s0.len() as int) =~= s0);
    }
    finalize_resolution(model, interner, sink);
}


/// Run the compilation engine over a lowered model: the fixpoint of resolution and
/// type checking, the reports that finish resolution, then validation.
pub fn compile(model: &mut SemanticModel, interner: &StringInterner, sink: &mut DiagnosticSink)
    requires
        old(model).wf(),
        reports_interned(old(model).defs@, interner@.len()),
        names_interned(old(model).defs@, interner@.len()),
    ensures
        final(model).wf(),
        final(model).roots == old(model).roots,
        final(model).def_to_type == old(model).def_to_type,
        model_faithful(old(model).defs@) ==> model_faithful(final(model).defs@),
        fixpoint_result(
            old(model).defs@,
            old(model).type_infos@,
            old(model).roots@,
            old(model).def_to_type@,
            final(model).defs@,
            final(model).type_infos@,
        ),
        names_interned(final(model).defs@, interner@.len()),
        reports_interned(final(model).defs@, interner@.len()),
        same_names(old(model).defs@, final(model).defs@),
        exists|mid: Seq<Diagnostic>|
            {
                &&& finalized(old(sink)@, mid, final(model).defs@, interner@)
                &&& appended(mid, final(sink)@, validation_reports(final(model).defs@, interner@, final(model).defs@.len()))
            },
{
    resolve_and_typecheck(model, interner, sink);
    let ghost mid = sink@;
    proof {
        assert(names_interned(model.defs@, interner@.len()));
    }
    validate(model, interner, sink);
    proof {
        assert(finalized(old(sink)@, mid, model.defs@, interner@));
    }
}

} // verus!
