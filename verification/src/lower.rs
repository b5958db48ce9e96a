//! Lowering a parsed file into the semantic model: one definition per declaration,
//! every name reference still unresolved.
use vstd::prelude::*;
use vstd::string::StringExecFns;
use crate::ast::{
    ConjugationDecl, Expr, FeatureDecl, Member, Multiplicity, PackageDecl, QualifiedName,
    TypeDecl, TypeExpr,
};
use crate::diagnostic::DiagnosticSink;
use crate::hir::{
    same_but_links, Def, DefId, DefKind, HirMultiplicity, Import, MultBound, NameRef,
    ResolutionState, SemanticModel,
};
use crate::interner::{StringInterner, SymbolId};
use crate::parser::ParseResult;
use crate::decl_count::{decl_count, lemma_package_weight_unfold, lemma_parse_closed, lemma_type_weight_unfold, member_weight, members_weight, packages_weight};
use crate::resolve::{
    bound_interned, def_interned, faithful, model_faithful, names_interned, ref_interned, reports_interned, slot_ref,
    RefSlot,
};
use crate::span::Span;

verus! {

/// `r` is the unresolved reference written as `q`.
pub open spec fn ref_from(r: NameRef, q: QualifiedName) -> bool {
    &&& r.segments@ == q.segments@
    &&& r.span == q.span
    &&& r.resolution == ResolutionState::Unresolved
}

pub open spec fn refs_from(rs: Seq<NameRef>, qs: Seq<QualifiedName>) -> bool {
    &&& rs.len() == qs.len()
    &&& forall|k: int| 0 <= k < rs.len() ==> ref_from(#[trigger] rs[k], qs[k])
}

pub open spec fn opt_ref_from(r: Option<NameRef>, q: Option<QualifiedName>) -> bool {
    match (r, q) {
        (None, None) => true,
        (Some(a), Some(b)) => ref_from(a, b),
        _ => false,
    }
}

/// The bound that expression `e` gives, in the lower position (`upper` false) or the
/// upper one: a literal is exact, a name refers to a feature, `*` is unbounded above,
/// and anything else counts as zero.
pub open spec fn bound_from(b: MultBound, e: Expr, upper: bool) -> bool {
    match e {
        Expr::IntLiteral { value, .. } => b == MultBound::Exact(value),
        Expr::Star { .. } => if upper {
            b == MultBound::Unbounded
        } else {
            b == MultBound::Exact(0)
        },
        Expr::Name { name } => b matches MultBound::Ref(r) && ref_from(r, name),
        Expr::BinOp { .. } => b == MultBound::Exact(0),
    }
}

/// `h` is the lowered form of `m`: a missing lower bound is zero, and a missing upper
/// bound repeats the lower one.
pub open spec fn mult_from(h: HirMultiplicity, m: Multiplicity) -> bool {
    &&& h.span == m.span
    &&& match m.lower {
        Some(e) => bound_from(h.lower, e, false),
        None => h.lower == MultBound::Exact(0),
    }
    &&& match (m.upper, m.lower) {
        (Some(e), _) => bound_from(h.upper, e, true),
        (None, Some(e)) => bound_from(h.upper, e, false),
        (None, None) => h.upper == MultBound::Exact(0),
    }
}

/// Nothing has been inferred about `d` yet.
pub open spec fn fresh(d: Def) -> bool {
    &&& d.inherited_features@.len() == 0
    &&& !d.type_checked
}

/// The fields of `d` that its kind does not use are empty.
pub open spec fn no_type_parts(d: Def) -> bool {
    &&& d.specializations@.len() == 0
    &&& d.conjugation is None
}

pub open spec fn no_feature_parts(d: Def) -> bool {
    &&& d.type_ref is None
    &&& d.chain_segments@.len() == 0
    &&& d.multiplicity is None
    &&& d.direction is None
}

/// `d` is the definition of package `p`.
pub open spec fn package_lowered(d: Def, p: PackageDecl) -> bool {
    &&& d.kind == DefKind::Package
    &&& d.name == p.name
    &&& d.span == p.span
    &&& d.imports@.len() == p.imports@.len()
    &&& forall|k: int|
        0 <= k < d.imports@.len() ==> {
            &&& ref_from((#[trigger] d.imports@[k]).path, p.imports@[k].path)
            &&& d.imports@[k].is_wildcard == p.imports@[k].is_wildcard
            &&& d.imports@[k].span == p.imports@[k].span
        }
    &&& no_type_parts(d)
    &&& no_feature_parts(d)
    &&& d.conjugation_decl is None
    &&& fresh(d)
}

/// `d` is the definition of type `t`.
pub open spec fn type_lowered(d: Def, t: TypeDecl) -> bool {
    &&& d.kind == DefKind::Type
    &&& d.name == t.name
    &&& d.span == t.span
    &&& refs_from(d.specializations@, t.specializations@)
    &&& opt_ref_from(d.conjugation, t.conjugation)
    &&& d.imports@.len() == 0
    &&& no_feature_parts(d)
    &&& d.conjugation_decl is None
    &&& fresh(d)
}

/// `d` is the anonymous type that conjugates `q`, written `~q` at `span`: it is named
/// `~` followed by the last segment of `q`, in the interned strings `names`.
pub open spec fn synthesized(d: Def, q: QualifiedName, span: Span, names: Seq<Seq<char>>) -> bool {
    &&& d.kind == DefKind::Type
    &&& d.span == span
    &&& q.segments@.len() > 0
    &&& (d.name.0 as int) < names.len()
    &&& (q.segments@.last().0 as int) < names.len()
    &&& names[d.name.0 as int] == seq!['~'] + names[q.segments@.last().0 as int]
    &&& d.specializations@.len() == 0
    &&& opt_ref_from(d.conjugation, Some(q))
    &&& d.imports@.len() == 0
    &&& no_feature_parts(d)
    &&& d.conjugation_decl is None
    &&& fresh(d)
}

/// `d` is the definition of feature `f`; a conjugated typing `~T` points at the
/// anonymous type made for it.
pub open spec fn feature_lowered(d: Def, f: FeatureDecl, defs: Seq<Def>, names: Seq<Seq<char>>) -> bool {
    &&& d.kind == DefKind::Feature
    &&& d.name == f.name
    &&& d.span == f.span
    &&& d.direction == f.direction
    &&& match f.type_ref {
        Some(TypeExpr::Named(q)) => opt_ref_from(d.type_ref, Some(q)),
        Some(TypeExpr::Conjugated(q, sp)) => d.type_ref matches Some(r) && {
            &&& r.segments@.len() == 0
            &&& r.span == sp
            &&& r.resolution matches ResolutionState::Resolved(id) && id.index() < defs.len()
                && synthesized(defs[id.index() as int], q, sp, names)
        },
        _ => d.type_ref is None,
    }
    &&& opt_ref_from(d.conjugation, f.conjugation)
    &&& match f.chain {
        Some(c) => refs_from(d.chain_segments@, c.segments@),
        None => d.chain_segments@.len() == 0,
    }
    &&& match (d.multiplicity, f.multiplicity) {
        (None, None) => true,
        (Some(h), Some(m)) => mult_from(h, m),
        _ => false,
    }
    &&& d.specializations@.len() == 0
    &&& d.imports@.len() == 0
    &&& d.conjugation_decl is None
    &&& fresh(d)
}

/// `d` is the definition of conjugation declaration `c`.
pub open spec fn conjugation_lowered(d: Def, c: ConjugationDecl) -> bool {
    &&& d.kind == DefKind::Conjugation
    &&& d.name == c.name
    &&& d.span == c.span
    &&& d.conjugation_decl matches Some(pair) && ref_from(pair.0, c.conjugated_type) && ref_from(
        pair.1,
        c.original_type,
    )
    &&& no_type_parts(d)
    &&& no_feature_parts(d)
    &&& d.imports@.len() == 0
    &&& fresh(d)
}

/// `d` is the lowered form of some declaration of `parse`.
pub open spec fn lowered_from(d: Def, parse: ParseResult, defs: Seq<Def>, names: Seq<Seq<char>>) -> bool {
    ||| exists|i: int| 0 <= i < parse.packages@.len() && package_lowered(d, #[trigger] parse.packages@[i])
    ||| exists|i: int| 0 <= i < parse.types@.len() && type_lowered(d, #[trigger] parse.types@[i])
    ||| exists|i: int|
        0 <= i < parse.features@.len() && feature_lowered(d, #[trigger] parse.features@[i], defs, names)
    ||| exists|i: int|
        0 <= i < parse.conjugations@.len() && conjugation_lowered(d, #[trigger] parse.conjugations@[i])
    ||| exists|i: int|
        0 <= i < parse.features@.len() && synthesized_for(d, #[trigger] parse.features@[i], names)
}

/// `d` is the anonymous type made for the conjugated typing of feature `f`.
pub open spec fn synthesized_for(d: Def, f: FeatureDecl, names: Seq<Seq<char>>) -> bool {
    match f.type_ref {
        Some(TypeExpr::Conjugated(q, sp)) => synthesized(d, q, sp, names),
        _ => false,
    }
}

/// A copy of a list of symbols.
pub(crate) fn copy_symbols(v: &Vec<SymbolId>) -> (r: Vec<SymbolId>)
    ensures
        r@ == v@,
{
    let mut r: Vec<SymbolId> = Vec::new();
    let mut i: usize = 0;
    while i < v.len()
        invariant
            i <= v@.len(),
            r@ == v@.subrange(0, i as int),
        decreases v@.len() - i,
    {
        r.push(v[i]);
        i = i + 1;
        assert(r@ =~= v@.subrange(0, i as int));
    }
    r
}

/// The unresolved reference written as `q`.
fn unresolved_ref(q: &QualifiedName) -> (r: NameRef)
    ensures
        ref_from(r, *q),
{
    NameRef::unresolved(copy_symbols(&q.segments), q.span)
}

fn unresolved_refs(qs: &Vec<QualifiedName>) -> (r: Vec<NameRef>)
    ensures
        refs_from(r@, qs@),
{
    let mut r: Vec<NameRef> = Vec::new();
    let mut i: usize = 0;
    while i < qs.len()
        invariant
            i <= qs@.len(),
            r@.len() == i,
            forall|k: int| 0 <= k < i ==> ref_from(#[trigger] r@[k], qs@[k]),
        decreases qs@.len() - i,
    {
        r.push(unresolved_ref(&qs[i]));
        i = i + 1;
    }
    r
}

/// The bound that `e` gives in the lower position, or with `upper` in the upper one.
fn lower_bound(e: &Expr, upper: bool) -> (b: MultBound)
    ensures
        bound_from(b, *e, upper),
{
    match e {
        Expr::IntLiteral { value, .. } => MultBound::Exact(*value),
        Expr::Star { .. } => if upper {
            MultBound::Unbounded
        } else {
            MultBound::Exact(0)
        },
        Expr::Name { name } => MultBound::Ref(unresolved_ref(name)),
        Expr::BinOp { .. } => MultBound::Exact(0),
    }
}

/// The lowered form of a multiplicity.
pub fn lower_multiplicity(m: &Multiplicity) -> (h: HirMultiplicity)
    ensures
        mult_from(h, *m),
{
    let lower = match &m.lower {
        Some(e) => lower_bound(e, false),
        None => MultBound::Exact(0),
    };
    let upper = match (&m.upper, &m.lower) {
        (Some(e), _) => lower_bound(e, true),
        (None, Some(e)) => lower_bound(e, false),
        (None, None) => MultBound::Exact(0),
    };
    HirMultiplicity { lower, upper, span: m.span }
}


/// The rank of a member under the ranks `pr` of packages and `tr` of types; other
/// members contain nothing and rank lowest.
pub open spec fn member_rank(m: Member, pr: Seq<nat>, tr: Seq<nat>) -> nat {
    match m {
        Member::Package(j) => pr[j.index() as int],
        Member::Type(j) => tr[j.index() as int],
        _ => 0,
    }
}

pub open spec fn ranked_below(ms: Seq<Member>, pr: Seq<nat>, tr: Seq<nat>, r: nat) -> bool {
    forall|k: int| 0 <= k < ms.len() ==> member_rank(#[trigger] ms[k], pr, tr) < r
}

/// The ranks `pr` and `tr` strictly decrease from each package or type to the packages
/// and types among its members, so that no declaration contains itself.
pub open spec fn nesting_ranked(parse: ParseResult, pr: Seq<nat>, tr: Seq<nat>) -> bool {
    &&& pr.len() == parse.packages@.len()
    &&& tr.len() == parse.types@.len()
    &&& forall|i: int|
        0 <= i < parse.packages@.len() ==> ranked_below(
            (#[trigger] parse.packages@[i]).members@,
            pr,
            tr,
            pr[i],
        )
    &&& forall|i: int|
        0 <= i < parse.types@.len() ==> ranked_below((#[trigger] parse.types@[i]).members@, pr, tr, tr[i])
}

/// How many definitions lowering member `m` makes.
pub open spec fn member_size(parse: ParseResult, m: Member, pr: Seq<nat>, tr: Seq<nat>) -> nat
    decreases member_rank(m, pr, tr), 1nat, 0nat,
{
    match m {
        Member::Package(j) => 1 + members_size(
            parse,
            parse.packages@[j.index() as int].members@,
            pr,
            tr,
            pr[j.index() as int],
        ),
        Member::Type(j) => 1 + members_size(
            parse,
            parse.types@[j.index() as int].members@,
            pr,
            tr,
            tr[j.index() as int],
        ),
        Member::Feature(j) => match parse.features@[j.index() as int].type_ref {
            Some(TypeExpr::Conjugated(_, _)) => 2,
            _ => 1,
        },
        Member::Conjugation(_) => 1,
    }
}

/// How many definitions lowering the members `ms`, each ranked below `r`, makes.
pub open spec fn members_size(parse: ParseResult, ms: Seq<Member>, pr: Seq<nat>, tr: Seq<nat>, r: nat) -> nat
    decreases r, 0nat, ms.len(),
{
    if ms.len() == 0 {
        0
    } else if member_rank(ms.last(), pr, tr) < r {
        members_size(parse, ms.drop_last(), pr, tr, r) + member_size(parse, ms.last(), pr, tr)
    } else {
        0
    }
}

/// `defs2` and `names2` extend `defs` and `names`, changing at most parents and children.
pub open spec fn grows_from(defs2: Seq<Def>, defs: Seq<Def>, names2: Seq<Seq<char>>, names: Seq<Seq<char>>) -> bool {
    &&& defs.len() <= defs2.len()
    &&& forall|k: int| 0 <= k < defs.len() ==> same_but_links(#[trigger] defs2[k], defs[k])
    &&& names.len() <= names2.len()
    &&& names2.subrange(0, names.len() as int) == names
}

/// Every definition among `defs` is the lowered form of a declaration of `parse`.
pub open spec fn all_lowered(parse: ParseResult, defs: Seq<Def>, names: Seq<Seq<char>>) -> bool {
    forall|k: int| 0 <= k < defs.len() ==> lowered_from(#[trigger] defs[k], parse, defs, names)
}

proof fn lemma_synth_stable(d: Def, d2: Def, q: QualifiedName, sp: Span, names: Seq<Seq<char>>, names2: Seq<Seq<char>>)
    requires
        synthesized(d, q, sp, names),
        same_but_links(d2, d),
        names.len() <= names2.len(),
        names2.subrange(0, names.len() as int) == names,
    ensures
        synthesized(d2, q, sp, names2),
{
    assert(names2[d.name.0 as int] == names2.subrange(0, names.len() as int)[d.name.0 as int]);
    assert(names2[q.segments@.last().0 as int] == names2.subrange(0, names.len() as int)[q.segments@.last().0 as int]);
}

proof fn lemma_lowered_stable(
    parse: ParseResult,
    d: Def,
    d2: Def,
    defs: Seq<Def>,
    defs2: Seq<Def>,
    names: Seq<Seq<char>>,
    names2: Seq<Seq<char>>,
)
    requires
        lowered_from(d, parse, defs, names),
        same_but_links(d2, d),
        grows_from(defs2, defs, names2, names),
    ensures
        lowered_from(d2, parse, defs2, names2),
{
    if exists|i: int| 0 <= i < parse.packages@.len() && package_lowered(d, #[trigger] parse.packages@[i]) {
        let i = choose|i: int| 0 <= i < parse.packages@.len() && package_lowered(d, #[trigger] parse.packages@[i]);
        assert(package_lowered(d2, parse.packages@[i]));
    } else if exists|i: int| 0 <= i < parse.types@.len() && type_lowered(d, #[trigger] parse.types@[i]) {
        let i = choose|i: int| 0 <= i < parse.types@.len() && type_lowered(d, #[trigger] parse.types@[i]);
        assert(type_lowered(d2, parse.types@[i]));
    } else if exists|i: int|
        0 <= i < parse.features@.len() && feature_lowered(d, #[trigger] parse.features@[i], defs, names) {
        let i = choose|i: int|
            0 <= i < parse.features@.len() && feature_lowered(d, #[trigger] parse.features@[i], defs, names);
        let f = parse.features@[i];
        match f.type_ref {
            Some(TypeExpr::Conjugated(q, sp)) => {
                let id = d.type_ref->0.resolution->Resolved_0;
                assert(same_but_links(defs2[id.index() as int], defs[id.index() as int]));
                lemma_synth_stable(defs[id.index() as int], defs2[id.index() as int], q, sp, names, names2);
            },
            _ => {},
        }
        assert(feature_lowered(d2, f, defs2, names2));
    } else if exists|i: int|
        0 <= i < parse.conjugations@.len() && conjugation_lowered(d, #[trigger] parse.conjugations@[i]) {
        let i = choose|i: int|
            0 <= i < parse.conjugations@.len() && conjugation_lowered(d, #[trigger] parse.conjugations@[i]);
        assert(conjugation_lowered(d2, parse.conjugations@[i]));
    } else {
        let i = choose|i: int| 0 <= i < parse.features@.len() && synthesized_for(d, #[trigger] parse.features@[i], names);
        match parse.features@[i].type_ref {
            Some(TypeExpr::Conjugated(q, sp)) => {
                lemma_synth_stable(d, d2, q, sp, names, names2);
            },
            _ => {},
        }
        assert(synthesized_for(d2, parse.features@[i], names2));
    }
}

proof fn lemma_all_lowered_stable(
    parse: ParseResult,
    defs: Seq<Def>,
    defs2: Seq<Def>,
    names: Seq<Seq<char>>,
    names2: Seq<Seq<char>>,
)
    requires
        all_lowered(parse, defs, names),
        grows_from(defs2, defs, names2, names),
    ensures
        forall|k: int| 0 <= k < defs.len() ==> lowered_from(#[trigger] defs2[k], parse, defs2, names2),
{
    assert forall|k: int| 0 <= k < defs.len() implies lowered_from(#[trigger] defs2[k], parse, defs2, names2) by {
        lemma_lowered_stable(parse, defs[k], defs2[k], defs, defs2, names, names2);
    }
}


proof fn lemma_grows_trans(
    d3: Seq<Def>,
    d2: Seq<Def>,
    d1: Seq<Def>,
    n3: Seq<Seq<char>>,
    n2: Seq<Seq<char>>,
    n1: Seq<Seq<char>>,
)
    requires
        grows_from(d2, d1, n2, n1),
        grows_from(d3, d2, n3, n2),
    ensures
        grows_from(d3, d1, n3, n1),
{
    assert forall|k: int| 0 <= k < d1.len() implies same_but_links(#[trigger] d3[k], d1[k]) by {
        assert(same_but_links(d2[k], d1[k]));
        assert(same_but_links(d3[k], d2[k]));
    }
    assert(n3.subrange(0, n1.len() as int) =~= n3.subrange(0, n2.len() as int).subrange(0, n1.len() as int));
}

proof fn lemma_grows_refl(d: Seq<Def>, n: Seq<Seq<char>>)
    ensures
        grows_from(d, d, n, n),
{
    assert(n.subrange(0, n.len() as int) =~= n);
}

/// Every conjugated typing `~T` names something.
pub open spec fn conjugated_names_ok(parse: ParseResult) -> bool {
    forall|i: int|
        0 <= i < parse.features@.len() ==> ((#[trigger] parse.features@[i]).type_ref matches Some(
            TypeExpr::Conjugated(q, _),
        ) ==> q.segments@.len() > 0)
}

/// The state lowering works in: a well-formed model whose definitions all come from
/// `parse`, whose symbols lie below `n0`, which is no more than the interned strings.
pub open spec fn lower_ready(model: SemanticModel, parse: ParseResult, names: Seq<Seq<char>>, n0: nat) -> bool {
    &&& model.wf()
    &&& model.type_infos@.len() == 0
    &&& all_lowered(parse, model.defs@, names)
    &&& parse.wf(n0)
    &&& n0 <= names.len()
    &&& conjugated_names_ok(parse)
}

/// How many definitions lowering feature `f` makes: one more for a conjugated typing.
pub open spec fn feature_size(f: FeatureDecl) -> nat {
    match f.type_ref {
        Some(TypeExpr::Conjugated(_, _)) => 2,
        _ => 1,
    }
}

/// Makes the anonymous type that conjugates `q`, written `~q` at `span` as the typing of
/// feature `fid`.
fn synthesize_conjugated_type(
    model: &mut SemanticModel,
    parse: &ParseResult,
    interner: &mut StringInterner,
    fid: crate::ast::FeatureDeclId,
    q: &QualifiedName,
    span: Span,
    Ghost(n0): Ghost<nat>,
) -> (id: DefId)
    requires
        lower_ready(*old(model), *parse, old(interner)@, n0),
        old(interner).wf(),
        fid.index() < parse.features@.len(),
        parse.features@[fid.index() as int].type_ref == Some(TypeExpr::Conjugated(*q, span)),
        old(model).defs@.len() < u32::MAX,
        old(interner)@.len() < u32::MAX,
    ensures
        lower_ready(*final(model), *parse, final(interner)@, n0),
        final(interner).wf(),
        id.index() == old(model).defs@.len(),
        final(model).defs@.len() == old(model).defs@.len() + 1,
        grows_from(final(model).defs@, old(model).defs@, final(interner)@, old(interner)@),
        final(interner)@.len() <= old(interner)@.len() + 1,
        final(model).defs@[id.index() as int].parent is None,
        synthesized(final(model).defs@[id.index() as int], *q, span, final(interner)@),
        final(model).roots == old(model).roots,
        forall|k: int| 0 <= k < old(model).defs@.len() ==> #[trigger] final(model).defs@[k] == old(model).defs@[k],
{
    let ghost defs0 = model.defs@;
    let ghost names0 = interner@;
    proof {
        let f = parse.features@[fid.index() as int];
        assert(f.ok(parse.bounds(n0)));
        assert(q.segments@.len() > 0);
    }
    let last = q.segments[q.segments.len() - 1];
    proof {
        assert(crate::ast::name_ok(*q, parse.bounds(n0)));
        assert(q.segments@[q.segments@.len() - 1].0 < n0);
    }
    let orig = interner.resolve(last);
    let synth = String::from_str("~").concat(orig);
    let name = interner.intern(synth.as_str());
    proof {
        reveal_strlit("~");
        assert("~"@ =~= seq!['~']);
        assert(interner@.subrange(0, names0.len() as int) =~= names0);
        assert(interner@[last.0 as int] == names0[last.0 as int]);
        assert(q.segments@.last() == last);
        assert(interner@[name.0 as int] =~= seq!['~'] + interner@[last.0 as int]);
    }
    let mut def = Def::new(name, DefKind::Type, span);
    def.conjugation = Some(unresolved_ref(q));
    let id = model.alloc_def(def);
    proof {
        let defs1 = model.defs@;
        let names1 = interner@;
        assert(synthesized(def, *q, span, names1));
        assert(grows_from(defs1, defs0, names1, names0)) by {
            assert forall|k: int| 0 <= k < defs0.len() implies same_but_links(#[trigger] defs1[k], defs0[k]) by {
                assert(defs1[k] == defs0[k]);
            }
        }
        lemma_all_lowered_stable(*parse, defs0, defs1, names0, names1);
        assert(synthesized_for(defs1[id.index() as int], parse.features@[fid.index() as int], names1));
        assert(lowered_from(defs1[id.index() as int], *parse, defs1, names1));
        assert(all_lowered(*parse, defs1, names1));
        let n = defs1.len();
        assert forall|i: int| 0 <= i < n implies crate::hir::def_ok(#[trigger] defs1[i], i, n) by {
            if i < defs0.len() {
                assert(crate::hir::def_ok(defs0[i], i, defs0.len()));
                assert(defs1[i] == defs0[i]);
            }
        }
    }
    id
}

/// Lowers feature `fid`: its definition, preceded by the anonymous type of a conjugated
/// typing `~T`. Returns the feature, then the anonymous type if there is one.
fn lower_feature(
    model: &mut SemanticModel,
    parse: &ParseResult,
    interner: &mut StringInterner,
    fid: crate::ast::FeatureDeclId,
    Ghost(n0): Ghost<nat>,
) -> (ids: Vec<DefId>)
    requires
        lower_ready(*old(model), *parse, old(interner)@, n0),
        old(interner).wf(),
        fid.index() < parse.features@.len(),
        old(model).defs@.len() + feature_size(parse.features@[fid.index() as int]) <= u32::MAX,
        old(interner)@.len() + feature_size(parse.features@[fid.index() as int]) <= u32::MAX,
    ensures
        lower_ready(*final(model), *parse, final(interner)@, n0),
        final(interner).wf(),
        final(model).defs@.len() == old(model).defs@.len() + feature_size(parse.features@[fid.index() as int]),
        grows_from(final(model).defs@, old(model).defs@, final(interner)@, old(interner)@),
        final(interner)@.len() <= old(interner)@.len() + feature_size(parse.features@[fid.index() as int]),
        final(model).roots == old(model).roots,
        ids@.len() == feature_size(parse.features@[fid.index() as int]),
        ids@[0].index() == final(model).defs@.len() - 1,
        ids@.len() == 2 ==> ids@[1].index() == old(model).defs@.len(),
        forall|k: int| 0 <= k < ids@.len() ==> final(model).defs@[(#[trigger] ids@[k]).index() as int].parent is None,
        forall|k: int| 0 <= k < old(model).defs@.len() ==> #[trigger] final(model).defs@[k] == old(model).defs@[k],
{
    let ghost defs0 = model.defs@;
    let ghost names0 = interner@;
    let feat = &parse.features[fid];
    proof {
        assert(feat.ok(parse.bounds(n0)));
    }
    let mut extra: Vec<DefId> = Vec::new();
    let mut type_ref: Option<NameRef> = None;
    match &feat.type_ref {
        Some(TypeExpr::Named(q)) => {
            type_ref = Some(unresolved_ref(q));
        },
        Some(TypeExpr::Conjugated(q, sp)) => {
            let anon = synthesize_conjugated_type(model, parse, interner, fid, q, *sp, Ghost(n0));
            type_ref = Some(NameRef { segments: Vec::new(), span: *sp, resolution: ResolutionState::Resolved(anon) });
            extra.push(anon);
        },
        _ => {},
    }
    let ghost defs1 = model.defs@;
    let ghost names1 = interner@;
    let mut def = Def::new(feat.name, DefKind::Feature, feat.span);
    def.direction = feat.direction;
    def.type_ref = type_ref;
    match &feat.conjugation {
        Some(c) => {
            def.conjugation = Some(unresolved_ref(c));
        },
        None => {},
    }
    match &feat.chain {
        Some(chain) => {
            def.chain_segments = unresolved_refs(&chain.segments);
        },
        None => {},
    }
    match &feat.multiplicity {
        Some(m) => {
            def.multiplicity = Some(lower_multiplicity(m));
        },
        None => {},
    }
    let id = model.alloc_def(def);
    let mut ids: Vec<DefId> = Vec::new();
    ids.push(id);
    if extra.len() > 0 {
        ids.push(extra[0]);
    }
    proof {
        let defs2 = model.defs@;
        assert(grows_from(defs2, defs1, names1, names1)) by {
            assert forall|k: int| 0 <= k < defs1.len() implies same_but_links(#[trigger] defs2[k], defs1[k]) by {
                assert(defs2[k] == defs1[k]);
            }
            assert(names1.subrange(0, names1.len() as int) =~= names1);
        }
        if feat.type_ref matches Some(TypeExpr::Conjugated(_, _)) {
            lemma_grows_trans(defs2, defs1, defs0, names1, names1, names0);
        } else {
            assert(defs1 == defs0 && names1 == names0);
        }
        lemma_all_lowered_stable(*parse, defs1, defs2, names1, names1);
        assert(feature_lowered(defs2[id.index() as int], parse.features@[fid.index() as int], defs2, names1));
        assert(all_lowered(*parse, defs2, names1));
        let n = defs2.len();
        assert forall|i: int| 0 <= i < n implies crate::hir::def_ok(#[trigger] defs2[i], i, n) by {
            if i < defs1.len() {
                assert(crate::hir::def_ok(defs1[i], i, defs1.len()));
                assert(defs2[i] == defs1[i]);
            } else {
                assert(crate::hir::refs_ok(defs2[i].chain_segments@, n));
            }
        }
    }
    ids
}


proof fn lemma_members_size_prefix(
    parse: ParseResult,
    ms: Seq<Member>,
    pr: Seq<nat>,
    tr: Seq<nat>,
    r: nat,
    k: int,
)
    requires
        ranked_below(ms, pr, tr, r),
        0 <= k <= ms.len(),
    ensures
        members_size(parse, ms.subrange(0, k), pr, tr, r) <= members_size(parse, ms, pr, tr, r),
        k < ms.len() ==> members_size(parse, ms.subrange(0, k + 1), pr, tr, r) == members_size(
            parse,
            ms.subrange(0, k),
            pr,
            tr,
            r,
        ) + member_size(parse, ms[k], pr, tr),
    decreases ms.len() - k,
{
    if k == ms.len() {
        assert(ms.subrange(0, k) =~= ms);
    } else {
        let s1 = ms.subrange(0, k + 1);
        assert(s1.drop_last() =~= ms.subrange(0, k));
        assert(s1.last() == ms[k]);
        assert(member_rank(ms[k], pr, tr) < r);
        lemma_members_size_prefix(parse, ms, pr, tr, r, k + 1);
    }
}

/// Lowers conjugation declaration `cid`.
fn lower_conjugation_decl(
    model: &mut SemanticModel,
    parse: &ParseResult,
    cid: crate::ast::ConjugationDeclId,
    Ghost(names): Ghost<Seq<Seq<char>>>,
    Ghost(n0): Ghost<nat>,
) -> (id: DefId)
    requires
        lower_ready(*old(model), *parse, names, n0),
        cid.index() < parse.conjugations@.len(),
        old(model).defs@.len() < u32::MAX,
    ensures
        lower_ready(*final(model), *parse, names, n0),
        id.index() == old(model).defs@.len(),
        final(model).defs@.len() == old(model).defs@.len() + 1,
        grows_from(final(model).defs@, old(model).defs@, names, names),
        final(model).defs@[id.index() as int].parent is None,
        final(model).roots == old(model).roots,
        forall|k: int| 0 <= k < old(model).defs@.len() ==> #[trigger] final(model).defs@[k] == old(model).defs@[k],
{
    let ghost defs0 = model.defs@;
    let conj = &parse.conjugations[cid];
    let mut def = Def::new(conj.name, DefKind::Conjugation, conj.span);
    let conjugated = unresolved_ref(&conj.conjugated_type);
    let original = unresolved_ref(&conj.original_type);
    def.conjugation_decl = Some((conjugated, original));
    let id = model.alloc_def(def);
    proof {
        let defs1 = model.defs@;
        assert(grows_from(defs1, defs0, names, names)) by {
            assert forall|k: int| 0 <= k < defs0.len() implies same_but_links(#[trigger] defs1[k], defs0[k]) by {
                assert(defs1[k] == defs0[k]);
            }
            assert(names.subrange(0, names.len() as int) =~= names);
        }
        lemma_all_lowered_stable(*parse, defs0, defs1, names, names);
        assert(conjugation_lowered(defs1[id.index() as int], parse.conjugations@[cid.index() as int]));
        assert(all_lowered(*parse, defs1, names));
        let n = defs1.len();
        assert forall|i: int| 0 <= i < n implies crate::hir::def_ok(#[trigger] defs1[i], i, n) by {
            if i < defs0.len() {
                assert(crate::hir::def_ok(defs0[i], i, defs0.len()));
                assert(defs1[i] == defs0[i]);
            }
        }
    }
    id
}

/// Makes every definition returned for a member a child of `parent`.
fn adopt(model: &mut SemanticModel, parent: DefId, ids: &Vec<DefId>, Ghost(parse): Ghost<ParseResult>, Ghost(names): Ghost<Seq<Seq<char>>>, Ghost(n0): Ghost<nat>)
    requires
        lower_ready(*old(model), parse, names, n0),
        forall|k: int| 0 <= k < ids@.len() ==> parent.index() < (#[trigger] ids@[k]).index() < old(model).defs@.len(),
    ensures
        lower_ready(*final(model), parse, names, n0),
        final(model).defs@.len() == old(model).defs@.len(),
        grows_from(final(model).defs@, old(model).defs@, names, names),
        final(model).defs@[parent.index() as int].parent == old(model).defs@[parent.index() as int].parent,
        final(model).roots == old(model).roots,
        forall|k: int| 0 <= k < parent.index() ==> #[trigger] final(model).defs@[k] == old(model).defs@[k],
{
    let ghost defs0 = model.defs@;
    proof {
        lemma_grows_refl(defs0, names);
    }
    let mut j: usize = 0;
    while j < ids.len()
        invariant
            lower_ready(*model, parse, names, n0),
            forall|k: int| 0 <= k < ids@.len() ==> parent.index() < (#[trigger] ids@[k]).index() < defs0.len(),
            model.defs@.len() == defs0.len(),
            grows_from(model.defs@, defs0, names, names),
            model.defs@[parent.index() as int].parent == defs0[parent.index() as int].parent,
            model.roots == old(model).roots,
            forall|k: int| 0 <= k < parent.index() ==> #[trigger] model.defs@[k] == defs0[k],
            j <= ids@.len(),
        decreases ids@.len() - j,
    {
        let ghost before = model.defs@;
        let c = ids[j];
        model.add_child(parent, c);
        proof {
            let after = model.defs@;
            assert(grows_from(after, before, names, names)) by {
                assert forall|k: int| 0 <= k < before.len() implies same_but_links(#[trigger] after[k], before[k]) by {
                    if k != parent.index() && k != c.index() {
                        assert(after[k] == before[k]);
                    }
                }
                assert(names.subrange(0, names.len() as int) =~= names);
            }
            lemma_all_lowered_stable(parse, before, after, names, names);
            lemma_grows_trans(after, before, defs0, names, names, names);
        }
        j = j + 1;
    }
}

/// The common bounds of a lowering step for member `m`.
pub open spec fn room_for(model: SemanticModel, names: Seq<Seq<char>>, size: nat) -> bool {
    &&& model.defs@.len() + size <= u32::MAX
    &&& names.len() + size <= u32::MAX
}

/// Lowers a member, returning its definition plus any anonymous types made for it.
fn lower_member(
    model: &mut SemanticModel,
    parse: &ParseResult,
    interner: &mut StringInterner,
    m: Member,
    Ghost(pr): Ghost<Seq<nat>>,
    Ghost(tr): Ghost<Seq<nat>>,
    Ghost(n0): Ghost<nat>,
) -> (ids: Vec<DefId>)
    requires
        lower_ready(*old(model), *parse, old(interner)@, n0),
        old(interner).wf(),
        nesting_ranked(*parse, pr, tr),
        crate::ast::member_ok(m, parse.bounds(n0)),
        room_for(*old(model), old(interner)@, member_size(*parse, m, pr, tr)),
    ensures
        lower_ready(*final(model), *parse, final(interner)@, n0),
        final(interner).wf(),
        final(model).defs@.len() == old(model).defs@.len() + member_size(*parse, m, pr, tr),
        grows_from(final(model).defs@, old(model).defs@, final(interner)@, old(interner)@),
        final(interner)@.len() <= old(interner)@.len() + member_size(*parse, m, pr, tr),
        final(model).roots == old(model).roots,
        ids@.len() >= 1,
        forall|k: int|
            0 <= k < ids@.len() ==> old(model).defs@.len() <= (#[trigger] ids@[k]).index() < final(model).defs@.len(),
        forall|k: int| 0 <= k < ids@.len() ==> final(model).defs@[(#[trigger] ids@[k]).index() as int].parent is None,
        forall|k: int| 0 <= k < old(model).defs@.len() ==> #[trigger] final(model).defs@[k] == old(model).defs@[k],
    decreases member_rank(m, pr, tr), 1nat,
{
    let mut ids: Vec<DefId> = Vec::new();
    match m {
        Member::Package(id) => {
            let d = lower_package(model, parse, interner, id, Ghost(pr), Ghost(tr), Ghost(n0));
            ids.push(d);
        },
        Member::Type(id) => {
            let d = lower_type(model, parse, interner, id, Ghost(pr), Ghost(tr), Ghost(n0));
            ids.push(d);
        },
        Member::Feature(id) => {
            ids = lower_feature(model, parse, interner, id, Ghost(n0));
        },
        Member::Conjugation(id) => {
            let ghost names = interner@;
            let d = lower_conjugation_decl(model, parse, id, Ghost(names), Ghost(n0));
            ids.push(d);
        },
    }
    ids
}

/// Lowers package `pid` and, after it, its members.
fn lower_package(
    model: &mut SemanticModel,
    parse: &ParseResult,
    interner: &mut StringInterner,
    pid: crate::ast::PackageId,
    Ghost(pr): Ghost<Seq<nat>>,
    Ghost(tr): Ghost<Seq<nat>>,
    Ghost(n0): Ghost<nat>,
) -> (id: DefId)
    requires
        lower_ready(*old(model), *parse, old(interner)@, n0),
        old(interner).wf(),
        nesting_ranked(*parse, pr, tr),
        pid.index() < parse.packages@.len(),
        room_for(*old(model), old(interner)@, member_size(*parse, Member::Package(pid), pr, tr)),
    ensures
        lower_ready(*final(model), *parse, final(interner)@, n0),
        final(interner).wf(),
        final(model).defs@.len() == old(model).defs@.len() + member_size(*parse, Member::Package(pid), pr, tr),
        grows_from(final(model).defs@, old(model).defs@, final(interner)@, old(interner)@),
        final(interner)@.len() <= old(interner)@.len() + member_size(*parse, Member::Package(pid), pr, tr),
        final(model).roots == old(model).roots,
        id.index() == old(model).defs@.len(),
        final(model).defs@[id.index() as int].parent is None,
        forall|k: int| 0 <= k < old(model).defs@.len() ==> #[trigger] final(model).defs@[k] == old(model).defs@[k],
    decreases pr[pid.index() as int], 0nat,
{
    let ghost defs0 = model.defs@;
    let ghost names0 = interner@;
    let ghost total = member_size(*parse, Member::Package(pid), pr, tr);
    let pkg = &parse.packages[pid];
    let ghost ms = pkg.members@;
    let ghost r = pr[pid.index() as int];
    proof {
        assert(pkg.ok(parse.bounds(n0)));
        assert(ranked_below(ms, pr, tr, r));
        lemma_members_size_prefix(*parse, ms, pr, tr, r, 0);
        assert(ms.subrange(0, 0) =~= Seq::<Member>::empty());
    }
    let mut def = Def::new(pkg.name, DefKind::Package, pkg.span);
    let mut i: usize = 0;
    while i < pkg.imports.len()
        invariant
            i <= pkg.imports@.len(),
            def.kind == DefKind::Package,
            def.name == pkg.name,
            def.span == pkg.span,
            def.parent is None,
            def.children@.len() == 0,
            no_type_parts(def),
            no_feature_parts(def),
            def.conjugation_decl is None,
            fresh(def),
            def.imports@.len() == i,
            forall|k: int|
                0 <= k < i ==> {
                    &&& ref_from((#[trigger] def.imports@[k]).path, pkg.imports@[k].path)
                    &&& def.imports@[k].is_wildcard == pkg.imports@[k].is_wildcard
                    &&& def.imports@[k].span == pkg.imports@[k].span
                },
        decreases pkg.imports@.len() - i,
    {
        let imp = &pkg.imports[i];
        def.imports.push(Import { path: unresolved_ref(&imp.path), is_wildcard: imp.is_wildcard, span: imp.span });
        i = i + 1;
    }
    let def_id = model.alloc_def(def);
    proof {
        let defs1 = model.defs@;
        assert(grows_from(defs1, defs0, names0, names0)) by {
            assert forall|k: int| 0 <= k < defs0.len() implies same_but_links(#[trigger] defs1[k], defs0[k]) by {
                assert(defs1[k] == defs0[k]);
            }
            assert(names0.subrange(0, names0.len() as int) =~= names0);
        }
        lemma_all_lowered_stable(*parse, defs0, defs1, names0, names0);
        assert(package_lowered(defs1[def_id.index() as int], parse.packages@[pid.index() as int]));
        assert(all_lowered(*parse, defs1, names0));
        let n = defs1.len();
        assert forall|i: int| 0 <= i < n implies crate::hir::def_ok(#[trigger] defs1[i], i, n) by {
            if i < defs0.len() {
                assert(crate::hir::def_ok(defs0[i], i, defs0.len()));
                assert(defs1[i] == defs0[i]);
            }
        }
    }
    let mut k: usize = 0;
    while k < pkg.members.len()
        invariant
            lower_ready(*model, *parse, interner@, n0),
            interner.wf(),
            nesting_ranked(*parse, pr, tr),
            pid.index() < parse.packages@.len(),
            *pkg == parse.packages@[pid.index() as int],
            ms == pkg.members@,
            r == pr[pid.index() as int],
            ranked_below(ms, pr, tr, r),
            total == 1 + members_size(*parse, ms, pr, tr, r),
            k <= ms.len(),
            def_id.index() == defs0.len(),
            model.defs@.len() == defs0.len() + 1 + members_size(*parse, ms.subrange(0, k as int), pr, tr, r),
            members_size(*parse, ms.subrange(0, k as int), pr, tr, r) <= members_size(*parse, ms, pr, tr, r),
            interner@.len() <= names0.len() + (model.defs@.len() - defs0.len()),
            defs0.len() + total <= u32::MAX,
            names0.len() + total <= u32::MAX,
            grows_from(model.defs@, defs0, interner@, names0),
            model.roots == old(model).roots,
            forall|j: int| 0 <= j < defs0.len() ==> #[trigger] model.defs@[j] == defs0[j],
            model.defs@[def_id.index() as int].parent is None,
        decreases ms.len() - k,
    {
        proof {
            lemma_members_size_prefix(*parse, ms, pr, tr, r, k as int);
            lemma_members_size_prefix(*parse, ms, pr, tr, r, k as int + 1);
            assert(crate::ast::member_ok(ms[k as int], parse.bounds(n0)));
            assert(member_rank(ms[k as int], pr, tr) < r);
        }
        let ghost defs_k = model.defs@;
        let ghost names_k = interner@;
        let ids = lower_member(model, parse, interner, pkg.members[k], Ghost(pr), Ghost(tr), Ghost(n0));
        let ghost defs_m = model.defs@;
        let ghost names_m = interner@;
        adopt(model, def_id, &ids, Ghost(*parse), Ghost(names_m), Ghost(n0));
        proof {
            lemma_grows_trans(defs_m, defs_k, defs0, names_m, names_k, names0);
            lemma_grows_trans(model.defs@, defs_m, defs0, names_m, names_m, names0);
        }
        k = k + 1;
    }
    proof {
        assert(ms.subrange(0, k as int) =~= ms);
    }
    def_id
}

/// Lowers type `tid` and, after it, its members.
fn lower_type(
    model: &mut SemanticModel,
    parse: &ParseResult,
    interner: &mut StringInterner,
    tid: crate::ast::TypeDeclId,
    Ghost(pr): Ghost<Seq<nat>>,
    Ghost(tr): Ghost<Seq<nat>>,
    Ghost(n0): Ghost<nat>,
) -> (id: DefId)
    requires
        lower_ready(*old(model), *parse, old(interner)@, n0),
        old(interner).wf(),
        nesting_ranked(*parse, pr, tr),
        tid.index() < parse.types@.len(),
        room_for(*old(model), old(interner)@, member_size(*parse, Member::Type(tid), pr, tr)),
    ensures
        lower_ready(*final(model), *parse, final(interner)@, n0),
        final(interner).wf(),
        final(model).defs@.len() == old(model).defs@.len() + member_size(*parse, Member::Type(tid), pr, tr),
        grows_from(final(model).defs@, old(model).defs@, final(interner)@, old(interner)@),
        final(interner)@.len() <= old(interner)@.len() + member_size(*parse, Member::Type(tid), pr, tr),
        final(model).roots == old(model).roots,
        id.index() == old(model).defs@.len(),
        final(model).defs@[id.index() as int].parent is None,
        forall|k: int| 0 <= k < old(model).defs@.len() ==> #[trigger] final(model).defs@[k] == old(model).defs@[k],
    decreases tr[tid.index() as int], 0nat,
{
    let ghost defs0 = model.defs@;
    let ghost names0 = interner@;
    let ghost total = member_size(*parse, Member::Type(tid), pr, tr);
    let pkg = &parse.types[tid];
    let ghost ms = pkg.members@;
    let ghost r = tr[tid.index() as int];
    proof {
        assert(pkg.ok(parse.bounds(n0)));
        assert(ranked_below(ms, pr, tr, r));
        lemma_members_size_prefix(*parse, ms, pr, tr, r, 0);
        assert(ms.subrange(0, 0) =~= Seq::<Member>::empty());
    }
    let mut def = Def::new(pkg.name, DefKind::Type, pkg.span);
    def.specializations = unresolved_refs(&pkg.specializations);
    match &pkg.conjugation {
        Some(c) => {
            def.conjugation = Some(unresolved_ref(c));
        },
        None => {},
    }
    let def_id = model.alloc_def(def);
    proof {
        let defs1 = model.defs@;
        assert(grows_from(defs1, defs0, names0, names0)) by {
            assert forall|k: int| 0 <= k < defs0.len() implies same_but_links(#[trigger] defs1[k], defs0[k]) by {
                assert(defs1[k] == defs0[k]);
            }
            assert(names0.subrange(0, names0.len() as int) =~= names0);
        }
        lemma_all_lowered_stable(*parse, defs0, defs1, names0, names0);
        assert(type_lowered(defs1[def_id.index() as int], parse.types@[tid.index() as int]));
        assert(all_lowered(*parse, defs1, names0));
        let n = defs1.len();
        assert forall|i: int| 0 <= i < n implies crate::hir::def_ok(#[trigger] defs1[i], i, n) by {
            if i < defs0.len() {
                assert(crate::hir::def_ok(defs0[i], i, defs0.len()));
                assert(defs1[i] == defs0[i]);
            } else {
                assert(crate::hir::refs_ok(defs1[i].specializations@, n));
            }
        }
    }
    let mut k: usize = 0;
    while k < pkg.members.len()
        invariant
            lower_ready(*model, *parse, interner@, n0),
            interner.wf(),
            nesting_ranked(*parse, pr, tr),
            tid.index() < parse.types@.len(),
            *pkg == parse.types@[tid.index() as int],
            ms == pkg.members@,
            r == tr[tid.index() as int],
            ranked_below(ms, pr, tr, r),
            total == 1 + members_size(*parse, ms, pr, tr, r),
            k <= ms.len(),
            def_id.index() == defs0.len(),
            model.defs@.len() == defs0.len() + 1 + members_size(*parse, ms.subrange(0, k as int), pr, tr, r),
            members_size(*parse, ms.subrange(0, k as int), pr, tr, r) <= members_size(*parse, ms, pr, tr, r),
            interner@.len() <= names0.len() + (model.defs@.len() - defs0.len()),
            defs0.len() + total <= u32::MAX,
            names0.len() + total <= u32::MAX,
            grows_from(model.defs@, defs0, interner@, names0),
            model.roots == old(model).roots,
            forall|j: int| 0 <= j < defs0.len() ==> #[trigger] model.defs@[j] == defs0[j],
            model.defs@[def_id.index() as int].parent is None,
        decreases ms.len() - k,
    {
        proof {
            lemma_members_size_prefix(*parse, ms, pr, tr, r, k as int);
            lemma_members_size_prefix(*parse, ms, pr, tr, r, k as int + 1);
            assert(crate::ast::member_ok(ms[k as int], parse.bounds(n0)));
            assert(member_rank(ms[k as int], pr, tr) < r);
        }
        let ghost defs_k = model.defs@;
        let ghost names_k = interner@;
        let ids = lower_member(model, parse, interner, pkg.members[k], Ghost(pr), Ghost(tr), Ghost(n0));
        let ghost defs_m = model.defs@;
        let ghost names_m = interner@;
        adopt(model, def_id, &ids, Ghost(*parse), Ghost(names_m), Ghost(n0));
        proof {
            lemma_grows_trans(defs_m, defs_k, defs0, names_m, names_k, names0);
            lemma_grows_trans(model.defs@, defs_m, defs0, names_m, names_m, names0);
        }
        k = k + 1;
    }
    proof {
        assert(ms.subrange(0, k as int) =~= ms);
    }
    def_id
}


/// How many definitions lowering the top-level packages `ps` makes.
pub open spec fn top_packages_size(parse: ParseResult, ps: Seq<crate::ast::PackageId>, pr: Seq<nat>, tr: Seq<nat>) -> nat
    decreases ps.len(),
{
    if ps.len() == 0 {
        0
    } else {
        top_packages_size(parse, ps.drop_last(), pr, tr) + member_size(parse, Member::Package(ps.last()), pr, tr)
    }
}

/// How many definitions lowering the top-level members `ms` makes.
pub open spec fn top_members_size(parse: ParseResult, ms: Seq<Member>, pr: Seq<nat>, tr: Seq<nat>) -> nat
    decreases ms.len(),
{
    if ms.len() == 0 {
        0
    } else {
        top_members_size(parse, ms.drop_last(), pr, tr) + member_size(parse, ms.last(), pr, tr)
    }
}

/// How many definitions lowering `parse` makes.
pub open spec fn lowered_size(parse: ParseResult, pr: Seq<nat>, tr: Seq<nat>) -> nat {
    top_packages_size(parse, parse.source_file.packages@, pr, tr) + top_members_size(
        parse,
        parse.source_file.members@,
        pr,
        tr,
    )
}

/// Ranks under which `parse` nests well and whose lowering fits beside `nsym` symbols.
pub open spec fn fits(parse: ParseResult, nsym: nat, pr: Seq<nat>, tr: Seq<nat>) -> bool {
    &&& nesting_ranked(parse, pr, tr)
    &&& nsym + lowered_size(parse, pr, tr) <= u32::MAX
}

/// `parse` can be lowered next to an interner of `nsym` strings: it is closed under
/// reference, every conjugated typing names something, no package or type contains
/// itself, and the definitions it makes, and the names made for them, stay within `u32`.
pub open spec fn lowerable(parse: ParseResult, nsym: nat) -> bool {
    &&& parse.wf(nsym)
    &&& conjugated_names_ok(parse)
    &&& exists|pr: Seq<nat>, tr: Seq<nat>| fits(parse, nsym, pr, tr)
}

/// The ranks that lowering `parse` goes by.
pub open spec fn lowering_ranks(parse: ParseResult, nsym: nat) -> (Seq<nat>, Seq<nat>) {
    choose|pr: Seq<nat>, tr: Seq<nat>| fits(parse, nsym, pr, tr)
}

proof fn lemma_top_packages_prefix(parse: ParseResult, ps: Seq<crate::ast::PackageId>, pr: Seq<nat>, tr: Seq<nat>, k: int)
    requires
        0 <= k <= ps.len(),
    ensures
        top_packages_size(parse, ps.subrange(0, k), pr, tr) <= top_packages_size(parse, ps, pr, tr),
        k < ps.len() ==> top_packages_size(parse, ps.subrange(0, k + 1), pr, tr) == top_packages_size(
            parse,
            ps.subrange(0, k),
            pr,
            tr,
        ) + member_size(parse, Member::Package(ps[k]), pr, tr),
    decreases ps.len() - k,
{
    if k == ps.len() {
        assert(ps.subrange(0, k) =~= ps);
    } else {
        assert(ps.subrange(0, k + 1).drop_last() =~= ps.subrange(0, k));
        lemma_top_packages_prefix(parse, ps, pr, tr, k + 1);
    }
}

proof fn lemma_top_members_prefix(parse: ParseResult, ms: Seq<Member>, pr: Seq<nat>, tr: Seq<nat>, k: int)
    requires
        0 <= k <= ms.len(),
    ensures
        top_members_size(parse, ms.subrange(0, k), pr, tr) <= top_members_size(parse, ms, pr, tr),
        k < ms.len() ==> top_members_size(parse, ms.subrange(0, k + 1), pr, tr) == top_members_size(
            parse,
            ms.subrange(0, k),
            pr,
            tr,
        ) + member_size(parse, ms[k], pr, tr),
    decreases ms.len() - k,
{
    if k == ms.len() {
        assert(ms.subrange(0, k) =~= ms);
    } else {
        assert(ms.subrange(0, k + 1).drop_last() =~= ms.subrange(0, k));
        lemma_top_members_prefix(parse, ms, pr, tr, k + 1);
    }
}

/// Every reference of a lowered definition is unresolved, but for the typing of a
/// feature by an anonymous conjugated type, which has no name segments.
proof fn lemma_lowered_refs_plain(d: Def, parse: ParseResult, defs: Seq<Def>, names: Seq<Seq<char>>, s: RefSlot)
    requires
        lowered_from(d, parse, defs, names),
        slot_ref(d, s) is Some,
    ensures
        slot_ref(d, s)->0.resolution == ResolutionState::Unresolved || slot_ref(d, s)->0.segments@.len() == 0,
{
    if exists|i: int| 0 <= i < parse.features@.len() && feature_lowered(d, #[trigger] parse.features@[i], defs, names) {
        let i = choose|i: int| 0 <= i < parse.features@.len() && feature_lowered(d, #[trigger] parse.features@[i], defs, names);
        let f = parse.features@[i];
        match s {
            RefSlot::ChainSegment(k) => {
                match f.chain {
                    Some(c) => assert(ref_from(d.chain_segments@[k as int], c.segments@[k as int])),
                    None => {},
                }
            },
            RefSlot::LowerBound | RefSlot::UpperBound => {
                match (d.multiplicity, f.multiplicity) {
                    (Some(h), Some(m)) => {
                        assert(mult_from(h, m));
                    },
                    _ => {},
                }
            },
            _ => {},
        }
    } else if exists|i: int| 0 <= i < parse.types@.len() && type_lowered(d, #[trigger] parse.types@[i]) {
        let i = choose|i: int| 0 <= i < parse.types@.len() && type_lowered(d, #[trigger] parse.types@[i]);
        match s {
            RefSlot::Specialization(k) => assert(ref_from(d.specializations@[k as int], parse.types@[i].specializations@[k as int])),
            _ => {},
        }
    } else if exists|i: int| 0 <= i < parse.packages@.len() && package_lowered(d, #[trigger] parse.packages@[i]) {
        let i = choose|i: int| 0 <= i < parse.packages@.len() && package_lowered(d, #[trigger] parse.packages@[i]);
        match s {
            RefSlot::Import(k) => assert(ref_from(d.imports@[k as int].path, parse.packages@[i].imports@[k as int].path)),
            _ => {},
        }
    }
}

/// A lowered model is faithful to names: no reference with a name is resolved yet.
pub proof fn lemma_lowered_faithful(parse: ParseResult, defs: Seq<Def>, names: Seq<Seq<char>>)
    requires
        all_lowered(parse, defs, names),
    ensures
        model_faithful(defs),
{
    assert forall|i: int, s: RefSlot|
        0 <= i < defs.len() && (#[trigger] slot_ref(defs[i], s)) is Some implies faithful(defs, slot_ref(defs[i], s)->0) by {
        lemma_lowered_refs_plain(defs[i], parse, defs, names, s);
    }
}

/// Lower a parse result into a semantic model: each top-level package, then each
/// top-level member, becomes a root, and every declaration nested in them a
/// definition whose parent is the declaration around it. Every definition comes from
/// a declaration of `parse`, with its name references unresolved.
pub fn lower_ast(parse: &ParseResult, interner: &mut StringInterner, sink: &mut DiagnosticSink) -> (model: SemanticModel)
    requires
        old(interner).wf(),
        lowerable(*parse, old(interner)@.len()),
    ensures
        final(interner).wf(),
        final(interner)@.len() >= old(interner)@.len(),
        final(interner)@.subrange(0, old(interner)@.len() as int) == old(interner)@,
        final(interner)@.len() <= old(interner)@.len() + model.defs@.len(),
        final(sink)@ == old(sink)@,
        model.wf(),
        model.type_infos@.len() == 0,
        all_lowered(*parse, model.defs@, final(interner)@),
        model.defs@.len() == lowered_size(
            *parse,
            lowering_ranks(*parse, old(interner)@.len()).0,
            lowering_ranks(*parse, old(interner)@.len()).1,
        ),
        forall|k: int| 0 <= k < model.roots@.len() ==> model.defs@[(#[trigger] model.roots@[k]).index() as int].parent is None,
        model_faithful(model.defs@),
        names_interned(model.defs@, final(interner)@.len()),
        reports_interned(model.defs@, final(interner)@.len()),
{
    let ghost n0 = interner@.len();
    let ghost names0 = interner@;
    let ghost ranks = lowering_ranks(*parse, n0);
    let ghost pr = ranks.0;
    let ghost tr = ranks.1;
    let ghost total = lowered_size(*parse, pr, tr);
    let mut model = SemanticModel::new();
    proof {
        assert(fits(*parse, n0, pr, tr));
        lemma_grows_refl(model.defs@, names0);
    }
    let packages = &parse.source_file.packages;
    let ghost ps = packages@;
    let mut i: usize = 0;
    proof {
        assert(ps.subrange(0, 0) =~= Seq::<crate::ast::PackageId>::empty());
    }
    while i < packages.len()
        invariant
            lower_ready(model, *parse, interner@, n0),
            interner.wf(),
            nesting_ranked(*parse, pr, tr),
            ps == parse.source_file.packages@,
            *packages == parse.source_file.packages,
            total == lowered_size(*parse, pr, tr),
            n0 + total <= u32::MAX,
            n0 == names0.len(),
            i <= ps.len(),
            model.defs@.len() == top_packages_size(*parse, ps.subrange(0, i as int), pr, tr),
            interner@.len() <= n0 + model.defs@.len(),
            grows_from(model.defs@, Seq::<Def>::empty(), interner@, names0),
            model.type_infos@.len() == 0,
            forall|k: int| 0 <= k < model.roots@.len() ==> model.defs@[(#[trigger] model.roots@[k]).index() as int].parent is None,
        decreases ps.len() - i,
    {
        proof {
            lemma_top_packages_prefix(*parse, ps, pr, tr, i as int);
            lemma_top_packages_prefix(*parse, ps, pr, tr, i as int + 1);
            assert(ps[i as int].index() < parse.packages@.len());
        }
        let ghost d0 = model.defs@;
        let ghost nm0 = interner@;
        let id = lower_package(&mut model, parse, interner, packages[i], Ghost(pr), Ghost(tr), Ghost(n0));
        proof {
            lemma_grows_trans(model.defs@, d0, Seq::<Def>::empty(), interner@, nm0, names0);
        }
        model.roots.push(id);
        i = i + 1;
    }
    proof {
        assert(ps.subrange(0, i as int) =~= ps);
    }
    let members = &parse.source_file.members;
    let ghost ms = members@;
    let mut j: usize = 0;
    proof {
        assert(ms.subrange(0, 0) =~= Seq::<Member>::empty());
    }
    while j < members.len()
        invariant
            lower_ready(model, *parse, interner@, n0),
            interner.wf(),
            nesting_ranked(*parse, pr, tr),
            ps == parse.source_file.packages@,
            ms == parse.source_file.members@,
            *members == parse.source_file.members,
            total == lowered_size(*parse, pr, tr),
            n0 + total <= u32::MAX,
            n0 == names0.len(),
            j <= ms.len(),
            model.defs@.len() == top_packages_size(*parse, ps, pr, tr) + top_members_size(*parse, ms.subrange(0, j as int), pr, tr),
            interner@.len() <= n0 + model.defs@.len(),
            grows_from(model.defs@, Seq::<Def>::empty(), interner@, names0),
            model.type_infos@.len() == 0,
            forall|k: int| 0 <= k < model.roots@.len() ==> model.defs@[(#[trigger] model.roots@[k]).index() as int].parent is None,
        decreases ms.len() - j,
    {
        proof {
            lemma_top_members_prefix(*parse, ms, pr, tr, j as int);
            lemma_top_members_prefix(*parse, ms, pr, tr, j as int + 1);
            assert(crate::ast::member_ok(ms[j as int], parse.bounds(n0)));
        }
        let ghost d0 = model.defs@;
        let ghost nm0 = interner@;
        let ids = lower_member(&mut model, parse, interner, members[j], Ghost(pr), Ghost(tr), Ghost(n0));
        proof {
            lemma_grows_trans(model.defs@, d0, Seq::<Def>::empty(), interner@, nm0, names0);
        }
        let mut t: usize = 0;
        while t < ids.len()
            invariant
                lower_ready(model, *parse, interner@, n0),
                model.defs@.len() == d0.len() + member_size(*parse, ms[j as int], pr, tr),
                j < ms.len(),
                forall|k: int| 0 <= k < ids@.len() ==> (#[trigger] ids@[k]).index() < model.defs@.len(),
                forall|k: int| 0 <= k < ids@.len() ==> model.defs@[(#[trigger] ids@[k]).index() as int].parent is None,
                model.type_infos@.len() == 0,
                forall|k: int| 0 <= k < model.roots@.len() ==> model.defs@[(#[trigger] model.roots@[k]).index() as int].parent is None,
                t <= ids@.len(),
            decreases ids@.len() - t,
        {
            model.roots.push(ids[t]);
            t = t + 1;
        }
        j = j + 1;
    }
    proof {
        assert(ms.subrange(0, j as int) =~= ms);
        lemma_lowered_faithful(*parse, model.defs@, interner@);
        lemma_lowered_interned(*parse, model.defs@, interner@, n0);
    }
    model
}

/// An unresolved reference written as `q`, whose symbols lie below `n`, names only
/// interned strings.
proof fn lemma_ref_from_interned(r: NameRef, q: QualifiedName, bd: crate::ast::Bounds)
    requires
        ref_from(r, q),
        crate::ast::name_ok(q, bd),
    ensures
        ref_interned(r, bd.symbols),
{
    assert forall|j: int| 0 <= j < r.segments@.len() implies ((#[trigger] r.segments@[j]).0 as int) < bd.symbols by {
        assert(r.segments@[j] == q.segments@[j]);
    }
}

proof fn lemma_refs_from_interned(rs: Seq<NameRef>, qs: Seq<QualifiedName>, bd: crate::ast::Bounds)
    requires
        refs_from(rs, qs),
        crate::ast::names_ok(qs, bd),
    ensures
        forall|k: int| 0 <= k < rs.len() ==> ref_interned(#[trigger] rs[k], bd.symbols),
{
    assert forall|k: int| 0 <= k < rs.len() implies ref_interned(#[trigger] rs[k], bd.symbols) by {
        assert(ref_from(rs[k], qs[k]));
        lemma_ref_from_interned(rs[k], qs[k], bd);
    }
}

proof fn lemma_bound_from_interned(b: MultBound, e: Expr, upper: bool, bd: crate::ast::Bounds)
    requires
        bound_from(b, e, upper),
        crate::ast::expr_ok(e, bd),
    ensures
        bound_interned(b, bd.symbols),
{
    match e {
        Expr::Name { name } => {
            match b {
                MultBound::Ref(r) => lemma_ref_from_interned(r, name, bd),
                _ => {},
            }
        },
        _ => {},
    }
}

/// A lowered definition names only interned strings, and reports only names made of
/// them.
proof fn lemma_lowered_def_interned(d: Def, parse: ParseResult, defs: Seq<Def>, names: Seq<Seq<char>>, n0: nat)
    requires
        lowered_from(d, parse, defs, names),
        parse.wf(n0),
        n0 <= names.len(),
    ensures
        (d.name.0 as int) < names.len(),
        def_interned(d, names.len()),
{
    let bd = parse.bounds(n0);
    if exists|i: int| 0 <= i < parse.packages@.len() && package_lowered(d, #[trigger] parse.packages@[i]) {
        let i = choose|i: int| 0 <= i < parse.packages@.len() && package_lowered(d, #[trigger] parse.packages@[i]);
        assert(parse.packages@[i].ok(bd));
    } else if exists|i: int| 0 <= i < parse.types@.len() && type_lowered(d, #[trigger] parse.types@[i]) {
        let i = choose|i: int| 0 <= i < parse.types@.len() && type_lowered(d, #[trigger] parse.types@[i]);
        let t = parse.types@[i];
        assert(t.ok(bd));
        lemma_refs_from_interned(d.specializations@, t.specializations@, bd);
        match (d.conjugation, t.conjugation) {
            (Some(a), Some(q)) => lemma_ref_from_interned(a, q, bd),
            _ => {},
        }
    } else if exists|i: int|
        0 <= i < parse.features@.len() && feature_lowered(d, #[trigger] parse.features@[i], defs, names) {
        let i = choose|i: int|
            0 <= i < parse.features@.len() && feature_lowered(d, #[trigger] parse.features@[i], defs, names);
        let f = parse.features@[i];
        assert(f.ok(bd));
        match f.type_ref {
            Some(TypeExpr::Named(q)) => {
                match d.type_ref {
                    Some(r) => lemma_ref_from_interned(r, q, bd),
                    None => {},
                }
            },
            _ => {},
        }
        match (d.conjugation, f.conjugation) {
            (Some(a), Some(q)) => lemma_ref_from_interned(a, q, bd),
            _ => {},
        }
        match f.chain {
            Some(c) => lemma_refs_from_interned(d.chain_segments@, c.segments@, bd),
            None => {},
        }
        match (d.multiplicity, f.multiplicity) {
            (Some(h), Some(m)) => {
                match m.lower {
                    Some(e) => lemma_bound_from_interned(h.lower, e, false, bd),
                    None => {},
                }
                match (m.upper, m.lower) {
                    (Some(e), _) => lemma_bound_from_interned(h.upper, e, true, bd),
                    (None, Some(e)) => lemma_bound_from_interned(h.upper, e, false, bd),
                    _ => {},
                }
            },
            _ => {},
        }
    } else if exists|i: int| 0 <= i < parse.conjugations@.len() && conjugation_lowered(d, #[trigger] parse.conjugations@[i]) {
        let i = choose|i: int| 0 <= i < parse.conjugations@.len() && conjugation_lowered(d, #[trigger] parse.conjugations@[i]);
        let c = parse.conjugations@[i];
        assert(c.ok(bd));
        match d.conjugation_decl {
            Some(pair) => {
                lemma_ref_from_interned(pair.0, c.conjugated_type, bd);
                lemma_ref_from_interned(pair.1, c.original_type, bd);
            },
            None => {},
        }
    } else {
        let i = choose|i: int| 0 <= i < parse.features@.len() && synthesized_for(d, #[trigger] parse.features@[i], names);
        let f = parse.features@[i];
        assert(f.ok(bd));
        match f.type_ref {
            Some(TypeExpr::Conjugated(q, sp)) => {
                match d.conjugation {
                    Some(a) => lemma_ref_from_interned(a, q, bd),
                    None => {},
                }
            },
            _ => {},
        }
    }
}

/// What lowering makes names only interned strings.
pub proof fn lemma_lowered_interned(parse: ParseResult, defs: Seq<Def>, names: Seq<Seq<char>>, n0: nat)
    requires
        all_lowered(parse, defs, names),
        parse.wf(n0),
        n0 <= names.len(),
    ensures
        names_interned(defs, names.len()),
        reports_interned(defs, names.len()),
{
    assert forall|i: int| 0 <= i < defs.len() implies ((#[trigger] defs[i]).name.0 as int) < names.len()
        && def_interned(defs[i], names.len()) by {
        lemma_lowered_def_interned(defs[i], parse, defs, names, n0);
    }
}

/// The ranks that the order of making gives a parse whose declarations nest in that
/// order: each type ranks by its position, each package above every type and by its
/// position.
pub open spec fn order_ranks(parse: ParseResult) -> (Seq<nat>, Seq<nat>) {
    let nt = parse.types@.len();
    (
        Seq::new(parse.packages@.len(), |i: int| (nt + i + 1) as nat),
        Seq::new(nt, |j: int| (j + 1) as nat),
    )
}

proof fn lemma_member_size_weight(parse: ParseResult, nsym: nat, pr: Seq<nat>, tr: Seq<nat>, m: Member)
    requires
        parse.wf(nsym),
        parse.nested(),
        nesting_ranked(parse, pr, tr),
        crate::ast::member_ok(m, parse.bounds(nsym)),
    ensures
        member_size(parse, m, pr, tr) == member_weight(parse.packages@, parse.types@, parse.features@, m),
    decreases member_rank(m, pr, tr), 1nat,
{
    let bd = parse.bounds(nsym);
    lemma_parse_closed(parse, nsym);
    match m {
        Member::Package(j) => {
            let d = parse.packages@[j.index() as int];
            assert(d.ok(bd));
            lemma_members_size_weight(parse, nsym, pr, tr, d.members@, pr[j.index() as int]);
            lemma_package_weight_unfold(parse.packages@, parse.types@, parse.features@, j.index());
        },
        Member::Type(j) => {
            let d = parse.types@[j.index() as int];
            assert(d.ok(bd));
            lemma_members_size_weight(parse, nsym, pr, tr, d.members@, tr[j.index() as int]);
            lemma_type_weight_unfold(parse.packages@, parse.types@, parse.features@, j.index());
        },
        _ => {},
    }
}

proof fn lemma_members_size_weight(parse: ParseResult, nsym: nat, pr: Seq<nat>, tr: Seq<nat>, ms: Seq<Member>, r: nat)
    requires
        parse.wf(nsym),
        parse.nested(),
        nesting_ranked(parse, pr, tr),
        crate::ast::members_ok(ms, parse.bounds(nsym)),
        ranked_below(ms, pr, tr, r),
    ensures
        members_size(parse, ms, pr, tr, r) == members_weight(parse.packages@, parse.types@, parse.features@, ms),
    decreases r, 0nat, ms.len(),
{
    if ms.len() > 0 {
        let ml = ms.drop_last();
        assert forall|k: int| 0 <= k < ml.len() implies crate::ast::member_ok(#[trigger] ml[k], parse.bounds(nsym)) by {
            assert(ml[k] == ms[k]);
        }
        assert forall|k: int| 0 <= k < ml.len() implies member_rank(#[trigger] ml[k], pr, tr) < r by {
            assert(ml[k] == ms[k]);
        }
        lemma_members_size_weight(parse, nsym, pr, tr, ml, r);
        assert(ms.last() == ms[ms.len() - 1]);
        lemma_member_size_weight(parse, nsym, pr, tr, ms.last());
    }
}

/// Under any ranking, lowering makes as many definitions as the parse declares.
pub proof fn lemma_lowered_size_is_count(parse: ParseResult, nsym: nat, pr: Seq<nat>, tr: Seq<nat>)
    requires
        parse.wf(nsym),
        parse.nested(),
        nesting_ranked(parse, pr, tr),
    ensures
        lowered_size(parse, pr, tr) == decl_count(parse),
{
    lemma_top_packages_weight(parse, nsym, pr, tr, parse.source_file.packages@);
    lemma_top_members_weight(parse, nsym, pr, tr, parse.source_file.members@);
}

proof fn lemma_top_packages_weight(parse: ParseResult, nsym: nat, pr: Seq<nat>, tr: Seq<nat>, ps: Seq<crate::ast::PackageId>)
    requires
        parse.wf(nsym),
        parse.nested(),
        nesting_ranked(parse, pr, tr),
        forall|k: int| 0 <= k < ps.len() ==> (#[trigger] ps[k]).index() < parse.packages@.len(),
    ensures
        top_packages_size(parse, ps, pr, tr) == packages_weight(parse.packages@, parse.types@, parse.features@, ps),
    decreases ps.len(),
{
    if ps.len() > 0 {
        let pl = ps.drop_last();
        assert forall|k: int| 0 <= k < pl.len() implies (#[trigger] pl[k]).index() < parse.packages@.len() by {
            assert(pl[k] == ps[k]);
        }
        lemma_top_packages_weight(parse, nsym, pr, tr, pl);
        assert(ps.last() == ps[ps.len() - 1]);
        lemma_member_size_weight(parse, nsym, pr, tr, Member::Package(ps.last()));
    }
}

proof fn lemma_top_members_weight(parse: ParseResult, nsym: nat, pr: Seq<nat>, tr: Seq<nat>, ms: Seq<Member>)
    requires
        parse.wf(nsym),
        parse.nested(),
        nesting_ranked(parse, pr, tr),
        crate::ast::members_ok(ms, parse.bounds(nsym)),
    ensures
        top_members_size(parse, ms, pr, tr) == members_weight(parse.packages@, parse.types@, parse.features@, ms),
    decreases ms.len(),
{
    if ms.len() > 0 {
        let ml = ms.drop_last();
        assert forall|k: int| 0 <= k < ml.len() implies crate::ast::member_ok(#[trigger] ml[k], parse.bounds(nsym)) by {
            assert(ml[k] == ms[k]);
        }
        lemma_top_members_weight(parse, nsym, pr, tr, ml);
        assert(ms.last() == ms[ms.len() - 1]);
        lemma_member_size_weight(parse, nsym, pr, tr, ms.last());
    }
}

/// A parse result whose declarations nest in the order they were made is ranked by that
/// order, and each conjugated typing in it names something.
pub proof fn lemma_order_ranked(parse: ParseResult, nsym: nat)
    requires
        parse.wf(nsym),
        parse.nested(),
    ensures
        nesting_ranked(parse, order_ranks(parse).0, order_ranks(parse).1),
        conjugated_names_ok(parse),
{
    let pr = order_ranks(parse).0;
    let tr = order_ranks(parse).1;
    let bd = parse.bounds(nsym);
    assert forall|i: int| 0 <= i < parse.packages@.len() implies ranked_below(
        (#[trigger] parse.packages@[i]).members@,
        pr,
        tr,
        pr[i],
    ) by {
        let ms = parse.packages@[i].members@;
        assert(parse.packages@[i].ok(bd));
        assert forall|k: int| 0 <= k < ms.len() implies member_rank(#[trigger] ms[k], pr, tr) < pr[i] by {
            assert(crate::ast::member_ok(ms[k], bd));
            assert(parse.packages@[i].members@[k] == ms[k]);
        }
    }
    assert forall|j: int| 0 <= j < parse.types@.len() implies ranked_below(
        (#[trigger] parse.types@[j]).members@,
        pr,
        tr,
        tr[j],
    ) by {
        let ms = parse.types@[j].members@;
        assert forall|k: int| 0 <= k < ms.len() implies member_rank(#[trigger] ms[k], pr, tr) < tr[j] by {
            assert(parse.types@[j].members@[k] == ms[k]);
        }
    }
    assert forall|i: int| 0 <= i < parse.features@.len() implies ((#[trigger] parse.features@[i]).type_ref matches Some(
        TypeExpr::Conjugated(q, _),
    ) ==> q.segments@.len() > 0) by {
        assert(parse.features@[i].ok(bd));
    }
}

/// Counts from here up all stand for "too many".
pub const COUNT_CAP: u64 = 0x1_0000_0000;

/// `n`, or [`COUNT_CAP`] if `n` is larger.
pub open spec fn capped(n: nat) -> nat {
    if n < COUNT_CAP {
        n
    } else {
        COUNT_CAP as nat
    }
}

fn capped_sum(a: u64, b: u64) -> (c: u64)
    requires
        a <= COUNT_CAP,
        b <= COUNT_CAP,
    ensures
        c == capped((a + b) as nat),
{
    let s = a + b;
    if s >= COUNT_CAP {
        COUNT_CAP
    } else {
        s
    }
}

/// How many definitions lowering member `m` makes, capped.
fn member_count(parse: &ParseResult, m: Member, Ghost(nsym): Ghost<nat>) -> (c: u64)
    requires
        parse.wf(nsym),
        nesting_ranked(*parse, order_ranks(*parse).0, order_ranks(*parse).1),
        crate::ast::member_ok(m, parse.bounds(nsym)),
    ensures
        c == capped(member_size(*parse, m, order_ranks(*parse).0, order_ranks(*parse).1)),
    decreases member_rank(m, order_ranks(*parse).0, order_ranks(*parse).1), 1nat,
{
    let ghost pr = order_ranks(*parse).0;
    let ghost tr = order_ranks(*parse).1;
    match m {
        Member::Package(j) => {
            assert(parse.packages@[j.index() as int].ok(parse.bounds(nsym)));
            let inner = members_count(parse, &parse.packages[j].members, Ghost(nsym), Ghost(pr[j.index() as int]));
            capped_sum(1, inner)
        },
        Member::Type(j) => {
            assert(parse.types@[j.index() as int].ok(parse.bounds(nsym)));
            let inner = members_count(parse, &parse.types[j].members, Ghost(nsym), Ghost(tr[j.index() as int]));
            capped_sum(1, inner)
        },
        Member::Feature(j) => match parse.features[j].type_ref {
            Some(TypeExpr::Conjugated(_, _)) => 2,
            _ => 1,
        },
        Member::Conjugation(_) => 1,
    }
}

/// How many definitions lowering the members `ms`, ranked below `r`, makes, capped.
fn members_count(parse: &ParseResult, ms: &Vec<Member>, Ghost(nsym): Ghost<nat>, Ghost(r): Ghost<nat>) -> (c: u64)
    requires
        parse.wf(nsym),
        nesting_ranked(*parse, order_ranks(*parse).0, order_ranks(*parse).1),
        crate::ast::members_ok(ms@, parse.bounds(nsym)),
        ranked_below(ms@, order_ranks(*parse).0, order_ranks(*parse).1, r),
    ensures
        c == capped(members_size(*parse, ms@, order_ranks(*parse).0, order_ranks(*parse).1, r)),
    decreases r, 0nat,
{
    let ghost pr = order_ranks(*parse).0;
    let ghost tr = order_ranks(*parse).1;
    let mut c: u64 = 0;
    let mut i: usize = 0;
    assert(ms@.subrange(0, 0) =~= Seq::<Member>::empty());
    while i < ms.len()
        invariant
            parse.wf(nsym),
            nesting_ranked(*parse, pr, tr),
            pr == order_ranks(*parse).0,
            tr == order_ranks(*parse).1,
            crate::ast::members_ok(ms@, parse.bounds(nsym)),
            ranked_below(ms@, pr, tr, r),
            0 <= i <= ms@.len(),
            c == capped(members_size(*parse, ms@.subrange(0, i as int), pr, tr, r)),
        decreases ms@.len() - i,
    {
        assert(crate::ast::member_ok(ms@[i as int], parse.bounds(nsym)));
        assert(member_rank(ms@[i as int], pr, tr) < r);
        let one = member_count(parse, ms[i], Ghost(nsym));
        let ghost next = ms@.subrange(0, i + 1);
        assert(next.drop_last() =~= ms@.subrange(0, i as int));
        assert(next.last() == ms@[i as int]);
        c = capped_sum(c, one);
        i = i + 1;
    }
    assert(ms@.subrange(0, ms@.len() as int) =~= ms@);
    c
}

/// How many definitions lowering `parse` makes, capped at [`COUNT_CAP`].
pub fn lowered_count(parse: &ParseResult, Ghost(nsym): Ghost<nat>) -> (c: u64)
    requires
        parse.wf(nsym),
        parse.nested(),
    ensures
        c == capped(lowered_size(*parse, order_ranks(*parse).0, order_ranks(*parse).1)),
{
    proof {
        lemma_order_ranked(*parse, nsym);
    }
    let ghost pr = order_ranks(*parse).0;
    let ghost tr = order_ranks(*parse).1;
    let ps = &parse.source_file.packages;
    let mut c: u64 = 0;
    let mut i: usize = 0;
    assert(ps@.subrange(0, 0) =~= Seq::<crate::ast::PackageId>::empty());
    while i < ps.len()
        invariant
            parse.wf(nsym),
            nesting_ranked(*parse, pr, tr),
            pr == order_ranks(*parse).0,
            tr == order_ranks(*parse).1,
            ps == &parse.source_file.packages,
            0 <= i <= ps@.len(),
            c == capped(top_packages_size(*parse, ps@.subrange(0, i as int), pr, tr)),
        decreases ps@.len() - i,
    {
        let one = member_count(parse, Member::Package(ps[i]), Ghost(nsym));
        let ghost next = ps@.subrange(0, i + 1);
        assert(next.drop_last() =~= ps@.subrange(0, i as int));
        assert(next.last() == ps@[i as int]);
        c = capped_sum(c, one);
        i = i + 1;
    }
    assert(ps@.subrange(0, ps@.len() as int) =~= ps@);
    let ms = &parse.source_file.members;
    let mut d: u64 = 0;
    let mut k: usize = 0;
    assert(ms@.subrange(0, 0) =~= Seq::<Member>::empty());
    while k < ms.len()
        invariant
            parse.wf(nsym),
            nesting_ranked(*parse, pr, tr),
            pr == order_ranks(*parse).0,
            tr == order_ranks(*parse).1,
            ms == &parse.source_file.members,
            0 <= k <= ms@.len(),
            d == capped(top_members_size(*parse, ms@.subrange(0, k as int), pr, tr)),
        decreases ms@.len() - k,
    {
        assert(crate::ast::member_ok(ms@[k as int], parse.bounds(nsym)));
        let one = member_count(parse, ms[k], Ghost(nsym));
        let ghost next = ms@.subrange(0, k + 1);
        assert(next.drop_last() =~= ms@.subrange(0, k as int));
        assert(next.last() == ms@[k as int]);
        d = capped_sum(d, one);
        k = k + 1;
    }
    assert(ms@.subrange(0, ms@.len() as int) =~= ms@);
    capped_sum(c, d)
}

} // verus!
