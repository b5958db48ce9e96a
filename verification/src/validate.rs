//! Semantic validation of a resolved model: what each kind of definition may refer
//! to, duplicate features, multiplicity bounds and redefinitions.
use vstd::prelude::*;
use vstd::string::StringExecFns;
use crate::diagnostic::{Diagnostic, DiagnosticSink, Label, LabelStyle, Severity};
use crate::hir::{def_ok, ref_ok, Def, DefId, DefKind, HirMultiplicity, MultBound, NameRef, ResolutionState, SemanticModel};
use crate::interner::StringInterner;
use crate::resolve::names_interned;
use crate::span::Span;

verus! {

/// A diagnostic as it is stated: severity, message and labels (span, message, style).
pub type Report = (Severity, Seq<char>, Seq<(Span, Seq<char>, LabelStyle)>);

/// `d` is the diagnostic `r`, with no code, notes or suggestions.
pub open spec fn diag_is(d: Diagnostic, r: Report) -> bool {
    &&& d.severity == r.0
    &&& d.message@ == r.1
    &&& d.code is None
    &&& d.labels@.len() == r.2.len()
    &&& forall|k: int|
        0 <= k < r.2.len() ==> {
            &&& (#[trigger] d.labels@[k]).span == r.2[k].0
            &&& d.labels@[k].message@ == r.2[k].1
            &&& d.labels@[k].style == r.2[k].2
        }
    &&& d.notes@.len() == 0
    &&& d.suggestions@.len() == 0
}

/// `ds` are the diagnostics `rs`, one each, in order.
pub open spec fn diags_are(ds: Seq<Diagnostic>, rs: Seq<Report>) -> bool {
    &&& ds.len() == rs.len()
    &&& forall|k: int| 0 <= k < ds.len() ==> diag_is(#[trigger] ds[k], rs[k])
}

/// The name of a kind of definition, as messages print it.
pub open spec fn kind_name(k: DefKind) -> Seq<char> {
    match k {
        DefKind::Package => "Package"@,
        DefKind::Type => "Type"@,
        DefKind::Feature => "Feature"@,
        DefKind::Conjugation => "Conjugation"@,
    }
}

/// The decimal digit of `d`.
pub open spec fn digit_char(d: nat) -> char {
    if d == 0 {
        '0'
    } else if d == 1 {
        '1'
    } else if d == 2 {
        '2'
    } else if d == 3 {
        '3'
    } else if d == 4 {
        '4'
    } else if d == 5 {
        '5'
    } else if d == 6 {
        '6'
    } else if d == 7 {
        '7'
    } else if d == 8 {
        '8'
    } else {
        '9'
    }
}

/// The decimal text of `n`.
pub open spec fn decimal(n: nat) -> Seq<char>
    decreases n,
{
    if n < 10 {
        seq![digit_char(n)]
    } else {
        decimal(n / 10) + seq![digit_char(n % 10)]
    }
}

fn digit_text(d: u64) -> (s: &'static str)
    requires
        d < 10,
    ensures
        s@ == seq![digit_char(d as nat)],
{
    proof {
        reveal_strlit("0");
        reveal_strlit("1");
        reveal_strlit("2");
        reveal_strlit("3");
        reveal_strlit("4");
        reveal_strlit("5");
        reveal_strlit("6");
        reveal_strlit("7");
        reveal_strlit("8");
        reveal_strlit("9");
    }
    if d == 0 {
        assert("0"@ =~= seq!['0']);
        "0"
    } else if d == 1 {
        assert("1"@ =~= seq!['1']);
        "1"
    } else if d == 2 {
        assert("2"@ =~= seq!['2']);
        "2"
    } else if d == 3 {
        assert("3"@ =~= seq!['3']);
        "3"
    } else if d == 4 {
        assert("4"@ =~= seq!['4']);
        "4"
    } else if d == 5 {
        assert("5"@ =~= seq!['5']);
        "5"
    } else if d == 6 {
        assert("6"@ =~= seq!['6']);
        "6"
    } else if d == 7 {
        assert("7"@ =~= seq!['7']);
        "7"
    } else if d == 8 {
        assert("8"@ =~= seq!['8']);
        "8"
    } else {
        assert("9"@ =~= seq!['9']);
        "9"
    }
}

/// The decimal text of `n`.
pub fn decimal_text(n: u64) -> (s: String)
    ensures
        s@ == decimal(n as nat),
    decreases n,
{
    if n < 10 {
        String::from_str(digit_text(n))
    } else {
        let head = decimal_text(n / 10);
        head.concat(digit_text(n % 10))
    }
}

/// The name of a kind of definition.
pub fn kind_text(k: DefKind) -> (s: &'static str)
    ensures
        s@ == kind_name(k),
{
    match k {
        DefKind::Package => "Package",
        DefKind::Type => "Type",
        DefKind::Feature => "Feature",
        DefKind::Conjugation => "Conjugation",
    }
}


/// The text of definition `t`'s name.
pub open spec fn name_text(defs: Seq<Def>, names: Seq<Seq<char>>, t: int) -> Seq<char> {
    names[defs[t].name.0 as int]
}

/// An error with one primary label.
pub open spec fn error1(message: Seq<char>, span: Span, label: Seq<char>) -> Report {
    (Severity::Error, message, seq![(span, label, LabelStyle::Primary)])
}

/// A diagnostic with a primary and a secondary label.
pub open spec fn report2(
    severity: Severity,
    message: Seq<char>,
    span1: Span,
    label1: Seq<char>,
    span2: Span,
    label2: Seq<char>,
) -> Report {
    (severity, message, seq![(span1, label1, LabelStyle::Primary), (span2, label2, LabelStyle::Secondary)])
}

/// If `r` is resolved to a definition that is not a type: the error, its message
/// starting with `prefix`.
pub open spec fn not_a_type(defs: Seq<Def>, names: Seq<Seq<char>>, r: NameRef, prefix: Seq<char>) -> Seq<Report> {
    match r.resolution {
        ResolutionState::Resolved(t) => if defs[t.index() as int].kind != DefKind::Type {
            seq![
                error1(
                    prefix + "`"@ + name_text(defs, names, t.index() as int) + "` is a "@ + kind_name(
                        defs[t.index() as int].kind,
                    ) + ", not a type"@,
                    r.span,
                    "expected a type here"@,
                ),
            ]
        } else {
            Seq::empty()
        },
        _ => Seq::empty(),
    }
}

pub open spec fn opt_not_a_type(defs: Seq<Def>, names: Seq<Seq<char>>, r: Option<NameRef>, prefix: Seq<char>) -> Seq<Report> {
    match r {
        Some(x) => not_a_type(defs, names, x, prefix),
        None => Seq::empty(),
    }
}

/// The errors for the specializations `rs` that name something other than a type.
pub open spec fn specs_not_types(defs: Seq<Def>, names: Seq<Seq<char>>, rs: Seq<NameRef>) -> Seq<Report>
    decreases rs.len(),
{
    if rs.len() == 0 {
        Seq::empty()
    } else {
        specs_not_types(defs, names, rs.drop_last()) + not_a_type(defs, names, rs.last(), Seq::empty())
    }
}

/// If `r` is resolved to a type without features: the warning, its message starting
/// with `prefix`.
pub open spec fn no_features(defs: Seq<Def>, names: Seq<Seq<char>>, r: NameRef, prefix: Seq<char>) -> Seq<Report> {
    match r.resolution {
        ResolutionState::Resolved(t) => if crate::typeck::features_among(defs, defs[t.index() as int].children@).len() == 0 {
            seq![
                (
                    Severity::Warning,
                    prefix + "`"@ + name_text(defs, names, t.index() as int)
                        + "` has no features; conjugation has no effect"@,
                    seq![(r.span, "this type has no features to flip"@, LabelStyle::Primary)],
                ),
            ]
        } else {
            Seq::empty()
        },
        _ => Seq::empty(),
    }
}

/// The errors for features `own[a]` and `own[b]`, `a < b < bend`, that share a name.
pub open spec fn duplicate_row(defs: Seq<Def>, names: Seq<Seq<char>>, own: Seq<DefId>, a: int, bend: int) -> Seq<Report>
    decreases bend - a,
{
    if bend <= a + 1 {
        Seq::empty()
    } else {
        let b = bend - 1;
        duplicate_row(defs, names, own, a, b) + if defs[own[a].index() as int].name == defs[own[b].index() as int].name {
            seq![
                report2(
                    Severity::Error,
                    "duplicate feature `"@ + name_text(defs, names, own[a].index() as int) + "`"@,
                    defs[own[b].index() as int].span,
                    "duplicate definition"@,
                    defs[own[a].index() as int].span,
                    "first defined here"@,
                ),
            ]
        } else {
            Seq::empty()
        }
    }
}

/// The errors for every pair of features among `own` that share a name, the first of
/// the pair below `aend`.
pub open spec fn duplicates(defs: Seq<Def>, names: Seq<Seq<char>>, own: Seq<DefId>, aend: int) -> Seq<Report>
    decreases aend,
{
    if aend <= 0 {
        Seq::empty()
    } else {
        duplicates(defs, names, own, aend - 1) + duplicate_row(defs, names, own, aend - 1, own.len() as int)
    }
}

/// What validating type `i` reports: specializations and a conjugation that name no
/// type, a conjugated type without features, and features of the same name.
pub open spec fn type_reports(defs: Seq<Def>, names: Seq<Seq<char>>, i: int) -> Seq<Report> {
    let d = defs[i];
    let own = crate::typeck::features_among(defs, d.children@);
    specs_not_types(defs, names, d.specializations@) + conjugation_target_reports(defs, names, d.conjugation)
        + duplicates(defs, names, own, own.len() as int)
}

/// What the conjugation of a type reports: a target that is no type, and a target
/// without features.
pub open spec fn conjugation_target_reports(defs: Seq<Def>, names: Seq<Seq<char>>, c: Option<NameRef>) -> Seq<Report> {
    match c {
        Some(x) => not_a_type(defs, names, x, "conjugation target "@) + no_features(defs, names, x, "conjugation target "@),
        None => Seq::empty(),
    }
}

/// What validating conjugation declaration `i` reports: sides that name no type, a
/// type conjugating itself, and an original type without features.
pub open spec fn conjugation_reports(defs: Seq<Def>, names: Seq<Seq<char>>, i: int) -> Seq<Report> {
    let d = defs[i];
    match d.conjugation_decl {
        None => Seq::empty(),
        Some(p) => not_a_type(defs, names, p.0, "conjugated type "@) + not_a_type(defs, names, p.1, "original type "@)
            + self_conjugation(defs, names, p.0, p.1, d.span) + no_features(defs, names, p.1, "original type "@),
    }
}

/// Both sides resolved to the same type: the error, at `span`.
pub open spec fn self_conjugation(defs: Seq<Def>, names: Seq<Seq<char>>, c: NameRef, o: NameRef, span: Span) -> Seq<Report> {
    match (c.resolution, o.resolution) {
        (ResolutionState::Resolved(ct), ResolutionState::Resolved(ot)) => if ct.index() == ot.index() {
            seq![
                error1(
                    "type `"@ + name_text(defs, names, ct.index() as int) + "` cannot conjugate itself"@,
                    span,
                    "self-conjugation"@,
                ),
            ]
        } else {
            Seq::empty()
        },
        _ => Seq::empty(),
    }
}

/// If `r` is resolved to a definition that is not a feature: the error.
pub open spec fn not_a_feature(defs: Seq<Def>, names: Seq<Seq<char>>, r: Option<NameRef>) -> Seq<Report> {
    match r {
        Some(x) => match x.resolution {
            ResolutionState::Resolved(t) => if defs[t.index() as int].kind != DefKind::Feature {
                seq![
                    error1(
                        "feature conjugation target `"@ + name_text(defs, names, t.index() as int) + "` is a "@
                            + kind_name(defs[t.index() as int].kind) + ", not a feature"@,
                        x.span,
                        "expected a feature here"@,
                    ),
                ]
            } else {
                Seq::empty()
            },
            _ => Seq::empty(),
        },
        None => Seq::empty(),
    }
}

/// A multiplicity whose exact lower bound exceeds its exact upper bound is an error.
pub open spec fn bounds_report(m: Option<HirMultiplicity>) -> Seq<Report> {
    match m {
        Some(h) => match (h.lower, h.upper) {
            (MultBound::Exact(lo), MultBound::Exact(hi)) => if lo > hi {
                seq![
                    error1(
                        "multiplicity lower bound ("@ + decimal(lo as nat) + ") exceeds upper bound ("@ + decimal(
                            hi as nat,
                        ) + ")"@,
                        h.span,
                        "invalid multiplicity"@,
                    ),
                ]
            } else {
                Seq::empty()
            },
            _ => Seq::empty(),
        },
        None => Seq::empty(),
    }
}

/// What feature `i` redefining the inherited feature `o` reports: a narrower exact
/// lower bound is a warning; an upper bound widened to unbounded, or to a larger
/// exact bound, is an error.
pub open spec fn redefinition_reports(defs: Seq<Def>, names: Seq<Seq<char>>, i: int, o: int) -> Seq<Report> {
    let name = name_text(defs, names, i);
    match (defs[i].multiplicity, defs[o].multiplicity) {
        (Some(r), Some(om)) => narrowed_lower(name, r, om) + widened_upper(name, r, om),
        _ => Seq::empty(),
    }
}

/// A redefinition that raises an exact upper bound `ou` to a larger exact `ru` is
/// reported as an error naming both bounds; one that keeps or lowers it reports no error
/// at all (a narrower lower bound gives at most a warning).
pub proof fn lemma_widening_is_an_error(defs: Seq<Def>, names: Seq<Seq<char>>, i: int, o: int, ru: u64, ou: u64)
    requires
        0 <= i < defs.len(),
        0 <= o < defs.len(),
        defs[i].multiplicity matches Some(r) && r.upper == MultBound::Exact(ru),
        defs[o].multiplicity matches Some(om) && om.upper == MultBound::Exact(ou),
    ensures
        ru > ou ==> redefinition_reports(defs, names, i, o).contains(
            report2(
                Severity::Error,
                "redefined feature `"@ + name_text(defs, names, i) + "` widens upper multiplicity bound from "@
                    + decimal(ou as nat) + " to "@ + decimal(ru as nat),
                defs[i].multiplicity->0.span,
                "widens multiplicity"@,
                defs[o].multiplicity->0.span,
                "original multiplicity"@,
            ),
        ),
        ru <= ou ==> forall|k: int|
            0 <= k < redefinition_reports(defs, names, i, o).len() ==> (#[trigger] redefinition_reports(
                defs,
                names,
                i,
                o,
            )[k]).0 != Severity::Error,
{
    let r = defs[i].multiplicity->0;
    let om = defs[o].multiplicity->0;
    let name = name_text(defs, names, i);
    let lo = narrowed_lower(name, r, om);
    let up = widened_upper(name, r, om);
    let reps = redefinition_reports(defs, names, i, o);
    assert(reps == lo + up);
    assert(forall|k: int| 0 <= k < lo.len() ==> (#[trigger] lo[k]).0 == Severity::Warning);
    if ru > ou {
        let w = report2(
            Severity::Error,
            "redefined feature `"@ + name + "` widens upper multiplicity bound from "@ + decimal(ou as nat) + " to "@
                + decimal(ru as nat),
            r.span,
            "widens multiplicity"@,
            om.span,
            "original multiplicity"@,
        );
        assert(up == seq![w]);
        assert(reps[lo.len() as int] == w);
    } else {
        assert(up == Seq::<Report>::empty());
        assert forall|k: int| 0 <= k < reps.len() implies (#[trigger] reps[k]).0 != Severity::Error by {
            assert(reps[k] == lo[k]);
        }
    }
}

/// An exact lower bound `r` below the exact original `om`: the warning.
pub open spec fn narrowed_lower(name: Seq<char>, r: HirMultiplicity, om: HirMultiplicity) -> Seq<Report> {
    match (r.lower, om.lower) {
        (MultBound::Exact(rl), MultBound::Exact(ol)) => if rl < ol {
            seq![
                report2(
                    Severity::Warning,
                    "redefined feature `"@ + name + "` narrows lower multiplicity bound from "@ + decimal(ol as nat)
                        + " to "@ + decimal(rl as nat),
                    r.span,
                    "redefined here"@,
                    om.span,
                    "original multiplicity"@,
                ),
            ]
        } else {
            Seq::empty()
        },
        _ => Seq::empty(),
    }
}

/// An upper bound `r` wider than the exact original `om`: the error.
pub open spec fn widened_upper(name: Seq<char>, r: HirMultiplicity, om: HirMultiplicity) -> Seq<Report> {
    match (r.upper, om.upper) {
        (MultBound::Unbounded, MultBound::Exact(_)) => seq![
            report2(
                Severity::Error,
                "redefined feature `"@ + name + "` widens upper multiplicity bound to unbounded"@,
                r.span,
                "widens multiplicity"@,
                om.span,
                "original multiplicity"@,
            ),
        ],
        (MultBound::Exact(ru), MultBound::Exact(ou)) => if ru > ou {
            seq![
                report2(
                    Severity::Error,
                    "redefined feature `"@ + name + "` widens upper multiplicity bound from "@ + decimal(ou as nat)
                        + " to "@ + decimal(ru as nat),
                    r.span,
                    "widens multiplicity"@,
                    om.span,
                    "original multiplicity"@,
                ),
            ]
        } else {
            Seq::empty()
        },
        _ => Seq::empty(),
    }
}

/// What feature `i` reports against the inherited features `inh` of the same name.
pub open spec fn redefinitions(
    defs: Seq<Def>,
    names: Seq<Seq<char>>,
    i: int,
    inh: Seq<crate::hir::InheritedFeature>,
) -> Seq<Report>
    decreases inh.len(),
{
    if inh.len() == 0 {
        Seq::empty()
    } else {
        redefinitions(defs, names, i, inh.drop_last()) + if defs[inh.last().def_id.index() as int].name
            == defs[i].name {
            redefinition_reports(defs, names, i, inh.last().def_id.index() as int)
        } else {
            Seq::empty()
        }
    }
}

/// What validating feature `i` reports: a typing that names no type, a conjugation
/// that names no feature, inverted bounds, and its redefinitions of features that the
/// type around it inherits.
pub open spec fn feature_reports(defs: Seq<Def>, names: Seq<Seq<char>>, i: int) -> Seq<Report> {
    let d = defs[i];
    opt_not_a_type(defs, names, d.type_ref, "feature type "@) + not_a_feature(defs, names, d.conjugation)
        + bounds_report(d.multiplicity) + match d.parent {
        Some(p) => if defs[p.index() as int].kind == DefKind::Type {
            redefinitions(defs, names, i, defs[p.index() as int].inherited_features@)
        } else {
            Seq::empty()
        },
        None => Seq::empty(),
    }
}

/// What validating definition `i` reports, by its kind.
pub open spec fn def_validation(defs: Seq<Def>, names: Seq<Seq<char>>, i: int) -> Seq<Report> {
    match defs[i].kind {
        DefKind::Type => type_reports(defs, names, i),
        DefKind::Feature => feature_reports(defs, names, i),
        DefKind::Conjugation => conjugation_reports(defs, names, i),
        DefKind::Package => Seq::empty(),
    }
}

/// What validating the first `k` definitions reports, in order.
pub open spec fn validation_reports(defs: Seq<Def>, names: Seq<Seq<char>>, k: nat) -> Seq<Report>
    decreases k,
{
    if k == 0 {
        Seq::empty()
    } else {
        validation_reports(defs, names, (k - 1) as nat) + def_validation(defs, names, k - 1)
    }
}

/// `s2` extends `s0` by the diagnostics `r1` and then `r2`.
proof fn lemma_diags_concat(
    s0: Seq<Diagnostic>,
    s1: Seq<Diagnostic>,
    s2: Seq<Diagnostic>,
    r1: Seq<Report>,
    r2: Seq<Report>,
)
    requires
        s1.len() >= s0.len(),
        s1.subrange(0, s0.len() as int) == s0,
        diags_are(s1.subrange(s0.len() as int, s1.len() as int), r1),
        s2.len() >= s1.len(),
        s2.subrange(0, s1.len() as int) == s1,
        diags_are(s2.subrange(s1.len() as int, s2.len() as int), r2),
    ensures
        s2.len() >= s0.len(),
        s2.subrange(0, s0.len() as int) == s0,
        diags_are(s2.subrange(s0.len() as int, s2.len() as int), r1 + r2),
{
    let a = s1.subrange(s0.len() as int, s1.len() as int);
    let b = s2.subrange(s1.len() as int, s2.len() as int);
    let all = s2.subrange(s0.len() as int, s2.len() as int);
    assert(all =~= a + b);
    assert(s2.subrange(0, s0.len() as int) =~= s1.subrange(0, s0.len() as int));
    assert forall|k: int| 0 <= k < all.len() implies diag_is(#[trigger] all[k], (r1 + r2)[k]) by {
        if k < a.len() {
            assert(all[k] == a[k] && (r1 + r2)[k] == r1[k]);
        } else {
            assert(all[k] == b[k - a.len()] && (r1 + r2)[k] == r2[k - a.len()]);
        }
    }
}

/// The sink has not changed: nothing was added.
proof fn lemma_diags_none(s: Seq<Diagnostic>)
    ensures
        s.subrange(0, s.len() as int) == s,
        diags_are(s.subrange(s.len() as int, s.len() as int), Seq::empty()),
{
    assert(s.subrange(0, s.len() as int) =~= s);
    assert(s.subrange(s.len() as int, s.len() as int) =~= Seq::<Diagnostic>::empty());
}

/// Emitting `d`, which is the diagnostic `r`, adds exactly `r`.
fn emit_one(sink: &mut DiagnosticSink, d: Diagnostic, Ghost(r): Ghost<Report>)
    requires
        diag_is(d, r),
    ensures
        final(sink)@.len() >= old(sink)@.len(),
        final(sink)@.subrange(0, old(sink)@.len() as int) == old(sink)@,
        diags_are(final(sink)@.subrange(old(sink)@.len() as int, final(sink)@.len() as int), seq![r]),
{
    let ghost s0 = sink@;
    sink.emit(d);
    proof {
        assert(sink@.subrange(0, s0.len() as int) =~= s0);
        assert(sink@.subrange(s0.len() as int, sink@.len() as int) =~= seq![d]);
    }
}

/// An error with one primary label.
fn error_with_label(message: String, span: Span, label: &str) -> (d: Diagnostic)
    ensures
        diag_is(d, error1(message@, span, label@)),
{
    Diagnostic::error(message.as_str()).with_label(Label::primary(span, label))
}

/// A diagnostic of `severity` with a primary and a secondary label.
fn diag_with_labels(severity: Severity, message: String, span1: Span, label1: &str, span2: Span, label2: &str) -> (d: Diagnostic)
    requires
        severity == Severity::Error || severity == Severity::Warning,
    ensures
        diag_is(d, report2(severity, message@, span1, label1@, span2, label2@)),
{
    let d = if severity == Severity::Error {
        Diagnostic::error(message.as_str())
    } else {
        Diagnostic::warning(message.as_str())
    };
    d.with_label(Label::primary(span1, label1)).with_label(Label::secondary(span2, label2))
}


/// The common frame of a validation step: a well-formed model whose names are interned.
pub open spec fn ready(model: &SemanticModel, interner: &StringInterner) -> bool {
    &&& model.wf()
    &&& names_interned(model.defs@, interner@.len())
}

/// `new` extends `old` by the diagnostics `rs`.
pub open spec fn appended(old: Seq<Diagnostic>, new: Seq<Diagnostic>, rs: Seq<Report>) -> bool {
    &&& new.len() >= old.len()
    &&& new.subrange(0, old.len() as int) == old
    &&& diags_are(new.subrange(old.len() as int, new.len() as int), rs)
}

/// The text of definition `t`'s name.
fn name_of<'a>(model: &SemanticModel, interner: &'a StringInterner, t: DefId) -> (s: &'a str)
    requires
        ready(model, interner),
        t.index() < model.defs@.len(),
    ensures
        s@ == name_text(model.defs@, interner@, t.index() as int),
{
    proof {
        assert((model.defs@[t.index() as int].name.0 as int) < interner@.len());
    }
    interner.resolve(model.defs[t].name)
}

/// Reports `r` if it names something other than a type.
fn check_is_type(model: &SemanticModel, interner: &StringInterner, r: &NameRef, prefix: &str, sink: &mut DiagnosticSink)
    requires
        ready(model, interner),
        ref_ok(*r, model.defs@.len()),
    ensures
        appended(old(sink)@, final(sink)@, not_a_type(model.defs@, interner@, *r, prefix@)),
{
    match r.resolution {
        ResolutionState::Resolved(t) => {
            if model.defs[t].kind != DefKind::Type {
                let message = String::from_str(prefix).concat("`").concat(name_of(model, interner, t)).concat("` is a ").concat(
                    kind_text(model.defs[t].kind),
                ).concat(", not a type");
                let d = error_with_label(message, r.span, "expected a type here");
                emit_one(sink, d, Ghost(error1(message@, r.span, "expected a type here"@)));
            } else {
                proof {
                    lemma_diags_none(sink@);
                }
            }
        },
        _ => {
            proof {
                lemma_diags_none(sink@);
            }
        },
    }
}

/// Warns if `r` names a type without features.
fn check_has_features(model: &SemanticModel, interner: &StringInterner, r: &NameRef, prefix: &str, sink: &mut DiagnosticSink)
    requires
        ready(model, interner),
        ref_ok(*r, model.defs@.len()),
    ensures
        appended(old(sink)@, final(sink)@, no_features(model.defs@, interner@, *r, prefix@)),
{
    match r.resolution {
        ResolutionState::Resolved(t) => {
            let feats = crate::typeck::feature_children(model, t);
            if feats.len() == 0 {
                let message = String::from_str(prefix).concat("`").concat(name_of(model, interner, t)).concat(
                    "` has no features; conjugation has no effect",
                );
                let d = Diagnostic::warning(message.as_str()).with_label(
                    Label::primary(r.span, "this type has no features to flip"),
                );
                emit_one(
                    sink,
                    d,
                    Ghost(
                        (
                            Severity::Warning,
                            message@,
                            seq![(r.span, "this type has no features to flip"@, LabelStyle::Primary)],
                        ),
                    ),
                );
            } else {
                proof {
                    lemma_diags_none(sink@);
                }
            }
        },
        _ => {
            proof {
                lemma_diags_none(sink@);
            }
        },
    }
}

/// Reports every pair of features among `own` that share a name: the later one is the
/// duplicate, the earlier one the first definition.
fn check_duplicates(model: &SemanticModel, interner: &StringInterner, own: &Vec<DefId>, sink: &mut DiagnosticSink)
    requires
        ready(model, interner),
        forall|k: int| 0 <= k < own@.len() ==> (#[trigger] own@[k]).index() < model.defs@.len(),
    ensures
        appended(old(sink)@, final(sink)@, duplicates(model.defs@, interner@, own@, own@.len() as int)),
{
    let ghost defs = model.defs@;
    let ghost names = interner@;
    let ghost s0 = sink@;
    proof {
        lemma_diags_none(sink@);
    }
    let mut a: usize = 0;
    while a < own.len()
        invariant
            ready(model, interner),
            defs == model.defs@,
            names == interner@,
            forall|k: int| 0 <= k < own@.len() ==> (#[trigger] own@[k]).index() < defs.len(),
            a <= own@.len(),
            appended(s0, sink@, duplicates(defs, names, own@, a as int)),
        decreases own@.len() - a,
    {
        let ghost s1 = sink@;
        let mut b: usize = a + 1;
        proof {
            lemma_diags_none(sink@);
        }
        while b < own.len()
            invariant
                ready(model, interner),
                defs == model.defs@,
                names == interner@,
                forall|k: int| 0 <= k < own@.len() ==> (#[trigger] own@[k]).index() < defs.len(),
                a < own@.len(),
                a + 1 <= b <= own@.len(),
                appended(s1, sink@, duplicate_row(defs, names, own@, a as int, b as int)),
            decreases own@.len() - b,
        {
            let fa = own[a];
            let fb = own[b];
            let ghost s2 = sink@;
            if model.defs[fa].name == model.defs[fb].name {
                let message = String::from_str("duplicate feature `").concat(name_of(model, interner, fa)).concat("`");
                let d = diag_with_labels(
                    Severity::Error,
                    message,
                    model.defs[fb].span,
                    "duplicate definition",
                    model.defs[fa].span,
                    "first defined here",
                );
                emit_one(
                    sink,
                    d,
                    Ghost(
                        report2(
                            Severity::Error,
                            message@,
                            defs[fb.index() as int].span,
                            "duplicate definition"@,
                            defs[fa.index() as int].span,
                            "first defined here"@,
                        ),
                    ),
                );
                proof {
                    lemma_diags_concat(s1, s2, sink@, duplicate_row(defs, names, own@, a as int, b as int), seq![
                        report2(
                            Severity::Error,
                            message@,
                            defs[fb.index() as int].span,
                            "duplicate definition"@,
                            defs[fa.index() as int].span,
                            "first defined here"@,
                        ),
                    ]);
                }
            } else {
                proof {
                    assert(duplicate_row(defs, names, own@, a as int, b + 1) =~= duplicate_row(defs, names, own@, a as int, b as int));
                }
            }
            b = b + 1;
        }
        proof {
            lemma_diags_concat(s0, s1, sink@, duplicates(defs, names, own@, a as int), duplicate_row(defs, names, own@, a as int, own@.len() as int));
        }
        a = a + 1;
    }
}


/// Validate a type definition: its specializations and conjugation must name types, a
/// conjugated type without features draws a warning, and no two of its own features
/// may share a name.
pub fn validate_type(model: &SemanticModel, interner: &StringInterner, def_id: DefId, sink: &mut DiagnosticSink)
    requires
        ready(model, interner),
        def_id.index() < model.defs@.len(),
    ensures
        appended(old(sink)@, final(sink)@, type_reports(model.defs@, interner@, def_id.index() as int)),
{
    let ghost defs = model.defs@;
    let ghost names = interner@;
    let ghost i = def_id.index() as int;
    let ghost s0 = sink@;
    let def = &model.defs[def_id];
    proof {
        assert(def_ok(defs[i], i, defs.len()));
        lemma_diags_none(sink@);
        assert(def.specializations@.subrange(0, 0) =~= Seq::<NameRef>::empty());
    }
    let mut k: usize = 0;
    while k < def.specializations.len()
        invariant
            ready(model, interner),
            defs == model.defs@,
            names == interner@,
            *def == defs[i],
            def_ok(defs[i], i, defs.len()),
            k <= def.specializations@.len(),
            appended(s0, sink@, specs_not_types(defs, names, def.specializations@.subrange(0, k as int))),
        decreases def.specializations@.len() - k,
    {
        let ghost s1 = sink@;
        proof {
            assert(ref_ok(def.specializations@[k as int], defs.len()));
        }
        check_is_type(model, interner, &def.specializations[k], "", sink);
        proof {
            let sub = def.specializations@.subrange(0, k + 1);
            assert(sub.drop_last() =~= def.specializations@.subrange(0, k as int));
            assert(sub.last() == def.specializations@[k as int]);
            reveal_strlit("");
            assert(""@ =~= Seq::<char>::empty());
            lemma_diags_concat(s0, s1, sink@, specs_not_types(defs, names, def.specializations@.subrange(0, k as int)), not_a_type(defs, names, def.specializations@[k as int], Seq::empty()));
        }
        k = k + 1;
    }
    proof {
        assert(def.specializations@.subrange(0, k as int) =~= def.specializations@);
    }
    let ghost acc1 = specs_not_types(defs, names, def.specializations@);
    let ghost s1 = sink@;
    match &def.conjugation {
        Some(conj) => {
            check_is_type(model, interner, conj, "conjugation target ", sink);
            proof {
                lemma_diags_concat(s0, s1, sink@, acc1, not_a_type(defs, names, *conj, "conjugation target "@));
            }
            let ghost s2 = sink@;
            check_has_features(model, interner, conj, "conjugation target ", sink);
            proof {
                lemma_diags_concat(s0, s2, sink@, acc1 + not_a_type(defs, names, *conj, "conjugation target "@), no_features(defs, names, *conj, "conjugation target "@));
                assert(acc1 + not_a_type(defs, names, *conj, "conjugation target "@) + no_features(defs, names, *conj, "conjugation target "@)
                    =~= acc1 + conjugation_target_reports(defs, names, def.conjugation));
            }
        },
        None => {
            proof {
                assert(acc1 + conjugation_target_reports(defs, names, def.conjugation) =~= acc1);
            }
        },
    }
    let ghost acc2 = acc1 + conjugation_target_reports(defs, names, def.conjugation);
    let own = crate::typeck::feature_children(model, def_id);
    proof {
        crate::typeck::lemma_features_among_ids(defs, defs[i].children@, defs.len());
    }
    let ghost s3 = sink@;
    check_duplicates(model, interner, &own, sink);
    proof {
        lemma_diags_concat(s0, s3, sink@, acc2, duplicates(defs, names, own@, own@.len() as int));
    }
}

/// Validate a named conjugation declaration: both sides must name types, a type may
/// not conjugate itself, and an original type without features draws a warning.
pub fn validate_conjugation_decl(model: &SemanticModel, interner: &StringInterner, def_id: DefId, sink: &mut DiagnosticSink)
    requires
        ready(model, interner),
        def_id.index() < model.defs@.len(),
    ensures
        appended(old(sink)@, final(sink)@, conjugation_reports(model.defs@, interner@, def_id.index() as int)),
{
    let ghost defs = model.defs@;
    let ghost names = interner@;
    let ghost i = def_id.index() as int;
    let ghost s0 = sink@;
    let def = &model.defs[def_id];
    proof {
        assert(def_ok(defs[i], i, defs.len()));
    }
    let (conj_ref, orig_ref) = match &def.conjugation_decl {
        Some(pair) => (&pair.0, &pair.1),
        None => {
            proof {
                lemma_diags_none(sink@);
            }
            return;
        },
    };
    check_is_type(model, interner, conj_ref, "conjugated type ", sink);
    let ghost s1 = sink@;
    let ghost r1 = not_a_type(defs, names, *conj_ref, "conjugated type "@);
    check_is_type(model, interner, orig_ref, "original type ", sink);
    let ghost r2 = not_a_type(defs, names, *orig_ref, "original type "@);
    proof {
        lemma_diags_concat(s0, s1, sink@, r1, r2);
    }
    let ghost s2 = sink@;
    let ghost r3 = self_conjugation(defs, names, *conj_ref, *orig_ref, def.span);
    match (conj_ref.resolved_def(), orig_ref.resolved_def()) {
        (Some(conj_id), Some(orig_id)) => {
            if conj_id.raw() == orig_id.raw() {
                let message = String::from_str("type `").concat(name_of(model, interner, conj_id)).concat("` cannot conjugate itself");
                let d = error_with_label(message, def.span, "self-conjugation");
                emit_one(sink, d, Ghost(error1(message@, def.span, "self-conjugation"@)));
            } else {
                proof {
                    lemma_diags_none(sink@);
                }
            }
        },
        _ => {
            proof {
                lemma_diags_none(sink@);
            }
        },
    }
    proof {
        lemma_diags_concat(s0, s2, sink@, r1 + r2, r3);
    }
    let ghost s3 = sink@;
    check_has_features(model, interner, orig_ref, "original type ", sink);
    proof {
        lemma_diags_concat(s0, s3, sink@, r1 + r2 + r3, no_features(defs, names, *orig_ref, "original type "@));
    }
}

/// Validate that a redefined feature doesn't widen multiplicity.
pub fn validate_redefinition_multiplicity(
    model: &SemanticModel,
    interner: &StringInterner,
    redefining: DefId,
    inherited: DefId,
    sink: &mut DiagnosticSink,
)
    requires
        ready(model, interner),
        redefining.index() < model.defs@.len(),
        inherited.index() < model.defs@.len(),
    ensures
        appended(
            old(sink)@,
            final(sink)@,
            redefinition_reports(model.defs@, interner@, redefining.index() as int, inherited.index() as int),
        ),
{
    let ghost defs = model.defs@;
    let ghost names = interner@;
    let ghost s0 = sink@;
    let redef = &model.defs[redefining];
    let orig = &model.defs[inherited];
    let (redef_mult, orig_mult) = match (&redef.multiplicity, &orig.multiplicity) {
        (Some(r), Some(o)) => (r, o),
        _ => {
            proof {
                lemma_diags_none(sink@);
            }
            return;
        },
    };
    let ghost name = name_text(defs, names, redefining.index() as int);
    let ghost r1 = narrowed_lower(name, *redef_mult, *orig_mult);
    match (&redef_mult.lower, &orig_mult.lower) {
        (MultBound::Exact(redef_lo), MultBound::Exact(orig_lo)) => {
            if *redef_lo < *orig_lo {
                let message = String::from_str("redefined feature `").concat(name_of(model, interner, redefining)).concat(
                    "` narrows lower multiplicity bound from ",
                ).concat(decimal_text(*orig_lo).as_str()).concat(" to ").concat(decimal_text(*redef_lo).as_str());
                let d = diag_with_labels(
                    Severity::Warning,
                    message,
                    redef_mult.span,
                    "redefined here",
                    orig_mult.span,
                    "original multiplicity",
                );
                emit_one(
                    sink,
                    d,
                    Ghost(
                        report2(
                            Severity::Warning,
                            message@,
                            redef_mult.span,
                            "redefined here"@,
                            orig_mult.span,
                            "original multiplicity"@,
                        ),
                    ),
                );
            } else {
                proof {
                    lemma_diags_none(sink@);
                }
            }
        },
        _ => {
            proof {
                lemma_diags_none(sink@);
            }
        },
    }
    let ghost s1 = sink@;
    let ghost r2 = widened_upper(name, *redef_mult, *orig_mult);
    match (&redef_mult.upper, &orig_mult.upper) {
        (MultBound::Unbounded, MultBound::Exact(_)) => {
            let message = String::from_str("redefined feature `").concat(name_of(model, interner, redefining)).concat(
                "` widens upper multiplicity bound to unbounded",
            );
            let d = diag_with_labels(
                Severity::Error,
                message,
                redef_mult.span,
                "widens multiplicity",
                orig_mult.span,
                "original multiplicity",
            );
            emit_one(
                sink,
                d,
                Ghost(
                    report2(
                        Severity::Error,
                        message@,
                        redef_mult.span,
                        "widens multiplicity"@,
                        orig_mult.span,
                        "original multiplicity"@,
                    ),
                ),
            );
        },
        (MultBound::Exact(r), MultBound::Exact(o)) => {
            if *r > *o {
                let message = String::from_str("redefined feature `").concat(name_of(model, interner, redefining)).concat(
                    "` widens upper multiplicity bound from ",
                ).concat(decimal_text(*o).as_str()).concat(" to ").concat(decimal_text(*r).as_str());
                let d = diag_with_labels(
                    Severity::Error,
                    message,
                    redef_mult.span,
                    "widens multiplicity",
                    orig_mult.span,
                    "original multiplicity",
                );
                emit_one(
                    sink,
                    d,
                    Ghost(
                        report2(
                            Severity::Error,
                            message@,
                            redef_mult.span,
                            "widens multiplicity"@,
                            orig_mult.span,
                            "original multiplicity"@,
                        ),
                    ),
                );
            } else {
                proof {
                    lemma_diags_none(sink@);
                }
            }
        },
        _ => {
            proof {
                lemma_diags_none(sink@);
            }
        },
    }
    proof {
        lemma_diags_concat(s0, s1, sink@, r1, r2);
    }
}


/// Validate a feature definition: its typing must name a type, its conjugation a
/// feature, an exact lower bound may not exceed an exact upper bound, and each feature
/// of the same name that the type around it inherits is checked against it.
pub fn validate_feature(model: &SemanticModel, interner: &StringInterner, def_id: DefId, sink: &mut DiagnosticSink)
    requires
        ready(model, interner),
        def_id.index() < model.defs@.len(),
    ensures
        appended(old(sink)@, final(sink)@, feature_reports(model.defs@, interner@, def_id.index() as int)),
{
    let ghost defs = model.defs@;
    let ghost names = interner@;
    let ghost i = def_id.index() as int;
    let ghost s0 = sink@;
    let def = &model.defs[def_id];
    proof {
        assert(def_ok(defs[i], i, defs.len()));
    }
    match &def.type_ref {
        Some(type_ref) => {
            check_is_type(model, interner, type_ref, "feature type ", sink);
        },
        None => {
            proof {
                lemma_diags_none(sink@);
            }
        },
    }
    let ghost r1 = opt_not_a_type(defs, names, def.type_ref, "feature type "@);
    let ghost s1 = sink@;
    match &def.conjugation {
        Some(conj) => match conj.resolution {
            ResolutionState::Resolved(target_id) => {
                if model.defs[target_id].kind != DefKind::Feature {
                    let message = String::from_str("feature conjugation target `").concat(name_of(model, interner, target_id)).concat(
                        "` is a ",
                    ).concat(kind_text(model.defs[target_id].kind)).concat(", not a feature");
                    let d = error_with_label(message, conj.span, "expected a feature here");
                    emit_one(sink, d, Ghost(error1(message@, conj.span, "expected a feature here"@)));
                } else {
                    proof {
                        lemma_diags_none(sink@);
                    }
                }
            },
            _ => {
                proof {
                    lemma_diags_none(sink@);
                }
            },
        },
        None => {
            proof {
                lemma_diags_none(sink@);
            }
        },
    }
    let ghost r2 = not_a_feature(defs, names, def.conjugation);
    proof {
        lemma_diags_concat(s0, s1, sink@, r1, r2);
    }
    let ghost s2 = sink@;
    match &def.multiplicity {
        Some(mult) => match (&mult.lower, &mult.upper) {
            (MultBound::Exact(lower), MultBound::Exact(upper)) => {
                if *lower > *upper {
                    let message = String::from_str("multiplicity lower bound (").concat(decimal_text(*lower).as_str()).concat(
                        ") exceeds upper bound (",
                    ).concat(decimal_text(*upper).as_str()).concat(")");
                    let d = error_with_label(message, mult.span, "invalid multiplicity");
                    emit_one(sink, d, Ghost(error1(message@, mult.span, "invalid multiplicity"@)));
                } else {
                    proof {
                        lemma_diags_none(sink@);
                    }
                }
            },
            _ => {
                proof {
                    lemma_diags_none(sink@);
                }
            },
        },
        None => {
            proof {
                lemma_diags_none(sink@);
            }
        },
    }
    let ghost r3 = bounds_report(def.multiplicity);
    proof {
        lemma_diags_concat(s0, s2, sink@, r1 + r2, r3);
    }
    let ghost s3 = sink@;
    let ghost r4 = match def.parent {
        Some(p) => if defs[p.index() as int].kind == DefKind::Type {
            redefinitions(defs, names, i, defs[p.index() as int].inherited_features@)
        } else {
            Seq::<Report>::empty()
        },
        None => Seq::<Report>::empty(),
    };
    match def.parent {
        Some(parent_id) => {
            proof {
                assert(def_ok(defs[parent_id.index() as int], parent_id.index() as int, defs.len()));
            }
            if model.defs[parent_id].kind == DefKind::Type {
                let inh = &model.defs[parent_id].inherited_features;
                let ghost ps = inh@;
                proof {
                    lemma_diags_none(sink@);
                    assert(ps.subrange(0, 0) =~= Seq::<crate::hir::InheritedFeature>::empty());
                }
                let mut k: usize = 0;
                while k < inh.len()
                    invariant
                        ready(model, interner),
                        defs == model.defs@,
                        names == interner@,
                        ps == inh@,
                        i == def_id.index(),
                        0 <= i < defs.len(),
                        forall|q: int| 0 <= q < ps.len() ==> (#[trigger] ps[q]).def_id.index() < defs.len(),
                        k <= ps.len(),
                        appended(s3, sink@, redefinitions(defs, names, i, ps.subrange(0, k as int))),
                    decreases ps.len() - k,
                {
                    let inherited_id = inh[k].def_id;
                    let ghost s4 = sink@;
                    proof {
                        let sub = ps.subrange(0, k + 1);
                        assert(sub.drop_last() =~= ps.subrange(0, k as int));
                        assert(sub.last() == ps[k as int]);
                    }
                    if model.defs[inherited_id].name == model.defs[def_id].name {
                        validate_redefinition_multiplicity(model, interner, def_id, inherited_id, sink);
                        proof {
                            lemma_diags_concat(
                                s3,
                                s4,
                                sink@,
                                redefinitions(defs, names, i, ps.subrange(0, k as int)),
                                redefinition_reports(defs, names, i, inherited_id.index() as int),
                            );
                        }
                    } else {
                        proof {
                            assert(redefinitions(defs, names, i, ps.subrange(0, k + 1)) =~= redefinitions(
                                defs,
                                names,
                                i,
                                ps.subrange(0, k as int),
                            ));
                        }
                    }
                    k = k + 1;
                }
                proof {
                    assert(ps.subrange(0, k as int) =~= ps);
                }
            } else {
                proof {
                    lemma_diags_none(sink@);
                }
            }
        },
        None => {
            proof {
                lemma_diags_none(sink@);
            }
        },
    }
    proof {
        lemma_diags_concat(s0, s3, sink@, r1 + r2 + r3, r4);
    }
}

/// Run semantic validation on a fully resolved model: each definition in order, by its
/// kind. Returns `true` if validation added the first error to the sink.
pub fn validate(model: &SemanticModel, interner: &StringInterner, sink: &mut DiagnosticSink) -> (r: bool)
    requires
        model.wf(),
        names_interned(model.defs@, interner@.len()),
    ensures
        appended(old(sink)@, final(sink)@, validation_reports(model.defs@, interner@, model.defs@.len())),
        r == (crate::diagnostic::has_error(final(sink)@) && !crate::diagnostic::has_error(old(sink)@)),
{
    let ghost defs = model.defs@;
    let ghost names = interner@;
    let ghost s0 = sink@;
    let initial_errors = sink.has_errors();
    let n = model.defs.len();
    proof {
        lemma_diags_none(sink@);
    }
    let mut i: usize = 0;
    while i < n
        invariant
            ready(model, interner),
            defs == model.defs@,
            names == interner@,
            n == defs.len(),
            i <= n,
            appended(s0, sink@, validation_reports(defs, names, i as nat)),
        decreases n - i,
    {
        let id = DefId::from_raw(i as u32);
        let ghost s1 = sink@;
        match model.defs[id].kind {
            DefKind::Type => {
                validate_type(model, interner, id, sink);
            },
            DefKind::Feature => {
                validate_feature(model, interner, id, sink);
            },
            DefKind::Conjugation => {
                validate_conjugation_decl(model, interner, id, sink);
            },
            DefKind::Package => {
                proof {
                    lemma_diags_none(sink@);
                }
            },
        }
        proof {
            lemma_diags_concat(s0, s1, sink@, validation_reports(defs, names, i as nat), def_validation(defs, names, i as int));
        }
        i = i + 1;
    }
    sink.has_errors() && !initial_errors
}

} // verus!
