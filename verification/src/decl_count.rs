//! How many definitions the declarations of a parse make: one for each package, type
//! and conjugation declaration, counted through the bodies that hold them, and one for
//! each feature, two where a conjugated typing brings an anonymous type with it.
use vstd::prelude::*;
use crate::ast::{FeatureDecl, Member, PackageDecl, TypeDecl, TypeExpr};
use crate::parser::ParseResult;

verus! {

/// How many definitions feature `f` makes.
pub open spec fn feature_weight(f: FeatureDecl) -> nat {
    match f.type_ref {
        Some(TypeExpr::Conjugated(_, _)) => 2,
        _ => 1,
    }
}

/// How many definitions type `j` makes, with its body; only types made before it count.
pub open spec fn type_weight(ts: Seq<TypeDecl>, fs: Seq<FeatureDecl>, j: nat) -> nat
    decreases j, 1nat, 0nat,
{
    if j < ts.len() {
        1 + type_body_weight(ts, fs, ts[j as int].members@, j)
    } else {
        0
    }
}

/// How many definitions the members `ms` of type `j` make.
pub open spec fn type_body_weight(ts: Seq<TypeDecl>, fs: Seq<FeatureDecl>, ms: Seq<Member>, j: nat) -> nat
    decreases j, 0nat, ms.len(),
{
    if ms.len() == 0 {
        0
    } else {
        type_body_weight(ts, fs, ms.drop_last(), j) + match ms.last() {
            Member::Type(t) => if t.index() < j {
                type_weight(ts, fs, t.index())
            } else {
                0
            },
            Member::Feature(f) => feature_weight(fs[f.index() as int]),
            Member::Conjugation(_) => 1,
            Member::Package(_) => 0,
        }
    }
}

/// How many definitions package `i` makes, with its body; only packages made before
/// it count.
pub open spec fn package_weight(ps: Seq<PackageDecl>, ts: Seq<TypeDecl>, fs: Seq<FeatureDecl>, i: nat) -> nat
    decreases i, 1nat, 0nat,
{
    if i < ps.len() {
        1 + package_body_weight(ps, ts, fs, ps[i as int].members@, i)
    } else {
        0
    }
}

/// How many definitions the members `ms` of package `i` make.
pub open spec fn package_body_weight(
    ps: Seq<PackageDecl>,
    ts: Seq<TypeDecl>,
    fs: Seq<FeatureDecl>,
    ms: Seq<Member>,
    i: nat,
) -> nat
    decreases i, 0nat, ms.len(),
{
    if ms.len() == 0 {
        0
    } else {
        package_body_weight(ps, ts, fs, ms.drop_last(), i) + match ms.last() {
            Member::Package(q) => if q.index() < i {
                package_weight(ps, ts, fs, q.index())
            } else {
                0
            },
            Member::Type(t) => type_weight(ts, fs, t.index()),
            Member::Feature(f) => feature_weight(fs[f.index() as int]),
            Member::Conjugation(_) => 1,
        }
    }
}

/// How many definitions member `m` makes.
pub open spec fn member_weight(ps: Seq<PackageDecl>, ts: Seq<TypeDecl>, fs: Seq<FeatureDecl>, m: Member) -> nat {
    match m {
        Member::Package(q) => package_weight(ps, ts, fs, q.index()),
        Member::Type(t) => type_weight(ts, fs, t.index()),
        Member::Feature(f) => feature_weight(fs[f.index() as int]),
        Member::Conjugation(_) => 1,
    }
}

/// How many definitions the members `ms` make.
pub open spec fn members_weight(ps: Seq<PackageDecl>, ts: Seq<TypeDecl>, fs: Seq<FeatureDecl>, ms: Seq<Member>) -> nat
    decreases ms.len(),
{
    if ms.len() == 0 {
        0
    } else {
        members_weight(ps, ts, fs, ms.drop_last()) + member_weight(ps, ts, fs, ms.last())
    }
}

/// How many definitions the packages `qs` make.
pub open spec fn packages_weight(
    ps: Seq<PackageDecl>,
    ts: Seq<TypeDecl>,
    fs: Seq<FeatureDecl>,
    qs: Seq<crate::ast::PackageId>,
) -> nat
    decreases qs.len(),
{
    if qs.len() == 0 {
        0
    } else {
        packages_weight(ps, ts, fs, qs.drop_last()) + package_weight(ps, ts, fs, qs.last().index())
    }
}

/// How many definitions the declarations of `r` make, from its top level down.
pub open spec fn decl_count(r: ParseResult) -> nat {
    packages_weight(r.packages@, r.types@, r.features@, r.source_file.packages@) + members_weight(
        r.packages@,
        r.types@,
        r.features@,
        r.source_file.members@,
    )
}

/// Every member of a package or type points into the arenas, a package holding only
/// packages made before it and a type only types made before it and no package.
pub open spec fn arenas_closed(ps: Seq<PackageDecl>, ts: Seq<TypeDecl>, fs: Seq<FeatureDecl>) -> bool {
    &&& forall|i: int, k: int|
        0 <= i < ps.len() && 0 <= k < ps[i].members@.len() ==> match #[trigger] ps[i].members@[k] {
            Member::Package(q) => q.index() < i,
            Member::Type(t) => t.index() < ts.len(),
            Member::Feature(f) => f.index() < fs.len(),
            Member::Conjugation(_) => true,
        }
    &&& forall|j: int, k: int|
        0 <= j < ts.len() && 0 <= k < ts[j].members@.len() ==> match #[trigger] ts[j].members@[k] {
            Member::Type(t) => t.index() < j,
            Member::Feature(f) => f.index() < fs.len(),
            Member::Package(_) => false,
            Member::Conjugation(_) => true,
        }
}

/// `a` is a prefix of `b`.
pub open spec fn prefix_of<T>(a: Seq<T>, b: Seq<T>) -> bool {
    a.len() <= b.len() && b.subrange(0, a.len() as int) == a
}

/// Member `m` points into the arenas.
pub open spec fn member_in(m: Member, ps: Seq<PackageDecl>, ts: Seq<TypeDecl>, fs: Seq<FeatureDecl>) -> bool {
    match m {
        Member::Package(q) => q.index() < ps.len(),
        Member::Type(t) => t.index() < ts.len(),
        Member::Feature(f) => f.index() < fs.len(),
        Member::Conjugation(_) => true,
    }
}

proof fn lemma_type_body_is_list(
    ps: Seq<PackageDecl>,
    ts: Seq<TypeDecl>,
    fs: Seq<FeatureDecl>,
    ms: Seq<Member>,
    j: nat,
)
    requires
        forall|k: int|
            0 <= k < ms.len() ==> match #[trigger] ms[k] {
                Member::Type(t) => t.index() < j,
                Member::Package(_) => false,
                _ => true,
            },
    ensures
        type_body_weight(ts, fs, ms, j) == members_weight(ps, ts, fs, ms),
    decreases ms.len(),
{
    if ms.len() > 0 {
        assert forall|k: int| 0 <= k < ms.drop_last().len() implies match #[trigger] ms.drop_last()[k] {
            Member::Type(t) => t.index() < j,
            Member::Package(_) => false,
            _ => true,
        } by {
            assert(ms.drop_last()[k] == ms[k]);
        }
        lemma_type_body_is_list(ps, ts, fs, ms.drop_last(), j);
        assert(ms.last() == ms[ms.len() - 1]);
    }
}

proof fn lemma_package_body_is_list(
    ps: Seq<PackageDecl>,
    ts: Seq<TypeDecl>,
    fs: Seq<FeatureDecl>,
    ms: Seq<Member>,
    i: nat,
)
    requires
        forall|k: int| 0 <= k < ms.len() ==> (#[trigger] ms[k] matches Member::Package(q) ==> q.index() < i),
    ensures
        package_body_weight(ps, ts, fs, ms, i) == members_weight(ps, ts, fs, ms),
    decreases ms.len(),
{
    if ms.len() > 0 {
        assert forall|k: int| 0 <= k < ms.drop_last().len() implies (#[trigger] ms.drop_last()[k] matches Member::Package(
            q,
        ) ==> q.index() < i) by {
            assert(ms.drop_last()[k] == ms[k]);
        }
        lemma_package_body_is_list(ps, ts, fs, ms.drop_last(), i);
        assert(ms.last() == ms[ms.len() - 1]);
    }
}

/// A type makes itself and what its members make.
pub proof fn lemma_type_weight_unfold(ps: Seq<PackageDecl>, ts: Seq<TypeDecl>, fs: Seq<FeatureDecl>, j: nat)
    requires
        arenas_closed(ps, ts, fs),
        j < ts.len(),
    ensures
        type_weight(ts, fs, j) == 1 + members_weight(ps, ts, fs, ts[j as int].members@),
{
    let ms = ts[j as int].members@;
    assert forall|k: int| 0 <= k < ms.len() implies match #[trigger] ms[k] {
        Member::Type(t) => t.index() < j,
        Member::Package(_) => false,
        _ => true,
    } by {
        assert(ts[j as int].members@[k] == ms[k]);
    }
    lemma_type_body_is_list(ps, ts, fs, ms, j);
}

/// A package makes itself and what its members make.
pub proof fn lemma_package_weight_unfold(ps: Seq<PackageDecl>, ts: Seq<TypeDecl>, fs: Seq<FeatureDecl>, i: nat)
    requires
        arenas_closed(ps, ts, fs),
        i < ps.len(),
    ensures
        package_weight(ps, ts, fs, i) == 1 + members_weight(ps, ts, fs, ps[i as int].members@),
{
    let ms = ps[i as int].members@;
    assert forall|k: int| 0 <= k < ms.len() implies (#[trigger] ms[k] matches Member::Package(q) ==> q.index() < i) by {
        assert(ps[i as int].members@[k] == ms[k]);
    }
    lemma_package_body_is_list(ps, ts, fs, ms, i);
}

proof fn lemma_type_weight_stable(
    ts: Seq<TypeDecl>,
    fs: Seq<FeatureDecl>,
    ts2: Seq<TypeDecl>,
    fs2: Seq<FeatureDecl>,
    ps: Seq<PackageDecl>,
    j: nat,
)
    requires
        arenas_closed(ps, ts, fs),
        prefix_of(ts, ts2),
        prefix_of(fs, fs2),
        j < ts.len(),
    ensures
        type_weight(ts2, fs2, j) == type_weight(ts, fs, j),
    decreases j, 1nat, 0nat,
{
    assert(ts2[j as int] == ts2.subrange(0, ts.len() as int)[j as int]);
    let ms = ts[j as int].members@;
    lemma_type_body_stable(ts, fs, ts2, fs2, ps, ms, j);
}

proof fn lemma_type_body_stable(
    ts: Seq<TypeDecl>,
    fs: Seq<FeatureDecl>,
    ts2: Seq<TypeDecl>,
    fs2: Seq<FeatureDecl>,
    ps: Seq<PackageDecl>,
    ms: Seq<Member>,
    j: nat,
)
    requires
        arenas_closed(ps, ts, fs),
        prefix_of(ts, ts2),
        prefix_of(fs, fs2),
        j < ts.len(),
        forall|k: int| 0 <= k < ms.len() ==> member_in(#[trigger] ms[k], ps, ts, fs),
    ensures
        type_body_weight(ts2, fs2, ms, j) == type_body_weight(ts, fs, ms, j),
    decreases j, 0nat, ms.len(),
{
    if ms.len() > 0 {
        assert forall|k: int| 0 <= k < ms.drop_last().len() implies member_in(#[trigger] ms.drop_last()[k], ps, ts, fs) by {
            assert(ms.drop_last()[k] == ms[k]);
        }
        lemma_type_body_stable(ts, fs, ts2, fs2, ps, ms.drop_last(), j);
        let m = ms.last();
        assert(member_in(ms[ms.len() - 1], ps, ts, fs));
        match m {
            Member::Type(t) => {
                if t.index() < j {
                    lemma_type_weight_stable(ts, fs, ts2, fs2, ps, t.index());
                }
            },
            Member::Feature(f) => {
                assert(fs2[f.index() as int] == fs2.subrange(0, fs.len() as int)[f.index() as int]);
            },
            _ => {},
        }
    }
}

proof fn lemma_package_weight_stable(
    ps: Seq<PackageDecl>,
    ts: Seq<TypeDecl>,
    fs: Seq<FeatureDecl>,
    ps2: Seq<PackageDecl>,
    ts2: Seq<TypeDecl>,
    fs2: Seq<FeatureDecl>,
    i: nat,
)
    requires
        arenas_closed(ps, ts, fs),
        prefix_of(ps, ps2),
        prefix_of(ts, ts2),
        prefix_of(fs, fs2),
        i < ps.len(),
    ensures
        package_weight(ps2, ts2, fs2, i) == package_weight(ps, ts, fs, i),
    decreases i, 1nat, 0nat,
{
    assert(ps2[i as int] == ps2.subrange(0, ps.len() as int)[i as int]);
    let ms = ps[i as int].members@;
    assert forall|k: int| 0 <= k < ms.len() implies member_in(#[trigger] ms[k], ps, ts, fs) by {
        assert(ps[i as int].members@[k] == ms[k]);
    }
    lemma_package_body_stable(ps, ts, fs, ps2, ts2, fs2, ms, i);
}

proof fn lemma_package_body_stable(
    ps: Seq<PackageDecl>,
    ts: Seq<TypeDecl>,
    fs: Seq<FeatureDecl>,
    ps2: Seq<PackageDecl>,
    ts2: Seq<TypeDecl>,
    fs2: Seq<FeatureDecl>,
    ms: Seq<Member>,
    i: nat,
)
    requires
        arenas_closed(ps, ts, fs),
        prefix_of(ps, ps2),
        prefix_of(ts, ts2),
        prefix_of(fs, fs2),
        i < ps.len(),
        forall|k: int| 0 <= k < ms.len() ==> member_in(#[trigger] ms[k], ps, ts, fs),
    ensures
        package_body_weight(ps2, ts2, fs2, ms, i) == package_body_weight(ps, ts, fs, ms, i),
    decreases i, 0nat, ms.len(),
{
    if ms.len() > 0 {
        assert forall|k: int| 0 <= k < ms.drop_last().len() implies member_in(#[trigger] ms.drop_last()[k], ps, ts, fs) by {
            assert(ms.drop_last()[k] == ms[k]);
        }
        lemma_package_body_stable(ps, ts, fs, ps2, ts2, fs2, ms.drop_last(), i);
        let m = ms.last();
        assert(member_in(ms[ms.len() - 1], ps, ts, fs));
        match m {
            Member::Package(q) => {
                if q.index() < i {
                    lemma_package_weight_stable(ps, ts, fs, ps2, ts2, fs2, q.index());
                }
            },
            Member::Type(t) => {
                lemma_type_weight_stable(ts, fs, ts2, fs2, ps, t.index());
            },
            Member::Feature(f) => {
                assert(fs2[f.index() as int] == fs2.subrange(0, fs.len() as int)[f.index() as int]);
            },
            _ => {},
        }
    }
}

/// What the members `ms` make does not change as the arenas grow.
pub proof fn lemma_members_weight_stable(
    ps: Seq<PackageDecl>,
    ts: Seq<TypeDecl>,
    fs: Seq<FeatureDecl>,
    ps2: Seq<PackageDecl>,
    ts2: Seq<TypeDecl>,
    fs2: Seq<FeatureDecl>,
    ms: Seq<Member>,
)
    requires
        arenas_closed(ps, ts, fs),
        prefix_of(ps, ps2),
        prefix_of(ts, ts2),
        prefix_of(fs, fs2),
        forall|k: int| 0 <= k < ms.len() ==> member_in(#[trigger] ms[k], ps, ts, fs),
    ensures
        members_weight(ps2, ts2, fs2, ms) == members_weight(ps, ts, fs, ms),
    decreases ms.len(),
{
    if ms.len() > 0 {
        assert forall|k: int| 0 <= k < ms.drop_last().len() implies member_in(#[trigger] ms.drop_last()[k], ps, ts, fs) by {
            assert(ms.drop_last()[k] == ms[k]);
        }
        lemma_members_weight_stable(ps, ts, fs, ps2, ts2, fs2, ms.drop_last());
        let m = ms.last();
        assert(member_in(ms[ms.len() - 1], ps, ts, fs));
        match m {
            Member::Package(q) => {
                lemma_package_weight_stable(ps, ts, fs, ps2, ts2, fs2, q.index());
            },
            Member::Type(t) => {
                lemma_type_weight_stable(ts, fs, ts2, fs2, ps, t.index());
            },
            Member::Feature(f) => {
                assert(fs2[f.index() as int] == fs2.subrange(0, fs.len() as int)[f.index() as int]);
            },
            _ => {},
        }
    }
}

/// What the packages `qs` make does not change as the arenas grow.
pub proof fn lemma_packages_weight_stable(
    ps: Seq<PackageDecl>,
    ts: Seq<TypeDecl>,
    fs: Seq<FeatureDecl>,
    ps2: Seq<PackageDecl>,
    ts2: Seq<TypeDecl>,
    fs2: Seq<FeatureDecl>,
    qs: Seq<crate::ast::PackageId>,
)
    requires
        arenas_closed(ps, ts, fs),
        prefix_of(ps, ps2),
        prefix_of(ts, ts2),
        prefix_of(fs, fs2),
        forall|k: int| 0 <= k < qs.len() ==> (#[trigger] qs[k]).index() < ps.len(),
    ensures
        packages_weight(ps2, ts2, fs2, qs) == packages_weight(ps, ts, fs, qs),
    decreases qs.len(),
{
    if qs.len() > 0 {
        assert forall|k: int| 0 <= k < qs.drop_last().len() implies (#[trigger] qs.drop_last()[k]).index() < ps.len() by {
            assert(qs.drop_last()[k] == qs[k]);
        }
        lemma_packages_weight_stable(ps, ts, fs, ps2, ts2, fs2, qs.drop_last());
        assert(qs.last() == qs[qs.len() - 1]);
        lemma_package_weight_stable(ps, ts, fs, ps2, ts2, fs2, qs.last().index());
    }
}

/// Adding member `m` adds what `m` makes.
pub proof fn lemma_members_weight_push(
    ps: Seq<PackageDecl>,
    ts: Seq<TypeDecl>,
    fs: Seq<FeatureDecl>,
    ms: Seq<Member>,
    m: Member,
)
    ensures
        members_weight(ps, ts, fs, ms.push(m)) == members_weight(ps, ts, fs, ms) + member_weight(ps, ts, fs, m),
{
    assert(ms.push(m).drop_last() =~= ms);
}

/// Adding package `q` adds what `q` makes.
pub proof fn lemma_packages_weight_push(
    ps: Seq<PackageDecl>,
    ts: Seq<TypeDecl>,
    fs: Seq<FeatureDecl>,
    qs: Seq<crate::ast::PackageId>,
    q: crate::ast::PackageId,
)
    ensures
        packages_weight(ps, ts, fs, qs.push(q)) == packages_weight(ps, ts, fs, qs) + package_weight(ps, ts, fs, q.index()),
{
    assert(qs.push(q).drop_last() =~= qs);
}

/// The arenas of a well-formed parse whose declarations nest in order are closed.
pub proof fn lemma_parse_closed(r: ParseResult, nsym: nat)
    requires
        r.wf(nsym),
        r.nested(),
    ensures
        arenas_closed(r.packages@, r.types@, r.features@),
{
    let bd = r.bounds(nsym);
    let ps = r.packages@;
    let ts = r.types@;
    assert forall|i: int, k: int| 0 <= i < ps.len() && 0 <= k < ps[i].members@.len() implies match #[trigger] ps[i].members@[k] {
        Member::Package(q) => q.index() < i,
        Member::Type(t) => t.index() < ts.len(),
        Member::Feature(f) => f.index() < r.features@.len(),
        Member::Conjugation(_) => true,
    } by {
        assert(ps[i].ok(bd));
        assert(crate::ast::member_ok(ps[i].members@[k], bd));
    }
    assert forall|j: int, k: int| 0 <= j < ts.len() && 0 <= k < ts[j].members@.len() implies match #[trigger] ts[j].members@[k] {
        Member::Type(t) => t.index() < j,
        Member::Feature(f) => f.index() < r.features@.len(),
        Member::Package(_) => false,
        Member::Conjugation(_) => true,
    } by {
        assert(ts[j].ok(bd));
        assert(crate::ast::member_ok(ts[j].members@[k], bd));
    }
}

} // verus!
