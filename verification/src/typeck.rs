//! Type checking: the features that each type inherits from its supertypes and from the
//! type it conjugates.
use vstd::prelude::*;
use crate::arena::Idx;
use crate::diagnostic::DiagnosticSink;
use crate::interner::StringInterner;
use crate::resolve::{
    def_interned, faithful, lemma_slot_ref_ok, model_faithful, names_interned, reports_interned, slot_ref, RefSlot,
};
use crate::hir::{
    conjugate_direction, conjugated, def_ok, opt_ref_ok, Def, DefId, DefKind, FeatureDirection,
    InheritanceKind, InheritedFeature, ResolutionState, SemanticModel, NameRef, TypeId, TypeInfo,
};

verus! {

/// The definitions among `ids` that are features, in order.
pub open spec fn features_among(defs: Seq<Def>, ids: Seq<DefId>) -> Seq<DefId>
    decreases ids.len(),
{
    if ids.len() == 0 {
        Seq::empty()
    } else {
        let r = features_among(defs, ids.drop_last());
        if defs[ids.last().index() as int].kind == DefKind::Feature {
            r.push(ids.last())
        } else {
            r
        }
    }
}

/// The definitions that the resolved references among `rs` point at, in order.
pub open spec fn resolved_targets(rs: Seq<NameRef>) -> Seq<DefId>
    decreases rs.len(),
{
    if rs.len() == 0 {
        Seq::empty()
    } else {
        let r = resolved_targets(rs.drop_last());
        match rs.last().resolution {
            ResolutionState::Resolved(id) => r.push(id),
            _ => r,
        }
    }
}

/// What a type inherits from supertypes `supers`: for each, its own features and then
/// what it inherits itself.
pub open spec fn specialization_list(defs: Seq<Def>, supers: Seq<DefId>) -> Seq<InheritedFeature>
    decreases supers.len(),
{
    if supers.len() == 0 {
        Seq::empty()
    } else {
        let s = supers.last();
        specialization_list(defs, supers.drop_last()) + features_among(
            defs,
            defs[s.index() as int].children@,
        ).map_values(
            |f: DefId|
                InheritedFeature {
                    def_id: f,
                    kind: InheritanceKind::Specialization,
                    direction_override: None,
                },
        ) + defs[s.index() as int].inherited_features@
    }
}

/// The direction a feature has once inherited: its override, else its own.
pub open spec fn effective_direction(defs: Seq<Def>, inh: InheritedFeature) -> Option<FeatureDirection> {
    match inh.direction_override {
        Some(d) => Some(d),
        None => defs[inh.def_id.index() as int].direction,
    }
}

/// What a type inherits from the type `target` it conjugates, every direction flipped:
/// the target's own features, then what the target inherits (which for the type itself,
/// at position `own`, is `own_inherited`).
pub open spec fn conjugation_list(
    defs: Seq<Def>,
    target: DefId,
    own: int,
    own_inherited: Seq<InheritedFeature>,
) -> Seq<InheritedFeature> {
    let t_inh = if target.index() == own {
        own_inherited
    } else {
        defs[target.index() as int].inherited_features@
    };
    features_among(defs, defs[target.index() as int].children@).map_values(
        |f: DefId|
            InheritedFeature {
                def_id: f,
                kind: InheritanceKind::Conjugation,
                direction_override: conjugated(defs[f.index() as int].direction),
            },
    ) + t_inh.map_values(
        |inh: InheritedFeature|
            InheritedFeature {
                def_id: inh.def_id,
                kind: InheritanceKind::Conjugation,
                direction_override: conjugated(effective_direction(defs, inh)),
            },
    )
}

/// Where a feature with id `id` goes in `r`, which is sorted by id: before the first
/// entry whose id is not smaller.
pub open spec fn insert_pos(r: Seq<InheritedFeature>, id: nat) -> int
    decreases r.len(),
{
    if r.len() == 0 {
        0
    } else if r[0].def_id.index() >= id {
        0
    } else {
        1 + insert_pos(r.drop_first(), id)
    }
}

/// `r` with `x` put in its place by id, unless `r` has an entry with that id.
pub open spec fn insert_first(r: Seq<InheritedFeature>, x: InheritedFeature) -> Seq<InheritedFeature> {
    let p = insert_pos(r, x.def_id.index());
    if p < r.len() && r[p].def_id.index() == x.def_id.index() {
        r
    } else {
        r.insert(p, x)
    }
}

/// `s` sorted by feature id, keeping of each id only its first entry: what a stable
/// sort by id followed by removing entries with the id of the one before gives.
pub open spec fn sort_dedup(s: Seq<InheritedFeature>) -> Seq<InheritedFeature>
    decreases s.len(),
{
    if s.len() == 0 {
        Seq::empty()
    } else {
        insert_first(sort_dedup(s.drop_last()), s.last())
    }
}

/// `r` extended by the entries of `c` whose id it does not have yet, in order.
pub open spec fn add_missing(r: Seq<InheritedFeature>, c: Seq<InheritedFeature>) -> Seq<InheritedFeature>
    decreases c.len(),
{
    if c.len() == 0 {
        r
    } else {
        let r1 = add_missing(r, c.drop_last());
        if exists|i: int| 0 <= i < r1.len() && (#[trigger] r1[i]).def_id.index() == c.last().def_id.index() {
            r1
        } else {
            r1.push(c.last())
        }
    }
}

/// A type can be checked once every specialization and its conjugation are resolved.
pub open spec fn type_ready(d: Def) -> bool {
    &&& forall|k: int| 0 <= k < d.specializations@.len() ==> (#[trigger] d.specializations@[k]).resolution is Resolved
    &&& (d.conjugation matches Some(c) ==> c.resolution is Resolved)
}

/// The type that `d` conjugates, once resolved.
pub open spec fn conj_target(d: Def) -> Option<DefId> {
    match d.conjugation {
        Some(c) => match c.resolution {
            ResolutionState::Resolved(t) => Some(t),
            _ => None,
        },
        None => None,
    }
}

/// What type `i` inherits from its supertypes, sorted by id without repeats.
pub open spec fn base_inherited(defs: Seq<Def>, i: int) -> Seq<InheritedFeature> {
    sort_dedup(specialization_list(defs, resolved_targets(defs[i].specializations@)))
}

/// What type `i` inherits once checked: what it inherits from its supertypes, then what
/// it inherits from the type it conjugates and does not have yet.
pub open spec fn checked_inherited(defs: Seq<Def>, i: int) -> Seq<InheritedFeature> {
    let base = base_inherited(defs, i);
    match conj_target(defs[i]) {
        None => base,
        Some(t) => add_missing(base, sort_dedup(conjugation_list(defs, t, i, base))),
    }
}

/// `a` and `b` agree in every field but the inherited features and the checked flag.
pub open spec fn same_but_inheritance(a: Def, b: Def) -> bool {
    &&& a.name == b.name
    &&& a.kind == b.kind
    &&& a.span == b.span
    &&& a.parent == b.parent
    &&& a.children == b.children
    &&& a.specializations == b.specializations
    &&& a.conjugation == b.conjugation
    &&& a.type_ref == b.type_ref
    &&& a.chain_segments == b.chain_segments
    &&& a.multiplicity == b.multiplicity
    &&& a.direction == b.direction
    &&& a.conjugation_decl == b.conjugation_decl
    &&& a.imports == b.imports
}

/// The ids of every entry of `s` lie below `n`.
pub open spec fn ids_below(s: Seq<InheritedFeature>, n: nat) -> bool {
    forall|k: int| 0 <= k < s.len() ==> (#[trigger] s[k]).def_id.index() < n
}

pub proof fn lemma_insert_pos(r: Seq<InheritedFeature>, id: nat)
    ensures
        0 <= insert_pos(r, id) <= r.len(),
    decreases r.len(),
{
    if r.len() > 0 && r[0].def_id.index() < id {
        lemma_insert_pos(r.drop_first(), id);
    }
}

pub proof fn lemma_sort_dedup_ids(s: Seq<InheritedFeature>, n: nat)
    requires
        ids_below(s, n),
    ensures
        ids_below(sort_dedup(s), n),
    decreases s.len(),
{
    if s.len() > 0 {
        assert(ids_below(s.drop_last(), n));
        lemma_sort_dedup_ids(s.drop_last(), n);
        let r = sort_dedup(s.drop_last());
        lemma_insert_pos(r, s.last().def_id.index());
    }
}

pub proof fn lemma_add_missing_ids(r: Seq<InheritedFeature>, c: Seq<InheritedFeature>, n: nat)
    requires
        ids_below(r, n),
        ids_below(c, n),
    ensures
        ids_below(add_missing(r, c), n),
        add_missing(r, c).len() >= r.len(),
        add_missing(r, c).subrange(0, r.len() as int) == r,
    decreases c.len(),
{
    if c.len() > 0 {
        assert(ids_below(c.drop_last(), n));
        lemma_add_missing_ids(r, c.drop_last(), n);
        let r1 = add_missing(r, c.drop_last());
        assert(r1.push(c.last()).subrange(0, r.len() as int) =~= r1.subrange(0, r.len() as int));
    } else {
        assert(r.subrange(0, r.len() as int) =~= r);
    }
}

pub proof fn lemma_features_among_ids(defs: Seq<Def>, ids: Seq<DefId>, n: nat)
    requires
        forall|k: int| 0 <= k < ids.len() ==> (#[trigger] ids[k]).index() < n,
    ensures
        forall|k: int| 0 <= k < features_among(defs, ids).len() ==> (#[trigger] features_among(defs, ids)[k]).index() < n,
    decreases ids.len(),
{
    if ids.len() > 0 {
        assert forall|k: int| 0 <= k < ids.drop_last().len() implies (#[trigger] ids.drop_last()[k]).index() < n by {
            assert(ids.drop_last()[k] == ids[k]);
        }
        lemma_features_among_ids(defs, ids.drop_last(), n);
        assert(ids.last() == ids[ids.len() - 1]);
        let r = features_among(defs, ids.drop_last());
        let f = features_among(defs, ids);
        assert forall|k: int| 0 <= k < f.len() implies (#[trigger] f[k]).index() < n by {
            if k < r.len() {
                assert(f[k] == r[k]);
            }
        }
    }
}

/// No two entries of `s` share a feature.
pub open spec fn unique_ids(s: Seq<InheritedFeature>) -> bool {
    forall|a: int, b: int| 0 <= a < b < s.len() ==> (#[trigger] s[a]).def_id.index() != (#[trigger] s[b]).def_id.index()
}

/// The entries of `s` are in strictly increasing order of feature.
pub open spec fn ids_increasing(s: Seq<InheritedFeature>) -> bool {
    forall|a: int, b: int| 0 <= a < b < s.len() ==> (#[trigger] s[a]).def_id.index() < (#[trigger] s[b]).def_id.index()
}

proof fn lemma_insert_pos_bounds(r: Seq<InheritedFeature>, id: nat)
    ensures
        0 <= insert_pos(r, id) <= r.len(),
        forall|k: int| 0 <= k < insert_pos(r, id) ==> (#[trigger] r[k]).def_id.index() < id,
        insert_pos(r, id) < r.len() ==> r[insert_pos(r, id)].def_id.index() >= id,
    decreases r.len(),
{
    if r.len() > 0 && r[0].def_id.index() < id {
        lemma_insert_pos_bounds(r.drop_first(), id);
        assert forall|k: int| 0 <= k < insert_pos(r, id) implies (#[trigger] r[k]).def_id.index() < id by {
            if k > 0 {
                assert(r[k] == r.drop_first()[k - 1]);
            }
        }
        if insert_pos(r, id) < r.len() {
            assert(r[insert_pos(r, id)] == r.drop_first()[insert_pos(r, id) - 1]);
        }
    }
}

proof fn lemma_insert_first_increasing(r: Seq<InheritedFeature>, x: InheritedFeature)
    requires
        ids_increasing(r),
    ensures
        ids_increasing(insert_first(r, x)),
{
    let id = x.def_id.index();
    let p = insert_pos(r, id);
    lemma_insert_pos_bounds(r, id);
    if !(p < r.len() && r[p].def_id.index() == id) {
        let t = r.insert(p, x);
        assert forall|a: int, b: int| 0 <= a < b < t.len() implies (#[trigger] t[a]).def_id.index() < (#[trigger] t[b]).def_id.index() by {
            if b < p {
                assert(t[a] == r[a] && t[b] == r[b]);
            } else if b == p {
                assert(t[a] == r[a] && t[b] == x);
            } else if a < p {
                assert(t[a] == r[a] && t[b] == r[b - 1]);
                assert(r[p].def_id.index() > id);
                if b - 1 > p {
                    assert(r[p].def_id.index() < r[b - 1].def_id.index());
                }
            } else if a == p {
                assert(t[a] == x && t[b] == r[b - 1]);
                assert(r[p].def_id.index() > id);
                if b - 1 > p {
                    assert(r[p].def_id.index() < r[b - 1].def_id.index());
                }
            } else {
                assert(t[a] == r[a - 1] && t[b] == r[b - 1]);
            }
        }
    }
}

proof fn lemma_sort_dedup_increasing(s: Seq<InheritedFeature>)
    ensures
        ids_increasing(sort_dedup(s)),
    decreases s.len(),
{
    if s.len() > 0 {
        lemma_sort_dedup_increasing(s.drop_last());
        lemma_insert_first_increasing(sort_dedup(s.drop_last()), s.last());
    }
}

proof fn lemma_add_missing_unique(r: Seq<InheritedFeature>, c: Seq<InheritedFeature>)
    requires
        unique_ids(r),
    ensures
        unique_ids(add_missing(r, c)),
    decreases c.len(),
{
    if c.len() > 0 {
        lemma_add_missing_unique(r, c.drop_last());
        let r1 = add_missing(r, c.drop_last());
        if !(exists|i: int| 0 <= i < r1.len() && (#[trigger] r1[i]).def_id.index() == c.last().def_id.index()) {
            let t = r1.push(c.last());
            assert forall|a: int, b: int| 0 <= a < b < t.len() implies (#[trigger] t[a]).def_id.index() != (#[trigger] t[b]).def_id.index() by {
                if b < r1.len() {
                    assert(t[a] == r1[a] && t[b] == r1[b]);
                } else {
                    assert(t[a] == r1[a]);
                }
            }
        }
    }
}

/// No feature is inherited twice: what a checked type inherits from its supertypes is
/// sorted by feature without repeats, and the conjugated type adds only features it
/// does not have yet.
pub proof fn lemma_checked_inherited_unique(defs: Seq<Def>, i: int)
    ensures
        ids_increasing(base_inherited(defs, i)),
        unique_ids(checked_inherited(defs, i)),
{
    let base = base_inherited(defs, i);
    lemma_sort_dedup_increasing(specialization_list(defs, resolved_targets(defs[i].specializations@)));
    assert(unique_ids(base));
    match conj_target(defs[i]) {
        Some(t) => {
            lemma_add_missing_unique(base, sort_dedup(conjugation_list(defs, t, i, base)));
        },
        None => {},
    }
}

/// The features among the children of `id`.
pub(crate) fn feature_children(model: &SemanticModel, id: DefId) -> (r: Vec<DefId>)
    requires
        model.wf(),
        id.index() < model.defs@.len(),
    ensures
        r@ == features_among(model.defs@, model.defs@[id.index() as int].children@),
{
    let children = &model.defs[id].children;
    let mut r: Vec<DefId> = Vec::new();
    let mut i: usize = 0;
    while i < children.len()
        invariant
            model.wf(),
            id.index() < model.defs@.len(),
            *children == model.defs@[id.index() as int].children,
            i <= children@.len(),
            r@ == features_among(model.defs@, children@.subrange(0, i as int)),
        decreases children@.len() - i,
    {
        let c = children[i];
        proof {
            assert(children@.subrange(0, i + 1).drop_last() =~= children@.subrange(0, i as int));
            assert(def_ok(model.defs@[id.index() as int], id.index() as int, model.defs@.len()));
        }
        if model.defs[c].kind == DefKind::Feature {
            r.push(c);
        }
        i = i + 1;
    }
    assert(children@.subrange(0, i as int) =~= children@);
    r
}

/// `v` sorted by feature id, keeping of each id only its first entry.
fn sort_dedup_features(v: &Vec<InheritedFeature>) -> (r: Vec<InheritedFeature>)
    ensures
        r@ == sort_dedup(v@),
{
    let mut r: Vec<InheritedFeature> = Vec::new();
    let mut i: usize = 0;
    while i < v.len()
        invariant
            i <= v@.len(),
            r@ == sort_dedup(v@.subrange(0, i as int)),
        decreases v@.len() - i,
    {
        let x = v[i];
        proof {
            assert(v@.subrange(0, i + 1).drop_last() =~= v@.subrange(0, i as int));
        }
        let id = x.def_id.raw();
        let mut p: usize = 0;
        proof {
            lemma_insert_pos(r@, id as nat);
            assert(r@.subrange(0, r@.len() as int) =~= r@);
        }
        while p < r.len() && r[p].def_id.raw() < id
            invariant
                p <= r@.len(),
                insert_pos(r@, id as nat) == p + insert_pos(r@.subrange(p as int, r@.len() as int), id as nat),
            decreases r@.len() - p,
        {
            assert(r@.subrange(p as int, r@.len() as int).drop_first() =~= r@.subrange(p + 1, r@.len() as int));
            p = p + 1;
        }
        proof {
            assert(insert_pos(r@.subrange(p as int, r@.len() as int), id as nat) == 0);
        }
        if !(p < r.len() && r[p].def_id.raw() == id) {
            r.insert(p, x);
        }
        i = i + 1;
    }
    assert(v@.subrange(0, i as int) =~= v@);
    r
}

fn same_direction(a: Option<FeatureDirection>, b: Option<FeatureDirection>) -> (r: bool)
    ensures
        r == (a == b),
{
    match (a, b) {
        (None, None) => true,
        (Some(x), Some(y)) => x == y,
        _ => false,
    }
}

/// Whether two lists of inherited features are equal.
fn same_features(a: &Vec<InheritedFeature>, b: &Vec<InheritedFeature>) -> (r: bool)
    ensures
        r == (a@ == b@),
{
    if a.len() != b.len() {
        return false;
    }
    let mut i: usize = 0;
    while i < a.len()
        invariant
            a@.len() == b@.len(),
            i <= a@.len(),
            forall|k: int| 0 <= k < i ==> a@[k] == b@[k],
        decreases a@.len() - i,
    {
        let x = a[i];
        let y = b[i];
        if !(x.def_id == y.def_id && x.kind == y.kind && same_direction(x.direction_override, y.direction_override)) {
            proof {
                if x == y {
                    assert(x.def_id.index() == y.def_id.index());
                }
            }
            return false;
        }
        proof {
            Idx::lemma_index_injective(x.def_id, y.def_id);
        }
        i = i + 1;
    }
    assert(a@ =~= b@);
    true
}

fn type_is_ready(d: &Def) -> (r: bool)
    ensures
        r == type_ready(*d),
{
    let mut i: usize = 0;
    while i < d.specializations.len()
        invariant
            i <= d.specializations@.len(),
            forall|k: int| 0 <= k < i ==> (#[trigger] d.specializations@[k]).resolution is Resolved,
        decreases d.specializations@.len() - i,
    {
        if !d.specializations[i].is_resolved() {
            return false;
        }
        i = i + 1;
    }
    match &d.conjugation {
        Some(c) => c.is_resolved(),
        None => true,
    }
}

/// The supertypes that the resolved specializations of `d` name, in order.
fn supertypes(d: &Def) -> (r: Vec<DefId>)
    ensures
        r@ == resolved_targets(d.specializations@),
{
    let specs = &d.specializations;
    let mut r: Vec<DefId> = Vec::new();
    let mut i: usize = 0;
    while i < specs.len()
        invariant
            i <= specs@.len(),
            r@ == resolved_targets(specs@.subrange(0, i as int)),
        decreases specs@.len() - i,
    {
        assert(specs@.subrange(0, i + 1).drop_last() =~= specs@.subrange(0, i as int));
        match specs[i].resolved_def() {
            Some(t) => {
                r.push(t);
            },
            None => {},
        }
        i = i + 1;
    }
    assert(specs@.subrange(0, i as int) =~= specs@);
    r
}

pub proof fn lemma_resolved_targets_ok(rs: Seq<NameRef>, n: nat)
    requires
        crate::hir::refs_ok(rs, n),
    ensures
        forall|k: int| 0 <= k < resolved_targets(rs).len() ==> (#[trigger] resolved_targets(rs)[k]).index() < n,
    decreases rs.len(),
{
    if rs.len() > 0 {
        assert(crate::hir::refs_ok(rs.drop_last(), n)) by {
            assert forall|k: int| 0 <= k < rs.drop_last().len() implies crate::hir::ref_ok(#[trigger] rs.drop_last()[k], n) by {
                assert(rs.drop_last()[k] == rs[k]);
            }
        }
        lemma_resolved_targets_ok(rs.drop_last(), n);
        assert(crate::hir::ref_ok(rs[rs.len() - 1], n));
        let r = resolved_targets(rs.drop_last());
        let f = resolved_targets(rs);
        assert forall|k: int| 0 <= k < f.len() implies (#[trigger] f[k]).index() < n by {
            if k < r.len() {
                assert(f[k] == r[k]);
            }
        }
    }
}

/// What a type with supertypes `supers` inherits from them, before sorting.
fn specialization_features(model: &SemanticModel, supers: &Vec<DefId>) -> (r: Vec<InheritedFeature>)
    requires
        model.wf(),
        forall|k: int| 0 <= k < supers@.len() ==> (#[trigger] supers@[k]).index() < model.defs@.len(),
    ensures
        r@ == specialization_list(model.defs@, supers@),
{
    let mut r: Vec<InheritedFeature> = Vec::new();
    let mut i: usize = 0;
    while i < supers.len()
        invariant
            model.wf(),
            forall|k: int| 0 <= k < supers@.len() ==> (#[trigger] supers@[k]).index() < model.defs@.len(),
            i <= supers@.len(),
            r@ == specialization_list(model.defs@, supers@.subrange(0, i as int)),
        decreases supers@.len() - i,
    {
        let s = supers[i];
        proof {
            assert(supers@.subrange(0, i + 1).drop_last() =~= supers@.subrange(0, i as int));
        }
        let ghost before = r@;
        let feats = feature_children(model, s);
        let mut j: usize = 0;
        while j < feats.len()
            invariant
                j <= feats@.len(),
                r@ == before + feats@.subrange(0, j as int).map_values(
                    |f: DefId|
                        InheritedFeature {
                            def_id: f,
                            kind: InheritanceKind::Specialization,
                            direction_override: None,
                        },
                ),
            decreases feats@.len() - j,
        {
            r.push(
                InheritedFeature {
                    def_id: feats[j],
                    kind: InheritanceKind::Specialization,
                    direction_override: None,
                },
            );
            j = j + 1;
            proof {
                assert(r@ =~= before + feats@.subrange(0, j as int).map_values(
                    |f: DefId|
                        InheritedFeature {
                            def_id: f,
                            kind: InheritanceKind::Specialization,
                            direction_override: None,
                        },
                ));
            }
        }
        let ghost mid = r@;
        let inh = &model.defs[s].inherited_features;
        let mut k: usize = 0;
        while k < inh.len()
            invariant
                k <= inh@.len(),
                r@ == mid + inh@.subrange(0, k as int),
            decreases inh@.len() - k,
        {
            r.push(inh[k]);
            k = k + 1;
            proof {
                assert(r@ =~= mid + inh@.subrange(0, k as int));
            }
        }
        proof {
            assert(feats@.subrange(0, j as int) =~= feats@);
            assert(inh@.subrange(0, k as int) =~= inh@);
            assert(r@ =~= specialization_list(model.defs@, supers@.subrange(0, i + 1)));
        }
        i = i + 1;
    }
    assert(supers@.subrange(0, i as int) =~= supers@);
    r
}

/// What a type at `own` inherits from the type `target` it conjugates, before sorting;
/// `own_inherited` stands for what the type inherits itself.
fn conjugation_features(
    model: &SemanticModel,
    target: DefId,
    own: DefId,
    own_inherited: &Vec<InheritedFeature>,
) -> (r: Vec<InheritedFeature>)
    requires
        model.wf(),
        target.index() < model.defs@.len(),
        crate::typeck::ids_below(own_inherited@, model.defs@.len()),
    ensures
        r@ == conjugation_list(model.defs@, target, own.index() as int, own_inherited@),
{
    let feats = feature_children(model, target);
    proof {
        assert(def_ok(model.defs@[target.index() as int], target.index() as int, model.defs@.len()));
        lemma_features_among_ids(model.defs@, model.defs@[target.index() as int].children@, model.defs@.len());
    }
    let mut r: Vec<InheritedFeature> = Vec::new();
    let mut j: usize = 0;
    while j < feats.len()
        invariant
            model.wf(),
            feats@ == features_among(model.defs@, model.defs@[target.index() as int].children@),
            forall|k: int| 0 <= k < feats@.len() ==> (#[trigger] feats@[k]).index() < model.defs@.len(),
            j <= feats@.len(),
            r@ == feats@.subrange(0, j as int).map_values(
                |f: DefId|
                    InheritedFeature {
                        def_id: f,
                        kind: InheritanceKind::Conjugation,
                        direction_override: conjugated(model.defs@[f.index() as int].direction),
                    },
            ),
        decreases feats@.len() - j,
    {
        let f = feats[j];
        let dir = conjugate_direction(model.defs[f].direction);
        r.push(InheritedFeature { def_id: f, kind: InheritanceKind::Conjugation, direction_override: dir });
        j = j + 1;
        proof {
            assert(r@ =~= feats@.subrange(0, j as int).map_values(
                |f: DefId|
                    InheritedFeature {
                        def_id: f,
                        kind: InheritanceKind::Conjugation,
                        direction_override: conjugated(model.defs@[f.index() as int].direction),
                    },
            ));
        }
    }
    let ghost mid = r@;
    let same = target == own;
    let inh = if same {
        own_inherited
    } else {
        &model.defs[target].inherited_features
    };
    proof {
        assert(ids_below(inh@, model.defs@.len()));
    }
    let mut k: usize = 0;
    while k < inh.len()
        invariant
            model.wf(),
            ids_below(inh@, model.defs@.len()),
            k <= inh@.len(),
            r@ == mid + inh@.subrange(0, k as int).map_values(
                |x: InheritedFeature|
                    InheritedFeature {
                        def_id: x.def_id,
                        kind: InheritanceKind::Conjugation,
                        direction_override: conjugated(effective_direction(model.defs@, x)),
                    },
            ),
        decreases inh@.len() - k,
    {
        let x = inh[k];
        let effective = match x.direction_override {
            Some(d) => Some(d),
            None => model.defs[x.def_id].direction,
        };
        r.push(
            InheritedFeature {
                def_id: x.def_id,
                kind: InheritanceKind::Conjugation,
                direction_override: conjugate_direction(effective),
            },
        );
        k = k + 1;
        proof {
            assert(r@ =~= mid + inh@.subrange(0, k as int).map_values(
                |x: InheritedFeature|
                    InheritedFeature {
                        def_id: x.def_id,
                        kind: InheritanceKind::Conjugation,
                        direction_override: conjugated(effective_direction(model.defs@, x)),
                    },
            ));
        }
    }
    proof {
        assert(feats@.subrange(0, j as int) =~= feats@);
        assert(inh@.subrange(0, k as int) =~= inh@);
        assert(r@ =~= conjugation_list(model.defs@, target, own.index() as int, own_inherited@));
    }
    r
}


pub proof fn lemma_specialization_list_ids(defs: Seq<Def>, supers: Seq<DefId>)
    requires
        forall|i: int| 0 <= i < defs.len() ==> def_ok(#[trigger] defs[i], i, defs.len()),
        forall|k: int| 0 <= k < supers.len() ==> (#[trigger] supers[k]).index() < defs.len(),
    ensures
        ids_below(specialization_list(defs, supers), defs.len()),
    decreases supers.len(),
{
    if supers.len() > 0 {
        let n = defs.len();
        let s = supers.last();
        assert(supers[supers.len() - 1] == s);
        assert forall|k: int| 0 <= k < supers.drop_last().len() implies (#[trigger] supers.drop_last()[k]).index() < n by {
            assert(supers.drop_last()[k] == supers[k]);
        }
        lemma_specialization_list_ids(defs, supers.drop_last());
        let d = defs[s.index() as int];
        assert(def_ok(d, s.index() as int, n));
        lemma_features_among_ids(defs, d.children@, n);
        let a = specialization_list(defs, supers.drop_last());
        let fa = features_among(defs, d.children@);
        let b = fa.map_values(
            |f: DefId|
                InheritedFeature {
                    def_id: f,
                    kind: InheritanceKind::Specialization,
                    direction_override: None,
                },
        );
        let c = d.inherited_features@;
        let all = specialization_list(defs, supers);
        assert(all == a + b + c);
        assert forall|k: int| 0 <= k < all.len() implies (#[trigger] all[k]).def_id.index() < n by {
            if k < a.len() {
                assert(all[k] == a[k]);
            } else if k < a.len() + b.len() {
                assert(all[k] == b[k - a.len()]);
                assert(b[k - a.len()].def_id == fa[k - a.len()]);
            } else {
                assert(all[k] == c[k - a.len() - b.len()]);
            }
        }
    }
}

pub proof fn lemma_conjugation_list_ids(
    defs: Seq<Def>,
    target: DefId,
    own: int,
    own_inherited: Seq<InheritedFeature>,
)
    requires
        forall|i: int| 0 <= i < defs.len() ==> def_ok(#[trigger] defs[i], i, defs.len()),
        target.index() < defs.len(),
        ids_below(own_inherited, defs.len()),
    ensures
        ids_below(conjugation_list(defs, target, own, own_inherited), defs.len()),
{
    let n = defs.len();
    let d = defs[target.index() as int];
    assert(def_ok(d, target.index() as int, n));
    lemma_features_among_ids(defs, d.children@, n);
    let fa = features_among(defs, d.children@);
    let t_inh = if target.index() == own {
        own_inherited
    } else {
        d.inherited_features@
    };
    let b = fa.map_values(
        |f: DefId|
            InheritedFeature {
                def_id: f,
                kind: InheritanceKind::Conjugation,
                direction_override: conjugated(defs[f.index() as int].direction),
            },
    );
    let c = t_inh.map_values(
        |inh: InheritedFeature|
            InheritedFeature {
                def_id: inh.def_id,
                kind: InheritanceKind::Conjugation,
                direction_override: conjugated(effective_direction(defs, inh)),
            },
    );
    let all = conjugation_list(defs, target, own, own_inherited);
    assert(all == b + c);
    assert forall|k: int| 0 <= k < all.len() implies (#[trigger] all[k]).def_id.index() < n by {
        if k < b.len() {
            assert(all[k] == b[k]);
            assert(b[k].def_id == fa[k]);
        } else {
            assert(all[k] == c[k - b.len()]);
            assert(c[k - b.len()].def_id == t_inh[k - b.len()].def_id);
        }
    }
}

/// Whether some entry of `r` has the id `id`.
fn has_feature(r: &Vec<InheritedFeature>, id: DefId) -> (b: bool)
    ensures
        b == exists|i: int| 0 <= i < r@.len() && (#[trigger] r@[i]).def_id.index() == id.index(),
{
    let mut i: usize = 0;
    while i < r.len()
        invariant
            i <= r@.len(),
            forall|k: int| 0 <= k < i ==> (#[trigger] r@[k]).def_id.index() != id.index(),
        decreases r@.len() - i,
    {
        if r[i].def_id.raw() == id.raw() {
            return true;
        }
        i = i + 1;
    }
    false
}

/// Extends `r` by the entries of `c` whose id it does not have yet, in order.
fn add_missing_features(r: &mut Vec<InheritedFeature>, c: &Vec<InheritedFeature>)
    ensures
        final(r)@ == add_missing(old(r)@, c@),
{
    let ghost r0 = r@;
    let mut k: usize = 0;
    while k < c.len()
        invariant
            k <= c@.len(),
            r@ == add_missing(r0, c@.subrange(0, k as int)),
        decreases c@.len() - k,
    {
        let x = c[k];
        proof {
            assert(c@.subrange(0, k + 1).drop_last() =~= c@.subrange(0, k as int));
        }
        if !has_feature(r, x.def_id) {
            r.push(x);
        }
        k = k + 1;
    }
    assert(c@.subrange(0, k as int) =~= c@);
}

/// Whether checking type `i` changes what it inherits: its list differs from what it
/// inherits from its supertypes, or the conjugated type adds to that.
pub open spec fn type_changed(defs: Seq<Def>, i: int) -> bool {
    defs[i].inherited_features@ != base_inherited(defs, i) || checked_inherited(defs, i).len()
        > base_inherited(defs, i).len()
}

/// `b` is `a` after checking type `i`.
pub open spec fn checked_type(a: Seq<Def>, b: Seq<Def>, i: int) -> bool {
    &&& b.len() == a.len()
    &&& forall|m: int| 0 <= m < a.len() && m != i ==> #[trigger] b[m] == a[m]
    &&& same_but_inheritance(b[i], a[i])
    &&& b[i].inherited_features@ == checked_inherited(a, i)
    &&& b[i].type_checked
}

/// `b` is `a` after recording, for the type with information `tid`, that it conjugates
/// `target` (nothing changes unless both are known).
pub open spec fn conjugate_recorded(
    a: Seq<TypeInfo>,
    b: Seq<TypeInfo>,
    tid: Option<TypeId>,
    target: Option<DefId>,
) -> bool {
    match (tid, target) {
        (Some(t), Some(c)) => {
            &&& b.len() == a.len()
            &&& forall|m: int| 0 <= m < a.len() && m != t.index() ==> #[trigger] b[m] == a[m]
            &&& b[t.index() as int].def == a[t.index() as int].def
            &&& b[t.index() as int].supertypes == a[t.index() as int].supertypes
            &&& b[t.index() as int].all_features == a[t.index() as int].all_features
            &&& b[t.index() as int].conjugate_of == Some(c)
        },
        _ => b == a,
    }
}

/// Check a type definition: once its specializations and conjugation are resolved, it
/// inherits the features of its supertypes (their own and what they inherit), sorted by
/// id without repeats, and then those of the type it conjugates, directions flipped,
/// that it does not have yet; its type information records the conjugated type.
/// Returns whether what it inherits changed; a type that is not ready is left as it is.
pub fn check_type(model: &mut SemanticModel, def_id: DefId) -> (changed: bool)
    requires
        old(model).wf(),
        def_id.index() < old(model).defs@.len(),
    ensures
        final(model).wf(),
        final(model).roots == old(model).roots,
        final(model).def_to_type == old(model).def_to_type,
        type_ready(old(model).defs@[def_id.index() as int]) ==> {
            &&& checked_type(old(model).defs@, final(model).defs@, def_id.index() as int)
            &&& conjugate_recorded(
                old(model).type_infos@,
                final(model).type_infos@,
                old(model).def_to_type@[def_id.index() as int],
                conj_target(old(model).defs@[def_id.index() as int]),
            )
            &&& changed == type_changed(old(model).defs@, def_id.index() as int)
            &&& unique_ids(final(model).defs@[def_id.index() as int].inherited_features@)
        },
        !type_ready(old(model).defs@[def_id.index() as int]) ==> {
            &&& final(model).defs@ == old(model).defs@
            &&& final(model).type_infos@ == old(model).type_infos@
            &&& !changed
        },
{
    let ghost defs0 = model.defs@;
    let ghost i = def_id.index() as int;
    let ghost n = defs0.len();
    if !type_is_ready(&model.defs[def_id]) {
        return false;
    }
    proof {
        assert(def_ok(defs0[i], i, n));
        lemma_resolved_targets_ok(defs0[i].specializations@, n);
    }
    let supers = supertypes(&model.defs[def_id]);
    let spec_feats = specialization_features(model, &supers);
    let mut result = sort_dedup_features(&spec_feats);
    proof {
        lemma_specialization_list_ids(defs0, supers@);
        lemma_sort_dedup_ids(spec_feats@, n);
    }
    let ghost base = result@;
    let base_len = result.len();
    let mut changed = !same_features(&model.defs[def_id].inherited_features, &result);
    let target = match &model.defs[def_id].conjugation {
        Some(c) => c.resolved_def(),
        None => None,
    };
    assert(target == conj_target(defs0[i]));
    match target {
        Some(t) => {
            proof {
                assert(opt_ref_ok(defs0[i].conjugation, n));
            }
            let conj = conjugation_features(model, t, def_id, &result);
            let all_conj = sort_dedup_features(&conj);
            proof {
                lemma_conjugation_list_ids(defs0, t, i, base);
                lemma_sort_dedup_ids(conj@, n);
                lemma_add_missing_ids(base, all_conj@, n);
            }
            add_missing_features(&mut result, &all_conj);
            if result.len() > base_len {
                changed = true;
            }
            let slot = model.def_to_type[def_id.raw() as usize];
            match slot {
                Some(tid) => {
                    let info = model.type_infos.get_mut(tid);
                    info.conjugate_of = Some(t);
                },
                None => {},
            }
        },
        None => {},
    }
    let ghost fin = result@;
    assert(fin == checked_inherited(defs0, i));
    proof {
        lemma_checked_inherited_unique(defs0, i);
    }
    let d = model.defs.get_mut(def_id);
    d.inherited_features = result;
    d.type_checked = true;
    proof {
        let defs1 = model.defs@;
        assert forall|m: int| 0 <= m < n implies def_ok(#[trigger] defs1[m], m, n) by {
            if m != i {
                assert(defs1[m] == defs0[m]);
            } else {
                assert(def_ok(defs0[i], i, n));
            }
        }
    }
    changed
}


/// A feature can be checked once its typing and every chain segment are resolved.
pub open spec fn feature_ready(d: Def) -> bool {
    &&& (d.type_ref matches Some(t) ==> t.resolution is Resolved)
    &&& forall|k: int| 0 <= k < d.chain_segments@.len() ==> (#[trigger] d.chain_segments@[k]).resolution is Resolved
}

/// `b` is `a` after checking feature `i`: only its checked flag is set.
pub open spec fn checked_feature(a: Seq<Def>, b: Seq<Def>, i: int) -> bool {
    &&& b.len() == a.len()
    &&& forall|m: int| 0 <= m < a.len() && m != i ==> #[trigger] b[m] == a[m]
    &&& same_but_inheritance(b[i], a[i])
    &&& b[i].inherited_features == a[i].inherited_features
    &&& b[i].type_checked
}

/// Check a feature definition: once its typing and chain segments are resolved it is
/// marked checked, and the result is `true`; otherwise nothing changes and the result
/// is `false`.
pub fn check_feature(model: &mut SemanticModel, def_id: DefId) -> (changed: bool)
    requires
        old(model).wf(),
        def_id.index() < old(model).defs@.len(),
    ensures
        final(model).wf(),
        final(model).roots == old(model).roots,
        final(model).def_to_type == old(model).def_to_type,
        final(model).type_infos == old(model).type_infos,
        feature_ready(old(model).defs@[def_id.index() as int]) ==> {
            &&& checked_feature(old(model).defs@, final(model).defs@, def_id.index() as int)
            &&& changed
        },
        !feature_ready(old(model).defs@[def_id.index() as int]) ==> {
            &&& final(model).defs@ == old(model).defs@
            &&& !changed
        },
{
    let ghost defs0 = model.defs@;
    let ghost i = def_id.index() as int;
    let ghost n = defs0.len();
    match &model.defs[def_id].type_ref {
        Some(t) => {
            if !t.is_resolved() {
                return false;
            }
        },
        None => {},
    }
    let segs = &model.defs[def_id].chain_segments;
    let mut k: usize = 0;
    while k < segs.len()
        invariant
            model.wf(),
            model.defs@ == defs0,
            i == def_id.index(),
            0 <= i < n,
            n == defs0.len(),
            *segs == defs0[i].chain_segments,
            defs0[i].type_ref matches Some(t) ==> t.resolution is Resolved,
            k <= segs@.len(),
            forall|j: int| 0 <= j < k ==> (#[trigger] segs@[j]).resolution is Resolved,
        decreases segs@.len() - k,
    {
        if !segs[k].is_resolved() {
            return false;
        }
        k = k + 1;
    }
    let d = model.defs.get_mut(def_id);
    d.type_checked = true;
    proof {
        let defs1 = model.defs@;
        assert forall|m: int| 0 <= m < n implies def_ok(#[trigger] defs1[m], m, n) by {
            if m != i {
                assert(defs1[m] == defs0[m]);
            } else {
                assert(def_ok(defs0[i], i, n));
            }
        }
    }
    true
}

/// The resolved sides of conjugation declaration `d`: the conjugated type, the original
/// type, and the reference that names the original type.
pub open spec fn decl_sides(d: Def) -> Option<(DefId, DefId, NameRef)> {
    match d.conjugation_decl {
        Some(p) => match p.0.resolution {
            ResolutionState::Resolved(c) => match p.1.resolution {
                ResolutionState::Resolved(o) => Some((c, o, p.1)),
                _ => None,
            },
            _ => None,
        },
        None => None,
    }
}

/// `a` and `b` agree in every field but the conjugation and the checked flag.
pub open spec fn same_but_conjugation(a: Def, b: Def) -> bool {
    &&& a.name == b.name
    &&& a.kind == b.kind
    &&& a.span == b.span
    &&& a.parent == b.parent
    &&& a.children == b.children
    &&& a.specializations == b.specializations
    &&& a.type_ref == b.type_ref
    &&& a.chain_segments == b.chain_segments
    &&& a.multiplicity == b.multiplicity
    &&& a.direction == b.direction
    &&& a.conjugation_decl == b.conjugation_decl
    &&& a.imports == b.imports
    &&& a.inherited_features == b.inherited_features
}

/// Whether checking conjugation declaration `i` gives its conjugated type a conjugate:
/// both sides are resolved, and the conjugated type conjugates nothing yet.
pub open spec fn decl_changes(a: Seq<Def>, i: int) -> bool {
    decl_sides(a[i]) matches Some(s) && a[s.0.index() as int].conjugation is None
}

/// `b` is `a` after checking conjugation declaration `i`. Once both of its sides are
/// resolved the declaration is checked; if the conjugated type conjugates nothing yet,
/// it now conjugates the original type, by the reference that names it, and is to be
/// checked again. Until then nothing changes.
pub open spec fn checked_conjugation_decl(a: Seq<Def>, b: Seq<Def>, i: int) -> bool {
    match decl_sides(a[i]) {
        None => b == a,
        Some(s) => {
            let c = s.0.index() as int;
            let fresh = a[c].conjugation is None;
            &&& b.len() == a.len()
            &&& forall|m: int| 0 <= m < a.len() && m != i && !(fresh && m == c) ==> #[trigger] b[m] == a[m]
            &&& b[i].type_checked
            &&& (fresh ==> {
                &&& b[c].conjugation matches Some(r) && r.segments@ == s.2.segments@ && r.span == s.2.span
                    && r.resolution == ResolutionState::Resolved(s.1)
                &&& same_but_conjugation(b[c], a[c])
                &&& (c != i ==> !b[c].type_checked)
            })
            &&& (!fresh || c != i ==> same_but_conjugation(b[i], a[i]) && b[i].conjugation == a[i].conjugation)
        },
    }
}

/// Check a named conjugation declaration. Once both of its sides are resolved it is
/// checked, and a conjugated type that conjugates nothing yet takes the original type as
/// its conjugate and is unmarked, so that the next type checking applies the
/// conjugation; the result is whether that happened. A declaration with a side not yet
/// resolved is left as it is.
pub fn check_conjugation_decl(model: &mut SemanticModel, def_id: DefId) -> (changed: bool)
    requires
        old(model).wf(),
        def_id.index() < old(model).defs@.len(),
    ensures
        final(model).wf(),
        final(model).roots == old(model).roots,
        final(model).def_to_type == old(model).def_to_type,
        final(model).type_infos == old(model).type_infos,
        checked_conjugation_decl(old(model).defs@, final(model).defs@, def_id.index() as int),
        changed == decl_changes(old(model).defs@, def_id.index() as int),
        forall|n: nat| #[trigger] names_interned(old(model).defs@, n) ==> names_interned(final(model).defs@, n),
        forall|n: nat| #[trigger] reports_interned(old(model).defs@, n) ==> reports_interned(final(model).defs@, n),
        model_faithful(old(model).defs@) ==> model_faithful(final(model).defs@),
{
    let ghost a = model.defs@;
    let ghost i = def_id.index() as int;
    let ghost n = a.len();
    proof {
        assert(def_ok(a[i], i, n));
    }
    let (conj_id, orig_id) = match &model.defs[def_id].conjugation_decl {
        Some(p) => match (p.0.resolved_def(), p.1.resolved_def()) {
            (Some(c), Some(o)) => (c, o),
            _ => {
                return false;
            },
        },
        None => {
            return false;
        },
    };
    let ghost c = conj_id.index() as int;
    let ghost orig = (a[i].conjugation_decl->0).1;
    if model.defs[conj_id].conjugation.is_some() {
        let d = model.defs.get_mut(def_id);
        d.type_checked = true;
        proof {
            let b = model.defs@;
            assert forall|m: int| 0 <= m < n implies def_ok(#[trigger] b[m], m, n) by {
                if m != i {
                    assert(b[m] == a[m]);
                }
            }
            lemma_same_refs_preserved(a, b, i, i);
        }
        return false;
    }
    let segments = match &model.defs[def_id].conjugation_decl {
        Some(p) => crate::lower::copy_symbols(&p.1.segments),
        None => Vec::new(),
    };
    let span = match &model.defs[def_id].conjugation_decl {
        Some(p) => p.1.span,
        None => model.defs[def_id].span,
    };
    let target = model.defs.get_mut(conj_id);
    target.conjugation = Some(NameRef { segments, span, resolution: ResolutionState::Resolved(orig_id) });
    target.type_checked = false;
    let d = model.defs.get_mut(def_id);
    d.type_checked = true;
    proof {
        let b = model.defs@;
        assert(orig_id.index() < n);
        assert forall|m: int| 0 <= m < n implies def_ok(#[trigger] b[m], m, n) by {
            if m != i && m != c {
                assert(b[m] == a[m]);
            } else if m == c {
                assert(def_ok(a[c], c, n));
            }
        }
        lemma_conjugation_set_preserved(a, b, i, c, orig);
    }
    true
}

/// Where only the checked flags of definitions `i` and `c` changed, every name, every
/// reference and so every fact about them stays.
proof fn lemma_same_refs_preserved(a: Seq<Def>, b: Seq<Def>, i: int, c: int)
    requires
        forall|m: int| 0 <= m < a.len() ==> def_ok(#[trigger] a[m], m, a.len()),
        b.len() == a.len(),
        forall|m: int| 0 <= m < a.len() && m != i && m != c ==> #[trigger] b[m] == a[m],
        0 <= i < a.len(),
        0 <= c < a.len(),
        same_but_conjugation(b[i], a[i]) && b[i].conjugation == a[i].conjugation,
        same_but_conjugation(b[c], a[c]) && b[c].conjugation == a[c].conjugation,
    ensures
        forall|n: nat| #[trigger] names_interned(a, n) ==> names_interned(b, n),
        forall|n: nat| #[trigger] reports_interned(a, n) ==> reports_interned(b, n),
        model_faithful(a) ==> model_faithful(b),
{
    assert forall|m: int, sl: RefSlot| 0 <= m < b.len() implies #[trigger] slot_ref(b[m], sl) == slot_ref(a[m], sl) && b[m].name == a[m].name by {
        if m != i && m != c {
            assert(b[m] == a[m]);
        }
    }
    assert forall|n: nat| #[trigger] names_interned(a, n) implies names_interned(b, n) by {
        assert forall|m: int| 0 <= m < b.len() implies ((#[trigger] b[m]).name.0 as int) < n by {
            assert(slot_ref(b[m], RefSlot::Conjugation) == slot_ref(a[m], RefSlot::Conjugation));
        }
    }
    assert forall|n: nat| #[trigger] reports_interned(a, n) implies reports_interned(b, n) by {
        assert forall|m: int| 0 <= m < b.len() implies def_interned(#[trigger] b[m], n) by {
            assert(def_interned(a[m], n));
            if m == i || m == c {
                assert(b[m].specializations == a[m].specializations);
            } else {
                assert(b[m] == a[m]);
            }
        }
    }
    if model_faithful(a) {
        assert forall|m: int, sl: RefSlot|
            0 <= m < b.len() && (#[trigger] slot_ref(b[m], sl)) is Some implies faithful(b, slot_ref(b[m], sl)->0) by {
            assert(slot_ref(b[m], sl) == slot_ref(a[m], sl));
            assert(faithful(a, slot_ref(a[m], sl)->0));
            lemma_slot_ref_ok(a[m], sl, m, a.len());
            match slot_ref(a[m], sl)->0.resolution {
                ResolutionState::Resolved(u) => {
                    assert(slot_ref(b[u.index() as int], RefSlot::Conjugation) == slot_ref(a[u.index() as int], RefSlot::Conjugation));
                },
                _ => {},
            }
        }
    }
}

/// Giving definition `c` the conjugation that declaration `i` names, by the reference
/// `orig` of that declaration, keeps every name interned and every reference faithful.
proof fn lemma_conjugation_set_preserved(a: Seq<Def>, b: Seq<Def>, i: int, c: int, orig: NameRef)
    requires
        forall|m: int| 0 <= m < a.len() ==> def_ok(#[trigger] a[m], m, a.len()),
        b.len() == a.len(),
        forall|m: int| 0 <= m < a.len() && m != i && m != c ==> #[trigger] b[m] == a[m],
        0 <= i < a.len(),
        0 <= c < a.len(),
        a[i].conjugation_decl matches Some(p) && p.1 == orig,
        same_but_conjugation(b[c], a[c]),
        b[c].conjugation matches Some(r) && r.segments@ == orig.segments@ && r.resolution == orig.resolution,
        c != i ==> same_but_conjugation(b[i], a[i]) && b[i].conjugation == a[i].conjugation,
    ensures
        forall|n: nat| #[trigger] names_interned(a, n) ==> names_interned(b, n),
        forall|n: nat| #[trigger] reports_interned(a, n) ==> reports_interned(b, n),
        model_faithful(a) ==> model_faithful(b),
{
    assert forall|m: int| 0 <= m < b.len() implies (#[trigger] b[m]).name == a[m].name by {
        if m != i && m != c {
            assert(b[m] == a[m]);
        }
    }
    assert forall|n: nat| #[trigger] names_interned(a, n) implies names_interned(b, n) by {
        assert forall|m: int| 0 <= m < b.len() implies ((#[trigger] b[m]).name.0 as int) < n by {
            assert(b[m].name == a[m].name);
        }
    }
    assert forall|n: nat| #[trigger] reports_interned(a, n) implies reports_interned(b, n) by {
        assert forall|m: int| 0 <= m < b.len() implies def_interned(#[trigger] b[m], n) by {
            assert(def_interned(a[m], n));
            if m == c {
                assert(def_interned(a[i], n));
                let r = b[c].conjugation->0;
                assert forall|j: int| 0 <= j < r.segments@.len() implies ((#[trigger] r.segments@[j]).0 as int) < n by {
                    assert(r.segments@[j] == orig.segments@[j]);
                }
            } else if m == i {
                assert(b[m].specializations == a[m].specializations);
            } else {
                assert(b[m] == a[m]);
            }
        }
    }
    if model_faithful(a) {
        assert forall|m: int, sl: RefSlot|
            0 <= m < b.len() && (#[trigger] slot_ref(b[m], sl)) is Some implies faithful(b, slot_ref(b[m], sl)->0) by {
            if m == c && sl == RefSlot::Conjugation {
                assert(slot_ref(a[i], RefSlot::OriginalType) == Some(orig));
                assert(faithful(a, orig));
                lemma_slot_ref_ok(a[i], RefSlot::OriginalType, i, a.len());
                let r = b[c].conjugation->0;
                if r.segments@.len() > 0 {
                    assert(r.segments@.last() == orig.segments@.last());
                    match orig.resolution {
                        ResolutionState::Resolved(u) => {
                            assert(b[u.index() as int].name == a[u.index() as int].name);
                        },
                        _ => {},
                    }
                }
            } else {
                if m != i && m != c {
                    assert(b[m] == a[m]);
                }
                assert(slot_ref(b[m], sl) == slot_ref(a[m], sl));
                assert(faithful(a, slot_ref(a[m], sl)->0));
                lemma_slot_ref_ok(a[m], sl, m, a.len());
                match slot_ref(a[m], sl)->0.resolution {
                    ResolutionState::Resolved(u) => {
                        assert(b[u.index() as int].name == a[u.index() as int].name);
                    },
                    _ => {},
                }
            }
        }
    }
}

/// One step of a pass: what visiting definition `j` turns the definitions `a` and type
/// information `ai` into. Checked definitions, and those not ready, stay as they are.
pub open spec fn pass_step(
    a: Seq<Def>,
    ai: Seq<TypeInfo>,
    b: Seq<Def>,
    bi: Seq<TypeInfo>,
    def_to_type: Seq<Option<TypeId>>,
    j: int,
) -> bool {
    if !a[j].type_checked && a[j].kind == DefKind::Type && type_ready(a[j]) {
        &&& checked_type(a, b, j)
        &&& conjugate_recorded(ai, bi, def_to_type[j], conj_target(a[j]))
    } else if !a[j].type_checked && a[j].kind == DefKind::Feature && feature_ready(a[j]) {
        &&& checked_feature(a, b, j)
        &&& bi == ai
    } else if !a[j].type_checked && a[j].kind == DefKind::Conjugation {
        &&& checked_conjugation_decl(a, b, j)
        &&& bi == ai
    } else {
        &&& b == a
        &&& bi == ai
    }
}

/// Whether visiting definition `j` in state `a` reports a change.
pub open spec fn step_changes(a: Seq<Def>, j: int) -> bool {
    &&& !a[j].type_checked
    &&& {
        ||| (a[j].kind == DefKind::Type && type_ready(a[j]) && type_changed(a, j))
        ||| (a[j].kind == DefKind::Feature && feature_ready(a[j]))
        ||| (a[j].kind == DefKind::Conjugation && decl_changes(a, j))
    }
}

/// `ds` and `ts` are the states that a pass goes through, visiting each definition in
/// order from the first.
pub open spec fn pass_trace(
    ds: Seq<Seq<Def>>,
    ts: Seq<Seq<TypeInfo>>,
    def_to_type: Seq<Option<TypeId>>,
) -> bool {
    &&& ds.len() >= 1
    &&& ts.len() == ds.len()
    &&& forall|j: int|
        0 <= j < ds.len() - 1 ==> #[trigger] pass_step(ds[j], ts[j], ds[j + 1], ts[j + 1], def_to_type, j)
}

/// `b`, `bi` and `changed` are what one pass of type checking makes of the definitions
/// `a` and type information `ai`: the last state of a trace that visits every
/// definition in order, and whether some visit reported a change.
pub open spec fn typecheck_pass_result(
    a: Seq<Def>,
    ai: Seq<TypeInfo>,
    def_to_type: Seq<Option<TypeId>>,
    b: Seq<Def>,
    bi: Seq<TypeInfo>,
    changed: bool,
) -> bool {
    exists|ds: Seq<Seq<Def>>, ts: Seq<Seq<TypeInfo>>|
        {
            &&& ds.len() == a.len() + 1
            &&& pass_trace(ds, ts, def_to_type)
            &&& ds[0] == a
            &&& ts[0] == ai
            &&& ds.last() == b
            &&& ts.last() == bi
            &&& changed == exists|j: int| 0 <= j < a.len() && #[trigger] step_changes(ds[j], j)
        }
}

/// Run one pass of type checking over the model: each definition not yet checked, in
/// order, is checked as a type or as a feature, each seeing what the ones before it did.
/// Returns `true` if any of them reported a change (for the fixpoint loop).
pub fn typecheck_pass(
    model: &mut SemanticModel,
    interner: &StringInterner,
    sink: &mut DiagnosticSink,
) -> (changed: bool)
    requires
        old(model).wf(),
    ensures
        final(model).wf(),
        final(model).roots == old(model).roots,
        final(model).def_to_type == old(model).def_to_type,
        final(sink)@ == old(sink)@,
        typecheck_pass_result(
            old(model).defs@,
            old(model).type_infos@,
            old(model).def_to_type@,
            final(model).defs@,
            final(model).type_infos@,
            changed,
        ),
        reports_interned(old(model).defs@, interner@.len()) ==> reports_interned(final(model).defs@, interner@.len()),
        names_interned(old(model).defs@, interner@.len()) ==> names_interned(final(model).defs@, interner@.len()),
        model_faithful(old(model).defs@) ==> model_faithful(final(model).defs@),
        crate::hir::same_names(old(model).defs@, final(model).defs@),
{
    let ghost dtt = model.def_to_type@;
    let n = model.defs.len();
    let ghost mut ds: Seq<Seq<Def>> = seq![model.defs@];
    let ghost mut ts: Seq<Seq<TypeInfo>> = seq![model.type_infos@];
    let mut changed = false;
    let mut i: usize = 0;
    while i < n
        invariant
            model.wf(),
            model.defs@.len() == n,
            model.roots == old(model).roots,
            model.def_to_type == old(model).def_to_type,
            dtt == old(model).def_to_type@,
            i <= n,
            ds.len() == i + 1,
            pass_trace(ds, ts, dtt),
            ds[0] == old(model).defs@,
            ts[0] == old(model).type_infos@,
            ds[i as int] == model.defs@,
            ts[i as int] == model.type_infos@,
            changed == exists|j: int| 0 <= j < i && #[trigger] step_changes(ds[j], j),
            reports_interned(old(model).defs@, interner@.len()) ==> reports_interned(model.defs@, interner@.len()),
            names_interned(old(model).defs@, interner@.len()) ==> names_interned(model.defs@, interner@.len()),
            model_faithful(old(model).defs@) ==> model_faithful(model.defs@),
            crate::hir::same_names(old(model).defs@, model.defs@),
        decreases n - i,
    {
        let id = DefId::from_raw(i as u32);
        let ghost a = model.defs@;
        let ghost ai = model.type_infos@;
        let ghost prev = ds;
        let mut c = false;
        if !model.defs[id].type_checked {
            match model.defs[id].kind {
                DefKind::Type => {
                    c = check_type(model, id);
                },
                DefKind::Feature => {
                    c = check_feature(model, id);
                },
                DefKind::Conjugation => {
                    c = check_conjugation_decl(model, id);
                },
                _ => {},
            }
        }
        proof {
            let b = model.defs@;
            assert forall|m: int| 0 <= m < n implies (#[trigger] b[m]).name == a[m].name by {
                if a[i as int].kind == DefKind::Conjugation && !a[i as int].type_checked {
                    match decl_sides(a[i as int]) {
                        Some(sd) => {
                            if m != i && !(a[sd.0.index() as int].conjugation is None && m == sd.0.index()) {
                                assert(b[m] == a[m]);
                            }
                        },
                        None => {},
                    }
                } else if m != i {
                    assert(b[m] == a[m]);
                }
            }
            if a[i as int].kind != DefKind::Conjugation || a[i as int].type_checked {
                assert forall|m: int| 0 <= m < b.len() implies (#[trigger] b[m]).name == a[m].name && (def_interned(b[m], interner@.len()) <==> def_interned(a[m], interner@.len())) by {
                    if m != i {
                        assert(b[m] == a[m]);
                    }
                }
                assert(names_interned(a, interner@.len()) ==> names_interned(b, interner@.len()));
                assert forall|m: int, sl: RefSlot| 0 <= m < b.len() implies #[trigger] slot_ref(b[m], sl) == slot_ref(a[m], sl) by {
                    if m != i {
                        assert(b[m] == a[m]);
                    }
                }
                if model_faithful(a) {
                    assert forall|m: int, sl: RefSlot|
                        0 <= m < b.len() && (#[trigger] slot_ref(b[m], sl)) is Some implies faithful(b, slot_ref(b[m], sl)->0) by {
                        assert(slot_ref(b[m], sl) == slot_ref(a[m], sl));
                        assert(faithful(a, slot_ref(a[m], sl)->0));
                        match slot_ref(a[m], sl)->0.resolution {
                            ResolutionState::Resolved(u) => {
                                assert(b[u.index() as int].name == a[u.index() as int].name);
                            },
                            _ => {},
                        }
                    }
                }
            }
            assert(reports_interned(a, interner@.len()) ==> reports_interned(b, interner@.len()));
            assert(names_interned(a, interner@.len()) ==> names_interned(b, interner@.len()));
            assert(pass_step(a, ai, model.defs@, model.type_infos@, dtt, i as int));
            assert(c == step_changes(a, i as int));
            let ds1 = ds.push(model.defs@);
            let ts1 = ts.push(model.type_infos@);
            assert forall|j: int| 0 <= j < ds1.len() - 1 implies #[trigger] pass_step(
                ds1[j],
                ts1[j],
                ds1[j + 1],
                ts1[j + 1],
                dtt,
                j,
            ) by {
                if j < i {
                    assert(ds1[j] == ds[j] && ds1[j + 1] == ds[j + 1]);
                    assert(ts1[j] == ts[j] && ts1[j + 1] == ts[j + 1]);
                    assert(pass_step(ds[j], ts[j], ds[j + 1], ts[j + 1], dtt, j));
                }
            }
            assert forall|j: int| 0 <= j <= i implies #[trigger] ds1[j] == ds[j] by {}
            assert forall|j: int| 0 <= j < i + 1 implies #[trigger] step_changes(ds1[j], j) == if j < i {
                step_changes(ds[j], j)
            } else {
                c
            } by {
                assert(ds1[j] == ds[j]);
            }
            ds = ds1;
            ts = ts1;
        }
        let ghost was = changed;
        if c {
            changed = true;
        }
        proof {
            if c {
                assert(step_changes(ds[i as int], i as int));
            } else if was {
                let w = choose|j: int| 0 <= j < i && #[trigger] step_changes(prev[j], j);
                assert(ds[w] == prev[w]);
                assert(step_changes(ds[w], w));
            } else {
                assert forall|j: int| 0 <= j < i + 1 implies !#[trigger] step_changes(ds[j], j) by {
                    if j < i {
                        assert(ds[j] == prev[j]);
                    }
                }
            }
        }
        i = i + 1;
    }
    changed
}

} // verus!
