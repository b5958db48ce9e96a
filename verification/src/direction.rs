//! The direction of a feature as seen from a type: a feature that the type owns keeps
//! its own direction; one found through a specialization or a conjugation is looked up
//! there, each type being searched once, and flipped where a conjugation stands between.
use vstd::prelude::*;
use vstd::set_lib::{lemma_int_range, lemma_len_subset, set_int_range};
use crate::hir::{conjugate_direction, conjugated, Def, DefId, FeatureDirection, NameRef, ResolutionState, SemanticModel};

verus! {

/// The definition that reference `r` resolved to, if any.
pub open spec fn resolved_target(r: Option<NameRef>) -> Option<DefId> {
    match r {
        Some(n) => match n.resolution {
            ResolutionState::Resolved(t) => Some(t),
            _ => None,
        },
        None => None,
    }
}

/// Direction `d` seen from type `t`: flipped when `t` conjugates a resolved type.
pub open spec fn through(defs: Seq<Def>, t: int, d: Option<FeatureDirection>) -> Option<FeatureDirection> {
    if resolved_target(defs[t].conjugation) is Some {
        conjugated(d)
    } else {
        d
    }
}

/// The direction of feature `f` seen from type `t`, the types `ex` being searched
/// already, and the types searched once this search is done. A feature that `t` owns
/// gives its own direction; otherwise `t` counts as searched, then its resolved
/// specializations that are not searched yet are tried in order, and then the type it
/// conjugates, whose answer is flipped. `budget` bounds the depth of the search.
pub open spec fn dir_in(defs: Seq<Def>, f: int, t: int, ex: Seq<int>, budget: nat) -> (Option<FeatureDirection>, Seq<int>)
    decreases budget, 2nat, 0int,
{
    if budget == 0 {
        (None, ex)
    } else if defs[f].parent matches Some(p) && p.index() == t {
        (through(defs, t, defs[f].direction), ex)
    } else {
        let r1 = dir_specs(defs, f, defs[t].specializations@, 0, ex.push(t), budget);
        match r1.0 {
            Some(d) => (through(defs, t, Some(d)), r1.1),
            None => match resolved_target(defs[t].conjugation) {
                Some(c) => if r1.1.contains(c.index() as int) {
                    (None, r1.1)
                } else {
                    let r2 = dir_in(defs, f, c.index() as int, r1.1, (budget - 1) as nat);
                    (conjugated(r2.0), r2.1)
                },
                None => (None, r1.1),
            },
        }
    }
}

/// The search of [`dir_in`] through the specializations `specs` from the `k`-th on.
pub open spec fn dir_specs(
    defs: Seq<Def>,
    f: int,
    specs: Seq<NameRef>,
    k: int,
    ex: Seq<int>,
    budget: nat,
) -> (Option<FeatureDirection>, Seq<int>)
    decreases budget, 1nat, specs.len() - k,
{
    if budget == 0 || k < 0 || k >= specs.len() {
        (None, ex)
    } else {
        match specs[k].resolution {
            ResolutionState::Resolved(s) => if ex.contains(s.index() as int) {
                dir_specs(defs, f, specs, k + 1, ex, budget)
            } else {
                let r = dir_in(defs, f, s.index() as int, ex, (budget - 1) as nat);
                if r.0 is Some {
                    r
                } else {
                    dir_specs(defs, f, specs, k + 1, r.1, budget)
                }
            },
            _ => dir_specs(defs, f, specs, k + 1, ex, budget),
        }
    }
}

/// The direction of feature `f` within type `t`.
pub open spec fn direction_in(defs: Seq<Def>, f: int, t: int) -> Option<FeatureDirection> {
    dir_in(defs, f, t, Seq::empty(), (defs.len() + 1) as nat).0
}

/// A search from a type other than `s`, where `s` owns `f` and `f` has a direction, that
/// comes back empty has not searched `s`: `s` would have answered.
pub proof fn lemma_owner_never_excluded(defs: Seq<Def>, f: int, s: int, t: int, ex: Seq<int>, budget: nat)
    requires
        0 <= f < defs.len(),
        defs[f].parent matches Some(p) && p.index() == s,
        defs[f].direction is Some,
        !ex.contains(s),
    ensures
        dir_in(defs, f, t, ex, budget).0 is None ==> !dir_in(defs, f, t, ex, budget).1.contains(s),
    decreases budget, 2nat, 0int,
{
    if budget == 0 {
    } else if defs[f].parent matches Some(p) && p.index() == t {
    } else {
        assert(t != s);
        assert(!ex.push(t).contains(s)) by {
            if ex.push(t).contains(s) {
                let j = choose|j: int| 0 <= j < ex.push(t).len() && ex.push(t)[j] == s;
                if j < ex.len() {
                    assert(ex.push(t)[j] == ex[j]);
                }
            }
        }
        let specs = defs[t].specializations@;
        lemma_owner_never_excluded_specs(defs, f, s, specs, 0, ex.push(t), budget);
        let r1 = dir_specs(defs, f, specs, 0, ex.push(t), budget);
        if r1.0 is None {
            match resolved_target(defs[t].conjugation) {
                Some(c) => {
                    if !r1.1.contains(c.index() as int) {
                        lemma_owner_never_excluded(defs, f, s, c.index() as int, r1.1, (budget - 1) as nat);
                    }
                },
                None => {},
            }
        }
    }
}

/// The search through specializations keeps the owner `s` of `f` unsearched when it
/// finds nothing; see [`lemma_owner_never_excluded`].
pub proof fn lemma_owner_never_excluded_specs(
    defs: Seq<Def>,
    f: int,
    s: int,
    specs: Seq<NameRef>,
    k: int,
    ex: Seq<int>,
    budget: nat,
)
    requires
        0 <= f < defs.len(),
        defs[f].parent matches Some(p) && p.index() == s,
        defs[f].direction is Some,
        !ex.contains(s),
    ensures
        dir_specs(defs, f, specs, k, ex, budget).0 is None ==> !dir_specs(defs, f, specs, k, ex, budget).1.contains(s),
    decreases budget, 1nat, specs.len() - k,
{
    if budget == 0 || k < 0 || specs.len() <= k {
    } else {
        match specs[k].resolution {
            ResolutionState::Resolved(sp) => {
                if ex.contains(sp.index() as int) {
                    lemma_owner_never_excluded_specs(defs, f, s, specs, k + 1, ex, budget);
                } else {
                    lemma_owner_never_excluded(defs, f, s, sp.index() as int, ex, (budget - 1) as nat);
                    let r = dir_in(defs, f, sp.index() as int, ex, (budget - 1) as nat);
                    if r.0 is None {
                        lemma_owner_never_excluded_specs(defs, f, s, specs, k + 1, r.1, budget);
                    }
                }
            },
            _ => {
                lemma_owner_never_excluded_specs(defs, f, s, specs, k + 1, ex, budget);
            },
        }
    }
}

proof fn lemma_specs_reach(defs: Seq<Def>, f: int, s: int, specs: Seq<NameRef>, j: int, k: int, ex: Seq<int>, budget: nat)
    requires
        0 <= f < defs.len(),
        defs[f].parent matches Some(p) && p.index() == s,
        defs[f].direction is Some,
        !ex.contains(s),
        0 <= j <= k < specs.len(),
        specs[k].resolution matches ResolutionState::Resolved(x) && x.index() == s,
        budget >= 2,
    ensures
        dir_specs(defs, f, specs, j, ex, budget).0 is Some,
    decreases k - j,
{
    match specs[j].resolution {
        ResolutionState::Resolved(sp) => {
            if ex.contains(sp.index() as int) {
                assert(j != k);
                lemma_specs_reach(defs, f, s, specs, j + 1, k, ex, budget);
            } else {
                let r = dir_in(defs, f, sp.index() as int, ex, (budget - 1) as nat);
                if j == k {
                    assert(r.0 == through(defs, s, defs[f].direction));
                } else if r.0 is None {
                    lemma_owner_never_excluded(defs, f, s, sp.index() as int, ex, (budget - 1) as nat);
                    lemma_specs_reach(defs, f, s, specs, j + 1, k, r.1, budget);
                }
            }
        },
        _ => {
            lemma_specs_reach(defs, f, s, specs, j + 1, k, ex, budget);
        },
    }
}

/// A feature that has a direction and is owned by a type `s` that `t` specializes (by
/// any of its resolved specializations, not only the first) has a direction in `t`.
pub proof fn lemma_direction_through_any_specialization(defs: Seq<Def>, f: int, t: int, k: int)
    requires
        0 <= f < defs.len(),
        0 <= t < defs.len(),
        0 <= k < defs[t].specializations@.len(),
        defs[t].specializations@[k].resolution matches ResolutionState::Resolved(x) && x.index() != t
            && defs[f].parent == Some(x),
        defs[f].direction is Some,
    ensures
        direction_in(defs, f, t) is Some,
{
    let x = defs[t].specializations@[k].resolution->Resolved_0;
    let s = x.index() as int;
    let budget = (defs.len() + 1) as nat;
    let ex = Seq::<int>::empty().push(t);
    assert(!ex.contains(s)) by {
        if ex.contains(s) {
            assert(ex[0] == t);
        }
    }
    lemma_specs_reach(defs, f, s, defs[t].specializations@, 0, k, ex, budget);
}

/// The ids in `v`, as integers.
pub open spec fn ids(v: Seq<u32>) -> Seq<int> {
    v.map_values(|x: u32| x as int)
}

/// The searched types `v` are distinct definitions among the first `n`.
pub open spec fn excl_ok(v: Seq<u32>, n: nat) -> bool {
    &&& ids(v).no_duplicates()
    &&& forall|i: int| 0 <= i < v.len() ==> (#[trigger] v[i] as int) < n
}

proof fn lemma_excl_len(v: Seq<u32>, n: nat)
    requires
        excl_ok(v, n),
    ensures
        v.len() <= n,
{
    let s = ids(v);
    s.unique_seq_to_set();
    lemma_int_range(0, n as int);
    assert forall|x: int| s.to_set().contains(x) implies set_int_range(0, n as int).contains(x) by {
        let i = choose|i: int| 0 <= i < s.len() && s[i] == x;
        assert(s[i] == v[i] as int);
    }
    lemma_len_subset(s.to_set(), set_int_range(0, n as int));
}

proof fn lemma_excl_push(v: Seq<u32>, x: u32, n: nat)
    requires
        excl_ok(v, n),
        (x as int) < n,
        !ids(v).contains(x as int),
    ensures
        excl_ok(v.push(x), n),
        ids(v.push(x)) == ids(v).push(x as int),
{
    assert(ids(v.push(x)) =~= ids(v).push(x as int));
    let s = ids(v.push(x));
    assert forall|i: int, j: int| 0 <= i < s.len() && 0 <= j < s.len() && i != j implies s[i] != s[j] by {
        if i < v.len() && j < v.len() {
            assert(s[i] == ids(v)[i] && s[j] == ids(v)[j]);
        } else if i < v.len() {
            assert(s[i] == ids(v)[i]);
        } else if j < v.len() {
            assert(s[j] == ids(v)[j]);
        }
    }
    assert forall|i: int| 0 <= i < v.push(x).len() implies (#[trigger] v.push(x)[i] as int) < n by {
        if i < v.len() {
            assert(v.push(x)[i] == v[i]);
        }
    }
}

fn contains_id(v: &Vec<u32>, x: u32) -> (b: bool)
    ensures
        b == ids(v@).contains(x as int),
{
    let mut i: usize = 0;
    while i < v.len()
        invariant
            i <= v@.len(),
            forall|j: int| 0 <= j < i ==> v@[j] != x,
        decreases v@.len() - i,
    {
        if v[i] == x {
            proof {
                assert(ids(v@)[i as int] == x as int);
            }
            return true;
        }
        i = i + 1;
    }
    proof {
        if ids(v@).contains(x as int) {
            let j = choose|j: int| 0 <= j < ids(v@).len() && ids(v@)[j] == x as int;
            assert(ids(v@)[j] == v@[j] as int);
        }
    }
    false
}

impl SemanticModel {
    /// The direction of `feature` within `in_type`: its own direction when `in_type`
    /// owns it, otherwise the direction found through the specializations and then the
    /// conjugation of `in_type`, flipped where `in_type` conjugates a type.
    pub fn direction_of(&self, feature: DefId, in_type: DefId) -> (r: Option<FeatureDirection>)
        requires
            self.wf(),
            feature.index() < self.defs@.len(),
            in_type.index() < self.defs@.len(),
        ensures
            r == direction_in(self.defs@, feature.index() as int, in_type.index() as int),
    {
        let mut excluded: Vec<u32> = Vec::new();
        proof {
            assert(ids(excluded@) =~= Seq::<int>::empty());
            assert(ids(excluded@).no_duplicates());
        }
        self.direction_of_excluding(feature, in_type, &mut excluded, Ghost((self.defs@.len() + 1) as nat))
    }

    fn direction_of_excluding(
        &self,
        feature: DefId,
        in_type: DefId,
        excluded: &mut Vec<u32>,
        Ghost(budget): Ghost<nat>,
    ) -> (r: Option<FeatureDirection>)
        requires
            self.wf(),
            feature.index() < self.defs@.len(),
            in_type.index() < self.defs@.len(),
            excl_ok(old(excluded)@, self.defs@.len()),
            !ids(old(excluded)@).contains(in_type.index() as int),
            budget + old(excluded)@.len() >= self.defs@.len() + 1,
        ensures
            (r, ids(final(excluded)@)) == dir_in(
                self.defs@,
                feature.index() as int,
                in_type.index() as int,
                ids(old(excluded)@),
                budget,
            ),
            excl_ok(final(excluded)@, self.defs@.len()),
            final(excluded)@.len() >= old(excluded)@.len(),
        decreases budget,
    {
        let ghost defs = self.defs@;
        let ghost n = defs.len();
        let ghost f = feature.index() as int;
        let ghost t = in_type.index() as int;
        proof {
            lemma_excl_len(excluded@, n);
            assert(crate::hir::def_ok(defs[t], t, n));
        }
        let direct = match self.defs[feature].parent {
            Some(p) => p.raw() == in_type.raw(),
            None => false,
        };
        let conj: Option<DefId> = match &self.defs[in_type].conjugation {
            Some(c) => match c.resolution {
                ResolutionState::Resolved(x) => Some(x),
                _ => None,
            },
            None => None,
        };
        if direct {
            let d = self.defs[feature].direction;
            if conj.is_some() {
                return conjugate_direction(d);
            }
            return d;
        }
        let ghost ex0 = ids(excluded@);
        let raw_t = in_type.raw();
        proof {
            lemma_excl_push(excluded@, raw_t, n);
        }
        excluded.push(raw_t);
        let ghost ex1 = ids(excluded@);
        proof {
            assert(ex1 == ex0.push(t));
            assert(conj == resolved_target(defs[t].conjugation));
        }
        let specs = &self.defs[in_type].specializations;
        let mut k: usize = 0;
        while k < specs.len()
            invariant
                self.wf(),
                defs == self.defs@,
                n == defs.len(),
                f == feature.index() as int,
                t == in_type.index() as int,
                feature.index() < n,
                *specs == defs[t].specializations,
                crate::hir::def_ok(defs[t], t, n),
                budget >= 1,
                k <= specs@.len(),
                excl_ok(excluded@, n),
                excluded@.len() >= ex1.len(),
                ex0 == ids(old(excluded)@),
                ex1 == ex0.push(t),
                conj == resolved_target(defs[t].conjugation),
                !(defs[f].parent matches Some(p) && p.index() == t),
                budget + ex0.len() >= n + 1,
                dir_specs(defs, f, specs@, 0, ex1, budget) == dir_specs(defs, f, specs@, k as int, ids(excluded@), budget),
            decreases specs@.len() - k,
        {
            let ghost cur = ids(excluded@);
            match specs[k].resolution {
                ResolutionState::Resolved(s) => {
                    proof {
                        assert(crate::hir::ref_ok(specs@[k as int], n));
                    }
                    if !contains_id(excluded, s.raw()) {
                        let r = self.direction_of_excluding(feature, s, excluded, Ghost((budget - 1) as nat));
                        proof {
                            assert(dir_specs(defs, f, specs@, k as int, cur, budget) == dir_in(defs, f, s.index() as int, cur, (budget - 1) as nat)
                                || r is None);
                        }
                        if r.is_some() {
                            proof {
                                assert(dir_specs(defs, f, specs@, 0, ex1, budget) == (r, ids(excluded@)));
                                assert(dir_in(defs, f, t, ex0, budget) == (through(defs, t, r), ids(excluded@)));
                            }
                            if conj.is_some() {
                                return conjugate_direction(r);
                            }
                            return r;
                        }
                    }
                },
                _ => {},
            }
            k = k + 1;
        }
        proof {
            assert(dir_specs(defs, f, specs@, k as int, ids(excluded@), budget) == (None::<FeatureDirection>, ids(excluded@)));
        }
        match conj {
            Some(c) => {
                proof {
                    assert(crate::hir::opt_ref_ok(defs[t].conjugation, n));
                }
                if contains_id(excluded, c.raw()) {
                    None
                } else {
                    let r = self.direction_of_excluding(feature, c, excluded, Ghost((budget - 1) as nat));
                    conjugate_direction(r)
                }
            },
            None => None,
        }
    }
}

} // verus!
