//! The semantic model: definitions, name references and resolved type information.
use vstd::prelude::*;
use crate::arena::{Arena, Idx};
use crate::interner::SymbolId;
use crate::span::Span;
pub use crate::ast::FeatureDirection;
pub use crate::ast::Visibility;

verus! {

/// A definition ID — typed index into the def arena.
pub type DefId = Idx<Def>;

/// A type info ID — typed index into the type info arena.
pub type TypeId = Idx<TypeInfo>;

/// What kind of definition this is.
#[derive(Clone, Copy, Debug, PartialEq, Eq, Structural)]
pub enum DefKind {
    Package,
    Type,
    Feature,
    Conjugation,
}

/// Resolution state for a name reference.
#[derive(Clone, Debug, PartialEq, Eq)]
pub enum ResolutionState {
    Unresolved,
    InProgress,
    Resolved(DefId),
    Error,
}

/// A reference to a name that may or may not be resolved yet.
#[derive(Clone, Debug)]
pub struct NameRef {
    pub segments: Vec<SymbolId>,
    pub span: Span,
    pub resolution: ResolutionState,
}

impl NameRef {
    pub fn unresolved(segments: Vec<SymbolId>, span: Span) -> (r: Self)
        ensures
            r.segments@ == segments@,
            r.span == span,
            r.resolution == ResolutionState::Unresolved,
    {
        NameRef { segments, span, resolution: ResolutionState::Unresolved }
    }

    pub fn is_resolved(&self) -> (b: bool)
        ensures
            b == (self.resolution is Resolved),
    {
        match self.resolution {
            ResolutionState::Resolved(_) => true,
            _ => false,
        }
    }

    pub fn resolved_def(&self) -> (r: Option<DefId>)
        ensures
            r == match self.resolution {
                ResolutionState::Resolved(id) => Some(id),
                _ => None::<DefId>,
            },
    {
        match self.resolution {
            ResolutionState::Resolved(id) => Some(id),
            _ => None,
        }
    }
}

/// A multiplicity bound: concrete value, unbounded (*), or symbolic feature reference.
#[derive(Clone, Debug)]
pub enum MultBound {
    Exact(u64),
    Unbounded,
    Ref(NameRef),
}

/// Multiplicity bounds in the HIR.
#[derive(Clone, Debug)]
pub struct HirMultiplicity {
    pub lower: MultBound,
    pub upper: MultBound,
    pub span: Span,
}

/// How a feature was inherited.
#[derive(Debug, Clone, Copy, PartialEq, Eq, Structural)]
pub enum InheritanceKind {
    Specialization,
    Conjugation,
}

/// A feature inherited from a supertype or conjugate.
#[derive(Debug, Clone, Copy, PartialEq, Eq)]
pub struct InheritedFeature {
    pub def_id: DefId,
    pub kind: InheritanceKind,
    pub direction_override: Option<FeatureDirection>,
}

/// The direction a feature has on the conjugate side: `in` and `out` swap, `inout`
/// and no direction stay.
pub open spec fn conjugated(dir: Option<FeatureDirection>) -> Option<FeatureDirection> {
    match dir {
        Some(FeatureDirection::In) => Some(FeatureDirection::Out),
        Some(FeatureDirection::Out) => Some(FeatureDirection::In),
        other => other,
    }
}

/// Flip a feature direction for conjugation: in↔out, inout stays, None stays.
pub fn conjugate_direction(dir: Option<FeatureDirection>) -> (r: Option<FeatureDirection>)
    ensures
        r == conjugated(dir),
{
    match dir {
        Some(FeatureDirection::In) => Some(FeatureDirection::Out),
        Some(FeatureDirection::Out) => Some(FeatureDirection::In),
        Some(FeatureDirection::InOut) => Some(FeatureDirection::InOut),
        None => None,
    }
}

/// Conjugating twice gives back the original direction, and conjugation keeps
/// whether a feature has a direction at all.
pub proof fn lemma_conjugate_involution(dir: Option<FeatureDirection>)
    ensures
        conjugated(conjugated(dir)) == dir,
        conjugated(dir) is Some <==> dir is Some,
{
}

/// A definition in the semantic model.
#[derive(Clone, Debug)]
pub struct Def {
    pub name: SymbolId,
    pub kind: DefKind,
    pub span: Span,
    pub parent: Option<DefId>,
    pub children: Vec<DefId>,
    /// For types: specialization targets (resolved or not)
    pub specializations: Vec<NameRef>,
    /// For types: conjugation target
    pub conjugation: Option<NameRef>,
    /// For features: typing reference
    pub type_ref: Option<NameRef>,
    /// For features: chain segments
    pub chain_segments: Vec<NameRef>,
    /// For features: multiplicity
    pub multiplicity: Option<HirMultiplicity>,
    /// For features: direction modifier (in, out, inout)
    pub direction: Option<FeatureDirection>,
    /// For conjugation declarations: (conjugated_type, original_type)
    pub conjugation_decl: Option<(NameRef, NameRef)>,
    /// Imports visible from this def's scope
    pub imports: Vec<Import>,
    /// Inherited features (populated by type checking)
    pub inherited_features: Vec<InheritedFeature>,
    /// Whether this def has been fully type-checked
    pub type_checked: bool,
}

impl Def {
    pub fn new(name: SymbolId, kind: DefKind, span: Span) -> (d: Self)
        ensures
            d.name == name,
            d.kind == kind,
            d.span == span,
            d.parent is None,
            d.children@ == Seq::<DefId>::empty(),
            d.specializations@ == Seq::<NameRef>::empty(),
            d.conjugation is None,
            d.conjugation_decl is None,
            d.type_ref is None,
            d.chain_segments@ == Seq::<NameRef>::empty(),
            d.multiplicity is None,
            d.direction is None,
            d.imports@ == Seq::<Import>::empty(),
            d.inherited_features@ == Seq::<InheritedFeature>::empty(),
            !d.type_checked,
    {
        Def {
            name,
            kind,
            span,
            parent: None,
            children: Vec::new(),
            specializations: Vec::new(),
            conjugation: None,
            conjugation_decl: None,
            type_ref: None,
            chain_segments: Vec::new(),
            multiplicity: None,
            direction: None,
            imports: Vec::new(),
            inherited_features: Vec::new(),
            type_checked: false,
        }
    }
}

/// An import declaration in the HIR.
#[derive(Clone, Debug)]
pub struct Import {
    pub path: NameRef,
    pub is_wildcard: bool,
    pub span: Span,
}

/// Resolved type information for a def.
#[derive(Clone, Debug)]
pub struct TypeInfo {
    pub def: DefId,
    /// Direct supertypes (resolved DefIds)
    pub supertypes: Vec<DefId>,
    /// All features (own + inherited), as DefIds
    pub all_features: Vec<DefId>,
    /// If this type is a conjugation of another
    pub conjugate_of: Option<DefId>,
}

/// A membership ID — typed index into the membership arena.
pub type MembershipId = Idx<Membership>;

/// What kind of membership relationship this represents.
#[derive(Clone, Copy, Debug, PartialEq, Eq, Structural)]
pub enum MembershipKind {
    Owning,
    Feature,
    Member,
}

/// A membership relationship between a namespace and a member.
#[derive(Clone, Copy, Debug)]
pub struct Membership {
    pub visibility: Visibility,
    pub kind: MembershipKind,
    pub member_def: DefId,
    pub owning_namespace: DefId,
    pub span: Span,
}

/// The top-level semantic model.
pub struct SemanticModel {
    pub defs: Arena<Def>,
    /// Every membership made, in order.
    pub memberships: Arena<Membership>,
    pub type_infos: Arena<TypeInfo>,
    /// Root defs (packages and top-level members)
    pub roots: Vec<DefId>,
    /// Map from DefId to TypeId (for types that have type info)
    pub def_to_type: Vec<Option<TypeId>>,
}

/// The first position in `ids` whose definition is named `name`, if any.
pub open spec fn first_named(defs: Seq<Def>, ids: Seq<DefId>, name: SymbolId) -> Option<DefId>
    decreases ids.len(),
{
    if ids.len() == 0 {
        None
    } else if defs[ids[0].index() as int].name == name {
        Some(ids[0])
    } else {
        first_named(defs, ids.drop_first(), name)
    }
}

impl SemanticModel {
    pub fn new() -> (m: Self)
        ensures
            m.defs@ == Seq::<Def>::empty(),
            m.type_infos@ == Seq::<TypeInfo>::empty(),
            m.roots@ == Seq::<DefId>::empty(),
            m.def_to_type@ == Seq::<Option<TypeId>>::empty(),
            m.memberships@ == Seq::<Membership>::empty(),
    {
        SemanticModel {
            defs: Arena::new(),
            memberships: Arena::new(),
            type_infos: Arena::new(),
            roots: Vec::new(),
            def_to_type: Vec::new(),
        }
    }

    /// Stores `def`; the type table then has a slot for it, new slots being empty.
    pub fn alloc_def(&mut self, def: Def) -> (id: DefId)
        requires
            old(self).defs@.len() < u32::MAX,
        ensures
            id.index() == old(self).defs@.len(),
            final(self).defs@ == old(self).defs@.push(def),
            final(self).type_infos == old(self).type_infos,
            final(self).roots == old(self).roots,
            final(self).def_to_type@.len() == if old(self).def_to_type@.len() > id.index() {
                old(self).def_to_type@.len() as int
            } else {
                (id.index() + 1) as int
            },
            forall|i: int|
                0 <= i < final(self).def_to_type@.len() ==> #[trigger] final(self).def_to_type@[i]
                    == if i < old(self).def_to_type@.len() {
                    old(self).def_to_type@[i]
                } else {
                    None
                },
    {
        let id = self.defs.allocate(def);
        while self.def_to_type.len() <= id.raw() as usize
            invariant
                id.index() == old(self).defs@.len(),
                self.defs@ == old(self).defs@.push(def),
                self.type_infos == old(self).type_infos,
                self.roots == old(self).roots,
                old(self).def_to_type@.len() <= self.def_to_type@.len() <= if old(
                    self,
                ).def_to_type@.len() > id.index() {
                    old(self).def_to_type@.len() as int
                } else {
                    (id.index() + 1) as int
                },
                forall|i: int|
                    0 <= i < self.def_to_type@.len() ==> #[trigger] self.def_to_type@[i] == if i
                        < old(self).def_to_type@.len() {
                        old(self).def_to_type@[i]
                    } else {
                        None
                    },
            decreases id.index() + 1 - self.def_to_type@.len(),
        {
            self.def_to_type.push(None);
        }
        id
    }

    /// Makes `child` a child of `parent`.
    pub fn add_child(&mut self, parent: DefId, child: DefId)
        requires
            parent.index() < old(self).defs@.len(),
            child.index() < old(self).defs@.len(),
        ensures
            final(self).defs@.len() == old(self).defs@.len(),
            final(self).defs@[child.index() as int].parent == Some(parent),
            final(self).defs@[parent.index() as int].children@ == old(
                self,
            ).defs@[parent.index() as int].children@.push(child),
            forall|i: int|
                0 <= i < old(self).defs@.len() && i != parent.index() && i != child.index()
                    ==> #[trigger] final(self).defs@[i] == old(self).defs@[i],
            same_but_links(final(self).defs@[parent.index() as int], old(self).defs@[parent.index() as int]),
            same_but_links(final(self).defs@[child.index() as int], old(self).defs@[child.index() as int]),
            parent.index() != child.index() ==> final(self).defs@[parent.index() as int].parent == old(self).defs@[parent.index() as int].parent,
            parent.index() != child.index() ==> final(self).defs@[child.index() as int].children == old(self).defs@[child.index() as int].children,
            final(self).type_infos == old(self).type_infos,
            final(self).roots == old(self).roots,
            final(self).def_to_type == old(self).def_to_type,
            final(self).memberships == old(self).memberships,
            old(self).wf() && parent.index() < child.index() ==> final(self).wf(),
    {
        let ghost n = self.defs@.len();
        let p = self.defs.get_mut(parent);
        p.children.push(child);
        let c = self.defs.get_mut(child);
        c.parent = Some(parent);
        proof {
            if old(self).wf() && parent.index() < child.index() {
                let d0 = old(self).defs@;
                let d1 = self.defs@;
                assert forall|i: int| 0 <= i < n implies def_ok(#[trigger] d1[i], i, n) by {
                    assert(def_ok(d0[i], i, n));
                    if i == parent.index() {
                        assert forall|k: int| 0 <= k < d1[i].children@.len() implies (#[trigger] d1[i].children@[k]).index() < n by {
                            if k < d0[i].children@.len() {
                                assert(d1[i].children@[k] == d0[i].children@[k]);
                            }
                        }
                    }
                }
            }
        }
    }

    /// Records that `parent` has `child` as a member, with the given visibility and kind,
    /// and makes `child` a child of `parent`; returns the new membership's ID.
    pub fn add_member(
        &mut self,
        parent: DefId,
        child: DefId,
        visibility: Visibility,
        kind: MembershipKind,
        span: Span,
    ) -> (mid: MembershipId)
        requires
            parent.index() < old(self).defs@.len(),
            child.index() < old(self).defs@.len(),
            old(self).memberships@.len() <= u32::MAX,
        ensures
            mid.index() == old(self).memberships@.len(),
            final(self).memberships@ == old(self).memberships@.push(
                Membership { visibility, kind, member_def: child, owning_namespace: parent, span },
            ),
            final(self).defs@.len() == old(self).defs@.len(),
            final(self).defs@[child.index() as int].parent == Some(parent),
            final(self).defs@[parent.index() as int].children@ == old(
                self,
            ).defs@[parent.index() as int].children@.push(child),
            forall|i: int|
                0 <= i < old(self).defs@.len() && i != parent.index() && i != child.index()
                    ==> #[trigger] final(self).defs@[i] == old(self).defs@[i],
            same_but_links(final(self).defs@[parent.index() as int], old(self).defs@[parent.index() as int]),
            same_but_links(final(self).defs@[child.index() as int], old(self).defs@[child.index() as int]),
            final(self).type_infos == old(self).type_infos,
            final(self).roots == old(self).roots,
            final(self).def_to_type == old(self).def_to_type,
            old(self).wf() && parent.index() < child.index() ==> final(self).wf(),
    {
        let mid = self.memberships.allocate(
            Membership { visibility, kind, member_def: child, owning_namespace: parent, span },
        );
        self.add_child(parent, child);
        mid
    }

    /// The direct children of `def`, in the order they were added.
    pub fn children(&self, def: DefId) -> (r: Vec<DefId>)
        requires
            def.index() < self.defs@.len(),
        ensures
            r@ == self.defs@[def.index() as int].children@,
    {
        self.defs[def].children.clone()
    }

    /// Find a direct child of `parent` with the given name.
    pub fn find_child(&self, parent: DefId, name: SymbolId) -> (r: Option<DefId>)
        requires
            parent.index() < self.defs@.len(),
            forall|i: int|
                0 <= i < self.defs@[parent.index() as int].children@.len() ==> (
                #[trigger] self.defs@[parent.index() as int].children@[i]).index()
                    < self.defs@.len(),
        ensures
            r == first_named(self.defs@, self.defs@[parent.index() as int].children@, name),
    {
        let children = &self.defs[parent].children;
        self.first_named_in(children, name)
    }

    /// Find a root def with the given name.
    pub fn find_root(&self, name: SymbolId) -> (r: Option<DefId>)
        requires
            forall|i: int| 0 <= i < self.roots@.len() ==> (#[trigger] self.roots@[i]).index() < self.defs@.len(),
        ensures
            r == first_named(self.defs@, self.roots@, name),
    {
        self.first_named_in(&self.roots, name)
    }

    fn first_named_in(&self, ids: &Vec<DefId>, name: SymbolId) -> (r: Option<DefId>)
        requires
            forall|i: int| 0 <= i < ids@.len() ==> (#[trigger] ids@[i]).index() < self.defs@.len(),
        ensures
            r == first_named(self.defs@, ids@, name),
    {
        let mut i: usize = 0;
        assert(ids@.subrange(0, ids@.len() as int) =~= ids@);
        while i < ids.len()
            invariant
                0 <= i <= ids@.len(),
                forall|j: int| 0 <= j < ids@.len() ==> (#[trigger] ids@[j]).index() < self.defs@.len(),
                first_named(self.defs@, ids@, name) == first_named(self.defs@, ids@.subrange(i as int, ids@.len() as int), name),
            decreases ids@.len() - i,
        {
            let id = ids[i];
            assert(ids@.subrange(i as int, ids@.len() as int).drop_first() =~= ids@.subrange(i + 1, ids@.len() as int));
            if self.defs[id].name == name {
                return Some(id);
            }
            i = i + 1;
        }
        None
    }
}

impl Default for SemanticModel {
    fn default() -> (m: Self)
        ensures
            m.defs@ == Seq::<Def>::empty(),
            m.type_infos@ == Seq::<TypeInfo>::empty(),
            m.roots@ == Seq::<DefId>::empty(),
            m.def_to_type@ == Seq::<Option<TypeId>>::empty(),
            m.memberships@ == Seq::<Membership>::empty(),
    {
        Self::new()
    }
}

/// `a` and `b` agree in every field but the parent and the children.
pub open spec fn same_but_links(a: Def, b: Def) -> bool {
    &&& a.name == b.name
    &&& a.kind == b.kind
    &&& a.span == b.span
    &&& a.specializations == b.specializations
    &&& a.conjugation == b.conjugation
    &&& a.type_ref == b.type_ref
    &&& a.chain_segments == b.chain_segments
    &&& a.multiplicity == b.multiplicity
    &&& a.direction == b.direction
    &&& a.conjugation_decl == b.conjugation_decl
    &&& a.imports == b.imports
    &&& a.inherited_features == b.inherited_features
    &&& a.type_checked == b.type_checked
}

/// `b` has as many definitions as `a`, each with the same name.
pub open spec fn same_names(a: Seq<Def>, b: Seq<Def>) -> bool {
    &&& b.len() == a.len()
    &&& forall|m: int| 0 <= m < a.len() ==> (#[trigger] b[m]).name == a[m].name
}

/// A resolved reference points at a definition among the first `n`.
pub open spec fn ref_ok(r: NameRef, n: nat) -> bool {
    r.resolution matches ResolutionState::Resolved(id) ==> id.index() < n
}

pub open spec fn opt_ref_ok(r: Option<NameRef>, n: nat) -> bool {
    r matches Some(x) ==> ref_ok(x, n)
}

pub open spec fn refs_ok(rs: Seq<NameRef>, n: nat) -> bool {
    forall|k: int| 0 <= k < rs.len() ==> ref_ok(#[trigger] rs[k], n)
}

pub open spec fn bound_ok(b: MultBound, n: nat) -> bool {
    b matches MultBound::Ref(r) ==> ref_ok(r, n)
}

/// Every definition that `d`, at position `i` of a model of `n` definitions, refers to
/// exists, and its parent comes before it.
pub open spec fn def_ok(d: Def, i: int, n: nat) -> bool {
    &&& (d.parent matches Some(p) ==> p.index() < i)
    &&& forall|k: int| 0 <= k < d.children@.len() ==> (#[trigger] d.children@[k]).index() < n
    &&& refs_ok(d.specializations@, n)
    &&& opt_ref_ok(d.conjugation, n)
    &&& opt_ref_ok(d.type_ref, n)
    &&& refs_ok(d.chain_segments@, n)
    &&& (d.conjugation_decl matches Some(c) ==> ref_ok(c.0, n) && ref_ok(c.1, n))
    &&& forall|k: int| 0 <= k < d.imports@.len() ==> ref_ok((#[trigger] d.imports@[k]).path, n)
    &&& (d.multiplicity matches Some(m) ==> bound_ok(m.lower, n) && bound_ok(m.upper, n))
    &&& forall|k: int|
        0 <= k < d.inherited_features@.len() ==> (#[trigger] d.inherited_features@[k]).def_id.index() < n
}

/// What points at one of the first `n` definitions points at one of the first `m`,
/// for `m` no smaller.
pub proof fn lemma_def_ok_mono(d: Def, i: int, n: nat, m: nat)
    requires
        def_ok(d, i, n),
        n <= m,
    ensures
        def_ok(d, i, m),
{
    assert forall|k: int| 0 <= k < d.specializations@.len() implies ref_ok(#[trigger] d.specializations@[k], m) by {
        assert(ref_ok(d.specializations@[k], n));
    }
    assert forall|k: int| 0 <= k < d.chain_segments@.len() implies ref_ok(#[trigger] d.chain_segments@[k], m) by {
        assert(ref_ok(d.chain_segments@[k], n));
    }
}

impl SemanticModel {
    /// Well formed: every stored reference points at an existing definition or type
    /// information, every parent comes before its children, and the type table covers
    /// every definition.
    pub open spec fn wf(&self) -> bool {
        let n = self.defs@.len();
        &&& n <= u32::MAX
        &&& forall|i: int| 0 <= i < n ==> def_ok(#[trigger] self.defs@[i], i, n)
        &&& forall|k: int| 0 <= k < self.roots@.len() ==> (#[trigger] self.roots@[k]).index() < n
        &&& self.def_to_type@.len() >= n
        &&& forall|k: int|
            0 <= k < self.def_to_type@.len() ==> (#[trigger] self.def_to_type@[k] matches Some(t)
                ==> t.index() < self.type_infos@.len())
    }
}

} // verus!
