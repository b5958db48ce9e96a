//! The JSON-LD view of a compiled model, laid out as the SysML v2 API lays out its
//! elements: one element per definition, with the relations that resolution and type
//! checking found. Every text of an element is computed here; writing the elements out
//! as JSON only changes their notation.
use vstd::prelude::*;
use crate::hir::{Def, DefId, DefKind, FeatureDirection, InheritedFeature, MultBound, NameRef, ResolutionState, SemanticModel};
use crate::interner::StringInterner;
use crate::resolve::names_interned;
use crate::validate::{decimal, decimal_text, kind_name, kind_text};

verus! {

/// The `@id` prefix of a kind of definition: its name in lower case.
pub open spec fn kind_key(k: DefKind) -> Seq<char> {
    match k {
        DefKind::Package => "package"@,
        DefKind::Type => "type"@,
        DefKind::Feature => "feature"@,
        DefKind::Conjugation => "conjugation"@,
    }
}

/// The `@id` of the definition at position `i` under `prefix`: the prefix, a hyphen and
/// the position in decimal.
pub open spec fn element_id(prefix: Seq<char>, i: nat) -> Seq<char> {
    prefix + "-"@ + decimal(i)
}

/// How a direction is written.
pub open spec fn direction_key(d: FeatureDirection) -> Seq<char> {
    match d {
        FeatureDirection::In => "in"@,
        FeatureDirection::Out => "out"@,
        FeatureDirection::InOut => "inout"@,
    }
}

pub open spec fn direction_text(d: Option<FeatureDirection>) -> Option<Seq<char>> {
    match d {
        Some(x) => Some(direction_key(x)),
        None => None,
    }
}

/// The position a reference points at, once resolved.
pub open spec fn target_of(r: NameRef) -> Option<nat> {
    match r.resolution {
        ResolutionState::Resolved(id) => Some(id.index()),
        _ => None,
    }
}

/// The positions that the resolved references among `rs` point at, in order; the
/// unresolved ones are left out.
pub open spec fn resolved_targets(rs: Seq<NameRef>) -> Seq<nat>
    decreases rs.len(),
{
    if rs.len() == 0 {
        Seq::empty()
    } else {
        resolved_targets(rs.drop_last()) + match target_of(rs.last()) {
            Some(t) => seq![t],
            None => Seq::<nat>::empty(),
        }
    }
}

/// The `@id`s of the positions `ts`, all under one prefix.
pub open spec fn ids_under(prefix: Seq<char>, ts: Seq<nat>) -> Seq<Seq<char>> {
    ts.map_values(|t: nat| element_id(prefix, t))
}

/// The `@id` of what `r` points at, under `prefix`, if it is resolved.
pub open spec fn target_id(prefix: Seq<char>, r: Option<NameRef>) -> Option<Seq<char>> {
    match r {
        Some(x) => match target_of(x) {
            Some(t) => Some(element_id(prefix, t)),
            None => None,
        },
        None => None,
    }
}

/// The `@id` of the definition at position `i`, under its own kind.
pub open spec fn own_id(defs: Seq<Def>, i: nat) -> Seq<char> {
    element_id(kind_key(defs[i as int].kind), i)
}

/// The `@id`s of the definitions `cs`, each under its own kind.
pub open spec fn member_ids(defs: Seq<Def>, cs: Seq<DefId>) -> Seq<Seq<char>> {
    cs.map_values(|c: DefId| own_id(defs, c.index()))
}

/// The direction an inherited feature has in the type that inherits it: the direction
/// that inheritance gave it, or else the feature's own.
pub open spec fn effective_direction(defs: Seq<Def>, f: InheritedFeature) -> Option<FeatureDirection> {
    match f.direction_override {
        Some(d) => Some(d),
        None => defs[f.def_id.index() as int].direction,
    }
}

pub open spec fn texts(v: Seq<String>) -> Seq<Seq<char>> {
    v.map_values(|s: String| s@)
}

pub open spec fn opt_text(o: Option<String>) -> Option<Seq<char>> {
    match o {
        Some(s) => Some(s@),
        None => None,
    }
}

/// A multiplicity bound as it is written out.
#[derive(Clone, Debug)]
pub enum BoundValue {
    /// A literal count.
    Count(u64),
    /// `*`.
    Many,
    /// A reference to a feature, by the feature's name; `None` where the reference
    /// stayed unresolved.
    Reference(Option<String>),
}

/// `v` is how bound `b` is written: a count as itself, `*` as many, a reference by the
/// name of the definition it points at.
pub open spec fn bound_written(v: BoundValue, b: MultBound, defs: Seq<Def>, names: Seq<Seq<char>>) -> bool {
    match b {
        MultBound::Exact(n) => v == BoundValue::Count(n),
        MultBound::Unbounded => v is Many,
        MultBound::Ref(r) => match target_of(r) {
            Some(t) => v matches BoundValue::Reference(Some(s)) && s@ == names[defs[t as int].name.0 as int],
            None => v matches BoundValue::Reference(None),
        },
    }
}

/// A feature that a type inherits, as it is written out.
#[derive(Clone, Debug)]
pub struct InheritedRef {
    /// The `@id` of the feature.
    pub id: String,
    /// The direction the feature has in the inheriting type, if any.
    pub direction: Option<String>,
}

pub open spec fn inherited_written(e: InheritedRef, defs: Seq<Def>, f: InheritedFeature) -> bool {
    &&& e.id@ == element_id("feature"@, f.def_id.index())
    &&& opt_text(e.direction) == direction_text(effective_direction(defs, f))
}

/// An inherited feature is written with the direction that its inheritance gave it,
/// when inheritance gave one (a feature inherited through a conjugation carries the
/// flipped direction), and otherwise with the feature's own direction.
pub proof fn lemma_inherited_direction_written(e: InheritedRef, defs: Seq<Def>, f: InheritedFeature)
    requires
        inherited_written(e, defs, f),
    ensures
        f.direction_override matches Some(d) ==> opt_text(e.direction) == Some(direction_key(d)),
        f.direction_override is None ==> opt_text(e.direction) == direction_text(defs[f.def_id.index() as int].direction),
{
}

/// A feature inherited through a conjugation, whose inheritance flips its own `in` or
/// `out`, is written with the opposite of its own direction.
pub proof fn lemma_conjugated_feature_written_flipped(e: InheritedRef, defs: Seq<Def>, f: InheritedFeature)
    requires
        inherited_written(e, defs, f),
        f.direction_override == crate::hir::conjugated(defs[f.def_id.index() as int].direction),
        defs[f.def_id.index() as int].direction == Some(FeatureDirection::In) || defs[f.def_id.index() as int].direction
            == Some(FeatureDirection::Out),
    ensures
        opt_text(e.direction) != direction_text(defs[f.def_id.index() as int].direction),
        defs[f.def_id.index() as int].direction == Some(FeatureDirection::In) ==> opt_text(e.direction) == Some("out"@),
        defs[f.def_id.index() as int].direction == Some(FeatureDirection::Out) ==> opt_text(e.direction) == Some("in"@),
{
    reveal_strlit("in");
    reveal_strlit("out");
    assert("in"@ != "out"@) by {
        assert("in"@.len() != "out"@.len());
    }
}

/// Every inherited feature of a written element carries the direction of
/// [`lemma_inherited_direction_written`].
pub proof fn lemma_element_inherited_directions(e: Element, defs: Seq<Def>, names: Seq<Seq<char>>, i: int, k: int)
    requires
        element_written(e, defs, names, i),
        0 <= k < defs[i].inherited_features@.len(),
    ensures
        defs[i].inherited_features@[k].direction_override matches Some(d) ==> opt_text(e.inherited_features@[k].direction)
            == Some(direction_key(d)),
        defs[i].inherited_features@[k].direction_override is None ==> opt_text(e.inherited_features@[k].direction)
            == direction_text(defs[defs[i].inherited_features@[k].def_id.index() as int].direction),
{
    lemma_inherited_direction_written(e.inherited_features@[k], defs, defs[i].inherited_features@[k]);
}

/// One JSON-LD element. An empty list stands for a key that the element does not have.
#[derive(Clone, Debug)]
pub struct Element {
    /// `@type`: the kind of the definition.
    pub at_type: String,
    /// `@id`: the kind in lower case and the definition's position.
    pub id: String,
    pub name: String,
    /// `ownedMember`: the `@id`s of the children.
    pub owned_members: Vec<String>,
    /// `ownedSpecialization`: the `@id` of each resolved general type; the specific
    /// type is the element itself.
    pub owned_specializations: Vec<String>,
    /// `ownedConjugator`: the `@id` of the original type that this element conjugates;
    /// the conjugated type is the element itself.
    pub owned_conjugator: Option<String>,
    /// `inheritedFeature`.
    pub inherited_features: Vec<InheritedRef>,
    /// `conjugatedType` of a conjugation declaration.
    pub conjugated_type: Option<String>,
    /// `originalType` of a conjugation declaration.
    pub original_type: Option<String>,
    /// `ownedTyping`: the `@id` of the type of a feature.
    pub owned_typing: Option<String>,
    /// `ownedMultiplicity`: the lower and the upper bound of a feature.
    pub owned_multiplicity: Option<(BoundValue, BoundValue)>,
    /// `direction` of a feature.
    pub direction: Option<String>,
    /// `ownedFeatureChaining`: the `@id` of each resolved chaining feature.
    pub owned_feature_chaining: Vec<String>,
    /// `owner`: the `@id` of the parent.
    pub owner: Option<String>,
}

/// `e` is the element written for the definition at position `i`.
pub open spec fn element_written(e: Element, defs: Seq<Def>, names: Seq<Seq<char>>, i: int) -> bool {
    let d = defs[i];
    let is_feature = d.kind == DefKind::Feature;
    &&& e.at_type@ == kind_name(d.kind)
    &&& e.id@ == own_id(defs, i as nat)
    &&& e.name@ == names[d.name.0 as int]
    &&& texts(e.owned_members@) == member_ids(defs, d.children@)
    &&& texts(e.owned_specializations@) == if d.kind == DefKind::Type {
        ids_under("type"@, resolved_targets(d.specializations@))
    } else {
        Seq::empty()
    }
    &&& opt_text(e.owned_conjugator) == target_id("type"@, d.conjugation)
    &&& e.inherited_features@.len() == d.inherited_features@.len()
    &&& forall|k: int|
        0 <= k < d.inherited_features@.len() ==> inherited_written(
            #[trigger] e.inherited_features@[k],
            defs,
            d.inherited_features@[k],
        )
    &&& opt_text(e.conjugated_type) == match d.conjugation_decl {
        Some(c) => target_id("type"@, Some(c.0)),
        None => None,
    }
    &&& opt_text(e.original_type) == match d.conjugation_decl {
        Some(c) => target_id("type"@, Some(c.1)),
        None => None,
    }
    &&& opt_text(e.owned_typing) == if is_feature {
        target_id("type"@, d.type_ref)
    } else {
        None
    }
    &&& match e.owned_multiplicity {
        Some(b) => is_feature && (d.multiplicity matches Some(m) && bound_written(b.0, m.lower, defs, names)
            && bound_written(b.1, m.upper, defs, names)),
        None => !(is_feature && d.multiplicity is Some),
    }
    &&& opt_text(e.direction) == if is_feature {
        direction_text(d.direction)
    } else {
        None
    }
    &&& texts(e.owned_feature_chaining@) == if is_feature {
        ids_under("feature"@, resolved_targets(d.chain_segments@))
    } else {
        Seq::empty()
    }
    &&& opt_text(e.owner) == match d.parent {
        Some(p) => Some(own_id(defs, p.index())),
        None => None,
    }
}

fn kind_key_text(k: DefKind) -> (s: &'static str)
    ensures
        s@ == kind_key(k),
{
    match k {
        DefKind::Package => "package",
        DefKind::Type => "type",
        DefKind::Feature => "feature",
        DefKind::Conjugation => "conjugation",
    }
}

fn direction_string(d: Option<FeatureDirection>) -> (r: Option<String>)
    ensures
        opt_text(r) == direction_text(d),
{
    match d {
        Some(FeatureDirection::In) => Some(String::from_str("in")),
        Some(FeatureDirection::Out) => Some(String::from_str("out")),
        Some(FeatureDirection::InOut) => Some(String::from_str("inout")),
        None => None,
    }
}

/// The `@id` of position `i` under `prefix`.
pub fn element_id_text(prefix: &str, i: u32) -> (s: String)
    ensures
        s@ == element_id(prefix@, i as nat),
{
    proof {
        reveal_strlit("-");
    }
    let digits = decimal_text(i as u64);
    String::from_str(prefix).concat("-").concat(digits.as_str())
}

/// The `@id` of what `r` points at, under `prefix`, if it is resolved.
fn ref_target_text(prefix: &str, r: &NameRef) -> (out: Option<String>)
    ensures
        opt_text(out) == target_id(prefix@, Some(*r)),
{
    match r.resolved_def() {
        Some(t) => Some(element_id_text(prefix, t.raw())),
        None => None,
    }
}

fn target_text(prefix: &str, r: &Option<NameRef>) -> (out: Option<String>)
    ensures
        opt_text(out) == target_id(prefix@, *r),
{
    match r {
        Some(x) => ref_target_text(prefix, x),
        None => None,
    }
}

/// The `@id`s of the resolved references among `rs`, under `prefix`.
fn target_ids(prefix: &str, rs: &Vec<NameRef>) -> (out: Vec<String>)
    ensures
        texts(out@) == ids_under(prefix@, resolved_targets(rs@)),
{
    let mut out: Vec<String> = Vec::new();
    let mut i: usize = 0;
    assert(rs@.subrange(0, 0) =~= Seq::<NameRef>::empty());
    assert(texts(out@) =~= Seq::<Seq<char>>::empty());
    while i < rs.len()
        invariant
            0 <= i <= rs@.len(),
            texts(out@) == ids_under(prefix@, resolved_targets(rs@.subrange(0, i as int))),
        decreases rs@.len() - i,
    {
        let ghost before = out@;
        let ghost head = rs@.subrange(0, i as int);
        let ghost next = rs@.subrange(0, i + 1);
        assert(next.drop_last() =~= head);
        assert(next.last() == rs@[i as int]);
        match rs[i].resolved_def() {
            Some(t) => {
                let s = element_id_text(prefix, t.raw());
                out.push(s);
                assert(resolved_targets(next) =~= resolved_targets(head).push(t.index()));
                assert(texts(out@) =~= texts(before).push(s@));
                assert(ids_under(prefix@, resolved_targets(next)) =~= ids_under(
                    prefix@,
                    resolved_targets(head),
                ).push(element_id(prefix@, t.index())));
            },
            None => {
                assert(resolved_targets(next) =~= resolved_targets(head));
            },
        }
        i = i + 1;
    }
    assert(rs@.subrange(0, rs@.len() as int) =~= rs@);
    out
}

/// The `@id` of the definition `id`, under its own kind.
fn own_id_text(model: &SemanticModel, id: DefId) -> (s: String)
    requires
        id.index() < model.defs@.len(),
    ensures
        s@ == own_id(model.defs@, id.index()),
{
    element_id_text(kind_key_text(model.defs[id].kind), id.raw())
}

/// The `@id`s of the definitions `cs`, each under its own kind.
fn member_refs(model: &SemanticModel, cs: &Vec<DefId>) -> (out: Vec<String>)
    requires
        forall|k: int| 0 <= k < cs@.len() ==> (#[trigger] cs@[k]).index() < model.defs@.len(),
    ensures
        texts(out@) == member_ids(model.defs@, cs@),
{
    let mut out: Vec<String> = Vec::new();
    let mut i: usize = 0;
    while i < cs.len()
        invariant
            0 <= i <= cs@.len(),
            forall|k: int| 0 <= k < cs@.len() ==> (#[trigger] cs@[k]).index() < model.defs@.len(),
            out@.len() == i,
            forall|k: int| 0 <= k < i ==> (#[trigger] out@[k])@ == own_id(model.defs@, cs@[k].index()),
        decreases cs@.len() - i,
    {
        let s = own_id_text(model, cs[i]);
        out.push(s);
        i = i + 1;
    }
    assert(texts(out@) =~= member_ids(model.defs@, cs@));
    out
}

/// The inherited features `fs`, each with the direction it has where it is inherited.
fn inherited_refs(model: &SemanticModel, fs: &Vec<InheritedFeature>) -> (out: Vec<InheritedRef>)
    requires
        forall|k: int| 0 <= k < fs@.len() ==> (#[trigger] fs@[k]).def_id.index() < model.defs@.len(),
    ensures
        out@.len() == fs@.len(),
        forall|k: int| 0 <= k < fs@.len() ==> inherited_written(#[trigger] out@[k], model.defs@, fs@[k]),
{
    proof {
        reveal_strlit("feature");
    }
    let mut out: Vec<InheritedRef> = Vec::new();
    let mut i: usize = 0;
    while i < fs.len()
        invariant
            0 <= i <= fs@.len(),
            forall|k: int| 0 <= k < fs@.len() ==> (#[trigger] fs@[k]).def_id.index() < model.defs@.len(),
            out@.len() == i,
            forall|k: int| 0 <= k < i ==> inherited_written(#[trigger] out@[k], model.defs@, fs@[k]),
        decreases fs@.len() - i,
    {
        let f = &fs[i];
        let dir = match f.direction_override {
            Some(d) => Some(d),
            None => model.defs[f.def_id].direction,
        };
        let r = InheritedRef { id: element_id_text("feature", f.def_id.raw()), direction: direction_string(dir) };
        out.push(r);
        i = i + 1;
    }
    out
}

/// How bound `b` is written.
fn bound_value(model: &SemanticModel, interner: &StringInterner, b: &MultBound) -> (v: BoundValue)
    requires
        model.wf(),
        names_interned(model.defs@, interner@.len()),
        crate::hir::bound_ok(*b, model.defs@.len()),
    ensures
        bound_written(v, *b, model.defs@, interner@),
{
    match b {
        MultBound::Exact(n) => BoundValue::Count(*n),
        MultBound::Unbounded => BoundValue::Many,
        MultBound::Ref(r) => match r.resolved_def() {
            Some(t) => {
                let name = interner.resolve(model.defs[t].name);
                BoundValue::Reference(Some(String::from_str(name)))
            },
            None => BoundValue::Reference(None),
        },
    }
}

/// The element written for definition `id`.
fn build_element(model: &SemanticModel, interner: &StringInterner, id: DefId) -> (e: Element)
    requires
        model.wf(),
        names_interned(model.defs@, interner@.len()),
        id.index() < model.defs@.len(),
    ensures
        element_written(e, model.defs@, interner@, id.index() as int),
{
    proof {
        reveal_strlit("type");
        reveal_strlit("feature");
    }
    let ghost i = id.index() as int;
    let ghost n = model.defs@.len();
    let def = &model.defs[id];
    assert(crate::hir::def_ok(model.defs@[i], i, n));
    let is_feature = def.kind == DefKind::Feature;
    let owned_specializations = if def.kind == DefKind::Type {
        target_ids("type", &def.specializations)
    } else {
        Vec::new()
    };
    let (conjugated_type, original_type) = match &def.conjugation_decl {
        Some(c) => (ref_target_text("type", &c.0), ref_target_text("type", &c.1)),
        None => (None, None),
    };
    let owned_typing = if is_feature {
        target_text("type", &def.type_ref)
    } else {
        None
    };
    let owned_multiplicity = if is_feature {
        match &def.multiplicity {
            Some(m) => Some((bound_value(model, interner, &m.lower), bound_value(model, interner, &m.upper))),
            None => None,
        }
    } else {
        None
    };
    let direction = if is_feature {
        direction_string(def.direction)
    } else {
        None
    };
    let owned_feature_chaining = if is_feature {
        target_ids("feature", &def.chain_segments)
    } else {
        Vec::new()
    };
    let owner = match def.parent {
        Some(p) => Some(own_id_text(model, p)),
        None => None,
    };
    let e = Element {
        at_type: String::from_str(kind_text(def.kind)),
        id: own_id_text(model, id),
        name: String::from_str(interner.resolve(def.name)),
        owned_members: member_refs(model, &def.children),
        owned_specializations,
        owned_conjugator: target_text("type", &def.conjugation),
        inherited_features: inherited_refs(model, &def.inherited_features),
        conjugated_type,
        original_type,
        owned_typing,
        owned_multiplicity,
        direction,
        owned_feature_chaining,
        owner,
    };
    assert(texts(e.owned_specializations@) == if def.kind == DefKind::Type {
        ids_under("type"@, resolved_targets(def.specializations@))
    } else {
        Seq::<Seq<char>>::empty()
    }) by {
        if def.kind != DefKind::Type {
            assert(texts(e.owned_specializations@) =~= Seq::<Seq<char>>::empty());
        }
    }
    assert(texts(e.owned_feature_chaining@) == if is_feature {
        ids_under("feature"@, resolved_targets(def.chain_segments@))
    } else {
        Seq::<Seq<char>>::empty()
    }) by {
        if !is_feature {
            assert(texts(e.owned_feature_chaining@) =~= Seq::<Seq<char>>::empty());
        }
    }
    e
}

/// The JSON-LD elements of `model`, one for each definition, in the order the
/// definitions were made.
pub fn build_elements(model: &SemanticModel, interner: &StringInterner) -> (els: Vec<Element>)
    requires
        model.wf(),
        names_interned(model.defs@, interner@.len()),
    ensures
        els@.len() == model.defs@.len(),
        forall|i: int| 0 <= i < els@.len() ==> element_written(#[trigger] els@[i], model.defs@, interner@, i),
{
    let mut els: Vec<Element> = Vec::new();
    let n = model.defs.len();
    let mut i: usize = 0;
    while i < n
        invariant
            n == model.defs@.len(),
            model.wf(),
            names_interned(model.defs@, interner@.len()),
            0 <= i <= n,
            els@.len() == i,
            forall|k: int| 0 <= k < i ==> element_written(#[trigger] els@[k], model.defs@, interner@, k),
        decreases n - i,
    {
        let e = build_element(model, interner, DefId::from_raw(i as u32));
        els.push(e);
        i = i + 1;
    }
    els
}

} // verus!
