//! The surface syntax tree of a KerML file.
use vstd::prelude::*;
use crate::arena::Idx;
use crate::interner::SymbolId;
use crate::span::Span;

verus! {

pub type PackageId = Idx<PackageDecl>;

pub type TypeDeclId = Idx<TypeDecl>;

pub type FeatureDeclId = Idx<FeatureDecl>;

pub type ConjugationDeclId = Idx<ConjugationDecl>;

/// A qualified name like `Vehicles::Car` or `Base::Anything`.
#[derive(Clone, Debug)]
pub struct QualifiedName {
    pub segments: Vec<SymbolId>,
    pub span: Span,
}

/// Visibility modifier for a member or import.
#[derive(Clone, Copy, Debug, PartialEq, Eq, Structural)]
pub enum Visibility {
    Public,
    Protected,
    Private,
}

/// A member with optional visibility and member-only flag.
#[derive(Clone, Debug)]
pub struct MemberEntry {
    pub visibility: Option<Visibility>,
    pub is_member_only: bool,
    pub member: Member,
    pub span: Span,
}

/// A member of a package or type body.
#[derive(Clone, Copy, Debug)]
pub enum Member {
    Package(PackageId),
    Type(TypeDeclId),
    Feature(FeatureDeclId),
    Conjugation(ConjugationDeclId),
}

/// `package Foo { ... }`
#[derive(Clone, Debug)]
pub struct PackageDecl {
    pub name: SymbolId,
    pub span: Span,
    pub imports: Vec<ImportDecl>,
    pub members: Vec<Member>,
}

/// `import Foo::Bar::*;`
#[derive(Clone, Debug)]
pub struct ImportDecl {
    pub visibility: Option<Visibility>,
    pub path: QualifiedName,
    pub is_wildcard: bool,
    pub span: Span,
}

/// `type Car specializes Vehicle conjugates ~Truck { ... }`
#[derive(Clone, Debug)]
pub struct TypeDecl {
    pub name: SymbolId,
    pub span: Span,
    pub specializations: Vec<QualifiedName>,
    pub conjugation: Option<QualifiedName>,
    pub members: Vec<Member>,
}

/// Multiplicity like `[0..1]` or `[*]`
#[derive(Debug)]
pub struct Multiplicity {
    pub lower: Option<Expr>,
    pub upper: Option<Expr>,
    pub span: Span,
}

/// Feature chaining: `chains a.b.c`
#[derive(Clone, Debug)]
pub struct FeatureChain {
    pub segments: Vec<QualifiedName>,
    pub span: Span,
}

/// A type reference in a typing (`:`) position.
#[derive(Clone, Debug)]
pub enum TypeExpr {
    /// Plain named reference: `T` or `A::B`
    Named(QualifiedName),
    /// Conjugated type reference: `~T`
    Conjugated(QualifiedName, Span),
    /// Feature chain used as type: `a.b`
    Chain(FeatureChain),
}

/// Direction modifier for a feature (in, out, inout).
#[derive(Clone, Copy, Debug, PartialEq, Eq, Structural)]
pub enum FeatureDirection {
    In,
    Out,
    InOut,
}

/// `feature wheels : Wheel [4];`
#[derive(Debug)]
pub struct FeatureDecl {
    pub name: SymbolId,
    pub span: Span,
    pub direction: Option<FeatureDirection>,
    pub type_ref: Option<TypeExpr>,
    pub conjugation: Option<QualifiedName>,
    pub chain: Option<FeatureChain>,
    pub multiplicity: Option<Multiplicity>,
}

/// `conjugation c1 conjugate Sink conjugates Source;`
#[derive(Clone, Debug)]
pub struct ConjugationDecl {
    pub name: SymbolId,
    pub span: Span,
    pub conjugated_type: QualifiedName,
    pub original_type: QualifiedName,
}

/// Expression node.
#[derive(Debug)]
pub enum Expr {
    IntLiteral { value: u64, span: Span },
    /// `*` for unbounded multiplicity
    Star { span: Span },
    Name { name: QualifiedName },
    BinOp { op: BinOpKind, lhs: Box<Expr>, rhs: Box<Expr>, span: Span },
}

#[derive(Clone, Copy, Debug, PartialEq, Eq, Structural)]
pub enum BinOpKind {
    Add,
    Sub,
    Mul,
    Div,
    /// `..`
    Range,
}

/// Root of a parsed file.
#[derive(Clone, Debug)]
pub struct SourceFile {
    pub packages: Vec<PackageId>,
    /// top-level members outside packages
    pub members: Vec<Member>,
    pub span: Span,
}

/// The sizes of the arenas and of the interner that a tree may refer to.
pub struct Bounds {
    pub packages: nat,
    pub types: nat,
    pub features: nat,
    pub conjugations: nat,
    pub symbols: nat,
}

/// Every index a node holds points into its arena, and every symbol into the interner.
pub open spec fn member_ok(m: Member, bd: Bounds) -> bool {
    match m {
        Member::Package(id) => id.index() < bd.packages,
        Member::Type(id) => id.index() < bd.types,
        Member::Feature(id) => id.index() < bd.features,
        Member::Conjugation(id) => id.index() < bd.conjugations,
    }
}

pub open spec fn members_ok(ms: Seq<Member>, bd: Bounds) -> bool {
    forall|i: int| 0 <= i < ms.len() ==> member_ok(#[trigger] ms[i], bd)
}

pub open spec fn name_ok(qn: QualifiedName, bd: Bounds) -> bool {
    forall|i: int| 0 <= i < qn.segments@.len() ==> (#[trigger] qn.segments@[i]).0 < bd.symbols
}

pub open spec fn opt_name_ok(qn: Option<QualifiedName>, bd: Bounds) -> bool {
    qn matches Some(q) ==> name_ok(q, bd)
}

pub open spec fn names_ok(qs: Seq<QualifiedName>, bd: Bounds) -> bool {
    forall|i: int| 0 <= i < qs.len() ==> name_ok(#[trigger] qs[i], bd)
}

pub open spec fn expr_ok(e: Expr, bd: Bounds) -> bool
    decreases e,
{
    match e {
        Expr::Name { name } => name_ok(name, bd),
        Expr::BinOp { lhs, rhs, .. } => expr_ok(*lhs, bd) && expr_ok(*rhs, bd),
        _ => true,
    }
}

pub open spec fn opt_expr_ok(e: Option<Expr>, bd: Bounds) -> bool {
    e matches Some(x) ==> expr_ok(x, bd)
}

pub open spec fn chain_ok(c: FeatureChain, bd: Bounds) -> bool {
    names_ok(c.segments@, bd)
}

pub open spec fn type_expr_ok(t: TypeExpr, bd: Bounds) -> bool {
    match t {
        TypeExpr::Named(q) => name_ok(q, bd),
        TypeExpr::Conjugated(q, _) => name_ok(q, bd) && q.segments@.len() > 0,
        TypeExpr::Chain(c) => chain_ok(c, bd),
    }
}

impl PackageDecl {
    pub open spec fn ok(self, bd: Bounds) -> bool {
        &&& self.name.0 < bd.symbols
        &&& forall|i: int| 0 <= i < self.imports@.len() ==> name_ok((#[trigger] self.imports@[i]).path, bd)
        &&& members_ok(self.members@, bd)
    }
}

impl TypeDecl {
    pub open spec fn ok(self, bd: Bounds) -> bool {
        &&& self.name.0 < bd.symbols
        &&& names_ok(self.specializations@, bd)
        &&& opt_name_ok(self.conjugation, bd)
        &&& members_ok(self.members@, bd)
    }
}

impl FeatureDecl {
    pub open spec fn ok(self, bd: Bounds) -> bool {
        &&& self.name.0 < bd.symbols
        &&& (self.type_ref matches Some(t) ==> type_expr_ok(t, bd))
        &&& opt_name_ok(self.conjugation, bd)
        &&& (self.chain matches Some(c) ==> chain_ok(c, bd))
        &&& (self.multiplicity matches Some(m) ==> opt_expr_ok(m.lower, bd) && opt_expr_ok(m.upper, bd))
    }
}

impl ConjugationDecl {
    pub open spec fn ok(self, bd: Bounds) -> bool {
        &&& self.name.0 < bd.symbols
        &&& name_ok(self.conjugated_type, bd)
        &&& name_ok(self.original_type, bd)
    }
}

/// `a` allows no more than `b`: every arena and the interner are at least as large in `b`.
pub open spec fn bounds_le(a: Bounds, b: Bounds) -> bool {
    &&& a.packages <= b.packages
    &&& a.types <= b.types
    &&& a.features <= b.features
    &&& a.conjugations <= b.conjugations
    &&& a.symbols <= b.symbols
}

pub proof fn lemma_name_mono(q: QualifiedName, a: Bounds, b: Bounds)
    requires
        name_ok(q, a),
        bounds_le(a, b),
    ensures
        name_ok(q, b),
{
}

pub proof fn lemma_names_mono(qs: Seq<QualifiedName>, a: Bounds, b: Bounds)
    requires
        names_ok(qs, a),
        bounds_le(a, b),
    ensures
        names_ok(qs, b),
{
    assert forall|i: int| 0 <= i < qs.len() implies name_ok(#[trigger] qs[i], b) by {
        lemma_name_mono(qs[i], a, b);
    }
}

pub proof fn lemma_members_mono(ms: Seq<Member>, a: Bounds, b: Bounds)
    requires
        members_ok(ms, a),
        bounds_le(a, b),
    ensures
        members_ok(ms, b),
{
    assert forall|i: int| 0 <= i < ms.len() implies member_ok(#[trigger] ms[i], b) by {
        assert(member_ok(ms[i], a));
    }
}

pub proof fn lemma_expr_mono(e: Expr, a: Bounds, b: Bounds)
    requires
        expr_ok(e, a),
        bounds_le(a, b),
    ensures
        expr_ok(e, b),
    decreases e,
{
    match e {
        Expr::Name { name } => lemma_name_mono(name, a, b),
        Expr::BinOp { lhs, rhs, .. } => {
            lemma_expr_mono(*lhs, a, b);
            lemma_expr_mono(*rhs, a, b);
        },
        _ => {},
    }
}

impl PackageDecl {
    pub proof fn lemma_mono(self, a: Bounds, b: Bounds)
        requires
            self.ok(a),
            bounds_le(a, b),
        ensures
            self.ok(b),
    {
        assert forall|i: int| 0 <= i < self.imports@.len() implies name_ok((#[trigger] self.imports@[i]).path, b) by {
            lemma_name_mono(self.imports@[i].path, a, b);
        }
        lemma_members_mono(self.members@, a, b);
    }
}

impl TypeDecl {
    pub proof fn lemma_mono(self, a: Bounds, b: Bounds)
        requires
            self.ok(a),
            bounds_le(a, b),
        ensures
            self.ok(b),
    {
        lemma_names_mono(self.specializations@, a, b);
        lemma_members_mono(self.members@, a, b);
    }
}

impl FeatureDecl {
    pub proof fn lemma_mono(self, a: Bounds, b: Bounds)
        requires
            self.ok(a),
            bounds_le(a, b),
        ensures
            self.ok(b),
    {
        match self.type_ref {
            Some(TypeExpr::Chain(c)) => lemma_names_mono(c.segments@, a, b),
            _ => {},
        }
        match self.chain {
            Some(c) => lemma_names_mono(c.segments@, a, b),
            None => {},
        }
        match self.multiplicity {
            Some(m) => {
                match m.lower {
                    Some(x) => lemma_expr_mono(x, a, b),
                    None => {},
                }
                match m.upper {
                    Some(x) => lemma_expr_mono(x, a, b),
                    None => {},
                }
            },
            None => {},
        }
    }
}

impl ConjugationDecl {
    pub proof fn lemma_mono(self, a: Bounds, b: Bounds)
        requires
            self.ok(a),
            bounds_le(a, b),
        ensures
            self.ok(b),
    {
    }
}

} // verus!
