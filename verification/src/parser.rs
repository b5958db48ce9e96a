//! The recursive-descent KerML parser, with error recovery.
use vstd::prelude::*;
use vstd::string::StringSliceAdditionalSpecFns;
use vstd::utf8::*;
use crate::arena::{Arena, Idx};
use crate::ast::{
    lemma_expr_mono, lemma_names_mono, lemma_name_mono, lemma_members_mono, expr_ok, opt_expr_ok, chain_ok,
    bounds_le, type_expr_ok, opt_name_ok,
    Bounds, ConjugationDecl, ConjugationDeclId, Expr, FeatureChain, FeatureDecl, FeatureDeclId,
    FeatureDirection, ImportDecl, Member, Multiplicity, PackageDecl, PackageId, QualifiedName,
    SourceFile, TypeDecl, TypeDeclId, TypeExpr, member_ok, members_ok, name_ok, names_ok,
};
use crate::decl_count::{
    arenas_closed, lemma_members_weight_stable, lemma_packages_weight_stable, member_in, member_weight,
    members_weight, packages_weight, prefix_of, lemma_members_weight_push, lemma_packages_weight_push,
    lemma_type_weight_unfold, lemma_package_weight_unfold, package_weight, decl_count,
};
use crate::diagnostic::{Diagnostic, DiagnosticSink, Label, Severity};
use crate::interner::{StringInterner, SymbolId};
use crate::lexer::{Lexer, token_at, lemma_token_progress, is_ident_start, in_class, ByteClass, is_digit, scan, lemma_scan_bounds};
use crate::span::{FileId, Span};
use crate::text::{str_slice, lemma_ascii_is_boundary};
use crate::token::{Token, TokenKind};

verus! {

/// The result of parsing a source file.
pub struct ParseResult {
    pub source_file: SourceFile,
    pub packages: Arena<PackageDecl>,
    pub types: Arena<TypeDecl>,
    pub features: Arena<FeatureDecl>,
    pub conjugations: Arena<ConjugationDecl>,
}

impl ParseResult {
    /// The sizes that the indices of this result may reach.
    pub open spec fn bounds(&self, nsym: nat) -> Bounds {
        Bounds {
            packages: self.packages@.len(),
            types: self.types@.len(),
            features: self.features@.len(),
            conjugations: self.conjugations@.len(),
            symbols: nsym,
        }
    }

    /// The declarations nest in the order they were made, so none contains itself.
    pub open spec fn nested(&self) -> bool {
        nesting_by_order(self.packages@, self.types@)
    }

    /// Closed under reference: every index in the result points into its arena, and
    /// every symbol is one of the first `nsym` interned strings.
    pub open spec fn wf(&self, nsym: nat) -> bool {
        let bd = self.bounds(nsym);
        &&& forall|i: int|
            0 <= i < self.source_file.packages@.len() ==> (
            #[trigger] self.source_file.packages@[i]).index() < bd.packages
        &&& members_ok(self.source_file.members@, bd)
        &&& forall|i: int| 0 <= i < self.packages@.len() ==> (#[trigger] self.packages@[i]).ok(bd)
        &&& forall|i: int| 0 <= i < self.types@.len() ==> (#[trigger] self.types@[i]).ok(bd)
        &&& forall|i: int| 0 <= i < self.features@.len() ==> (#[trigger] self.features@[i]).ok(bd)
        &&& forall|i: int|
            0 <= i < self.conjugations@.len() ==> (#[trigger] self.conjugations@[i]).ok(bd)
    }
}

/// Declarations nest in the order they were made: a package holds only packages made
/// before it, a type only types made before it, and no type holds a package.
pub open spec fn nesting_by_order(packages: Seq<PackageDecl>, types: Seq<TypeDecl>) -> bool {
    &&& forall|i: int, k: int|
        0 <= i < packages.len() && 0 <= k < packages[i].members@.len() ==> (
        #[trigger] packages[i].members@[k] matches Member::Package(q) ==> q.index() < i)
    &&& forall|j: int, k: int|
        0 <= j < types.len() && 0 <= k < types[j].members@.len() ==> match #[trigger] types[j].members@[k] {
            Member::Type(t) => t.index() < j,
            Member::Package(_) => false,
            _ => true,
        }
}

/// `d` is a syntax error: an error with one label, the primary one, which carries the
/// error's message.
#[verifier::opaque]
pub open spec fn syntax_error(d: Diagnostic) -> bool {
    &&& d.severity == Severity::Error
    &&& d.labels@.len() == 1
    &&& d.labels@[0].style == crate::diagnostic::LabelStyle::Primary
    &&& d.labels@[0].message@ == d.message@
}

/// Every diagnostic added after `old` is a syntax error, and `old` is kept as it was.
pub open spec fn only_errors_added(old: Seq<Diagnostic>, new: Seq<Diagnostic>) -> bool {
    &&& old.len() <= new.len()
    &&& new.subrange(0, old.len() as int) == old
    &&& forall|i: int| old.len() <= i < new.len() ==> syntax_error(#[trigger] new[i])
}

/// The interner kept every string it had, at the same position.
pub open spec fn interner_grows(old: Seq<Seq<char>>, new: Seq<Seq<char>>) -> bool {
    &&& old.len() <= new.len()
    &&& new.subrange(0, old.len() as int) == old
}

pub proof fn lemma_interner_grows_refl(s: Seq<Seq<char>>)
    ensures
        interner_grows(s, s),
{
    assert(s.subrange(0, s.len() as int) =~= s);
}

pub proof fn lemma_interner_grows_trans(a: Seq<Seq<char>>, b: Seq<Seq<char>>, c: Seq<Seq<char>>)
    requires
        interner_grows(a, b),
        interner_grows(b, c),
    ensures
        interner_grows(a, c),
{
    assert(c.subrange(0, a.len() as int) =~= b.subrange(0, a.len() as int));
}

pub proof fn lemma_only_errors_trans(a: Seq<Diagnostic>, b: Seq<Diagnostic>, c: Seq<Diagnostic>)
    requires
        only_errors_added(a, b),
        only_errors_added(b, c),
    ensures
        only_errors_added(a, c),
{
    assert(c.subrange(0, a.len() as int) =~= b.subrange(0, a.len() as int));
    assert forall|i: int| a.len() <= i < c.len() implies syntax_error(#[trigger] c[i]) by {
        if i < b.len() {
            assert(c[i] == c.subrange(0, b.len() as int)[i]);
            assert(syntax_error(b[i]));
        }
    }
}

pub proof fn lemma_only_errors_refl(a: Seq<Diagnostic>)
    ensures
        only_errors_added(a, a),
{
    assert(a.subrange(0, a.len() as int) =~= a);
}

/// Token `i` is an identifier whose text is symbol `name` of `iv`.
pub open spec fn names_token(
    b: Seq<u8>,
    toks: Seq<Token>,
    i: int,
    iv: Seq<Seq<char>>,
    name: SymbolId,
) -> bool {
    &&& 0 <= i < toks.len()
    &&& toks[i].kind == TokenKind::Ident
    &&& (name.0 as int) < iv.len()
    &&& encode_utf8(iv[name.0 as int]) == token_text(b, toks[i])
}

/// `q` is the qualified name written from token `p`: an identifier at every second
/// token, the tokens between them `::`.
pub open spec fn qn_at(q: QualifiedName, names: Seq<Seq<char>>, b: Seq<u8>, toks: Seq<Token>, p: int) -> bool {
    &&& q.segments@.len() >= 1
    &&& qn_end(toks, p) == p + 2 * q.segments@.len() - 1
    &&& segments_spell(q.segments@, names, b, toks, p)
    &&& forall|k: int| 0 <= k < q.segments@.len() ==> ((#[trigger] q.segments@[k]).0 as int) < names.len()
}

/// The names `ns` are those written from the positions `starts`, one for one.
pub open spec fn names_at(ns: Seq<QualifiedName>, names: Seq<Seq<char>>, b: Seq<u8>, toks: Seq<Token>, starts: Seq<int>) -> bool {
    &&& ns.len() == starts.len()
    &&& forall|k: int| 0 <= k < ns.len() ==> qn_at(#[trigger] ns[k], names, b, toks, starts[k])
}

/// Where the names of `(, QualifiedName)*` from `q` start; a comma followed by no name
/// gives none.
pub open spec fn name_list_starts(toks: Seq<Token>, q: int) -> Seq<int>
    decreases toks.len() - q,
{
    if 0 <= q < toks.len() && kind_at(toks, q) == TokenKind::Comma {
        let r = qn_end(toks, q + 1);
        let here = if kind_at(toks, q + 1) == TokenKind::Ident {
            seq![q + 1]
        } else {
            Seq::<int>::empty()
        };
        if q < r <= toks.len() {
            here + name_list_starts(toks, r)
        } else {
            here
        }
    } else {
        Seq::empty()
    }
}

/// Where the names of any number of `(:> | specializes) QualifiedName (, QualifiedName)*`
/// from `q` start.
pub open spec fn specialization_starts(toks: Seq<Token>, q: int) -> Seq<int>
    decreases toks.len() - q,
{
    if 0 <= q < toks.len() && (kind_at(toks, q) == TokenKind::ColonGt || kind_at(toks, q)
        == TokenKind::Specializes) {
        let here = if kind_at(toks, q + 1) == TokenKind::Ident {
            seq![q + 1]
        } else {
            Seq::<int>::empty()
        };
        let t = qn_end(toks, q + 1);
        let r = name_list_tail_end(toks, t);
        let all = here + name_list_starts(toks, t);
        if q < r <= toks.len() {
            all + specialization_starts(toks, r)
        } else {
            all
        }
    } else {
        Seq::empty()
    }
}

pub proof fn lemma_qn_at_grows(q: QualifiedName, names: Seq<Seq<char>>, names2: Seq<Seq<char>>, b: Seq<u8>, toks: Seq<Token>, p: int)
    requires
        qn_at(q, names, b, toks, p),
        interner_grows(names, names2),
    ensures
        qn_at(q, names2, b, toks, p),
{
    let segs = q.segments@;
    assert(segments_spell(segs, names, b, toks, p));
    assert forall|k: int| 0 <= k < segs.len() implies #[trigger] toks[p + 2 * k].kind == TokenKind::Ident by {
        let sk = segs[k];
        assert(encode_utf8(names[sk.0 as int]) == token_text(b, toks[p + 2 * k]));
    }
    assert forall|k: int| 0 <= k < segs.len() implies encode_utf8(names2[(#[trigger] segs[k]).0 as int]) == token_text(b, toks[p + 2 * k]) by {
        assert((segs[k].0 as int) < names.len());
        assert(names2.subrange(0, names.len() as int)[segs[k].0 as int] == names2[segs[k].0 as int]);
    }
    assert forall|k: int| 0 <= k < segs.len() implies ((#[trigger] segs[k]).0 as int) < names2.len() by {
        assert((segs[k].0 as int) < names.len());
    }
}

pub proof fn lemma_names_at_grows(ns: Seq<QualifiedName>, names: Seq<Seq<char>>, names2: Seq<Seq<char>>, b: Seq<u8>, toks: Seq<Token>, starts: Seq<int>)
    requires
        names_at(ns, names, b, toks, starts),
        interner_grows(names, names2),
    ensures
        names_at(ns, names2, b, toks, starts),
{
    assert forall|k: int| 0 <= k < ns.len() implies qn_at(#[trigger] ns[k], names2, b, toks, starts[k]) by {
        lemma_qn_at_grows(ns[k], names, names2, b, toks, starts[k]);
    }
}

/// Names written at `s1` followed by names written at `s2`.
pub proof fn lemma_names_at_append(a: Seq<QualifiedName>, c: Seq<QualifiedName>, names: Seq<Seq<char>>, b: Seq<u8>, toks: Seq<Token>, s1: Seq<int>, s2: Seq<int>)
    requires
        names_at(a, names, b, toks, s1),
        names_at(c, names, b, toks, s2),
    ensures
        names_at(a + c, names, b, toks, s1 + s2),
{
    assert forall|k: int| 0 <= k < (a + c).len() implies qn_at(#[trigger] (a + c)[k], names, b, toks, (s1 + s2)[k]) by {
        if k < a.len() {
            assert((a + c)[k] == a[k]);
        } else {
            assert((a + c)[k] == c[k - a.len()]);
        }
    }
}

/// `e` is the expression atom written at token `p`: an integer literal (with its value,
/// or 0 when it does not fit in a `u64`), `*`, or a qualified name.
pub open spec fn expr_at(e: Expr, names: Seq<Seq<char>>, b: Seq<u8>, toks: Seq<Token>, p: int) -> bool {
    let t = toks[p];
    match e {
        Expr::IntLiteral { value, span } => {
            &&& t.kind == TokenKind::IntLiteral
            &&& span == t.span
            &&& value == if decimal_value(token_text(b, t)) <= u64::MAX {
                decimal_value(token_text(b, t))
            } else {
                0
            }
        },
        Expr::Star { span } => t.kind == TokenKind::Star && span == t.span,
        Expr::Name { name } => t.kind == TokenKind::Ident && qn_at(name, names, b, toks, p),
        Expr::BinOp { .. } => false,
    }
}

/// `m` is the multiplicity written from the `[` at token `p`: `[e]` gives `e` as the
/// upper bound and no lower one, `[a..b]` gives `a` and `b`, `b` left out where no
/// expression follows `..`.
pub open spec fn mult_at(m: Multiplicity, names: Seq<Seq<char>>, b: Seq<u8>, toks: Seq<Token>, p: int) -> bool {
    let q = atom_end(toks, p + 1);
    if kind_at(toks, q) == TokenKind::DotDot {
        &&& m.lower matches Some(e) && expr_at(e, names, b, toks, p + 1)
        &&& (m.upper is Some <==> is_atom_start(kind_at(toks, q + 1)))
        &&& (m.upper matches Some(e) ==> expr_at(e, names, b, toks, q + 1))
    } else {
        &&& m.lower is None
        &&& m.upper matches Some(e) && expr_at(e, names, b, toks, p + 1)
    }
}

/// `r` is the typing and the conjugation written from token `p`: `: T` types by `T`,
/// `: ~T` (or `: conjugates T`) by the conjugate of `T`, and `~ T` (or `conjugates T`)
/// conjugates `T`; nothing is kept where no name follows.
pub open spec fn typing_at(
    r: (Option<TypeExpr>, Option<QualifiedName>),
    names: Seq<Seq<char>>,
    b: Seq<u8>,
    toks: Seq<Token>,
    p: int,
) -> bool {
    if kind_at(toks, p) == TokenKind::Colon {
        &&& r.1 is None
        &&& if is_tilde(kind_at(toks, p + 1)) {
            &&& (r.0 is Some <==> kind_at(toks, p + 2) == TokenKind::Ident)
            &&& (r.0 matches Some(t) ==> t matches TypeExpr::Conjugated(c, _) && qn_at(c, names, b, toks, p + 2))
        } else {
            &&& (r.0 is Some <==> kind_at(toks, p + 1) == TokenKind::Ident)
            &&& (r.0 matches Some(t) ==> t matches TypeExpr::Named(c) && qn_at(c, names, b, toks, p + 1))
        }
    } else if is_tilde(kind_at(toks, p)) {
        &&& r.0 is None
        &&& (r.1 is Some <==> kind_at(toks, p + 1) == TokenKind::Ident)
        &&& (r.1 matches Some(c) ==> qn_at(c, names, b, toks, p + 1))
    } else {
        r.0 is None && r.1 is None
    }
}

pub proof fn lemma_expr_at_grows(e: Expr, names: Seq<Seq<char>>, names2: Seq<Seq<char>>, b: Seq<u8>, toks: Seq<Token>, p: int)
    requires
        expr_at(e, names, b, toks, p),
        interner_grows(names, names2),
    ensures
        expr_at(e, names2, b, toks, p),
{
    if let Expr::Name { name } = e {
        lemma_qn_at_grows(name, names, names2, b, toks, p);
    }
}

pub proof fn lemma_mult_at_grows(m: Multiplicity, names: Seq<Seq<char>>, names2: Seq<Seq<char>>, b: Seq<u8>, toks: Seq<Token>, p: int)
    requires
        mult_at(m, names, b, toks, p),
        interner_grows(names, names2),
    ensures
        mult_at(m, names2, b, toks, p),
{
    let q = atom_end(toks, p + 1);
    if let Some(e) = m.lower {
        lemma_expr_at_grows(e, names, names2, b, toks, p + 1);
    }
    if let Some(e) = m.upper {
        if kind_at(toks, q) == TokenKind::DotDot {
            lemma_expr_at_grows(e, names, names2, b, toks, q + 1);
        } else {
            lemma_expr_at_grows(e, names, names2, b, toks, p + 1);
        }
    }
}

pub proof fn lemma_typing_at_grows(
    r: (Option<TypeExpr>, Option<QualifiedName>),
    names: Seq<Seq<char>>,
    names2: Seq<Seq<char>>,
    b: Seq<u8>,
    toks: Seq<Token>,
    p: int,
)
    requires
        typing_at(r, names, b, toks, p),
        interner_grows(names, names2),
    ensures
        typing_at(r, names2, b, toks, p),
{
    match r.0 {
        Some(TypeExpr::Conjugated(c, _)) => lemma_qn_at_grows(c, names, names2, b, toks, p + 2),
        Some(TypeExpr::Named(c)) => lemma_qn_at_grows(c, names, names2, b, toks, p + 1),
        _ => {},
    }
    if let Some(c) = r.1 {
        lemma_qn_at_grows(c, names, names2, b, toks, p + 1);
    }
}

/// What feature `f`, declared at token `p`, holds after its name: the typing or the
/// conjugation written there, the feature chain after `chains`, and its multiplicity, as
/// written.
#[verifier::opaque]
pub open spec fn feature_body_at(f: FeatureDecl, names: Seq<Seq<char>>, b: Seq<u8>, toks: Seq<Token>, p: int) -> bool {
    let q = feature_keyword_pos(toks, p);
    let t = typing_end(toks, q + 2);
    let c = if kind_at(toks, t) == TokenKind::Chains {
        chain_end(toks, t + 1)
    } else {
        t
    };
    &&& typing_at((f.type_ref, f.conjugation), names, b, toks, q + 2)
    &&& (f.chain is Some <==> kind_at(toks, t) == TokenKind::Chains && kind_at(toks, t + 1) == TokenKind::Ident)
    &&& (f.chain matches Some(ch) ==> names_at(ch.segments@, names, b, toks, chain_starts(toks, t + 1)))
    &&& (f.multiplicity is Some <==> kind_at(toks, c) == TokenKind::LBracket && is_atom_start(kind_at(toks, c + 1)))
    &&& (f.multiplicity matches Some(m) ==> mult_at(m, names, b, toks, c))
}

pub proof fn lemma_feature_body_grows(f: FeatureDecl, names: Seq<Seq<char>>, names2: Seq<Seq<char>>, b: Seq<u8>, toks: Seq<Token>, p: int)
    requires
        feature_body_at(f, names, b, toks, p),
        interner_grows(names, names2),
    ensures
        feature_body_at(f, names2, b, toks, p),
{
    reveal(feature_body_at);
    let q = feature_keyword_pos(toks, p);
    let t = typing_end(toks, q + 2);
    let c = if kind_at(toks, t) == TokenKind::Chains {
        chain_end(toks, t + 1)
    } else {
        t
    };
    lemma_typing_at_grows((f.type_ref, f.conjugation), names, names2, b, toks, q + 2);
    if let Some(ch) = f.chain {
        lemma_names_at_grows(ch.segments@, names, names2, b, toks, chain_starts(toks, t + 1));
    }
    if let Some(m) = f.multiplicity {
        lemma_mult_at_grows(m, names, names2, b, toks, c);
    }
}

/// Whether the step at `q` is an import that names something.
pub open spec fn import_made(toks: Seq<Token>, q: int) -> bool {
    kind_at(toks, q) == TokenKind::Import && kind_at(toks, q + 1) == TokenKind::Ident
}

/// Whether the path that ends at `q` is followed by `::*` or `*`.
pub open spec fn import_wildcard(toks: Seq<Token>, q: int) -> bool {
    ||| (kind_at(toks, q) == TokenKind::ColonColon && q + 1 < toks.len() && kind_at(toks, q + 1) == TokenKind::Star)
    ||| kind_at(toks, q) == TokenKind::Star
}

/// `i` is the import written at token `p`: its path as written after `import`, a wildcard
/// exactly when `::*` (or `*`) follows the path, and no visibility.
pub open spec fn import_at(i: ImportDecl, names: Seq<Seq<char>>, b: Seq<u8>, toks: Seq<Token>, p: int) -> bool {
    &&& qn_at(i.path, names, b, toks, p + 1)
    &&& i.is_wildcard == import_wildcard(toks, qn_end(toks, p + 1))
    &&& i.visibility is None
}

/// The imports `ims` are those written at the positions `steps`, one for one.
pub open spec fn imports_at(ims: Seq<ImportDecl>, names: Seq<Seq<char>>, b: Seq<u8>, toks: Seq<Token>, steps: Seq<int>) -> bool {
    &&& ims.len() == steps.len()
    &&& forall|k: int| 0 <= k < ims.len() ==> import_at(#[trigger] ims[k], names, b, toks, steps[k])
}

pub proof fn lemma_imports_at_grows(ims: Seq<ImportDecl>, names: Seq<Seq<char>>, names2: Seq<Seq<char>>, b: Seq<u8>, toks: Seq<Token>, steps: Seq<int>)
    requires
        imports_at(ims, names, b, toks, steps),
        interner_grows(names, names2),
    ensures
        imports_at(ims, names2, b, toks, steps),
{
    assert forall|k: int| 0 <= k < ims.len() implies import_at(#[trigger] ims[k], names2, b, toks, steps[k]) by {
        lemma_qn_at_grows(ims[k].path, names, names2, b, toks, steps[k] + 1);
    }
}

/// The two sides of conjugation declaration `d`, declared at token `p`: the name after
/// `conjugate` and the name after `conjugates`, as written.
#[verifier::opaque]
pub open spec fn conjugation_sides_at(d: ConjugationDecl, names: Seq<Seq<char>>, b: Seq<u8>, toks: Seq<Token>, p: int) -> bool {
    &&& qn_at(d.conjugated_type, names, b, toks, p + 3)
    &&& qn_at(d.original_type, names, b, toks, qn_end(toks, p + 3) + 1)
}

pub proof fn lemma_conjugation_sides_grows(d: ConjugationDecl, names: Seq<Seq<char>>, names2: Seq<Seq<char>>, b: Seq<u8>, toks: Seq<Token>, p: int)
    requires
        conjugation_sides_at(d, names, b, toks, p),
        interner_grows(names, names2),
    ensures
        conjugation_sides_at(d, names2, b, toks, p),
{
    reveal(conjugation_sides_at);
    lemma_qn_at_grows(d.conjugated_type, names, names2, b, toks, p + 3);
    lemma_qn_at_grows(d.original_type, names, names2, b, toks, qn_end(toks, p + 3) + 1);
}

/// Where the names of the `. QualifiedName` parts of a feature chain from `q` start.
pub open spec fn chain_tail_starts(toks: Seq<Token>, q: int) -> Seq<int>
    decreases toks.len() - q,
{
    if 0 <= q < toks.len() && kind_at(toks, q) == TokenKind::Dot && q + 1 < toks.len() && kind_at(toks, q + 1)
        == TokenKind::Ident {
        let r = qn_tail_end(toks, q + 2);
        if q < r <= toks.len() {
            seq![q + 1] + chain_tail_starts(toks, r)
        } else {
            seq![q + 1]
        }
    } else {
        Seq::empty()
    }
}

/// Where the names of the feature chain written from `p` start.
pub open spec fn chain_starts(toks: Seq<Token>, p: int) -> Seq<int> {
    seq![p] + chain_tail_starts(toks, qn_tail_end(toks, p + 1))
}

/// `r` is what parsing the bytes `b` of file `file` builds, `names` being the interned
/// strings: well formed and nested in order; its top-level packages and members are the
/// declarations at the top-level steps of the significant tokens, one for one; and
/// every package and type in it is declared in the text with the members, imports and
/// header written there.
pub open spec fn parsed_from(r: ParseResult, b: Seq<u8>, file: FileId, names: Seq<Seq<char>>) -> bool {
    let toks = significant_tokens(b, file, 0);
    &&& r.wf(names.len())
    &&& r.nested()
    &&& r.source_file.span.file == file
    &&& r.source_file.packages@.len() == package_steps(toks, 0).len()
    &&& forall|k: int|
        0 <= k < r.source_file.packages@.len() ==> package_at(
            r.packages@,
            #[trigger] r.source_file.packages@[k],
            b,
            toks,
            names,
            package_steps(toks, 0)[k],
        )
    &&& r.source_file.members@.len() == member_steps(toks, 0).len()
    &&& forall|k: int|
        0 <= k < r.source_file.members@.len() ==> member_at(
            r.types@,
            r.features@,
            r.conjugations@,
            #[trigger] r.source_file.members@[k],
            b,
            toks,
            names,
            member_steps(toks, 0)[k],
        )
    &&& bodies_between(
        Built {
            packages: r.packages@,
            types: r.types@,
            features: r.features@,
            conjugations: r.conjugations@,
            names: names,
        },
        b,
        toks,
        0,
        r.packages@.len() as int,
        0,
        r.types@.len() as int,
    )
}

/// Every import path refers only to interned symbols.
pub open spec fn imports_ok(imports: Seq<ImportDecl>, bd: Bounds) -> bool {
    forall|i: int| 0 <= i < imports.len() ==> name_ok((#[trigger] imports[i]).path, bd)
}

pub proof fn lemma_imports_mono(imports: Seq<ImportDecl>, a: Bounds, b: Bounds)
    requires
        imports_ok(imports, a),
        bounds_le(a, b),
    ensures
        imports_ok(imports, b),
{
    assert forall|i: int| 0 <= i < imports.len() implies name_ok((#[trigger] imports[i]).path, b) by {
        lemma_name_mono(imports[i].path, a, b);
    }
}

/// The direction that a leading `in`, `out` or `inout` gives a feature.
pub open spec fn direction_of(k: TokenKind) -> Option<FeatureDirection> {
    match k {
        TokenKind::In => Some(FeatureDirection::In),
        TokenKind::Out => Some(FeatureDirection::Out),
        TokenKind::InOut => Some(FeatureDirection::InOut),
        _ => None,
    }
}

/// Segment `k` of a qualified name is the identifier token at `p + 2k`, interned.
pub open spec fn segments_spell(
    segs: Seq<SymbolId>,
    names: Seq<Seq<char>>,
    b: Seq<u8>,
    toks: Seq<Token>,
    p: int,
) -> bool {
    forall|k: int|
        0 <= k < segs.len() ==> {
            &&& toks[p + 2 * k].kind == TokenKind::Ident
            &&& encode_utf8(names[(#[trigger] segs[k]).0 as int]) == token_text(b, toks[p + 2 * k])
        }
}

pub proof fn lemma_segments_spell_push(
    segs: Seq<SymbolId>,
    names: Seq<Seq<char>>,
    names2: Seq<Seq<char>>,
    b: Seq<u8>,
    toks: Seq<Token>,
    p: int,
    seg: SymbolId,
)
    requires
        segments_spell(segs, names, b, toks, p),
        interner_grows(names, names2),
        forall|i: int| 0 <= i < segs.len() ==> (#[trigger] segs[i]).0 < names.len(),
        toks[p + 2 * segs.len()].kind == TokenKind::Ident,
        encode_utf8(names2[seg.0 as int]) == token_text(b, toks[p + 2 * segs.len()]),
    ensures
        segments_spell(segs.push(seg), names2, b, toks, p),
{
    let s2 = segs.push(seg);
    assert forall|k: int| 0 <= k < s2.len() implies #[trigger] toks[p + 2 * k].kind == TokenKind::Ident by {
        if k < segs.len() {
            assert(s2[k] == segs[k]);
        }
    }
    assert forall|k: int| 0 <= k < s2.len() implies encode_utf8(names2[(#[trigger] s2[k]).0 as int]) == token_text(b, toks[p + 2 * k]) by {
        if k < segs.len() {
            assert(s2[k] == segs[k]);
            assert(names2.subrange(0, names.len() as int)[segs[k].0 as int] == names2[segs[k].0 as int]);
        }
    }
}

/// A decimal value that overflows `u64` in a prefix overflows in the whole run.
pub proof fn lemma_decimal_overflow(w: Seq<u8>, n: int)
    requires
        0 < n <= w.len(),
        forall|j: int| 0 <= j < w.len() ==> is_digit(#[trigger] w[j]),
        decimal_value(w.subrange(0, n - 1)) * 10 + (w[n - 1] - 48u8) as nat > u64::MAX,
    ensures
        decimal_value(w) > u64::MAX,
    decreases w.len(),
{
    if n == w.len() {
        assert(w.drop_last() =~= w.subrange(0, n - 1));
    } else {
        assert(w.drop_last().subrange(0, n - 1) =~= w.subrange(0, n - 1));
        lemma_decimal_overflow(w.drop_last(), n);
        assert(decimal_value(w) >= decimal_value(w.drop_last()) * 10) by (nonlinear_arith)
            requires
                decimal_value(w) == decimal_value(w.drop_last()) * 10 + (w.last() - 48u8) as nat,
        ;
    }
}

/// The bytes that token `t` covers.
pub open spec fn token_text(b: Seq<u8>, t: Token) -> Seq<u8> {
    b.subrange(t.span.start as int, t.span.end as int)
}

/// The tokens the parser works on: every significant token of `b`, as the lexer
/// produces it, and a final `Eof`.
pub open spec fn tokens_wf(b: Seq<u8>, file: FileId, toks: Seq<Token>) -> bool {
    &&& 1 <= toks.len() <= b.len() + 1
    &&& toks.last().kind == TokenKind::Eof
    &&& toks.last().span.file == file
    &&& forall|i: int|
        0 <= i < toks.len() - 1 ==> {
            let t = #[trigger] toks[i];
            &&& t.kind != TokenKind::Eof
            &&& t.kind != TokenKind::Whitespace
            &&& t.kind != TokenKind::Comment
            &&& t.span.file == file
            &&& t.span.start < t.span.end <= b.len()
            &&& token_at(b, t.span.start as int) == (t.kind, t.span.end as int)
        }
}

/// The significant tokens of `b` from position `p` on, ending with `Eof`.
pub open spec fn significant_tokens(b: Seq<u8>, file: FileId, p: int) -> Seq<Token>
    decreases b.len() - p,
{
    if p < 0 || p >= b.len() {
        seq![Token { kind: TokenKind::Eof, span: Span { file, start: p as u32, end: p as u32 } }]
    } else {
        proof {
            lemma_token_progress(b, p);
        }
        let (k, e) = token_at(b, p);
        let rest = significant_tokens(b, file, e);
        if k == TokenKind::Whitespace || k == TokenKind::Comment {
            rest
        } else {
            seq![Token { kind: k, span: Span { file, start: p as u32, end: e as u32 } }] + rest
        }
    }
}

/// The value of a run of decimal digits.
pub open spec fn decimal_value(w: Seq<u8>) -> nat
    decreases w.len(),
{
    if w.len() == 0 {
        0
    } else {
        decimal_value(w.drop_last()) * 10 + (w.last() - 48u8) as nat
    }
}

/// The end of the `(:: Ident)*` tail of a qualified name whose tail starts at `i`.
pub open spec fn qn_tail_end(toks: Seq<Token>, i: int) -> int
    decreases toks.len() - i,
{
    if 0 <= i && i + 1 < toks.len() && toks[i].kind == TokenKind::ColonColon && toks[i + 1].kind
        == TokenKind::Ident {
        qn_tail_end(toks, i + 2)
    } else {
        i
    }
}

/// Where `synchronize` stops from position `p`: before the next declaration keyword or
/// `Eof`, or just after the next `}` or `;`.
pub open spec fn sync_point(toks: Seq<Token>, p: int) -> int
    decreases toks.len() - p,
{
    if p < 0 || p >= toks.len() - 1 {
        p
    } else {
        let k = toks[p].kind;
        if is_decl_start(k) || k == TokenKind::Import {
            p
        } else if k == TokenKind::RBrace || k == TokenKind::Semicolon {
            p + 1
        } else {
            sync_point(toks, p + 1)
        }
    }
}

/// The tokens that may begin a declaration.
pub open spec fn is_decl_start(k: TokenKind) -> bool {
    k == TokenKind::Package || k == TokenKind::Type || k == TokenKind::Feature || k
        == TokenKind::Conjugation || k == TokenKind::In || k == TokenKind::Out || k
        == TokenKind::InOut
}

/// A token that names a symbol still names it once the interner has grown.
pub proof fn lemma_names_token_grows(
    b: Seq<u8>,
    toks: Seq<Token>,
    i: int,
    iv1: Seq<Seq<char>>,
    iv2: Seq<Seq<char>>,
    name: SymbolId,
)
    requires
        names_token(b, toks, i, iv1, name),
        interner_grows(iv1, iv2),
    ensures
        names_token(b, toks, i, iv2, name),
{
    assert(iv2[name.0 as int] == iv2.subrange(0, iv1.len() as int)[name.0 as int]);
}

// The extent of each construct: where the parser stands after it, from where it
// started, for tokens `toks`. Every error path is part of the construct it occurs in.

/// The token kind at `i`.
pub open spec fn kind_at(toks: Seq<Token>, i: int) -> TokenKind {
    toks[i].kind
}

/// After an optional token of kind `k` at `p`.
pub open spec fn optional_end(toks: Seq<Token>, p: int, k: TokenKind) -> int {
    if kind_at(toks, p) == k {
        p + 1
    } else {
        p
    }
}

/// After a qualified name starting at `p`; nothing is consumed unless an identifier is
/// there.
pub open spec fn qn_end(toks: Seq<Token>, p: int) -> int {
    if kind_at(toks, p) == TokenKind::Ident {
        qn_tail_end(toks, p + 1)
    } else {
        p
    }
}

/// After the `. QualifiedName` parts of a feature chain, from `q`.
pub open spec fn chain_tail_end(toks: Seq<Token>, q: int) -> int
    decreases toks.len() - q,
{
    if 0 <= q < toks.len() && kind_at(toks, q) == TokenKind::Dot && q + 1 < toks.len() {
        if kind_at(toks, q + 1) == TokenKind::Ident {
            let r = qn_tail_end(toks, q + 2);
            if q < r <= toks.len() {
                chain_tail_end(toks, r)
            } else {
                r
            }
        } else {
            q + 1
        }
    } else {
        q
    }
}

/// After a feature chain starting at `p`.
pub open spec fn chain_end(toks: Seq<Token>, p: int) -> int {
    if kind_at(toks, p) == TokenKind::Ident {
        chain_tail_end(toks, qn_tail_end(toks, p + 1))
    } else {
        p
    }
}

/// After an expression atom at `p`: a literal, `*` or a qualified name.
pub open spec fn atom_end(toks: Seq<Token>, p: int) -> int {
    let k = kind_at(toks, p);
    if k == TokenKind::IntLiteral || k == TokenKind::Star {
        p + 1
    } else if k == TokenKind::Ident {
        qn_tail_end(toks, p + 1)
    } else {
        p
    }
}

pub open spec fn is_atom_start(k: TokenKind) -> bool {
    k == TokenKind::IntLiteral || k == TokenKind::Star || k == TokenKind::Ident
}

/// After a multiplicity `[ Expr ]` or `[ Expr .. Expr ]` starting at `p`.
pub open spec fn multiplicity_end(toks: Seq<Token>, p: int) -> int {
    if kind_at(toks, p) != TokenKind::LBracket {
        p
    } else if !is_atom_start(kind_at(toks, p + 1)) {
        p + 1
    } else {
        let q = atom_end(toks, p + 1);
        let r = if kind_at(toks, q) == TokenKind::DotDot {
            atom_end(toks, q + 1)
        } else {
            q
        };
        optional_end(toks, r, TokenKind::RBracket)
    }
}

/// After an import `import QualifiedName (::*)? ;` starting at `p`.
pub open spec fn import_end(toks: Seq<Token>, p: int) -> int {
    if kind_at(toks, p) != TokenKind::Import {
        p
    } else if kind_at(toks, p + 1) != TokenKind::Ident {
        p + 1
    } else {
        let q = qn_tail_end(toks, p + 2);
        let r = if kind_at(toks, q) == TokenKind::ColonColon && q + 1 < toks.len() && kind_at(toks, q + 1)
            == TokenKind::Star {
            q + 2
        } else if kind_at(toks, q) == TokenKind::Star {
            q + 1
        } else {
            q
        };
        optional_end(toks, r, TokenKind::Semicolon)
    }
}

/// After a conjugation declaration
/// `conjugation Name conjugate QualifiedName conjugates QualifiedName ;?` starting at `p`;
/// a declaration broken after its name skips to the next synchronization point.
pub open spec fn conjugation_end(toks: Seq<Token>, p: int) -> int {
    if kind_at(toks, p) != TokenKind::Conjugation {
        p
    } else if kind_at(toks, p + 1) != TokenKind::Ident {
        p + 1
    } else if kind_at(toks, p + 2) != TokenKind::Conjugate {
        sync_point(toks, p + 2)
    } else if kind_at(toks, p + 3) != TokenKind::Ident {
        sync_point(toks, p + 3)
    } else {
        let q = qn_tail_end(toks, p + 4);
        if kind_at(toks, q) != TokenKind::Conjugates {
            sync_point(toks, q)
        } else if kind_at(toks, q + 1) != TokenKind::Ident {
            sync_point(toks, q + 1)
        } else {
            optional_end(toks, qn_tail_end(toks, q + 2), TokenKind::Semicolon)
        }
    }
}

/// Whether `k` is `~` or `conjugates`.
pub open spec fn is_tilde(k: TokenKind) -> bool {
    k == TokenKind::Tilde || k == TokenKind::Conjugates
}

/// After the typing part of a feature starting at `p`: `: Name`, `: ~Name` or `~ Name`.
pub open spec fn typing_end(toks: Seq<Token>, p: int) -> int {
    if kind_at(toks, p) == TokenKind::Colon {
        if is_tilde(kind_at(toks, p + 1)) {
            qn_end(toks, p + 2)
        } else {
            qn_end(toks, p + 1)
        }
    } else if is_tilde(kind_at(toks, p)) {
        qn_end(toks, p + 1)
    } else {
        p
    }
}

/// After a feature declaration `(in|out|inout)? feature Name Typing? (chains Chain)?
/// Multiplicity? ;?` starting at `p`.
pub open spec fn feature_end(toks: Seq<Token>, p: int) -> int {
    let q = if direction_of(kind_at(toks, p)) is Some {
        p + 1
    } else {
        p
    };
    if kind_at(toks, q) != TokenKind::Feature {
        q
    } else if kind_at(toks, q + 1) != TokenKind::Ident {
        q + 1
    } else {
        let t = typing_end(toks, q + 2);
        let c = if kind_at(toks, t) == TokenKind::Chains {
            chain_end(toks, t + 1)
        } else {
            t
        };
        let m = if kind_at(toks, c) == TokenKind::LBracket {
            multiplicity_end(toks, c)
        } else {
            c
        };
        optional_end(toks, m, TokenKind::Semicolon)
    }
}

/// After the `, QualifiedName` parts of a name list, from `q`.
pub open spec fn name_list_tail_end(toks: Seq<Token>, q: int) -> int
    decreases toks.len() - q,
{
    if 0 <= q < toks.len() && kind_at(toks, q) == TokenKind::Comma {
        let r = qn_end(toks, q + 1);
        if q < r <= toks.len() {
            name_list_tail_end(toks, r)
        } else {
            r
        }
    } else {
        q
    }
}

/// After any number of `(:> | specializes) QualifiedName (, QualifiedName)*`, from `q`.
pub open spec fn specializations_end(toks: Seq<Token>, q: int) -> int
    decreases toks.len() - q,
{
    if 0 <= q < toks.len() && (kind_at(toks, q) == TokenKind::ColonGt || kind_at(toks, q)
        == TokenKind::Specializes) {
        let r = name_list_tail_end(toks, qn_end(toks, q + 1));
        if q < r <= toks.len() {
            specializations_end(toks, r)
        } else {
            r
        }
    } else {
        q
    }
}

/// Whether `k` starts a feature declaration.
pub open spec fn is_feature_start(k: TokenKind) -> bool {
    k == TokenKind::Feature || k == TokenKind::In || k == TokenKind::Out || k == TokenKind::InOut
}

/// Where a step of a body loop leaves the parser: where the construct at `q` ends, or
/// one token further when it consumed nothing.
pub open spec fn step_or_skip(q: int, s: int) -> int {
    if s == q {
        q + 1
    } else {
        s
    }
}

/// After a type declaration `type Name Specializations? ((~ | conjugates) Name)?
/// ({ Members } | ;)?` starting at `p`.
pub open spec fn type_decl_end(toks: Seq<Token>, p: int) -> int
    decreases toks.len() - p, 0nat,
{
    if !(0 <= p < toks.len()) || kind_at(toks, p) != TokenKind::Type {
        p
    } else if kind_at(toks, p + 1) != TokenKind::Ident {
        p + 1
    } else {
        let q = specializations_end(toks, p + 2);
        let r = if is_tilde(kind_at(toks, q)) {
            qn_end(toks, q + 1)
        } else {
            q
        };
        if kind_at(toks, r) == TokenKind::LBrace {
            if p < r + 1 <= toks.len() {
                type_members_end(toks, r + 1)
            } else {
                r + 1
            }
        } else {
            optional_end(toks, r, TokenKind::Semicolon)
        }
    }
}

/// After the members of a type body from `q`, through its `}`; each member is a type,
/// a feature or a conjugation declaration, and anything else is reported and skipped.
pub open spec fn type_members_end(toks: Seq<Token>, q: int) -> int
    decreases toks.len() - q, 1nat,
{
    if !(0 <= q < toks.len()) {
        q
    } else if kind_at(toks, q) == TokenKind::RBrace {
        q + 1
    } else if kind_at(toks, q) == TokenKind::Eof {
        q
    } else {
        let k = kind_at(toks, q);
        let s = if k == TokenKind::Type {
            type_decl_end(toks, q)
        } else if is_feature_start(k) {
            feature_end(toks, q)
        } else if k == TokenKind::Conjugation {
            conjugation_end(toks, q)
        } else {
            sync_point(toks, q)
        };
        let s2 = step_or_skip(q, s);
        if q < s2 <= toks.len() {
            type_members_end(toks, s2)
        } else {
            s2
        }
    }
}

/// After a package `package Name { (Import | Member)* }` starting at `p`.
pub open spec fn package_end(toks: Seq<Token>, p: int) -> int
    decreases toks.len() - p, 0nat,
{
    if !(0 <= p < toks.len()) || kind_at(toks, p) != TokenKind::Package {
        p
    } else if kind_at(toks, p + 1) != TokenKind::Ident {
        p + 1
    } else if kind_at(toks, p + 2) != TokenKind::LBrace {
        p + 2
    } else {
        let q = if p + 3 <= toks.len() {
            package_members_end(toks, p + 3)
        } else {
            p + 3
        };
        optional_end(toks, q, TokenKind::RBrace)
    }
}

/// Where the members of a package body from `q` stop: at its `}` or at the end.
pub open spec fn package_members_end(toks: Seq<Token>, q: int) -> int
    decreases toks.len() - q, 1nat,
{
    if !(0 <= q < toks.len()) || kind_at(toks, q) == TokenKind::RBrace || kind_at(toks, q)
        == TokenKind::Eof {
        q
    } else {
        let k = kind_at(toks, q);
        let s = if k == TokenKind::Import {
            import_end(toks, q)
        } else if k == TokenKind::Package {
            package_end(toks, q)
        } else if k == TokenKind::Type {
            type_decl_end(toks, q)
        } else if is_feature_start(k) {
            feature_end(toks, q)
        } else if k == TokenKind::Conjugation {
            conjugation_end(toks, q)
        } else {
            sync_point(toks, q)
        };
        let s2 = step_or_skip(q, s);
        if q < s2 <= toks.len() {
            package_members_end(toks, s2)
        } else {
            s2
        }
    }
}

// Which constructs parse without a diagnostic: each of the following holds exactly
// when the construct starting at its position reports no error.

pub open spec fn chain_tail_clean(toks: Seq<Token>, q: int) -> bool
    decreases toks.len() - q,
{
    if 0 <= q < toks.len() && kind_at(toks, q) == TokenKind::Dot && q + 1 < toks.len() {
        if kind_at(toks, q + 1) == TokenKind::Ident {
            let r = qn_tail_end(toks, q + 2);
            if q < r <= toks.len() {
                chain_tail_clean(toks, r)
            } else {
                true
            }
        } else {
            false
        }
    } else {
        true
    }
}

pub open spec fn chain_clean(toks: Seq<Token>, p: int) -> bool {
    kind_at(toks, p) == TokenKind::Ident && chain_tail_clean(toks, qn_tail_end(toks, p + 1))
}

pub open spec fn multiplicity_clean(toks: Seq<Token>, p: int) -> bool {
    let q = atom_end(toks, p + 1);
    &&& kind_at(toks, p) == TokenKind::LBracket
    &&& is_atom_start(kind_at(toks, p + 1))
    &&& if kind_at(toks, q) == TokenKind::DotDot {
        is_atom_start(kind_at(toks, q + 1)) && kind_at(toks, atom_end(toks, q + 1)) == TokenKind::RBracket
    } else {
        kind_at(toks, q) == TokenKind::RBracket
    }
}

pub open spec fn import_clean(toks: Seq<Token>, p: int) -> bool {
    let q = qn_tail_end(toks, p + 2);
    let r = if kind_at(toks, q) == TokenKind::ColonColon && q + 1 < toks.len() && kind_at(toks, q + 1)
        == TokenKind::Star {
        q + 2
    } else if kind_at(toks, q) == TokenKind::Star {
        q + 1
    } else {
        q
    };
    &&& kind_at(toks, p) == TokenKind::Import
    &&& kind_at(toks, p + 1) == TokenKind::Ident
    &&& kind_at(toks, r) == TokenKind::Semicolon
}

pub open spec fn conjugation_clean(toks: Seq<Token>, p: int) -> bool {
    let q = qn_tail_end(toks, p + 4);
    conjugation_made(toks, p) && kind_at(toks, qn_tail_end(toks, q + 2)) == TokenKind::Semicolon
}

pub open spec fn typing_clean(toks: Seq<Token>, p: int) -> bool {
    if kind_at(toks, p) == TokenKind::Colon {
        if is_tilde(kind_at(toks, p + 1)) {
            kind_at(toks, p + 2) == TokenKind::Ident
        } else {
            kind_at(toks, p + 1) == TokenKind::Ident
        }
    } else if is_tilde(kind_at(toks, p)) {
        kind_at(toks, p + 1) == TokenKind::Ident
    } else {
        true
    }
}

pub open spec fn feature_clean(toks: Seq<Token>, p: int) -> bool {
    let q = feature_keyword_pos(toks, p);
    let t = typing_end(toks, q + 2);
    let c = if kind_at(toks, t) == TokenKind::Chains {
        chain_end(toks, t + 1)
    } else {
        t
    };
    &&& kind_at(toks, q) == TokenKind::Feature
    &&& kind_at(toks, q + 1) == TokenKind::Ident
    &&& typing_clean(toks, q + 2)
    &&& (kind_at(toks, t) == TokenKind::Chains ==> chain_clean(toks, t + 1))
    &&& (kind_at(toks, c) == TokenKind::LBracket ==> multiplicity_clean(toks, c))
}

pub open spec fn name_list_tail_clean(toks: Seq<Token>, q: int) -> bool
    decreases toks.len() - q,
{
    if 0 <= q < toks.len() && kind_at(toks, q) == TokenKind::Comma {
        let r = qn_end(toks, q + 1);
        kind_at(toks, q + 1) == TokenKind::Ident && if q < r <= toks.len() {
            name_list_tail_clean(toks, r)
        } else {
            true
        }
    } else {
        true
    }
}

pub open spec fn specializations_clean(toks: Seq<Token>, q: int) -> bool
    decreases toks.len() - q,
{
    if 0 <= q < toks.len() && (kind_at(toks, q) == TokenKind::ColonGt || kind_at(toks, q)
        == TokenKind::Specializes) {
        let r = name_list_tail_end(toks, qn_end(toks, q + 1));
        &&& kind_at(toks, q + 1) == TokenKind::Ident
        &&& name_list_tail_clean(toks, qn_end(toks, q + 1))
        &&& if q < r <= toks.len() {
            specializations_clean(toks, r)
        } else {
            true
        }
    } else {
        true
    }
}

pub open spec fn type_decl_clean(toks: Seq<Token>, p: int) -> bool
    decreases toks.len() - p, 0nat,
{
    if !(0 <= p < toks.len()) || kind_at(toks, p) != TokenKind::Type || kind_at(toks, p + 1)
        != TokenKind::Ident {
        false
    } else {
        let q = specializations_end(toks, p + 2);
        let r = type_header_end(toks, p);
        &&& specializations_clean(toks, p + 2)
        &&& (is_tilde(kind_at(toks, q)) ==> kind_at(toks, q + 1) == TokenKind::Ident)
        &&& (kind_at(toks, r) == TokenKind::LBrace ==> if p < r + 1 <= toks.len() {
            type_members_clean(toks, r + 1)
        } else {
            true
        })
    }
}

pub open spec fn type_members_clean(toks: Seq<Token>, q: int) -> bool
    decreases toks.len() - q, 1nat,
{
    if !(0 <= q < toks.len()) || kind_at(toks, q) == TokenKind::RBrace {
        true
    } else if kind_at(toks, q) == TokenKind::Eof {
        false
    } else {
        let k = kind_at(toks, q);
        let here = if k == TokenKind::Type {
            type_decl_clean(toks, q)
        } else if is_feature_start(k) {
            feature_clean(toks, q)
        } else if k == TokenKind::Conjugation {
            conjugation_clean(toks, q)
        } else {
            false
        };
        let s = if k == TokenKind::Type {
            type_decl_end(toks, q)
        } else if is_feature_start(k) {
            feature_end(toks, q)
        } else if k == TokenKind::Conjugation {
            conjugation_end(toks, q)
        } else {
            sync_point(toks, q)
        };
        let s2 = step_or_skip(q, s);
        here && if q < s2 <= toks.len() {
            type_members_clean(toks, s2)
        } else {
            true
        }
    }
}

pub open spec fn package_clean(toks: Seq<Token>, p: int) -> bool
    decreases toks.len() - p, 0nat,
{
    if !(0 <= p < toks.len()) || kind_at(toks, p) != TokenKind::Package || kind_at(toks, p + 1)
        != TokenKind::Ident || kind_at(toks, p + 2) != TokenKind::LBrace {
        false
    } else if p + 3 <= toks.len() {
        package_members_clean(toks, p + 3) && kind_at(toks, package_members_end(toks, p + 3)) == TokenKind::RBrace
    } else {
        false
    }
}

pub open spec fn package_members_clean(toks: Seq<Token>, q: int) -> bool
    decreases toks.len() - q, 1nat,
{
    if !(0 <= q < toks.len()) || kind_at(toks, q) == TokenKind::RBrace || kind_at(toks, q)
        == TokenKind::Eof {
        true
    } else {
        let k = kind_at(toks, q);
        let here = if k == TokenKind::Import {
            import_clean(toks, q)
        } else if k == TokenKind::Package {
            package_clean(toks, q)
        } else if k == TokenKind::Type {
            type_decl_clean(toks, q)
        } else if is_feature_start(k) {
            feature_clean(toks, q)
        } else if k == TokenKind::Conjugation {
            conjugation_clean(toks, q)
        } else {
            false
        };
        let s = if k == TokenKind::Import {
            import_end(toks, q)
        } else if k == TokenKind::Package {
            package_end(toks, q)
        } else if k == TokenKind::Type {
            type_decl_end(toks, q)
        } else if is_feature_start(k) {
            feature_end(toks, q)
        } else if k == TokenKind::Conjugation {
            conjugation_end(toks, q)
        } else {
            sync_point(toks, q)
        };
        let s2 = step_or_skip(q, s);
        here && if q < s2 <= toks.len() {
            package_members_clean(toks, s2)
        } else {
            true
        }
    }
}

/// Whether the conjugation declaration at `p` is complete up to its original type, so
/// that it is built.
pub open spec fn conjugation_made(toks: Seq<Token>, p: int) -> bool {
    let q = qn_tail_end(toks, p + 4);
    &&& kind_at(toks, p) == TokenKind::Conjugation
    &&& kind_at(toks, p + 1) == TokenKind::Ident
    &&& kind_at(toks, p + 2) == TokenKind::Conjugate
    &&& kind_at(toks, p + 3) == TokenKind::Ident
    &&& kind_at(toks, q) == TokenKind::Conjugates
    &&& kind_at(toks, q + 1) == TokenKind::Ident
}

/// Where the keyword `feature` of a feature declaration at `p` stands: after its
/// direction, if it has one.
pub open spec fn feature_keyword_pos(toks: Seq<Token>, p: int) -> int {
    if direction_of(kind_at(toks, p)) is Some {
        p + 1
    } else {
        p
    }
}

pub open spec fn package_made(toks: Seq<Token>, p: int) -> bool {
    kind_at(toks, p) == TokenKind::Package && kind_at(toks, p + 1) == TokenKind::Ident
}

pub open spec fn type_made(toks: Seq<Token>, p: int) -> bool {
    kind_at(toks, p) == TokenKind::Type && kind_at(toks, p + 1) == TokenKind::Ident
}

pub open spec fn feature_made(toks: Seq<Token>, p: int) -> bool {
    let q = feature_keyword_pos(toks, p);
    is_feature_start(kind_at(toks, p)) && kind_at(toks, q) == TokenKind::Feature && kind_at(toks, q + 1)
        == TokenKind::Ident
}

/// Whether the step at `p` builds a member: a type, a feature or a conjugation
/// declaration.
pub open spec fn member_made(toks: Seq<Token>, p: int) -> bool {
    type_made(toks, p) || feature_made(toks, p) || conjugation_made(toks, p)
}

/// After one top-level step at `p`: a package, type, feature or conjugation declaration;
/// an import, reported (imports belong in packages) and skipped to the next
/// synchronization point; or anything else, reported and skipped likewise.
pub open spec fn top_step_end(toks: Seq<Token>, p: int) -> int {
    let k = kind_at(toks, p);
    let s = if k == TokenKind::Package {
        package_end(toks, p)
    } else if k == TokenKind::Type {
        type_decl_end(toks, p)
    } else if is_feature_start(k) {
        feature_end(toks, p)
    } else if k == TokenKind::Conjugation {
        conjugation_end(toks, p)
    } else if k == TokenKind::Import {
        sync_point(toks, p + 1)
    } else {
        sync_point(toks, p)
    };
    step_or_skip(p, s)
}

/// Whether the top-level steps from `p` on report no error: each is a package, type,
/// feature or conjugation declaration that parses cleanly.
pub open spec fn file_clean(toks: Seq<Token>, p: int) -> bool
    decreases toks.len() - p,
{
    if !(0 <= p < toks.len()) || kind_at(toks, p) == TokenKind::Eof {
        true
    } else {
        let k = kind_at(toks, p);
        let here = if k == TokenKind::Package {
            package_clean(toks, p)
        } else if k == TokenKind::Type {
            type_decl_clean(toks, p)
        } else if is_feature_start(k) {
            feature_clean(toks, p)
        } else if k == TokenKind::Conjugation {
            conjugation_clean(toks, p)
        } else {
            false
        };
        let s = top_step_end(toks, p);
        here && if p < s <= toks.len() {
            file_clean(toks, s)
        } else {
            true
        }
    }
}

/// Where the top-level steps from `p` that build a package start, in order.
pub open spec fn package_steps(toks: Seq<Token>, p: int) -> Seq<int>
    decreases toks.len() - p,
{
    if !(0 <= p < toks.len()) || kind_at(toks, p) == TokenKind::Eof {
        Seq::empty()
    } else {
        let here = if package_made(toks, p) {
            seq![p]
        } else {
            Seq::<int>::empty()
        };
        let s = top_step_end(toks, p);
        if p < s <= toks.len() {
            here + package_steps(toks, s)
        } else {
            here
        }
    }
}

/// Where the top-level steps from `p` that build a member start, in order.
pub open spec fn member_steps(toks: Seq<Token>, p: int) -> Seq<int>
    decreases toks.len() - p,
{
    if !(0 <= p < toks.len()) || kind_at(toks, p) == TokenKind::Eof {
        Seq::empty()
    } else {
        let here = if member_made(toks, p) {
            seq![p]
        } else {
            Seq::<int>::empty()
        };
        let s = top_step_end(toks, p);
        if p < s <= toks.len() {
            here + member_steps(toks, s)
        } else {
            here
        }
    }
}

/// Package `id` of `packages` is the one declared at token `p`: it is named by the
/// identifier after the keyword and its span starts at the keyword.
pub open spec fn package_at(
    packages: Seq<PackageDecl>,
    id: PackageId,
    b: Seq<u8>,
    toks: Seq<Token>,
    names: Seq<Seq<char>>,
    p: int,
) -> bool {
    let d = packages[id.index() as int];
    &&& id.index() < packages.len()
    &&& package_made(toks, p)
    &&& names_token(b, toks, p + 1, names, d.name)
    &&& d.span.start == toks[p].span.start
}

/// Member `m` is the declaration at token `p`, of the kind its keyword says, named by the
/// identifier after that keyword, with its span starting at `p`.
pub open spec fn member_at(
    types: Seq<TypeDecl>,
    features: Seq<FeatureDecl>,
    conjugations: Seq<ConjugationDecl>,
    m: Member,
    b: Seq<u8>,
    toks: Seq<Token>,
    names: Seq<Seq<char>>,
    p: int,
) -> bool {
    match m {
        Member::Type(id) => {
            &&& id.index() < types.len()
            &&& type_made(toks, p)
            &&& names_token(b, toks, p + 1, names, types[id.index() as int].name)
            &&& types[id.index() as int].span.start == toks[p].span.start
        },
        Member::Feature(id) => {
            &&& id.index() < features.len()
            &&& feature_made(toks, p)
            &&& names_token(b, toks, feature_keyword_pos(toks, p) + 1, names, features[id.index() as int].name)
            &&& features[id.index() as int].span.start == toks[p].span.start
            &&& features[id.index() as int].direction == direction_of(kind_at(toks, p))
            &&& feature_body_at(features[id.index() as int], names, b, toks, p)
        },
        Member::Conjugation(id) => {
            &&& id.index() < conjugations.len()
            &&& conjugation_made(toks, p)
            &&& names_token(b, toks, p + 1, names, conjugations[id.index() as int].name)
            &&& conjugations[id.index() as int].span.start == toks[p].span.start
            &&& conjugation_sides_at(conjugations[id.index() as int], names, b, toks, p)
        },
        Member::Package(_) => false,
    }
}

/// Where the steps of a type body from `q` that build a member start, in order.
pub open spec fn type_member_steps(toks: Seq<Token>, q: int) -> Seq<int>
    decreases toks.len() - q,
{
    if !(0 <= q < toks.len()) || kind_at(toks, q) == TokenKind::RBrace || kind_at(toks, q)
        == TokenKind::Eof {
        Seq::empty()
    } else {
        let k = kind_at(toks, q);
        let s = if k == TokenKind::Type {
            type_decl_end(toks, q)
        } else if is_feature_start(k) {
            feature_end(toks, q)
        } else if k == TokenKind::Conjugation {
            conjugation_end(toks, q)
        } else {
            sync_point(toks, q)
        };
        let s2 = step_or_skip(q, s);
        let here = if member_made(toks, q) {
            seq![q]
        } else {
            Seq::<int>::empty()
        };
        if q < s2 <= toks.len() {
            here + type_member_steps(toks, s2)
        } else {
            here
        }
    }
}

/// Where the steps of a package body from `q` that build a member, a package among
/// them, start, in order.
pub open spec fn package_member_steps(toks: Seq<Token>, q: int) -> Seq<int>
    decreases toks.len() - q,
{
    if !(0 <= q < toks.len()) || kind_at(toks, q) == TokenKind::RBrace || kind_at(toks, q)
        == TokenKind::Eof {
        Seq::empty()
    } else {
        let k = kind_at(toks, q);
        let s = if k == TokenKind::Import {
            import_end(toks, q)
        } else if k == TokenKind::Package {
            package_end(toks, q)
        } else if k == TokenKind::Type {
            type_decl_end(toks, q)
        } else if is_feature_start(k) {
            feature_end(toks, q)
        } else if k == TokenKind::Conjugation {
            conjugation_end(toks, q)
        } else {
            sync_point(toks, q)
        };
        let s2 = step_or_skip(q, s);
        let here = if package_made(toks, q) || member_made(toks, q) {
            seq![q]
        } else {
            Seq::<int>::empty()
        };
        if q < s2 <= toks.len() {
            here + package_member_steps(toks, s2)
        } else {
            here
        }
    }
}

/// Where the steps of a package body from `q` that are imports naming something start,
/// in order.
pub open spec fn package_import_steps(toks: Seq<Token>, q: int) -> Seq<int>
    decreases toks.len() - q,
{
    if !(0 <= q < toks.len()) || kind_at(toks, q) == TokenKind::RBrace || kind_at(toks, q)
        == TokenKind::Eof {
        Seq::empty()
    } else {
        let k = kind_at(toks, q);
        let s = if k == TokenKind::Import {
            import_end(toks, q)
        } else if k == TokenKind::Package {
            package_end(toks, q)
        } else if k == TokenKind::Type {
            type_decl_end(toks, q)
        } else if is_feature_start(k) {
            feature_end(toks, q)
        } else if k == TokenKind::Conjugation {
            conjugation_end(toks, q)
        } else {
            sync_point(toks, q)
        };
        let s2 = step_or_skip(q, s);
        let here = if import_made(toks, q) {
            seq![q]
        } else {
            Seq::<int>::empty()
        };
        if q < s2 <= toks.len() {
            here + package_import_steps(toks, s2)
        } else {
            here
        }
    }
}

/// Where the imports of the package declared at `p` start, if it has a body.
pub open spec fn package_import_positions(toks: Seq<Token>, p: int) -> Seq<int> {
    if kind_at(toks, p + 2) == TokenKind::LBrace {
        package_import_steps(toks, p + 3)
    } else {
        Seq::empty()
    }
}

/// Where the header of the type declaration at `p` ends: after its name, its
/// specializations and its conjugation.
pub open spec fn type_header_end(toks: Seq<Token>, p: int) -> int {
    let q = specializations_end(toks, p + 2);
    if is_tilde(kind_at(toks, q)) {
        qn_end(toks, q + 1)
    } else {
        q
    }
}

/// Where the members of the type declared at `p` start, if it has a body.
pub open spec fn type_member_positions(toks: Seq<Token>, p: int) -> Seq<int> {
    let r = type_header_end(toks, p);
    if kind_at(toks, r) == TokenKind::LBrace {
        type_member_steps(toks, r + 1)
    } else {
        Seq::empty()
    }
}

/// Where the members of the package declared at `p` start, if it has a body.
pub open spec fn package_member_positions(toks: Seq<Token>, p: int) -> Seq<int> {
    if kind_at(toks, p + 2) == TokenKind::LBrace {
        package_member_steps(toks, p + 3)
    } else {
        Seq::empty()
    }
}

/// The declarations built so far, and the interned names.
pub struct Built {
    pub packages: Seq<PackageDecl>,
    pub types: Seq<TypeDecl>,
    pub features: Seq<FeatureDecl>,
    pub conjugations: Seq<ConjugationDecl>,
    pub names: Seq<Seq<char>>,
}

/// Member `m` of a body is the declaration at token `p`: a package, or a member as
/// [`member_at`] says.
pub open spec fn body_member_at(w: Built, m: Member, b: Seq<u8>, toks: Seq<Token>, p: int) -> bool {
    match m {
        Member::Package(id) => package_at(w.packages, id, b, toks, w.names, p),
        _ => member_at(w.types, w.features, w.conjugations, m, b, toks, w.names, p),
    }
}

/// The members `ms` are the declarations at the positions `steps`, one for one.
pub open spec fn members_match(w: Built, ms: Seq<Member>, b: Seq<u8>, toks: Seq<Token>, steps: Seq<int>) -> bool {
    &&& ms.len() == steps.len()
    &&& forall|k: int| 0 <= k < ms.len() ==> body_member_at(w, #[trigger] ms[k], b, toks, steps[k])
}

/// Package `d` is declared at token `p`, and its members are those of its body.
pub open spec fn package_decl_at(w: Built, d: PackageDecl, b: Seq<u8>, toks: Seq<Token>, p: int) -> bool {
    &&& package_made(toks, p)
    &&& names_token(b, toks, p + 1, w.names, d.name)
    &&& d.span.start == toks[p].span.start
    &&& members_match(w, d.members@, b, toks, package_member_positions(toks, p))
    &&& imports_at(d.imports@, w.names, b, toks, package_import_positions(toks, p))
}

/// The header of type `d`, declared at token `p`: the names it specializes, as written,
/// and the name after `~` or `conjugates`, if one is written there.
#[verifier::opaque]
pub open spec fn type_header_at(d: TypeDecl, names: Seq<Seq<char>>, b: Seq<u8>, toks: Seq<Token>, p: int) -> bool {
    let q = specializations_end(toks, p + 2);
    &&& names_at(d.specializations@, names, b, toks, specialization_starts(toks, p + 2))
    &&& (d.conjugation is Some <==> is_tilde(kind_at(toks, q)) && kind_at(toks, q + 1) == TokenKind::Ident)
    &&& (d.conjugation matches Some(c) ==> qn_at(c, names, b, toks, q + 1))
}

pub proof fn lemma_type_header_grows(d: TypeDecl, names: Seq<Seq<char>>, names2: Seq<Seq<char>>, b: Seq<u8>, toks: Seq<Token>, p: int)
    requires
        type_header_at(d, names, b, toks, p),
        interner_grows(names, names2),
    ensures
        type_header_at(d, names2, b, toks, p),
{
    reveal(type_header_at);
    lemma_names_at_grows(d.specializations@, names, names2, b, toks, specialization_starts(toks, p + 2));
    match d.conjugation {
        Some(c) => lemma_qn_at_grows(c, names, names2, b, toks, specializations_end(toks, p + 2) + 1),
        None => {},
    }
}

/// Type `d` is declared at token `p`, and its members are those of its body.
pub open spec fn type_decl_at(w: Built, d: TypeDecl, b: Seq<u8>, toks: Seq<Token>, p: int) -> bool {
    &&& type_made(toks, p)
    &&& names_token(b, toks, p + 1, w.names, d.name)
    &&& type_header_at(d, w.names, b, toks, p)
    &&& d.span.start == toks[p].span.start
    &&& members_match(w, d.members@, b, toks, type_member_positions(toks, p))
}

/// `v` extends `w`: every arena and the interned names only grew.
pub open spec fn built_grows(w: Built, v: Built) -> bool {
    &&& w.packages.len() <= v.packages.len()
    &&& v.packages.subrange(0, w.packages.len() as int) == w.packages
    &&& w.types.len() <= v.types.len()
    &&& v.types.subrange(0, w.types.len() as int) == w.types
    &&& w.features.len() <= v.features.len()
    &&& v.features.subrange(0, w.features.len() as int) == w.features
    &&& w.conjugations.len() <= v.conjugations.len()
    &&& v.conjugations.subrange(0, w.conjugations.len() as int) == w.conjugations
    &&& interner_grows(w.names, v.names)
}

pub proof fn lemma_body_member_grows(w: Built, v: Built, m: Member, b: Seq<u8>, toks: Seq<Token>, p: int)
    requires
        body_member_at(w, m, b, toks, p),
        built_grows(w, v),
    ensures
        body_member_at(v, m, b, toks, p),
{
    match m {
        Member::Package(id) => {
            assert(v.packages[id.index() as int] == v.packages.subrange(0, w.packages.len() as int)[id.index() as int]);
            lemma_names_token_grows(b, toks, p + 1, w.names, v.names, w.packages[id.index() as int].name);
        },
        Member::Type(id) => {
            assert(v.types[id.index() as int] == v.types.subrange(0, w.types.len() as int)[id.index() as int]);
            lemma_names_token_grows(b, toks, p + 1, w.names, v.names, w.types[id.index() as int].name);
        },
        Member::Feature(id) => {
            assert(v.features[id.index() as int] == v.features.subrange(0, w.features.len() as int)[id.index() as int]);
            lemma_names_token_grows(
                b,
                toks,
                feature_keyword_pos(toks, p) + 1,
                w.names,
                v.names,
                w.features[id.index() as int].name,
            );
            lemma_feature_body_grows(w.features[id.index() as int], w.names, v.names, b, toks, p);
        },
        Member::Conjugation(id) => {
            assert(v.conjugations[id.index() as int] == v.conjugations.subrange(0, w.conjugations.len() as int)[id.index() as int]);
            lemma_names_token_grows(b, toks, p + 1, w.names, v.names, w.conjugations[id.index() as int].name);
            lemma_conjugation_sides_grows(w.conjugations[id.index() as int], w.names, v.names, b, toks, p);
        },
    }
}

pub proof fn lemma_members_match_grows(w: Built, v: Built, ms: Seq<Member>, b: Seq<u8>, toks: Seq<Token>, steps: Seq<int>)
    requires
        members_match(w, ms, b, toks, steps),
        built_grows(w, v),
    ensures
        members_match(v, ms, b, toks, steps),
{
    assert forall|k: int| 0 <= k < ms.len() implies body_member_at(v, #[trigger] ms[k], b, toks, steps[k]) by {
        lemma_body_member_grows(w, v, ms[k], b, toks, steps[k]);
    }
}

/// Package `d` is declared somewhere in `toks`, with the members of its body.
pub open spec fn package_declared(w: Built, d: PackageDecl, b: Seq<u8>, toks: Seq<Token>) -> bool {
    exists|p: int| package_decl_at(w, d, b, toks, p)
}

/// Type `d` is declared somewhere in `toks`, with the members of its body.
pub open spec fn type_declared(w: Built, d: TypeDecl, b: Seq<u8>, toks: Seq<Token>) -> bool {
    exists|p: int| type_decl_at(w, d, b, toks, p)
}

/// The packages from `p0` to `p1` and the types from `t0` to `t1` are each declared
/// somewhere in `toks` with the members of their bodies, as `w` holds them.
pub open spec fn bodies_between(w: Built, b: Seq<u8>, toks: Seq<Token>, p0: int, p1: int, t0: int, t1: int) -> bool {
    &&& forall|i: int| p0 <= i < p1 ==> package_declared(w, #[trigger] w.packages[i], b, toks)
    &&& forall|i: int| t0 <= i < t1 ==> type_declared(w, #[trigger] w.types[i], b, toks)
}

proof fn lemma_package_decl_grows(w: Built, v: Built, d: PackageDecl, b: Seq<u8>, toks: Seq<Token>, p: int)
    requires
        package_decl_at(w, d, b, toks, p),
        built_grows(w, v),
    ensures
        package_decl_at(v, d, b, toks, p),
{
    lemma_names_token_grows(b, toks, p + 1, w.names, v.names, d.name);
    lemma_members_match_grows(w, v, d.members@, b, toks, package_member_positions(toks, p));
    lemma_imports_at_grows(d.imports@, w.names, v.names, b, toks, package_import_positions(toks, p));
}

proof fn lemma_type_decl_grows(w: Built, v: Built, d: TypeDecl, b: Seq<u8>, toks: Seq<Token>, p: int)
    requires
        type_decl_at(w, d, b, toks, p),
        built_grows(w, v),
    ensures
        type_decl_at(v, d, b, toks, p),
{
    lemma_names_token_grows(b, toks, p + 1, w.names, v.names, d.name);
    lemma_type_header_grows(d, w.names, v.names, b, toks, p);
    lemma_members_match_grows(w, v, d.members@, b, toks, type_member_positions(toks, p));
}

/// What holds of the declarations built so far keeps holding as more are built.
pub proof fn lemma_bodies_grow(w: Built, v: Built, b: Seq<u8>, toks: Seq<Token>, p0: int, t0: int)
    requires
        bodies_between(w, b, toks, p0, w.packages.len() as int, t0, w.types.len() as int),
        built_grows(w, v),
        0 <= p0,
        0 <= t0,
    ensures
        bodies_between(v, b, toks, p0, w.packages.len() as int, t0, w.types.len() as int),
{
    assert forall|i: int| p0 <= i < w.packages.len() implies package_declared(v, #[trigger] v.packages[i], b, toks) by {
        assert(package_declared(w, w.packages[i], b, toks));
        let p = choose|p: int| package_decl_at(w, w.packages[i], b, toks, p);
        assert(v.packages[i] == v.packages.subrange(0, w.packages.len() as int)[i]);
        lemma_package_decl_grows(w, v, w.packages[i], b, toks, p);
    }
    assert forall|i: int| t0 <= i < w.types.len() implies type_declared(v, #[trigger] v.types[i], b, toks) by {
        assert(type_declared(w, w.types[i], b, toks));
        let p = choose|p: int| type_decl_at(w, w.types[i], b, toks, p);
        assert(v.types[i] == v.types.subrange(0, w.types.len() as int)[i]);
        lemma_type_decl_grows(w, v, w.types[i], b, toks, p);
    }
}

/// Two adjacent ranges of declared packages and types make one.
pub proof fn lemma_bodies_join(w: Built, b: Seq<u8>, toks: Seq<Token>, p0: int, p1: int, p2: int, t0: int, t1: int, t2: int)
    requires
        bodies_between(w, b, toks, p0, p1, t0, t1),
        bodies_between(w, b, toks, p1, p2, t1, t2),
        p0 <= p1,
        t0 <= t1,
    ensures
        bodies_between(w, b, toks, p0, p2, t0, t2),
{
    assert forall|i: int| p0 <= i < p2 implies package_declared(w, #[trigger] w.packages[i], b, toks) by {
        if i < p1 {
        }
    }
    assert forall|i: int| t0 <= i < t2 implies type_declared(w, #[trigger] w.types[i], b, toks) by {
        if i < t1 {
        }
    }
}

/// The name that `{:?}` gives a token kind.
pub open spec fn kind_name(k: TokenKind) -> Seq<char> {
    match k {
        TokenKind::Package => "Package"@,
        TokenKind::Import => "Import"@,
        TokenKind::Type => "Type"@,
        TokenKind::Feature => "Feature"@,
        TokenKind::Specializes => "Specializes"@,
        TokenKind::Conjugation => "Conjugation"@,
        TokenKind::Conjugate => "Conjugate"@,
        TokenKind::Conjugates => "Conjugates"@,
        TokenKind::Chains => "Chains"@,
        TokenKind::In => "In"@,
        TokenKind::Out => "Out"@,
        TokenKind::InOut => "InOut"@,
        TokenKind::Public => "Public"@,
        TokenKind::Private => "Private"@,
        TokenKind::Protected => "Protected"@,
        TokenKind::Member => "Member"@,
        TokenKind::IntLiteral => "IntLiteral"@,
        TokenKind::StringLiteral => "StringLiteral"@,
        TokenKind::Ident => "Ident"@,
        TokenKind::LBrace => "LBrace"@,
        TokenKind::RBrace => "RBrace"@,
        TokenKind::LBracket => "LBracket"@,
        TokenKind::RBracket => "RBracket"@,
        TokenKind::LParen => "LParen"@,
        TokenKind::RParen => "RParen"@,
        TokenKind::Semicolon => "Semicolon"@,
        TokenKind::Colon => "Colon"@,
        TokenKind::ColonColon => "ColonColon"@,
        TokenKind::ColonGt => "ColonGt"@,
        TokenKind::Dot => "Dot"@,
        TokenKind::DotDot => "DotDot"@,
        TokenKind::Comma => "Comma"@,
        TokenKind::Tilde => "Tilde"@,
        TokenKind::Star => "Star"@,
        TokenKind::Plus => "Plus"@,
        TokenKind::Minus => "Minus"@,
        TokenKind::Slash => "Slash"@,
        TokenKind::Eq => "Eq"@,
        TokenKind::Comment => "Comment"@,
        TokenKind::Whitespace => "Whitespace"@,
        TokenKind::Eof => "Eof"@,
        TokenKind::Error => "Error"@,
    }
}

fn kind_str(k: TokenKind) -> (s: &'static str)
    ensures
        s@ == kind_name(k),
{
    proof {
        reveal_strlit("Package");
    }
    match k {
        TokenKind::Package => "Package",
        TokenKind::Import => "Import",
        TokenKind::Type => "Type",
        TokenKind::Feature => "Feature",
        TokenKind::Specializes => "Specializes",
        TokenKind::Conjugation => "Conjugation",
        TokenKind::Conjugate => "Conjugate",
        TokenKind::Conjugates => "Conjugates",
        TokenKind::Chains => "Chains",
        TokenKind::In => "In",
        TokenKind::Out => "Out",
        TokenKind::InOut => "InOut",
        TokenKind::Public => "Public",
        TokenKind::Private => "Private",
        TokenKind::Protected => "Protected",
        TokenKind::Member => "Member",
        TokenKind::IntLiteral => "IntLiteral",
        TokenKind::StringLiteral => "StringLiteral",
        TokenKind::Ident => "Ident",
        TokenKind::LBrace => "LBrace",
        TokenKind::RBrace => "RBrace",
        TokenKind::LBracket => "LBracket",
        TokenKind::RBracket => "RBracket",
        TokenKind::LParen => "LParen",
        TokenKind::RParen => "RParen",
        TokenKind::Semicolon => "Semicolon",
        TokenKind::Colon => "Colon",
        TokenKind::ColonColon => "ColonColon",
        TokenKind::ColonGt => "ColonGt",
        TokenKind::Dot => "Dot",
        TokenKind::DotDot => "DotDot",
        TokenKind::Comma => "Comma",
        TokenKind::Tilde => "Tilde",
        TokenKind::Star => "Star",
        TokenKind::Plus => "Plus",
        TokenKind::Minus => "Minus",
        TokenKind::Slash => "Slash",
        TokenKind::Eq => "Eq",
        TokenKind::Comment => "Comment",
        TokenKind::Whitespace => "Whitespace",
        TokenKind::Eof => "Eof",
        TokenKind::Error => "Error",
    }
}

/// Facts about an identifier token: its bytes are ASCII letters, digits or `_`.
pub proof fn lemma_ident_token(b: Seq<u8>, s: int, e: int)
    requires
        0 <= s < e <= b.len(),
        token_at(b, s) == (TokenKind::Ident, e),
    ensures
        is_ident_start(b[s]),
        forall|k: int| s < k < e ==> in_class(ByteClass::IdentTail, #[trigger] b[k]),
        forall|k: int| s <= k < e ==> #[trigger] b[k] < 128u8,
{
    let x = b[s];
    lemma_scan_bounds(b, s + 1, ByteClass::IdentTail);
    if !is_ident_start(x) {
        assert(token_at(b, s).0 != TokenKind::Ident);
    }
    assert(e == scan(b, s + 1, ByteClass::IdentTail));
}

/// Facts about an integer token: its bytes are decimal digits.
pub proof fn lemma_int_token(b: Seq<u8>, s: int, e: int)
    requires
        0 <= s < e <= b.len(),
        token_at(b, s) == (TokenKind::IntLiteral, e),
    ensures
        forall|k: int| s <= k < e ==> is_digit(#[trigger] b[k]),
{
    lemma_scan_bounds(b, s + 1, ByteClass::Digit);
    if !is_digit(b[s]) {
        assert(token_at(b, s).0 != TokenKind::IntLiteral);
    }
}

proof fn lemma_grows_trans(a: Parser, b: Parser, c: Parser)
    requires
        b.grows(&a),
        c.grows(&b),
    ensures
        c.grows(&a),
{
    assert(c.packages@.subrange(0, a.packages@.len() as int) =~= b.packages@.subrange(0, a.packages@.len() as int));
    assert(c.types@.subrange(0, a.types@.len() as int) =~= b.types@.subrange(0, a.types@.len() as int));
    assert(c.features@.subrange(0, a.features@.len() as int) =~= b.features@.subrange(0, a.features@.len() as int));
    assert(c.conjugations@.subrange(0, a.conjugations@.len() as int) =~= b.conjugations@.subrange(0, a.conjugations@.len() as int));
}

/// A state that only consumed tokens continues the one it came from.
proof fn lemma_grows_by_consuming(a: Parser, b: Parser)
    requires
        b.source == a.source,
        b.tokens == a.tokens,
        b.file == a.file,
        a.pos <= b.pos,
        b.packages == a.packages,
        b.types == a.types,
        b.features == a.features,
        b.conjugations == a.conjugations,
    ensures
        b.grows(&a),
{
    lemma_grows_refl(a);
}

proof fn lemma_advanced_trans(
    a: Parser,
    b: Parser,
    c: Parser,
    ia: Seq<Seq<char>>,
    ib: Seq<Seq<char>>,
    ic: Seq<Seq<char>>,
)
    requires
        b.advanced(&a, ib, ia),
        c.advanced(&b, ic, ib),
    ensures
        c.advanced(&a, ic, ia),
{
    lemma_grows_trans(a, b, c);
    lemma_interner_grows_trans(ia, ib, ic);
}

proof fn lemma_advanced_refl(a: Parser, ia: Seq<Seq<char>>)
    requires
        a.wf(ia.len()),
    ensures
        a.advanced(&a, ia, ia),
{
    lemma_grows_refl(a);
    lemma_interner_grows_refl(ia);
}

/// Parsing on only widens what a tree may refer to.
proof fn lemma_advanced_bounds(a: Parser, b: Parser, ia: Seq<Seq<char>>, ib: Seq<Seq<char>>)
    requires
        b.advanced(&a, ib, ia),
    ensures
        bounds_le(a.bounds(ia.len()), b.bounds(ib.len())),
{
}

/// Consuming tokens without building anything keeps the parser well formed.
proof fn lemma_advanced_by_consuming(a: Parser, b: Parser, ia: Seq<Seq<char>>)
    requires
        a.wf(ia.len()),
        b.source == a.source,
        b.tokens == a.tokens,
        b.file == a.file,
        a.pos <= b.pos < b.tokens@.len(),
        b.packages == a.packages,
        b.types == a.types,
        b.features == a.features,
        b.conjugations == a.conjugations,
    ensures
        b.advanced(&a, ia, ia),
{
    lemma_grows_by_consuming(a, b);
    lemma_interner_grows_refl(ia);
}

proof fn lemma_chain(
    a: Parser,
    b: Parser,
    c: Parser,
    ia: Seq<Seq<char>>,
    ib: Seq<Seq<char>>,
    ic: Seq<Seq<char>>,
    oa: Seq<Diagnostic>,
    ob: Seq<Diagnostic>,
    oc: Seq<Diagnostic>,
)
    requires
        b.advanced(&a, ib, ia),
        c.advanced(&b, ic, ib),
        only_errors_added(oa, ob),
        only_errors_added(ob, oc),
    ensures
        c.advanced(&a, ic, ia),
        only_errors_added(oa, oc),
{
    lemma_advanced_trans(a, b, c, ia, ib, ic);
    lemma_only_errors_trans(oa, ob, oc);
}

/// Storing one declaration keeps a state that had a token to spare a continuation.
proof fn lemma_built_grows(a: Parser, c: Parser, ia: Seq<Seq<char>>, ic: Seq<Seq<char>>)
    requires
        c.grows(&a),
        interner_grows(ia, ic),
    ensures
        built_grows(a.built(ia), c.built(ic)),
{
}

proof fn lemma_parser_closed(a: Parser, nsym: nat)
    requires
        a.arenas_ok(nsym),
    ensures
        arenas_closed(a.packages@, a.types@, a.features@),
{
    let bd = a.bounds(nsym);
    let ps = a.packages@;
    let ts = a.types@;
    assert forall|i: int, k: int| 0 <= i < ps.len() && 0 <= k < ps[i].members@.len() implies match #[trigger] ps[i].members@[k] {
        Member::Package(q) => q.index() < i,
        Member::Type(t) => t.index() < ts.len(),
        Member::Feature(f) => f.index() < a.features@.len(),
        Member::Conjugation(_) => true,
    } by {
        assert(ps[i].ok(bd));
        assert(member_ok(ps[i].members@[k], bd));
    }
    assert forall|j: int, k: int| 0 <= j < ts.len() && 0 <= k < ts[j].members@.len() implies match #[trigger] ts[j].members@[k] {
        Member::Type(t) => t.index() < j,
        Member::Feature(f) => f.index() < a.features@.len(),
        Member::Package(_) => false,
        Member::Conjugation(_) => true,
    } by {
        assert(ts[j].ok(bd));
        assert(member_ok(ts[j].members@[k], bd));
    }
}

/// What members already stored make stays the same as more declarations are built.
proof fn lemma_weights_kept(a: Parser, b: Parser, nsym: nat, ms: Seq<Member>)
    requires
        a.arenas_ok(nsym),
        b.keeps_arenas(&a),
        members_ok(ms, a.bounds(nsym)),
    ensures
        b.weights(ms) == a.weights(ms),
        b.total() >= a.total(),
{
    reveal(Parser::weights);
    lemma_parser_closed(a, nsym);
    assert forall|k: int| 0 <= k < ms.len() implies member_in(#[trigger] ms[k], a.packages@, a.types@, a.features@) by {
        assert(member_ok(ms[k], a.bounds(nsym)));
    }
    lemma_members_weight_stable(a.packages@, a.types@, a.features@, b.packages@, b.types@, b.features@, ms);
}

/// What the top-level packages already stored make stays the same as more
/// declarations are built.
proof fn lemma_package_weights_kept(a: Parser, b: Parser, nsym: nat, qs: Seq<PackageId>)
    requires
        a.arenas_ok(nsym),
        b.keeps_arenas(&a),
        forall|k: int| 0 <= k < qs.len() ==> (#[trigger] qs[k]).index() < a.packages@.len(),
    ensures
        packages_weight(b.packages@, b.types@, b.features@, qs) == packages_weight(a.packages@, a.types@, a.features@, qs),
{
    lemma_parser_closed(a, nsym);
    lemma_packages_weight_stable(a.packages@, a.types@, a.features@, b.packages@, b.types@, b.features@, qs);
}

/// One step of the top level keeps what the top-level declarations make within twice
/// the declarations built.
proof fn lemma_top_weights(
    s1: Parser,
    s2: Parser,
    nsym: nat,
    tp1: Seq<PackageId>,
    tm1: Seq<Member>,
    addp: Option<PackageId>,
    added: Option<Member>,
)
    requires
        s1.arenas_ok(nsym),
        s2.keeps_arenas(&s1),
        members_ok(tm1, s1.bounds(nsym)),
        forall|k: int| 0 <= k < tp1.len() ==> (#[trigger] tp1[k]).index() < s1.packages@.len(),
        s1.top_weight(tp1, tm1) <= 2 * s1.total(),
        addp matches Some(q) ==> s2.weight(Member::Package(q)) <= 2 * (s2.total() - s1.total()),
        added matches Some(m) ==> s2.weight(m) <= 2 * (s2.total() - s1.total()),
        addp is None || added is None,
    ensures
        s2.top_weight(
            match addp {
                Some(q) => tp1.push(q),
                None => tp1,
            },
            match added {
                Some(m) => tm1.push(m),
                None => tm1,
            },
        ) <= 2 * s2.total(),
{
    reveal(Parser::top_weight);
    reveal(Parser::weight);
    reveal(Parser::weights);
    lemma_weights_kept(s1, s2, nsym, tm1);
    lemma_package_weights_kept(s1, s2, nsym, tp1);
    match addp {
        Some(q) => lemma_packages_weight_push(s2.packages@, s2.types@, s2.features@, tp1, q),
        None => {},
    }
    match added {
        Some(m) => lemma_members_weight_push(s2.packages@, s2.types@, s2.features@, tm1, m),
        None => {},
    }
}

/// One step of a body keeps what its members make within twice the declarations built
/// since `base`.
proof fn lemma_member_step(s1: Parser, s2: Parser, nsym: nat, mem1: Seq<Member>, added: Option<Member>, base: nat)
    requires
        s1.arenas_ok(nsym),
        s2.keeps_arenas(&s1),
        members_ok(mem1, s1.bounds(nsym)),
        s1.weights(mem1) <= 2 * (s1.total() - base),
        added matches Some(m) ==> s2.weight(m) <= 2 * (s2.total() - s1.total()),
    ensures
        s2.weights(
            match added {
                Some(m) => mem1.push(m),
                None => mem1,
            },
        ) <= 2 * (s2.total() - base),
{
    lemma_weights_kept(s1, s2, nsym, mem1);
    reveal(Parser::weight);
    reveal(Parser::weights);
    match added {
        Some(m) => lemma_members_weight_push(s2.packages@, s2.types@, s2.features@, mem1, m),
        None => {},
    }
}

/// What the top level makes depends only on the arenas.
proof fn lemma_weights_top_same(a: Parser, b: Parser, tp: Seq<PackageId>, tm: Seq<Member>)
    requires
        a.packages == b.packages,
        a.types == b.types,
        a.features == b.features,
    ensures
        a.top_weight(tp, tm) == b.top_weight(tp, tm),
{
    reveal(Parser::top_weight);
}

/// What members make depends only on the arenas.
proof fn lemma_weights_same_arenas(a: Parser, b: Parser, ms: Seq<Member>)
    requires
        a.packages == b.packages,
        a.types == b.types,
        a.features == b.features,
    ensures
        a.weights(ms) == b.weights(ms),
{
    reveal(Parser::weights);
}

proof fn lemma_grows_store(a: Parser, b: Parser, c: Parser)
    requires
        b.grows(&a),
        c.extends(&b),
        b.total() - a.total() < b.pos - a.pos,
    ensures
        c.grows(&a),
{
    assert(c.packages@.subrange(0, a.packages@.len() as int) =~= b.packages@.subrange(0, a.packages@.len() as int));
    assert(c.types@.subrange(0, a.types@.len() as int) =~= b.types@.subrange(0, a.types@.len() as int));
    assert(c.features@.subrange(0, a.features@.len() as int) =~= b.features@.subrange(0, a.features@.len() as int));
    assert(c.conjugations@.subrange(0, a.conjugations@.len() as int) =~= b.conjugations@.subrange(0, a.conjugations@.len() as int));
}

proof fn lemma_grows_refl(p: Parser)
    ensures
        p.grows(&p),
{
    assert(p.packages@.subrange(0, p.packages@.len() as int) =~= p.packages@);
    assert(p.types@.subrange(0, p.types@.len() as int) =~= p.types@);
    assert(p.features@.subrange(0, p.features@.len() as int) =~= p.features@);
    assert(p.conjugations@.subrange(0, p.conjugations@.len() as int) =~= p.conjugations@);
}

pub struct Parser<'a> {
    source: &'a str,
    tokens: Vec<Token>,
    pos: usize,
    file: FileId,
    packages: Arena<PackageDecl>,
    types: Arena<TypeDecl>,
    features: Arena<FeatureDecl>,
    conjugations: Arena<ConjugationDecl>,
}

impl<'a> Parser<'a> {
    /// The number of declarations built so far.
    spec fn total(&self) -> nat {
        self.packages@.len() + self.types@.len() + self.features@.len() + self.conjugations@.len()
    }

    /// Every declaration of `old` is kept in `self`, at the same place.
    spec fn keeps_arenas(&self, old: &Parser) -> bool {
        &&& prefix_of(old.packages@, self.packages@)
        &&& prefix_of(old.types@, self.types@)
        &&& prefix_of(old.features@, self.features@)
        &&& prefix_of(old.conjugations@, self.conjugations@)
    }

    /// How many definitions member `m` makes, by the declarations built so far.
    #[verifier::opaque]
    spec fn weight(&self, m: Member) -> nat {
        member_weight(self.packages@, self.types@, self.features@, m)
    }

    /// How many definitions the members `ms` make, by the declarations built so far.
    #[verifier::opaque]
    spec fn weights(&self, ms: Seq<Member>) -> nat {
        members_weight(self.packages@, self.types@, self.features@, ms)
    }

    /// How many definitions the top-level packages `tp` and members `tm` make, by the
    /// declarations built so far.
    #[verifier::opaque]
    spec fn top_weight(&self, tp: Seq<PackageId>, tm: Seq<Member>) -> nat {
        packages_weight(self.packages@, self.types@, self.features@, tp) + members_weight(
            self.packages@,
            self.types@,
            self.features@,
            tm,
        )
    }

    spec fn bounds(&self, nsym: nat) -> Bounds {
        Bounds {
            packages: self.packages@.len(),
            types: self.types@.len(),
            features: self.features@.len(),
            conjugations: self.conjugations@.len(),
            symbols: nsym,
        }
    }

    spec fn bytes(&self) -> Seq<u8> {
        self.source.spec_bytes()
    }

    /// Every declaration built so far refers only to declarations and symbols that exist.
    spec fn arenas_ok(&self, nsym: nat) -> bool {
        let bd = self.bounds(nsym);
        &&& forall|i: int| 0 <= i < self.packages@.len() ==> (#[trigger] self.packages@[i]).ok(bd)
        &&& forall|i: int| 0 <= i < self.types@.len() ==> (#[trigger] self.types@[i]).ok(bd)
        &&& forall|i: int| 0 <= i < self.features@.len() ==> (#[trigger] self.features@[i]).ok(bd)
        &&& forall|i: int| 0 <= i < self.conjugations@.len() ==> (#[trigger] self.conjugations@[i]).ok(bd)
        &&& nesting_by_order(self.packages@, self.types@)
    }

    spec fn wf(&self, nsym: nat) -> bool {
        &&& self.bytes().len() <= u32::MAX
        &&& tokens_wf(self.bytes(), self.file, self.tokens@)
        &&& self.pos < self.tokens@.len()
        &&& self.total() <= self.pos
        &&& self.arenas_ok(nsym)
    }

    /// `self` continues `old`: same input, no token given back, every declaration kept,
    /// and no more declarations built than tokens consumed.
    spec fn grows(&self, old: &Parser) -> bool {
        &&& self.source == old.source
        &&& self.tokens == old.tokens
        &&& self.file == old.file
        &&& old.pos <= self.pos
        &&& old.packages@.len() <= self.packages@.len()
        &&& old.types@.len() <= self.types@.len()
        &&& old.features@.len() <= self.features@.len()
        &&& old.conjugations@.len() <= self.conjugations@.len()
        &&& self.packages@.subrange(0, old.packages@.len() as int) == old.packages@
        &&& self.types@.subrange(0, old.types@.len() as int) == old.types@
        &&& self.features@.subrange(0, old.features@.len() as int) == old.features@
        &&& self.conjugations@.subrange(0, old.conjugations@.len() as int) == old.conjugations@
        &&& self.total() - old.total() <= self.pos - old.pos
    }

    /// Ready to parse on: well formed, with room in the interner for every token left.
    spec fn ready(&self, iv: Seq<Seq<char>>) -> bool {
        &&& self.wf(iv.len())
        &&& iv.len() + self.tokens@.len() - self.pos < u32::MAX
    }

    /// `self` continues `old` and the interner grew from `old_iv` to `iv` by no more
    /// symbols than tokens consumed.
    spec fn advanced(&self, old: &Parser, iv: Seq<Seq<char>>, old_iv: Seq<Seq<char>>) -> bool {
        &&& self.wf(iv.len())
        &&& self.grows(old)
        &&& interner_grows(old_iv, iv)
        &&& iv.len() - old_iv.len() <= self.pos - old.pos
    }

    /// No declaration was built between `old` and `self`.
    spec fn same_arenas(&self, old: &Parser) -> bool {
        &&& self.packages == old.packages
        &&& self.types == old.types
        &&& self.features == old.features
        &&& self.conjugations == old.conjugations
    }

    /// `self` is `old` with one more declaration stored and nothing else changed.
    spec fn extends(&self, old: &Parser) -> bool {
        &&& self.source == old.source
        &&& self.tokens == old.tokens
        &&& self.file == old.file
        &&& self.pos == old.pos
        &&& old.packages@.len() <= self.packages@.len()
        &&& old.types@.len() <= self.types@.len()
        &&& old.features@.len() <= self.features@.len()
        &&& old.conjugations@.len() <= self.conjugations@.len()
        &&& self.packages@.subrange(0, old.packages@.len() as int) == old.packages@
        &&& self.types@.subrange(0, old.types@.len() as int) == old.types@
        &&& self.features@.subrange(0, old.features@.len() as int) == old.features@
        &&& self.conjugations@.subrange(0, old.conjugations@.len() as int) == old.conjugations@
        &&& self.total() == old.total() + 1
    }

    /// The declarations built so far, with the interned names `names`.
    spec fn built(&self, names: Seq<Seq<char>>) -> Built {
        Built {
            packages: self.packages@,
            types: self.types@,
            features: self.features@,
            conjugations: self.conjugations@,
            names,
        }
    }

    spec fn kind_at(&self, i: int) -> TokenKind {
        self.tokens@[i].kind
    }

    fn peek(&self) -> (k: TokenKind)
        requires
            self.pos < self.tokens@.len(),
        ensures
            k == self.kind_at(self.pos as int),
    {
        self.tokens[self.pos].kind
    }

    fn at(&self, kind: TokenKind) -> (b: bool)
        requires
            self.pos < self.tokens@.len(),
        ensures
            b == (self.kind_at(self.pos as int) == kind),
    {
        self.tokens[self.pos].kind == kind
    }

    fn current_span(&self) -> (s: Span)
        requires
            self.pos < self.tokens@.len(),
        ensures
            s == self.tokens@[self.pos as int].span,
    {
        self.tokens[self.pos].span
    }

    /// Consumes the current token; the final `Eof` is never consumed.
    fn bump(&mut self) -> (t: Token)
        requires
            old(self).pos < old(self).tokens@.len(),
        ensures
            t == old(self).tokens@[old(self).pos as int],
            final(self).pos == if old(self).pos + 1 < old(self).tokens@.len() {
                old(self).pos + 1
            } else {
                old(self).pos as int
            },
            final(self).source == old(self).source,
            final(self).tokens == old(self).tokens,
            final(self).file == old(self).file,
            final(self).packages == old(self).packages,
            final(self).types == old(self).types,
            final(self).features == old(self).features,
            final(self).conjugations == old(self).conjugations,
    {
        let t = self.tokens[self.pos];
        if self.pos < self.tokens.len() - 1 {
            self.pos = self.pos + 1;
        }
        t
    }

    /// Emits an error labelled at the current token.
    fn error_at_current(&self, msg: &str, sink: &mut DiagnosticSink)
        requires
            self.pos < self.tokens@.len(),
        ensures
            final(sink)@.len() == old(sink)@.len() + 1,
            final(sink)@.subrange(0, old(sink)@.len() as int) == old(sink)@,
            final(sink)@.last().severity == Severity::Error,
            final(sink)@.last().message@ == msg@,
            final(sink)@.last().labels@ == seq![Label {
                span: self.tokens@[self.pos as int].span,
                message: final(sink)@.last().labels@[0].message,
                style: crate::diagnostic::LabelStyle::Primary,
            }],
            final(sink)@.last().labels@[0].message@ == msg@,
            only_errors_added(old(sink)@, final(sink)@),
    {
        let span = self.current_span();
        let d = Diagnostic::error(msg).with_label(Label::primary(span, msg));
        sink.emit(d);
        assert(sink@.subrange(0, old(sink)@.len() as int) =~= old(sink)@);
        assert(d.labels@ =~= seq![d.labels@[0]]);
        assert(syntax_error(sink@.last())) by {
            reveal(syntax_error);
        }
        assert forall|i: int| old(sink)@.len() <= i < sink@.len() implies syntax_error(#[trigger] sink@[i]) by {
            assert(i == sink@.len() - 1);
        }
    }

    /// Consumes a token of `kind`, or reports `expected {kind:?}` and consumes nothing.
    fn expect(&mut self, kind: TokenKind, sink: &mut DiagnosticSink) -> (r: Option<Token>)
        requires
            old(self).pos < old(self).tokens@.len(),
            tokens_wf(old(self).bytes(), old(self).file, old(self).tokens@),
        ensures
            final(self).source == old(self).source,
            final(self).tokens == old(self).tokens,
            final(self).file == old(self).file,
            final(self).packages == old(self).packages,
            final(self).types == old(self).types,
            final(self).features == old(self).features,
            final(self).conjugations == old(self).conjugations,
            old(self).kind_at(old(self).pos as int) == kind ==> {
                &&& r == Some(old(self).tokens@[old(self).pos as int])
                &&& (kind != TokenKind::Eof ==> final(self).pos == old(self).pos + 1)
                &&& (kind == TokenKind::Eof ==> final(self).pos == old(self).pos)
                &&& final(sink)@ == old(sink)@
            },
            old(self).kind_at(old(self).pos as int) != kind ==> {
                &&& r is None
                &&& final(self).pos == old(self).pos
                &&& final(sink)@.len() == old(sink)@.len() + 1
                &&& final(sink)@.last().message@ == "expected "@ + kind_name(kind)
            },
            only_errors_added(old(sink)@, final(sink)@),
    {
        if self.at(kind) {
            assert(sink@.subrange(0, sink@.len() as int) =~= sink@);
            Some(self.bump())
        } else {
            let mut msg = String::from_str("expected ");
            msg.append(kind_str(kind));
            proof {
                reveal_strlit("expected ");
            }
            self.error_at_current(msg.as_str(), sink);
            assert forall|i: int| old(sink)@.len() <= i < sink@.len() implies syntax_error(#[trigger] sink@[i]) by {
                assert(i == sink@.len() - 1);
            }
            None
        }
    }

    /// Interns the text of identifier token `i`.
    fn intern_token(&self, i: usize, interner: &mut StringInterner) -> (id: SymbolId)
        requires
            i < self.tokens@.len() - 1,
            tokens_wf(self.bytes(), self.file, self.tokens@),
            self.tokens@[i as int].kind == TokenKind::Ident,
            old(interner).wf(),
            old(interner)@.len() < u32::MAX,
        ensures
            final(interner).wf(),
            final(interner).has(id),
            encode_utf8(final(interner).text(id)) == token_text(self.bytes(), self.tokens@[i as int]),
            interner_grows(old(interner)@, final(interner)@),
            final(interner)@.len() <= old(interner)@.len() + 1,
    {
        let t = self.tokens[i];
        let ghost b = self.bytes();
        proof {
            encode_utf8_valid_utf8(self.source@);
            lemma_ident_token(b, t.span.start as int, t.span.end as int);
            lemma_ascii_is_boundary(b, t.span.start as int);
            lemma_ascii_is_boundary(b, t.span.end - 1);
        }
        let text = str_slice(self.source, t.span.start as usize, t.span.end as usize);
        let id = interner.intern(text);
        proof {
            assert(interner@.subrange(0, old(interner)@.len() as int) =~= old(interner)@);
        }
        id
    }

    /// Parses `Ident (:: Ident)*`.
    fn parse_qualified_name(
        &mut self,
        interner: &mut StringInterner,
        sink: &mut DiagnosticSink,
    ) -> (r: Option<QualifiedName>)
        requires
            old(self).wf(old(interner)@.len()),
            old(interner).wf(),
            old(interner)@.len() + old(self).tokens@.len() - old(self).pos < u32::MAX,
        ensures
            final(self).same_arenas(&*old(self)),
            final(self).wf(final(interner)@.len()),
            final(self).grows(&*old(self)),
            final(interner).wf(),
            interner_grows(old(interner)@, final(interner)@),
            final(interner)@.len() - old(interner)@.len() <= final(self).pos - old(self).pos,
            only_errors_added(old(sink)@, final(sink)@),
            r is Some <==> old(self).kind_at(old(self).pos as int) == TokenKind::Ident,
            r is None ==> final(self).pos == old(self).pos && final(interner)@ == old(interner)@,
            r matches Some(q) ==> {
                let p = old(self).pos as int;
                let toks = old(self).tokens@;
                &&& name_ok(q, final(self).bounds(final(interner)@.len()))
                &&& final(self).pos == qn_tail_end(toks, p + 1)
                &&& q.segments@.len() >= 1
                &&& final(self).pos == p + 2 * q.segments@.len() - 1
                &&& segments_spell(q.segments@, final(interner)@, old(self).bytes(), toks, p)
                &&& qn_at(q, final(interner)@, old(self).bytes(), toks, p)
                &&& q.span == (Span {
                    file: toks[p].span.file,
                    start: toks[p].span.start,
                    end: toks[final(self).pos - 1].span.end,
                })
            },
            final(sink)@.len() == old(sink)@.len() <==> r is Some,
    {
        let ghost p = self.pos as int;
        let ghost n0 = interner@.len();
        let ghost toks = self.tokens@;
        let ghost b = self.bytes();
        let start = self.current_span();
        let name_tok = match self.expect(TokenKind::Ident, sink) {
            Some(t) => t,
            None => {
                proof {
                    lemma_grows_refl(*self);
                    lemma_interner_grows_refl(interner@);
                }
                return None;
            },
        };
        let first = self.intern_token(self.pos - 1, interner);
        proof {
            self.lemma_arenas_mono(n0, interner@.len());
            lemma_grows_by_consuming(*old(self), *self);
        }
        let mut segments: Vec<SymbolId> = Vec::new();
        segments.push(first);
        loop
            invariant_except_break
                qn_tail_end(toks, self.pos as int) == qn_tail_end(toks, p + 1),
            invariant
                self.wf(interner@.len()),
                self.grows(&*old(self)),
                self.same_arenas(&*old(self)),
                self.tokens@ == toks,
                b == self.bytes(),
                p == old(self).pos,
                n0 == old(interner)@.len(),
                interner.wf(),
                interner_grows(old(interner)@, interner@),
                interner@.len() - n0 <= self.pos - p,
                n0 + toks.len() - p < u32::MAX,
                only_errors_added(old(sink)@, sink@),
                segments@.len() >= 1,
                self.pos == p + 2 * segments@.len() - 1,
                forall|i: int| 0 <= i < segments@.len() ==> (#[trigger] segments@[i]).0 < interner@.len(),
                segments_spell(segments@, interner@, b, toks, p),
                start == toks[p].span,
            ensures
                self.pos == qn_tail_end(toks, p + 1),
                self.same_arenas(&*old(self)),
                self.wf(interner@.len()),
                self.grows(&*old(self)),
                interner.wf(),
                interner_grows(old(interner)@, interner@),
                interner@.len() - n0 <= self.pos - p,
                only_errors_added(old(sink)@, sink@),
                segments@.len() >= 1,
                self.pos == p + 2 * segments@.len() - 1,
                forall|i: int| 0 <= i < segments@.len() ==> (#[trigger] segments@[i]).0 < interner@.len(),
                segments_spell(segments@, interner@, b, toks, p),
            decreases toks.len() - self.pos,
        {
            if !self.at(TokenKind::ColonColon) {
                break;
            }
            let next_pos = self.pos + 1;
            if next_pos < self.tokens.len() && self.tokens[next_pos].kind == TokenKind::Ident {
                let ghost before = *self;
                self.bump();
                self.bump();
                proof {
                    lemma_grows_by_consuming(before, *self);
                    lemma_grows_trans(*old(self), before, *self);
                }
                let ghost n1 = interner@.len();
                let ghost old_segs = segments@;
                let ghost old_interner = interner@;
                let seg = self.intern_token(self.pos - 1, interner);
                proof {
                    self.lemma_arenas_mono(n1, interner@.len());
                    lemma_interner_grows_trans(old(interner)@, old_interner, interner@);
                }
                proof {
                    lemma_segments_spell_push(segments@, old_interner, interner@, b, toks, p, seg);
                }
                segments.push(seg);
            } else {
                break;
            }
        }
        let end = self.tokens[self.pos - 1].span;
        let q = QualifiedName { segments, span: Span::new(start.file, start.start, end.end) };
        Some(q)
    }

    /// Parses `QualifiedName (. QualifiedName)*`.
    fn parse_feature_chain(
        &mut self,
        interner: &mut StringInterner,
        sink: &mut DiagnosticSink,
    ) -> (r: Option<FeatureChain>)
        requires
            old(self).ready(old(interner)@),
            old(interner).wf(),
        ensures
            final(self).same_arenas(&*old(self)),
            final(self).advanced(&*old(self), final(interner)@, old(interner)@),
            final(interner).wf(),
            only_errors_added(old(sink)@, final(sink)@),
            r is Some <==> old(self).kind_at(old(self).pos as int) == TokenKind::Ident,
            r matches Some(c) ==> names_ok(c.segments@, final(self).bounds(final(interner)@.len())),
            r matches Some(c) ==> names_at(c.segments@, final(interner)@, old(self).bytes(), old(self).tokens@, chain_starts(old(self).tokens@, old(self).pos as int)),
            final(self).pos == chain_end(old(self).tokens@, old(self).pos as int),
            final(sink)@.len() == old(sink)@.len() <==> chain_clean(old(self).tokens@, old(self).pos as int),
    {
        let ghost s0 = *self;
        let ghost i0 = interner@;
        let start = self.current_span();
        let first = match self.parse_qualified_name(interner, sink) {
            Some(q) => q,
            None => {
                proof {
                    lemma_advanced_refl(s0, i0);
                }
                return None;
            },
        };
        let mut segments: Vec<QualifiedName> = Vec::new();
        segments.push(first);
        let ghost mut cs: Seq<int> = seq![s0.pos as int];
        proof {
            assert(segments@ =~= seq![first]);
            assert(names_at(segments@, interner@, s0.bytes(), s0.tokens@, cs));
            assert(self.pos as int == qn_tail_end(s0.tokens@, s0.pos + 1));
            assert(chain_starts(s0.tokens@, s0.pos as int) =~= cs + chain_tail_starts(s0.tokens@, self.pos as int));
        }
        while self.at(TokenKind::Dot)
            invariant_except_break
                chain_tail_end(s0.tokens@, self.pos as int) == chain_end(s0.tokens@, s0.pos as int),
                chain_starts(s0.tokens@, s0.pos as int) == cs + chain_tail_starts(s0.tokens@, self.pos as int),
                chain_clean(s0.tokens@, s0.pos as int) == (sink@.len() == old(sink)@.len() && chain_tail_clean(
                    s0.tokens@,
                    self.pos as int,
                )),
            invariant
                self.advanced(&s0, interner@, i0),
                self.same_arenas(&s0),
                s0 == *old(self),
                i0 == old(interner)@,
                s0.ready(i0),
                interner.wf(),
                only_errors_added(old(sink)@, sink@),
                names_ok(segments@, self.bounds(interner@.len())),
                self.pos >= 1,
                names_at(segments@, interner@, s0.bytes(), s0.tokens@, cs),
            ensures
                chain_starts(s0.tokens@, s0.pos as int) == cs,
                self.pos == chain_end(s0.tokens@, s0.pos as int),
                chain_clean(s0.tokens@, s0.pos as int) == (sink@.len() == old(sink)@.len()),
            decreases self.tokens@.len() - self.pos,
        {
            let ghost s1 = *self;
            let ghost q = self.pos as int;
            proof {
                assert(q < s0.tokens@.len() - 1);
            }
            let ghost i1 = interner@;
            let ghost o1 = sink@;
            let ghost seg1 = segments@;
            self.bump();
            proof {
                lemma_advanced_by_consuming(s1, *self, i1);
                lemma_advanced_trans(s0, s1, *self, i0, i1, i1);
            }
            let ghost s2 = *self;
            let ghost o2 = sink@;
            match self.parse_qualified_name(interner, sink) {
                Some(q) => {
                    proof {
                        lemma_advanced_trans(s0, s2, *self, i0, i1, interner@);
                        lemma_only_errors_trans(old(sink)@, o2, sink@);
                        lemma_advanced_bounds(s2, *self, i1, interner@);
                        lemma_names_mono(segments@, s2.bounds(i1.len()), self.bounds(interner@.len()));
                    }
                    segments.push(q);
                    proof {
                        let toks = s0.tokens@;
                        let qq = s1.pos as int;
                        assert(chain_tail_starts(toks, qq) == seq![qq + 1] + chain_tail_starts(toks, self.pos as int));
                        assert(chain_starts(toks, s0.pos as int) =~= (cs + seq![qq + 1]) + chain_tail_starts(toks, self.pos as int));
                        lemma_names_at_grows(seg1, i1, interner@, s0.bytes(), toks, cs);
                        assert(names_at(seq![q], interner@, s0.bytes(), toks, seq![qq + 1]));
                        lemma_names_at_append(seg1, seq![q], interner@, s0.bytes(), toks, cs, seq![qq + 1]);
                        assert(segments@ =~= seg1 + seq![q]);
                        cs = cs + seq![qq + 1];
                    }
                    proof {
                        assert forall|i: int| 0 <= i < segments@.len() implies name_ok(#[trigger] segments@[i], self.bounds(interner@.len())) by {
                            if i < segments@.len() - 1 {
                                assert(segments@[i] == segments@.drop_last()[i]);
                            }
                        }
                    }
                },
                None => {
                    proof {
                        assert(chain_tail_starts(s0.tokens@, s1.pos as int) =~= Seq::<int>::empty());
                        assert(cs + Seq::<int>::empty() =~= cs);
                        lemma_only_errors_trans(old(sink)@, o2, sink@);
                        lemma_advanced_trans(s0, s2, *self, i0, i1, interner@);
                    }
                    break;
                },
            }
        }
        let end = self.tokens[self.pos - 1].span;
        Some(FeatureChain { segments, span: Span::new(start.file, start.start, end.end) })
    }

    /// The value of integer token `i`; 0 when it does not fit in a `u64`.
    fn int_value(&self, i: usize) -> (v: u64)
        requires
            i < self.tokens@.len() - 1,
            tokens_wf(self.bytes(), self.file, self.tokens@),
            self.tokens@[i as int].kind == TokenKind::IntLiteral,
        ensures
            v == if decimal_value(token_text(self.bytes(), self.tokens@[i as int])) <= u64::MAX {
                decimal_value(token_text(self.bytes(), self.tokens@[i as int]))
            } else {
                0
            },
    {
        let t = self.tokens[i];
        let bytes = self.source.as_bytes();
        let ghost b = bytes@;
        let start = t.span.start as usize;
        let end = t.span.end as usize;
        proof {
            lemma_int_token(b, start as int, end as int);
        }
        let mut value: u64 = 0;
        let mut k: usize = start;
        while k < end
            invariant
                start <= k <= end <= b.len(),
                b == bytes@,
                b == self.bytes(),
                i < self.tokens@.len(),
                start == self.tokens@[i as int].span.start,
                end == self.tokens@[i as int].span.end,
                forall|j: int| start <= j < end ==> is_digit(#[trigger] b[j]),
                value == decimal_value(b.subrange(start as int, k as int)),
            decreases end - k,
        {
            let d = (bytes[k] - 48u8) as u64;
            assert(b.subrange(start as int, k + 1).drop_last() =~= b.subrange(start as int, k as int));
            let ghost w = b.subrange(start as int, k + 1);
            match value.checked_mul(10) {
                Some(m) => match m.checked_add(d) {
                    Some(n) => {
                        value = n;
                    },
                    None => {
                        proof {
                            let ww = b.subrange(start as int, end as int);
                            assert(ww.subrange(0, (k - start) as int) =~= b.subrange(start as int, k as int));
                            assert(ww[(k - start) as int] == b[k as int]);
                            lemma_decimal_overflow(ww, (k + 1 - start) as int);
                            assert(token_text(self.bytes(), self.tokens@[i as int]) == ww);
                        }
                        return 0;
                    },
                },
                None => {
                    proof {
                        let ww = b.subrange(start as int, end as int);
                        assert(ww.subrange(0, (k - start) as int) =~= b.subrange(start as int, k as int));
                        assert(ww[(k - start) as int] == b[k as int]);
                        lemma_decimal_overflow(ww, (k + 1 - start) as int);
                        assert(token_text(self.bytes(), self.tokens@[i as int]) == ww);
                    }
                    return 0;
                },
            }
            k = k + 1;
        }
        value
    }

    /// Parses an integer, `*`, or a qualified name.
    fn parse_expr_atom(
        &mut self,
        interner: &mut StringInterner,
        sink: &mut DiagnosticSink,
    ) -> (r: Option<Expr>)
        requires
            old(self).ready(old(interner)@),
            old(interner).wf(),
        ensures
            final(self).same_arenas(&*old(self)),
            final(self).advanced(&*old(self), final(interner)@, old(interner)@),
            final(interner).wf(),
            only_errors_added(old(sink)@, final(sink)@),
            r is Some <==> {
                let k = old(self).kind_at(old(self).pos as int);
                k == TokenKind::IntLiteral || k == TokenKind::Star || k == TokenKind::Ident
            },
            r matches Some(e) ==> expr_ok(e, final(self).bounds(final(interner)@.len())),
            r matches Some(e) ==> expr_at(e, final(interner)@, old(self).bytes(), old(self).tokens@, old(self).pos as int),
            r matches Some(Expr::IntLiteral { value, span }) ==> {
                let t = old(self).tokens@[old(self).pos as int];
                &&& span == t.span
                &&& value == if decimal_value(token_text(old(self).bytes(), t)) <= u64::MAX {
                    decimal_value(token_text(old(self).bytes(), t))
                } else {
                    0
                }
            },
            final(self).pos == atom_end(old(self).tokens@, old(self).pos as int),
            final(sink)@.len() == old(sink)@.len() <==> is_atom_start(kind_at(old(self).tokens@, old(self).pos as int)),
    {
        let ghost s0 = *self;
        let ghost i0 = interner@;
        let k = self.peek();
        if k == TokenKind::IntLiteral {
            let i = self.pos;
            let tok = self.bump();
            let value = self.int_value(i);
            proof {
                lemma_advanced_by_consuming(s0, *self, i0);
                assert(sink@.subrange(0, sink@.len() as int) =~= sink@);
            }
            Some(Expr::IntLiteral { value, span: tok.span })
        } else if k == TokenKind::Star {
            let tok = self.bump();
            proof {
                lemma_advanced_by_consuming(s0, *self, i0);
                assert(sink@.subrange(0, sink@.len() as int) =~= sink@);
            }
            Some(Expr::Star { span: tok.span })
        } else if k == TokenKind::Ident {
            match self.parse_qualified_name(interner, sink) {
                Some(q) => Some(Expr::Name { name: q }),
                None => None,
            }
        } else {
            self.error_at_current("expected expression", sink);
            proof {
                lemma_advanced_refl(s0, i0);
                assert forall|i: int| old(sink)@.len() <= i < sink@.len() implies syntax_error(#[trigger] sink@[i]) by {
                    assert(i == sink@.len() - 1);
                }
            }
            None
        }
    }

    /// Parses `[ Expr ]` or `[ Expr .. Expr ]`.
    fn parse_multiplicity(
        &mut self,
        interner: &mut StringInterner,
        sink: &mut DiagnosticSink,
    ) -> (r: Option<Multiplicity>)
        requires
            old(self).ready(old(interner)@),
            old(interner).wf(),
        ensures
            final(self).same_arenas(&*old(self)),
            final(self).advanced(&*old(self), final(interner)@, old(interner)@),
            final(interner).wf(),
            only_errors_added(old(sink)@, final(sink)@),
            r matches Some(m) ==> {
                let bd = final(self).bounds(final(interner)@.len());
                &&& opt_expr_ok(m.lower, bd)
                &&& opt_expr_ok(m.upper, bd)
            },
            r is Some <==> kind_at(old(self).tokens@, old(self).pos as int) == TokenKind::LBracket && is_atom_start(
                kind_at(old(self).tokens@, old(self).pos + 1),
            ),
            r matches Some(m) ==> mult_at(m, final(interner)@, old(self).bytes(), old(self).tokens@, old(self).pos as int),
            final(self).pos == multiplicity_end(old(self).tokens@, old(self).pos as int),
            final(sink)@.len() == old(sink)@.len() <==> multiplicity_clean(old(self).tokens@, old(self).pos as int),
    {
        let ghost s0 = *self;
        let ghost i0 = interner@;
        let start = self.current_span();
        if self.expect(TokenKind::LBracket, sink).is_none() {
            proof {
                lemma_advanced_refl(s0, i0);
            }
            return None;
        }
        proof {
            lemma_advanced_by_consuming(s0, *self, i0);
        }
        let ghost s1 = *self;
        let ghost o1 = sink@;
        let first = match self.parse_expr_atom(interner, sink) {
            Some(e) => e,
            None => {
                proof {
                    lemma_advanced_trans(s0, s1, *self, i0, i0, interner@);
                    lemma_only_errors_trans(old(sink)@, o1, sink@);
                }
                return None;
            },
        };
        proof {
            lemma_advanced_trans(s0, s1, *self, i0, i0, interner@);
            lemma_only_errors_trans(old(sink)@, o1, sink@);
        }
        let ghost s2 = *self;
        let ghost i2 = interner@;
        let ghost o2 = sink@;
        let (lower, upper) = if self.at(TokenKind::DotDot) {
            self.bump();
            proof {
                lemma_advanced_by_consuming(s2, *self, i2);
                lemma_advanced_trans(s0, s2, *self, i0, i2, i2);
            }
            let ghost s3 = *self;
            let up = self.parse_expr_atom(interner, sink);
            proof {
                lemma_advanced_trans(s0, s3, *self, i0, i2, interner@);
                lemma_only_errors_trans(old(sink)@, o2, sink@);
                lemma_advanced_bounds(s3, *self, i2, interner@);
                lemma_expr_mono(first, s3.bounds(i2.len()), self.bounds(interner@.len()));
            }
            (Some(first), up)
        } else {
            (None, Some(first))
        };
        let ghost gl = lower;
        let ghost gu = upper;
        proof {
            let toks = s0.tokens@;
            let b = s0.bytes();
            if kind_at(toks, s2.pos as int) != TokenKind::DotDot {
                lemma_interner_grows_refl(i2);
            }
            if let Some(e) = gl {
                lemma_expr_at_grows(e, i2, interner@, b, toks, s0.pos + 1);
            }
            if kind_at(toks, s2.pos as int) != TokenKind::DotDot {
                if let Some(e) = gu {
                    lemma_expr_at_grows(e, i2, interner@, b, toks, s0.pos + 1);
                }
            }
            assert(mult_at(Multiplicity { lower: gl, upper: gu, span: start }, interner@, b, toks, s0.pos as int));
        }
        let end = self.current_span();
        let ghost s4 = *self;
        let ghost o4 = sink@;
        self.expect(TokenKind::RBracket, sink);
        proof {
            lemma_advanced_by_consuming(s4, *self, interner@);
            lemma_advanced_trans(s0, s4, *self, i0, interner@, interner@);
            lemma_only_errors_trans(old(sink)@, o4, sink@);
        }
        Some(Multiplicity { lower, upper, span: Span::new(start.file, start.start, end.end) })
    }

    /// Parses `import QualifiedName (::*)? ;`.
    fn parse_import(
        &mut self,
        interner: &mut StringInterner,
        sink: &mut DiagnosticSink,
    ) -> (r: Option<ImportDecl>)
        requires
            old(self).ready(old(interner)@),
            old(interner).wf(),
        ensures
            final(self).same_arenas(&*old(self)),
            final(self).advanced(&*old(self), final(interner)@, old(interner)@),
            final(interner).wf(),
            only_errors_added(old(sink)@, final(sink)@),
            r matches Some(i) ==> name_ok(i.path, final(self).bounds(final(interner)@.len())),
            r is Some <==> import_made(old(self).tokens@, old(self).pos as int),
            r matches Some(i) ==> import_at(i, final(interner)@, old(self).bytes(), old(self).tokens@, old(self).pos as int),
            final(self).pos == import_end(old(self).tokens@, old(self).pos as int),
            final(sink)@.len() == old(sink)@.len() <==> import_clean(old(self).tokens@, old(self).pos as int),
    {
        let ghost s0 = *self;
        let ghost i0 = interner@;
        let start = self.current_span();
        if self.expect(TokenKind::Import, sink).is_none() {
            proof {
                lemma_advanced_refl(s0, i0);
            }
            return None;
        }
        proof {
            lemma_advanced_by_consuming(s0, *self, i0);
        }
        let ghost s1 = *self;
        let ghost o1 = sink@;
        let path = match self.parse_qualified_name(interner, sink) {
            Some(q) => q,
            None => {
                proof {
                    lemma_advanced_trans(s0, s1, *self, i0, i0, interner@);
                    lemma_only_errors_trans(old(sink)@, o1, sink@);
                }
                return None;
            },
        };
        proof {
            lemma_advanced_trans(s0, s1, *self, i0, i0, interner@);
            lemma_only_errors_trans(old(sink)@, o1, sink@);
        }
        let ghost s2 = *self;
        let ghost i2 = interner@;
        let mut is_wildcard = false;
        if self.at(TokenKind::ColonColon) {
            let next_pos = self.pos + 1;
            if next_pos < self.tokens.len() && self.tokens[next_pos].kind == TokenKind::Star {
                self.bump();
                self.bump();
                is_wildcard = true;
            }
        } else if self.at(TokenKind::Star) {
            self.bump();
            is_wildcard = true;
        }
        proof {
            assert(s2.pos as int == qn_end(s0.tokens@, s0.pos + 1));
            assert(is_wildcard == import_wildcard(s0.tokens@, s2.pos as int));
        }
        let end = self.current_span();
        let ghost s3 = *self;
        let ghost o3 = sink@;
        self.expect(TokenKind::Semicolon, sink);
        proof {
            lemma_advanced_by_consuming(s2, *self, i2);
            lemma_advanced_trans(s0, s2, *self, i0, i2, i2);
            lemma_only_errors_trans(old(sink)@, o3, sink@);
        }
        Some(ImportDecl {
            visibility: None,
            path,
            is_wildcard,
            span: Span::new(start.file, start.start, end.end),
        })
    }

    /// Stores a conjugation declaration whose names are all interned.
    fn store_conjugation(&mut self, decl: ConjugationDecl, Ghost(nsym): Ghost<nat>) -> (id: ConjugationDeclId)
        requires
            old(self).arenas_ok(nsym),
            decl.ok(old(self).bounds(nsym)),
            old(self).conjugations@.len() < u32::MAX,
        ensures
            final(self).arenas_ok(nsym),
            id.index() == old(self).conjugations@.len(),
            final(self).conjugations@ == old(self).conjugations@.push(decl),
            final(self).packages == old(self).packages,
            final(self).types == old(self).types,
            final(self).features == old(self).features,
            final(self).source == old(self).source,
            final(self).tokens == old(self).tokens,
            final(self).file == old(self).file,
            final(self).pos == old(self).pos,
            final(self).extends(&*old(self)),
    {
        let ghost a = old(self).bounds(nsym);
        let id = self.conjugations.allocate(decl);
        proof {
            assert(self.conjugations@.subrange(0, old(self).conjugations@.len() as int) =~= old(self).conjugations@);
            lemma_grows_refl(*old(self));
            let bb = self.bounds(nsym);
            assert forall|i: int| 0 <= i < self.packages@.len() implies (#[trigger] self.packages@[i]).ok(bb) by {
                self.packages@[i].lemma_mono(a, bb);
            }
            assert forall|i: int| 0 <= i < self.types@.len() implies (#[trigger] self.types@[i]).ok(bb) by {
                self.types@[i].lemma_mono(a, bb);
            }
            assert forall|i: int| 0 <= i < self.features@.len() implies (#[trigger] self.features@[i]).ok(bb) by {
                self.features@[i].lemma_mono(a, bb);
            }
            assert forall|i: int| 0 <= i < self.conjugations@.len() implies (#[trigger] self.conjugations@[i]).ok(bb) by {
                if i < old(self).conjugations@.len() {
                    assert(self.conjugations@[i] == old(self).conjugations@[i]);
                }
                self.conjugations@[i].lemma_mono(a, bb);
            }
        }
        id
    }

    /// Stores a feature declaration whose names are all interned.
    fn store_feature(&mut self, decl: FeatureDecl, Ghost(nsym): Ghost<nat>) -> (id: FeatureDeclId)
        requires
            old(self).arenas_ok(nsym),
            decl.ok(old(self).bounds(nsym)),
            old(self).features@.len() < u32::MAX,
        ensures
            final(self).arenas_ok(nsym),
            id.index() == old(self).features@.len(),
            final(self).features@ == old(self).features@.push(decl),
            final(self).packages == old(self).packages,
            final(self).types == old(self).types,
            final(self).conjugations == old(self).conjugations,
            final(self).source == old(self).source,
            final(self).tokens == old(self).tokens,
            final(self).file == old(self).file,
            final(self).pos == old(self).pos,
            final(self).extends(&*old(self)),
    {
        let ghost a = old(self).bounds(nsym);
        let id = self.features.allocate(decl);
        proof {
            assert(self.features@.subrange(0, old(self).features@.len() as int) =~= old(self).features@);
            lemma_grows_refl(*old(self));
            let bb = self.bounds(nsym);
            assert forall|i: int| 0 <= i < self.packages@.len() implies (#[trigger] self.packages@[i]).ok(bb) by {
                self.packages@[i].lemma_mono(a, bb);
            }
            assert forall|i: int| 0 <= i < self.types@.len() implies (#[trigger] self.types@[i]).ok(bb) by {
                self.types@[i].lemma_mono(a, bb);
            }
            assert forall|i: int| 0 <= i < self.features@.len() implies (#[trigger] self.features@[i]).ok(bb) by {
                if i < old(self).features@.len() {
                    assert(self.features@[i] == old(self).features@[i]);
                }
                self.features@[i].lemma_mono(a, bb);
            }
            assert forall|i: int| 0 <= i < self.conjugations@.len() implies (#[trigger] self.conjugations@[i]).ok(bb) by {
                self.conjugations@[i].lemma_mono(a, bb);
            }
        }
        id
    }

    /// Stores a type declaration whose members are all stored.
    #[verifier::spinoff_prover]
    fn store_type(&mut self, decl: TypeDecl, Ghost(nsym): Ghost<nat>) -> (id: TypeDeclId)
        requires
            old(self).arenas_ok(nsym),
            decl.ok(old(self).bounds(nsym)),
            forall|k: int| 0 <= k < decl.members@.len() ==> !(#[trigger] decl.members@[k] is Package),
            old(self).types@.len() < u32::MAX,
        ensures
            final(self).arenas_ok(nsym),
            id.index() == old(self).types@.len(),
            final(self).types@ == old(self).types@.push(decl),
            final(self).packages == old(self).packages,
            final(self).features == old(self).features,
            final(self).conjugations == old(self).conjugations,
            final(self).source == old(self).source,
            final(self).tokens == old(self).tokens,
            final(self).file == old(self).file,
            final(self).pos == old(self).pos,
            final(self).extends(&*old(self)),
    {
        let ghost a = old(self).bounds(nsym);
        let id = self.types.allocate(decl);
        proof {
            assert(self.types@.subrange(0, old(self).types@.len() as int) =~= old(self).types@);
            assert forall|j: int, k: int|
                0 <= j < self.types@.len() && 0 <= k < self.types@[j].members@.len() implies match #[trigger] self.types@[j].members@[k] {
                    Member::Type(t) => t.index() < j,
                    Member::Package(_) => false,
                    _ => true,
                } by {
                if j < old(self).types@.len() {
                    assert(self.types@[j] == old(self).types@[j]);
                } else {
                    assert(member_ok(decl.members@[k], a));
                }
            }
            lemma_grows_refl(*old(self));
            let bb = self.bounds(nsym);
            assert forall|i: int| 0 <= i < self.packages@.len() implies (#[trigger] self.packages@[i]).ok(bb) by {
                self.packages@[i].lemma_mono(a, bb);
            }
            assert forall|i: int| 0 <= i < self.types@.len() implies (#[trigger] self.types@[i]).ok(bb) by {
                if i < old(self).types@.len() {
                    assert(self.types@[i] == old(self).types@[i]);
                }
                self.types@[i].lemma_mono(a, bb);
            }
            assert forall|i: int| 0 <= i < self.features@.len() implies (#[trigger] self.features@[i]).ok(bb) by {
                self.features@[i].lemma_mono(a, bb);
            }
            assert forall|i: int| 0 <= i < self.conjugations@.len() implies (#[trigger] self.conjugations@[i]).ok(bb) by {
                self.conjugations@[i].lemma_mono(a, bb);
            }
        }
        id
    }

    /// Stores a package declaration whose members are all stored.
    fn store_package(&mut self, decl: PackageDecl, Ghost(nsym): Ghost<nat>) -> (id: PackageId)
        requires
            old(self).arenas_ok(nsym),
            decl.ok(old(self).bounds(nsym)),
            old(self).packages@.len() < u32::MAX,
        ensures
            final(self).arenas_ok(nsym),
            id.index() == old(self).packages@.len(),
            final(self).packages@ == old(self).packages@.push(decl),
            final(self).types == old(self).types,
            final(self).features == old(self).features,
            final(self).conjugations == old(self).conjugations,
            final(self).source == old(self).source,
            final(self).tokens == old(self).tokens,
            final(self).file == old(self).file,
            final(self).pos == old(self).pos,
            final(self).extends(&*old(self)),
    {
        let ghost a = old(self).bounds(nsym);
        let id = self.packages.allocate(decl);
        proof {
            assert(self.packages@.subrange(0, old(self).packages@.len() as int) =~= old(self).packages@);
            assert forall|i: int, k: int|
                0 <= i < self.packages@.len() && 0 <= k < self.packages@[i].members@.len() implies (
                #[trigger] self.packages@[i].members@[k] matches Member::Package(q) ==> q.index() < i) by {
                if i < old(self).packages@.len() {
                    assert(self.packages@[i] == old(self).packages@[i]);
                } else {
                    assert(member_ok(decl.members@[k], a));
                }
            }
            lemma_grows_refl(*old(self));
            let bb = self.bounds(nsym);
            assert forall|i: int| 0 <= i < self.packages@.len() implies (#[trigger] self.packages@[i]).ok(bb) by {
                if i < old(self).packages@.len() {
                    assert(self.packages@[i] == old(self).packages@[i]);
                }
                self.packages@[i].lemma_mono(a, bb);
            }
            assert forall|i: int| 0 <= i < self.types@.len() implies (#[trigger] self.types@[i]).ok(bb) by {
                self.types@[i].lemma_mono(a, bb);
            }
            assert forall|i: int| 0 <= i < self.features@.len() implies (#[trigger] self.features@[i]).ok(bb) by {
                self.features@[i].lemma_mono(a, bb);
            }
            assert forall|i: int| 0 <= i < self.conjugations@.len() implies (#[trigger] self.conjugations@[i]).ok(bb) by {
                self.conjugations@[i].lemma_mono(a, bb);
            }
        }
        id
    }

    /// Growing the interner keeps every declaration's symbols valid.
    proof fn lemma_arenas_mono(&self, n1: nat, n2: nat)
        requires
            self.arenas_ok(n1),
            n1 <= n2,
        ensures
            self.arenas_ok(n2),
    {
        let a = self.bounds(n1);
        let bb = self.bounds(n2);
        assert forall|i: int| 0 <= i < self.packages@.len() implies (#[trigger] self.packages@[i]).ok(bb) by {
            self.packages@[i].lemma_mono(a, bb);
        }
        assert forall|i: int| 0 <= i < self.types@.len() implies (#[trigger] self.types@[i]).ok(bb) by {
            self.types@[i].lemma_mono(a, bb);
        }
        assert forall|i: int| 0 <= i < self.features@.len() implies (#[trigger] self.features@[i]).ok(bb) by {
            self.features@[i].lemma_mono(a, bb);
        }
        assert forall|i: int| 0 <= i < self.conjugations@.len() implies (#[trigger] self.conjugations@[i]).ok(bb) by {
            self.conjugations@[i].lemma_mono(a, bb);
        }
    }

    /// Skips tokens until a synchronization point: a declaration keyword or `Eof`
    /// (not consumed), or a `}` or `;` (consumed).
    fn synchronize(&mut self)
        requires
            old(self).pos < old(self).tokens@.len(),
            tokens_wf(old(self).bytes(), old(self).file, old(self).tokens@),
        ensures
            final(self).pos == sync_point(old(self).tokens@, old(self).pos as int),
            old(self).pos <= final(self).pos < final(self).tokens@.len(),
            final(self).source == old(self).source,
            final(self).tokens == old(self).tokens,
            final(self).file == old(self).file,
            final(self).packages == old(self).packages,
            final(self).types == old(self).types,
            final(self).features == old(self).features,
            final(self).conjugations == old(self).conjugations,
    {
        let ghost p0 = self.pos as int;
        loop
            invariant_except_break
                sync_point(self.tokens@, self.pos as int) == sync_point(self.tokens@, p0),
            invariant
                old(self).pos <= self.pos < self.tokens@.len(),
                tokens_wf(self.bytes(), self.file, self.tokens@),
                p0 == old(self).pos,
                self.source == old(self).source,
                self.tokens == old(self).tokens,
                self.file == old(self).file,
                self.packages == old(self).packages,
                self.types == old(self).types,
                self.features == old(self).features,
                self.conjugations == old(self).conjugations,
            ensures
                self.pos == sync_point(self.tokens@, p0),
                old(self).pos <= self.pos < self.tokens@.len(),
                self.source == old(self).source,
                self.tokens == old(self).tokens,
                self.file == old(self).file,
                self.packages == old(self).packages,
                self.types == old(self).types,
                self.features == old(self).features,
                self.conjugations == old(self).conjugations,
            decreases self.tokens@.len() - self.pos,
        {
            let k = self.peek();
            if k == TokenKind::Eof {
                break;
            } else if k == TokenKind::Package || k == TokenKind::Type || k == TokenKind::Feature
                || k == TokenKind::Import || k == TokenKind::Conjugation || k == TokenKind::In || k
                == TokenKind::Out || k == TokenKind::InOut {
                break;
            } else if k == TokenKind::RBrace || k == TokenKind::Semicolon {
                self.bump();
                break;
            } else {
                self.bump();
            }
        }
    }

    /// Consumes a token of `kind`, or reports `expected {kind:?}`; a plain step forward.
    fn expect_kw(
        &mut self,
        kind: TokenKind,
        Ghost(iv): Ghost<Seq<Seq<char>>>,
        sink: &mut DiagnosticSink,
    ) -> (ok: bool)
        requires
            old(self).wf(iv.len()),
            kind != TokenKind::Eof,
        ensures
            final(self).same_arenas(&*old(self)),
            final(self).advanced(&*old(self), iv, iv),
            only_errors_added(old(sink)@, final(sink)@),
            ok == (old(self).kind_at(old(self).pos as int) == kind),
            ok ==> final(self).pos == old(self).pos + 1,
            !ok ==> final(self).pos == old(self).pos,
            final(sink)@.len() == old(sink)@.len() <==> ok,
    {
        let ghost s0 = *self;
        let r = self.expect(kind, sink);
        proof {
            lemma_advanced_by_consuming(s0, *self, iv);
        }
        r.is_some()
    }

    /// Consumes an identifier and interns it, or reports `expected Ident`.
    fn expect_name(&mut self, interner: &mut StringInterner, sink: &mut DiagnosticSink) -> (r:
        Option<SymbolId>)
        requires
            old(self).ready(old(interner)@),
            old(interner).wf(),
        ensures
            final(self).same_arenas(&*old(self)),
            final(self).advanced(&*old(self), final(interner)@, old(interner)@),
            final(interner).wf(),
            only_errors_added(old(sink)@, final(sink)@),
            r is Some <==> old(self).kind_at(old(self).pos as int) == TokenKind::Ident,
            r is None ==> final(self).pos == old(self).pos && final(interner)@ == old(interner)@,
            r matches Some(id) ==> {
                &&& final(self).pos == old(self).pos + 1
                &&& names_token(
                    old(self).bytes(),
                    old(self).tokens@,
                    old(self).pos as int,
                    final(interner)@,
                    id,
                )
            },
            final(sink)@.len() == old(sink)@.len() <==> r is Some,
    {
        let ghost s0 = *self;
        let ghost i0 = interner@;
        match self.expect(TokenKind::Ident, sink) {
            None => {
                proof {
                    lemma_advanced_refl(s0, i0);
                }
                None
            },
            Some(_) => {
                let id = self.intern_token(self.pos - 1, interner);
                proof {
                    self.lemma_arenas_mono(i0.len(), interner@.len());
                    lemma_grows_by_consuming(s0, *self);
                }
                Some(id)
            },
        }
    }

    /// Parses `conjugation Name conjugate QualifiedName conjugates QualifiedName ;`.
    fn parse_conjugation_decl(
        &mut self,
        interner: &mut StringInterner,
        sink: &mut DiagnosticSink,
    ) -> (r: Option<ConjugationDeclId>)
        requires
            old(self).ready(old(interner)@),
            old(interner).wf(),
        ensures
            final(self).advanced(&*old(self), final(interner)@, old(interner)@),
            final(interner).wf(),
            only_errors_added(old(sink)@, final(sink)@),
            final(self).packages == old(self).packages,
            final(self).types == old(self).types,
            final(self).features == old(self).features,
            r is None ==> final(self).conjugations == old(self).conjugations,
            old(self).kind_at(old(self).pos as int) != TokenKind::Conjugation ==> r is None
                && final(self).pos == old(self).pos,
            r matches Some(id) ==> {
                let d = final(self).conjugations@[id.index() as int];
                let p = old(self).pos as int;
                &&& id.index() == old(self).conjugations@.len()
                &&& final(self).conjugations@ == old(self).conjugations@.push(d)
                &&& names_token(old(self).bytes(), old(self).tokens@, p + 1, final(interner)@, d.name)
                &&& d.span.start == old(self).tokens@[p].span.start
            },
            final(self).pos == conjugation_end(old(self).tokens@, old(self).pos as int),
            r is Some <==> conjugation_made(old(self).tokens@, old(self).pos as int),
            final(sink)@.len() == old(sink)@.len() <==> conjugation_clean(old(self).tokens@, old(self).pos as int),
            r matches Some(id) ==> conjugation_sides_at(
                final(self).conjugations@[id.index() as int],
                final(interner)@,
                old(self).bytes(),
                old(self).tokens@,
                old(self).pos as int,
            ),
            r matches Some(id) ==> final(self).weight(Member::Conjugation(id)) <= 2 * (final(self).total() - old(self).total()),
    {
        let ghost s0 = *self;
        let ghost i0 = interner@;
        let ghost o0 = sink@;
        let start = self.current_span();
        if !self.expect_kw(TokenKind::Conjugation, Ghost(i0), sink) {
            return None;
        }
        let ghost s1 = *self;
        let ghost o1 = sink@;
        let name = match self.expect_name(interner, sink) {
            Some(n) => n,
            None => {
                proof {
                    lemma_chain(s0, s1, *self, i0, i0, interner@, o0, o1, sink@);
                }
                return None;
            },
        };
        proof {
            lemma_chain(s0, s1, *self, i0, i0, interner@, o0, o1, sink@);
        }
        let ghost s2 = *self;
        let ghost i2 = interner@;
        let ghost o2 = sink@;
        if !self.expect_kw(TokenKind::Conjugate, Ghost(i2), sink) {
            self.synchronize();
            proof {
                lemma_advanced_by_consuming(s2, *self, i2);
                lemma_chain(s0, s2, *self, i0, i2, i2, o0, o2, sink@);
            }
            return None;
        }
        proof {
            lemma_chain(s0, s2, *self, i0, i2, i2, o0, o2, sink@);
        }
        let ghost s3 = *self;
        let ghost o3 = sink@;
        let conjugated_type = match self.parse_qualified_name(interner, sink) {
            Some(q) => q,
            None => {
                self.synchronize();
                proof {
                    lemma_advanced_by_consuming(s3, *self, i2);
                    lemma_chain(s0, s3, *self, i0, i2, i2, o0, o3, sink@);
                }
                return None;
            },
        };
        proof {
            lemma_chain(s0, s3, *self, i0, i2, interner@, o0, o3, sink@);
        }
        let ghost s4 = *self;
        let ghost i4 = interner@;
        let ghost o4 = sink@;
        if !self.expect_kw(TokenKind::Conjugates, Ghost(i4), sink) {
            self.synchronize();
            proof {
                lemma_advanced_by_consuming(s4, *self, i4);
                lemma_chain(s0, s4, *self, i0, i4, i4, o0, o4, sink@);
            }
            return None;
        }
        proof {
            lemma_chain(s0, s4, *self, i0, i4, i4, o0, o4, sink@);
        }
        let ghost s5 = *self;
        let ghost o5 = sink@;
        let original_type = match self.parse_qualified_name(interner, sink) {
            Some(q) => q,
            None => {
                self.synchronize();
                proof {
                    lemma_advanced_by_consuming(s5, *self, i4);
                    lemma_chain(s0, s5, *self, i0, i4, i4, o0, o5, sink@);
                }
                return None;
            },
        };
        proof {
            lemma_chain(s0, s5, *self, i0, i4, interner@, o0, o5, sink@);
        }
        let end = self.current_span();
        let ghost s6 = *self;
        let ghost i6 = interner@;
        let ghost o6 = sink@;
        self.expect_kw(TokenKind::Semicolon, Ghost(i6), sink);
        proof {
            lemma_chain(s0, s6, *self, i0, i6, i6, o0, o6, sink@);
        }
        let span = Span::new(start.file, start.start, end.end);
        let decl = ConjugationDecl { name, span, conjugated_type, original_type };
        let ghost s7 = *self;
        proof {
            assert(decl.ok(self.bounds(interner@.len())));
        }
        let id = self.store_conjugation(decl, Ghost(interner@.len()));
        proof {
            let toks = s0.tokens@;
            let bb = s0.bytes();
            let dd = self.conjugations@[id.index() as int];
            assert(s3.pos == s0.pos + 3);
            assert(s5.pos == qn_end(toks, s0.pos + 3) + 1);
            assert(qn_at(dd.conjugated_type, i4, bb, toks, s0.pos + 3));
            assert(qn_at(dd.original_type, i6, bb, toks, s5.pos as int));
            assert(interner_grows(i4, i6));
            assert(interner@ == i6);
            lemma_qn_at_grows(dd.conjugated_type, i4, i6, bb, toks, s0.pos + 3);
            assert(conjugation_sides_at(dd, interner@, bb, toks, s0.pos as int)) by {
                reveal(conjugation_sides_at);
            }
            lemma_grows_store(s0, s7, *self);
            reveal(Parser::weight);
        }
        Some(id)
    }

    /// Parses the typing part of a feature: `: QualifiedName`, `: ~QualifiedName`,
    /// or `~ QualifiedName` (also with `conjugates` for `~`).
    fn parse_feature_typing(
        &mut self,
        interner: &mut StringInterner,
        sink: &mut DiagnosticSink,
    ) -> (r: (Option<TypeExpr>, Option<QualifiedName>))
        requires
            old(self).ready(old(interner)@),
            old(interner).wf(),
        ensures
            final(self).same_arenas(&*old(self)),
            final(self).advanced(&*old(self), final(interner)@, old(interner)@),
            final(interner).wf(),
            only_errors_added(old(sink)@, final(sink)@),
            r.0 matches Some(t) ==> type_expr_ok(t, final(self).bounds(final(interner)@.len())),
            opt_name_ok(r.1, final(self).bounds(final(interner)@.len())),
            r.0 is Some ==> old(self).kind_at(old(self).pos as int) == TokenKind::Colon,
            r.1 is Some ==> old(self).kind_at(old(self).pos as int) == TokenKind::Tilde
                || old(self).kind_at(old(self).pos as int) == TokenKind::Conjugates,
            typing_at(r, final(interner)@, old(self).bytes(), old(self).tokens@, old(self).pos as int),
            final(self).pos == typing_end(old(self).tokens@, old(self).pos as int),
            final(sink)@.len() == old(sink)@.len() <==> typing_clean(old(self).tokens@, old(self).pos as int),
    {
        let ghost s0 = *self;
        let ghost i0 = interner@;
        let ghost o0 = sink@;
        proof {
            lemma_only_errors_refl(o0);
        }
        if self.at(TokenKind::Colon) {
            self.bump();
            proof {
                lemma_advanced_by_consuming(s0, *self, i0);
            }
            let ghost s1 = *self;
            if self.at(TokenKind::Tilde) || self.at(TokenKind::Conjugates) {
                let conj_start = self.current_span();
                self.bump();
                proof {
                    lemma_advanced_by_consuming(s1, *self, i0);
                    lemma_advanced_trans(s0, s1, *self, i0, i0, i0);
                }
                let ghost s2 = *self;
                let r = match self.parse_qualified_name(interner, sink) {
                    Some(qn) => {
                        let span = Span::new(conj_start.file, conj_start.start, qn.span.end);
                        Some(TypeExpr::Conjugated(qn, span))
                    },
                    None => None,
                };
                proof {
                    lemma_chain(s0, s2, *self, i0, i0, interner@, o0, o0, sink@);
                }
                (r, None)
            } else {
                let r = match self.parse_qualified_name(interner, sink) {
                    Some(qn) => Some(TypeExpr::Named(qn)),
                    None => None,
                };
                proof {
                    lemma_chain(s0, s1, *self, i0, i0, interner@, o0, o0, sink@);
                }
                (r, None)
            }
        } else if self.at(TokenKind::Tilde) || self.at(TokenKind::Conjugates) {
            self.bump();
            proof {
                lemma_advanced_by_consuming(s0, *self, i0);
            }
            let ghost s1 = *self;
            let c = self.parse_qualified_name(interner, sink);
            proof {
                lemma_chain(s0, s1, *self, i0, i0, interner@, o0, o0, sink@);
            }
            (None, c)
        } else {
            proof {
                lemma_advanced_refl(s0, i0);
            }
            (None, None)
        }
    }

    /// Parses `(in|out|inout)? feature Name (: ~? QualifiedName | ~ QualifiedName)?
    /// (chains FeatureChain)? Multiplicity? ;?`.
    #[verifier::rlimit(80)]
    #[verifier::spinoff_prover]
    fn parse_feature_decl(
        &mut self,
        interner: &mut StringInterner,
        sink: &mut DiagnosticSink,
    ) -> (r: Option<FeatureDeclId>)
        requires
            old(self).ready(old(interner)@),
            old(interner).wf(),
        ensures
            final(self).advanced(&*old(self), final(interner)@, old(interner)@),
            final(interner).wf(),
            only_errors_added(old(sink)@, final(sink)@),
            final(self).packages == old(self).packages,
            final(self).types == old(self).types,
            final(self).conjugations == old(self).conjugations,
            r is None ==> final(self).features == old(self).features,
            ({
                let toks = old(self).tokens@;
                let p = old(self).pos as int;
                let q = if direction_of(toks[p].kind) is Some { p + 1 } else { p };
                r is Some <==> toks[q].kind == TokenKind::Feature && toks[q + 1].kind == TokenKind::Ident
            }),
            r matches Some(id) ==> {
                let d = final(self).features@[id.index() as int];
                let toks = old(self).tokens@;
                let p = old(self).pos as int;
                let q = if direction_of(toks[p].kind) is Some { p + 1 } else { p };
                &&& id.index() == old(self).features@.len()
                &&& final(self).features@ == old(self).features@.push(d)
                &&& d.direction == direction_of(toks[p].kind)
                &&& names_token(old(self).bytes(), toks, q + 1, final(interner)@, d.name)
                &&& d.span.start == toks[p].span.start
                &&& (d.type_ref is Some ==> toks[q + 2].kind == TokenKind::Colon)
                &&& (d.conjugation is Some ==> toks[q + 2].kind == TokenKind::Tilde
                    || toks[q + 2].kind == TokenKind::Conjugates)
            },
            final(self).pos == feature_end(old(self).tokens@, old(self).pos as int),
            final(sink)@.len() == old(sink)@.len() <==> feature_clean(old(self).tokens@, old(self).pos as int),
            r matches Some(id) ==> feature_body_at(
                final(self).features@[id.index() as int],
                final(interner)@,
                old(self).bytes(),
                old(self).tokens@,
                old(self).pos as int,
            ),
            r matches Some(id) ==> final(self).weight(Member::Feature(id)) <= 2 * (final(self).total() - old(self).total()),
    {
        let ghost s0 = *self;
        let ghost i0 = interner@;
        let ghost o0 = sink@;
        let start = self.current_span();
        let k = self.peek();
        let direction = if k == TokenKind::In {
            self.bump();
            Some(FeatureDirection::In)
        } else if k == TokenKind::Out {
            self.bump();
            Some(FeatureDirection::Out)
        } else if k == TokenKind::InOut {
            self.bump();
            Some(FeatureDirection::InOut)
        } else {
            None
        };
        proof {
            lemma_advanced_by_consuming(s0, *self, i0);
            lemma_only_errors_refl(o0);
        }
        let ghost s1 = *self;
        if !self.expect_kw(TokenKind::Feature, Ghost(i0), sink) {
            proof {
                lemma_chain(s0, s1, *self, i0, i0, i0, o0, o0, sink@);
            }
            return None;
        }
        proof {
            lemma_chain(s0, s1, *self, i0, i0, i0, o0, o0, sink@);
        }
        let ghost s2 = *self;
        let ghost o2 = sink@;
        let name = match self.expect_name(interner, sink) {
            Some(n) => n,
            None => {
                proof {
                    lemma_chain(s0, s2, *self, i0, i0, interner@, o0, o2, sink@);
                }
                return None;
            },
        };
        proof {
            lemma_chain(s0, s2, *self, i0, i0, interner@, o0, o2, sink@);
        }
        let ghost s3 = *self;
        let ghost i3 = interner@;
        let ghost o3 = sink@;
        let (type_ref, conjugation) = self.parse_feature_typing(interner, sink);
        let mut decl = FeatureDecl {
            name,
            span: start,
            direction,
            type_ref,
            conjugation,
            chain: None,
            multiplicity: None,
        };
        proof {
            lemma_chain(s0, s3, *self, i0, i3, interner@, o0, o3, sink@);
        }
        let ghost s6 = *self;
        let ghost i6 = interner@;
        let ghost o6 = sink@;
        assert(s6.pos == typing_end(s0.tokens@, s3.pos as int));
        let ghost tr = (decl.type_ref, decl.conjugation);
        assert(typing_at(tr, i6, s0.bytes(), s0.tokens@, s3.pos as int));
        if self.at(TokenKind::Chains) {
            self.bump();
            proof {
                lemma_advanced_by_consuming(s6, *self, i6);
                lemma_only_errors_refl(o6);
            }
            let ghost s7 = *self;
            let chain = self.parse_feature_chain(interner, sink);
            proof {
                lemma_chain(s6, s7, *self, i6, i6, interner@, o6, o6, sink@);
                assert(interner_grows(i6, interner@));
                lemma_advanced_bounds(s6, *self, i6, interner@);
                decl.lemma_mono(s6.bounds(i6.len()), self.bounds(interner@.len()));
            }
            decl.chain = chain;
        } else {
            proof {
                lemma_advanced_refl(s6, i6);
                lemma_only_errors_refl(o6);
                lemma_interner_grows_refl(i6);
            }
        }
        proof {
            lemma_chain(s0, s6, *self, i0, i6, interner@, o0, o6, sink@);
        }
        let ghost s8 = *self;
        let ghost i8 = interner@;
        let ghost o8 = sink@;
        let ghost cg = decl.chain;
        proof {
            let t = s6.pos as int;
            assert(cg is Some <==> kind_at(s0.tokens@, t) == TokenKind::Chains && kind_at(s0.tokens@, t + 1) == TokenKind::Ident);
            assert(cg matches Some(ch) ==> names_at(ch.segments@, i8, s0.bytes(), s0.tokens@, chain_starts(s0.tokens@, t + 1)));
        }
        assert(s8.pos == if kind_at(s0.tokens@, s6.pos as int) == TokenKind::Chains {
            chain_end(s0.tokens@, s6.pos + 1)
        } else {
            s6.pos as int
        });
        if self.at(TokenKind::LBracket) {
            let m = self.parse_multiplicity(interner, sink);
            proof {
                assert(interner_grows(i8, interner@));
                assert(m matches Some(mm) ==> mult_at(mm, interner@, s0.bytes(), s0.tokens@, s8.pos as int));
                lemma_advanced_bounds(s8, *self, i8, interner@);
                decl.lemma_mono(s8.bounds(i8.len()), self.bounds(interner@.len()));
            }
            decl.multiplicity = m;
        } else {
            proof {
                lemma_advanced_refl(s8, i8);
                lemma_only_errors_refl(o8);
                lemma_interner_grows_refl(i8);
            }
        }
        proof {
            lemma_chain(s0, s8, *self, i0, i8, interner@, o0, o8, sink@);
        }
        let ghost i9 = interner@;
        let ghost mg = decl.multiplicity;
        proof {
            assert(mg is Some <==> kind_at(s0.tokens@, s8.pos as int) == TokenKind::LBracket && is_atom_start(kind_at(s0.tokens@, s8.pos + 1)));
            assert(mg matches Some(mm) ==> mult_at(mm, i9, s0.bytes(), s0.tokens@, s8.pos as int));
            lemma_interner_grows_trans(i6, i8, i9);
            lemma_typing_at_grows(tr, i6, i9, s0.bytes(), s0.tokens@, s3.pos as int);
            if let Some(ch) = cg {
                lemma_names_at_grows(ch.segments@, i8, i9, s0.bytes(), s0.tokens@, chain_starts(s0.tokens@, s6.pos + 1));
            }
        }
        let end = self.current_span();
        let ghost s9 = *self;
        assert(s9.pos == if kind_at(s0.tokens@, s8.pos as int) == TokenKind::LBracket {
            multiplicity_end(s0.tokens@, s8.pos as int)
        } else {
            s8.pos as int
        });
        if self.at(TokenKind::Semicolon) {
            self.bump();
        }
        proof {
            lemma_advanced_by_consuming(s9, *self, interner@);
            lemma_only_errors_refl(sink@);
            lemma_chain(s0, s9, *self, i0, interner@, interner@, o0, sink@, sink@);
        }
        decl.span = Span::new(start.file, start.start, end.end);
        let ghost s10 = *self;
        let id = self.store_feature(decl, Ghost(interner@.len()));
        proof {
            lemma_grows_store(s0, s10, *self);
            reveal(Parser::weight);
            let dd = self.features@[id.index() as int];
            assert(s3.pos == feature_keyword_pos(s0.tokens@, s0.pos as int) + 2);
            assert((dd.type_ref, dd.conjugation) == tr);
            assert(dd.multiplicity == mg);
            assert(dd.chain == cg);
            assert(interner@ == i9);
            assert(feature_body_at(dd, interner@, s0.bytes(), s0.tokens@, s0.pos as int)) by {
                reveal(feature_body_at);
            }
        }
        Some(id)
    }

    /// Parses `(, QualifiedName)*`, appending each name to `names`.
    #[verifier::spinoff_prover]
    fn parse_name_list_tail(
        &mut self,
        names: &mut Vec<QualifiedName>,
        interner: &mut StringInterner,
        sink: &mut DiagnosticSink,
    )
        requires
            old(self).ready(old(interner)@),
            old(interner).wf(),
            names_ok(old(names)@, old(self).bounds(old(interner)@.len())),
        ensures
            final(self).same_arenas(&*old(self)),
            final(self).advanced(&*old(self), final(interner)@, old(interner)@),
            final(interner).wf(),
            only_errors_added(old(sink)@, final(sink)@),
            names_ok(final(names)@, final(self).bounds(final(interner)@.len())),
            old(names)@.len() <= final(names)@.len(),
            final(names)@.subrange(0, old(names)@.len() as int) == old(names)@,
            names_at(
                final(names)@.subrange(old(names)@.len() as int, final(names)@.len() as int),
                final(interner)@,
                old(self).bytes(),
                old(self).tokens@,
                name_list_starts(old(self).tokens@, old(self).pos as int),
            ),
            final(self).pos == name_list_tail_end(old(self).tokens@, old(self).pos as int),
            final(sink)@.len() == old(sink)@.len() <==> name_list_tail_clean(old(self).tokens@, old(self).pos as int),
    {
        let ghost s0 = *self;
        let ghost i0 = interner@;
        let ghost o0 = sink@;
        let ghost n0 = names@;
        let ghost mut ls: Seq<int> = Seq::empty();
        proof {
            lemma_advanced_refl(s0, i0);
            lemma_only_errors_refl(o0);
            assert(names@.subrange(0, n0.len() as int) =~= n0);
            assert(names@.subrange(n0.len() as int, names@.len() as int) =~= Seq::<QualifiedName>::empty());
            assert(name_list_starts(s0.tokens@, s0.pos as int) =~= ls + name_list_starts(s0.tokens@, s0.pos as int));
        }
        while self.at(TokenKind::Comma)
            invariant
                self.advanced(&s0, interner@, i0),
                self.same_arenas(&s0),
                s0 == *old(self),
                i0 == old(interner)@,
                o0 == old(sink)@,
                s0.ready(i0),
                interner.wf(),
                only_errors_added(o0, sink@),
                names_ok(names@, self.bounds(interner@.len())),
                old(names)@.len() <= names@.len(),
                n0 == old(names)@,
                names@.subrange(0, n0.len() as int) == n0,
                names_at(names@.subrange(n0.len() as int, names@.len() as int), interner@, s0.bytes(), s0.tokens@, ls),
                name_list_starts(s0.tokens@, s0.pos as int) == ls + name_list_starts(s0.tokens@, self.pos as int),
                name_list_tail_end(s0.tokens@, self.pos as int) == name_list_tail_end(s0.tokens@, s0.pos as int),
                name_list_tail_clean(s0.tokens@, s0.pos as int) == (sink@.len() == o0.len() && name_list_tail_clean(
                    s0.tokens@,
                    self.pos as int,
                )),
            decreases self.tokens@.len() - self.pos,
        {
            proof {
                assert((self.pos as int) < s0.tokens@.len() - 1);
            }
            let ghost s1 = *self;
            let ghost i1 = interner@;
            let ghost o1 = sink@;
            let ghost nm1 = names@;
            self.bump();
            proof {
                lemma_advanced_by_consuming(s1, *self, i1);
                lemma_only_errors_refl(o1);
            }
            let ghost s2 = *self;
            match self.parse_qualified_name(interner, sink) {
                Some(q) => {
                    proof {
                        lemma_advanced_bounds(s1, *self, i1, interner@);
                        lemma_names_mono(names@, s1.bounds(i1.len()), self.bounds(interner@.len()));
                    }
                    names.push(q);
                    proof {
                        assert forall|i: int| 0 <= i < names@.len() implies name_ok(
                            #[trigger] names@[i],
                            self.bounds(interner@.len()),
                        ) by {
                            if i < names@.len() - 1 {
                                assert(names@[i] == names@.drop_last()[i]);
                            }
                        }
                    }
                },
                None => {},
            }
            proof {
                lemma_chain(s1, s2, *self, i1, i1, interner@, o1, o1, sink@);
                lemma_chain(s0, s1, *self, i0, i1, interner@, o0, o1, sink@);
                let toks = s0.tokens@;
                let q = s1.pos as int;
                let here = if kind_at(toks, q + 1) == TokenKind::Ident {
                    seq![q + 1]
                } else {
                    Seq::<int>::empty()
                };
                assert(self.pos as int == qn_end(toks, q + 1));
                assert(name_list_starts(toks, q) == here + name_list_starts(toks, self.pos as int));
                assert(name_list_starts(toks, s0.pos as int) =~= (ls + here) + name_list_starts(toks, self.pos as int));
                let old_tail = nm1.subrange(n0.len() as int, nm1.len() as int);
                lemma_names_at_grows(old_tail, i1, interner@, s0.bytes(), toks, ls);
                let new_tail = names@.subrange(n0.len() as int, names@.len() as int);
                if kind_at(toks, q + 1) == TokenKind::Ident {
                    let one = seq![names@.last()];
                    assert(new_tail =~= old_tail + one);
                    assert(names_at(one, interner@, s0.bytes(), toks, here));
                    lemma_names_at_append(old_tail, one, interner@, s0.bytes(), toks, ls, here);
                } else {
                    assert(new_tail =~= old_tail);
                    assert(ls + here =~= ls);
                }
                assert(names@.subrange(0, n0.len() as int) =~= nm1.subrange(0, n0.len() as int));
                ls = ls + here;
            }
        }
        proof {
            assert(name_list_starts(s0.tokens@, self.pos as int) =~= Seq::<int>::empty());
            assert(ls + Seq::<int>::empty() =~= ls);
        }
    }

    /// Parses any number of `(:> | specializes) QualifiedName (, QualifiedName)*`.
    #[verifier::rlimit(60)]
    #[verifier::spinoff_prover]
    fn parse_specializations(
        &mut self,
        interner: &mut StringInterner,
        sink: &mut DiagnosticSink,
    ) -> (r: Vec<QualifiedName>)
        requires
            old(self).ready(old(interner)@),
            old(interner).wf(),
        ensures
            final(self).same_arenas(&*old(self)),
            final(self).advanced(&*old(self), final(interner)@, old(interner)@),
            final(interner).wf(),
            only_errors_added(old(sink)@, final(sink)@),
            names_ok(r@, final(self).bounds(final(interner)@.len())),
            r@.len() > 0 ==> old(self).kind_at(old(self).pos as int) == TokenKind::ColonGt
                || old(self).kind_at(old(self).pos as int) == TokenKind::Specializes,
            names_at(r@, final(interner)@, old(self).bytes(), old(self).tokens@, specialization_starts(old(self).tokens@, old(self).pos as int)),
            final(self).pos == specializations_end(old(self).tokens@, old(self).pos as int),
            final(sink)@.len() == old(sink)@.len() <==> specializations_clean(old(self).tokens@, old(self).pos as int),
    {
        let ghost s0 = *self;
        let ghost i0 = interner@;
        let ghost o0 = sink@;
        let mut specs: Vec<QualifiedName> = Vec::new();
        let ghost mut started = false;
        let ghost mut ss: Seq<int> = Seq::empty();
        proof {
            assert(specialization_starts(s0.tokens@, s0.pos as int) =~= ss + specialization_starts(s0.tokens@, s0.pos as int));
            lemma_advanced_refl(s0, i0);
            lemma_only_errors_refl(o0);
        }
        loop
            invariant
                self.advanced(&s0, interner@, i0),
                self.same_arenas(&s0),
                s0 == *old(self),
                i0 == old(interner)@,
                o0 == old(sink)@,
                s0.ready(i0),
                interner.wf(),
                only_errors_added(o0, sink@),
                names_ok(specs@, self.bounds(interner@.len())),
                started ==> s0.kind_at(s0.pos as int) == TokenKind::ColonGt
                    || s0.kind_at(s0.pos as int) == TokenKind::Specializes,
                !started ==> self.pos == s0.pos && specs@.len() == 0,
                names_at(specs@, interner@, s0.bytes(), s0.tokens@, ss),
                specialization_starts(s0.tokens@, s0.pos as int) == ss + specialization_starts(s0.tokens@, self.pos as int),
                specializations_end(s0.tokens@, self.pos as int) == specializations_end(s0.tokens@, s0.pos as int),
                specializations_clean(s0.tokens@, s0.pos as int) == (sink@.len() == o0.len() && specializations_clean(
                    s0.tokens@,
                    self.pos as int,
                )),
            ensures
                self.pos == specializations_end(s0.tokens@, s0.pos as int),
                specializations_clean(s0.tokens@, s0.pos as int) == (sink@.len() == o0.len()),
                self.advanced(&s0, interner@, i0),
                self.same_arenas(&s0),
                interner.wf(),
                only_errors_added(o0, sink@),
                names_ok(specs@, self.bounds(interner@.len())),
                started ==> s0.kind_at(s0.pos as int) == TokenKind::ColonGt
                    || s0.kind_at(s0.pos as int) == TokenKind::Specializes,
                !started ==> self.pos == s0.pos && specs@.len() == 0,
                names_at(specs@, interner@, s0.bytes(), s0.tokens@, ss),
                specialization_starts(s0.tokens@, s0.pos as int) == ss,
            decreases self.tokens@.len() - self.pos,
        {
            if self.at(TokenKind::ColonGt) || self.at(TokenKind::Specializes) {
                proof {
                    assert((self.pos as int) < s0.tokens@.len() - 1);
                }
                let ghost s1 = *self;
                let ghost i1 = interner@;
                let ghost o1 = sink@;
                let ghost sp1 = specs@;
                self.bump();
                proof {
                    lemma_advanced_by_consuming(s1, *self, i1);
                    lemma_only_errors_refl(o1);
                }
                let ghost s2 = *self;
                match self.parse_qualified_name(interner, sink) {
                    Some(q) => {
                        proof {
                            lemma_advanced_bounds(s1, *self, i1, interner@);
                            lemma_names_mono(specs@, s1.bounds(i1.len()), self.bounds(interner@.len()));
                        }
                        specs.push(q);
                        proof {
                            assert forall|i: int| 0 <= i < specs@.len() implies name_ok(
                                #[trigger] specs@[i],
                                self.bounds(interner@.len()),
                            ) by {
                                if i < specs@.len() - 1 {
                                    assert(specs@[i] == specs@.drop_last()[i]);
                                }
                            }
                        }
                    },
                    None => {},
                }
                proof {
                    lemma_chain(s1, s2, *self, i1, i1, interner@, o1, o1, sink@);
                }
                let ghost s3 = *self;
                let ghost i3 = interner@;
                let ghost o3 = sink@;
                let ghost sp3 = specs@;
                self.parse_name_list_tail(&mut specs, interner, sink);
                proof {
                    lemma_chain(s1, s3, *self, i1, i3, interner@, o1, o3, sink@);
                    lemma_chain(s0, s1, *self, i0, i1, interner@, o0, o1, sink@);
                    let toks = s0.tokens@;
                    let b = s0.bytes();
                    let q = s1.pos as int;
                    let here = if kind_at(toks, q + 1) == TokenKind::Ident {
                        seq![q + 1]
                    } else {
                        Seq::<int>::empty()
                    };
                    let t = s3.pos as int;
                    assert(t == qn_end(toks, q + 1));
                    let tail = specs@.subrange(sp3.len() as int, specs@.len() as int);
                    let mid = sp3.subrange(sp1.len() as int, sp3.len() as int);
                    assert(sp3 =~= sp1 + mid);
                    assert(specs@ =~= sp3 + tail);
                    lemma_names_at_grows(sp1, i1, interner@, b, toks, ss);
                    if kind_at(toks, q + 1) == TokenKind::Ident {
                        assert(mid =~= seq![sp3.last()]);
                        assert(names_at(mid, i3, b, toks, here));
                    } else {
                        assert(mid =~= Seq::<QualifiedName>::empty());
                    }
                    lemma_names_at_grows(mid, i3, interner@, b, toks, here);
                    lemma_names_at_append(sp1, mid, interner@, b, toks, ss, here);
                    lemma_names_at_append(sp1 + mid, tail, interner@, b, toks, ss + here, name_list_starts(toks, t));
                    assert(specialization_starts(toks, q) == (here + name_list_starts(toks, t)) + specialization_starts(toks, self.pos as int));
                    assert(specialization_starts(toks, s0.pos as int) =~= ((ss + here) + name_list_starts(toks, t)) + specialization_starts(toks, self.pos as int));
                    ss = (ss + here) + name_list_starts(toks, t);
                }
                proof {
                    started = true;
                }
            } else {
                proof {
                    assert(specialization_starts(s0.tokens@, self.pos as int) =~= Seq::<int>::empty());
                    assert(ss + Seq::<int>::empty() =~= ss);
                }
                break;
            }
        }
        specs
    }

    /// Reports `msg` at the current token, then skips to a synchronization point.
    fn recover(&mut self, msg: &str, Ghost(iv): Ghost<Seq<Seq<char>>>, sink: &mut DiagnosticSink)
        requires
            old(self).wf(iv.len()),
        ensures
            final(self).same_arenas(&*old(self)),
            final(self).advanced(&*old(self), iv, iv),
            only_errors_added(old(sink)@, final(sink)@),
            final(self).pos == sync_point(old(self).tokens@, old(self).pos as int),
            final(sink)@.len() == old(sink)@.len() + 1,
            final(sink)@.last().message@ == msg@,
    {
        let ghost s0 = *self;
        self.error_at_current(msg, sink);
        self.synchronize();
        proof {
            lemma_advanced_by_consuming(s0, *self, iv);
        }
    }

    /// Parses the members of a type body up to and including its `}`.
    #[verifier::rlimit(60)]
    #[verifier::spinoff_prover]
    fn parse_type_members(
        &mut self,
        interner: &mut StringInterner,
        sink: &mut DiagnosticSink,
    ) -> (r: Vec<Member>)
        requires
            old(self).ready(old(interner)@),
            old(interner).wf(),
        ensures
            final(self).advanced(&*old(self), final(interner)@, old(interner)@),
            final(interner).wf(),
            only_errors_added(old(sink)@, final(sink)@),
            final(self).packages == old(self).packages,
            members_ok(r@, final(self).bounds(final(interner)@.len())),
            forall|k: int| 0 <= k < r@.len() ==> !(#[trigger] r@[k] is Package),
            final(self).weights(r@) <= 2 * (final(self).total() - old(self).total()),
            final(self).pos == type_members_end(old(self).tokens@, old(self).pos as int),
            members_match(
                final(self).built(final(interner)@),
                r@,
                old(self).bytes(),
                old(self).tokens@,
                type_member_steps(old(self).tokens@, old(self).pos as int),
            ),
            bodies_between(
                final(self).built(final(interner)@),
                old(self).bytes(),
                old(self).tokens@,
                old(self).packages@.len() as int,
                final(self).packages@.len() as int,
                old(self).types@.len() as int,
                final(self).types@.len() as int,
            ),
            final(sink)@.len() == old(sink)@.len() <==> type_members_clean(old(self).tokens@, old(self).pos as int),
        decreases old(self).tokens@.len() - old(self).pos, 1nat,
    {
        let ghost s0 = *self;
        let ghost i0 = interner@;
        let ghost o0 = sink@;
        let mut members: Vec<Member> = Vec::new();
        let ghost mut ms: Seq<int> = Seq::empty();
        proof {
            lemma_advanced_refl(s0, i0);
            lemma_only_errors_refl(o0);
            assert(type_member_steps(s0.tokens@, s0.pos as int) =~= ms + type_member_steps(s0.tokens@, s0.pos as int));
            reveal(Parser::weights);
        }
        while !self.at(TokenKind::RBrace) && !self.at(TokenKind::Eof)
            invariant
                self.advanced(&s0, interner@, i0),
                self.packages == s0.packages,
                s0 == *old(self),
                i0 == old(interner)@,
                o0 == old(sink)@,
                s0.ready(i0),
                interner.wf(),
                only_errors_added(o0, sink@),
                members_ok(members@, self.bounds(interner@.len())),
                type_members_end(s0.tokens@, self.pos as int) == type_members_end(s0.tokens@, s0.pos as int),
                type_members_clean(s0.tokens@, s0.pos as int) == (sink@.len() == o0.len() && type_members_clean(s0.tokens@, self.pos as int)),
                forall|k: int| 0 <= k < members@.len() ==> !(#[trigger] members@[k] is Package),
                self.weights(members@) <= 2 * (self.total() - s0.total()),
                type_member_steps(s0.tokens@, s0.pos as int) == ms + type_member_steps(s0.tokens@, self.pos as int),
                members_match(self.built(interner@), members@, s0.bytes(), s0.tokens@, ms),
                bodies_between(
                    self.built(interner@),
                    s0.bytes(),
                    s0.tokens@,
                    s0.packages@.len() as int,
                    self.packages@.len() as int,
                    s0.types@.len() as int,
                    self.types@.len() as int,
                ),
            decreases self.tokens@.len() - self.pos,
        {
            let before = self.pos;
            let ghost s1 = *self;
            let ghost i1 = interner@;
            let ghost o1 = sink@;
            let ghost mem1 = members@;
            let k = self.peek();
            let mut added: Option<Member> = None;
            if k == TokenKind::Type {
                match self.parse_type_decl(interner, sink) {
                    Some(id) => {
                        added = Some(Member::Type(id));
                        proof {
                            assert(self.weight(Member::Type(id)) <= 2 * (self.total() - s1.total()));
                        }
                    },
                    None => {},
                }
            } else if k == TokenKind::Feature || k == TokenKind::In || k == TokenKind::Out || k
                == TokenKind::InOut {
                match self.parse_feature_decl(interner, sink) {
                    Some(id) => {
                        added = Some(Member::Feature(id));
                        proof {
                            assert(self.weight(Member::Feature(id)) <= 2 * (self.total() - s1.total()));
                        }
                    },
                    None => {},
                }
            } else if k == TokenKind::Conjugation {
                match self.parse_conjugation_decl(interner, sink) {
                    Some(id) => {
                        added = Some(Member::Conjugation(id));
                        proof {
                            assert(self.weight(Member::Conjugation(id)) <= 2 * (self.total() - s1.total()));
                        }
                    },
                    None => {},
                }
            } else {
                self.recover("expected type, feature, or conjugation declaration", Ghost(i1), sink);
            }
            proof {
                lemma_advanced_bounds(s1, *self, i1, interner@);
                lemma_members_mono(members@, s1.bounds(i1.len()), self.bounds(interner@.len()));
                lemma_chain(s0, s1, *self, i0, i1, interner@, o0, o1, sink@);
                let w1 = s1.built(i1);
                let w2 = self.built(interner@);
                lemma_built_grows(s1, *self, i1, interner@);
                lemma_members_match_grows(w1, w2, mem1, s0.bytes(), s0.tokens@, ms);
                lemma_bodies_grow(w1, w2, s0.bytes(), s0.tokens@, s0.packages@.len() as int, s0.types@.len() as int);
                lemma_bodies_join(
                    w2,
                    s0.bytes(),
                    s0.tokens@,
                    s0.packages@.len() as int,
                    s1.packages@.len() as int,
                    self.packages@.len() as int,
                    s0.types@.len() as int,
                    s1.types@.len() as int,
                    self.types@.len() as int,
                );
                assert(added is Some <==> member_made(s0.tokens@, before as int));
                match added {
                    Some(m) => assert(body_member_at(w2, m, s0.bytes(), s0.tokens@, before as int)),
                    None => {},
                }
            }
            let ghost smid = *self;
            proof {
                assert(added matches Some(m) ==> smid.weight(m) <= 2 * (smid.total() - s1.total()));
                lemma_member_step(s1, smid, i1.len(), mem1, added, s0.total());
            }
            match added {
                Some(m) => {
                    members.push(m);
                    proof {
                        assert forall|i: int| 0 <= i < members@.len() implies member_ok(
                            #[trigger] members@[i],
                            self.bounds(interner@.len()),
                        ) by {
                            if i < members@.len() - 1 {
                                assert(members@[i] == members@.drop_last()[i]);
                            }
                        }
                    }
                },
                None => {},
            }
            if self.pos == before && !self.at(TokenKind::Eof) {
                let ghost s2 = *self;
                self.bump();
                proof {
                    lemma_advanced_by_consuming(s2, *self, interner@);
                    lemma_advanced_trans(s0, s2, *self, i0, interner@, interner@);
                }
            }
            proof {
                assert(type_members_end(s0.tokens@, before as int) == type_members_end(s0.tokens@, self.pos as int));
                let q = before as int;
                let here = if member_made(s0.tokens@, q) { seq![q] } else { Seq::<int>::empty() };
                assert(type_member_steps(s0.tokens@, q) == here + type_member_steps(s0.tokens@, self.pos as int));
                assert(type_member_steps(s0.tokens@, s0.pos as int) =~= (ms + here) + type_member_steps(s0.tokens@, self.pos as int));
                assert(members@ =~= mem1 + match added { Some(m) => seq![m], None => Seq::<Member>::empty() });
                ms = ms + here;
                match added {
                    Some(m) => assert(members@ == mem1.push(m)),
                    None => assert(members@ == mem1),
                }
                lemma_weights_same_arenas(smid, *self, members@);
            }
        }
        let ghost s3 = *self;
        let ghost o3 = sink@;
        let ghost mem3 = members@;
        if self.at(TokenKind::RBrace) {
            self.bump();
            proof {
                lemma_only_errors_refl(o3);
            }
        } else {
            self.error_at_current("expected `}`", sink);
        }
        proof {
            lemma_advanced_by_consuming(s3, *self, interner@);
            lemma_advanced_trans(s0, s3, *self, i0, interner@, interner@);
            lemma_only_errors_trans(o0, o3, sink@);
            lemma_weights_same_arenas(s3, *self, mem3);
        }
        members
    }
    /// Parses `type Name Specializations? ((~ | conjugates) QualifiedName)? ({ Members } | ;)?`.
    #[verifier::rlimit(60)]
    #[verifier::spinoff_prover]
    fn parse_type_decl(
        &mut self,
        interner: &mut StringInterner,
        sink: &mut DiagnosticSink,
    ) -> (r: Option<TypeDeclId>)
        requires
            old(self).ready(old(interner)@),
            old(interner).wf(),
        ensures
            final(self).advanced(&*old(self), final(interner)@, old(interner)@),
            final(interner).wf(),
            only_errors_added(old(sink)@, final(sink)@),
            final(self).packages == old(self).packages,
            r is None ==> final(self).same_arenas(&*old(self)),
            old(self).kind_at(old(self).pos as int) != TokenKind::Type ==> final(self).pos == old(
                self,
            ).pos,
            r is Some <==> old(self).kind_at(old(self).pos as int) == TokenKind::Type && old(
                self,
            ).kind_at(old(self).pos + 1) == TokenKind::Ident,
            r matches Some(id) ==> {
                let d = final(self).types@[id.index() as int];
                let toks = old(self).tokens@;
                let p = old(self).pos as int;
                &&& old(self).types@.len() <= id.index()
                &&& id.index() + 1 == final(self).types@.len()
                &&& names_token(old(self).bytes(), toks, p + 1, final(interner)@, d.name)
                &&& d.span.start == toks[p].span.start
                &&& (d.specializations@.len() > 0 ==> toks[p + 2].kind == TokenKind::ColonGt
                    || toks[p + 2].kind == TokenKind::Specializes)
            },
            final(self).pos == type_decl_end(old(self).tokens@, old(self).pos as int),
            r matches Some(id) ==> type_decl_at(
                final(self).built(final(interner)@),
                final(self).types@[id.index() as int],
                old(self).bytes(),
                old(self).tokens@,
                old(self).pos as int,
            ),
            bodies_between(
                final(self).built(final(interner)@),
                old(self).bytes(),
                old(self).tokens@,
                old(self).packages@.len() as int,
                final(self).packages@.len() as int,
                old(self).types@.len() as int,
                final(self).types@.len() as int,
            ),
            final(sink)@.len() == old(sink)@.len() <==> type_decl_clean(old(self).tokens@, old(self).pos as int),
            r matches Some(id) ==> final(self).weight(Member::Type(id)) <= 2 * (final(self).total() - old(self).total()),
        decreases old(self).tokens@.len() - old(self).pos, 0nat,
    {
        let ghost s0 = *self;
        let ghost i0 = interner@;
        let ghost o0 = sink@;
        let start = self.current_span();
        if !self.expect_kw(TokenKind::Type, Ghost(i0), sink) {
            return None;
        }
        let ghost s1 = *self;
        let ghost o1 = sink@;
        let name = match self.expect_name(interner, sink) {
            Some(n) => n,
            None => {
                proof {
                    lemma_chain(s0, s1, *self, i0, i0, interner@, o0, o1, sink@);
                }
                return None;
            },
        };
        proof {
            lemma_chain(s0, s1, *self, i0, i0, interner@, o0, o1, sink@);
        }
        let ghost s2 = *self;
        let ghost i2 = interner@;
        let ghost o2 = sink@;
        let specializations = self.parse_specializations(interner, sink);
        let ghost s3 = *self;
        let ghost i3 = interner@;
        let ghost o3 = sink@;
        let mut conjugation: Option<QualifiedName> = None;
        if self.at(TokenKind::Tilde) || self.at(TokenKind::Conjugates) {
            self.bump();
            proof {
                lemma_advanced_by_consuming(s3, *self, i3);
                lemma_only_errors_refl(o3);
            }
            let ghost s3b = *self;
            conjugation = self.parse_qualified_name(interner, sink);
            proof {
                lemma_chain(s3, s3b, *self, i3, i3, interner@, o3, o3, sink@);
            }
        } else {
            proof {
                lemma_advanced_refl(s3, i3);
                lemma_only_errors_refl(o3);
            }
        }
        let ghost i3e = interner@;
        proof {
            assert(conjugation is Some <==> is_tilde(kind_at(s0.tokens@, s3.pos as int)) && kind_at(s0.tokens@, s3.pos + 1) == TokenKind::Ident);
            assert(conjugation matches Some(c) ==> qn_at(c, i3e, s0.bytes(), s0.tokens@, s3.pos + 1));
            lemma_chain(s2, s3, *self, i2, i3, interner@, o2, o3, sink@);
            lemma_advanced_bounds(s3, *self, i3, interner@);
            lemma_names_mono(specializations@, s3.bounds(i3.len()), self.bounds(interner@.len()));
        }
        let ghost s4 = *self;
        let ghost i4 = interner@;
        let ghost o4 = sink@;
        assert(s4.pos == type_header_end(s0.tokens@, s0.pos as int));
        let mut members: Vec<Member> = Vec::new();
        if self.at(TokenKind::LBrace) {
            self.bump();
            proof {
                lemma_advanced_by_consuming(s4, *self, i4);
                lemma_only_errors_refl(o4);
            }
            let ghost s5 = *self;
            members = self.parse_type_members(interner, sink);
            proof {
                lemma_chain(s4, s5, *self, i4, i4, interner@, o4, o4, sink@);
                assert(self.weights(members@) <= 2 * (self.total() - s4.total()));
            }
        } else if self.at(TokenKind::Semicolon) {
            self.bump();
            proof {
                lemma_advanced_by_consuming(s4, *self, i4);
                lemma_only_errors_refl(o4);
            }
        } else {
            proof {
                lemma_advanced_refl(s4, i4);
                lemma_only_errors_refl(o4);
            }
        }
        let ghost sm = *self;
        let ghost im = interner@;
        proof {
            reveal(Parser::weights);
            assert(sm.weights(members@) <= 2 * (sm.total() - s4.total()));
            assert(s4.total() >= s2.total());
            assert(s2.total() >= s0.total());
        }
        proof {
            assert(members_match(sm.built(im), members@, s0.bytes(), s0.tokens@, type_member_positions(s0.tokens@, s0.pos as int))) by {
                if !(kind_at(s0.tokens@, s4.pos as int) == TokenKind::LBrace) {
                    assert(members@ =~= Seq::<Member>::empty());
                }
            }
            assert(bodies_between(
                sm.built(im),
                s0.bytes(),
                s0.tokens@,
                s0.packages@.len() as int,
                sm.packages@.len() as int,
                s0.types@.len() as int,
                sm.types@.len() as int,
            ));
        }
        proof {
            lemma_chain(s2, s4, *self, i2, i4, interner@, o2, o4, sink@);
            lemma_chain(s0, s2, *self, i0, i2, interner@, o0, o2, sink@);
            lemma_advanced_bounds(s4, *self, i4, interner@);
            lemma_names_mono(specializations@, s4.bounds(i4.len()), self.bounds(interner@.len()));
            match conjugation {
                Some(ref q) => lemma_name_mono(*q, s4.bounds(i4.len()), self.bounds(interner@.len())),
                None => {},
            }
        }
        let end = self.current_span();
        let span = Span::new(start.file, start.start, end.start);
        let decl = TypeDecl { name, span, specializations, conjugation, members };
        let ghost s6 = *self;
        let id = self.store_type(decl, Ghost(interner@.len()));
        proof {
            assert(self.types@[id.index() as int] == decl);
            assert(self.types@.subrange(0, sm.types@.len() as int) =~= sm.types@);
            assert(self.packages@.subrange(0, sm.packages@.len() as int) =~= sm.packages@);
            assert(self.features@.subrange(0, sm.features@.len() as int) =~= sm.features@);
            assert(self.conjugations@.subrange(0, sm.conjugations@.len() as int) =~= sm.conjugations@);
            lemma_weights_kept(sm, *self, im.len(), decl.members@);
            reveal(Parser::weight);
            reveal(Parser::weights);
            lemma_parser_closed(*self, im.len());
            lemma_type_weight_unfold(self.packages@, self.types@, self.features@, id.index());
            lemma_grows_store(s0, s6, *self);
            let w1 = sm.built(im);
            let w2 = self.built(interner@);
            assert(s6 == sm);
            lemma_interner_grows_refl(im);
            assert(built_grows(w1, w2));
            lemma_members_match_grows(w1, w2, decl.members@, s0.bytes(), s0.tokens@, type_member_positions(s0.tokens@, s0.pos as int));
            lemma_names_token_grows(s0.bytes(), s0.tokens@, s0.pos + 1, i2, interner@, name);
            assert(s2.pos == s0.pos + 2);
            lemma_interner_grows_trans(i3, i3e, interner@);
            lemma_names_at_grows(decl.specializations@, i3, interner@, s0.bytes(), s0.tokens@, specialization_starts(s0.tokens@, s0.pos + 2));
            let dd = self.types@[id.index() as int];
            if let Some(c) = dd.conjugation {
                lemma_qn_at_grows(c, i3e, interner@, s0.bytes(), s0.tokens@, s3.pos + 1);
            }
            assert(type_header_at(dd, interner@, s0.bytes(), s0.tokens@, s0.pos as int)) by {
                reveal(type_header_at);
            }
            assert(type_decl_at(w2, self.types@[id.index() as int], s0.bytes(), s0.tokens@, s0.pos as int));
            lemma_bodies_grow(w1, w2, s0.bytes(), s0.tokens@, s0.packages@.len() as int, s0.types@.len() as int);
            assert(type_declared(w2, self.types@[id.index() as int], s0.bytes(), s0.tokens@));
            lemma_bodies_join(
                w2,
                s0.bytes(),
                s0.tokens@,
                s0.packages@.len() as int,
                sm.packages@.len() as int,
                self.packages@.len() as int,
                s0.types@.len() as int,
                sm.types@.len() as int,
                self.types@.len() as int,
            );
        }
        Some(id)
    }

    /// Parses the imports and members of a package body, stopping at `}` or `Eof`.
    #[verifier::rlimit(60)]
    #[verifier::spinoff_prover]
    fn parse_package_members(
        &mut self,
        interner: &mut StringInterner,
        sink: &mut DiagnosticSink,
    ) -> (r: (Vec<ImportDecl>, Vec<Member>))
        requires
            old(self).ready(old(interner)@),
            old(interner).wf(),
        ensures
            final(self).advanced(&*old(self), final(interner)@, old(interner)@),
            final(interner).wf(),
            only_errors_added(old(sink)@, final(sink)@),
            imports_ok(r.0@, final(self).bounds(final(interner)@.len())),
            imports_at(r.0@, final(interner)@, old(self).bytes(), old(self).tokens@, package_import_steps(old(self).tokens@, old(self).pos as int)),
            members_ok(r.1@, final(self).bounds(final(interner)@.len())),
            final(self).weights(r.1@) <= 2 * (final(self).total() - old(self).total()),
            final(self).kind_at(final(self).pos as int) == TokenKind::RBrace || final(self).kind_at(
                final(self).pos as int,
            ) == TokenKind::Eof,
            final(self).pos == package_members_end(old(self).tokens@, old(self).pos as int),
            members_match(
                final(self).built(final(interner)@),
                r.1@,
                old(self).bytes(),
                old(self).tokens@,
                package_member_steps(old(self).tokens@, old(self).pos as int),
            ),
            bodies_between(
                final(self).built(final(interner)@),
                old(self).bytes(),
                old(self).tokens@,
                old(self).packages@.len() as int,
                final(self).packages@.len() as int,
                old(self).types@.len() as int,
                final(self).types@.len() as int,
            ),
            final(sink)@.len() == old(sink)@.len() <==> package_members_clean(old(self).tokens@, old(self).pos as int),
        decreases old(self).tokens@.len() - old(self).pos, 1nat,
    {
        let ghost s0 = *self;
        let ghost i0 = interner@;
        let ghost o0 = sink@;
        let mut imports: Vec<ImportDecl> = Vec::new();
        let mut members: Vec<Member> = Vec::new();
        let ghost mut ms: Seq<int> = Seq::empty();
        let ghost mut is: Seq<int> = Seq::empty();
        proof {
            assert(package_import_steps(s0.tokens@, s0.pos as int) =~= is + package_import_steps(s0.tokens@, s0.pos as int));
            lemma_advanced_refl(s0, i0);
            lemma_only_errors_refl(o0);
            assert(package_member_steps(s0.tokens@, s0.pos as int) =~= ms + package_member_steps(s0.tokens@, s0.pos as int));
            reveal(Parser::weights);
        }
        while !self.at(TokenKind::RBrace) && !self.at(TokenKind::Eof)
            invariant
                self.advanced(&s0, interner@, i0),
                s0 == *old(self),
                i0 == old(interner)@,
                o0 == old(sink)@,
                s0.ready(i0),
                interner.wf(),
                only_errors_added(o0, sink@),
                imports_ok(imports@, self.bounds(interner@.len())),
                imports_at(imports@, interner@, s0.bytes(), s0.tokens@, is),
                package_import_steps(s0.tokens@, s0.pos as int) == is + package_import_steps(s0.tokens@, self.pos as int),
                members_ok(members@, self.bounds(interner@.len())),
                self.weights(members@) <= 2 * (self.total() - s0.total()),
                package_members_end(s0.tokens@, self.pos as int) == package_members_end(s0.tokens@, s0.pos as int),
                package_members_clean(s0.tokens@, s0.pos as int) == (sink@.len() == o0.len() && package_members_clean(s0.tokens@, self.pos as int)),
                package_member_steps(s0.tokens@, s0.pos as int) == ms + package_member_steps(s0.tokens@, self.pos as int),
                members_match(self.built(interner@), members@, s0.bytes(), s0.tokens@, ms),
                bodies_between(
                    self.built(interner@),
                    s0.bytes(),
                    s0.tokens@,
                    s0.packages@.len() as int,
                    self.packages@.len() as int,
                    s0.types@.len() as int,
                    self.types@.len() as int,
                ),
            decreases self.tokens@.len() - self.pos,
        {
            let before = self.pos;
            let ghost s1 = *self;
            let ghost i1 = interner@;
            let ghost o1 = sink@;
            let ghost mem1 = members@;
            let ghost imp1 = imports@;
            let k = self.peek();
            let mut added: Option<Member> = None;
            let mut import: Option<ImportDecl> = None;
            if k == TokenKind::Import {
                import = self.parse_import(interner, sink);
            } else if k == TokenKind::Package {
                match self.parse_package(interner, sink) {
                    Some(id) => {
                        added = Some(Member::Package(id));
                        proof {
                            assert(self.weight(Member::Package(id)) <= 2 * (self.total() - s1.total()));
                        }
                    },
                    None => {},
                }
            } else if k == TokenKind::Type {
                match self.parse_type_decl(interner, sink) {
                    Some(id) => {
                        added = Some(Member::Type(id));
                        proof {
                            assert(self.weight(Member::Type(id)) <= 2 * (self.total() - s1.total()));
                        }
                    },
                    None => {},
                }
            } else if k == TokenKind::Feature || k == TokenKind::In || k == TokenKind::Out || k
                == TokenKind::InOut {
                match self.parse_feature_decl(interner, sink) {
                    Some(id) => {
                        added = Some(Member::Feature(id));
                        proof {
                            assert(self.weight(Member::Feature(id)) <= 2 * (self.total() - s1.total()));
                        }
                    },
                    None => {},
                }
            } else if k == TokenKind::Conjugation {
                match self.parse_conjugation_decl(interner, sink) {
                    Some(id) => {
                        added = Some(Member::Conjugation(id));
                        proof {
                            assert(self.weight(Member::Conjugation(id)) <= 2 * (self.total() - s1.total()));
                        }
                    },
                    None => {},
                }
            } else {
                self.recover(
                    "expected import, package, type, feature, or conjugation declaration",
                    Ghost(i1),
                    sink,
                );
            }
            proof {
                lemma_advanced_bounds(s1, *self, i1, interner@);
                lemma_members_mono(members@, s1.bounds(i1.len()), self.bounds(interner@.len()));
                lemma_imports_mono(imports@, s1.bounds(i1.len()), self.bounds(interner@.len()));
                lemma_chain(s0, s1, *self, i0, i1, interner@, o0, o1, sink@);
                let w1 = s1.built(i1);
                let w2 = self.built(interner@);
                lemma_built_grows(s1, *self, i1, interner@);
                lemma_members_match_grows(w1, w2, mem1, s0.bytes(), s0.tokens@, ms);
                lemma_bodies_grow(w1, w2, s0.bytes(), s0.tokens@, s0.packages@.len() as int, s0.types@.len() as int);
                lemma_bodies_join(
                    w2,
                    s0.bytes(),
                    s0.tokens@,
                    s0.packages@.len() as int,
                    s1.packages@.len() as int,
                    self.packages@.len() as int,
                    s0.types@.len() as int,
                    s1.types@.len() as int,
                    self.types@.len() as int,
                );
                assert(added is Some <==> (package_made(s0.tokens@, before as int) || member_made(s0.tokens@, before as int)));
                match added {
                    Some(m) => assert(body_member_at(w2, m, s0.bytes(), s0.tokens@, before as int)),
                    None => {},
                }
            }
            let ghost smid = *self;
            proof {
                assert(added matches Some(m) ==> smid.weight(m) <= 2 * (smid.total() - s1.total()));
                lemma_member_step(s1, smid, i1.len(), mem1, added, s0.total());
            }
            match added {
                Some(m) => {
                    members.push(m);
                    proof {
                        assert forall|i: int| 0 <= i < members@.len() implies member_ok(
                            #[trigger] members@[i],
                            self.bounds(interner@.len()),
                        ) by {
                            if i < members@.len() - 1 {
                                assert(members@[i] == members@.drop_last()[i]);
                            }
                        }
                    }
                },
                None => {},
            }
            match import {
                Some(d) => {
                    imports.push(d);
                    proof {
                        assert forall|i: int| 0 <= i < imports@.len() implies name_ok(
                            (#[trigger] imports@[i]).path,
                            self.bounds(interner@.len()),
                        ) by {
                            if i < imports@.len() - 1 {
                                assert(imports@[i] == imports@.drop_last()[i]);
                            }
                        }
                    }
                },
                None => {},
            }
            if self.pos == before && !self.at(TokenKind::Eof) {
                let ghost s2 = *self;
                self.bump();
                proof {
                    lemma_advanced_by_consuming(s2, *self, interner@);
                    lemma_advanced_trans(s0, s2, *self, i0, interner@, interner@);
                }
            }
            proof {
                assert(package_members_end(s0.tokens@, before as int) == package_members_end(s0.tokens@, self.pos as int));
                let q = before as int;
                let here = if package_made(s0.tokens@, q) || member_made(s0.tokens@, q) { seq![q] } else { Seq::<int>::empty() };
                assert(package_member_steps(s0.tokens@, q) == here + package_member_steps(s0.tokens@, self.pos as int));
                assert(package_member_steps(s0.tokens@, s0.pos as int) =~= (ms + here) + package_member_steps(s0.tokens@, self.pos as int));
                assert(members@ =~= mem1 + match added { Some(m) => seq![m], None => Seq::<Member>::empty() });
                ms = ms + here;
                let here_i = if import_made(s0.tokens@, q) { seq![q] } else { Seq::<int>::empty() };
                assert(package_import_steps(s0.tokens@, q) == here_i + package_import_steps(s0.tokens@, self.pos as int));
                assert(package_import_steps(s0.tokens@, s0.pos as int) =~= (is + here_i) + package_import_steps(s0.tokens@, self.pos as int));
                lemma_imports_at_grows(imp1, i1, interner@, s0.bytes(), s0.tokens@, is);
                if import_made(s0.tokens@, q) {
                    assert(imports@ =~= imp1.push(imports@.last()));
                    assert(import_at(imports@.last(), interner@, s0.bytes(), s0.tokens@, q));
                } else {
                    assert(imports@ =~= imp1);
                }
                assert(imports_at(imports@, interner@, s0.bytes(), s0.tokens@, is + here_i)) by {
                    assert forall|k: int| 0 <= k < imports@.len() implies import_at(#[trigger] imports@[k], interner@, s0.bytes(), s0.tokens@, (is + here_i)[k]) by {
                        if k < imp1.len() {
                            assert(imports@[k] == imp1[k]);
                            assert((is + here_i)[k] == is[k]);
                        }
                    }
                }
                is = is + here_i;
                match added {
                    Some(m) => assert(members@ == mem1.push(m)),
                    None => assert(members@ == mem1),
                }
                lemma_weights_same_arenas(smid, *self, members@);
            }
        }
        (imports, members)
    }

    /// Parses `package Name { (Import | Member)* }`.
    #[verifier::rlimit(60)]
    #[verifier::spinoff_prover]
    fn parse_package(
        &mut self,
        interner: &mut StringInterner,
        sink: &mut DiagnosticSink,
    ) -> (r: Option<PackageId>)
        requires
            old(self).ready(old(interner)@),
            old(interner).wf(),
        ensures
            final(self).advanced(&*old(self), final(interner)@, old(interner)@),
            final(interner).wf(),
            only_errors_added(old(sink)@, final(sink)@),
            r is None ==> final(self).same_arenas(&*old(self)),
            old(self).kind_at(old(self).pos as int) != TokenKind::Package ==> final(self).pos
                == old(self).pos,
            r is Some <==> old(self).kind_at(old(self).pos as int) == TokenKind::Package && old(
                self,
            ).kind_at(old(self).pos + 1) == TokenKind::Ident,
            r matches Some(id) ==> {
                let d = final(self).packages@[id.index() as int];
                let toks = old(self).tokens@;
                let p = old(self).pos as int;
                &&& old(self).packages@.len() <= id.index()
                &&& id.index() + 1 == final(self).packages@.len()
                &&& names_token(old(self).bytes(), toks, p + 1, final(interner)@, d.name)
                &&& d.span.start == toks[p].span.start
            },
            final(self).pos == package_end(old(self).tokens@, old(self).pos as int),
            r matches Some(id) ==> package_decl_at(
                final(self).built(final(interner)@),
                final(self).packages@[id.index() as int],
                old(self).bytes(),
                old(self).tokens@,
                old(self).pos as int,
            ),
            bodies_between(
                final(self).built(final(interner)@),
                old(self).bytes(),
                old(self).tokens@,
                old(self).packages@.len() as int,
                final(self).packages@.len() as int,
                old(self).types@.len() as int,
                final(self).types@.len() as int,
            ),
            final(sink)@.len() == old(sink)@.len() <==> package_clean(old(self).tokens@, old(self).pos as int),
            r matches Some(id) ==> final(self).weight(Member::Package(id)) <= 2 * (final(self).total() - old(self).total()),
        decreases old(self).tokens@.len() - old(self).pos, 0nat,
    {
        let ghost s0 = *self;
        let ghost i0 = interner@;
        let ghost o0 = sink@;
        let start = self.current_span();
        if !self.expect_kw(TokenKind::Package, Ghost(i0), sink) {
            return None;
        }
        let ghost s1 = *self;
        let ghost o1 = sink@;
        let name = match self.expect_name(interner, sink) {
            Some(n) => n,
            None => {
                proof {
                    lemma_chain(s0, s1, *self, i0, i0, interner@, o0, o1, sink@);
                }
                return None;
            },
        };
        proof {
            lemma_chain(s0, s1, *self, i0, i0, interner@, o0, o1, sink@);
        }
        let ghost s2 = *self;
        let ghost i2 = interner@;
        let ghost o2 = sink@;
        if !self.expect_kw(TokenKind::LBrace, Ghost(i2), sink) {
            let span = Span::new(start.file, start.start, self.current_span().end);
            let decl = PackageDecl { name, span, imports: Vec::new(), members: Vec::new() };
            proof {
                lemma_chain(s0, s2, *self, i0, i2, i2, o0, o2, sink@);
                assert(decl.imports@ =~= Seq::<ImportDecl>::empty());
                assert(decl.members@ =~= Seq::<Member>::empty());
            }
            let ghost s6 = *self;
            let id = self.store_package(decl, Ghost(interner@.len()));
            proof {
                lemma_grows_store(s0, s6, *self);
                assert(self.packages@[id.index() as int] == decl);
                lemma_parser_closed(*self, interner@.len());
                lemma_package_weight_unfold(self.packages@, self.types@, self.features@, id.index());
                reveal(Parser::weight);
                reveal(Parser::weights);
                assert(self.weights(decl.members@) == 0);
                let w2 = self.built(interner@);
                assert(package_decl_at(w2, self.packages@[id.index() as int], s0.bytes(), s0.tokens@, s0.pos as int)) by {
                    assert(decl.members@.len() == 0);
                }
                assert(package_declared(w2, self.packages@[id.index() as int], s0.bytes(), s0.tokens@));
                assert(bodies_between(
                    w2,
                    s0.bytes(),
                    s0.tokens@,
                    s0.packages@.len() as int,
                    self.packages@.len() as int,
                    s0.types@.len() as int,
                    self.types@.len() as int,
                ));
            }
            return Some(id);
        }
        proof {
            lemma_chain(s0, s2, *self, i0, i2, i2, o0, o2, sink@);
        }
        let ghost s3 = *self;
        let ghost o3 = sink@;
        let (imports, members) = self.parse_package_members(interner, sink);
        let ghost s5 = *self;
        let ghost i5 = interner@;
        proof {
            lemma_chain(s0, s3, *self, i0, i2, interner@, o0, o3, sink@);
            assert(s5.weights(members@) <= 2 * (s5.total() - s3.total()));
            assert(imports_at(imports@, i5, s0.bytes(), s0.tokens@, package_import_steps(s0.tokens@, s3.pos as int)));
            assert(s3.pos == s0.pos + 3);
            assert(s3.total() >= s0.total());
        }
        let end_span = self.current_span();
        let ghost s4 = *self;
        let ghost o4 = sink@;
        if self.at(TokenKind::RBrace) {
            self.bump();
            proof {
                lemma_only_errors_refl(o4);
            }
        } else {
            self.error_at_current("expected `}`", sink);
        }
        proof {
            lemma_advanced_by_consuming(s4, *self, interner@);
            lemma_chain(s0, s4, *self, i0, interner@, interner@, o0, o4, sink@);
        }
        let span = Span::new(start.file, start.start, end_span.end);
        let decl = PackageDecl { name, span, imports, members };
        let ghost s6 = *self;
        let ghost i6 = interner@;
        let id = self.store_package(decl, Ghost(interner@.len()));
        proof {
            lemma_grows_store(s0, s6, *self);
            lemma_weights_same_arenas(s5, s6, members@);
            assert(s6.weights(members@) <= 2 * (s6.total() - s0.total()));
            assert(self.packages@[id.index() as int] == decl);
            assert(self.packages@.subrange(0, s6.packages@.len() as int) =~= s6.packages@);
            assert(self.types@.subrange(0, s6.types@.len() as int) =~= s6.types@);
            assert(self.features@.subrange(0, s6.features@.len() as int) =~= s6.features@);
            assert(self.conjugations@.subrange(0, s6.conjugations@.len() as int) =~= s6.conjugations@);
            lemma_weights_kept(s6, *self, i6.len(), decl.members@);
            reveal(Parser::weight);
            reveal(Parser::weights);
            lemma_parser_closed(*self, i6.len());
            lemma_package_weight_unfold(self.packages@, self.types@, self.features@, id.index());
            let w5 = s5.built(i5);
            let w1 = s6.built(i6);
            let w2 = self.built(interner@);
            lemma_built_grows(s5, s6, i5, i6);
            lemma_interner_grows_refl(i6);
            assert(built_grows(w1, w2));
            lemma_members_match_grows(w5, w1, decl.members@, s0.bytes(), s0.tokens@, package_member_positions(s0.tokens@, s0.pos as int));
            lemma_members_match_grows(w1, w2, decl.members@, s0.bytes(), s0.tokens@, package_member_positions(s0.tokens@, s0.pos as int));
            lemma_names_token_grows(s0.bytes(), s0.tokens@, s0.pos + 1, i2, interner@, name);
            assert(interner@ == i5);
            assert(self.packages@[id.index() as int].imports@ == imports@);
            assert(package_import_positions(s0.tokens@, s0.pos as int) == package_import_steps(s0.tokens@, s3.pos as int));
            assert(package_decl_at(w2, self.packages@[id.index() as int], s0.bytes(), s0.tokens@, s0.pos as int));
            lemma_bodies_grow(w5, w1, s0.bytes(), s0.tokens@, s0.packages@.len() as int, s0.types@.len() as int);
            lemma_bodies_grow(w1, w2, s0.bytes(), s0.tokens@, s0.packages@.len() as int, s0.types@.len() as int);
            assert(package_declared(w2, self.packages@[id.index() as int], s0.bytes(), s0.tokens@));
            lemma_bodies_join(
                w2,
                s0.bytes(),
                s0.tokens@,
                s0.packages@.len() as int,
                s6.packages@.len() as int,
                self.packages@.len() as int,
                s0.types@.len() as int,
                s6.types@.len() as int,
                self.types@.len() as int,
            );
        }
        Some(id)
    }

    /// Lexes `source`, keeping every significant token and the final `Eof`.
    fn lex_significant(source: &str, file: FileId) -> (tokens: Vec<Token>)
        requires
            source.spec_bytes().len() <= u32::MAX,
        ensures
            tokens_wf(source.spec_bytes(), file, tokens@),
            tokens@ == significant_tokens(source.spec_bytes(), file, 0),
    {
        let ghost b = source.spec_bytes();
        let mut lexer = Lexer::new(source, file);
        let mut tokens: Vec<Token> = Vec::new();
        loop
            invariant_except_break
                tokens@.len() <= lexer.offset(),
                tokens@ + significant_tokens(b, file, lexer.offset() as int) == significant_tokens(b, file, 0),
                forall|i: int|
                    0 <= i < tokens@.len() ==> {
                        let t = #[trigger] tokens@[i];
                        &&& t.kind != TokenKind::Eof
                        &&& t.kind != TokenKind::Whitespace
                        &&& t.kind != TokenKind::Comment
                        &&& t.span.file == file
                        &&& t.span.start < t.span.end <= lexer.offset()
                        &&& token_at(b, t.span.start as int) == (t.kind, t.span.end as int)
                    },
            invariant
                lexer.input() == b,
                lexer.file() == file,
                0 <= lexer.offset() <= b.len(),
                b.len() <= u32::MAX,
            ensures
                tokens_wf(b, file, tokens@),
                tokens@ == significant_tokens(b, file, 0),
            decreases b.len() - lexer.offset(),
        {
            proof {
                if lexer.offset() < b.len() {
                    lemma_token_progress(b, lexer.offset());
                }
            }
            let ghost off = lexer.offset() as int;
            let ghost before = tokens@;
            let tok = lexer.next_token();
            proof {
                if off < b.len() {
                    let e = token_at(b, off).1;
                    if tok.kind == TokenKind::Whitespace || tok.kind == TokenKind::Comment {
                        assert(significant_tokens(b, file, off) == significant_tokens(b, file, e));
                    } else {
                        assert(significant_tokens(b, file, off) == seq![tok] + significant_tokens(b, file, e));
                        assert(before.push(tok) + significant_tokens(b, file, e) =~= before + (seq![tok]
                            + significant_tokens(b, file, e)));
                    }
                } else {
                    assert(significant_tokens(b, file, off) == seq![tok]);
                }
            }
            if tok.kind == TokenKind::Eof {
                tokens.push(tok);
                proof {
                    assert(tokens@ =~= before + seq![tok]);
                    assert forall|i: int| 0 <= i < tokens@.len() - 1 implies {
                        let t = #[trigger] tokens@[i];
                        &&& t.kind != TokenKind::Eof
                        &&& t.kind != TokenKind::Whitespace
                        &&& t.kind != TokenKind::Comment
                        &&& t.span.file == file
                        &&& t.span.start < t.span.end <= b.len()
                        &&& token_at(b, t.span.start as int) == (t.kind, t.span.end as int)
                    } by {
                        assert(tokens@[i] == tokens@.drop_last()[i]);
                    }
                }
                break;
            } else if tok.kind != TokenKind::Whitespace && tok.kind != TokenKind::Comment {
                tokens.push(tok);
                proof {
                    assert forall|i: int| 0 <= i < tokens@.len() implies {
                        let t = #[trigger] tokens@[i];
                        &&& t.kind != TokenKind::Eof
                        &&& t.kind != TokenKind::Whitespace
                        &&& t.kind != TokenKind::Comment
                        &&& t.span.file == file
                        &&& t.span.start < t.span.end <= lexer.offset()
                        &&& token_at(b, t.span.start as int) == (t.kind, t.span.end as int)
                    } by {
                        if i < tokens@.len() - 1 {
                            assert(tokens@[i] == tokens@.drop_last()[i]);
                        }
                    }
                }
            }
        }
        tokens
    }

    /// Parses a whole KerML source file. Syntax errors go to `sink`, each as an
    /// error; parsing always goes on to the end of the input and returns what it built.
    #[verifier::rlimit(100)]
    #[verifier::spinoff_prover]
    pub fn parse(
        source: &'a str,
        file: FileId,
        interner: &mut StringInterner,
        sink: &mut DiagnosticSink,
    ) -> (r: ParseResult)
        requires
            old(interner).wf(),
            old(interner)@.len() + source.spec_bytes().len() + 1 < u32::MAX,
        ensures
            final(interner).wf(),
            interner_grows(old(interner)@, final(interner)@),
            only_errors_added(old(sink)@, final(sink)@),
            final(sink)@ == old(sink)@ <==> file_clean(significant_tokens(source.spec_bytes(), file, 0), 0),
            decl_count(r) <= 2 * (source.spec_bytes().len() + 1),
            final(interner)@.len() <= old(interner)@.len() + source.spec_bytes().len() + 1,
            parsed_from(r, source.spec_bytes(), file, final(interner)@),
    {
        let tokens = Self::lex_significant(source, file);
        let mut parser = Parser {
            source,
            tokens,
            pos: 0,
            file,
            packages: Arena::new(),
            types: Arena::new(),
            features: Arena::new(),
            conjugations: Arena::new(),
        };
        let ghost s0 = parser;
        let ghost i0 = interner@;
        let ghost o0 = sink@;
        proof {
            lemma_advanced_refl(s0, i0);
            lemma_only_errors_refl(o0);
        }
        let start = parser.current_span();
        proof {
            if parser.tokens@.len() > 1 {
                assert(parser.tokens@[0].span.file == file);
            }
        }
        let mut top_packages: Vec<PackageId> = Vec::new();
        let mut top_members: Vec<Member> = Vec::new();
        let ghost toks = parser.tokens@;
        let ghost b = source.spec_bytes();
        let ghost mut pk: Seq<int> = Seq::empty();
        let ghost mut mk: Seq<int> = Seq::empty();
        proof {
            reveal(Parser::top_weight);
            assert(package_steps(toks, 0) =~= pk + package_steps(toks, 0));
            assert(member_steps(toks, 0) =~= mk + member_steps(toks, 0));
        }
        while !parser.at(TokenKind::Eof)
            invariant
                parser.tokens@ == toks,
                b == parser.bytes(),
                package_steps(toks, 0) == pk + package_steps(toks, parser.pos as int),
                member_steps(toks, 0) == mk + member_steps(toks, parser.pos as int),
                top_packages@.len() == pk.len(),
                top_members@.len() == mk.len(),
                bodies_between(parser.built(interner@), b, toks, 0, parser.packages@.len() as int, 0, parser.types@.len() as int),
                file_clean(toks, 0) == (sink@.len() == o0.len() && file_clean(toks, parser.pos as int)),
                forall|k: int|
                    0 <= k < pk.len() ==> package_at(parser.packages@, #[trigger] top_packages@[k], b, toks, interner@, pk[k]),
                forall|k: int|
                    0 <= k < mk.len() ==> member_at(
                        parser.types@,
                        parser.features@,
                        parser.conjugations@,
                        #[trigger] top_members@[k],
                        b,
                        toks,
                        interner@,
                        mk[k],
                    ),
                parser.advanced(&s0, interner@, i0),
                s0.ready(i0),
                interner.wf(),
                only_errors_added(o0, sink@),
                forall|i: int|
                    0 <= i < top_packages@.len() ==> (#[trigger] top_packages@[i]).index()
                        < parser.packages@.len(),
                members_ok(top_members@, parser.bounds(interner@.len())),
                parser.top_weight(top_packages@, top_members@) <= 2 * parser.total(),
                start == s0.tokens@[0].span,
                start.file == file,
            decreases parser.tokens@.len() - parser.pos,
        {
            let before = parser.pos;
            let ghost s1 = parser;
            let ghost i1 = interner@;
            let ghost o1 = sink@;
            let ghost tp1 = top_packages@;
            let ghost tm1 = top_members@;
            proof {
                assert((before as int) < toks.len() - 1);
            }
            let k = parser.peek();
            let mut added: Option<Member> = None;
            let ghost mut addp: Option<PackageId> = None;
            if k == TokenKind::Package {
                match parser.parse_package(interner, sink) {
                    Some(id) => {
                        top_packages.push(id);
                        proof {
                            addp = Some(id);
                        }
                    },
                    None => {},
                }
            } else if k == TokenKind::Type {
                match parser.parse_type_decl(interner, sink) {
                    Some(id) => {
                        added = Some(Member::Type(id));
                        proof {
                            assert(parser.weight(Member::Type(id)) <= 2 * (parser.total() - s1.total()));
                        }
                    },
                    None => {},
                }
            } else if k == TokenKind::Feature || k == TokenKind::In || k == TokenKind::Out || k
                == TokenKind::InOut {
                match parser.parse_feature_decl(interner, sink) {
                    Some(id) => {
                        added = Some(Member::Feature(id));
                        proof {
                            assert(parser.weight(Member::Feature(id)) <= 2 * (parser.total() - s1.total()));
                        }
                    },
                    None => {},
                }
            } else if k == TokenKind::Conjugation {
                match parser.parse_conjugation_decl(interner, sink) {
                    Some(id) => {
                        added = Some(Member::Conjugation(id));
                        proof {
                            assert(parser.weight(Member::Conjugation(id)) <= 2 * (parser.total() - s1.total()));
                        }
                    },
                    None => {},
                }
            } else if k == TokenKind::Import {
                parser.error_at_current("import must be inside a package", sink);
                parser.bump();
                parser.synchronize();
                proof {
                    lemma_advanced_by_consuming(s1, parser, i1);
                }
            } else {
                parser.recover(
                    "expected package, type, feature, or conjugation declaration",
                    Ghost(i1),
                    sink,
                );
            }
            proof {
                lemma_advanced_bounds(s1, parser, i1, interner@);
                lemma_members_mono(top_members@, s1.bounds(i1.len()), parser.bounds(interner@.len()));
                lemma_chain(s0, s1, parser, i0, i1, interner@, o0, o1, sink@);
                let w1 = s1.built(i1);
                let w2 = parser.built(interner@);
                lemma_built_grows(s1, parser, i1, interner@);
                lemma_bodies_grow(w1, w2, b, toks, 0, 0);
                lemma_bodies_join(
                    w2,
                    b,
                    toks,
                    0,
                    s1.packages@.len() as int,
                    parser.packages@.len() as int,
                    0,
                    s1.types@.len() as int,
                    parser.types@.len() as int,
                );
                assert forall|i: int| 0 <= i < top_packages@.len() implies (#[trigger] top_packages@[i]).index()
                    < parser.packages@.len() by {
                    if i < top_packages@.len() - 1 && k == TokenKind::Package {
                        assert(top_packages@[i] == top_packages@.drop_last()[i]);
                    }
                }
            }
            let ghost smid = parser;
            proof {
                lemma_top_weights(s1, smid, i1.len(), tp1, tm1, addp, added);
            }
            match added {
                Some(m) => {
                    top_members.push(m);
                    proof {
                        assert forall|i: int| 0 <= i < top_members@.len() implies member_ok(
                            #[trigger] top_members@[i],
                            parser.bounds(interner@.len()),
                        ) by {
                            if i < top_members@.len() - 1 {
                                assert(top_members@[i] == top_members@.drop_last()[i]);
                            }
                        }
                    }
                },
                None => {},
            }
            if parser.pos == before && !parser.at(TokenKind::Eof) {
                let ghost s2 = parser;
                parser.bump();
                proof {
                    lemma_advanced_by_consuming(s2, parser, interner@);
                    lemma_advanced_trans(s0, s2, parser, i0, interner@, interner@);
                }
            }
            proof {
                let q = before as int;
                let e = parser.pos as int;
                assert(e == top_step_end(toks, q));
                assert(file_clean(toks, q) == ((sink@.len() == o1.len()) && file_clean(toks, e)));
                let hp = if package_made(toks, q) { seq![q] } else { Seq::<int>::empty() };
                let hm = if member_made(toks, q) { seq![q] } else { Seq::<int>::empty() };
                assert(package_steps(toks, q) == hp + package_steps(toks, e));
                assert(member_steps(toks, q) == hm + member_steps(toks, e));
                assert(package_steps(toks, 0) =~= (pk + hp) + package_steps(toks, e));
                assert(member_steps(toks, 0) =~= (mk + hm) + member_steps(toks, e));
                assert forall|j: int| 0 <= j < pk.len() implies package_at(parser.packages@, #[trigger] top_packages@[j], b, toks, interner@, pk[j]) by {
                    assert(top_packages@[j] == tp1[j]);
                    let d = s1.packages@[tp1[j].index() as int];
                    assert(parser.packages@[tp1[j].index() as int] == parser.packages@.subrange(0, s1.packages@.len() as int)[tp1[j].index() as int]);
                    lemma_names_token_grows(b, toks, pk[j] + 1, i1, interner@, d.name);
                }
                assert forall|j: int| 0 <= j < mk.len() implies member_at(
                    parser.types@,
                    parser.features@,
                    parser.conjugations@,
                    #[trigger] top_members@[j],
                    b,
                    toks,
                    interner@,
                    mk[j],
                ) by {
                    assert(top_members@[j] == tm1[j]);
                    match tm1[j] {
                        Member::Type(id) => {
                            assert(parser.types@[id.index() as int] == parser.types@.subrange(0, s1.types@.len() as int)[id.index() as int]);
                            lemma_names_token_grows(b, toks, mk[j] + 1, i1, interner@, s1.types@[id.index() as int].name);
                        },
                        Member::Feature(id) => {
                            assert(parser.features@[id.index() as int] == parser.features@.subrange(0, s1.features@.len() as int)[id.index() as int]);
                            lemma_names_token_grows(b, toks, feature_keyword_pos(toks, mk[j]) + 1, i1, interner@, s1.features@[id.index() as int].name);
                            lemma_feature_body_grows(s1.features@[id.index() as int], i1, interner@, b, toks, mk[j]);
                        },
                        Member::Conjugation(id) => {
                            assert(parser.conjugations@[id.index() as int] == parser.conjugations@.subrange(0, s1.conjugations@.len() as int)[id.index() as int]);
                            lemma_names_token_grows(b, toks, mk[j] + 1, i1, interner@, s1.conjugations@[id.index() as int].name);
                            lemma_conjugation_sides_grows(s1.conjugations@[id.index() as int], i1, interner@, b, toks, mk[j]);
                        },
                        Member::Package(_) => {},
                    }
                }
                pk = pk + hp;
                mk = mk + hm;
                assert(top_packages@ == match addp {
                    Some(q) => tp1.push(q),
                    None => tp1,
                });
                assert(top_members@ == match added {
                    Some(m) => tm1.push(m),
                    None => tm1,
                });
                lemma_weights_top_same(smid, parser, top_packages@, top_members@);
            }
        }
        let end = parser.current_span();
        let span = if start.file == end.file {
            Span::new(start.file, start.start, end.end)
        } else {
            start
        };
        proof {
            reveal(Parser::top_weight);
            lemma_interner_grows_trans(old(interner)@, i0, interner@);
            if sink@.len() == o0.len() {
                assert(sink@ =~= sink@.subrange(0, o0.len() as int));
            }
        }
        ParseResult {
            source_file: SourceFile { packages: top_packages, members: top_members, span },
            packages: parser.packages,
            types: parser.types,
            features: parser.features,
            conjugations: parser.conjugations,
        }
    }
}

} // verus!
