//! Where the compiler implements a clause of the specification: the code signals that
//! a clause's productions give, and the verdict drawn from the search for them.
use vstd::prelude::*;
use vstd::string::StrSliceExecFns;
use vstd::string::StringSliceAdditionalSpecFns;
use vstd::string::StringExecFns;
use crate::spec_mcp::chars::{to_chars, starts_with, has_prefix_in, text_lines, split_lines};

verus! {

/// A piece of code whose presence shows that a clause is implemented.
#[derive(Clone, Debug, PartialEq, Eq)]
pub enum CodeSignal {
    ParserMethod(String),
    TokenKind(String),
    DefKind(String),
    SerializerFn(String),
}

/// A [`CodeSignal`] in terms of its text.
pub enum SignalSpec {
    ParserMethod(Seq<char>),
    TokenKind(Seq<char>),
    DefKind(Seq<char>),
    SerializerFn(Seq<char>),
}

impl CodeSignal {
    pub open spec fn spec(&self) -> SignalSpec {
        match self {
            CodeSignal::ParserMethod(s) => SignalSpec::ParserMethod(s@),
            CodeSignal::TokenKind(s) => SignalSpec::TokenKind(s@),
            CodeSignal::DefKind(s) => SignalSpec::DefKind(s@),
            CodeSignal::SerializerFn(s) => SignalSpec::SerializerFn(s@),
        }
    }
}

pub open spec fn signals_spec(v: Seq<CodeSignal>) -> Seq<SignalSpec> {
    v.map_values(|s: CodeSignal| s.spec())
}

#[derive(Clone, Copy, Debug, PartialEq, Eq, Structural)]
pub enum ImplStatus {
    Implemented,
    Partial,
    NotStarted,
    OutOfScope,
}

#[derive(Clone, Debug)]
pub struct ImplReport {
    pub status: ImplStatus,
    pub entry_points: Vec<String>,
}

/// Whether `c` has the Unicode `Uppercase` property, as `char::is_uppercase` reports it.
pub uninterp spec fn unicode_uppercase(c: char) -> bool;

/// Calls `char::is_uppercase`. Trusted: the result is `unicode_uppercase(c)`, and among
/// ASCII characters exactly `A` to `Z` are upper case.
#[verifier::external_body]
fn is_upper(c: char) -> (b: bool)
    ensures
        b == unicode_uppercase(c),
        (c as u32) < 128 ==> (b <==> ('A' <= c && c <= 'Z')),
{
    c.is_uppercase()
}

/// `c` in lower case if it is an ASCII capital, as `char::to_ascii_lowercase` gives it.
pub open spec fn ascii_lower(c: char) -> char {
    if 'A' <= c && c <= 'Z' {
        ((c as u32) + 32) as char
    } else {
        c
    }
}

/// `s` with every occurrence of `pat` replaced by `rep`, scanning from the left and
/// without overlaps, as `str::replace` does it.
pub open spec fn replace_all(s: Seq<char>, pat: Seq<char>, rep: Seq<char>) -> Seq<char>
    recommends
        pat.len() > 0,
    decreases s.len(),
{
    if s.len() == 0 || pat.len() == 0 {
        s
    } else if starts_with(s, pat) {
        rep + replace_all(s.subrange(pat.len() as int, s.len() as int), pat, rep)
    } else {
        seq![s[0]] + replace_all(s.drop_first(), pat, rep)
    }
}

/// The snake-case form of `s` from position `i` on: each upper-case character becomes
/// `_` (except at the start) and its ASCII lower case.
pub open spec fn snake_from(s: Seq<char>, i: int) -> Seq<char>
    decreases s.len() - i,
{
    if i < 0 || i >= s.len() {
        Seq::empty()
    } else if unicode_uppercase(s[i]) {
        (if i > 0 {
            seq!['_']
        } else {
            Seq::empty()
        }) + seq![ascii_lower(s[i])] + snake_from(s, i + 1)
    } else {
        seq![s[i]] + snake_from(s, i + 1)
    }
}

/// The parser method name stem of a production name: `Declaration` shortened to `Decl`,
/// then snake case.
pub open spec fn to_snake_spec(name: Seq<char>) -> Seq<char> {
    snake_from(replace_all(name, "Declaration"@, "Decl"@), 0)
}

/// The token kind that a lexical production is implemented by, if any.
pub open spec fn lexical_kind_spec(p: Seq<char>) -> Option<Seq<char>> {
    if p == "SINGLE_LINE_NOTE"@ || p == "MULTILINE_NOTE"@ || p == "REGULAR_COMMENT"@ {
        Some("Comment"@)
    } else if p == "STRING_VALUE"@ {
        Some("StringLiteral"@)
    } else if p == "DECIMAL_VALUE"@ || p == "EXPONENTIAL_VALUE"@ {
        Some("IntLiteral"@)
    } else if p == "RESERVED_KEYWORD"@ {
        Some("ReservedKeyword"@)
    } else if p == "RESERVED_SYMBOL"@ {
        Some("ReservedSymbol"@)
    } else if p == "UNRESTRICTED_NAME"@ {
        Some("UnrestrictedName"@)
    } else if p == "BASIC_NAME"@ {
        Some("Ident"@)
    } else {
        None
    }
}

/// The parser method that a syntactic production is implemented by: `parse_` and the
/// snake-case stem, unless the stem is empty.
pub open spec fn parser_method_spec(p: Seq<char>) -> Option<Seq<char>> {
    if to_snake_spec(p).len() == 0 {
        None
    } else {
        Some("parse_"@ + to_snake_spec(p))
    }
}

/// The signals of clause `cid` with productions `names`: token kinds for the lexical
/// clauses `8.2.2.*`, parser methods for the other `8.2.*` clauses, none elsewhere.
pub open spec fn derive_signals_spec(cid: Seq<char>, names: Seq<Seq<char>>) -> Seq<SignalSpec>
    decreases names.len(),
{
    if names.len() == 0 {
        Seq::empty()
    } else {
        let rest = derive_signals_spec(cid, names.drop_last());
        let p = names.last();
        if starts_with(cid, "8.2.2."@) {
            match lexical_kind_spec(p) {
                Some(t) => rest.push(SignalSpec::TokenKind(t)),
                None => rest,
            }
        } else if starts_with(cid, "8.2."@) {
            match parser_method_spec(p) {
                Some(m) => rest.push(SignalSpec::ParserMethod(m)),
                None => rest,
            }
        } else {
            rest
        }
    }
}

/// Whether two texts are equal.
fn same_text(a: &str, b: &str) -> (r: bool)
    ensures
        r == (a@ == b@),
{
    String::from_str(a) == String::from_str(b)
}

fn lexical_token_kind(production: &str) -> (r: Option<String>)
    ensures
        r matches Some(t) ==> lexical_kind_spec(production@) == Some(t@),
        r is None ==> lexical_kind_spec(production@) is None,
{
    if same_text(production, "SINGLE_LINE_NOTE") || same_text(production, "MULTILINE_NOTE")
        || same_text(production, "REGULAR_COMMENT") {
        Some(String::from_str("Comment"))
    } else if same_text(production, "STRING_VALUE") {
        Some(String::from_str("StringLiteral"))
    } else if same_text(production, "DECIMAL_VALUE") || same_text(production, "EXPONENTIAL_VALUE") {
        Some(String::from_str("IntLiteral"))
    } else if same_text(production, "RESERVED_KEYWORD") {
        Some(String::from_str("ReservedKeyword"))
    } else if same_text(production, "RESERVED_SYMBOL") {
        Some(String::from_str("ReservedSymbol"))
    } else if same_text(production, "UNRESTRICTED_NAME") {
        Some(String::from_str("UnrestrictedName"))
    } else if same_text(production, "BASIC_NAME") {
        Some(String::from_str("Ident"))
    } else {
        None
    }
}

/// `name` with every `Declaration` shortened to `Decl`.
fn shorten_declaration(name: &str) -> (r: String)
    ensures
        r@ == replace_all(name@, "Declaration"@, "Decl"@),
{
    let v = to_chars(name);
    let pat = to_chars("Declaration");
    proof {
        reveal_strlit("Declaration");
    }
    let mut out = String::new();
    let mut i: usize = 0;
    let n = v.len();
    proof {
        assert(v@.subrange(0, n as int) =~= v@);
    }
    while i < n
        invariant
            n == v@.len(),
            v@ == name@,
            pat@ == "Declaration"@,
            i <= n,
            out@ + replace_all(v@.subrange(i as int, n as int), pat@, "Decl"@) == replace_all(
                name@,
                "Declaration"@,
                "Decl"@,
            ),
        decreases n - i,
    {
        let ghost rest = v@.subrange(i as int, n as int);
        let ghost before = out@;
        proof {
            reveal_strlit("Declaration");
        }
        if has_prefix_in(&v, i, n, &pat) {
            out.append("Decl");
            let next = i + pat.len();
            proof {
                assert(rest.subrange(pat@.len() as int, rest.len() as int) =~= v@.subrange(next as int, n as int));
                assert(out@ + replace_all(v@.subrange(next as int, n as int), pat@, "Decl"@) =~= before
                    + replace_all(rest, pat@, "Decl"@));
            }
            i = next;
        } else {
            out.append(name.substring_char(i, i + 1));
            proof {
                assert(rest.drop_first() =~= v@.subrange(i + 1, n as int));
                assert(name@.subrange(i as int, i + 1) =~= seq![rest[0]]);
                assert(out@ + replace_all(v@.subrange(i + 1, n as int), pat@, "Decl"@) =~= before
                    + replace_all(rest, pat@, "Decl"@));
            }
            i = i + 1;
        }
    }
    proof {
        assert(v@.subrange(n as int, n as int) =~= Seq::<char>::empty());
        assert(out@ =~= replace_all(name@, "Declaration"@, "Decl"@));
    }
    out
}

/// The snake-case stem of a production name.
fn to_snake(name: &str) -> (r: String)
    ensures
        r@ == to_snake_spec(name@),
{
    let normalized = shorten_declaration(name);
    let s = normalized.as_str();
    let v = to_chars(s);
    let lower = "abcdefghijklmnopqrstuvwxyz";
    proof {
        reveal_strlit("abcdefghijklmnopqrstuvwxyz");
        reveal_strlit("_");
    }
    let mut out = String::new();
    let n = v.len();
    let mut i: usize = 0;
    proof {
        assert(out@ + snake_from(v@, 0) =~= snake_from(v@, 0));
    }
    while i < n
        invariant
            n == v@.len(),
            v@ == s@,
            lower@ == "abcdefghijklmnopqrstuvwxyz"@,
            i <= n,
            out@ + snake_from(v@, i as int) == snake_from(v@, 0),
        decreases n - i,
    {
        let c = v[i];
        let ghost before = out@;
        proof {
            reveal_strlit("abcdefghijklmnopqrstuvwxyz");
            reveal_strlit("_");
        }
        if is_upper(c) {
            if i > 0 {
                out.append("_");
            }
            if 'A' <= c && c <= 'Z' {
                let k = ((c as u32) - 65) as usize;
                out.append(lower.substring_char(k, k + 1));
                proof {
                    assert(lower@.subrange(k as int, k + 1) =~= seq![ascii_lower(c)]);
                }
            } else {
                out.append(s.substring_char(i, i + 1));
                proof {
                    assert(s@.subrange(i as int, i + 1) =~= seq![ascii_lower(c)]);
                }
            }
        } else {
            out.append(s.substring_char(i, i + 1));
            proof {
                assert(s@.subrange(i as int, i + 1) =~= seq![c]);
            }
        }
        proof {
            assert(out@ + snake_from(v@, i + 1) =~= before + snake_from(v@, i as int));
        }
        i = i + 1;
    }
    proof {
        assert(out@ =~= snake_from(v@, 0));
    }
    out
}

fn parser_method_name(production: &str) -> (r: Option<String>)
    ensures
        r matches Some(m) ==> parser_method_spec(production@) == Some(m@),
        r is None ==> parser_method_spec(production@) is None,
{
    let snake = to_snake(production);
    if snake.as_str().is_empty() {
        None
    } else {
        let mut m = String::from_str("parse_");
        m.append(snake.as_str());
        proof {
            reveal_strlit("parse_");
        }
        Some(m)
    }
}

/// The code signals of clause `clause_id` with productions `production_names`, in the
/// order of the productions.
pub fn derive_signals(clause_id: &str, production_names: &[&str]) -> (r: Vec<CodeSignal>)
    ensures
        signals_spec(r@) == derive_signals_spec(
            clause_id@,
            production_names@.map_values(|p: &str| p@),
        ),
{
    let cid = to_chars(clause_id);
    let lex = to_chars("8.2.2.");
    let syn = to_chars("8.2.");
    let is_lex = has_prefix_in(&cid, 0, cid.len(), &lex);
    let is_syn = has_prefix_in(&cid, 0, cid.len(), &syn);
    proof {
        assert(cid@.subrange(0, cid@.len() as int) =~= clause_id@);
    }
    let ghost names = production_names@.map_values(|p: &str| p@);
    let mut out: Vec<CodeSignal> = Vec::new();
    let mut i: usize = 0;
    while i < production_names.len()
        invariant
            i <= production_names@.len(),
            names == production_names@.map_values(|p: &str| p@),
            is_lex == starts_with(clause_id@, "8.2.2."@),
            is_syn == starts_with(clause_id@, "8.2."@),
            signals_spec(out@) == derive_signals_spec(clause_id@, names.subrange(0, i as int)),
        decreases production_names@.len() - i,
    {
        let name = production_names[i];
        let ghost before = out@;
        proof {
            assert(names.subrange(0, i + 1).drop_last() =~= names.subrange(0, i as int));
            assert(names.subrange(0, i + 1).last() == name@);
        }
        if is_lex {
            match lexical_token_kind(name) {
                Some(t) => {
                    out.push(CodeSignal::TokenKind(t));
                },
                None => {},
            }
        } else if is_syn {
            match parser_method_name(name) {
                Some(m) => {
                    out.push(CodeSignal::ParserMethod(m));
                },
                None => {},
            }
        }
        proof {
            assert(signals_spec(out@) =~= derive_signals_spec(clause_id@, names.subrange(0, i + 1)));
        }
        i = i + 1;
    }
    proof {
        assert(names.subrange(0, i as int) =~= names);
    }
    out
}

/// The text that shows a signal in Rust source: `fn NAME` for a function, `NAME,` for
/// an enum variant.
pub open spec fn needle_spec(s: SignalSpec) -> Seq<char> {
    match s {
        SignalSpec::ParserMethod(m) => "fn "@ + m,
        SignalSpec::SerializerFn(m) => "fn "@ + m,
        SignalSpec::TokenKind(t) => t + ","@,
        SignalSpec::DefKind(t) => t + ","@,
    }
}

/// The text to search the compiler's sources for, to find `sig`.
pub fn signal_needle(sig: &CodeSignal) -> (r: String)
    ensures
        r@ == needle_spec(sig.spec()),
{
    match sig {
        CodeSignal::ParserMethod(m) => String::from_str("fn ").concat(m.as_str()),
        CodeSignal::SerializerFn(m) => String::from_str("fn ").concat(m.as_str()),
        CodeSignal::TokenKind(t) => t.clone().concat(","),
        CodeSignal::DefKind(t) => t.clone().concat(","),
    }
}

/// The verdict on a clause: out of scope when it gives no signal, otherwise implemented
/// when the search found something (every hit an entry point) and not started when not.
pub fn classify(signals: &Vec<CodeSignal>, hits: Vec<String>) -> (r: ImplReport)
    ensures
        signals@.len() == 0 ==> r.status == ImplStatus::OutOfScope && r.entry_points@.len() == 0,
        signals@.len() > 0 ==> r.entry_points@ == hits@,
        signals@.len() > 0 && hits@.len() == 0 ==> r.status == ImplStatus::NotStarted,
        signals@.len() > 0 && hits@.len() > 0 ==> r.status == ImplStatus::Implemented,
{
    if signals.len() == 0 {
        return ImplReport { status: ImplStatus::OutOfScope, entry_points: Vec::new() };
    }
    let status = if hits.len() == 0 {
        ImplStatus::NotStarted
    } else {
        ImplStatus::Implemented
    };
    ImplReport { status, entry_points: hits }
}

/// `ls` with every repeated element dropped, first occurrences kept in order.
pub open spec fn dedup(ls: Seq<Seq<char>>) -> Seq<Seq<char>>
    decreases ls.len(),
{
    if ls.len() == 0 {
        Seq::empty()
    } else {
        let d = dedup(ls.drop_last());
        if d.contains(ls.last()) {
            d
        } else {
            d.push(ls.last())
        }
    }
}

pub open spec fn strings_view(v: Seq<String>) -> Seq<Seq<char>> {
    v.map_values(|s: String| s@)
}

/// The distinct lines of search output `out`, in the order they first appear.
pub fn unique_lines(out: &str) -> (r: Vec<String>)
    ensures
        strings_view(r@) == dedup(text_lines(out.spec_bytes())),
{
    let lines = split_lines(out);
    let ghost ls = text_lines(out.spec_bytes());
    let mut hits: Vec<String> = Vec::new();
    let mut i: usize = 0;
    while i < lines.len()
        invariant
            i <= lines@.len(),
            lines@.len() == ls.len(),
            forall|k: int| 0 <= k < lines@.len() ==> (#[trigger] lines@[k])@ == ls[k],
            strings_view(hits@) == dedup(ls.subrange(0, i as int)),
        decreases lines@.len() - i,
    {
        let line = String::from_str(lines[i]);
        let ghost d = strings_view(hits@);
        proof {
            assert(ls.subrange(0, i + 1).drop_last() =~= ls.subrange(0, i as int));
            assert(ls.subrange(0, i + 1).last() == line@);
        }
        let mut j: usize = 0;
        let mut seen = false;
        while j < hits.len()
            invariant
                j <= hits@.len(),
                d == strings_view(hits@),
                seen == (exists|m: int| 0 <= m < j && #[trigger] d[m] == line@),
            decreases hits@.len() - j,
        {
            if hits[j] == line {
                seen = true;
                assert(d[j as int] == line@);
            }
            j = j + 1;
        }
        proof {
            if seen {
                let m = choose|m: int| 0 <= m < j && #[trigger] d[m] == line@;
                assert(d.contains(line@));
            } else {
                assert forall|m: int| 0 <= m < d.len() implies d[m] != line@ by {
                    if d[m] == line@ {
                        assert(exists|m2: int| 0 <= m2 < j && #[trigger] d[m2] == line@);
                    }
                }
                assert(!d.contains(line@));
            }
        }
        if !seen {
            hits.push(line);
            proof {
                assert(strings_view(hits@) =~= d.push(line@));
            }
        }
        i = i + 1;
    }
    proof {
        assert(ls.subrange(0, i as int) =~= ls);
    }
    hits
}

} // verus!
