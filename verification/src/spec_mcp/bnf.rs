//! The productions of the KerML textual grammar (`.kebnf`), grouped by clause.
use vstd::prelude::*;
use vstd::string::StringSliceAdditionalSpecFns;
use vstd::string::StrSliceExecFns;
use vstd::string::StringExecFns;
use crate::spec_mcp::chars::{
    to_chars, is_white, trim, trim_start, starts_with, first_white, strip_end, text_lines,
    skip_white, back_white, has_prefix_in, find_white, strip_end_at, contains_at, trim_range,
    split_lines,
};
use crate::spec_mcp::SpecError;

verus! {

/// A grammar production: `Name = body`, or `Name : Base = body`.
#[derive(Clone, Debug, PartialEq, Eq)]
pub struct Production {
    /// The clause of the most recent `// Clause N.N.N` marker before it.
    pub clause_id: String,
    pub name: String,
    /// The right-hand side: its lines, trimmed and joined by `\n`.
    pub body: String,
    /// The 1-based line of the name.
    pub line: usize,
}

impl Production {
    pub open spec fn fields(&self) -> (Seq<char>, Seq<char>, Seq<char>, int) {
        (self.clause_id@, self.name@, self.body@, self.line as int)
    }
}

pub open spec fn productions_fields(ps: Seq<Production>) -> Seq<(Seq<char>, Seq<char>, Seq<char>, int)> {
    ps.map_values(|p: Production| p.fields())
}

pub open spec fn is_name_char(c: char) -> bool {
    ('a' <= c && c <= 'z') || ('A' <= c && c <= 'Z') || ('0' <= c && c <= '9') || c == '_'
}

pub open spec fn is_alpha(c: char) -> bool {
    ('a' <= c && c <= 'z') || ('A' <= c && c <= 'Z')
}

/// The production name that trimmed line `t` begins with, if it is a production's
/// first line: the first word with trailing `:` and then `=` removed, made of ASCII
/// letters, digits and `_` and starting with a letter, on a line that holds `=`.
pub open spec fn production_name(t: Seq<char>) -> Option<Seq<char>> {
    let name = strip_end(strip_end(t.subrange(0, first_white(t)), ':'), '=');
    if name.len() > 0 && (forall|k: int| 0 <= k < name.len() ==> is_name_char(#[trigger] name[k]))
        && is_alpha(name[0]) && t.contains('=') {
        Some(name)
    } else {
        None
    }
}

/// What follows `= ` on the first line of a production whose trimmed line is `t` and
/// whose name is `name`; empty when the right-hand side starts on the next line.
pub open spec fn rhs_of(t: Seq<char>, name: Seq<char>) -> Seq<char> {
    let after = trim_start(t.subrange(name.len() as int, t.len() as int));
    if after.len() > 0 && after[0] == ':' {
        let x = trim_start(after.drop_first());
        if starts_with(x, "= "@) {
            x.subrange(2, x.len() as int)
        } else {
            Seq::empty()
        }
    } else if starts_with(after, "= "@) {
        after.subrange(2, after.len() as int)
    } else {
        Seq::empty()
    }
}

/// The clause id of a marker `// Clause REST`: the first word of REST without
/// trailing dots.
pub open spec fn marker_id(rest: Seq<char>) -> Seq<char> {
    let x = trim(rest);
    strip_end(x.subrange(0, first_white(x)), '.')
}

/// A trimmed line that ends a production's body.
pub open spec fn ends_body(t: Seq<char>) -> bool {
    t.len() == 0 || starts_with(t, "//"@) || production_name(t) is Some
}

/// The first line from `j` on that ends a production's body.
pub open spec fn body_end(ls: Seq<Seq<char>>, j: int) -> int
    decreases ls.len() - j,
{
    if j < 0 || j >= ls.len() || ends_body(trim(ls[j])) {
        j
    } else {
        body_end(ls, j + 1)
    }
}

pub proof fn lemma_body_end(ls: Seq<Seq<char>>, j: int)
    requires
        0 <= j,
    ensures
        j <= body_end(ls, j),
        j <= ls.len() ==> body_end(ls, j) <= ls.len(),
    decreases ls.len() - j,
{
    if j < ls.len() && !ends_body(trim(ls[j])) {
        lemma_body_end(ls, j + 1);
    }
}

/// `body` with line `l` added, `\n` between lines.
pub open spec fn push_line(body: Seq<char>, l: Seq<char>) -> Seq<char> {
    if body.len() == 0 {
        l
    } else {
        body + seq!['\n'] + l
    }
}

/// `body` with the trimmed lines `ls[j..end]` added.
pub open spec fn body_lines(ls: Seq<Seq<char>>, j: int, end: int, body: Seq<char>) -> Seq<char>
    decreases end - j,
{
    if j >= end {
        body
    } else {
        body_lines(ls, j + 1, end, push_line(body, trim(ls[j])))
    }
}

/// The productions found in lines `ls[i..]`, under clause `clause` until the next
/// marker, as (clause id, name, body, line) tuples.
pub open spec fn productions_from(ls: Seq<Seq<char>>, i: int, clause: Seq<char>) -> Seq<
    (Seq<char>, Seq<char>, Seq<char>, int),
>
    decreases ls.len() - i,
{
    if i < 0 || i >= ls.len() {
        Seq::empty()
    } else {
        let t = trim(ls[i]);
        if t.len() == 0 {
            productions_from(ls, i + 1, clause)
        } else if starts_with(t, "// Clause "@) {
            productions_from(ls, i + 1, marker_id(t.subrange("// Clause "@.len() as int, t.len() as int)))
        } else if starts_with(t, "//"@) || starts_with(t, "!"@) {
            productions_from(ls, i + 1, clause)
        } else if production_name(t) is Some {
            let name = production_name(t)->0;
            proof {
                lemma_body_end(ls, i + 1);
            }
            let j = body_end(ls, i + 1);
            seq![(clause, name, trim(body_lines(ls, i + 1, j, rhs_of(t, name))), i + 1)]
                + productions_from(ls, j, clause)
        } else {
            productions_from(ls, i + 1, clause)
        }
    }
}

fn name_char(c: char) -> (b: bool)
    ensures
        b == is_name_char(c),
{
    ('a' <= c && c <= 'z') || ('A' <= c && c <= 'Z') || ('0' <= c && c <= '9') || c == '_'
}

/// The end of the production name that trimmed line `v[s..e]` begins with, if any.
fn name_end(v: &Vec<char>, s: usize, e: usize) -> (r: Option<usize>)
    requires
        s <= e <= v@.len(),
    ensures
        r is Some == production_name(v@.subrange(s as int, e as int)) is Some,
        r matches Some(k) ==> s <= k <= e && v@.subrange(s as int, k as int) == production_name(
            v@.subrange(s as int, e as int),
        )->0,
{
    let ghost t = v@.subrange(s as int, e as int);
    let ce = find_white(v, s, e);
    assert(t.subrange(0, first_white(t)) =~= v@.subrange(s as int, ce as int));
    let k1 = strip_end_at(v, s, ce, ':');
    let k2 = strip_end_at(v, s, k1, '=');
    let ghost name = v@.subrange(s as int, k2 as int);
    assert(strip_end(strip_end(t.subrange(0, first_white(t)), ':'), '=') == name);
    if k2 == s {
        return None;
    }
    let mut k = s;
    while k < k2
        invariant
            s <= k <= k2 <= e <= v@.len(),
            name == v@.subrange(s as int, k2 as int),
            t == v@.subrange(s as int, e as int),
            strip_end(strip_end(t.subrange(0, first_white(t)), ':'), '=') == name,
            forall|m: int| 0 <= m < k - s ==> is_name_char(#[trigger] name[m]),
        decreases k2 - k,
    {
        if !name_char(v[k]) {
            assert(!is_name_char(name[k - s]));
            return None;
        }
        k = k + 1;
    }
    let c0 = v[s];
    if !(('a' <= c0 && c0 <= 'z') || ('A' <= c0 && c0 <= 'Z')) {
        return None;
    }
    if !contains_at(v, s, e, '=') {
        return None;
    }
    Some(k2)
}

/// The range of `v` that holds the right-hand side on the first line of a production,
/// whose trimmed text is `v[s..e]` and whose name is `v[s..ne]`.
fn rhs_range(v: &Vec<char>, s: usize, e: usize, ne: usize) -> (r: (usize, usize))
    requires
        s <= ne <= e <= v@.len(),
    ensures
        r.0 <= r.1 <= v@.len(),
        v@.subrange(r.0 as int, r.1 as int) == rhs_of(
            v@.subrange(s as int, e as int),
            v@.subrange(s as int, ne as int),
        ),
{
    let ghost t = v@.subrange(s as int, e as int);
    let ghost name = v@.subrange(s as int, ne as int);
    let eq_sp = to_chars("= ");
    proof {
        reveal_strlit("= ");
        assert(t.subrange(name.len() as int, t.len() as int) =~= v@.subrange(ne as int, e as int));
    }
    let a1 = skip_white(v, ne, e);
    if a1 < e && v[a1] == ':' {
        let a2 = skip_white(v, a1 + 1, e);
        proof {
            assert(v@.subrange(a1 as int, e as int).drop_first() =~= v@.subrange(a1 + 1, e as int));
        }
        if has_prefix_in(v, a2, e, &eq_sp) {
            proof {
                assert(v@.subrange(a2 as int, e as int).subrange(2, e - a2) =~= v@.subrange(a2 + 2, e as int));
            }
            (a2 + 2, e)
        } else {
            proof {
                assert(v@.subrange(e as int, e as int) =~= Seq::<char>::empty());
            }
            (e, e)
        }
    } else if has_prefix_in(v, a1, e, &eq_sp) {
        proof {
            assert(v@.subrange(a1 as int, e as int).subrange(2, e - a1) =~= v@.subrange(a1 + 2, e as int));
        }
        (a1 + 2, e)
    } else {
        proof {
            assert(v@.subrange(e as int, e as int) =~= Seq::<char>::empty());
        }
        (e, e)
    }
}

/// The range of `v` that holds the clause id of marker `v[s..e]`, which starts with
/// `// Clause `.
fn marker_range(v: &Vec<char>, s: usize, e: usize) -> (r: (usize, usize))
    requires
        s + "// Clause "@.len() <= e <= v@.len(),
    ensures
        r.0 <= r.1 <= v@.len(),
        v@.subrange(r.0 as int, r.1 as int) == marker_id(
            v@.subrange(s as int, e as int).subrange("// Clause "@.len() as int, e - s),
        ),
{
    let mark = to_chars("// Clause ");
    let ghost rest = v@.subrange(s as int, e as int).subrange("// Clause "@.len() as int, e - s);
    let from = s + mark.len();
    assert(rest =~= v@.subrange(from as int, e as int));
    let a = skip_white(v, from, e);
    let b = back_white(v, a, e);
    let fw = find_white(v, a, b);
    let ghost x = v@.subrange(a as int, b as int);
    assert(x.subrange(0, first_white(x)) =~= v@.subrange(a as int, fw as int));
    let k = strip_end_at(v, a, fw, '.');
    (a, k)
}

/// The productions of grammar text `src`, in order, each under the clause of the most
/// recent `// Clause` marker. Lines that are blank, comments (`//`) or directives
/// (`!`) are skipped; a production's body runs on to the next blank line, comment or
/// production. Parsing cannot fail.
pub fn parse_bnf(src: &str) -> (r: Result<Vec<Production>, SpecError>)
    ensures
        r is Ok,
        r matches Ok(ps) ==> productions_fields(ps@) == productions_from(
            text_lines(src.spec_bytes()),
            0,
            Seq::empty(),
        ),
{
    let lines = split_lines(src);
    let ghost ls = text_lines(src.spec_bytes());
    let mut clause = String::new();
    let mut out: Vec<Production> = Vec::new();
    let clause_mark = to_chars("// Clause ");
    let slashes = to_chars("//");
    let bang = to_chars("!");
    let nl = "\n";
    proof {
        reveal_strlit("\n");
        assert(productions_fields(out@) + productions_from(ls, 0, clause@) =~= productions_from(
            ls,
            0,
            Seq::empty(),
        ));
    }
    let n = lines.len();
    let mut i: usize = 0;
    while i < n
        invariant
            n == lines@.len(),
            lines@.len() == ls.len(),
            forall|k: int| 0 <= k < lines@.len() ==> (#[trigger] lines@[k])@ == ls[k],
            i <= n,
            clause_mark@ == "// Clause "@,
            slashes@ == "//"@,
            bang@ == "!"@,
            nl@ == seq!['\n'],
            productions_fields(out@) + productions_from(ls, i as int, clause@) == productions_from(
                ls,
                0,
                Seq::empty(),
            ),
        decreases n - i,
    {
        let line = lines[i];
        let v = to_chars(line);
        let (s, e) = trim_range(&v);
        let ghost t = v@.subrange(s as int, e as int);
        let ghost old_out = out@;
        proof {
            assert(t == trim(ls[i as int]));
        }
        if s == e {
            i = i + 1;
        } else if has_prefix_in(&v, s, e, &clause_mark) {
            let (a, k) = marker_range(&v, s, e);
            clause = String::from_str(line.substring_char(a, k));
            i = i + 1;
        } else if has_prefix_in(&v, s, e, &slashes) || has_prefix_in(&v, s, e, &bang) {
            i = i + 1;
        } else {
            match name_end(&v, s, e) {
                None => {
                    i = i + 1;
                },
                Some(ne) => {
                    let name = String::from_str(line.substring_char(s, ne));
                    let (r0, r1) = rhs_range(&v, s, e, ne);
                    let ghost rhs = rhs_of(t, name@);
                    let mut body = String::from_str(line.substring_char(r0, r1));
                    proof {
                        lemma_body_end(ls, i + 1);
                    }
                    let ghost end = body_end(ls, i + 1);
                    let mut j = i + 1;
                    loop
                        invariant
                            n == lines@.len(),
                            lines@.len() == ls.len(),
                            forall|k: int| 0 <= k < lines@.len() ==> (#[trigger] lines@[k])@ == ls[k],
                            slashes@ == "//"@,
                            nl@ == seq!['\n'],
                            i + 1 <= j <= end <= n,
                            end == body_end(ls, i + 1),
                            body_end(ls, j as int) == end,
                            body_lines(ls, j as int, end, body@) == body_lines(ls, i + 1, end, rhs),
                        ensures
                            j == end,
                            body@ == body_lines(ls, i + 1, end, rhs),
                        decreases n - j,
                    {
                        if j >= n {
                            break;
                        }
                        let next = lines[j];
                        let nv = to_chars(next);
                        let (ns, nse) = trim_range(&nv);
                        if ns == nse || has_prefix_in(&nv, ns, nse, &slashes) || name_end(
                            &nv,
                            ns,
                            nse,
                        ).is_some() {
                            break;
                        }
                        let ghost before = body@;
                        proof {
                            assert(trim(ls[j as int]) == nv@.subrange(ns as int, nse as int));
                            assert(!ends_body(trim(ls[j as int])));
                            lemma_body_end(ls, j + 1);
                            assert(body_end(ls, j as int) == body_end(ls, j + 1));
                        }
                        if !body.as_str().is_empty() {
                            body.append(nl);
                        }
                        body.append(next.substring_char(ns, nse));
                        proof {
                            assert(body@ =~= crate::spec_mcp::bnf::push_line(before, trim(ls[j as int])));
                        }
                        j = j + 1;
                    }
                    let bv = to_chars(body.as_str());
                    let (bs, be) = trim_range(&bv);
                    let text = String::from_str(body.as_str().substring_char(bs, be));
                    let p = Production { clause_id: clause.clone(), name, body: text, line: i + 1 };
                    out.push(p);
                    proof {
                        assert(productions_fields(out@) =~= productions_fields(old_out).push(p.fields()));
                    }
                    i = j;
                },
            }
        }
    }
    proof {
        assert(productions_from(ls, i as int, clause@) =~= Seq::<(Seq<char>, Seq<char>, Seq<char>, int)>::empty());
        assert(productions_fields(out@) =~= productions_from(ls, 0, Seq::empty()));
    }
    Ok(out)
}

} // verus!
