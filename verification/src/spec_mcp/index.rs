//! The joined index of the specification: its clauses, their bodies, the grammar
//! productions of each clause, and the figures.
use vstd::prelude::*;
use vstd::string::StringSliceAdditionalSpecFns;
use vstd::string::StringExecFns;
use vstd::utf8::*;
use crate::spec_mcp::bnf::{parse_bnf, Production, productions_fields, productions_from};
use crate::spec_mcp::chars::{line_ranges_from, text_lines};
use crate::spec_mcp::clause_tree::{
    extract_clause_tree, ClauseNode, headings_from, clause_at, body_start_of, body_end_of,
    lemma_body_range, CharClass, run_end, lemma_run_end, scan, lemma_run_end_class,
};
use crate::spec_mcp::chars::{starts_with, trim, to_chars, has_prefix_in, contains_at, skip_white, back_white};
use vstd::string::StrSliceExecFns;
use crate::spec_mcp::SpecError;
use crate::text::str_slice;

verus! {

/// The clauses that the Markdown text with UTF-8 encoding `b` holds, as their fields.
pub open spec fn clauses_of(b: Seq<u8>) -> Seq<(Seq<char>, Seq<char>, Seq<char>, int, int, int, int)> {
    let heads = headings_from(b, line_ranges_from(b, 0), 0);
    Seq::new(heads.len(), |m: int| clause_at(b, heads, m))
}

pub open spec fn clauses_fields(cs: Seq<ClauseNode>) -> Seq<(Seq<char>, Seq<char>, Seq<char>, int, int, int, int)> {
    cs.map_values(|c: ClauseNode| c.fields())
}

/// The position of the last clause with id `id`: the one a lookup by id finds.
pub open spec fn last_with_id(cs: Seq<ClauseNode>, id: Seq<char>) -> Option<int>
    decreases cs.len(),
{
    if cs.len() == 0 {
        None
    } else if cs.last().id@ == id {
        Some(cs.len() - 1)
    } else {
        last_with_id(cs.drop_last(), id)
    }
}

/// The position of the first clause with anchor `anchor`.
pub open spec fn first_with_anchor(cs: Seq<ClauseNode>, anchor: Seq<char>) -> Option<int>
    decreases cs.len(),
{
    if cs.len() == 0 {
        None
    } else if cs[0].anchor@ == anchor {
        Some(0)
    } else {
        match first_with_anchor(cs.drop_first(), anchor) {
            Some(i) => Some(i + 1),
            None => None,
        }
    }
}

/// The productions of `ps` that belong to clause `cid`, in order.
pub open spec fn productions_of(ps: Seq<Production>, cid: Seq<char>) -> Seq<Production>
    decreases ps.len(),
{
    if ps.len() == 0 {
        Seq::empty()
    } else {
        let r = productions_of(ps.drop_last(), cid);
        if ps.last().clause_id@ == cid {
            r.push(ps.last())
        } else {
            r
        }
    }
}

/// The productions of a clause are exactly those of the grammar whose clause is that
/// clause, every one of them, in grammar order.
pub proof fn lemma_productions_of_is_filter(ps: Seq<Production>, cid: Seq<char>)
    ensures
        productions_of(ps, cid) == ps.filter(|p: Production| p.clause_id@ == cid),
    decreases ps.len(),
{
    reveal(Seq::filter);
    if ps.len() > 0 {
        lemma_productions_of_is_filter(ps.drop_last(), cid);
    }
}

/// Every production of the grammar that belongs to clause `cid` is among the
/// productions of `cid`, and every production listed for `cid` belongs to it.
pub proof fn lemma_productions_of_complete(ps: Seq<Production>, cid: Seq<char>)
    ensures
        forall|i: int| 0 <= i < ps.len() && (#[trigger] ps[i]).clause_id@ == cid ==> productions_of(ps, cid).contains(ps[i]),
        forall|k: int| 0 <= k < productions_of(ps, cid).len() ==> (#[trigger] productions_of(ps, cid)[k]).clause_id@ == cid,
    decreases ps.len(),
{
    let pred = |p: Production| p.clause_id@ == cid;
    lemma_productions_of_is_filter(ps, cid);
    assert forall|i: int| 0 <= i < ps.len() && (#[trigger] ps[i]).clause_id@ == cid implies productions_of(ps, cid).contains(ps[i]) by {
        ps.filter_lemma(pred);
        assert(pred(ps[i]));
    }
    assert forall|k: int| 0 <= k < productions_of(ps, cid).len() implies (#[trigger] productions_of(ps, cid)[k]).clause_id@ == cid by {
        ps.filter_lemma(pred);
        assert(pred(ps.filter(pred)[k]));
    }
}

/// The figures of `fs` that lie in clause `cid`, in order.
pub open spec fn figures_of_clause(fs: Seq<FigureRef>, cid: Seq<char>) -> Seq<FigureRef>
    decreases fs.len(),
{
    if fs.len() == 0 {
        Seq::empty()
    } else {
        let r = figures_of_clause(fs.drop_last(), cid);
        if fs.last().clause_id@ == cid {
            r.push(fs.last())
        } else {
            r
        }
    }
}

/// The index of a specification text and its grammar.
pub struct SpecIndex {
    src: String,
    clauses: Vec<ClauseNode>,
    productions: Vec<Production>,
    figures: Vec<FigureRef>,
}

impl SpecIndex {
    /// The UTF-8 encoding of the indexed Markdown text.
    pub closed spec fn text(&self) -> Seq<u8> {
        encode_utf8(self.src@)
    }

    pub closed spec fn clauses_spec(&self) -> Seq<ClauseNode> {
        self.clauses@
    }

    pub closed spec fn productions_spec(&self) -> Seq<Production> {
        self.productions@
    }

    pub closed spec fn figures_spec(&self) -> Seq<FigureRef> {
        self.figures@
    }

    /// All figures, in the order of the text.
    pub fn figures(&self) -> (r: &[FigureRef])
        ensures
            r@ == self.figures_spec(),
    {
        self.figures.as_slice()
    }

    /// The figures that lie in clause `clause_id`, in the order of the text.
    pub fn figures_for_clause(&self, clause_id: &str) -> (r: Vec<&FigureRef>)
        ensures
            r@.len() == figures_of_clause(self.figures_spec(), clause_id@).len(),
            forall|k: int| 0 <= k < r@.len() ==> *(#[trigger] r@[k]) == figures_of_clause(self.figures_spec(), clause_id@)[k],
    {
        let key = String::from_str(clause_id);
        let mut out: Vec<&FigureRef> = Vec::new();
        let mut i: usize = 0;
        while i < self.figures.len()
            invariant
                i <= self.figures@.len(),
                key@ == clause_id@,
                out@.len() == figures_of_clause(self.figures@.subrange(0, i as int), clause_id@).len(),
                forall|k: int| 0 <= k < out@.len() ==> *(#[trigger] out@[k]) == figures_of_clause(self.figures@.subrange(0, i as int), clause_id@)[k],
            decreases self.figures@.len() - i,
        {
            assert(self.figures@.subrange(0, i + 1).drop_last() =~= self.figures@.subrange(0, i as int));
            let f = &self.figures[i];
            if f.clause_id == key {
                out.push(f);
            }
            i = i + 1;
        }
        assert(self.figures@.subrange(0, i as int) =~= self.figures@);
        out
    }

    /// Every clause is the one its heading in the text gives.
    #[verifier::type_invariant]
    closed spec fn inv(self) -> bool {
        clauses_fields(self.clauses@) == clauses_of(encode_utf8(self.src@))
    }

    /// All clauses, in the order of their headings.
    pub fn list_clauses(&self) -> (r: &[ClauseNode])
        ensures
            r@ == self.clauses_spec(),
            clauses_fields(r@) == clauses_of(self.text()),
    {
        proof {
            use_type_invariant(self);
        }
        self.clauses.as_slice()
    }

    /// The clause with id `id`; the last one if the id occurs twice.
    pub fn clause(&self, id: &str) -> (r: Option<&ClauseNode>)
        ensures
            r is Some <==> last_with_id(self.clauses_spec(), id@) is Some,
            r matches Some(c) ==> *c == self.clauses_spec()[last_with_id(self.clauses_spec(), id@)->0],
    {
        let key = String::from_str(id);
        let mut i = self.clauses.len();
        assert(self.clauses@.subrange(0, i as int) =~= self.clauses@);
        while i > 0
            invariant
                i <= self.clauses@.len(),
                key@ == id@,
                last_with_id(self.clauses@, id@) == last_with_id(self.clauses@.subrange(0, i as int), id@),
            decreases i,
        {
            let ghost pre = self.clauses@.subrange(0, i as int);
            assert(pre.drop_last() =~= self.clauses@.subrange(0, i - 1));
            if self.clauses[i - 1].id == key {
                return Some(&self.clauses[i - 1]);
            }
            i = i - 1;
        }
        None
    }

    /// All productions, in grammar order.
    pub fn productions(&self) -> (r: &[Production])
        ensures
            r@ == self.productions_spec(),
    {
        self.productions.as_slice()
    }

    /// The productions of clause `clause_id`, in grammar order.
    pub fn productions_for_clause(&self, clause_id: &str) -> (r: Vec<&Production>)
        ensures
            r@.len() == productions_of(self.productions_spec(), clause_id@).len(),
            forall|k: int| 0 <= k < r@.len() ==> *(#[trigger] r@[k]) == productions_of(self.productions_spec(), clause_id@)[k],
    {
        let key = String::from_str(clause_id);
        let mut out: Vec<&Production> = Vec::new();
        let mut i: usize = 0;
        while i < self.productions.len()
            invariant
                i <= self.productions@.len(),
                key@ == clause_id@,
                out@.len() == productions_of(self.productions@.subrange(0, i as int), clause_id@).len(),
                forall|k: int| 0 <= k < out@.len() ==> *(#[trigger] out@[k]) == productions_of(self.productions@.subrange(0, i as int), clause_id@)[k],
            decreases self.productions@.len() - i,
        {
            let ghost pre = self.productions@.subrange(0, i + 1);
            assert(pre.drop_last() =~= self.productions@.subrange(0, i as int));
            let p = &self.productions[i];
            if p.clause_id == key {
                out.push(p);
            }
            i = i + 1;
        }
        assert(self.productions@.subrange(0, i as int) =~= self.productions@);
        out
    }

    /// The body text of clause `clause_id`: the Markdown between its heading and the
    /// next heading of the same or a higher level.
    pub fn body_for_clause(&self, clause_id: &str) -> (r: Option<&str>)
        ensures
            r is Some <==> last_with_id(self.clauses_spec(), clause_id@) is Some,
            r matches Some(t) ==> {
                let c = self.clauses_spec()[last_with_id(self.clauses_spec(), clause_id@)->0];
                t.spec_bytes() == self.text().subrange(c.body_start as int, c.body_end as int)
            },
    {
        proof {
            use_type_invariant(self);
        }
        let c = match self.clause(clause_id) {
            Some(c) => c,
            None => {
                return None;
            },
        };
        let ghost b = encode_utf8(self.src@);
        let ghost m = last_with_id(self.clauses@, clause_id@)->0;
        proof {
            lemma_last_with_id(self.clauses@, clause_id@);
            encode_utf8_valid_utf8(self.src@);
            let heads = headings_from(b, line_ranges_from(b, 0), 0);
            assert(clauses_fields(self.clauses@).len() == self.clauses@.len());
            assert(clauses_of(b).len() == heads.len());
            assert(clauses_fields(self.clauses@)[m] == clauses_of(b)[m]);
            assert(c.fields() == clause_at(b, heads, m));
            lemma_body_range(b, m);
        }
        let s = self.src.as_str();
        Some(str_slice(s, c.body_start, c.body_end))
    }

    /// The first clause whose anchor is `anchor`.
    pub fn resolve_anchor(&self, anchor: &str) -> (r: Option<&ClauseNode>)
        ensures
            r is Some <==> first_with_anchor(self.clauses_spec(), anchor@) is Some,
            r matches Some(c) ==> *c == self.clauses_spec()[first_with_anchor(self.clauses_spec(), anchor@)->0],
    {
        let key = String::from_str(anchor);
        let mut i: usize = 0;
        assert(self.clauses@.subrange(0, self.clauses@.len() as int) =~= self.clauses@);
        while i < self.clauses.len()
            invariant
                i <= self.clauses@.len(),
                key@ == anchor@,
                first_with_anchor(self.clauses@, anchor@) == match first_with_anchor(self.clauses@.subrange(i as int, self.clauses@.len() as int), anchor@) {
                    Some(j) => Some(j + i),
                    None => None,
                },
            decreases self.clauses@.len() - i,
        {
            let ghost rest = self.clauses@.subrange(i as int, self.clauses@.len() as int);
            assert(rest.drop_first() =~= self.clauses@.subrange(i + 1, self.clauses@.len() as int));
            if self.clauses[i].anchor == key {
                return Some(&self.clauses[i]);
            }
            i = i + 1;
        }
        None
    }
}

pub proof fn lemma_last_with_id(cs: Seq<ClauseNode>, id: Seq<char>)
    ensures
        last_with_id(cs, id) matches Some(i) ==> 0 <= i < cs.len() && cs[i].id@ == id,
    decreases cs.len(),
{
    if cs.len() > 0 && cs.last().id@ != id {
        lemma_last_with_id(cs.drop_last(), id);
    }
}

/// Builds the index of Markdown text `md` and grammar text `bnf_src`. Building cannot
/// fail.
pub fn build_index(md: &str, bnf_src: &str) -> (r: Result<SpecIndex, SpecError>)
    ensures
        r is Ok,
        r matches Ok(idx) ==> {
            &&& idx.text() == md.spec_bytes()
            &&& clauses_fields(idx.clauses_spec()) == clauses_of(md.spec_bytes())
            &&& productions_fields(idx.productions_spec()) == productions_from(
                text_lines(bnf_src.spec_bytes()),
                0,
                Seq::empty(),
            )
            &&& figures_fields(idx.figures_spec()) == figures_of(md@, idx.clauses_spec())
        },
{
    let clauses = match extract_clause_tree(md) {
        Ok(c) => c,
        Err(e) => {
            return Err(e);
        },
    };
    let productions = match parse_bnf(bnf_src) {
        Ok(p) => p,
        Err(e) => {
            return Err(e);
        },
    };
    let src = String::from_str(md);
    let figures = extract_figures(md, &clauses);
    proof {
        let b = md.spec_bytes();
        assert(clauses_fields(clauses@) =~= clauses_of(b));
    }
    Ok(SpecIndex { src, clauses, productions, figures })
}

/// A figure of the specification: its number, caption title, image file, and the
/// clause it appears in.
#[derive(Clone, Debug)]
pub struct FigureRef {
    pub number: u32,
    pub title: String,
    pub image_path: String,
    pub clause_id: String,
}

/// Where the parts of a figure caption lie in a text, as character ranges.
pub struct FigureMatch {
    pub path: (int, int),
    pub digits: (int, int),
    pub title: (int, int),
    pub end: int,
}

/// The first `**` at or after `k`, on the line that `k` lies on.
pub open spec fn closing_stars(c: Seq<char>, k: int) -> Option<int>
    decreases c.len() - k,
{
    if k < 0 || k + 1 >= c.len() {
        None
    } else if c[k] == '*' && c[k + 1] == '*' {
        Some(k)
    } else if c[k] == '\n' {
        None
    } else {
        closing_stars(c, k + 1)
    }
}

/// The figure caption that starts at `x` in `c`, if one does: `![](_page_NAME.jpeg)`,
/// white space holding a line break, then `**Figure N. TITLE**`. NAME is at least one
/// character and holds no `)`; N is a run of ASCII digits; TITLE lies on one line and is
/// the shortest text before a `**`, after the white space that follows `N.`.
pub open spec fn figure_at(c: Seq<char>, x: int) -> Option<FigureMatch> {
    let n = c.len() as int;
    let q = x + "![]("@.len();
    let r0 = x + "![](_page_"@.len();
    let r1 = run_end(c, r0, CharClass::NotParen);
    let w0 = r1 + 1;
    let w1 = run_end(c, w0, CharClass::White);
    let d0 = w1 + "**Figure "@.len();
    let d1 = run_end(c, d0, CharClass::Digit);
    let s0 = d1 + 1;
    let s1 = run_end(c, s0, CharClass::White);
    let head_ok = {
        &&& 0 <= x
        &&& starts_with(c.subrange(x, n), "![](_page_"@)
        &&& r1 < n
        &&& r1 - r0 >= ".jpeg"@.len() + 1
        &&& c.subrange(r1 - ".jpeg"@.len(), r1) == ".jpeg"@
        &&& c.subrange(w0, w1).contains('\n')
        &&& starts_with(c.subrange(w1, n), "**Figure "@)
        &&& d1 > d0
        &&& d1 < n
        &&& c[d1] == '.'
    };
    if !head_ok {
        None
    } else {
        match closing_stars(c, s1 + 1) {
            Some(e) => Some(FigureMatch { path: (q, r1), digits: (d0, d1), title: (s1, e), end: e + 2 }),
            None => if s1 > s0 && c[s1 - 1] != '\n' && s1 + 1 < n && c[s1] == '*' && c[s1 + 1] == '*' {
                Some(FigureMatch { path: (q, r1), digits: (d0, d1), title: (s1 - 1, s1), end: s1 + 2 })
            } else {
                None
            },
        }
    }
}

pub proof fn lemma_figure_end(c: Seq<char>, x: int)
    requires
        figure_at(c, x) is Some,
    ensures
        x < figure_at(c, x)->0.end <= c.len(),
        0 <= figure_at(c, x)->0.path.0 <= figure_at(c, x)->0.path.1 <= c.len(),
        0 <= figure_at(c, x)->0.digits.0 < figure_at(c, x)->0.digits.1 <= c.len(),
        0 <= figure_at(c, x)->0.title.0 <= figure_at(c, x)->0.title.1 <= c.len(),
{
    let n = c.len() as int;
    reveal_strlit("![](_page_");
    reveal_strlit("![](");
    reveal_strlit("**Figure ");
    reveal_strlit(".jpeg");
    let r0 = x + 10;
    lemma_run_end(c, r0, CharClass::NotParen);
    let r1 = run_end(c, r0, CharClass::NotParen);
    lemma_run_end(c, r1 + 1, CharClass::White);
    let w1 = run_end(c, r1 + 1, CharClass::White);
    lemma_run_end(c, w1 + 9, CharClass::Digit);
    let d1 = run_end(c, w1 + 9, CharClass::Digit);
    lemma_run_end(c, d1 + 1, CharClass::White);
    let s1 = run_end(c, d1 + 1, CharClass::White);
    lemma_closing_stars(c, s1 + 1);
}

pub proof fn lemma_closing_stars(c: Seq<char>, k: int)
    ensures
        closing_stars(c, k) matches Some(e) ==> k <= e && e + 1 < c.len(),
    decreases c.len() - k,
{
    if 0 <= k && k + 1 < c.len() && !(c[k] == '*' && c[k + 1] == '*') && c[k] != '\n' {
        lemma_closing_stars(c, k + 1);
    }
}

/// The figure captions of `c` from position `x` on, each with the position it starts
/// at: the leftmost caption, then the leftmost after its end, and so on.
pub open spec fn figures_from(c: Seq<char>, x: int) -> Seq<(FigureMatch, int)>
    decreases c.len() - x,
{
    if x < 0 || x >= c.len() {
        Seq::empty()
    } else {
        match figure_at(c, x) {
            Some(m) => {
                proof {
                    lemma_figure_end(c, x);
                }
                seq![(m, x)] + figures_from(c, m.end)
            },
            None => figures_from(c, x + 1),
        }
    }
}

/// The value of a run of ASCII digits.
pub open spec fn digits_value(w: Seq<char>) -> nat
    decreases w.len(),
{
    if w.len() == 0 {
        0
    } else {
        digits_value(w.drop_last()) * 10 + ((w.last() as u32) - 48) as nat
    }
}

/// The clause whose body holds byte `byte`; of several, the one with the longest id;
/// of equally long ids, the first. Empty when none does.
pub open spec fn clause_for_byte(cs: Seq<ClauseNode>, byte: int) -> Seq<char>
    decreases cs.len(),
{
    if cs.len() == 0 {
        Seq::empty()
    } else {
        let best = clause_for_byte(cs.drop_last(), byte);
        let c = cs.last();
        if c.body_start <= byte < c.body_end && (best.len() == 0 || encode_utf8(c.id@).len()
            > encode_utf8(best).len()) {
            c.id@
        } else {
            best
        }
    }
}

/// The fields of the figure that caption `f` of text `c` describes, among clauses `cs`.
pub open spec fn figure_fields(c: Seq<char>, cs: Seq<ClauseNode>, f: (FigureMatch, int)) -> (
    int,
    Seq<char>,
    Seq<char>,
    Seq<char>,
) {
    let m = f.0;
    let v = digits_value(c.subrange(m.digits.0, m.digits.1));
    (
        if v <= u32::MAX {
            v as int
        } else {
            0
        },
        trim(c.subrange(m.title.0, m.title.1)),
        c.subrange(m.path.0, m.path.1),
        clause_for_byte(cs, encode_utf8(c.subrange(0, f.1)).len() as int),
    )
}

impl FigureRef {
    pub open spec fn fields(&self) -> (int, Seq<char>, Seq<char>, Seq<char>) {
        (self.number as int, self.title@, self.image_path@, self.clause_id@)
    }
}

pub proof fn lemma_encode_utf8_add(a: Seq<char>, b: Seq<char>)
    ensures
        encode_utf8(a + b) == encode_utf8(a) + encode_utf8(b),
    decreases a.len(),
{
    if a.len() > 0 {
        assert((a + b).drop_first() =~= a.drop_first() + b);
        lemma_encode_utf8_add(a.drop_first(), b);
    } else {
        assert(a + b =~= b);
    }
}

/// The number of UTF-8 bytes of `ch`.
fn utf8_width(ch: char) -> (w: usize)
    ensures
        w == encode_scalar(ch as u32).len(),
{
    let u = ch as u32;
    if u < 0x80 {
        1
    } else if u < 0x800 {
        2
    } else if u < 0x10000 {
        3
    } else {
        4
    }
}

/// The clause whose body holds byte `byte`.
fn find_clause_for_byte(clauses: &Vec<ClauseNode>, byte: usize) -> (r: String)
    ensures
        r@ == clause_for_byte(clauses@, byte as int),
{
    let mut best = String::new();
    let mut i: usize = 0;
    while i < clauses.len()
        invariant
            i <= clauses@.len(),
            best@ == clause_for_byte(clauses@.subrange(0, i as int), byte as int),
        decreases clauses@.len() - i,
    {
        let c = &clauses[i];
        proof {
            assert(clauses@.subrange(0, i + 1).drop_last() =~= clauses@.subrange(0, i as int));
            assert(clauses@.subrange(0, i + 1).last() == clauses@[i as int]);
        }
        let empty = best.as_str().is_empty();
        let id_len = c.id.as_str().as_bytes().len();
        let best_len = best.as_str().as_bytes().len();
        if c.body_start <= byte && byte < c.body_end && (empty || id_len > best_len) {
            best = c.id.clone();
        }
        i = i + 1;
    }
    assert(clauses@.subrange(0, i as int) =~= clauses@);
    best
}

/// The first `**` at or after `k` on its line, as `closing_stars` finds it.
fn find_closing(v: &Vec<char>, k0: usize) -> (r: Option<usize>)
    requires
        k0 <= v@.len(),
    ensures
        r matches Some(e) ==> closing_stars(v@, k0 as int) == Some(e as int),
        r is None ==> closing_stars(v@, k0 as int) is None,
{
    let n = v.len();
    let mut k = k0;
    while n > 1 && k < n - 1
        invariant
            k0 <= k <= n,
            n == v@.len(),
            closing_stars(v@, k as int) == closing_stars(v@, k0 as int),
        decreases n - k,
    {
        if v[k] == '*' && v[k + 1] == '*' {
            return Some(k);
        }
        if v[k] == '\n' {
            return None;
        }
        k = k + 1;
    }
    None
}

/// The parts of the figure caption that starts at `x` in `v`, as `figure_at` places
/// them.
fn match_figure(v: &Vec<char>, x: usize) -> (r: Option<(usize, usize, usize, usize, usize, usize, usize)>)
    requires
        x <= v@.len(),
    ensures
        r is Some == figure_at(v@, x as int) is Some,
        r matches Some(t) ==> {
            let m = figure_at(v@, x as int)->0;
            &&& m.path == (t.0 as int, t.1 as int)
            &&& m.digits == (t.2 as int, t.3 as int)
            &&& m.title == (t.4 as int, t.5 as int)
            &&& m.end == t.6 as int
        },
{
    let ghost c = v@;
    let n = v.len();
    let open = to_chars("![](_page_");
    let jpeg = to_chars(".jpeg");
    let fig = to_chars("**Figure ");
    proof {
        reveal_strlit("![](_page_");
        reveal_strlit("![](");
        reveal_strlit(".jpeg");
        reveal_strlit("**Figure ");
    }
    if !has_prefix_in(v, x, n, &open) {
        return None;
    }
    let q = x + 4;
    let r0 = x + 10;
    let r1 = scan(v, r0, CharClass::NotParen);
    if r1 >= n || r1 - r0 < 6 {
        return None;
    }
    proof {
        assert(c.subrange(r1 - 5, r1 as int).subrange(0, 5) =~= c.subrange(r1 - 5, r1 as int));
    }
    if !has_prefix_in(v, r1 - 5, r1, &jpeg) {
        return None;
    }
    let w0 = r1 + 1;
    let w1 = scan(v, w0, CharClass::White);
    if !contains_at(v, w0, w1, '\n') {
        return None;
    }
    if !has_prefix_in(v, w1, n, &fig) {
        return None;
    }
    let d0 = w1 + 9;
    let d1 = scan(v, d0, CharClass::Digit);
    if d1 <= d0 || d1 >= n || v[d1] != '.' {
        return None;
    }
    let s0 = d1 + 1;
    let s1 = scan(v, s0, CharClass::White);
    let close = if s1 < n {
        find_closing(v, s1 + 1)
    } else {
        None
    };
    match close {
        Some(e) => {
            proof {
                lemma_closing_stars(c, s1 + 1);
            }
            Some((q, r1, d0, d1, s1, e, e + 2))
        },
        None => {
            if s1 > s0 && v[s1 - 1] != '\n' && n - s1 > 1 && v[s1] == '*' && v[s1 + 1] == '*' {
                Some((q, r1, d0, d1, s1 - 1, s1, s1 + 2))
            } else {
                None
            }
        },
    }
}

/// A run of digits whose prefix already exceeds `u32::MAX` exceeds it as a whole.
pub proof fn lemma_digits_overflow(w: Seq<char>, n: int)
    requires
        0 < n <= w.len(),
        forall|j: int| 0 <= j < w.len() ==> '0' <= #[trigger] w[j] && w[j] <= '9',
        digits_value(w.subrange(0, n)) > u32::MAX,
    ensures
        digits_value(w) > u32::MAX,
    decreases w.len(),
{
    if n == w.len() {
        assert(w.subrange(0, n) =~= w);
    } else {
        assert(w.drop_last().subrange(0, n) =~= w.subrange(0, n));
        lemma_digits_overflow(w.drop_last(), n);
        assert(digits_value(w) >= digits_value(w.drop_last()) * 10) by (nonlinear_arith)
            requires
                digits_value(w) == digits_value(w.drop_last()) * 10 + ((w.last() as u32) - 48) as nat,
        ;
    }
}

/// The number that `v[d0..d1]` spells, or 0 when it does not fit in a `u32`.
fn digits_number(v: &Vec<char>, d0: usize, d1: usize) -> (r: u32)
    requires
        d0 <= d1 <= v@.len(),
        forall|j: int| d0 <= j < d1 ==> '0' <= #[trigger] v@[j] && v@[j] <= '9',
    ensures
        r == if digits_value(v@.subrange(d0 as int, d1 as int)) <= u32::MAX {
            digits_value(v@.subrange(d0 as int, d1 as int))
        } else {
            0
        },
{
    let ghost w = v@.subrange(d0 as int, d1 as int);
    let mut value: u32 = 0;
    let mut k = d0;
    while k < d1
        invariant
            d0 <= k <= d1 <= v@.len(),
            w == v@.subrange(d0 as int, d1 as int),
            forall|j: int| d0 <= j < d1 ==> '0' <= #[trigger] v@[j] && v@[j] <= '9',
            value == digits_value(v@.subrange(d0 as int, k as int)),
        decreases d1 - k,
    {
        let d = (v[k] as u32) - 48;
        assert(v@.subrange(d0 as int, k + 1).drop_last() =~= v@.subrange(d0 as int, k as int));
        match value.checked_mul(10) {
            Some(m) => match m.checked_add(d) {
                Some(s) => {
                    value = s;
                },
                None => {
                    proof {
                        assert(w.subrange(0, k + 1 - d0) =~= v@.subrange(d0 as int, k + 1));
                        lemma_digits_overflow(w, k + 1 - d0);
                    }
                    return 0;
                },
            },
            None => {
                proof {
                    assert(w.subrange(0, k + 1 - d0) =~= v@.subrange(d0 as int, k + 1));
                    lemma_digits_overflow(w, k + 1 - d0);
                }
                return 0;
            },
        }
        k = k + 1;
    }
    value
}

pub open spec fn figures_fields(fs: Seq<FigureRef>) -> Seq<(int, Seq<char>, Seq<char>, Seq<char>)> {
    fs.map_values(|f: FigureRef| f.fields())
}

/// The figures of Markdown text `c`, in order, with the clauses `cs` they lie in.
pub open spec fn figures_of(c: Seq<char>, cs: Seq<ClauseNode>) -> Seq<(int, Seq<char>, Seq<char>, Seq<char>)> {
    figures_from(c, 0).map_values(|f: (FigureMatch, int)| figure_fields(c, cs, f))
}

pub proof fn lemma_encode_one(ch: char)
    ensures
        encode_utf8(seq![ch]) == encode_scalar(ch as u32),
{
    let s = seq![ch];
    assert(s.drop_first() =~= Seq::<char>::empty());
    assert(s[0] == ch);
    assert(encode_utf8(s.drop_first()) =~= Seq::<u8>::empty());
    assert(encode_utf8(s) == encode_scalar(s[0] as u32) + encode_utf8(s.drop_first()));
    assert(encode_scalar(ch as u32) + Seq::<u8>::empty() =~= encode_scalar(ch as u32));
}

/// `byte`, the encoded length of `v[..x]`, carried forward to `v[..end]`.
fn advance_bytes(v: &Vec<char>, x: usize, end: usize, byte: usize, Ghost(total): Ghost<nat>) -> (r: usize)
    requires
        x <= end <= v@.len(),
        byte == encode_utf8(v@.subrange(0, x as int)).len(),
        total == encode_utf8(v@).len(),
        total <= usize::MAX,
    ensures
        r == encode_utf8(v@.subrange(0, end as int)).len(),
{
    let ghost c = v@;
    let ghost n = c.len() as int;
    let mut k = x;
    let mut b = byte;
    while k < end
        invariant
            x <= k <= end <= c.len(),
            c == v@,
            n == c.len(),
            total == encode_utf8(c).len(),
            total <= usize::MAX,
            b == encode_utf8(c.subrange(0, k as int)).len(),
        decreases end - k,
    {
        proof {
            lemma_encode_utf8_add(c.subrange(0, k as int), seq![c[k as int]]);
            assert(c.subrange(0, k + 1) =~= c.subrange(0, k as int) + seq![c[k as int]]);
            lemma_encode_one(c[k as int]);
            lemma_encode_utf8_add(c.subrange(0, k + 1), c.subrange(k + 1, n));
            assert(c.subrange(0, k + 1) + c.subrange(k + 1, n) =~= c);
        }
        b = b + utf8_width(v[k]);
        k = k + 1;
    }
    b
}

/// The figure whose caption `match_figure` found at `x`, at byte `byte`.
fn build_figure(
    md: &str,
    v: &Vec<char>,
    clauses: &Vec<ClauseNode>,
    x: usize,
    t: (usize, usize, usize, usize, usize, usize, usize),
    byte: usize,
) -> (f: FigureRef)
    requires
        v@ == md@,
        x < v@.len(),
        figure_at(v@, x as int) is Some,
        ({
            let m = figure_at(v@, x as int)->0;
            &&& m.path == (t.0 as int, t.1 as int)
            &&& m.digits == (t.2 as int, t.3 as int)
            &&& m.title == (t.4 as int, t.5 as int)
            &&& m.end == t.6 as int
        }),
        byte == encode_utf8(v@.subrange(0, x as int)).len(),
    ensures
        f.fields() == figure_fields(v@, clauses@, (figure_at(v@, x as int)->0, x as int)),
{
    let ghost c = v@;
    proof {
        lemma_figure_end(c, x as int);
        let m = figure_at(c, x as int)->0;
        lemma_run_end(c, m.digits.0, CharClass::Digit);
        assert forall|j: int| t.2 <= j < t.3 implies '0' <= #[trigger] c[j] && c[j] <= '9' by {
            lemma_run_end_class(c, m.digits.0, CharClass::Digit, j);
        }
    }
    let number = digits_number(v, t.2, t.3);
    let a = skip_white(v, t.4, t.5);
    let b = back_white(v, a, t.5);
    let title = String::from_str(md.substring_char(a, b));
    let image_path = String::from_str(md.substring_char(t.0, t.1));
    let clause_id = find_clause_for_byte(clauses, byte);
    FigureRef { number, title, image_path, clause_id }
}

/// The figures of `md`: every caption `![](_page_N.jpeg)` followed, after a line break,
/// by `**Figure N. TITLE**`, with the clause whose body it lies in.
pub fn extract_figures(md: &str, clauses: &Vec<ClauseNode>) -> (r: Vec<FigureRef>)
    ensures
        figures_fields(r@) == figures_of(md@, clauses@),
{
    let v = to_chars(md);
    let ghost c = md@;
    let n = v.len();
    let total = md.as_bytes().len();
    let mut out: Vec<FigureRef> = Vec::new();
    let mut x: usize = 0;
    let mut byte: usize = 0;
    proof {
        assert(c.subrange(0, 0) =~= Seq::<char>::empty());
        assert(figures_fields(out@) + figures_from(c, 0).map_values(
            |f: (FigureMatch, int)| figure_fields(c, clauses@, f),
        ) =~= figures_of(c, clauses@));
    }
    while x < n
        invariant
            v@ == c,
            c == md@,
            n == c.len(),
            total == encode_utf8(c).len(),
            x <= n,
            byte == encode_utf8(c.subrange(0, x as int)).len(),
            figures_fields(out@) + figures_from(c, x as int).map_values(
                |f: (FigureMatch, int)| figure_fields(c, clauses@, f),
            ) == figures_of(c, clauses@),
        decreases n - x,
    {
        let ghost old_out = out@;
        match match_figure(&v, x) {
            Some(t) => {
                let f = build_figure(md, &v, clauses, x, t, byte);
                out.push(f);
                proof {
                    lemma_figure_end(c, x as int);
                    let m = figure_at(c, x as int)->0;
                    assert(figures_from(c, x as int) == seq![(m, x as int)] + figures_from(c, m.end));
                    assert(figures_fields(out@) =~= figures_fields(old_out).push(f.fields()));
                    assert(figures_from(c, x as int).map_values(
                        |f: (FigureMatch, int)| figure_fields(c, clauses@, f),
                    ) =~= seq![f.fields()] + figures_from(c, m.end).map_values(
                        |f: (FigureMatch, int)| figure_fields(c, clauses@, f),
                    ));
                }
                byte = advance_bytes(&v, x, t.6, byte, Ghost(total as nat));
                x = t.6;
            },
            None => {
                proof {
                    assert(figures_from(c, x as int) == figures_from(c, x + 1));
                }
                byte = advance_bytes(&v, x, x + 1, byte, Ghost(total as nat));
                x = x + 1;
            },
        }
    }
    proof {
        assert(figures_from(c, x as int) =~= Seq::<(FigureMatch, int)>::empty());
        assert(figures_fields(out@) =~= figures_of(c, clauses@));
    }
    out
}

} // verus!
