//! The queries that the specification server answers.
use vstd::prelude::*;
use vstd::string::StringSliceAdditionalSpecFns;
use vstd::string::StrSliceExecFns;
use vstd::string::StringExecFns;
use std::path::PathBuf;
use crate::spec_mcp::chars::{to_chars, trim, trim_range, starts_with};
use crate::spec_mcp::clause_tree::ClauseNode;
use crate::spec_mcp::implementation::{derive_signals, CodeSignal, ImplReport, ImplStatus, SignalSpec, derive_signals_spec, signals_spec};
use crate::spec_mcp::index::{build_index, clauses_fields, clauses_of, figures_fields, figures_of, SpecIndex, last_with_id, first_with_anchor, productions_of, FigureRef};
use crate::spec_mcp::bnf::{Production, productions_fields, productions_from};
use crate::spec_mcp::chars::text_lines;
use crate::spec_mcp::SpecError;

verus! {

/// A path of the file system, carried through unchanged.
#[verifier::external_type_specification]
#[verifier::external_body]
pub struct ExPathBuf(std::path::PathBuf);

/// The id, title and anchor of a clause.
#[derive(Clone, Debug)]
pub struct ClauseSummary {
    pub id: String,
    pub title: String,
    pub anchor: String,
}

#[derive(Clone, Debug)]
pub struct SectionQuery {
    pub clause_id: String,
}

#[derive(Clone, Debug)]
pub struct ClauseListResult {
    pub clauses: Vec<ClauseSummary>,
}

/// A clause with its body text and the names of its grammar productions.
#[derive(Clone, Debug)]
pub struct SectionResult {
    pub id: String,
    pub title: String,
    pub anchor: String,
    pub line: usize,
    pub body_md: String,
    pub productions: Vec<String>,
}

#[derive(Clone, Debug)]
pub struct GetSectionResult {
    pub section: Option<SectionResult>,
}

#[derive(Clone, Debug)]
pub struct SearchQuery {
    pub query: String,
}

#[derive(Clone, Debug)]
pub struct ImplQuery {
    pub clause_id: String,
}

#[derive(Clone, Debug)]
pub struct ImplResult {
    pub status: String,
    pub entry_points: Vec<String>,
}

/// Where a Markdown link leads: `section` with the clause it names, or
/// `anchor_not_found` with an error message.
#[derive(Clone, Debug)]
pub struct LinkResult {
    pub kind: String,
    pub clause_id: Option<String>,
    pub title: Option<String>,
    pub error: Option<String>,
}

#[derive(Clone, Debug)]
pub struct LinkQuery {
    pub link: String,
}

/// The full Unicode lower case of `s`, as `str::to_lowercase` gives it.
pub uninterp spec fn lowercase(s: Seq<char>) -> Seq<char>;

/// Calls `str::to_lowercase`. Trusted: the result is `lowercase(s)`, and the lower case
/// of the empty string is empty.
#[verifier::external_body]
fn to_lower(s: &str) -> (r: String)
    ensures
        r@ == lowercase(s@),
        s@.len() == 0 ==> r@.len() == 0,
{
    s.to_lowercase()
}

/// A filter that keeps every element keeps the sequence as it is.
proof fn lemma_filter_keeps_all(s: Seq<ClauseNode>, f: spec_fn(ClauseNode) -> bool)
    requires
        forall|i: int| 0 <= i < s.len() ==> f(#[trigger] s[i]),
    ensures
        s.filter(f) == s,
    decreases s.len(),
{
    reveal(Seq::filter);
    if s.len() > 0 {
        let d = s.drop_last();
        assert forall|i: int| 0 <= i < d.len() implies f(#[trigger] d[i]) by {
            assert(d[i] == s[i]);
        }
        lemma_filter_keeps_all(d, f);
        assert(f(s[s.len() - 1]));
        assert(d.push(s.last()) =~= s);
    }
}

/// Whether `p` occurs in `s`.
pub open spec fn occurs_in(s: Seq<char>, p: Seq<char>) -> bool {
    exists|i: int| 0 <= i && i + p.len() <= s.len() && #[trigger] s.subrange(i, i + p.len()) == p
}

fn contains_text(s: &str, p: &str) -> (r: bool)
    ensures
        r == occurs_in(s@, p@),
{
    let v = to_chars(s);
    let w = to_chars(p);
    if w.len() > v.len() {
        proof {
            assert forall|i: int| 0 <= i && i + w@.len() <= v@.len() implies #[trigger] v@.subrange(i, i + w@.len()) != w@ by {}
        }
        return false;
    }
    if w.len() == 0 {
        assert(v@.subrange(0, 0 + w@.len() as int) =~= w@);
        assert(occurs_in(s@, p@));
        return true;
    }
    let mut i: usize = 0;
    let n = v.len();
    let last = n - w.len();
    while i <= last
        invariant
            v@ == s@,
            w@ == p@,
            n == v@.len(),
            w@.len() >= 1,
            last == v@.len() - w@.len(),
            i <= last + 1,
            forall|j: int| 0 <= j < i ==> #[trigger] v@.subrange(j, j + w@.len()) != w@,
        decreases last + 1 - i,
    {
        let mut k: usize = 0;
        let mut same = true;
        while k < w.len()
            invariant
                i <= last,
                n == v@.len(),
                last == v@.len() - w@.len(),
                k <= w@.len(),
                same == (forall|m: int| 0 <= m < k ==> v@[i + m] == w@[m]),
            decreases w@.len() - k,
        {
            if v[i + k] != w[k] {
                same = false;
            }
            k = k + 1;
        }
        if same {
            assert(v@.subrange(i as int, i + w@.len()) =~= w@);
            return true;
        }
        assert(v@.subrange(i as int, i + w@.len()) != w@) by {
            let m = choose|m: int| 0 <= m < w@.len() && v@[i + m] != w@[m];
            assert(v@.subrange(i as int, i + w@.len())[m] != w@[m]);
        }
        i = i + 1;
    }
    false
}

/// The name that `{:?}` gives an implementation status.
pub open spec fn status_name_spec(s: ImplStatus) -> Seq<char> {
    match s {
        ImplStatus::Implemented => "Implemented"@,
        ImplStatus::Partial => "Partial"@,
        ImplStatus::NotStarted => "NotStarted"@,
        ImplStatus::OutOfScope => "OutOfScope"@,
    }
}

fn status_name(s: ImplStatus) -> (r: &'static str)
    ensures
        r@ == status_name_spec(s),
{
    match s {
        ImplStatus::Implemented => "Implemented",
        ImplStatus::Partial => "Partial",
        ImplStatus::NotStarted => "NotStarted",
        ImplStatus::OutOfScope => "OutOfScope",
    }
}

/// The answer to an implementation query: the status by name, and the entry points.
pub fn impl_result(report: ImplReport) -> (r: ImplResult)
    ensures
        r.status@ == status_name_spec(report.status),
        r.entry_points@ == report.entry_points@,
{
    ImplResult { status: String::from_str(status_name(report.status)), entry_points: report.entry_points }
}

/// The anchor that link `link` points at: what follows its first `#`, or all of it.
pub open spec fn link_anchor(link: Seq<char>) -> Seq<char> {
    if link.contains('#') {
        let i = choose|i: int| 0 <= i < link.len() && link[i] == '#' && forall|j: int| 0 <= j < i ==> link[j] != '#';
        link.subrange(i + 1, link.len() as int)
    } else {
        link
    }
}

/// Answers queries about a specification and its grammar.
pub struct SpecServer {
    index: SpecIndex,
    crates_dir: PathBuf,
}

impl SpecServer {
    pub closed spec fn index_spec(&self) -> SpecIndex {
        self.index
    }

    /// The directory this server was built with.
    pub closed spec fn crates_dir_spec(&self) -> PathBuf {
        self.crates_dir
    }

    /// Indexes Markdown text `md` and grammar text `bnf_src`; `crates_dir` is where the
    /// compiler's sources lie. Building cannot fail.
    pub fn new(md: String, bnf_src: String, crates_dir: PathBuf) -> (r: Result<Self, SpecError>)
        ensures
            r is Ok,
            r matches Ok(s) ==> {
                &&& s.index_spec().text() == vstd::utf8::encode_utf8(md@)
                &&& clauses_fields(s.index_spec().clauses_spec()) == clauses_of(vstd::utf8::encode_utf8(md@))
                &&& productions_fields(s.index_spec().productions_spec()) == productions_from(
                    text_lines(vstd::utf8::encode_utf8(bnf_src@)),
                    0,
                    Seq::empty(),
                )
                &&& figures_fields(s.index_spec().figures_spec()) == figures_of(md@, s.index_spec().clauses_spec())
            },
            r matches Ok(s) ==> s.crates_dir_spec() == crates_dir,
    {
        let index = match build_index(md.as_str(), bnf_src.as_str()) {
            Ok(i) => i,
            Err(e) => {
                return Err(e);
            },
        };
        Ok(SpecServer { index, crates_dir })
    }

    /// The directory of the compiler's sources.
    pub fn crates_dir(&self) -> (r: &PathBuf)
        ensures
            *r == self.crates_dir_spec(),
    {
        &self.crates_dir
    }

    /// The id, title and anchor of every clause, in order.
    pub fn list_sections_impl(&self) -> (r: Vec<ClauseSummary>)
        ensures
            r@.len() == self.index_spec().clauses_spec().len(),
            forall|k: int|
                0 <= k < r@.len() ==> {
                    let c = self.index_spec().clauses_spec()[k];
                    &&& (#[trigger] r@[k]).id@ == c.id@
                    &&& r@[k].title@ == c.title@
                    &&& r@[k].anchor@ == c.anchor@
                },
    {
        let clauses = self.index.list_clauses();
        let mut out: Vec<ClauseSummary> = Vec::new();
        let mut i: usize = 0;
        while i < clauses.len()
            invariant
                clauses@ == self.index_spec().clauses_spec(),
                i <= clauses@.len(),
                out@.len() == i,
                forall|k: int|
                    0 <= k < i ==> {
                        let c = clauses@[k];
                        &&& (#[trigger] out@[k]).id@ == c.id@
                        &&& out@[k].title@ == c.title@
                        &&& out@[k].anchor@ == c.anchor@
                    },
            decreases clauses@.len() - i,
        {
            let c = &clauses[i];
            out.push(
                ClauseSummary { id: c.id.clone(), title: c.title.clone(), anchor: c.anchor.clone() },
            );
            i = i + 1;
        }
        out
    }

    /// The clause with id `clause_id`, with its trimmed body text and the names of its
    /// productions; `None` when there is no such clause.
    pub fn get_section_impl(&self, clause_id: &str) -> (r: Option<SectionResult>)
        ensures
            r is Some <==> last_with_id(self.index_spec().clauses_spec(), clause_id@) is Some,
            r matches Some(s) ==> {
                let cs = self.index_spec().clauses_spec();
                let c = cs[last_with_id(cs, clause_id@)->0];
                let ps = productions_of(self.index_spec().productions_spec(), clause_id@);
                &&& s.id@ == c.id@
                &&& s.title@ == c.title@
                &&& s.anchor@ == c.anchor@
                &&& s.line == c.line
                &&& s.body_md@ == trim(
                    vstd::utf8::decode_utf8(
                        self.index_spec().text().subrange(c.body_start as int, c.body_end as int),
                    ),
                )
                &&& s.productions@.len() == ps.len()
                &&& forall|k: int| 0 <= k < ps.len() ==> (#[trigger] s.productions@[k])@ == ps[k].name@
            },
    {
        let clause = match self.index.clause(clause_id) {
            Some(c) => c,
            None => {
                return None;
            },
        };
        let prods = self.index.productions_for_clause(clause_id);
        let body = match self.index.body_for_clause(clause_id) {
            Some(b) => b,
            None => "",
        };
        proof {
            vstd::utf8::encode_utf8_decode_utf8(body@);
        }
        let bv = to_chars(body);
        let (s, e) = trim_range(&bv);
        let body_md = String::from_str(body.substring_char(s, e));
        let mut names: Vec<String> = Vec::new();
        let mut i: usize = 0;
        while i < prods.len()
            invariant
                i <= prods@.len(),
                names@.len() == i,
                forall|k: int| 0 <= k < i ==> (#[trigger] names@[k])@ == prods@[k].name@,
            decreases prods@.len() - i,
        {
            names.push(prods[i].name.clone());
            i = i + 1;
        }
        Some(
            SectionResult {
                id: clause.id.clone(),
                title: clause.title.clone(),
                anchor: clause.anchor.clone(),
                line: clause.line,
                body_md,
                productions: names,
            },
        )
    }

    /// The code signals of clause `clause_id`, from the names of its productions.
    pub fn clause_signals(&self, clause_id: &str) -> (r: Vec<CodeSignal>)
        ensures
            signals_spec(r@) == derive_signals_spec(
                clause_id@,
                productions_of(self.index_spec().productions_spec(), clause_id@).map_values(
                    |p: Production| p.name@,
                ),
            ),
    {
        let prods = self.index.productions_for_clause(clause_id);
        let ghost ps = productions_of(self.index_spec().productions_spec(), clause_id@);
        let mut names: Vec<&str> = Vec::new();
        let mut i: usize = 0;
        while i < prods.len()
            invariant
                i <= prods@.len(),
                prods@.len() == ps.len(),
                forall|k: int| 0 <= k < prods@.len() ==> *(#[trigger] prods@[k]) == ps[k],
                names@.len() == i,
                forall|k: int| 0 <= k < i ==> (#[trigger] names@[k])@ == ps[k].name@,
            decreases prods@.len() - i,
        {
            names.push(prods[i].name.as_str());
            i = i + 1;
        }
        proof {
            assert(names@.map_values(|p: &str| p@) =~= ps.map_values(|p: Production| p.name@));
        }
        derive_signals(clause_id, names.as_slice())
    }

    /// The clauses whose id contains the lower-cased query, or whose lower-cased title
    /// does.
    pub fn search_sections_impl(&self, query: &str) -> (r: Vec<ClauseSummary>)
        ensures
            ({
                let cs = self.index_spec().clauses_spec();
                let q = lowercase(query@);
                let hit = |c: ClauseNode| occurs_in(c.id@, q) || occurs_in(lowercase(c.title@), q);
                let sel = cs.filter(hit);
                &&& r@.len() == sel.len()
                &&& forall|k: int|
                    0 <= k < r@.len() ==> {
                        &&& (#[trigger] r@[k]).id@ == sel[k].id@
                        &&& r@[k].title@ == sel[k].title@
                        &&& r@[k].anchor@ == sel[k].anchor@
                    }
            }),
            query@.len() == 0 ==> r@.len() == self.index_spec().clauses_spec().len(),
    {
        let q = to_lower(query);
        let clauses = self.index.list_clauses();
        let ghost hit = |c: ClauseNode| occurs_in(c.id@, q@) || occurs_in(lowercase(c.title@), q@);
        let mut out: Vec<ClauseSummary> = Vec::new();
        let mut i: usize = 0;
        while i < clauses.len()
            invariant
                i <= clauses@.len(),
                hit == (|c: ClauseNode| occurs_in(c.id@, q@) || occurs_in(lowercase(c.title@), q@)),
                out@.len() == clauses@.subrange(0, i as int).filter(hit).len(),
                forall|k: int|
                    0 <= k < out@.len() ==> {
                        let sel = clauses@.subrange(0, i as int).filter(hit);
                        &&& (#[trigger] out@[k]).id@ == sel[k].id@
                        &&& out@[k].title@ == sel[k].title@
                        &&& out@[k].anchor@ == sel[k].anchor@
                    },
            decreases clauses@.len() - i,
        {
            let c = &clauses[i];
            let ghost pre = clauses@.subrange(0, i + 1);
            proof {
                assert(pre.drop_last() =~= clauses@.subrange(0, i as int));
                reveal(Seq::filter);
            }
            let title_lower = to_lower(c.title.as_str());
            if contains_text(c.id.as_str(), q.as_str()) || contains_text(title_lower.as_str(), q.as_str()) {
                out.push(
                    ClauseSummary { id: c.id.clone(), title: c.title.clone(), anchor: c.anchor.clone() },
                );
            }
            i = i + 1;
        }
        proof {
            assert(clauses@.subrange(0, i as int) =~= clauses@);
            if query@.len() == 0 {
                assert forall|j: int| 0 <= j < clauses@.len() implies hit(#[trigger] clauses@[j]) by {
                    assert(clauses@[j].id@.subrange(0, 0) =~= q@);
                }
                lemma_filter_keeps_all(clauses@, hit);
            }
        }
        out
    }

    /// Where link `link` leads: the clause whose anchor follows the link's `#`.
    pub fn follow_link_impl(&self, link: &str) -> (r: LinkResult)
        ensures
            ({
                let cs = self.index_spec().clauses_spec();
                match first_with_anchor(cs, link_anchor(link@)) {
                    Some(i) => {
                        &&& r.kind@ == "section"@
                        &&& r.clause_id matches Some(id) && id@ == cs[i].id@
                        &&& r.title matches Some(t) && t@ == cs[i].title@
                        &&& r.error is None
                    },
                    None => {
                        &&& r.kind@ == "anchor_not_found"@
                        &&& r.clause_id is None
                        &&& r.title is None
                        &&& r.error matches Some(e) && e@ == "no clause has anchor "@ + link_anchor(link@)
                    },
                }
            }),
    {
        let v = to_chars(link);
        let mut i: usize = 0;
        while i < v.len() && v[i] != '#'
            invariant
                i <= v@.len(),
                forall|j: int| 0 <= j < i ==> v@[j] != '#',
            decreases v@.len() - i,
        {
            i = i + 1;
        }
        let anchor = if i < v.len() {
            link.substring_char(i + 1, v.len())
        } else {
            link.substring_char(0, v.len())
        };
        proof {
            if i < v@.len() {
                assert(link@.contains('#'));
                let k = choose|k: int| 0 <= k < link@.len() && link@[k] == '#' && forall|j: int| 0 <= j < k ==> link@[j] != '#';
                if k < i {
                    assert(v@[k] != '#');
                }
                if k > i {
                    assert(link@[i as int] != '#');
                }
                assert(k == i);
            } else {
                assert(link@.subrange(0, v@.len() as int) =~= link@);
                assert(!link@.contains('#'));
            }
        }
        match self.index.resolve_anchor(anchor) {
            Some(c) => LinkResult {
                kind: String::from_str("section"),
                clause_id: Some(c.id.clone()),
                title: Some(c.title.clone()),
                error: None,
            },
            None => {
                let mut msg = String::from_str("no clause has anchor ");
                msg.append(anchor);
                LinkResult {
                    kind: String::from_str("anchor_not_found"),
                    clause_id: None,
                    title: None,
                    error: Some(msg),
                }
            },
        }
    }
    /// The first figure numbered `number`.
    pub fn get_figure_impl(&self, number: u32) -> (r: Option<FigureRef>)
        ensures
            r is Some <==> exists|i: int| 0 <= i < self.index_spec().figures_spec().len() && (#[trigger] self.index_spec().figures_spec()[i]).number == number,
            r matches Some(f) ==> exists|i: int| {
                &&& 0 <= i < self.index_spec().figures_spec().len()
                &&& (#[trigger] self.index_spec().figures_spec()[i]).number == number
                &&& f.fields() == self.index_spec().figures_spec()[i].fields()
                &&& forall|j: int| 0 <= j < i ==> self.index_spec().figures_spec()[j].number != number
            },
    {
        let figures = self.index.figures();
        let mut i: usize = 0;
        while i < figures.len()
            invariant
                figures@ == self.index_spec().figures_spec(),
                i <= figures@.len(),
                forall|j: int| 0 <= j < i ==> figures@[j].number != number,
            decreases figures@.len() - i,
        {
            if figures[i].number == number {
                let f = &figures[i];
                let r = FigureRef {
                    number: f.number,
                    title: f.title.clone(),
                    image_path: f.image_path.clone(),
                    clause_id: f.clause_id.clone(),
                };
                assert(figures@[i as int].number == number);
                return Some(r);
            }
            i = i + 1;
        }
        None
    }
}

} // verus!
