//! The numbered clause headings of the specification's Markdown text.
use vstd::prelude::*;
use vstd::string::StringSliceAdditionalSpecFns;
use vstd::string::StrSliceExecFns;
use vstd::string::StringExecFns;
use vstd::utf8::*;
use crate::spec_mcp::chars::{
    to_chars, is_white, white, trim_end, starts_with, has_prefix_at, back_white, next_newline,
    lemma_next_newline, line_ranges_from, line_bounds, as_ranges, line_ranges, line_text,
    lemma_line_ranges_order, lemma_line_ranges_bounds,
};
use crate::text::lemma_ascii_is_boundary;
use crate::spec_mcp::SpecError;

verus! {

/// A numbered clause heading, such as `## <span id="page-26-0"></span>**1 Scope**`.
#[derive(Clone, Debug, PartialEq, Eq)]
pub struct ClauseNode {
    /// The clause number, without trailing dots: `8.2.4`.
    pub id: String,
    pub title: String,
    /// The id of the `<span>` anchor in front of the number, or empty.
    pub anchor: String,
    /// The number of `#` marks.
    pub level: u8,
    /// The 1-based line of the heading.
    pub line: usize,
    /// The byte range of the clause's body: from the line after the heading up to the
    /// next heading of the same or a higher level, or the end of the text.
    pub body_start: usize,
    pub body_end: usize,
}

/// The character classes that a heading is made of.
#[derive(Clone, Copy)]
pub enum CharClass {
    Hash,
    White,
    NotQuote,
    IdChar,
    NotParen,
    Digit,
}

pub open spec fn in_class(k: CharClass, c: char) -> bool {
    match k {
        CharClass::Hash => c == '#',
        CharClass::White => is_white(c),
        CharClass::NotQuote => c != '"',
        CharClass::IdChar => ('0' <= c && c <= '9') || c == '.',
        CharClass::NotParen => c != ')',
        CharClass::Digit => '0' <= c && c <= '9',
    }
}

/// The end of the run of characters of class `k` in `l` that starts at `i`.
pub open spec fn run_end(l: Seq<char>, i: int, k: CharClass) -> int
    decreases l.len() - i,
{
    if 0 <= i < l.len() && in_class(k, l[i]) {
        run_end(l, i + 1, k)
    } else {
        i
    }
}

pub proof fn lemma_run_end(l: Seq<char>, i: int, k: CharClass)
    requires
        0 <= i <= l.len(),
    ensures
        i <= run_end(l, i, k) <= l.len(),
    decreases l.len() - i,
{
    if i < l.len() && in_class(k, l[i]) {
        lemma_run_end(l, i + 1, k);
    }
}

pub proof fn lemma_run_end_class(l: Seq<char>, i: int, k: CharClass, j: int)
    requires
        0 <= i <= j < run_end(l, i, k),
    ensures
        in_class(k, l[j]),
    decreases l.len() - i,
{
    if i < j {
        lemma_run_end_class(l, i + 1, k, j);
    }
}

/// `l[s..e]` without its trailing dots ends at the result.
pub open spec fn trim_dots_end(l: Seq<char>, s: int, e: int) -> int
    decreases e - s,
{
    if e > s && l[e - 1] == '.' {
        trim_dots_end(l, s, e - 1)
    } else {
        e
    }
}

/// Where the parts of a heading line lie, as character ranges of the line.
pub struct HeadingParts {
    pub level: int,
    pub anchor: (int, int),
    pub id: (int, int),
    pub title: (int, int),
}

/// The heading that line `l` holds, if any: one to four `#`, white space, an optional
/// `<span id="ANCHOR"></span>`, then `**NUMBER TITLE**` and nothing but white space.
/// NUMBER is a run of ASCII digits and dots followed by white space; TITLE is what lies
/// between that white space and the final `**`.
pub open spec fn heading_parts(l: Seq<char>) -> Option<HeadingParts> {
    let n = l.len() as int;
    let h = run_end(l, 0, CharClass::Hash);
    let a = run_end(l, h, CharClass::White);
    let has_span = starts_with(l.subrange(a, n), "<span id=\""@);
    let x0 = a + "<span id=\""@.len();
    let x1 = run_end(l, x0, CharClass::NotQuote);
    let span_ok = x1 > x0 && starts_with(l.subrange(x1, n), "\"></span>"@);
    let b = if has_span {
        x1 + "\"></span>"@.len()
    } else {
        a
    };
    let c = b + 2;
    let d = run_end(l, c, CharClass::IdChar);
    let e = run_end(l, d, CharClass::White);
    let te = e + trim_end(l.subrange(e, n)).len();
    if 1 <= h <= 4 && (!has_span || span_ok) && starts_with(l.subrange(b, n), "**"@) && d > c && e
        > d && te - e >= 2 && l[te - 2] == '*' && l[te - 1] == '*' && (te - e >= 3 || e - d >= 2) {
        Some(
            HeadingParts {
                level: h,
                anchor: if has_span {
                    (x0, x1)
                } else {
                    (a, a)
                },
                id: (c, trim_dots_end(l, c, d)),
                title: if te - e >= 3 {
                    (e, te - 2)
                } else {
                    (e - 1, e)
                },
            },
        )
    } else {
        None
    }
}

/// The heading of the line of `b` in `r`, if it is one.
pub open spec fn line_heading(b: Seq<u8>, r: (int, int)) -> Option<HeadingParts> {
    heading_parts(decode_utf8(b.subrange(r.0, r.1)))
}

/// The indices, from `k` on, of the lines in `rs` that are headings.
pub open spec fn headings_from(b: Seq<u8>, rs: Seq<(int, int)>, k: int) -> Seq<int>
    decreases rs.len() - k,
{
    if k < 0 || k >= rs.len() {
        Seq::empty()
    } else {
        (if line_heading(b, rs[k]) is Some {
            seq![k]
        } else {
            Seq::<int>::empty()
        }) + headings_from(b, rs, k + 1)
    }
}

/// The first position from `j` on in `levels` whose level is at most that of `m`.
pub open spec fn next_peer(levels: Seq<int>, m: int, j: int) -> int
    decreases levels.len() - j,
{
    if j < 0 || j >= levels.len() {
        levels.len() as int
    } else if levels[j] <= levels[m] {
        j
    } else {
        next_peer(levels, m, j + 1)
    }
}

/// The text of the line of `b` that heading `m` of `heads` stands on.
pub open spec fn heading_line(b: Seq<u8>, heads: Seq<int>, m: int) -> Seq<char> {
    let r = line_ranges_from(b, 0)[heads[m]];
    decode_utf8(b.subrange(r.0, r.1))
}

/// The levels of the headings `heads` of `b`.
pub open spec fn heading_levels(b: Seq<u8>, heads: Seq<int>) -> Seq<int> {
    heads.map_values(|j: int| line_heading(b, line_ranges_from(b, 0)[j])->0.level)
}

/// Where the body of heading `m` ends: at the start of the next heading of the same or
/// a higher level, or at the end of the text.
pub open spec fn body_end_of(b: Seq<u8>, heads: Seq<int>, m: int) -> int {
    let np = next_peer(heading_levels(b, heads), m, m + 1);
    if np < heads.len() {
        line_ranges_from(b, 0)[heads[np]].0
    } else {
        b.len() as int
    }
}

/// Where the body of heading `m` starts: after the end of its line.
pub open spec fn body_start_of(b: Seq<u8>, heads: Seq<int>, m: int) -> int {
    let s = line_ranges_from(b, 0)[heads[m]].0;
    if next_newline(b, s) < b.len() {
        next_newline(b, s) + 1
    } else {
        b.len() as int
    }
}

/// The clause that heading `m` of `heads` starts, as the fields of a [`ClauseNode`]:
/// its id, title and anchor texts, level, line, and body range.
pub open spec fn clause_at(b: Seq<u8>, heads: Seq<int>, m: int) -> (
    Seq<char>,
    Seq<char>,
    Seq<char>,
    int,
    int,
    int,
    int,
) {
    let l = heading_line(b, heads, m);
    let p = heading_parts(l)->0;
    (
        l.subrange(p.id.0, p.id.1),
        l.subrange(p.title.0, p.title.1),
        l.subrange(p.anchor.0, p.anchor.1),
        p.level,
        heads[m] + 1,
        body_start_of(b, heads, m),
        body_end_of(b, heads, m),
    )
}

impl ClauseNode {
    pub open spec fn fields(&self) -> (Seq<char>, Seq<char>, Seq<char>, int, int, int, int) {
        (
            self.id@,
            self.title@,
            self.anchor@,
            self.level as int,
            self.line as int,
            self.body_start as int,
            self.body_end as int,
        )
    }
}

fn class_has(k: CharClass, c: char) -> (r: bool)
    ensures
        r == in_class(k, c),
{
    match k {
        CharClass::Hash => c == '#',
        CharClass::White => white(c),
        CharClass::NotQuote => c != '"',
        CharClass::IdChar => ('0' <= c && c <= '9') || c == '.',
        CharClass::NotParen => c != ')',
        CharClass::Digit => '0' <= c && c <= '9',
    }
}

/// The end of the run of characters of class `k` in `v` that starts at `i`.
pub fn scan(v: &Vec<char>, i: usize, k: CharClass) -> (r: usize)
    requires
        i <= v@.len(),
    ensures
        r == run_end(v@, i as int, k),
        i <= r <= v@.len(),
{
    let mut j = i;
    while j < v.len() && class_has(k, v[j])
        invariant
            i <= j <= v@.len(),
            run_end(v@, j as int, k) == run_end(v@, i as int, k),
        decreases v@.len() - j,
    {
        j = j + 1;
    }
    j
}

/// The parts of heading line `v`, as `heading_parts` places them.
fn match_heading(v: &Vec<char>) -> (r: Option<(usize, usize, usize, usize, usize, usize, usize)>)
    ensures
        r is Some == heading_parts(v@) is Some,
        r matches Some(t) ==> {
            let p = heading_parts(v@)->0;
            &&& p.level == t.0 as int
            &&& p.anchor == (t.1 as int, t.2 as int)
            &&& p.id == (t.3 as int, t.4 as int)
            &&& p.title == (t.5 as int, t.6 as int)
            &&& 0 <= p.anchor.0 <= p.anchor.1 <= v@.len()
            &&& 0 <= p.id.0 <= p.id.1 <= v@.len()
            &&& 0 <= p.title.0 <= p.title.1 <= v@.len()
            &&& 1 <= p.level <= 4
        },
{
    let ghost l = v@;
    let len = v.len();
    let h = scan(v, 0, CharClass::Hash);
    let a = scan(v, h, CharClass::White);
    let span_open = to_chars("<span id=\"");
    let span_close = to_chars("\"></span>");
    let stars = to_chars("**");
    let has_span = has_prefix_at(v, a, &span_open);
    let mut b = a;
    let mut x0 = a;
    let mut x1 = a;
    if has_span {
        x0 = a + span_open.len();
        x1 = scan(v, x0, CharClass::NotQuote);
        if !(x1 > x0 && has_prefix_at(v, x1, &span_close)) {
            return None;
        }
        b = x1 + span_close.len();
    }
    if !(1 <= h && h <= 4) || !has_prefix_at(v, b, &stars) {
        return None;
    }
    proof {
        reveal_strlit("**");
    }
    let c = b + stars.len();
    let d = scan(v, c, CharClass::IdChar);
    if d <= c {
        return None;
    }
    let e = scan(v, d, CharClass::White);
    if e <= d {
        return None;
    }
    let te = back_white(v, e, v.len());
    if !(te - e >= 2 && v[te - 2] == '*' && v[te - 1] == '*' && (te - e >= 3 || e - d >= 2)) {
        return None;
    }
    let mut ie = d;
    while ie > c && v[ie - 1] == '.'
        invariant
            c <= ie <= d <= v@.len(),
            trim_dots_end(l, c as int, ie as int) == trim_dots_end(l, c as int, d as int),
            l == v@,
        decreases ie - c,
    {
        ie = ie - 1;
    }
    let (ts, tend) = if te - e >= 3 {
        (e, te - 2)
    } else {
        (e - 1, e)
    };
    let (an0, an1) = if has_span {
        (x0, x1)
    } else {
        (a, a)
    };
    Some((h, an0, an1, c, ie, ts, tend))
}

pub open spec fn as_ints(v: Seq<usize>) -> Seq<int> {
    v.map_values(|x: usize| x as int)
}

/// The numbered clause headings of `src`, in order, each with the byte range of its body.
/// Extraction cannot fail.
pub fn extract_clause_tree(src: &str) -> (r: Result<Vec<ClauseNode>, SpecError>)
    ensures
        r is Ok,
        r matches Ok(nodes) ==> {
            let b = src.spec_bytes();
            let heads = headings_from(b, line_ranges_from(b, 0), 0);
            &&& nodes@.len() == heads.len()
            &&& forall|m: int| 0 <= m < nodes@.len() ==> (#[trigger] nodes@[m]).fields() == clause_at(b, heads, m)
        },
{
    let ghost b = src.spec_bytes();
    let bytes = src.as_bytes();
    let rs = line_ranges(src);
    let ghost rsv = line_ranges_from(b, 0);
    let mut hk: Vec<usize> = Vec::new();
    let mut hl: Vec<usize> = Vec::new();
    let mut k: usize = 0;
    proof {
        assert(as_ints(hk@) + headings_from(b, rsv, 0) =~= headings_from(b, rsv, 0));
    }
    while k < rs.len()
        invariant
            b == src.spec_bytes(),
            as_ranges(rs@) == rsv,
            k <= rs@.len(),
            as_ints(hk@) + headings_from(b, rsv, k as int) == headings_from(b, rsv, 0),
            hl@.len() == hk@.len(),
            forall|m: int| 0 <= m < hk@.len() ==> (#[trigger] hk@[m]) < k,
            forall|m: int|
                0 <= m < hk@.len() ==> line_heading(b, rsv[hk@[m] as int]) is Some && hl@[m] as int
                    == line_heading(b, rsv[#[trigger] hk@[m] as int])->0.level,
            forall|j: int| 0 <= j < rs@.len() ==> line_bounds(b, (#[trigger] rs@[j]).0 as int, rs@[j].1 as int),
        decreases rs@.len() - k,
    {
        let (s, e) = rs[k];
        let l = line_text(src, s, e);
        let v = to_chars(l);
        let ghost old_hk = hk@;
        let ghost old_hl = hl@;
        proof {
            assert(rsv[k as int] == (s as int, e as int));
            assert(headings_from(b, rsv, k as int) == (if line_heading(b, rsv[k as int]) is Some {
                seq![k as int]
            } else {
                Seq::<int>::empty()
            }) + headings_from(b, rsv, k + 1));
        }
        match match_heading(&v) {
            Some(t) => {
                hk.push(k);
                hl.push(t.0);
                proof {
                    assert(as_ints(hk@) =~= as_ints(old_hk).push(k as int));
                    assert(as_ints(hk@) + headings_from(b, rsv, k + 1) =~= as_ints(old_hk)
                        + headings_from(b, rsv, k as int));
                    assert forall|m: int| 0 <= m < hk@.len() implies line_heading(b, rsv[hk@[m] as int]) is Some
                        && hl@[m] as int == line_heading(b, rsv[#[trigger] hk@[m] as int])->0.level by {
                        if m < old_hk.len() {
                            assert(hk@[m] == old_hk[m] && hl@[m] == old_hl[m]);
                        }
                    }
                }
            },
            None => {
                proof {
                    assert(as_ints(hk@) + headings_from(b, rsv, k + 1) =~= as_ints(old_hk)
                        + headings_from(b, rsv, k as int));
                }
            },
        }
        k = k + 1;
    }
    let ghost heads = headings_from(b, rsv, 0);
    let ghost levels = heading_levels(b, heads);
    proof {
        assert(headings_from(b, rsv, k as int) =~= Seq::<int>::empty());
        assert(as_ints(hk@) =~= heads);
    }
    let mut nodes: Vec<ClauseNode> = Vec::new();
    let mut m: usize = 0;
    let nrs = rs.len();
    while m < hk.len()
        invariant
            nrs == rs@.len(),
            rsv == line_ranges_from(b, 0),
            b == src.spec_bytes(),
            b == bytes@,
            as_ranges(rs@) == rsv,
            heads == headings_from(b, rsv, 0),
            as_ints(hk@) == heads,
            levels == heading_levels(b, heads),
            hl@.len() == hk@.len(),
            forall|i: int| 0 <= i < hk@.len() ==> (#[trigger] hk@[i]) < rs@.len(),
            forall|i: int| 0 <= i < hk@.len() ==> line_heading(b, rsv[hk@[i] as int]) is Some && hl@[i] as int
                == line_heading(b, rsv[#[trigger] hk@[i] as int])->0.level,
            forall|j: int| 0 <= j < rs@.len() ==> line_bounds(b, (#[trigger] rs@[j]).0 as int, rs@[j].1 as int),
            m <= hk@.len(),
            nodes@.len() == m,
            forall|i: int| 0 <= i < m ==> (#[trigger] nodes@[i]).fields() == clause_at(b, heads, i),
        decreases hk@.len() - m,
    {
        let k = hk[m];
        let (s, e) = rs[k];
        let l = line_text(src, s, e);
        let v = to_chars(l);
        proof {
            assert(heads[m as int] == k);
            assert(rsv[k as int] == (s as int, e as int));
        }
        let t = match match_heading(&v) {
            Some(t) => t,
            None => {
                proof {
                    assert(false);
                }
                return Ok(nodes);
            },
        };
        let id = String::from_str(l.substring_char(t.3, t.4));
        let title = String::from_str(l.substring_char(t.5, t.6));
        let anchor = String::from_str(l.substring_char(t.1, t.2));
        let mut j = s;
        proof {
            lemma_next_newline(b, s as int);
        }
        while j < bytes.len() && bytes[j] != 10u8
            invariant
                s <= j <= b.len(),
                b == bytes@,
                next_newline(b, j as int) == next_newline(b, s as int),
            decreases b.len() - j,
        {
            j = j + 1;
        }
        let body_start = if j < bytes.len() {
            j + 1
        } else {
            bytes.len()
        };
        let mut np = m + 1;
        proof {
            assert forall|i: int| 0 <= i < hk@.len() implies hl@[i] as int == levels[i] by {
                assert(levels[i] == line_heading(b, rsv[heads[i]])->0.level);
                assert(heads[i] == hk@[i] as int);
            }
        }
        while np < hk.len() && hl[np] > hl[m]
            invariant
                m < np <= hk@.len(),
                hl@.len() == hk@.len(),
                levels.len() == hk@.len(),
                forall|i: int| 0 <= i < hk@.len() ==> hl@[i] as int == #[trigger] levels[i],
                next_peer(levels, m as int, np as int) == next_peer(levels, m as int, m + 1),
            decreases hk@.len() - np,
        {
            np = np + 1;
        }
        let body_end = if np < hk.len() {
            rs[hk[np]].0
        } else {
            bytes.len()
        };
        let node = ClauseNode {
            id,
            title,
            anchor,
            level: t.0 as u8,
            line: k + 1,
            body_start,
            body_end,
        };
        proof {
            assert(heading_line(b, heads, m as int) == v@);
            assert(body_end_of(b, heads, m as int) == body_end);
            assert(body_start_of(b, heads, m as int) == body_start);
        }
        nodes.push(node);
        m = m + 1;
    }
    Ok(nodes)
}

/// Heading indices increase, and stay within the lines they were drawn from.
pub proof fn lemma_headings_order(b: Seq<u8>, rs: Seq<(int, int)>, k: int)
    requires
        0 <= k,
    ensures
        forall|m: int| 0 <= m < headings_from(b, rs, k).len() ==> k <= (#[trigger] headings_from(b, rs, k)[m]) < rs.len(),
        forall|m: int, m2: int|
            0 <= m < m2 < headings_from(b, rs, k).len() ==> (#[trigger] headings_from(b, rs, k)[m])
                < (#[trigger] headings_from(b, rs, k)[m2]),
        forall|m: int| 0 <= m < headings_from(b, rs, k).len() ==> line_heading(b, rs[#[trigger] headings_from(b, rs, k)[m]]) is Some,
    decreases rs.len() - k,
{
    if k < rs.len() {
        lemma_headings_order(b, rs, k + 1);
        let hs = headings_from(b, rs, k);
        let tail = headings_from(b, rs, k + 1);
        if line_heading(b, rs[k]) is Some {
            assert forall|m: int| 0 <= m < hs.len() implies k <= (#[trigger] hs[m]) < rs.len()
                && line_heading(b, rs[hs[m]]) is Some by {
                if m > 0 {
                    assert(hs[m] == tail[m - 1]);
                }
            }
            assert forall|m: int, m2: int| 0 <= m < m2 < hs.len() implies (#[trigger] hs[m]) < (#[trigger] hs[m2]) by {
                assert(hs[m2] == tail[m2 - 1]);
                if m > 0 {
                    assert(hs[m] == tail[m - 1]);
                }
            }
        } else {
            assert(hs =~= tail);
        }
    }
}

pub proof fn lemma_next_peer(levels: Seq<int>, m: int, j: int)
    requires
        0 <= j,
    ensures
        j <= next_peer(levels, m, j) || j > levels.len(),
        next_peer(levels, m, j) <= levels.len(),
    decreases levels.len() - j,
{
    if j < levels.len() && levels[j] > levels[m] {
        lemma_next_peer(levels, m, j + 1);
    }
}

/// The body of every clause is a well-formed piece of the text: it starts no later than
/// it ends, within the text, and on character boundaries.
pub proof fn lemma_body_range(b: Seq<u8>, m: int)
    requires
        valid_utf8(b),
        0 <= m < headings_from(b, line_ranges_from(b, 0), 0).len(),
    ensures
        ({
            let heads = headings_from(b, line_ranges_from(b, 0), 0);
            let s = body_start_of(b, heads, m);
            let e = body_end_of(b, heads, m);
            &&& 0 <= s <= e <= b.len()
            &&& is_char_boundary(b, s)
            &&& is_char_boundary(b, e)
        }),
{
    let rs = line_ranges_from(b, 0);
    let heads = headings_from(b, rs, 0);
    lemma_headings_order(b, rs, 0);
    lemma_line_ranges_order(b, 0);
    lemma_line_ranges_bounds(b, 0);
    let levels = heading_levels(b, heads);
    lemma_next_peer(levels, m, m + 1);
    let np = next_peer(levels, m, m + 1);
    let ls = rs[heads[m]].0;
    lemma_next_newline(b, ls);
    let nn = next_newline(b, ls);
    is_char_boundary_start_end_of_seq(b);
    if nn < b.len() {
        lemma_ascii_is_boundary(b, nn);
    }
    if np < heads.len() {
        let s2 = rs[heads[np]].0;
        assert(heads[m] < heads[np]);
        assert(s2 >= next_newline(b, rs[heads[m]].0) + 1);
        assert(line_bounds(b, rs[heads[np]].0, rs[heads[np]].1));
        if s2 > 0 {
            lemma_ascii_is_boundary(b, s2 - 1);
        }
    }
}

} // verus!
