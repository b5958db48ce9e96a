//! Character-level text helpers: lines, Unicode white space and trimming.
use vstd::prelude::*;
use vstd::string::StringSliceAdditionalSpecFns;
use vstd::utf8::*;
use crate::text::{str_slice, lemma_ascii_is_boundary};

verus! {

broadcast use vstd::string::axiom_spec_iter;

/// The characters of `s`, in order.
pub fn to_chars(s: &str) -> (r: Vec<char>)
    ensures
        r@ == s@,
{
    let mut v: Vec<char> = Vec::new();
    for c in it: s.chars()
        invariant
            it.seq() == s@,
            v@ == s@.subrange(0, it.index() as int),
    {
        v.push(c);
    }
    assert(v@ =~= s@);
    v
}

/// Unicode `White_Space`: the characters that `char::is_whitespace` and `\s` accept.
pub open spec fn is_white(c: char) -> bool {
    let u = c as u32;
    ||| 9 <= u <= 13
    ||| u == 32
    ||| u == 0x85
    ||| u == 0xA0
    ||| u == 0x1680
    ||| 0x2000 <= u <= 0x200A
    ||| u == 0x2028
    ||| u == 0x2029
    ||| u == 0x202F
    ||| u == 0x205F
    ||| u == 0x3000
}

pub fn white(c: char) -> (b: bool)
    ensures
        b == is_white(c),
{
    let u = c as u32;
    (9 <= u && u <= 13) || u == 32 || u == 0x85 || u == 0xA0 || u == 0x1680 || (0x2000 <= u && u
        <= 0x200A) || u == 0x2028 || u == 0x2029 || u == 0x202F || u == 0x205F || u == 0x3000
}

/// `s` without its leading white space.
pub open spec fn trim_start(s: Seq<char>) -> Seq<char>
    decreases s.len(),
{
    if s.len() > 0 && is_white(s[0]) {
        trim_start(s.drop_first())
    } else {
        s
    }
}

/// `s` without its trailing white space.
pub open spec fn trim_end(s: Seq<char>) -> Seq<char>
    decreases s.len(),
{
    if s.len() > 0 && is_white(s.last()) {
        trim_end(s.drop_last())
    } else {
        s
    }
}

/// `s` without white space at either end, as `str::trim` gives it.
pub open spec fn trim(s: Seq<char>) -> Seq<char> {
    trim_end(trim_start(s))
}

/// Whether `s` begins with `p`.
pub open spec fn starts_with(s: Seq<char>, p: Seq<char>) -> bool {
    p.len() <= s.len() && s.subrange(0, p.len() as int) == p
}

/// The position at which leading white space of `v[i..j]` ends.
pub fn skip_white(v: &Vec<char>, i: usize, j: usize) -> (k: usize)
    requires
        i <= j <= v@.len(),
    ensures
        i <= k <= j,
        v@.subrange(k as int, j as int) == trim_start(v@.subrange(i as int, j as int)),
{
    let mut k = i;
    while k < j && white(v[k])
        invariant
            i <= k <= j <= v@.len(),
            trim_start(v@.subrange(k as int, j as int)) == trim_start(v@.subrange(i as int, j as int)),
        decreases j - k,
    {
        assert(v@.subrange(k as int, j as int).drop_first() =~= v@.subrange(k + 1, j as int));
        k = k + 1;
    }
    k
}

/// The position at which trailing white space of `v[i..j]` begins.
pub fn back_white(v: &Vec<char>, i: usize, j: usize) -> (k: usize)
    requires
        i <= j <= v@.len(),
    ensures
        i <= k <= j,
        v@.subrange(i as int, k as int) == trim_end(v@.subrange(i as int, j as int)),
{
    let mut k = j;
    while k > i && white(v[k - 1])
        invariant
            i <= k <= j <= v@.len(),
            trim_end(v@.subrange(i as int, k as int)) == trim_end(v@.subrange(i as int, j as int)),
        decreases k - i,
    {
        assert(v@.subrange(i as int, k as int).drop_last() =~= v@.subrange(i as int, k - 1));
        k = k - 1;
    }
    k
}

/// Whether `v[i..]` begins with the characters of `p`.
pub fn has_prefix_at(v: &Vec<char>, i: usize, p: &Vec<char>) -> (b: bool)
    requires
        i <= v@.len(),
    ensures
        b == starts_with(v@.subrange(i as int, v@.len() as int), p@),
{
    let n = v.len();
    if p.len() > n - i {
        return false;
    }
    let mut k: usize = 0;
    while k < p.len()
        invariant
            0 <= k <= p@.len(),
            n == v@.len(),
            i <= v@.len(),
            p@.len() <= v@.len() - i,
            forall|m: int| 0 <= m < k ==> v@[i + m] == p@[m],
        decreases p@.len() - k,
    {
        if v[i + k] != p[k] {
            assert(v@.subrange(i as int, v@.len() as int).subrange(0, p@.len() as int)[k as int] != p@[k as int]);
            return false;
        }
        k = k + 1;
    }
    assert(v@.subrange(i as int, v@.len() as int).subrange(0, p@.len() as int) =~= p@);
    true
}

/// The first newline at or after `i`, or the end of `b`.
pub open spec fn next_newline(b: Seq<u8>, i: int) -> int
    decreases b.len() - i,
{
    if i >= b.len() {
        b.len() as int
    } else if b[i] == 10u8 {
        i
    } else {
        next_newline(b, i + 1)
    }
}

pub proof fn lemma_next_newline(b: Seq<u8>, i: int)
    requires
        0 <= i,
    ensures
        i <= next_newline(b, i) || i > b.len(),
        next_newline(b, i) <= b.len(),
        next_newline(b, i) < b.len() ==> b[next_newline(b, i)] == 10u8,
        forall|k: int| i <= k < next_newline(b, i) ==> b[k] != 10u8,
    decreases b.len() - i,
{
    if i < b.len() && b[i] != 10u8 {
        lemma_next_newline(b, i + 1);
    }
}

/// The byte ranges of the lines of `b` from `i` on, as `str::lines` splits them: at
/// `\n` or `\r\n`, neither kept, with no empty line after a final line ending.
pub open spec fn line_ranges_from(b: Seq<u8>, i: int) -> Seq<(int, int)>
    decreases b.len() - i,
{
    if i < 0 || i >= b.len() {
        Seq::empty()
    } else {
        proof {
            lemma_next_newline(b, i);
        }
        let j = next_newline(b, i);
        let e = if j < b.len() && j > i && b[j - 1] == 13u8 {
            j - 1
        } else {
            j
        };
        seq![(i, e)] + if j < b.len() {
            line_ranges_from(b, j + 1)
        } else {
            Seq::empty()
        }
    }
}

/// The lines of the text whose UTF-8 encoding is `b`.
pub open spec fn text_lines(b: Seq<u8>) -> Seq<Seq<char>> {
    line_ranges_from(b, 0).map_values(|r: (int, int)| decode_utf8(b.subrange(r.0, r.1)))
}

/// A line of `b` lies in `b[s..e]`: it starts the text or follows a `\n`, and ends the
/// text or stops before a `\n` or `\r`.
pub open spec fn line_bounds(b: Seq<u8>, s: int, e: int) -> bool {
    &&& 0 <= s <= e <= b.len()
    &&& (s == 0 || b[s - 1] == 10u8)
    &&& (e == b.len() || b[e] == 10u8 || b[e] == 13u8)
}

pub open spec fn as_ranges(r: Seq<(usize, usize)>) -> Seq<(int, int)> {
    r.map_values(|p: (usize, usize)| (p.0 as int, p.1 as int))
}

pub proof fn lemma_line_ranges_bounds(b: Seq<u8>, i: int)
    requires
        0 <= i <= b.len(),
        i == 0 || i == b.len() || b[i - 1] == 10u8,
    ensures
        forall|k: int|
            0 <= k < line_ranges_from(b, i).len() ==> line_bounds(
                b,
                (#[trigger] line_ranges_from(b, i)[k]).0,
                line_ranges_from(b, i)[k].1,
            ),
        forall|k: int| 0 <= k < line_ranges_from(b, i).len() ==> i <= (#[trigger] line_ranges_from(b, i)[k]).0,
    decreases b.len() - i,
{
    if i < b.len() {
        lemma_next_newline(b, i);
        let j = next_newline(b, i);
        if j < b.len() {
            lemma_line_ranges_bounds(b, j + 1);
        }
        let e = if j < b.len() && j > i && b[j - 1] == 13u8 {
            j - 1
        } else {
            j
        };
        assert forall|k: int| 0 <= k < line_ranges_from(b, i).len() implies line_bounds(
            b,
            (#[trigger] line_ranges_from(b, i)[k]).0,
            line_ranges_from(b, i)[k].1,
        ) && i <= line_ranges_from(b, i)[k].0 by {
            if k > 0 {
                assert(j < b.len());
                assert(line_ranges_from(b, i)[k] == line_ranges_from(b, j + 1)[k - 1]);
            }
        }
    }
}

/// The byte ranges of the lines of `src`.
pub fn line_ranges(src: &str) -> (r: Vec<(usize, usize)>)
    ensures
        as_ranges(r@) == line_ranges_from(src.spec_bytes(), 0),
        forall|k: int| 0 <= k < r@.len() ==> line_bounds(src.spec_bytes(), (#[trigger] r@[k]).0 as int, r@[k].1 as int),
{
    let bytes = src.as_bytes();
    let ghost b = bytes@;
    let mut r: Vec<(usize, usize)> = Vec::new();
    let mut i: usize = 0;
    proof {
        lemma_line_ranges_bounds(b, 0);
        assert(as_ranges(r@) + line_ranges_from(b, 0) =~= line_ranges_from(b, 0));
    }
    while i < bytes.len()
        invariant
            b == bytes@,
            b == src.spec_bytes(),
            i <= b.len(),
            i == 0 || i == b.len() || b[i - 1] == 10u8,
            as_ranges(r@) + line_ranges_from(b, i as int) == line_ranges_from(b, 0),
        decreases b.len() - i,
    {
        proof {
            lemma_next_newline(b, i as int);
        }
        let mut j = i;
        while j < bytes.len() && bytes[j] != 10u8
            invariant
                i <= j <= b.len(),
                b == bytes@,
                next_newline(b, j as int) == next_newline(b, i as int),
            decreases b.len() - j,
        {
            j = j + 1;
        }
        let e = if j < bytes.len() && j > i && bytes[j - 1] == 13u8 {
            j - 1
        } else {
            j
        };
        let ghost old_r = r@;
        r.push((i, e));
        proof {
            assert(as_ranges(r@) =~= as_ranges(old_r).push((i as int, e as int)));
            if j < b.len() {
                assert(line_ranges_from(b, i as int) =~= seq![(i as int, e as int)] + line_ranges_from(b, j + 1));
                assert(as_ranges(r@) + line_ranges_from(b, j + 1) =~= as_ranges(old_r) + line_ranges_from(b, i as int));
            } else {
                assert(line_ranges_from(b, i as int) =~= seq![(i as int, e as int)]);
                assert(as_ranges(r@) + line_ranges_from(b, j as int) =~= as_ranges(old_r) + line_ranges_from(b, i as int));
            }
        }
        i = if j < bytes.len() {
            j + 1
        } else {
            j
        };
    }
    proof {
        assert(line_ranges_from(b, i as int) =~= Seq::<(int, int)>::empty());
        assert(as_ranges(r@) =~= line_ranges_from(b, 0));
        lemma_line_ranges_bounds(b, 0);
        assert forall|k: int| 0 <= k < r@.len() implies line_bounds(b, (#[trigger] r@[k]).0 as int, r@[k].1 as int) by {
            assert(as_ranges(r@)[k] == line_ranges_from(b, 0)[k]);
        }
    }
    r
}

/// The text of a line of `src`.
pub fn line_text(src: &str, s: usize, e: usize) -> (l: &str)
    requires
        line_bounds(src.spec_bytes(), s as int, e as int),
    ensures
        l.spec_bytes() == src.spec_bytes().subrange(s as int, e as int),
        l@ == decode_utf8(src.spec_bytes().subrange(s as int, e as int)),
{
    let ghost b = src.spec_bytes();
    proof {
        encode_utf8_valid_utf8(src@);
        if s > 0 {
            lemma_ascii_is_boundary(b, s - 1);
        } else {
            is_char_boundary_start_end_of_seq(b);
        }
        if e < b.len() {
            lemma_ascii_is_boundary(b, e as int);
        } else {
            is_char_boundary_start_end_of_seq(b);
        }
    }
    let l = str_slice(src, s, e);
    proof {
        encode_utf8_decode_utf8(l@);
    }
    l
}

/// Whether `v[i..j]` begins with the characters of `p`.
pub fn has_prefix_in(v: &Vec<char>, i: usize, j: usize, p: &Vec<char>) -> (b: bool)
    requires
        i <= j <= v@.len(),
    ensures
        b == starts_with(v@.subrange(i as int, j as int), p@),
{
    let n = p.len();
    if n > j - i {
        return false;
    }
    let mut k: usize = 0;
    while k < n
        invariant
            0 <= k <= n,
            n == p@.len(),
            i <= j <= v@.len(),
            n <= j - i,
            forall|m: int| 0 <= m < k ==> v@[i + m] == p@[m],
        decreases n - k,
    {
        if v[i + k] != p[k] {
            assert(v@.subrange(i as int, j as int).subrange(0, n as int)[k as int] != p@[k as int]);
            return false;
        }
        k = k + 1;
    }
    assert(v@.subrange(i as int, j as int).subrange(0, n as int) =~= p@);
    true
}

/// The position of the first white space character of `s`, or its length.
pub open spec fn first_white(s: Seq<char>) -> int
    decreases s.len(),
{
    if s.len() == 0 {
        0
    } else if is_white(s[0]) {
        0
    } else {
        1 + first_white(s.drop_first())
    }
}

/// The first white space character of `v[i..j]`, or `j`.
pub fn find_white(v: &Vec<char>, i: usize, j: usize) -> (k: usize)
    requires
        i <= j <= v@.len(),
    ensures
        i <= k <= j,
        k - i == first_white(v@.subrange(i as int, j as int)),
{
    let mut k = i;
    while k < j && !white(v[k])
        invariant
            i <= k <= j <= v@.len(),
            first_white(v@.subrange(i as int, j as int)) == (k - i) + first_white(v@.subrange(k as int, j as int)),
        decreases j - k,
    {
        assert(v@.subrange(k as int, j as int).drop_first() =~= v@.subrange(k + 1, j as int));
        k = k + 1;
    }
    k
}

/// `s` with every trailing `c` removed, as `trim_end_matches(c)` gives it.
pub open spec fn strip_end(s: Seq<char>, c: char) -> Seq<char>
    decreases s.len(),
{
    if s.len() > 0 && s.last() == c {
        strip_end(s.drop_last(), c)
    } else {
        s
    }
}

/// The end of `v[i..j]` once its trailing `c` are removed.
pub fn strip_end_at(v: &Vec<char>, i: usize, j: usize, c: char) -> (k: usize)
    requires
        i <= j <= v@.len(),
    ensures
        i <= k <= j,
        v@.subrange(i as int, k as int) == strip_end(v@.subrange(i as int, j as int), c),
{
    let mut k = j;
    while k > i && v[k - 1] == c
        invariant
            i <= k <= j <= v@.len(),
            strip_end(v@.subrange(i as int, k as int), c) == strip_end(v@.subrange(i as int, j as int), c),
        decreases k - i,
    {
        assert(v@.subrange(i as int, k as int).drop_last() =~= v@.subrange(i as int, k - 1));
        k = k - 1;
    }
    k
}

/// Whether `v[i..j]` holds `c`.
pub fn contains_at(v: &Vec<char>, i: usize, j: usize, c: char) -> (b: bool)
    requires
        i <= j <= v@.len(),
    ensures
        b == v@.subrange(i as int, j as int).contains(c),
{
    let mut k = i;
    while k < j
        invariant
            i <= k <= j <= v@.len(),
            forall|m: int| i <= m < k ==> v@[m] != c,
        decreases j - k,
    {
        if v[k] == c {
            assert(v@.subrange(i as int, j as int)[k - i] == c);
            return true;
        }
        k = k + 1;
    }
    assert forall|m: int| 0 <= m < j - i implies v@.subrange(i as int, j as int)[m] != c by {
        assert(v@.subrange(i as int, j as int)[m] == v@[i + m]);
    }
    false
}

/// The range of `v` that is left once white space is trimmed from both ends.
pub fn trim_range(v: &Vec<char>) -> (r: (usize, usize))
    ensures
        r.0 <= r.1 <= v@.len(),
        v@.subrange(r.0 as int, r.1 as int) == trim(v@),
{
    let s = skip_white(v, 0, v.len());
    let e = back_white(v, s, v.len());
    assert(v@.subrange(0, v@.len() as int) =~= v@);
    (s, e)
}

/// The lines of `src`, as `str::lines` gives them.
pub fn split_lines(src: &str) -> (r: Vec<&str>)
    ensures
        r@.len() == text_lines(src.spec_bytes()).len(),
        forall|k: int| 0 <= k < r@.len() ==> (#[trigger] r@[k])@ == text_lines(src.spec_bytes())[k],
{
    let rs = line_ranges(src);
    let ghost b = src.spec_bytes();
    let mut out: Vec<&str> = Vec::new();
    let mut k: usize = 0;
    while k < rs.len()
        invariant
            b == src.spec_bytes(),
            as_ranges(rs@) == line_ranges_from(b, 0),
            forall|j: int| 0 <= j < rs@.len() ==> line_bounds(b, (#[trigger] rs@[j]).0 as int, rs@[j].1 as int),
            k <= rs@.len(),
            out@.len() == k,
            forall|j: int| 0 <= j < k ==> (#[trigger] out@[j])@ == text_lines(b)[j],
        decreases rs@.len() - k,
    {
        let (s, e) = rs[k];
        let l = line_text(src, s, e);
        proof {
            assert(line_ranges_from(b, 0)[k as int] == (s as int, e as int));
        }
        out.push(l);
        k = k + 1;
    }
    out
}

/// Lines come in order: each line of `b` from `i` on starts at or after `i`, before the
/// end of `b`, and after the newline that ends every earlier line.
pub proof fn lemma_line_ranges_order(b: Seq<u8>, i: int)
    requires
        0 <= i,
    ensures
        forall|k: int|
            0 <= k < line_ranges_from(b, i).len() ==> i <= (#[trigger] line_ranges_from(b, i)[k]).0
                < b.len(),
        forall|k: int, k2: int|
            0 <= k < k2 < line_ranges_from(b, i).len() ==> (#[trigger] line_ranges_from(b, i)[k2]).0
                >= next_newline(b, (#[trigger] line_ranges_from(b, i)[k]).0) + 1,
    decreases b.len() - i,
{
    if i < b.len() {
        lemma_next_newline(b, i);
        let j = next_newline(b, i);
        let rs = line_ranges_from(b, i);
        if j < b.len() {
            lemma_line_ranges_order(b, j + 1);
            let tail = line_ranges_from(b, j + 1);
            assert forall|k: int| 0 <= k < rs.len() implies i <= (#[trigger] rs[k]).0 < b.len() by {
                if k > 0 {
                    assert(rs[k] == tail[k - 1]);
                }
            }
            assert forall|k: int, k2: int| 0 <= k < k2 < rs.len() implies (#[trigger] rs[k2]).0
                >= next_newline(b, (#[trigger] rs[k]).0) + 1 by {
                assert(rs[k2] == tail[k2 - 1]);
                if k > 0 {
                    assert(rs[k] == tail[k - 1]);
                }
            }
        } else {
            assert(rs.len() == 1);
        }
    }
}

} // verus!
