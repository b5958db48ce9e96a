//! Slicing source text at character boundaries.
use vstd::prelude::*;
use vstd::string::StringSliceAdditionalSpecFns;
use vstd::utf8::*;

verus! {

/// An ASCII byte on a character boundary is a one-byte character: the next position is a
/// character boundary too.
pub proof fn lemma_ascii_boundary_step(b: Seq<u8>, i: int)
    requires
        valid_utf8(b),
        0 <= i < b.len(),
        is_char_boundary(b, i),
        b[i] < 128u8,
    ensures
        is_char_boundary(b, i + 1),
    decreases b.len(),
{
    let l = length_of_first_scalar(b);
    let rest = pop_first_scalar(b);
    assert(valid_first_scalar(b));
    assert(valid_utf8(rest));
    assert(0 < l <= b.len());
    assert(rest.len() == b.len() - l);
    if i == 0 {
        assert(l == 1);
        assert(is_char_boundary(rest, 0));
        assert(is_char_boundary(b, 1));
    } else {
        assert(is_char_boundary(rest, i - l));
        if i - l < 0 {
            assert(false);
        }
        assert(rest[i - l] == b[i]);
        lemma_ascii_boundary_step(rest, i - l);
        assert(is_char_boundary(rest, i - l + 1));
        assert(is_char_boundary(b, i + 1));
    }
}

/// An ASCII byte starts a character.
pub proof fn lemma_ascii_is_boundary(b: Seq<u8>, i: int)
    requires
        valid_utf8(b),
        0 <= i < b.len(),
        b[i] < 128u8,
    ensures
        is_char_boundary(b, i),
        is_char_boundary(b, i + 1),
{
    is_char_boundary_iff_not_is_continuation_byte(b, i);
    lemma_ascii_boundary_step(b, i);
}

/// A boundary of `b` past `start` is a boundary of the text from `start` on.
pub proof fn lemma_boundary_of_suffix(b: Seq<u8>, start: int, end: int)
    requires
        valid_utf8(b),
        0 <= start <= end <= b.len(),
        is_char_boundary(b, start),
        is_char_boundary(b, end),
    ensures
        valid_utf8(b.subrange(start, b.len() as int)),
        is_char_boundary(b.subrange(start, b.len() as int), end - start),
{
    let sub = b.subrange(start, b.len() as int);
    valid_utf8_split(b, start);
    if end == b.len() {
        is_char_boundary_start_end_of_seq(sub);
    } else {
        is_char_boundary_iff_not_is_continuation_byte(b, end);
        assert(sub[end - start] == b[end]);
        is_char_boundary_iff_not_is_continuation_byte(sub, end - start);
    }
}

/// The text whose UTF-8 bytes are `s.spec_bytes()[start..end]`.
pub fn str_slice(s: &str, start: usize, end: usize) -> (r: &str)
    requires
        start <= end <= s.spec_bytes().len(),
        is_char_boundary(s.spec_bytes(), start as int),
        is_char_boundary(s.spec_bytes(), end as int),
    ensures
        r.spec_bytes() == s.spec_bytes().subrange(start as int, end as int),
{
    proof {
        encode_utf8_valid_utf8(s@);
    }
    let ghost b = s.spec_bytes();
    let (_, right) = s.split_at(start);
    proof {
        lemma_boundary_of_suffix(b, start as int, end as int);
    }
    let (mid, _) = right.split_at(end - start);
    assert(mid.spec_bytes() =~= b.subrange(start as int, end as int));
    mid
}

} // verus!
