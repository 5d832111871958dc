//! Facts about UTF-8 byte positions, and cutting a `&str` at byte offsets.
use vstd::prelude::*;
use vstd::utf8::*;
use vstd::string::StringSliceAdditionalSpecFns;

verus! {

broadcast use vstd::utf8::encode_utf8_valid_utf8;

/// The bytes of a string slice are valid UTF-8.
pub proof fn lemma_str_valid(s: &str)
    ensures
        valid_utf8(s.spec_bytes()),
{
}

/// A byte position that touches an ASCII byte (or an end of the sequence).
pub open spec fn ascii_edge(bytes: Seq<u8>, p: int) -> bool {
    ||| p == 0
    ||| p == bytes.len()
    ||| (0 <= p < bytes.len() && bytes[p] < 0x80)
    ||| (0 < p <= bytes.len() && bytes[p - 1] < 0x80)
}

/// In valid UTF-8, the position right after an ASCII byte starts a character.
pub proof fn lemma_after_ascii_is_boundary(bytes: Seq<u8>, p: int)
    requires
        valid_utf8(bytes),
        0 < p <= bytes.len(),
        bytes[p - 1] < 0x80,
    ensures
        is_char_boundary(bytes, p),
    decreases bytes.len(),
{
    let n = length_of_first_scalar(bytes);
    if p - 1 == 0 {
        reveal_with_fuel(is_char_boundary, 2);
    } else if p - 1 < n {
        // bytes[p - 1] would be a continuation byte of the first scalar
        assert(is_continuation_byte(bytes[p - 1]));
    } else {
        let tail = pop_first_scalar(bytes);
        assert(tail[p - n - 1] == bytes[p - 1]);
        lemma_after_ascii_is_boundary(tail, p - n);
        reveal_with_fuel(is_char_boundary, 2);
    }
}

/// Every ASCII edge of valid UTF-8 is a character boundary.
pub proof fn lemma_ascii_edge_is_boundary(bytes: Seq<u8>, p: int)
    requires
        valid_utf8(bytes),
        ascii_edge(bytes, p),
    ensures
        is_char_boundary(bytes, p),
{
    broadcast use is_char_boundary_start_end_of_seq;

    if p == 0 || p == bytes.len() {
    } else if 0 <= p < bytes.len() && bytes[p] < 0x80 {
        is_char_boundary_iff_not_is_continuation_byte(bytes, p);
    } else {
        lemma_after_ascii_is_boundary(bytes, p);
    }
}

/// A boundary of the whole sequence stays a boundary of a suffix that starts at a boundary.
pub proof fn lemma_boundary_in_suffix(bytes: Seq<u8>, a: int, b: int)
    requires
        valid_utf8(bytes),
        0 <= a <= b <= bytes.len(),
        is_char_boundary(bytes, a),
        is_char_boundary(bytes, b),
    ensures
        valid_utf8(bytes.subrange(a, bytes.len() as int)),
        is_char_boundary(bytes.subrange(a, bytes.len() as int), b - a),
{
    broadcast use is_char_boundary_start_end_of_seq;

    valid_utf8_split(bytes, a);
    let tail = bytes.subrange(a, bytes.len() as int);
    if b == bytes.len() {
        assert(tail.len() == b - a);
    } else if b == a {
    } else {
        is_char_boundary_iff_not_is_continuation_byte(bytes, b);
        assert(tail[b - a] == bytes[b]);
        is_char_boundary_iff_not_is_continuation_byte(tail, b - a);
    }
}

/// The part of `s` between the byte offsets `a` and `b`.
pub fn substr<'a>(s: &'a str, a: usize, b: usize) -> (r: &'a str)
    requires
        a <= b <= s.spec_bytes().len(),
        is_char_boundary(s.spec_bytes(), a as int),
        is_char_boundary(s.spec_bytes(), b as int),
    ensures
        r.spec_bytes() == s.spec_bytes().subrange(a as int, b as int),
{
    proof {
        lemma_boundary_in_suffix(s.spec_bytes(), a as int, b as int);
    }
    let (_, tail) = s.split_at(a);
    let (mid, _) = tail.split_at(b - a);
    assert(mid.spec_bytes() =~= s.spec_bytes().subrange(a as int, b as int));
    mid
}

/// The part of `s` between two ASCII edges.
pub fn substr_ascii<'a>(s: &'a str, a: usize, b: usize) -> (r: &'a str)
    requires
        a <= b <= s.spec_bytes().len(),
        ascii_edge(s.spec_bytes(), a as int),
        ascii_edge(s.spec_bytes(), b as int),
    ensures
        r.spec_bytes() == s.spec_bytes().subrange(a as int, b as int),
{
    proof {
        lemma_ascii_edge_is_boundary(s.spec_bytes(), a as int);
        lemma_ascii_edge_is_boundary(s.spec_bytes(), b as int);
    }
    substr(s, a, b)
}

} // verus!
