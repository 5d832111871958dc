//! Classes of bytes and the scan that skips a run of them.
use vstd::prelude::*;
use crate::utf8_slice::ascii_edge;

verus! {

/// The byte classes that the grammars of this crate skip over.
#[derive(Clone, Copy)]
pub enum ByteClass {
    /// `' '` or `'\t'`.
    Space,
    /// Any byte but `'\r'` and `'\n'`.
    NotLineEnd,
    /// Any byte but `'='`, `'\r'` and `'\n'`.
    PropKey,
    /// Any byte but `'"'`, `'\r'` and `'\n'`.
    QuotedText,
    /// Any byte but `','`, `'\r'` and `'\n'`.
    ListText,
    /// ASCII letters and digits.
    AlphaNumeric,
    /// ASCII letters.
    Alpha,
    /// ASCII digits.
    Digit,
    /// Any byte but `';'`.
    NotSemicolon,
}

pub open spec fn is_ascii_alpha(b: u8) -> bool {
    (0x41 <= b <= 0x5a) || (0x61 <= b <= 0x7a)
}

pub open spec fn is_ascii_digit(b: u8) -> bool {
    0x30 <= b <= 0x39
}

pub open spec fn is_line_end(b: u8) -> bool {
    b == 0x0d || b == 0x0a
}

/// Membership of a byte in a class.
pub open spec fn in_class(c: ByteClass, b: u8) -> bool {
    match c {
        ByteClass::Space => b == 0x20 || b == 0x09,
        ByteClass::NotLineEnd => !is_line_end(b),
        ByteClass::PropKey => b != 0x3d && !is_line_end(b),
        ByteClass::QuotedText => b != 0x22 && !is_line_end(b),
        ByteClass::ListText => b != 0x2c && !is_line_end(b),
        ByteClass::AlphaNumeric => is_ascii_alpha(b) || is_ascii_digit(b),
        ByteClass::Alpha => is_ascii_alpha(b),
        ByteClass::Digit => is_ascii_digit(b),
        ByteClass::NotSemicolon => b != 0x3b,
    }
}

pub fn class_contains(c: ByteClass, b: u8) -> (r: bool)
    ensures
        r == in_class(c, b),
{
    match c {
        ByteClass::Space => b == 0x20 || b == 0x09,
        ByteClass::NotLineEnd => b != 0x0d && b != 0x0a,
        ByteClass::PropKey => b != 0x3d && b != 0x0d && b != 0x0a,
        ByteClass::QuotedText => b != 0x22 && b != 0x0d && b != 0x0a,
        ByteClass::ListText => b != 0x2c && b != 0x0d && b != 0x0a,
        ByteClass::AlphaNumeric => (0x41 <= b && b <= 0x5a) || (0x61 <= b && b <= 0x7a) || (
        0x30 <= b && b <= 0x39),
        ByteClass::Alpha => (0x41 <= b && b <= 0x5a) || (0x61 <= b && b <= 0x7a),
        ByteClass::Digit => 0x30 <= b && b <= 0x39,
        ByteClass::NotSemicolon => b != 0x3b,
    }
}

/// The first position at or after `p` whose byte is not in class `c`
/// (or the end of `s`).
pub open spec fn skip_class(s: Seq<u8>, p: int, c: ByteClass) -> int
    decreases s.len() - p,
{
    if 0 <= p < s.len() && in_class(c, s[p]) {
        skip_class(s, p + 1, c)
    } else {
        p
    }
}

/// What the scan gives: a run of class bytes, stopped by a byte outside the class or the end.
pub proof fn lemma_skip_class(s: Seq<u8>, p: int, c: ByteClass)
    requires
        0 <= p <= s.len(),
    ensures
        p <= skip_class(s, p, c) <= s.len(),
        forall|i: int| p <= i < skip_class(s, p, c) ==> in_class(c, #[trigger] s[i]),
        skip_class(s, p, c) < s.len() ==> !in_class(c, s[skip_class(s, p, c)]),
        ascii_edge(s, p) ==> ascii_edge(s, skip_class(s, p, c)),
    decreases s.len() - p,
{
    if 0 <= p < s.len() && in_class(c, s[p]) {
        lemma_skip_class(s, p + 1, c);
    }
}

/// Skips the run of class-`c` bytes that starts at `p`.
pub fn scan_class(s: &[u8], p: usize, c: ByteClass) -> (r: usize)
    requires
        p <= s@.len(),
    ensures
        r == skip_class(s@, p as int, c),
{
    let mut i = p;
    while i < s.len() && class_contains(c, s[i])
        invariant
            p <= i <= s@.len(),
            skip_class(s@, i as int, c) == skip_class(s@, p as int, c),
        decreases s@.len() - i,
    {
        i = i + 1;
    }
    i
}

} // verus!
