//! The SYLK record parser.
use std::borrow::Cow;
use vstd::prelude::*;
use vstd::string::StringSliceAdditionalSpecFns;
use vstd::string::StringExecFns;
use vstd::utf8::{encode_utf8, is_char_boundary};
use crate::error::ParseError;
use crate::number::nom_double;
use crate::scan::{ByteClass, scan_class, lemma_skip_class};
use crate::sylk_grammar as g;
use crate::sylk_grammar::{unescape, lemma_str_run};
use crate::sylk_types::{
    Value, Field, FieldType, Record, RecordType, cow_bytes, cow_borrowed, fields_view, FieldModel, ValueModel,
};
use crate::utf8_slice::{ascii_edge, substr, substr_ascii, lemma_str_valid, lemma_ascii_edge_is_boundary};

verus! {

/// The UTF-8 encoding of two character sequences one after the other.
pub proof fn lemma_encode_utf8_concat(a: Seq<char>, b: Seq<char>)
    ensures
        encode_utf8(a + b) == encode_utf8(a) + encode_utf8(b),
    decreases a.len(),
{
    if a.len() == 0 {
        assert(a + b =~= b);
    } else {
        assert((a + b).drop_first() =~= a.drop_first() + b);
        lemma_encode_utf8_concat(a.drop_first(), b);
        assert((a + b)[0] == a[0]);
    }
}

/// Unescaping text without `;` changes nothing.
pub proof fn lemma_unescape_plain(t: Seq<u8>)
    requires
        forall|i: int| 0 <= i < t.len() ==> t[i] != 0x3b,
    ensures
        unescape(t) == t,
    decreases t.len(),
{
    if t.len() > 0 {
        lemma_unescape_plain(t.skip(1));
        assert(seq![t[0]] + t.skip(1) =~= t);
    }
}

/// Replaces each `;;` of `v` by `;`, scanning from the left. The text is
/// borrowed when `v` holds no `;`.
pub fn unescape_str<'a>(v: &'a str) -> (r: Cow<'a, str>)
    ensures
        cow_bytes(r) == unescape(v.spec_bytes()),
        cow_borrowed(r) == g::no_semicolon(v.spec_bytes()),
        (forall|i: int| 0 <= i < v.spec_bytes().len() ==> v.spec_bytes()[i] != 0x3b) ==> r
            == Cow::<'a, str>::Borrowed(v),
        (exists|i: int| 0 <= i < v.spec_bytes().len() && v.spec_bytes()[i] == 0x3b) ==> r matches Cow::Owned(_),
{
    let b = v.as_bytes();
    let n = b.len();
    let ghost bytes = v.spec_bytes();
    let mut k: usize = 0;
    while k < n && b[k] != 0x3b
        invariant
            b@ == bytes,
            n == bytes.len(),
            k <= n,
            forall|i: int| 0 <= i < k ==> bytes[i] != 0x3b,
        decreases n - k,
    {
        k = k + 1;
    }
    if k == n {
        proof {
            lemma_unescape_plain(bytes);
        }
        return Cow::Borrowed(v);
    }
    let mut out = String::new();
    let mut seg: usize = 0;
    let mut i: usize = 0;
    assert(bytes.skip(0) =~= bytes);
    assert(encode_utf8(out@) =~= Seq::<u8>::empty());
    while i < n
        invariant
            b@ == bytes,
            bytes == v.spec_bytes(),
            n == bytes.len(),
            seg <= i <= n,
            ascii_edge(bytes, seg as int),
            unescape(bytes) == encode_utf8(out@) + bytes.subrange(seg as int, i as int) + unescape(
                bytes.skip(i as int),
            ),
        decreases n - i,
    {
        let ghost t = bytes.skip(i as int);
        if b[i] == 0x3b && i + 1 < n && b[i + 1] == 0x3b {
            let piece = substr_ascii(v, seg, i);
            let semi = substr_ascii(v, i, i + 1);
            let ghost old_out = out@;
            out.append(piece);
            let ghost mid_out = out@;
            out.append(semi);
            proof {
                lemma_encode_utf8_concat(old_out, piece@);
                lemma_encode_utf8_concat(mid_out, semi@);
                assert(t.skip(2) =~= bytes.skip(i + 2));
                assert(semi.spec_bytes() =~= seq![0x3bu8]);
                assert(bytes.subrange(i + 2, i + 2) =~= Seq::<u8>::empty());
                assert(encode_utf8(out@) + bytes.subrange(i + 2, i + 2) + unescape(bytes.skip(i + 2))
                    =~= encode_utf8(old_out) + bytes.subrange(seg as int, i as int) + (seq![0x3bu8]
                    + unescape(t.skip(2))));
            }
            i = i + 2;
            seg = i;
        } else {
            proof {
                assert(t.skip(1) =~= bytes.skip(i + 1));
                assert(bytes.subrange(seg as int, i + 1) =~= bytes.subrange(seg as int, i as int)
                    + seq![t[0]]);
                assert(encode_utf8(out@) + bytes.subrange(seg as int, i + 1) + unescape(
                    bytes.skip(i + 1),
                ) =~= encode_utf8(out@) + bytes.subrange(seg as int, i as int) + (seq![t[0]]
                    + unescape(t.skip(1))));
            }
            i = i + 1;
        }
    }
    let piece = substr_ascii(v, seg, n);
    let ghost old_out = out@;
    out.append(piece);
    proof {
        lemma_encode_utf8_concat(old_out, piece@);
        assert(bytes.skip(n as int) =~= Seq::<u8>::empty());
        assert(encode_utf8(out@) =~= encode_utf8(old_out) + bytes.subrange(seg as int, n as int)
            + unescape(bytes.skip(n as int)));
    }
    Cow::Owned(out)
}


pub open spec fn as_pos(r: Option<usize>) -> Option<int> {
    match r {
        Some(q) => Some(q as int),
        None => None,
    }
}

fn byte_is(s: &[u8], p: usize, b: u8) -> (r: bool)
    ensures
        r == crate::txt_grammar::byte_at(s@, p as int, b),
{
    p < s.len() && s[p] == b
}

fn str_run_at(s: &[u8], y: usize) -> (r: usize)
    requires
        y <= s@.len(),
    ensures
        r == g::str_run(s@, y as int),
{
    let n = s.len();
    let mut i = y;
    while i < n && ((s[i] != 0x3b && s[i] != 0x22) || (s[i] == 0x22 && i + 1 < n && s[i + 1] != 0x3b))
        invariant
            n == s@.len(),
            y <= i <= n,
            g::str_run(s@, i as int) == g::str_run(s@, y as int),
        decreases n - i,
    {
        i = i + 1;
    }
    i
}

/// Where the escaped text that starts at `p` ends.
fn escaped_str_at(s: &[u8], p: usize) -> (r: Option<usize>)
    requires
        p <= s@.len(),
    ensures
        as_pos(r) == g::escaped_str(s@, p as int, p as int),
        r matches Some(e) ==> p <= e <= s@.len() && ascii_edge(s@, e as int),
{
    let n = s.len();
    let mut i = p;
    loop
        invariant
            n == s@.len(),
            p <= i <= n,
            g::escaped_str(s@, p as int, i as int) == g::escaped_str(s@, p as int, p as int),
        decreases n - i,
    {
        if i >= n {
            return Some(n);
        }
        proof {
            lemma_str_run(s@, i as int);
        }
        let r = str_run_at(s, i);
        if r > i {
            i = r;
        } else if s[i] == 0x3b {
            if i + 1 < n && s[i + 1] == 0x3b {
                i = i + 2;
            } else {
                return None;
            }
        } else if i == p {
            return None;
        } else {
            return Some(i);
        }
    }
}

/// What is left of `t` from the byte offset `e`.
fn rest_from<'a>(t: &'a str, s: &[u8], e: usize) -> (r: &'a str)
    requires
        s@ == t.spec_bytes(),
        e <= s@.len(),
        ascii_edge(s@, e as int),
    ensures
        r.spec_bytes() == t.spec_bytes().skip(e as int),
{
    let r = substr_ascii(t, e, s.len());
    assert(r.spec_bytes() =~= t.spec_bytes().skip(e as int));
    r
}

/// Text of a quoted string value: plain runs and `;;` escapes. Gives what is
/// left and the text as it stands (escapes included).
pub fn parse_str<'a>(i: &'a str) -> (r: Result<(&'a str, &'a str), ParseError>)
    ensures
        match g::escaped_str(i.spec_bytes(), 0, 0) {
            Some(e) => r matches Ok((rest, text)) && rest.spec_bytes() == i.spec_bytes().skip(e)
                && text.spec_bytes() == i.spec_bytes().subrange(0, e),
            None => r matches Err(ParseError::Error),
        },
{
    let s = i.as_bytes();
    match escaped_str_at(s, 0) {
        Some(e) => Ok((rest_from(i, s, e), substr_ascii(i, 0, e))),
        None => Err(ParseError::Error),
    }
}

fn end_of_string_value_at(s: &[u8], p: usize) -> (r: Option<usize>)
    requires
        p <= s@.len(),
    ensures
        as_pos(r) == g::end_of_string_value(s@, p as int),
{
    let n = s.len();
    if byte_is(s, p, 0x22) && (p + 1 == n || (byte_is(s, p + 1, 0x3b) && p + 2 < n && s[p + 2]
        != 0x3b)) {
        Some(p + 1)
    } else {
        None
    }
}

/// A text value against the rule's result.
pub open spec fn same_text_value(expect: Result<(int, Seq<u8>, bool), ParseError>, r: Result<(usize, Cow<str>), ParseError>) -> bool {
    match expect {
        Ok((e, v, b)) => r matches Ok((q, c)) && q == e && cow_bytes(c) == v && cow_borrowed(c) == b,
        Err(k) => r == Err::<(usize, Cow<str>), ParseError>(k),
    }
}

fn string_value_at<'a>(t: &'a str, s: &[u8], p: usize) -> (r: Result<(usize, Cow<'a, str>), ParseError>)
    requires
        s@ == t.spec_bytes(),
        p <= s@.len(),
    ensures
        same_text_value(g::string_value(s@, p as int), r),
        r matches Ok((q, _)) ==> q <= s@.len() && ascii_edge(s@, q as int),
{
    let _n = s.len();
    if !byte_is(s, p, 0x22) {
        return Err(ParseError::Error);
    }
    if let Some(e) = end_of_string_value_at(s, p + 1) {
        let empty = substr_ascii(t, p + 1, p + 1);
        proof {
            lemma_str_valid(t);
        }
        assert(empty.spec_bytes() =~= Seq::<u8>::empty());
        return Ok((e, Cow::Borrowed(empty)));
    }
    match escaped_str_at(s, p + 1) {
        Some(e) => match end_of_string_value_at(s, e) {
            Some(f) => Ok((f, unescape_str(substr_ascii(t, p + 1, e)))),
            None => Err(ParseError::Failure),
        },
        None => Err(ParseError::Failure),
    }
}

/// A quoted text value: gives what is left and the unescaped text, borrowed
/// from `i` when it holds no `;`.
pub fn string_value<'a>(i: &'a str) -> (r: Result<(&'a str, Cow<'a, str>), ParseError>)
    ensures
        match g::string_value(i.spec_bytes(), 0) {
            Ok((e, v, b)) => r matches Ok((rest, c)) && rest.spec_bytes() == i.spec_bytes().skip(e)
                && cow_bytes(c) == v && cow_borrowed(c) == b,
            Err(k) => r matches Err(k2) && k2 == k,
        },
{
    let s = i.as_bytes();
    match string_value_at(i, s, 0) {
        Ok((e, c)) => Ok((rest_from(i, s, e), c)),
        Err(k) => Err(k),
    }
}

fn integer_value_at(s: &[u8], p: usize) -> (r: Option<(usize, i32)>)
    requires
        p <= s@.len(),
        ascii_edge(s@, p as int),
    ensures
        match g::integer_value(s@, p as int) {
            Some((e, v)) => r matches Some((q, w)) && q == e && w == v,
            None => r is None,
        },
        r matches Some((q, _)) ==> q <= s@.len() && ascii_edge(s@, q as int),
{
    proof {
        lemma_skip_class(s@, p as int, ByteClass::Digit);
    }
    let d = scan_class(s, p, ByteClass::Digit);
    if d == p || s[p] == 0x30 {
        return None;
    }
    let mut v: u64 = 0;
    let mut i = p;
    while i < d
        invariant
            p <= i <= d <= s@.len(),
            d == crate::scan::skip_class(s@, p as int, ByteClass::Digit),
            forall|j: int| p <= j < d ==> crate::scan::in_class(ByteClass::Digit, #[trigger] s@[j]),
            v <= i32::MAX ==> v == g::digits_value(s@, p as int, i as int),
            v > i32::MAX ==> g::digits_value(s@, p as int, i as int) > i32::MAX,
            v <= 0x1_0000_0000,
        decreases d - i,
    {
        assert(crate::scan::in_class(ByteClass::Digit, s@[i as int]));
        if v <= 0x7fff_ffff {
            v = v * 10 + (s[i] - 0x30) as u64;
        }
        i = i + 1;
        if v > 0x7fff_ffff {
            v = 0x1_0000_0000;
        }
    }
    if v <= 0x7fff_ffff {
        Some((d, v as i32))
    } else {
        None
    }
}

fn end_of_field_at(s: &[u8], p: usize) -> (r: bool)
    requires
        p <= s@.len(),
    ensures
        r == g::end_of_field(s@, p as int),
{
    let n = s.len();
    p == n || (byte_is(s, p, 0x3b) && (p + 1 == n || s[p + 1] != 0x3b))
}

fn unknown_run_at(s: &[u8], p: usize) -> (r: usize)
    requires
        p <= s@.len(),
    ensures
        r == g::unknown_run(s@, p as int),
        p <= r <= s@.len(),
        r < s@.len() ==> s@[r as int] == 0x3b,
{
    let n = s.len();
    let mut i = p;
    loop
        invariant
            n == s@.len(),
            p <= i <= n,
            g::unknown_run(s@, i as int) == g::unknown_run(s@, p as int),
        decreases n - i,
    {
        if i < n && s[i] != 0x3b {
            i = i + 1;
        } else if i < n && i + 1 < n && s[i] == 0x3b && s[i + 1] == 0x3b {
            i = i + 2;
        } else {
            return i;
        }
    }
}

/// Text of a field of unknown type: gives what is left and the text as it stands.
pub fn parse_unknown_str<'a>(i: &'a str) -> (r: Result<(&'a str, &'a str), ParseError>)
    ensures
        match g::parse_unknown_str(i.spec_bytes(), 0) {
            Some(e) => r matches Ok((rest, text)) && rest.spec_bytes() == i.spec_bytes().skip(e)
                && text.spec_bytes() == i.spec_bytes().subrange(0, e),
            None => r matches Err(ParseError::Error),
        },
{
    let s = i.as_bytes();
    let e = unknown_run_at(s, 0);
    if e > 0 {
        Ok((rest_from(i, s, e), substr_ascii(i, 0, e)))
    } else {
        Err(ParseError::Error)
    }
}

fn unknown_value_at<'a>(t: &'a str, s: &[u8], p: usize) -> (r: Result<(usize, Cow<'a, str>), ParseError>)
    requires
        s@ == t.spec_bytes(),
        p <= s@.len(),
        ascii_edge(s@, p as int),
    ensures
        same_text_value(g::unknown_value(s@, p as int), r),
        r matches Ok((q, _)) ==> q <= s@.len() && ascii_edge(s@, q as int),
{
    if end_of_field_at(s, p) {
        let empty = substr_ascii(t, p, p);
        proof {
            lemma_str_valid(t);
        }
        assert(empty.spec_bytes() =~= Seq::<u8>::empty());
        return Ok((p, Cow::Borrowed(empty)));
    }
    let e = unknown_run_at(s, p);
    if e > p {
        if end_of_field_at(s, e) {
            Ok((e, unescape_str(substr_ascii(t, p, e))))
        } else {
            Err(ParseError::Error)
        }
    } else {
        Err(ParseError::Error)
    }
}

/// The bytes of what the number reader left, if it read a number.
pub open spec fn rest_bytes(rest: Option<&[u8]>) -> Option<Seq<u8>> {
    match rest {
        Some(r) => Some(r@),
        None => None,
    }
}

fn number_end_at(t: &str, s: &[u8], p: usize, rest: Option<&[u8]>) -> (r: Option<usize>)
    requires
        s@ == t.spec_bytes(),
        p <= s@.len(),
    ensures
        as_pos(r) == g::number_end(s@, p as int, rest_bytes(rest)),
        r matches Some(e) ==> p <= e <= s@.len() && is_char_boundary(s@, e as int),
{
    let n = s.len();
    match rest {
        Some(rest) => {
            if rest.len() <= n && p <= n - rest.len() {
                let e = n - rest.len();
                if t.is_char_boundary(e) {
                    Some(e)
                } else {
                    None
                }
            } else {
                None
            }
        },
        None => None,
    }
}

/// A value against the rule's result.
pub open spec fn same_value(expect: Result<(int, ValueModel), ParseError>, r: Result<(usize, Value), ParseError>) -> bool {
    match expect {
        Ok((e, v)) => r matches Ok((q, x)) && q == e && x@ == v,
        Err(k) => r matches Err(k2) && k2 == k,
    }
}

fn k_value_at<'a>(t: &'a str, s: &[u8], a: usize, rest: Option<&[u8]>) -> (r: Result<(usize, Value<'a>), ParseError>)
    requires
        s@ == t.spec_bytes(),
        a <= s@.len(),
        is_char_boundary(s@, a as int),
    ensures
        same_value(g::k_value(s@, a as int, rest_bytes(rest)), r),
        r matches Ok((q, _)) ==> q <= s@.len() && is_char_boundary(s@, q as int),
{
    proof {
        lemma_str_valid(t);
    }
    if end_of_field_at(s, a) {
        let empty = substr(t, a, a);
        assert(empty.spec_bytes() =~= Seq::<u8>::empty());
        return Ok((a, Value::Unknown(Cow::Borrowed(empty))));
    }
    if let Some(e) = number_end_at(t, s, a, rest) {
        return Ok((e, Value::Number(substr(t, a, e))));
    }
    match string_value_at(t, s, a) {
        Ok((e, c)) => {
            proof {
                lemma_ascii_edge_is_boundary(s@, e as int);
            }
            Ok((e, Value::Text(c)))
        },
        Err(_) => Err(ParseError::Failure),
    }
}

/// The value of a `K` field, read from the start of `i` (just after the
/// `K`), given what nom's `double` left of `i` when it read a number
/// (`None`: it read none). Gives what is left and the value.
pub fn k_value<'a>(i: &'a str, rest: Option<&[u8]>) -> (r: Result<(&'a str, Value<'a>), ParseError>)
    ensures
        match g::k_value(i.spec_bytes(), 0, rest_bytes(rest)) {
            Ok((e, v)) => r matches Ok((tail, x)) && tail.spec_bytes() == i.spec_bytes().skip(e)
                && x@ == v,
            Err(k) => r matches Err(k2) && k2 == k,
        },
{
    let s = i.as_bytes();
    proof {
        lemma_str_valid(i);
        vstd::utf8::is_char_boundary_start_end_of_seq(s@);
    }
    match k_value_at(i, s, 0, rest) {
        Ok((e, v)) => {
            let tail = substr(i, e, s.len());
            assert(tail.spec_bytes() =~= i.spec_bytes().skip(e as int));
            Ok((tail, v))
        },
        Err(k) => Err(k),
    }
}

/// What nom's `double` leaves of `s` from `p`.
fn double_rest_at<'b>(s: &'b [u8], p: usize) -> (r: Option<&'b [u8]>)
    requires
        p <= s@.len(),
    ensures
        rest_bytes(r) == crate::number::nom_double_rest(s@.skip(p as int)),
{
    let (_, tail) = s.split_at(p);
    assert(tail@ =~= s@.skip(p as int));
    nom_double(tail)
}

/// A field against the rule's result.
pub open spec fn same_field(expect: Result<(int, FieldModel), ParseError>, r: Result<(usize, Field), ParseError>) -> bool {
    match expect {
        Ok((e, f)) => r matches Ok((q, x)) && q == e && x@ == f,
        Err(k) => r matches Err(k2) && k2 == k,
    }
}

fn field_at<'a>(t: &'a str, s: &[u8], p: usize) -> (r: Result<(usize, Field<'a>), ParseError>)
    requires
        s@ == t.spec_bytes(),
        p <= s@.len(),
    ensures
        same_field(g::field(s@, p as int), r),
        r matches Ok((q, _)) ==> q <= s@.len() && is_char_boundary(s@, q as int),
{
    let _n = s.len();
    if !byte_is(s, p, 0x3b) {
        return Err(ParseError::Error);
    }
    proof {
        lemma_skip_class(s@, p + 1, ByteClass::Alpha);
        lemma_str_valid(t);
    }
    let a = scan_class(s, p + 1, ByteClass::Alpha);
    if a == p + 1 {
        return Err(ParseError::Failure);
    }
    let ghost ty = s@.subrange(p + 1, a as int);
    assert(ty.len() == a - (p + 1) && ty[0] == s@[p + 1]);
    let one = a == p + 2;
    if one {
        assert(ty =~= seq![s@[p + 1]]);
    }
    if one && s[p + 1] == 0x4b {
        proof {
            lemma_ascii_edge_is_boundary(s@, a as int);
        }
        let rest = if end_of_field_at(s, a) {
            None
        } else {
            double_rest_at(s, a)
        };
        match k_value_at(t, s, a, rest) {
            Ok((e, v)) => Ok((e, Field { ty: FieldType::K, value: v })),
            Err(k) => Err(k),
        }
    } else if one && (s[p + 1] == 0x58 || s[p + 1] == 0x59) {
        let ty = if s[p + 1] == 0x58 {
            FieldType::X
        } else {
            FieldType::Y
        };
        match integer_value_at(s, a) {
            Some((e, v)) => {
                proof {
                    lemma_ascii_edge_is_boundary(s@, e as int);
                }
                Ok((e, Field { ty, value: Value::Integer(v) }))
            },
            None => Err(ParseError::Failure),
        }
    } else {
        assert(ty != seq![0x4bu8] && ty != seq![0x58u8] && ty != seq![0x59u8]) by {
            if ty.len() == 1 {
                assert(one);
            }
        }
        match unknown_value_at(t, s, a) {
            Ok((e, c)) => {
                proof {
                    lemma_ascii_edge_is_boundary(s@, e as int);
                }
                Ok((e, Field { ty: FieldType::Unknown(substr_ascii(t, p + 1, a)), value: Value::Unknown(c) }))
            },
            Err(k) => Err(k),
        }
    }
}

/// A field: `;`, its type, and its value. Gives what is left and the field.
pub fn field<'a>(i: &'a str) -> (r: Result<(&'a str, Field<'a>), ParseError>)
    ensures
        match g::field(i.spec_bytes(), 0) {
            Ok((e, f)) => r matches Ok((rest, x)) && rest.spec_bytes() == i.spec_bytes().skip(e)
                && x@ == f,
            Err(k) => r matches Err(k2) && k2 == k,
        },
{
    let s = i.as_bytes();
    match field_at(i, s, 0) {
        Ok((e, f)) => {
            proof {
                lemma_str_valid(i);
                vstd::utf8::is_char_boundary_start_end_of_seq(s@);
            }
            let rest = substr(i, e, s.len());
            assert(rest.spec_bytes() =~= i.spec_bytes().skip(e as int));
            Ok((rest, f))
        }
        Err(k) => Err(k),
    }
}

/// The fields read so far, in front of what the rest of the line gives.
pub open spec fn prepend_fields(done: Seq<FieldModel>, res: Result<(int, Seq<FieldModel>), ParseError>) -> Result<(int, Seq<FieldModel>), ParseError> {
    match res {
        Ok((e, rest)) => Ok((e, done + rest)),
        Err(k) => Err(k),
    }
}

fn fields_at<'a>(t: &'a str, s: &[u8], p: usize) -> (r: Result<(usize, Vec<Field<'a>>), ParseError>)
    requires
        s@ == t.spec_bytes(),
        p <= s@.len(),
    ensures
        match g::fields(s@, p as int) {
            Ok((e, fs)) => r matches Ok((q, v)) && q == e && fields_view(v@) == fs,
            Err(k) => r matches Err(k2) && k2 == k,
        },
{
    let n = s.len();
    let mut i = p;
    let mut out: Vec<Field<'a>> = Vec::new();
    assert(prepend_fields(fields_view(out@), g::fields(s@, p as int)) =~= g::fields(s@, p as int)) by {
        assert(fields_view(out@) =~= Seq::<FieldModel>::empty());
        match g::fields(s@, p as int) {
            Ok((e, fs)) => {
                assert(Seq::<FieldModel>::empty() + fs =~= fs);
            },
            Err(_) => {},
        }
    }
    loop
        invariant
            n == s@.len(),
            s@ == t.spec_bytes(),
            p <= i <= n,
            g::fields(s@, p as int) == prepend_fields(fields_view(out@), g::fields(s@, i as int)),
        decreases n - i,
    {
        match field_at(t, s, i) {
            Ok((q, f)) => {
                if i < q {
                    let ghost old_out = fields_view(out@);
                    let ghost fm = f@;
                    out.push(f);
                    proof {
                        assert(fields_view(out@) =~= old_out.push(fm));
                        match g::fields(s@, q as int) {
                            Ok((e, rest)) => {
                                assert(old_out + (seq![fm] + rest) =~= old_out.push(fm) + rest);
                            },
                            Err(_) => {},
                        }
                    }
                    i = q;
                } else {
                    return Err(ParseError::Error);
                }
            },
            Err(ParseError::Error) => {
                assert(fields_view(out@) + Seq::<FieldModel>::empty() =~= fields_view(out@));
                return Ok((i, out));
            },
            Err(ParseError::Failure) => {
                return Err(ParseError::Failure);
            },
        }
    }
}

fn record_at<'a>(t: &'a str, s: &[u8]) -> (r: Result<Record<'a>, ParseError>)
    requires
        s@ == t.spec_bytes(),
    ensures
        match g::record(s@) {
            Ok(rec) => r matches Ok(x) && x@ == rec,
            Err(k) => r matches Err(k2) && k2 == k,
        },
{
    proof {
        lemma_skip_class(s@, 0, ByteClass::Alpha);
    }
    let a = scan_class(s, 0, ByteClass::Alpha);
    if a == 0 {
        return Err(ParseError::Failure);
    }
    let ghost name = s@.subrange(0, a as int);
    assert(name.len() == a && name[0] == s@[0]);
    if a == 1 {
        assert(name =~= seq![s@[0]]);
    }
    if a == 2 {
        assert(name =~= seq![s@[0], s@[1]]);
    }
    let ty = if a == 2 && s[0] == 0x49 && s[1] == 0x44 {
        RecordType::ID
    } else if a == 1 && s[0] == 0x43 {
        RecordType::C
    } else if a == 1 && s[0] == 0x42 {
        RecordType::B
    } else if a == 1 && s[0] == 0x45 {
        RecordType::E
    } else {
        assert(name != seq![0x49u8, 0x44u8] && name != seq![0x43u8] && name != seq![0x42u8] && name
            != seq![0x45u8]) by {
            if name.len() == 2 {
                assert(name[1] == s@[1]);
            }
        }
        RecordType::Unknown(substr_ascii(t, 0, a))
    };
    match fields_at(t, s, a) {
        Ok((e, fields)) => if e == s.len() {
            Ok(Record { ty, fields })
        } else {
            Err(ParseError::Error)
        },
        Err(k) => Err(k),
    }
}

/// A whole record line: gives the (empty) rest and the record.
pub fn record<'a>(i: &'a str) -> (r: Result<(&'a str, Record<'a>), ParseError>)
    ensures
        match g::record(i.spec_bytes()) {
            Ok(rec) => r matches Ok((rest, x)) && rest.spec_bytes().len() == 0 && x@ == rec,
            Err(k) => r matches Err(k2) && k2 == k,
        },
{
    let s = i.as_bytes();
    match record_at(i, s) {
        Ok(x) => Ok((rest_from(i, s, s.len()), x)),
        Err(k) => Err(k),
    }
}

/// Parses one line of a SYLK file into a record.
pub fn parse_record<'a>(i: &'a str) -> (r: Result<Record<'a>, ParseError>)
    ensures
        match g::record(i.spec_bytes()) {
            Ok(rec) => r matches Ok(x) && x@ == rec,
            Err(_) => r is Err,
        },
{
    record_at(i, i.as_bytes())
}

} // verus!
