//! The grammar of one SYLK record line, stated over its UTF-8 bytes.
//!
//! A record is a type name followed by fields `;X...`; inside a field's
//! text, `;;` stands for one `;`. As for the `.txt` grammar, every delimiter
//! is ASCII, so reading bytes is reading characters.
use vstd::prelude::*;
use vstd::utf8::is_char_boundary;
use crate::error::ParseError;
use crate::scan::{ByteClass, skip_class, lemma_skip_class};
use crate::sylk_types::{ValueModel, FieldTypeModel, FieldModel, RecordTypeModel, RecordModel};
use crate::txt_grammar::byte_at;
use crate::number::nom_double_rest;

verus! {

/// `;;` unescaped to `;`, from left to right.
pub open spec fn unescape(t: Seq<u8>) -> Seq<u8>
    decreases t.len(),
{
    if t.len() == 0 {
        seq![]
    } else if t.len() >= 2 && t[0] == 0x3b && t[1] == 0x3b {
        seq![0x3bu8] + unescape(t.skip(2))
    } else {
        seq![t[0]] + unescape(t.skip(1))
    }
}

/// No byte of `t` is a `;`: the text has nothing to unescape, and the
/// parser hands it out borrowed from the input.
pub open spec fn no_semicolon(t: Seq<u8>) -> bool {
    forall|i: int| 0 <= i < t.len() ==> t[i] != 0x3b
}

/// May the plain-text scanner of a quoted string take the byte at `y`: any
/// byte but `;` and `"`, or a `"` that is followed by a byte other than `;`.
pub open spec fn str_byte(s: Seq<u8>, y: int) -> bool {
    0 <= y < s.len() && ((s[y] != 0x3b && s[y] != 0x22) || (s[y] == 0x22 && y + 1 < s.len() && s[y
        + 1] != 0x3b))
}

pub open spec fn str_run(s: Seq<u8>, y: int) -> int
    decreases s.len() - y,
{
    if str_byte(s, y) {
        str_run(s, y + 1)
    } else {
        y
    }
}

/// The run of string bytes from `y`: it stays in bounds and stops at a byte that ends it.
pub proof fn lemma_str_run(s: Seq<u8>, y: int)
    requires
        0 <= y <= s.len(),
    ensures
        y <= str_run(s, y) <= s.len(),
        forall|i: int| y <= i < str_run(s, y) ==> str_byte(s, i),
        !str_byte(s, str_run(s, y)),
    decreases s.len() - y,
{
    if str_byte(s, y) {
        lemma_str_run(s, y + 1);
    }
}

/// The text of a string value from `p`: plain runs and `;;` escapes, up to
/// the end of the input or a `"` that closes the string. Scanning resumes at `i`.
pub open spec fn escaped_str(s: Seq<u8>, p: int, i: int) -> Option<int>
    decreases s.len() - i,
{
    if i < 0 || i >= s.len() {
        Some(s.len() as int)
    } else if str_run(s, i) > i {
        proof {
            lemma_str_run(s, i);
        }
        escaped_str(s, p, str_run(s, i))
    } else if s[i] == 0x3b {
        if i + 1 < s.len() && s[i + 1] == 0x3b {
            escaped_str(s, p, i + 2)
        } else {
            None
        }
    } else if i == p {
        None
    } else {
        Some(i)
    }
}

/// The end of a string value: a `"` at the end of the input, or a `"`
/// followed by a field separator (`;` not doubled).
pub open spec fn end_of_string_value(s: Seq<u8>, p: int) -> Option<int> {
    if byte_at(s, p, 0x22) && (p + 1 == s.len() || (byte_at(s, p + 1, 0x3b) && p + 2 < s.len() && s[p
        + 2] != 0x3b)) {
        Some(p + 1)
    } else {
        None
    }
}

/// A quoted text value; once the opening quote is read, a malformed text is
/// a failure. Gives the end, the unescaped text, and whether it is borrowed.
pub open spec fn string_value(s: Seq<u8>, p: int) -> Result<(int, Seq<u8>, bool), ParseError> {
    if !byte_at(s, p, 0x22) {
        Err(ParseError::Error)
    } else if end_of_string_value(s, p + 1) is Some {
        Ok((end_of_string_value(s, p + 1)->0, seq![], true))
    } else {
        match escaped_str(s, p + 1, p + 1) {
            Some(e) => match end_of_string_value(s, e) {
                Some(f) => Ok((f, unescape(s.subrange(p + 1, e)), no_semicolon(s.subrange(p + 1, e)))),
                None => Err(ParseError::Failure),
            },
            None => Err(ParseError::Failure),
        }
    }
}

/// The decimal value of the digits `s[p..d]`.
pub open spec fn digits_value(s: Seq<u8>, p: int, d: int) -> int
    decreases d - p,
{
    if d <= p {
        0
    } else {
        digits_value(s, p, d - 1) * 10 + (s[d - 1] - 0x30)
    }
}

/// A positive decimal integer without leading zero that fits in an `i32`.
pub open spec fn integer_value(s: Seq<u8>, p: int) -> Option<(int, i32)> {
    let d = skip_class(s, p, ByteClass::Digit);
    if d > p && s[p] != 0x30 && digits_value(s, p, d) <= i32::MAX {
        Some((d, digits_value(s, p, d) as i32))
    } else {
        None
    }
}

/// The end of the input, or a `;` that is not doubled (nothing is consumed).
pub open spec fn end_of_field(s: Seq<u8>, p: int) -> bool {
    p == s.len() || (byte_at(s, p, 0x3b) && (p + 1 == s.len() || s[p + 1] != 0x3b))
}

/// Text up to the end or to a `;` that is not doubled.
pub open spec fn unknown_run(s: Seq<u8>, y: int) -> int
    decreases s.len() - y,
{
    if 0 <= y < s.len() && s[y] != 0x3b {
        unknown_run(s, y + 1)
    } else if 0 <= y && y + 1 < s.len() && s[y] == 0x3b && s[y + 1] == 0x3b {
        unknown_run(s, y + 2)
    } else {
        y
    }
}

/// A non-empty text of a field of unknown type.
pub open spec fn parse_unknown_str(s: Seq<u8>, p: int) -> Option<int> {
    if unknown_run(s, p) > p {
        Some(unknown_run(s, p))
    } else {
        None
    }
}

/// The value of a field of unknown type: empty, or its unescaped text.
pub open spec fn unknown_value(s: Seq<u8>, p: int) -> Result<(int, Seq<u8>, bool), ParseError> {
    if end_of_field(s, p) {
        Ok((p, seq![], true))
    } else {
        match parse_unknown_str(s, p) {
            Some(r) => if end_of_field(s, r) {
                Ok((r, unescape(s.subrange(p, r)), no_semicolon(s.subrange(p, r))))
            } else {
                Err(ParseError::Error)
            },
            None => Err(ParseError::Error),
        }
    }
}

/// Where a number read from `p` ends, given what the number reader left of
/// `s.skip(p)` (`None`: it read no number). The end must lie on a character
/// boundary at or after `p`.
pub open spec fn number_end(s: Seq<u8>, p: int, rest: Option<Seq<u8>>) -> Option<int> {
    match rest {
        Some(r) => {
            let e = s.len() - r.len();
            if p <= e && is_char_boundary(s, e) {
                Some(e)
            } else {
                None
            }
        },
        None => None,
    }
}

/// The value of a `K` field from `a` (just after the `K`), given what the
/// number reader left of `s.skip(a)`: empty, a number, or a quoted string;
/// anything else is a failure.
pub open spec fn k_value(s: Seq<u8>, a: int, rest: Option<Seq<u8>>) -> Result<(int, ValueModel), ParseError> {
    if end_of_field(s, a) {
        Ok((a, ValueModel::Unknown(seq![], true)))
    } else if number_end(s, a, rest) is Some {
        let e = number_end(s, a, rest)->0;
        Ok((e, ValueModel::Number(s.subrange(a, e))))
    } else {
        match string_value(s, a) {
            Ok((e, v, b)) => Ok((e, ValueModel::Text(v, b))),
            Err(_) => Err(ParseError::Failure),
        }
    }
}

/// A field `;` + type + value. A missing type, and a malformed value of a
/// `K`, `X` or `Y` field, are failures.
pub open spec fn field(s: Seq<u8>, p: int) -> Result<(int, FieldModel), ParseError> {
    let a = skip_class(s, p + 1, ByteClass::Alpha);
    let ty = s.subrange(p + 1, a);
    if !byte_at(s, p, 0x3b) {
        Err(ParseError::Error)
    } else if a == p + 1 {
        Err(ParseError::Failure)
    } else if ty == seq![0x4bu8] {
        match k_value(s, a, nom_double_rest(s.skip(a))) {
            Ok((e, v)) => Ok((e, FieldModel { ty: FieldTypeModel::K, value: v })),
            Err(k) => Err(k),
        }
    } else if ty == seq![0x58u8] || ty == seq![0x59u8] {
        let fty = if ty == seq![0x58u8] {
            FieldTypeModel::X
        } else {
            FieldTypeModel::Y
        };
        match integer_value(s, a) {
            Some((e, v)) => Ok((e, FieldModel { ty: fty, value: ValueModel::Integer(v) })),
            None => Err(ParseError::Failure),
        }
    } else {
        match unknown_value(s, a) {
            Ok((e, v, b)) => Ok((e, FieldModel { ty: FieldTypeModel::Unknown(ty), value: ValueModel::Unknown(v, b) })),
            Err(k) => Err(k),
        }
    }
}

/// As many fields as match from `p`; a failure stops everything, a field
/// that reads nothing is an error.
pub open spec fn fields(s: Seq<u8>, p: int) -> Result<(int, Seq<FieldModel>), ParseError>
    decreases s.len() - p,
{
    match field(s, p) {
        Ok((q, f)) => if p < q <= s.len() {
            match fields(s, q) {
                Ok((e, rest)) => Ok((e, seq![f] + rest)),
                Err(k) => Err(k),
            }
        } else {
            Err(ParseError::Error)
        },
        Err(ParseError::Error) => Ok((p, seq![])),
        Err(ParseError::Failure) => Err(ParseError::Failure),
    }
}

pub open spec fn record_type(t: Seq<u8>) -> RecordTypeModel {
    if t == seq![0x49u8, 0x44u8] {
        RecordTypeModel::ID
    } else if t == seq![0x43u8] {
        RecordTypeModel::C
    } else if t == seq![0x42u8] {
        RecordTypeModel::B
    } else if t == seq![0x45u8] {
        RecordTypeModel::E
    } else {
        RecordTypeModel::Unknown(t)
    }
}

/// A whole record line: its type name (missing: a failure), then fields that
/// must cover the rest of the line.
pub open spec fn record(s: Seq<u8>) -> Result<RecordModel, ParseError> {
    let a = skip_class(s, 0, ByteClass::Alpha);
    if a == 0 {
        Err(ParseError::Failure)
    } else {
        match fields(s, a) {
            Ok((e, fs)) => if e == s.len() {
                Ok(RecordModel { ty: record_type(s.subrange(0, a)), fields: fs })
            } else {
                Err(ParseError::Error)
            },
            Err(k) => Err(k),
        }
    }
}


proof fn lemma_escaped_str_bound(s: Seq<u8>, p: int, i: int)
    requires
        0 <= p <= i <= s.len(),
    ensures
        escaped_str(s, p, i) matches Some(e) ==> i <= e <= s.len(),
    decreases s.len() - i,
{
    if i < s.len() {
        lemma_str_run(s, i);
        if str_run(s, i) > i {
            lemma_escaped_str_bound(s, p, str_run(s, i));
        } else if s[i] == 0x3b && i + 1 < s.len() && s[i + 1] == 0x3b {
            lemma_escaped_str_bound(s, p, i + 2);
        }
    }
}

proof fn lemma_unknown_run_bound(s: Seq<u8>, y: int)
    requires
        0 <= y <= s.len(),
    ensures
        y <= unknown_run(s, y) <= s.len(),
    decreases s.len() - y,
{
    if 0 <= y < s.len() && s[y] != 0x3b {
        lemma_unknown_run_bound(s, y + 1);
    } else if 0 <= y && y + 1 < s.len() && s[y] == 0x3b && s[y + 1] == 0x3b {
        lemma_unknown_run_bound(s, y + 2);
    }
}

/// Every field reads at least its `;` and type letter.
pub proof fn lemma_field_progress(s: Seq<u8>, p: int)
    requires
        0 <= p <= s.len(),
    ensures
        field(s, p) matches Ok((e, _)) ==> p < e <= s.len(),
{
    if byte_at(s, p, 0x3b) {
        lemma_skip_class(s, p + 1, ByteClass::Alpha);
        let a = skip_class(s, p + 1, ByteClass::Alpha);
        lemma_skip_class(s, a, ByteClass::Digit);
        if a < s.len() {
            lemma_escaped_str_bound(s, a + 1, a + 1);
        }
        lemma_unknown_run_bound(s, a);
    }
}


proof fn lemma_digits_value_positive(s: Seq<u8>, p: int, d: int)
    requires
        0 <= p < d <= s.len(),
        0x31 <= s[p] <= 0x39,
        forall|i: int| p <= i < d ==> 0x30 <= #[trigger] s[i] <= 0x39,
    ensures
        digits_value(s, p, d) >= 1,
    decreases d - p,
{
    reveal_with_fuel(digits_value, 2);
    if d > p + 1 {
        lemma_digits_value_positive(s, p, d - 1);
    }
}

/// An X or Y field holds a positive integer.
pub open spec fn positive_coordinate(f: FieldModel) -> bool {
    (f.ty == FieldTypeModel::X || f.ty == FieldTypeModel::Y) ==> (f.value matches ValueModel::Integer(
        v) && v >= 1)
}

proof fn lemma_field_positive(s: Seq<u8>, p: int)
    requires
        0 <= p <= s.len(),
    ensures
        field(s, p) matches Ok((_, f)) ==> positive_coordinate(f),
{
    if byte_at(s, p, 0x3b) {
        lemma_skip_class(s, p + 1, ByteClass::Alpha);
        let a = skip_class(s, p + 1, ByteClass::Alpha);
        lemma_skip_class(s, a, ByteClass::Digit);
        let d = skip_class(s, a, ByteClass::Digit);
        if d > a && s[a] != 0x30 {
            assert(crate::scan::in_class(ByteClass::Digit, s[a]));
            assert forall|i: int| a <= i < d implies 0x30 <= #[trigger] s[i] <= 0x39 by {
                assert(crate::scan::in_class(ByteClass::Digit, s[i]));
            }
            lemma_digits_value_positive(s, a, d);
        }
    }
}

proof fn lemma_fields_positive(s: Seq<u8>, p: int)
    requires
        0 <= p <= s.len(),
    ensures
        fields(s, p) matches Ok((_, fs)) ==> forall|i: int| 0 <= i < fs.len() ==> positive_coordinate(#[trigger] fs[i]),
    decreases s.len() - p,
{
    lemma_field_positive(s, p);
    match field(s, p) {
        Ok((q, f)) => if p < q <= s.len() {
            lemma_fields_positive(s, q);
            if let Ok((e, rest)) = fields(s, q) {
                let fs = seq![f] + rest;
                assert forall|i: int| 0 <= i < fs.len() implies positive_coordinate(#[trigger] fs[i]) by {
                    if i > 0 {
                        assert(fs[i] == rest[i - 1]);
                    }
                }
            }
        },
        _ => {},
    }
}

/// Every X and Y field of a parsed record holds a positive integer.
pub proof fn lemma_record_coordinates_positive(s: Seq<u8>)
    ensures
        record(s) matches Ok(rec) ==> forall|i: int| 0 <= i < rec.fields.len() ==> positive_coordinate(#[trigger] rec.fields[i]),
{
    lemma_skip_class(s, 0, ByteClass::Alpha);
    lemma_fields_positive(s, skip_class(s, 0, ByteClass::Alpha));
}

} // verus!
