//! The grammar of the `.txt` data files, stated over their UTF-8 bytes.
//!
//! Each rule reads the bytes `s` from position `p`. A rule that matches gives
//! the position where it stopped and what it recognized; text is given as a
//! byte range `(start, end)` of `s`. Every delimiter of the grammar is ASCII,
//! so reading the bytes is the same as reading the characters.
use vstd::prelude::*;
use crate::scan::{ByteClass, skip_class, lemma_skip_class};

verus! {

pub open spec fn byte_at(s: Seq<u8>, p: int, b: u8) -> bool {
    0 <= p < s.len() && s[p] == b
}

/// `"\n"` or `"\r\n"`.
pub open spec fn line_ending(s: Seq<u8>, p: int) -> Option<int> {
    if byte_at(s, p, 0x0a) {
        Some(p + 1)
    } else if byte_at(s, p, 0x0d) && byte_at(s, p + 1, 0x0a) {
        Some(p + 2)
    } else {
        None
    }
}

/// The end of the input, or a line ending.
pub open spec fn eof_or_line_ending(s: Seq<u8>, p: int) -> Option<int> {
    if p == s.len() {
        Some(p)
    } else {
        line_ending(s, p)
    }
}

/// Zero or more spaces and tabs.
pub open spec fn space0(s: Seq<u8>, p: int) -> int {
    skip_class(s, p, ByteClass::Space)
}

/// Everything up to the next `'\r'`, `'\n'` or the end.
pub open spec fn rest_of_line(s: Seq<u8>, p: int) -> int {
    skip_class(s, p, ByteClass::NotLineEnd)
}

/// A line of spaces and tabs only.
pub open spec fn blank_line(s: Seq<u8>, p: int) -> Option<int> {
    line_ending(s, space0(s, p))
}

/// `//`, spaces, then the comment's text up to the end of the line.
pub open spec fn comment(s: Seq<u8>, p: int) -> Option<(int, (int, int))> {
    if byte_at(s, p, 0x2f) && byte_at(s, p + 1, 0x2f) {
        let a = space0(s, p + 2);
        let b = rest_of_line(s, a);
        match eof_or_line_ending(s, b) {
            Some(e) => Some((e, (a, b))),
            None => None,
        }
    } else {
        None
    }
}

/// `[name]` with an ASCII alphanumeric name, trailing spaces, then the end of the line.
pub open spec fn section_name(s: Seq<u8>, p: int) -> Option<(int, (int, int))> {
    let a = p + 1;
    let b = skip_class(s, a, ByteClass::AlphaNumeric);
    if byte_at(s, p, 0x5b) && b > a && byte_at(s, b, 0x5d) {
        match eof_or_line_ending(s, space0(s, b + 1)) {
            Some(e) => Some((e, (a, b))),
            None => None,
        }
    } else {
        None
    }
}

/// A non-empty key: everything up to `'='` or the end of the line.
pub open spec fn prop_key(s: Seq<u8>, p: int) -> Option<int> {
    let q = skip_class(s, p, ByteClass::PropKey);
    if q > p {
        Some(q)
    } else {
        None
    }
}

/// A line that is not a section header and holds no `'='`: its text is kept
/// as a value with the empty key.
pub open spec fn invalid_prop_line(s: Seq<u8>, p: int) -> Option<(int, (int, int))> {
    if byte_at(s, p, 0x5b) {
        None
    } else {
        match prop_key(s, p) {
            Some(q) => match eof_or_line_ending(s, q) {
                Some(e) => Some((e, (p, q))),
                None => None,
            },
            None => None,
        }
    }
}

/// `"text"` with non-empty text and no line break, then spaces. The text is
/// kept as it stands: a backslash escapes nothing.
pub open spec fn quoted_str(s: Seq<u8>, p: int) -> Option<(int, (int, int))> {
    let q = skip_class(s, p + 1, ByteClass::QuotedText);
    if byte_at(s, p, 0x22) && q > p + 1 && byte_at(s, q, 0x22) {
        Some((space0(s, q + 1), (p + 1, q)))
    } else {
        None
    }
}

/// A non-empty unquoted list item, followed by `','`, a line ending or the end.
pub open spec fn unquoted_item(s: Seq<u8>, p: int) -> Option<(int, (int, int))> {
    let q = skip_class(s, p, ByteClass::ListText);
    if q > p && (byte_at(s, q, 0x2c) || q == s.len() || line_ending(s, q) is Some) {
        Some((q, (p, q)))
    } else {
        None
    }
}

/// A `','` with spaces around it.
pub open spec fn value_sep(s: Seq<u8>, p: int) -> Option<int> {
    let a = space0(s, p);
    if byte_at(s, a, 0x2c) {
        Some(space0(s, a + 1))
    } else {
        None
    }
}

/// One step of a list value: an empty slot (a separator followed by another
/// separator or the end of the line), a quoted item, an unquoted item before
/// a separator, or a separator and then an item.
pub open spec fn list_item(s: Seq<u8>, p: int) -> Option<(int, Option<(int, int)>)> {
    if value_sep(s, p) is Some && ({
        let q = value_sep(s, p)->0;
        value_sep(s, q) is Some || line_ending(s, q) is Some || q == s.len()
    }) {
        Some((value_sep(s, p)->0, None))
    } else if quoted_str(s, p) is Some {
        let (q, r) = quoted_str(s, p)->0;
        Some((q, Some(r)))
    } else if unquoted_item(s, p) is Some && ({
        let (q, _) = unquoted_item(s, p)->0;
        value_sep(s, q) is Some
    }) {
        let (q, r) = unquoted_item(s, p)->0;
        Some((q, Some(r)))
    } else if value_sep(s, p) is Some {
        let q = value_sep(s, p)->0;
        if quoted_str(s, q) is Some {
            let (e, r) = quoted_str(s, q)->0;
            Some((e, Some(r)))
        } else if unquoted_item(s, q) is Some {
            let (e, r) = unquoted_item(s, q)->0;
            Some((e, Some(r)))
        } else {
            None
        }
    } else {
        None
    }
}

/// As many list steps as match from `p`: where they stop, how many matched,
/// and the items they hold (empty slots dropped).
pub open spec fn list_items(s: Seq<u8>, p: int) -> (int, nat, Seq<(int, int)>)
    decreases s.len() - p,
{
    match list_item(s, p) {
        Some((q, item)) => if p < q <= s.len() {
            let (e, n, rest) = list_items(s, q);
            (e, n + 1, match item {
                Some(r) => seq![r] + rest,
                None => rest,
            })
        } else {
            (p, 0, seq![])
        },
        None => (p, 0, seq![]),
    }
}

/// A property's value as read from the bytes.
pub enum RawValue {
    Str(int, int),
    Array(Seq<(int, int)>),
}

/// A single value that ends the line: `""` (the empty text) or a quoted text.
pub open spec fn single_quoted(s: Seq<u8>, p: int) -> Option<(int, (int, int))> {
    let inner = if byte_at(s, p, 0x22) && byte_at(s, p + 1, 0x22) {
        Some((p + 2, (p + 1, p + 1)))
    } else {
        quoted_str(s, p)
    };
    match inner {
        Some((q, r)) => if q == s.len() || line_ending(s, q) is Some {
            Some((q, r))
        } else {
            None
        },
        None => None,
    }
}

/// A property value: a single quoted text, else a list of at least one step
/// that ends the line, else the rest of the line as it stands.
pub open spec fn prop_value(s: Seq<u8>, p: int) -> (int, RawValue) {
    let (e, n, items) = list_items(s, p);
    if single_quoted(s, p) is Some {
        let (q, r) = single_quoted(s, p)->0;
        (q, RawValue::Str(r.0, r.1))
    } else if n > 0 && (e == s.len() || line_ending(s, e) is Some) {
        (e, RawValue::Array(items))
    } else {
        (rest_of_line(s, p), RawValue::Str(p, rest_of_line(s, p)))
    }
}

/// `key=value` then the end of the line; not on a section header.
pub open spec fn prop(s: Seq<u8>, p: int) -> Option<(int, ((int, int), RawValue))> {
    if byte_at(s, p, 0x5b) {
        None
    } else {
        match prop_key(s, p) {
            Some(q) => if byte_at(s, q, 0x3d) {
                let (r, v) = prop_value(s, q + 1);
                match eof_or_line_ending(s, r) {
                    Some(e) => Some((e, ((p, q), v))),
                    None => None,
                }
            } else {
                None
            },
            None => None,
        }
    }
}

/// One line inside a section: a blank line (nothing), or an optional comment
/// followed by a property or, failing that, a line without `'='` (kept under
/// the empty key).
pub open spec fn section_line(s: Seq<u8>, p: int) -> Option<(int, Option<((int, int), RawValue)>)> {
    if blank_line(s, p) is Some {
        Some((blank_line(s, p)->0, None))
    } else {
        let x = match comment(s, p) {
            Some((e, _)) => e,
            None => p,
        };
        if prop(s, x) is Some {
            let (e, kv) = prop(s, x)->0;
            Some((e, Some(kv)))
        } else if invalid_prop_line(s, x) is Some {
            let (e, r) = invalid_prop_line(s, x)->0;
            Some((e, Some(((x, x), RawValue::Str(r.0, r.1)))))
        } else {
            None
        }
    }
}

/// The lines of a section, as many as match, with their properties in order.
pub open spec fn section_lines(s: Seq<u8>, p: int) -> (int, Seq<((int, int), RawValue)>)
    decreases s.len() - p,
{
    match section_line(s, p) {
        Some((q, line)) => if p < q <= s.len() {
            let (e, rest) = section_lines(s, q);
            (e, match line {
                Some(kv) => seq![kv] + rest,
                None => rest,
            })
        } else {
            (p, seq![])
        },
        None => (p, seq![]),
    }
}

/// An optional comment, a section header, then the section's lines.
pub open spec fn section(s: Seq<u8>, p: int) -> Option<(int, ((int, int), Seq<((int, int), RawValue)>))> {
    let x = match comment(s, p) {
        Some((e, _)) => e,
        None => p,
    };
    match section_name(s, x) {
        Some((q, name)) => {
            let (e, props) = section_lines(s, q);
            Some((e, (name, props)))
        },
        None => None,
    }
}

/// A top-level item of a file.
pub enum RawItem {
    Comment(int, int),
    Section((int, int), Seq<((int, int), RawValue)>),
}

/// One top-level line of a file: a blank line, a section, or a comment.
pub open spec fn file_line(s: Seq<u8>, p: int) -> Option<(int, Option<RawItem>)> {
    if blank_line(s, p) is Some {
        Some((blank_line(s, p)->0, None))
    } else if section(s, p) is Some {
        let (e, (name, props)) = section(s, p)->0;
        Some((e, Some(RawItem::Section(name, props))))
    } else if comment(s, p) is Some {
        let (e, r) = comment(s, p)->0;
        Some((e, Some(RawItem::Comment(r.0, r.1))))
    } else {
        None
    }
}

/// The top-level lines from `p`, as many as match.
pub open spec fn file_lines(s: Seq<u8>, p: int) -> (int, Seq<RawItem>)
    decreases s.len() - p,
{
    match file_line(s, p) {
        Some((q, item)) => if p < q <= s.len() {
            let (e, rest) = file_lines(s, q);
            (e, match item {
                Some(it) => seq![it] + rest,
                None => rest,
            })
        } else {
            (p, seq![])
        },
        None => (p, seq![]),
    }
}

/// A whole file: its top-level lines must cover all of the input.
pub open spec fn file(s: Seq<u8>) -> Option<Seq<RawItem>> {
    let (e, items) = file_lines(s, 0);
    if e == s.len() {
        Some(items)
    } else {
        None
    }
}


proof fn lemma_space0(s: Seq<u8>, p: int)
    requires
        0 <= p <= s.len(),
    ensures
        p <= space0(s, p) <= s.len(),
        p <= rest_of_line(s, p) <= s.len(),
{
    lemma_skip_class(s, p, ByteClass::Space);
    lemma_skip_class(s, p, ByteClass::NotLineEnd);
}

proof fn lemma_comment_progress(s: Seq<u8>, p: int)
    requires
        0 <= p <= s.len(),
    ensures
        comment(s, p) matches Some((e, _)) ==> p < e <= s.len(),
{
    if byte_at(s, p, 0x2f) && byte_at(s, p + 1, 0x2f) {
        lemma_space0(s, p + 2);
        lemma_space0(s, space0(s, p + 2));
    }
}

proof fn lemma_quoted_progress(s: Seq<u8>, p: int)
    requires
        0 <= p <= s.len(),
    ensures
        quoted_str(s, p) matches Some((e, _)) ==> p < e <= s.len(),
{
    if byte_at(s, p, 0x22) {
        lemma_skip_class(s, p + 1, ByteClass::QuotedText);
        let q = skip_class(s, p + 1, ByteClass::QuotedText);
        if byte_at(s, q, 0x22) {
            lemma_space0(s, q + 1);
        }
    }
}

proof fn lemma_sep_progress(s: Seq<u8>, p: int)
    requires
        0 <= p <= s.len(),
    ensures
        value_sep(s, p) matches Some(e) ==> p < e <= s.len(),
{
    lemma_space0(s, p);
    let a = space0(s, p);
    if byte_at(s, a, 0x2c) {
        lemma_space0(s, a + 1);
    }
}

/// Every step of a list value reads at least one byte.
pub proof fn lemma_list_item_progress(s: Seq<u8>, p: int)
    requires
        0 <= p <= s.len(),
    ensures
        list_item(s, p) matches Some((e, _)) ==> p < e <= s.len(),
{
    lemma_sep_progress(s, p);
    lemma_quoted_progress(s, p);
    lemma_skip_class(s, p, ByteClass::ListText);
    if value_sep(s, p) is Some {
        let q = value_sep(s, p)->0;
        lemma_quoted_progress(s, q);
        lemma_skip_class(s, q, ByteClass::ListText);
    }
}

proof fn lemma_section_lines_monotone(s: Seq<u8>, p: int)
    requires
        0 <= p <= s.len(),
    ensures
        p <= section_lines(s, p).0 <= s.len(),
    decreases s.len() - p,
{
    match section_line(s, p) {
        Some((q, _)) => if p < q <= s.len() {
            lemma_section_lines_monotone(s, q);
        },
        None => {},
    }
}

/// Every line of a section reads at least one byte.
pub proof fn lemma_section_line_progress(s: Seq<u8>, p: int)
    requires
        0 <= p <= s.len(),
    ensures
        section_line(s, p) matches Some((e, _)) ==> p < e <= s.len(),
{
    lemma_space0(s, p);
    lemma_comment_progress(s, p);
    let x = match comment(s, p) {
        Some((e, _)) => e,
        None => p,
    };
    lemma_skip_class(s, x, ByteClass::PropKey);
    let q = skip_class(s, x, ByteClass::PropKey);
    if byte_at(s, q, 0x3d) {
        lemma_prop_value_end(s, q + 1);
    }
}

proof fn lemma_prop_value_end(s: Seq<u8>, p: int)
    requires
        0 <= p <= s.len(),
    ensures
        p <= prop_value(s, p).0 <= s.len(),
{
    lemma_space0(s, p);
    lemma_list_items_end(s, p);
    lemma_quoted_progress(s, p);
}

proof fn lemma_list_items_end(s: Seq<u8>, p: int)
    requires
        0 <= p <= s.len(),
    ensures
        p <= list_items(s, p).0 <= s.len(),
    decreases s.len() - p,
{
    match list_item(s, p) {
        Some((q, _)) => if p < q <= s.len() {
            lemma_list_items_end(s, q);
        },
        None => {},
    }
}

/// Every top-level line of a file reads at least one byte.
pub proof fn lemma_file_line_progress(s: Seq<u8>, p: int)
    requires
        0 <= p <= s.len(),
    ensures
        file_line(s, p) matches Some((e, _)) ==> p < e <= s.len(),
{
    lemma_space0(s, p);
    lemma_comment_progress(s, p);
    let x = match comment(s, p) {
        Some((e, _)) => e,
        None => p,
    };
    if section_name(s, x) is Some {
        lemma_skip_class(s, x + 1, ByteClass::AlphaNumeric);
        let (q, _) = section_name(s, x)->0;
        let b = skip_class(s, x + 1, ByteClass::AlphaNumeric);
        lemma_space0(s, b + 1);
        lemma_section_lines_monotone(s, q);
    }
}

/// A section's name is a non-empty run of ASCII letters and digits.
pub proof fn lemma_section_name_alphanumeric(s: Seq<u8>, p: int)
    requires
        0 <= p <= s.len(),
    ensures
        section_name(s, p) matches Some((_, (a, b))) ==> a < b && forall|i: int| a <= i < b
            ==> crate::scan::in_class(ByteClass::AlphaNumeric, #[trigger] s[i]),
{
    if byte_at(s, p, 0x5b) {
        lemma_skip_class(s, p + 1, ByteClass::AlphaNumeric);
    }
}

} // verus!
