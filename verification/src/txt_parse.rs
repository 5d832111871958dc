//! The `.txt` data file parser.
use vstd::prelude::*;
use vstd::string::StringSliceAdditionalSpecFns;
use crate::assoc::{assoc_build, assoc_insert, assoc_insert_str, pairs_view};
use crate::error::ParseError;
use crate::scan::{ByteClass, scan_class, lemma_skip_class};
use crate::txt_grammar as g;
use crate::txt_grammar::{RawValue, RawItem};
use crate::txt_types::{
    PropValue, Section, Item, text, value_model, prop_list_model, section_model, item_model,
    sections_in, SectionModel, ItemModel,
};
use crate::utf8_slice::{ascii_edge, substr_ascii};

verus! {

/// What the byte-level parsers below start from: the bytes of `t`, and a
/// position that touches an ASCII byte.
pub open spec fn at_edge(t: &str, s: &[u8], p: usize) -> bool {
    &&& s@ == t.spec_bytes()
    &&& p <= s@.len()
    &&& ascii_edge(s@, p as int)
}

pub open spec fn as_pos(r: Option<usize>) -> Option<int> {
    match r {
        Some(q) => Some(q as int),
        None => None,
    }
}

/// A position and a text that a rule recognized, against the rule's result.
pub open spec fn same_text(s: Seq<u8>, expect: Option<(int, (int, int))>, r: Option<(usize, &str)>) -> bool {
    match expect {
        Some((e, rg)) => r matches Some((q, t)) && q == e && t.spec_bytes() == text(s, rg)
            && ascii_edge(s, e),
        None => r is None,
    }
}

fn byte_is(s: &[u8], p: usize, b: u8) -> (r: bool)
    ensures
        r == g::byte_at(s@, p as int, b),
{
    p < s.len() && s[p] == b
}

fn line_ending(s: &[u8], p: usize) -> (r: Option<usize>)
    requires
        p <= s@.len(),
    ensures
        as_pos(r) == g::line_ending(s@, p as int),
        r matches Some(q) ==> q <= s@.len() && ascii_edge(s@, q as int),
{
    let _n = s.len();
    if byte_is(s, p, 0x0a) {
        Some(p + 1)
    } else if byte_is(s, p, 0x0d) && byte_is(s, p + 1, 0x0a) {
        Some(p + 2)
    } else {
        None
    }
}

fn eof_or_line_ending(s: &[u8], p: usize) -> (r: Option<usize>)
    requires
        p <= s@.len(),
    ensures
        as_pos(r) == g::eof_or_line_ending(s@, p as int),
        r matches Some(q) ==> q <= s@.len() && ascii_edge(s@, q as int),
{
    if p == s.len() {
        Some(p)
    } else {
        line_ending(s, p)
    }
}

fn blank_line(s: &[u8], p: usize) -> (r: Option<usize>)
    requires
        p <= s@.len(),
    ensures
        as_pos(r) == g::blank_line(s@, p as int),
        r matches Some(q) ==> q <= s@.len() && ascii_edge(s@, q as int),
{
    proof {
        lemma_skip_class(s@, p as int, ByteClass::Space);
    }
    let a = scan_class(s, p, ByteClass::Space);
    line_ending(s, a)
}

fn comment_at<'a>(t: &'a str, s: &[u8], p: usize) -> (r: Option<(usize, &'a str)>)
    requires
        at_edge(t, s, p),
    ensures
        same_text(s@, g::comment(s@, p as int), r),
{
    let _n = s.len();
    if byte_is(s, p, 0x2f) && byte_is(s, p + 1, 0x2f) {
        proof {
            lemma_skip_class(s@, p + 2, ByteClass::Space);
        }
        let a = scan_class(s, p + 2, ByteClass::Space);
        proof {
            lemma_skip_class(s@, a as int, ByteClass::NotLineEnd);
        }
        let b = scan_class(s, a, ByteClass::NotLineEnd);
        match eof_or_line_ending(s, b) {
            Some(e) => Some((e, substr_ascii(t, a, b))),
            None => None,
        }
    } else {
        None
    }
}

fn section_name_at<'a>(t: &'a str, s: &[u8], p: usize) -> (r: Option<(usize, &'a str)>)
    requires
        at_edge(t, s, p),
    ensures
        same_text(s@, g::section_name(s@, p as int), r),
{
    let _n = s.len();
    if !byte_is(s, p, 0x5b) {
        return None;
    }
    proof {
        lemma_skip_class(s@, p + 1, ByteClass::AlphaNumeric);
    }
    let b = scan_class(s, p + 1, ByteClass::AlphaNumeric);
    if b > p + 1 && byte_is(s, b, 0x5d) {
        proof {
            lemma_skip_class(s@, b + 1, ByteClass::Space);
        }
        let c = scan_class(s, b + 1, ByteClass::Space);
        match eof_or_line_ending(s, c) {
            Some(e) => Some((e, substr_ascii(t, p + 1, b))),
            None => None,
        }
    } else {
        None
    }
}

fn prop_key_at(s: &[u8], p: usize) -> (r: Option<usize>)
    requires
        p <= s@.len(),
        ascii_edge(s@, p as int),
    ensures
        as_pos(r) == g::prop_key(s@, p as int),
        r matches Some(q) ==> q <= s@.len() && ascii_edge(s@, q as int),
{
    proof {
        lemma_skip_class(s@, p as int, ByteClass::PropKey);
    }
    let q = scan_class(s, p, ByteClass::PropKey);
    if q > p {
        Some(q)
    } else {
        None
    }
}

fn invalid_prop_line_at<'a>(t: &'a str, s: &[u8], p: usize) -> (r: Option<(usize, &'a str)>)
    requires
        at_edge(t, s, p),
    ensures
        same_text(s@, g::invalid_prop_line(s@, p as int), r),
{
    if byte_is(s, p, 0x5b) {
        return None;
    }
    match prop_key_at(s, p) {
        Some(q) => match eof_or_line_ending(s, q) {
            Some(e) => Some((e, substr_ascii(t, p, q))),
            None => None,
        },
        None => None,
    }
}

fn quoted_str_at<'a>(t: &'a str, s: &[u8], p: usize) -> (r: Option<(usize, &'a str)>)
    requires
        at_edge(t, s, p),
    ensures
        same_text(s@, g::quoted_str(s@, p as int), r),
{
    let _n = s.len();
    if !byte_is(s, p, 0x22) {
        return None;
    }
    proof {
        lemma_skip_class(s@, p + 1, ByteClass::QuotedText);
    }
    let q = scan_class(s, p + 1, ByteClass::QuotedText);
    if q > p + 1 && byte_is(s, q, 0x22) {
        proof {
            lemma_skip_class(s@, q + 1, ByteClass::Space);
        }
        let e = scan_class(s, q + 1, ByteClass::Space);
        Some((e, substr_ascii(t, p + 1, q)))
    } else {
        None
    }
}

fn unquoted_item_at<'a>(t: &'a str, s: &[u8], p: usize) -> (r: Option<(usize, &'a str)>)
    requires
        at_edge(t, s, p),
    ensures
        same_text(s@, g::unquoted_item(s@, p as int), r),
{
    proof {
        lemma_skip_class(s@, p as int, ByteClass::ListText);
    }
    let q = scan_class(s, p, ByteClass::ListText);
    if q > p && (byte_is(s, q, 0x2c) || q == s.len() || line_ending(s, q).is_some()) {
        Some((q, substr_ascii(t, p, q)))
    } else {
        None
    }
}

fn value_sep_at(s: &[u8], p: usize) -> (r: Option<usize>)
    requires
        p <= s@.len(),
    ensures
        as_pos(r) == g::value_sep(s@, p as int),
        r matches Some(q) ==> q <= s@.len() && ascii_edge(s@, q as int),
{
    let _n = s.len();
    proof {
        lemma_skip_class(s@, p as int, ByteClass::Space);
    }
    let a = scan_class(s, p, ByteClass::Space);
    if byte_is(s, a, 0x2c) {
        proof {
            lemma_skip_class(s@, a + 1, ByteClass::Space);
        }
        Some(scan_class(s, a + 1, ByteClass::Space))
    } else {
        None
    }
}


/// A list step that the parser took, against the rule's result.
pub open spec fn same_item(s: Seq<u8>, expect: Option<(int, Option<(int, int)>)>, r: Option<(usize, Option<&str>)>) -> bool {
    match expect {
        Some((e, item)) => r matches Some((q, it)) && q == e && q <= s.len() && ascii_edge(s, e)
            && match item {
            Some(rg) => it matches Some(x) && x.spec_bytes() == text(s, rg),
            None => it is None,
        },
        None => r is None,
    }
}

pub open spec fn texts_view(v: Seq<&str>) -> Seq<Seq<u8>> {
    v.map_values(|x: &str| x.spec_bytes())
}

pub open spec fn ranges_text(s: Seq<u8>, v: Seq<(int, int)>) -> Seq<Seq<u8>> {
    v.map_values(|r: (int, int)| text(s, r))
}

fn list_item_at<'a>(t: &'a str, s: &[u8], p: usize) -> (r: Option<(usize, Option<&'a str>)>)
    requires
        at_edge(t, s, p),
    ensures
        same_item(s@, g::list_item(s@, p as int), r),
{
    let sep = value_sep_at(s, p);
    if let Some(q) = sep {
        if value_sep_at(s, q).is_some() || line_ending(s, q).is_some() || q == s.len() {
            return Some((q, None));
        }
    }
    if let Some((q, x)) = quoted_str_at(t, s, p) {
        return Some((q, Some(x)));
    }
    if let Some((q, x)) = unquoted_item_at(t, s, p) {
        if value_sep_at(s, q).is_some() {
            return Some((q, Some(x)));
        }
    }
    if let Some(q) = sep {
        if let Some((e, x)) = quoted_str_at(t, s, q) {
            return Some((e, Some(x)));
        }
        if let Some((e, x)) = unquoted_item_at(t, s, q) {
            return Some((e, Some(x)));
        }
    }
    None
}

/// The list steps from `p`: where they stop, whether any matched, and the items.
fn list_items_at<'a>(t: &'a str, s: &[u8], p: usize) -> (r: (usize, bool, Vec<&'a str>))
    requires
        at_edge(t, s, p),
    ensures
        ({
            let (e, n, items) = g::list_items(s@, p as int);
            &&& r.0 == e
            &&& r.0 <= s@.len()
            &&& ascii_edge(s@, e)
            &&& r.1 == (n > 0)
            &&& texts_view(r.2@) == ranges_text(s@, items)
        }),
{
    let mut i = p;
    let mut any = false;
    let mut out: Vec<&'a str> = Vec::new();
    let ghost mut done: Seq<(int, int)> = seq![];
    loop
        invariant
            at_edge(t, s, i),
            p <= i,
            ({
                let (e0, n0, items0) = g::list_items(s@, p as int);
                let (e1, n1, items1) = g::list_items(s@, i as int);
                &&& e0 == e1
                &&& (n0 > 0) == (any || n1 > 0)
                &&& items0 == done + items1
            }),
            texts_view(out@) == ranges_text(s@, done),
        ensures
            g::list_items(s@, i as int) == (i as int, 0nat, Seq::<(int, int)>::empty()),
        decreases s@.len() - i,
    {
        match list_item_at(t, s, i) {
            Some((q, it)) => {
                if i < q {
                    let ghost rest = g::list_items(s@, q as int);
                    match it {
                        Some(x) => {
                            let ghost (_, item) = g::list_item(s@, i as int)->0;
                            let ghost rg = item->0;
                            let ghost old_out = out@;
                            let ghost old_done = done;
                            proof {
                                assert(done + (seq![rg] + rest.2) =~= done.push(rg) + rest.2);
                                done = done.push(rg);
                            }
                            out.push(x);
                            assert(texts_view(out@) =~= texts_view(old_out).push(x.spec_bytes()));
                            assert(ranges_text(s@, done) =~= ranges_text(s@, old_done).push(
                                text(s@, rg),
                            ));
                        },
                        None => {},
                    }
                    any = true;
                    i = q;
                } else {
                    break ;
                }
            },
            None => {
                break ;
            },
        }
    }
    assert(done + Seq::<(int, int)>::empty() =~= done);
    (i, any, out)
}

fn single_quoted_at<'a>(t: &'a str, s: &[u8], p: usize) -> (r: Option<(usize, &'a str)>)
    requires
        at_edge(t, s, p),
    ensures
        same_text(s@, g::single_quoted(s@, p as int), r),
{
    let _n = s.len();
    let inner = if byte_is(s, p, 0x22) && byte_is(s, p + 1, 0x22) {
        Some((p + 2, substr_ascii(t, p + 1, p + 1)))
    } else {
        quoted_str_at(t, s, p)
    };
    match inner {
        Some((q, x)) => if q == s.len() || line_ending(s, q).is_some() {
            Some((q, x))
        } else {
            None
        },
        None => None,
    }
}

fn prop_value_at<'a>(t: &'a str, s: &[u8], p: usize) -> (r: (usize, PropValue<'a>))
    requires
        at_edge(t, s, p),
    ensures
        ({
            let (e, v) = g::prop_value(s@, p as int);
            &&& r.0 == e
            &&& r.0 <= s@.len()
            &&& ascii_edge(s@, e)
            &&& r.1@ == value_model(s@, v)
        }),
{
    if let Some((q, x)) = single_quoted_at(t, s, p) {
        return (q, PropValue::String(x));
    }
    let (e, any, items) = list_items_at(t, s, p);
    if any && (e == s.len() || line_ending(s, e).is_some()) {
        return (e, PropValue::Array(items));
    }
    proof {
        lemma_skip_class(s@, p as int, ByteClass::NotLineEnd);
    }
    let b = scan_class(s, p, ByteClass::NotLineEnd);
    (b, PropValue::String(substr_ascii(t, p, b)))
}

/// A property as the parser read it, against the rule's result.
pub open spec fn same_prop(s: Seq<u8>, expect: Option<(int, ((int, int), RawValue))>, r: Option<(usize, (&str, PropValue))>) -> bool {
    match expect {
        Some((e, (k, v))) => r matches Some((q, (key, value))) && q == e && q <= s.len()
            && ascii_edge(s, e) && key.spec_bytes() == text(s, k) && value@ == value_model(s, v),
        None => r is None,
    }
}

fn prop_at<'a>(t: &'a str, s: &[u8], p: usize) -> (r: Option<(usize, (&'a str, PropValue<'a>))>)
    requires
        at_edge(t, s, p),
    ensures
        same_prop(s@, g::prop(s@, p as int), r),
{
    let _n = s.len();
    if byte_is(s, p, 0x5b) {
        return None;
    }
    match prop_key_at(s, p) {
        Some(q) => if byte_is(s, q, 0x3d) {
            let (r, v) = prop_value_at(t, s, q + 1);
            match eof_or_line_ending(s, r) {
                Some(e) => Some((e, (substr_ascii(t, p, q), v))),
                None => None,
            }
        } else {
            None
        },
        None => None,
    }
}


/// A line of a section as the parser read it, against the rule's result.
pub open spec fn same_line(s: Seq<u8>, expect: Option<(int, Option<((int, int), RawValue)>)>, r: Option<(usize, Option<(&str, PropValue)>)>) -> bool {
    match expect {
        Some((e, line)) => r matches Some((q, l)) && q == e && q <= s.len() && ascii_edge(s, e)
            && match line {
            Some((k, v)) => l matches Some((key, value)) && key.spec_bytes() == text(s, k)
                && value@ == value_model(s, v),
            None => l is None,
        },
        None => r is None,
    }
}

fn section_line_at<'a>(t: &'a str, s: &[u8], p: usize) -> (r: Option<(usize, Option<(&'a str, PropValue<'a>)>)>)
    requires
        at_edge(t, s, p),
    ensures
        same_line(s@, g::section_line(s@, p as int), r),
{
    if let Some(q) = blank_line(s, p) {
        return Some((q, None));
    }
    let x = match comment_at(t, s, p) {
        Some((e, _)) => e,
        None => p,
    };
    if let Some((e, kv)) = prop_at(t, s, x) {
        return Some((e, Some(kv)));
    }
    if let Some((e, line)) = invalid_prop_line_at(t, s, x) {
        return Some((e, Some((substr_ascii(t, x, x), PropValue::String(line)))));
    }
    None
}

proof fn lemma_build_push(l: Seq<(Seq<u8>, crate::txt_types::PropValueModel)>, x: (Seq<u8>, crate::txt_types::PropValueModel))
    ensures
        assoc_build(l.push(x)) == assoc_insert(assoc_build(l), x.0, x.1),
{
    assert(l.push(x).drop_last() =~= l);
}

/// The lines of a section from `p`, with the properties gathered key by key.
fn section_lines_at<'a>(t: &'a str, s: &[u8], p: usize) -> (r: (usize, Vec<(&'a str, PropValue<'a>)>))
    requires
        at_edge(t, s, p),
    ensures
        ({
            let (e, props) = g::section_lines(s@, p as int);
            &&& r.0 == e
            &&& r.0 <= s@.len()
            &&& ascii_edge(s@, e)
            &&& pairs_view(r.1@) == assoc_build(prop_list_model(s@, props))
        }),
{
    let mut i = p;
    let mut acc: Vec<(&'a str, PropValue<'a>)> = Vec::new();
    let ghost mut done: Seq<((int, int), RawValue)> = seq![];
    assert(pairs_view(acc@) =~= assoc_build(prop_list_model(s@, done)));
    loop
        invariant
            at_edge(t, s, i),
            p <= i,
            ({
                let (e0, props0) = g::section_lines(s@, p as int);
                let (e1, props1) = g::section_lines(s@, i as int);
                &&& e0 == e1
                &&& props0 == done + props1
            }),
            pairs_view(acc@) == assoc_build(prop_list_model(s@, done)),
        ensures
            g::section_lines(s@, i as int) == (i as int, Seq::<((int, int), RawValue)>::empty()),
        decreases s@.len() - i,
    {
        match section_line_at(t, s, i) {
            Some((q, line)) => {
                if i < q {
                    let ghost rest = g::section_lines(s@, q as int);
                    match line {
                        Some((key, value)) => {
                            let ghost (_, l) = g::section_line(s@, i as int)->0;
                            let ghost kv = l->0;
                            proof {
                                assert(done + (seq![kv] + rest.1) =~= done.push(kv) + rest.1);
                                assert(prop_list_model(s@, done.push(kv)) =~= prop_list_model(
                                    s@,
                                    done,
                                ).push((text(s@, kv.0), value_model(s@, kv.1))));
                                lemma_build_push(
                                    prop_list_model(s@, done),
                                    (text(s@, kv.0), value_model(s@, kv.1)),
                                );
                                done = done.push(kv);
                            }
                            assoc_insert_str(&mut acc, key, value);
                        },
                        None => {},
                    }
                    i = q;
                } else {
                    break ;
                }
            },
            None => {
                break ;
            },
        }
    }
    assert(done + Seq::<((int, int), RawValue)>::empty() =~= done);
    (i, acc)
}

/// A section as the parser read it, against the rule's result.
pub open spec fn same_section(s: Seq<u8>, expect: Option<(int, ((int, int), Seq<((int, int), RawValue)>))>, r: Option<(usize, Section)>) -> bool {
    match expect {
        Some((e, (name, props))) => r matches Some((q, sec)) && q == e && q <= s.len()
            && ascii_edge(s, e) && sec@ == section_model(s, name, props),
        None => r is None,
    }
}

fn section_at<'a>(t: &'a str, s: &[u8], p: usize) -> (r: Option<(usize, Section<'a>)>)
    requires
        at_edge(t, s, p),
    ensures
        same_section(s@, g::section(s@, p as int), r),
{
    let x = match comment_at(t, s, p) {
        Some((e, _)) => e,
        None => p,
    };
    match section_name_at(t, s, x) {
        Some((q, name)) => {
            let (e, props) = section_lines_at(t, s, q);
            Some((e, Section { name, props }))
        },
        None => None,
    }
}

pub open spec fn same_file_line(s: Seq<u8>, expect: Option<(int, Option<RawItem>)>, r: Option<(usize, Option<Item>)>) -> bool {
    match expect {
        Some((e, item)) => r matches Some((q, it)) && q == e && q <= s.len() && ascii_edge(s, e)
            && match item {
            Some(ri) => it matches Some(x) && x@ == item_model(s, ri),
            None => it is None,
        },
        None => r is None,
    }
}

fn file_line_at<'a>(t: &'a str, s: &[u8], p: usize) -> (r: Option<(usize, Option<Item<'a>>)>)
    requires
        at_edge(t, s, p),
    ensures
        same_file_line(s@, g::file_line(s@, p as int), r),
{
    if let Some(q) = blank_line(s, p) {
        return Some((q, None));
    }
    if let Some((e, sec)) = section_at(t, s, p) {
        return Some((e, Some(Item::Section(sec))));
    }
    if let Some((e, c)) = comment_at(t, s, p) {
        return Some((e, Some(Item::Comment(c))));
    }
    None
}

pub open spec fn items_view(v: Seq<Item>) -> Seq<crate::txt_types::ItemModel> {
    v.map_values(|it: Item| it@)
}

pub open spec fn raw_items_model(s: Seq<u8>, v: Seq<RawItem>) -> Seq<crate::txt_types::ItemModel> {
    v.map_values(|it: RawItem| item_model(s, it))
}

fn file_lines_at<'a>(t: &'a str, s: &[u8], p: usize) -> (r: (usize, Vec<Item<'a>>))
    requires
        at_edge(t, s, p),
    ensures
        ({
            let (e, items) = g::file_lines(s@, p as int);
            &&& r.0 == e
            &&& items_view(r.1@) == raw_items_model(s@, items)
        }),
{
    let mut i = p;
    let mut out: Vec<Item<'a>> = Vec::new();
    let ghost mut done: Seq<RawItem> = seq![];
    loop
        invariant
            at_edge(t, s, i),
            p <= i,
            ({
                let (e0, items0) = g::file_lines(s@, p as int);
                let (e1, items1) = g::file_lines(s@, i as int);
                &&& e0 == e1
                &&& items0 == done + items1
            }),
            items_view(out@) == raw_items_model(s@, done),
        ensures
            g::file_lines(s@, i as int) == (i as int, Seq::<RawItem>::empty()),
        decreases s@.len() - i,
    {
        match file_line_at(t, s, i) {
            Some((q, item)) => {
                if i < q {
                    let ghost rest = g::file_lines(s@, q as int);
                    match item {
                        Some(x) => {
                            let ghost (_, l) = g::file_line(s@, i as int)->0;
                            let ghost ri = l->0;
                            let ghost old_out = out@;
                            let ghost old_done = done;
                            proof {
                                assert(done + (seq![ri] + rest.1) =~= done.push(ri) + rest.1);
                                done = done.push(ri);
                            }
                            out.push(x);
                            assert(items_view(out@) =~= items_view(old_out).push(x@));
                            assert(raw_items_model(s@, done) =~= raw_items_model(s@, old_done).push(
                                item_model(s@, ri),
                            ));
                        },
                        None => {},
                    }
                    i = q;
                } else {
                    break ;
                }
            },
            None => {
                break ;
            },
        }
    }
    assert(done + Seq::<RawItem>::empty() =~= done);
    (i, out)
}


fn file_at<'a>(t: &'a str, s: &[u8]) -> (r: Option<Vec<Item<'a>>>)
    requires
        s@ == t.spec_bytes(),
    ensures
        match g::file(s@) {
            Some(items) => r matches Some(v) && items_view(v@) == raw_items_model(s@, items),
            None => r is None,
        },
{
    let (e, items) = file_lines_at(t, s, 0);
    if e == s.len() {
        Some(items)
    } else {
        None
    }
}

pub open spec fn sections_view(v: Seq<Section>) -> Seq<SectionModel> {
    v.map_values(|sec: Section| sec@)
}

/// The sections among `items`, in order.
fn sections_of<'a>(items: Vec<Item<'a>>) -> (r: Vec<Section<'a>>)
    ensures
        sections_view(r@) == sections_in(items_view(items@)),
{
    let mut items = items;
    let ghost all = items_view(items@);
    let mut out: Vec<Section<'a>> = Vec::new();
    while items.len() > 0
        invariant
            sections_in(all) == sections_view(out@) + sections_in(items_view(items@)),
        decreases items@.len(),
    {
        let ghost before = items_view(items@);
        let it = items.remove(0);
        assert(before.drop_first() =~= items_view(items@));
        assert(before[0] == it@);
        match it {
            Item::Section(sec) => {
                let ghost old_out = out@;
                out.push(sec);
                assert(sections_view(out@) =~= sections_view(old_out).push(sec@));
                assert(sections_view(out@) + sections_in(items_view(items@)) =~= sections_view(
                    old_out,
                ) + (seq![sec@] + sections_in(items_view(items@))));
            },
            Item::Comment(_) => {},
        }
    }
    assert(sections_view(out@) + Seq::<SectionModel>::empty() =~= sections_view(out@));
    out
}

/// What is left of `t` from the byte offset `e`.
fn rest_from<'a>(t: &'a str, s: &[u8], e: usize) -> (r: &'a str)
    requires
        at_edge(t, s, e),
    ensures
        r.spec_bytes() == t.spec_bytes().skip(e as int),
{
    let r = substr_ascii(t, e, s.len());
    assert(r.spec_bytes() =~= t.spec_bytes().skip(e as int));
    r
}

/// A comment line: `//`, spaces, the comment's text, then the end of the
/// line or of the input. Gives what is left and the text.
pub fn comment<'a>(i: &'a str) -> (r: Result<(&'a str, &'a str), ParseError>)
    ensures
        match g::comment(i.spec_bytes(), 0) {
            Some((e, rg)) => r matches Ok((rest, c)) && rest.spec_bytes() == i.spec_bytes().skip(e)
                && c.spec_bytes() == text(i.spec_bytes(), rg),
            None => r matches Err(ParseError::Error),
        },
{
    let s = i.as_bytes();
    match comment_at(i, s, 0) {
        Some((e, c)) => Ok((rest_from(i, s, e), c)),
        None => Err(ParseError::Error),
    }
}

/// A section header `[name]`: gives what is left and the name.
pub fn section_name<'a>(i: &'a str) -> (r: Result<(&'a str, &'a str), ParseError>)
    ensures
        match g::section_name(i.spec_bytes(), 0) {
            Some((e, rg)) => r matches Ok((rest, n)) && rest.spec_bytes() == i.spec_bytes().skip(e)
                && n.spec_bytes() == text(i.spec_bytes(), rg),
            None => r matches Err(ParseError::Error),
        },
{
    let s = i.as_bytes();
    match section_name_at(i, s, 0) {
        Some((e, n)) => Ok((rest_from(i, s, e), n)),
        None => Err(ParseError::Error),
    }
}

/// A property value: a quoted text alone on its line, a comma-separated
/// list, or else the rest of the line. It always matches.
pub fn prop_value<'a>(i: &'a str) -> (r: Result<(&'a str, PropValue<'a>), ParseError>)
    ensures
        ({
            let (e, v) = g::prop_value(i.spec_bytes(), 0);
            r matches Ok((rest, value)) && rest.spec_bytes() == i.spec_bytes().skip(e) && value@
                == value_model(i.spec_bytes(), v)
        }),
{
    let s = i.as_bytes();
    let (e, v) = prop_value_at(i, s, 0);
    Ok((rest_from(i, s, e), v))
}

/// A `key=value` line: gives what is left, the key and the value.
pub fn prop<'a>(i: &'a str) -> (r: Result<(&'a str, (&'a str, PropValue<'a>)), ParseError>)
    ensures
        match g::prop(i.spec_bytes(), 0) {
            Some((e, (k, v))) => r matches Ok((rest, (key, value))) && rest.spec_bytes()
                == i.spec_bytes().skip(e) && key.spec_bytes() == text(i.spec_bytes(), k) && value@
                == value_model(i.spec_bytes(), v),
            None => r matches Err(ParseError::Error),
        },
{
    let s = i.as_bytes();
    match prop_at(i, s, 0) {
        Some((e, kv)) => Ok((rest_from(i, s, e), kv)),
        None => Err(ParseError::Error),
    }
}

/// A section: an optional comment, the header, then its lines. Gives what is
/// left and the section.
pub fn section<'a>(i: &'a str) -> (r: Result<(&'a str, Section<'a>), ParseError>)
    ensures
        match g::section(i.spec_bytes(), 0) {
            Some((e, (name, props))) => r matches Ok((rest, sec)) && rest.spec_bytes()
                == i.spec_bytes().skip(e) && sec@ == section_model(i.spec_bytes(), name, props)
                && sec.well_formed(),
            None => r matches Err(ParseError::Error),
        },
{
    let s = i.as_bytes();
    proof {
        if let Some((e, (name, props))) = g::section(i.spec_bytes(), 0) {
            crate::txt_types::lemma_section_props_last_wins(i.spec_bytes(), name, props, seq![]);
        }
    }
    match section_at(i, s, 0) {
        Some((e, sec)) => Ok((rest_from(i, s, e), sec)),
        None => Err(ParseError::Error),
    }
}

/// A whole file: blank lines, sections and comments that must cover all of
/// the input. Gives the (empty) rest and the items in order.
pub fn file<'a>(i: &'a str) -> (r: Result<(&'a str, Vec<Item<'a>>), ParseError>)
    ensures
        match g::file(i.spec_bytes()) {
            Some(items) => r matches Ok((rest, v)) && rest.spec_bytes().len() == 0 && items_view(
                v@,
            ) == raw_items_model(i.spec_bytes(), items),
            None => r matches Err(ParseError::Error),
        },
{
    let s = i.as_bytes();
    match file_at(i, s) {
        Some(v) => Ok((rest_from(i, s, s.len()), v)),
        None => Err(ParseError::Error),
    }
}

/// Parses a whole `.txt` data file and gives its sections in order.
pub fn parse_sections<'a>(i: &'a str) -> (r: Result<Vec<Section<'a>>, ParseError>)
    ensures
        match g::file(i.spec_bytes()) {
            Some(items) => r matches Ok(v) && sections_view(v@) == sections_in(
                raw_items_model(i.spec_bytes(), items),
            ),
            None => r matches Err(ParseError::Error),
        },
{
    let s = i.as_bytes();
    match file_at(i, s) {
        Some(v) => Ok(sections_of(v)),
        None => Err(ParseError::Error),
    }
}

} // verus!
