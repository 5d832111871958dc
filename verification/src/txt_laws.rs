//! What the `.txt` grammar reads from property lines of a few common shapes.
use vstd::prelude::*;
use crate::scan::{ByteClass, in_class, skip_class};
use crate::txt_grammar::{
    RawValue, byte_at, line_ending, eof_or_line_ending, space0, rest_of_line, prop_key, quoted_str,
    unquoted_item, value_sep, list_item, list_items, single_quoted, prop_value, prop,
};
use crate::txt_types::{PropValueModel, value_model, text};

verus! {

/// A byte of a plain list item: no `,`, `"`, line break, space or tab.
pub open spec fn plain_byte(b: u8) -> bool {
    b != 0x2c && b != 0x22 && b != 0x0d && b != 0x0a && b != 0x20 && b != 0x09
}

/// A non-empty text of plain bytes.
pub open spec fn plain(t: Seq<u8>) -> bool {
    t.len() > 0 && forall|i: int| 0 <= i < t.len() ==> plain_byte(#[trigger] t[i])
}

/// What may end a line: `"\n"`, `"\r\n"`, or the end of the input.
pub open spec fn line_end(t: Seq<u8>) -> bool {
    t == seq![0x0au8] || t == seq![0x0du8, 0x0au8] || t.len() == 0
}

/// A key: non-empty, not starting with `[`, holding no `=` and no line break.
pub open spec fn key_text(k: Seq<u8>) -> bool {
    &&& k.len() > 0
    &&& k[0] != 0x5b
    &&& forall|i: int| 0 <= i < k.len() ==> in_class(ByteClass::PropKey, #[trigger] k[i])
}

/// A scan of class `c` from `p` stops at `q` when the bytes in between are of
/// the class and the byte at `q` (if any) is not.
proof fn lemma_skip_to(s: Seq<u8>, p: int, q: int, c: ByteClass)
    requires
        0 <= p <= q <= s.len(),
        forall|i: int| p <= i < q ==> in_class(c, #[trigger] s[i]),
        q < s.len() ==> !in_class(c, s[q]),
    ensures
        skip_class(s, p, c) == q,
    decreases q - p,
{
    if p < q {
        lemma_skip_to(s, p + 1, q, c);
    }
}

/// After a line end (or at the end of the input), nothing of a list matches.
proof fn lemma_no_list_item_at_end(s: Seq<u8>, e: int)
    requires
        0 <= e <= s.len(),
        e == s.len() || s[e] == 0x0a || s[e] == 0x0d,
    ensures
        list_item(s, e) is None,
        list_items(s, e) == (e, 0nat, Seq::<(int, int)>::empty()),
        value_sep(s, e) is None,
{
    lemma_skip_to(s, e, e, ByteClass::Space);
    lemma_skip_to(s, e, e, ByteClass::ListText);
}

/// Law: a line `a,b` of two plain items is read as the list of `a` and `b`,
/// up to its end, whether a line ending or the end of the input ends it.
pub proof fn lemma_two_item_list(a: Seq<u8>, b: Seq<u8>, t: Seq<u8>)
    requires
        plain(a),
        plain(b),
        line_end(t),
    ensures
        ({
            let s = a + seq![0x2cu8] + b + t;
            let (e, v) = prop_value(s, 0);
            &&& e == a.len() + 1 + b.len()
            &&& value_model(s, v) == PropValueModel::Array(seq![a, b])
        }),
{
    let s = a + seq![0x2cu8] + b + t;
    let n = a.len() as int;
    let m = b.len() as int;
    let e = n + 1 + m;
    assert(s.len() == e + t.len());
    assert forall|i: int| 0 <= i < n implies s[i] == a[i] by {}
    assert(s[n] == 0x2c);
    assert forall|i: int| n + 1 <= i < e implies s[i] == b[i - n - 1] by {}
    assert(e < s.len() ==> s[e] == t[0]);
    assert(plain_byte(a[0]) && plain_byte(b[0]));
    assert(plain_byte(s[0]));
    assert(plain_byte(s[n + 1]));
    // nothing quoted
    assert(single_quoted(s, 0) is None);
    // first step: `a` before the separator
    lemma_skip_to(s, 0, 0, ByteClass::Space);
    assert forall|i: int| 0 <= i < n implies in_class(ByteClass::ListText, #[trigger] s[i]) by {
        assert(plain_byte(a[i]));
    }
    lemma_skip_to(s, 0, n, ByteClass::ListText);
    lemma_skip_to(s, n, n, ByteClass::Space);
    lemma_skip_to(s, n + 1, n + 1, ByteClass::Space);
    assert(value_sep(s, 0) is None);
    assert(quoted_str(s, 0) is None);
    assert(unquoted_item(s, 0) == Some((n, (0int, n))));
    assert(value_sep(s, n) == Some(n + 1));
    assert(list_item(s, 0) == Some((n, Some((0int, n)))));
    // second step: the separator, then `b` up to the end of the line
    lemma_skip_to(s, n, n, ByteClass::ListText);
    assert forall|i: int| n + 1 <= i < e implies in_class(ByteClass::ListText, #[trigger] s[i]) by {
        assert(plain_byte(b[i - n - 1]));
    }
    lemma_skip_to(s, n + 1, e, ByteClass::ListText);
    assert(value_sep(s, n + 1) is None);
    assert(line_ending(s, n + 1) is None);
    assert(quoted_str(s, n) is None);
    assert(unquoted_item(s, n) is None);
    assert(quoted_str(s, n + 1) is None);
    assert(e == s.len() || line_ending(s, e) is Some);
    assert(unquoted_item(s, n + 1) == Some((e, (n + 1, e))));
    assert(list_item(s, n) == Some((e, Some((n + 1, e)))));
    lemma_no_list_item_at_end(s, e);
    assert(list_items(s, n) == (e, 1nat, seq![(n + 1, e)]));
    assert(list_items(s, 0) == (e, 2nat, seq![(0int, n)] + seq![(n + 1, e)]));
    assert(seq![(0int, n)] + seq![(n + 1, e)] =~= seq![(0int, n), (n + 1, e)]);
    assert(prop_value(s, 0) == (e, RawValue::Array(seq![(0int, n), (n + 1, e)])));
    assert(s.subrange(0, n) =~= a);
    assert(s.subrange(n + 1, e) =~= b);
    let items = seq![(0int, n), (n + 1, e)];
    assert(items.map_values(|r: (int, int)| text(s, r)) =~= seq![a, b]);
    assert(value_model(s, RawValue::Array(items)) == PropValueModel::Array(seq![a, b]));
}

/// Law: a line `k=` with nothing after the `=` is a property whose value is
/// the empty text, whether a line ending or the end of the input ends it.
pub proof fn lemma_empty_value_prop(k: Seq<u8>, t: Seq<u8>)
    requires
        key_text(k),
        line_end(t),
    ensures
        ({
            let s = k + seq![0x3du8] + t;
            prop(s, 0) matches Some((e, (key, v))) && e == s.len() && key == (0int, k.len() as int)
                && value_model(s, v) == PropValueModel::String(seq![])
        }),
{
    let s = k + seq![0x3du8] + t;
    let n = k.len() as int;
    let p = n + 1;
    assert(s.len() == p + t.len());
    assert forall|i: int| 0 <= i < n implies s[i] == k[i] by {}
    assert(s[0] == k[0]);
    assert(s[n] == 0x3d);
    assert(p < s.len() ==> s[p] == t[0]);
    assert forall|i: int| 0 <= i < n implies in_class(ByteClass::PropKey, #[trigger] s[i]) by {
        assert(in_class(ByteClass::PropKey, k[i]));
    }
    lemma_skip_to(s, 0, n, ByteClass::PropKey);
    assert(prop_key(s, 0) == Some(n));
    lemma_no_list_item_at_end(s, p);
    lemma_skip_to(s, p, p, ByteClass::NotLineEnd);
    assert(single_quoted(s, p) is None);
    assert(rest_of_line(s, p) == p);
    assert(prop_value(s, p) == (p, RawValue::Str(p, p)));
    assert(eof_or_line_ending(s, p) == Some(s.len() as int));
    assert(s.subrange(p, p) =~= Seq::<u8>::empty());
}

} // verus!
