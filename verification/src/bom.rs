//! The UTF-8 byte order mark.
use vstd::prelude::*;
use vstd::utf8::*;
use vstd::string::StringSliceAdditionalSpecFns;
use crate::utf8_slice::{lemma_str_valid, substr};

verus! {

/// True when `bytes` begins with the UTF-8 byte order mark `EF BB BF`.
pub open spec fn starts_with_bom(bytes: Seq<u8>) -> bool {
    bytes.len() >= 3 && bytes[0] == 0xef && bytes[1] == 0xbb && bytes[2] == 0xbf
}

/// Removes one leading UTF-8 byte order mark, if there is one.
pub fn strip_utf8_bom(s: &str) -> (r: &str)
    ensures
        starts_with_bom(s.spec_bytes()) ==> r.spec_bytes() == s.spec_bytes().skip(3),
        !starts_with_bom(s.spec_bytes()) ==> r.spec_bytes() == s.spec_bytes(),
{
    let b = s.as_bytes();
    if b.len() >= 3 && b[0] == 0xef && b[1] == 0xbb && b[2] == 0xbf {
        proof {
            let bytes = s.spec_bytes();
            lemma_str_valid(s);
            reveal_with_fuel(is_char_boundary, 2);
            is_char_boundary_start_end_of_seq(bytes);
        }
        let r = substr(s, 3, b.len());
        assert(r.spec_bytes() =~= s.spec_bytes().skip(3));
        r
    } else {
        s
    }
}


/// Law: stripping a text that starts with the mark gives back what follows it.
pub proof fn lemma_strip_after_bom(rest: Seq<u8>)
    ensures
        starts_with_bom(seq![0xefu8, 0xbbu8, 0xbfu8] + rest),
        (seq![0xefu8, 0xbbu8, 0xbfu8] + rest).skip(3) == rest,
{
    assert((seq![0xefu8, 0xbbu8, 0xbfu8] + rest).skip(3) =~= rest);
}

} // verus!
