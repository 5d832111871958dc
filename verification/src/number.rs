//! Reading a number with nom's `double`.
use nom::error::ErrorKind;
use nom::number::complete::double;
use vstd::prelude::*;

verus! {

/// What nom's `double` leaves of `bytes` when it reads a number from their
/// start (`None` when it reads none). Which prefixes spell a number is
/// decided by the `lexical-core` crate that `double` calls.
pub uninterp spec fn nom_double_rest(bytes: Seq<u8>) -> Option<Seq<u8>>;

/// Calls `nom::number::complete::double` on `bytes` and keeps what it leaves
/// of the input (the number itself is not kept here). Trusted: the result is
/// `nom_double_rest(bytes)`, and it is a suffix of `bytes`, since `double`
/// returns `input.slice(processed..)`.
#[verifier::external_body]
pub(crate) fn nom_double(bytes: &[u8]) -> (r: Option<&[u8]>)
    ensures
        match r {
            Some(rest) => nom_double_rest(bytes@) == Some(rest@),
            None => nom_double_rest(bytes@) is None,
        },
        r matches Some(rest) ==> rest@.len() <= bytes@.len() && rest@ == bytes@.skip(
            bytes@.len() - rest@.len(),
        ),
{
    match double::<&[u8], (&[u8], ErrorKind)>(bytes) {
        Ok((rest, _)) => Some(rest),
        Err(_) => None,
    }
}

} // verus!
