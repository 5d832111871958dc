//! A section whose values are plain texts.
use vstd::prelude::*;
use vstd::string::StringSliceAdditionalSpecFns;
use crate::assoc::distinct_keys;

verus! {

/// A section with plain text values; each key occurs once (`well_formed`).
#[derive(Debug, PartialEq, Clone)]
pub struct Section<'a> {
    pub name: &'a str,
    pub props: Vec<(&'a str, &'a str)>,
}

pub struct PlainSectionModel {
    pub name: Seq<u8>,
    pub props: Seq<(Seq<u8>, Seq<u8>)>,
}

impl<'a> View for Section<'a> {
    type V = PlainSectionModel;

    open spec fn view(&self) -> PlainSectionModel {
        PlainSectionModel {
            name: self.name.spec_bytes(),
            props: self.props@.map_values(|p: (&'a str, &'a str)| (p.0.spec_bytes(), p.1.spec_bytes())),
        }
    }
}

impl<'a> Section<'a> {
    /// Each key of the section occurs once, as in a map.
    pub open spec fn well_formed(&self) -> bool {
        distinct_keys(self@.props)
    }
}

} // verus!
