//! The values read from a `.txt` data file, and what they stand for.
use vstd::prelude::*;
use vstd::string::StringSliceAdditionalSpecFns;
use crate::assoc::{assoc_build, pairs_view, distinct_keys, lookup, lookup_last, lemma_assoc_build_last_wins};
use crate::txt_grammar::{RawValue, RawItem};

verus! {

/// A property's value: one text, or a comma-separated list of texts.
#[derive(Debug, PartialEq, Clone)]
pub enum PropValue<'a> {
    String(&'a str),
    Array(Vec<&'a str>),
}

/// A section: `[name]` followed by `key=value` lines. Each key occurs once
/// (`well_formed`); when a section repeats a key, its last value is kept.
#[derive(Debug, PartialEq, Clone)]
pub struct Section<'a> {
    pub name: &'a str,
    pub props: Vec<(&'a str, PropValue<'a>)>,
}

/// A top-level item of a file.
#[derive(Debug, PartialEq, Clone)]
pub enum Item<'a> {
    Comment(&'a str),
    Section(Section<'a>),
}

/// A property value by the bytes of its texts.
pub enum PropValueModel {
    String(Seq<u8>),
    Array(Seq<Seq<u8>>),
}

/// A section by the bytes of its name and its properties in order.
pub struct SectionModel {
    pub name: Seq<u8>,
    pub props: Seq<(Seq<u8>, PropValueModel)>,
}

pub enum ItemModel {
    Comment(Seq<u8>),
    Section(SectionModel),
}

impl<'a> View for PropValue<'a> {
    type V = PropValueModel;

    open spec fn view(&self) -> PropValueModel {
        match self {
            PropValue::String(s) => PropValueModel::String(s.spec_bytes()),
            PropValue::Array(v) => PropValueModel::Array(v@.map_values(|t: &'a str| t.spec_bytes())),
        }
    }
}

impl<'a> View for Section<'a> {
    type V = SectionModel;

    open spec fn view(&self) -> SectionModel {
        SectionModel { name: self.name.spec_bytes(), props: pairs_view(self.props@) }
    }
}

impl<'a> Section<'a> {
    /// Each key of the section occurs once, as in a map.
    pub open spec fn well_formed(&self) -> bool {
        distinct_keys(self@.props)
    }
}

impl<'a> View for Item<'a> {
    type V = ItemModel;

    open spec fn view(&self) -> ItemModel {
        match self {
            Item::Comment(c) => ItemModel::Comment(c.spec_bytes()),
            Item::Section(s) => ItemModel::Section(s@),
        }
    }
}

impl<'a> From<&'a str> for PropValue<'a> {
    fn from(v: &'a str) -> (r: Self)
        ensures
            r == PropValue::String(v),
    {
        PropValue::String(v)
    }
}

impl<'a> vstd::std_specs::convert::FromSpecImpl<&'a str> for PropValue<'a> {
    open spec fn obeys_from_spec() -> bool {
        true
    }

    open spec fn from_spec(v: &'a str) -> Self {
        PropValue::String(v)
    }
}

impl<'a> From<Vec<&'a str>> for PropValue<'a> {
    fn from(v: Vec<&'a str>) -> (r: Self)
        ensures
            r == PropValue::Array(v),
    {
        PropValue::Array(v)
    }
}

impl<'a> vstd::std_specs::convert::FromSpecImpl<Vec<&'a str>> for PropValue<'a> {
    open spec fn obeys_from_spec() -> bool {
        true
    }

    open spec fn from_spec(v: Vec<&'a str>) -> Self {
        PropValue::Array(v)
    }
}

/// The bytes of a range of `s`.
pub open spec fn text(s: Seq<u8>, r: (int, int)) -> Seq<u8> {
    s.subrange(r.0, r.1)
}

pub open spec fn value_model(s: Seq<u8>, v: RawValue) -> PropValueModel {
    match v {
        RawValue::Str(a, b) => PropValueModel::String(text(s, (a, b))),
        RawValue::Array(items) => PropValueModel::Array(items.map_values(|r: (int, int)| text(s, r))),
    }
}

/// The properties of a section as read, in order, duplicates included.
pub open spec fn prop_list_model(s: Seq<u8>, props: Seq<((int, int), RawValue)>) -> Seq<(Seq<u8>, PropValueModel)> {
    props.map_values(|kv: ((int, int), RawValue)| (text(s, kv.0), value_model(s, kv.1)))
}

pub open spec fn section_model(s: Seq<u8>, name: (int, int), props: Seq<((int, int), RawValue)>) -> SectionModel {
    SectionModel { name: text(s, name), props: assoc_build(prop_list_model(s, props)) }
}

pub open spec fn item_model(s: Seq<u8>, it: RawItem) -> ItemModel {
    match it {
        RawItem::Comment(a, b) => ItemModel::Comment(text(s, (a, b))),
        RawItem::Section(name, props) => ItemModel::Section(section_model(s, name, props)),
    }
}

/// The sections among the items of a file, in order.
pub open spec fn sections_in(items: Seq<ItemModel>) -> Seq<SectionModel>
    decreases items.len(),
{
    if items.len() == 0 {
        seq![]
    } else {
        let rest = sections_in(items.drop_first());
        match items[0] {
            ItemModel::Section(sec) => seq![sec] + rest,
            ItemModel::Comment(_) => rest,
        }
    }
}


/// Law: the properties of a parsed section have distinct keys, and each key
/// holds the value of the last line that gives it.
pub proof fn lemma_section_props_last_wins(s: Seq<u8>, name: (int, int), props: Seq<((int, int), RawValue)>, key: Seq<u8>)
    ensures
        distinct_keys(section_model(s, name, props).props),
        lookup(section_model(s, name, props).props, key) == lookup_last(prop_list_model(s, props), key),
{
    lemma_assoc_build_last_wins(prop_list_model(s, props), key);
}

} // verus!
