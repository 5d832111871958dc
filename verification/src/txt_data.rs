//! The data of a `.txt` file as owned maps: section name to properties.
use std::borrow::Cow;
use vstd::prelude::*;
use vstd::string::StringSliceAdditionalSpecFns;
use vstd::string::StringExecFns;
use vstd::utf8::{encode_utf8, valid_utf8};
use crate::assoc::{assoc_build, assoc_insert, find_key, distinct_keys, lookup, lookup_last, lemma_assoc_build_last_wins};
use crate::bom::{starts_with_bom, strip_utf8_bom};
use crate::error::ParseError;
use crate::txt_grammar as g;
use crate::txt_parse::{parse_sections, sections_view, raw_items_model};
use crate::assoc::pairs_view;
use crate::utf8_slice::lemma_str_valid;
use crate::txt_types::{PropValue, PropValueModel, Section, SectionModel, sections_in};

verus! {

broadcast use vstd::utf8::encode_utf8_decode_utf8;

/// A property value that owns its texts.
#[derive(Debug, PartialEq, Clone)]
pub enum PropValueOwned {
    String(String),
    Array(Vec<String>),
}

pub open spec fn strings_view(v: Seq<String>) -> Seq<Seq<u8>> {
    v.map_values(|s: String| encode_utf8(s@))
}

impl View for PropValueOwned {
    type V = PropValueModel;

    open spec fn view(&self) -> PropValueModel {
        match self {
            PropValueOwned::String(s) => PropValueModel::String(encode_utf8(s@)),
            PropValueOwned::Array(v) => PropValueModel::Array(strings_view(v@)),
        }
    }
}

/// An owned copy of a string slice.
fn owned(s: &str) -> (r: String)
    ensures
        encode_utf8(r@) == s.spec_bytes(),
{
    String::from_str(s)
}

impl<'a> From<PropValue<'a>> for PropValueOwned {
    fn from(v: PropValue<'a>) -> (r: Self)
        ensures
            r@ == v@,
    {
        match v {
            PropValue::String(s) => PropValueOwned::String(owned(s)),
            PropValue::Array(items) => {
                let mut out: Vec<String> = Vec::new();
                let mut i: usize = 0;
                while i < items.len()
                    invariant
                        i <= items@.len(),
                        strings_view(out@) == items@.take(i as int).map_values(
                            |t: &'a str| t.spec_bytes(),
                        ),
                    decreases items@.len() - i,
                {
                    let ghost old_out = out@;
                    out.push(owned(items[i]));
                    assert(strings_view(out@) =~= strings_view(old_out).push(items@[i as int].spec_bytes()));
                    assert(items@.take(i + 1).map_values(|t: &'a str| t.spec_bytes()) =~= items@.take(
                        i as int,
                    ).map_values(|t: &'a str| t.spec_bytes()).push(items@[i as int].spec_bytes()));
                    i = i + 1;
                }
                assert(items@.take(items@.len() as int) =~= items@);
                PropValueOwned::Array(out)
            },
        }
    }
}

impl<'a> vstd::std_specs::convert::FromSpecImpl<PropValue<'a>> for PropValueOwned {
    /// Owned strings are only known by their characters, so `from` is
    /// specified by its `ensures` (same view) and not by a spec value.
    open spec fn obeys_from_spec() -> bool {
        false
    }

    open spec fn from_spec(v: PropValue<'a>) -> Self {
        arbitrary()
    }
}


/// Properties with owned keys, by the bytes of their keys.
pub open spec fn owned_props_view(v: Seq<(String, PropValueOwned)>) -> Seq<(Seq<u8>, PropValueModel)> {
    v.map_values(|p: (String, PropValueOwned)| (encode_utf8(p.0@), p.1@))
}

/// Section names with their properties, by bytes.
pub open spec fn data_view(v: Seq<(String, Vec<(String, PropValueOwned)>)>) -> Seq<(Seq<u8>, Seq<(Seq<u8>, PropValueModel)>)> {
    v.map_values(|e: (String, Vec<(String, PropValueOwned)>)| (encode_utf8(e.0@), owned_props_view(e.1@)))
}

/// The data of a file's sections: each name once, with the properties of
/// its last section, as collecting into a hash map gives.
pub open spec fn data_model(sections: Seq<SectionModel>) -> Seq<(Seq<u8>, Seq<(Seq<u8>, PropValueModel)>)> {
    assoc_build(sections.map_values(|s: SectionModel| (s.name, s.props)))
}

fn owned_props<'a>(props: Vec<(&'a str, PropValue<'a>)>) -> (r: Vec<(String, PropValueOwned)>)
    ensures
        owned_props_view(r@) == pairs_view(props@),
{
    let mut props = props;
    let ghost all = pairs_view(props@);
    let mut out: Vec<(String, PropValueOwned)> = Vec::new();
    while props.len() > 0
        invariant
            all == owned_props_view(out@) + pairs_view(props@),
        decreases props@.len(),
    {
        let ghost before = pairs_view(props@);
        let (k, v) = props.remove(0);
        assert(before =~= seq![(k.spec_bytes(), v@)] + pairs_view(props@));
        let ghost old_out = owned_props_view(out@);
        out.push((owned(k), PropValueOwned::from(v)));
        assert(owned_props_view(out@) =~= old_out.push((k.spec_bytes(), v@)));
        assert(old_out + before =~= owned_props_view(out@) + pairs_view(props@));
    }
    assert(owned_props_view(out@) + pairs_view(props@) =~= owned_props_view(out@));
    out
}

/// Stores the properties of a section under its name, replacing those of an
/// earlier section of the same name.
fn insert_section(acc: &mut Vec<(String, Vec<(String, PropValueOwned)>)>, name: String, props: Vec<(String, PropValueOwned)>)
    ensures
        data_view(final(acc)@) == assoc_insert(data_view(old(acc)@), encode_utf8(name@), owned_props_view(props@)),
{
    let ghost old_view = data_view(acc@);
    let ghost key = encode_utf8(name@);
    let mut i: usize = 0;
    while i < acc.len()
        invariant
            acc@ == old(acc)@,
            old_view == data_view(acc@),
            key == encode_utf8(name@),
            i <= acc@.len(),
            find_key(old_view, key, i as int) == find_key(old_view, key, 0),
        decreases acc@.len() - i,
    {
        if acc[i].0 == name {
            assert(find_key(old_view, key, 0) == i);
            let ghost pv = owned_props_view(props@);
            acc.set(i, (name, props));
            assert(data_view(acc@) =~= old_view.update(i as int, (key, pv)));
            return;
        }
        proof {
            if old_view[i as int].0 == key {
                assert(vstd::utf8::decode_utf8(encode_utf8(acc@[i as int].0@)) == acc@[i as int].0@);
                assert(vstd::utf8::decode_utf8(encode_utf8(name@)) == name@);
                assert(acc@[i as int].0@ == name@);
            }
        }
        i = i + 1;
    }
    let ghost pv = owned_props_view(props@);
    acc.push((name, props));
    assert(data_view(acc@) =~= old_view.push((key, pv)));
}

/// The sections as owned data: each name once, with the properties of its
/// last section.
pub fn sections_data<'a>(sections: Vec<Section<'a>>) -> (r: Vec<(String, Vec<(String, PropValueOwned)>)>)
    ensures
        data_view(r@) == data_model(sections_view(sections@)),
{
    let mut sections = sections;
    let ghost all = sections_view(sections@);
    let mut out: Vec<(String, Vec<(String, PropValueOwned)>)> = Vec::new();
    let ghost mut done: Seq<SectionModel> = seq![];
    assert(data_view(out@) =~= data_model(done));
    while sections.len() > 0
        invariant
            all == done + sections_view(sections@),
            data_view(out@) == data_model(done),
        decreases sections@.len(),
    {
        let ghost before = sections_view(sections@);
        let sec = sections.remove(0);
        let ghost sm = sec@;
        assert(before =~= seq![sm] + sections_view(sections@));
        let name = owned(sec.name);
        let props = owned_props(sec.props);
        insert_section(&mut out, name, props);
        proof {
            let l = done.map_values(|s: SectionModel| (s.name, s.props));
            assert(done.push(sm).map_values(|s: SectionModel| (s.name, s.props)) =~= l.push((sm.name, sm.props)));
            assert(l.push((sm.name, sm.props)).drop_last() =~= l);
            assert(done + before =~= done.push(sm) + sections_view(sections@));
            done = done.push(sm);
        }
    }
    assert(done + sections_view(sections@) =~= done);
    out
}

/// The characters that `String::from_utf8_lossy` makes of `bytes`.
pub uninterp spec fn utf8_lossy(bytes: Seq<u8>) -> Seq<char>;

/// Calls `String::from_utf8_lossy`. Trusted: the text is `utf8_lossy(bytes)`,
/// and valid UTF-8 is kept as it is (invalid sequences become U+FFFD, which
/// is not stated here).
#[verifier::external_body]
fn from_utf8_lossy(bytes: &[u8]) -> (r: Cow<'_, str>)
    ensures
        r@ == utf8_lossy(bytes@),
        valid_utf8(bytes@) ==> encode_utf8(r@) == bytes@,
{
    String::from_utf8_lossy(bytes)
}

fn cow_str<'a, 'b>(c: &'b Cow<'a, str>) -> (r: &'b str)
    ensures
        r@ == c@,
{
    match c {
        Cow::Borrowed(b) => *b,
        Cow::Owned(o) => o.as_str(),
    }
}

/// The bytes of a text without its leading byte order mark, if any.
pub open spec fn without_bom(text: Seq<u8>) -> Seq<u8> {
    if starts_with_bom(text) {
        text.skip(3)
    } else {
        text
    }
}

/// The bytes of a data file after decoding (lossy) and dropping a byte order mark.
pub open spec fn data_text(content: Seq<u8>) -> Seq<u8> {
    without_bom(encode_utf8(utf8_lossy(content)))
}

/// Reads a decoded `.txt` data file (a byte order mark is dropped) into
/// owned data: section name to properties.
pub fn txt_data_from_str(text: &str) -> (r: Result<Vec<(String, Vec<(String, PropValueOwned)>)>, ParseError>)
    ensures
        match g::file(without_bom(text.spec_bytes())) {
            Some(items) => r matches Ok(m) && data_view(m@) == data_model(
                sections_in(raw_items_model(without_bom(text.spec_bytes()), items)),
            ),
            None => r is Err,
        },
{
    let body = strip_utf8_bom(text);
    match parse_sections(body) {
        Ok(sections) => Ok(sections_data(sections)),
        Err(e) => Err(e),
    }
}

/// Reads the bytes of a `.txt` data file (decoded as UTF-8, invalid
/// sequences replaced, a byte order mark dropped) into owned data: section
/// name to properties.
pub fn txt_data_map(content: &[u8]) -> (r: Result<Vec<(String, Vec<(String, PropValueOwned)>)>, ParseError>)
    ensures
        match g::file(data_text(content@)) {
            Some(items) => r matches Ok(m) && data_view(m@) == data_model(
                sections_in(raw_items_model(data_text(content@), items)),
            ),
            None => r is Err,
        },
{
    let text = from_utf8_lossy(content);
    txt_data_from_str(cow_str(&text))
}


/// Law: in the data of a file each section name occurs once, with the
/// properties of the last section of that name.
pub proof fn lemma_data_last_section_wins(sections: Seq<SectionModel>, name: Seq<u8>)
    ensures
        distinct_keys(data_model(sections)),
        lookup(data_model(sections), name) == lookup_last(
            sections.map_values(|s: SectionModel| (s.name, s.props)),
            name,
        ),
{
    lemma_assoc_build_last_wins(sections.map_values(|s: SectionModel| (s.name, s.props)), name);
}

} // verus!
