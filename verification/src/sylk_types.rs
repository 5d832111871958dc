//! The records of a SYLK (`.slk`) file.
use std::borrow::Cow;
use vstd::prelude::*;
use vstd::string::StringSliceAdditionalSpecFns;
use vstd::utf8::encode_utf8;

verus! {

/// A field's value. Text is unescaped (`;;` stands for `;`) and borrowed
/// from the input when nothing had to be unescaped. A number is kept as the
/// text that spells it.
#[derive(Debug, PartialEq)]
pub enum Value<'a> {
    Text(Cow<'a, str>),
    Integer(i32),
    Number(&'a str),
    Unknown(Cow<'a, str>),
}

#[derive(Debug, PartialEq)]
pub enum RecordType<'a> {
    /// A header to identify spreadsheet type and creator.
    ID,
    /// Tells number of rows and columns in the spreadsheet.
    B,
    /// Cell contents
    C,
    E,
    Unknown(&'a str),
}

#[derive(Debug, PartialEq)]
pub struct Record<'a> {
    pub ty: RecordType<'a>,
    pub fields: Vec<Field<'a>>,
}

#[derive(Debug, PartialEq)]
pub enum FieldType<'a> {
    K,
    X,
    Y,
    Unknown(&'a str),
}

#[derive(Debug, PartialEq)]
pub struct Field<'a> {
    pub ty: FieldType<'a>,
    pub value: Value<'a>,
}

/// A value by the UTF-8 bytes of its text. A text also tells whether it is
/// borrowed from the input (`true`) or owned.
pub enum ValueModel {
    Text(Seq<u8>, bool),
    Integer(i32),
    Number(Seq<u8>),
    Unknown(Seq<u8>, bool),
}

pub enum RecordTypeModel {
    ID,
    B,
    C,
    E,
    Unknown(Seq<u8>),
}

pub enum FieldTypeModel {
    K,
    X,
    Y,
    Unknown(Seq<u8>),
}

pub struct FieldModel {
    pub ty: FieldTypeModel,
    pub value: ValueModel,
}

pub struct RecordModel {
    pub ty: RecordTypeModel,
    pub fields: Seq<FieldModel>,
}

/// The UTF-8 bytes of a text value.
pub open spec fn cow_bytes(c: Cow<str>) -> Seq<u8> {
    encode_utf8(c@)
}

/// Whether a text value is borrowed from the input.
pub open spec fn cow_borrowed(c: Cow<str>) -> bool {
    c matches Cow::Borrowed(_)
}

impl<'a> View for Value<'a> {
    type V = ValueModel;

    open spec fn view(&self) -> ValueModel {
        match self {
            Value::Text(c) => ValueModel::Text(cow_bytes(*c), cow_borrowed(*c)),
            Value::Integer(i) => ValueModel::Integer(*i),
            Value::Number(t) => ValueModel::Number(t.spec_bytes()),
            Value::Unknown(c) => ValueModel::Unknown(cow_bytes(*c), cow_borrowed(*c)),
        }
    }
}

impl<'a> View for RecordType<'a> {
    type V = RecordTypeModel;

    open spec fn view(&self) -> RecordTypeModel {
        match self {
            RecordType::ID => RecordTypeModel::ID,
            RecordType::B => RecordTypeModel::B,
            RecordType::C => RecordTypeModel::C,
            RecordType::E => RecordTypeModel::E,
            RecordType::Unknown(t) => RecordTypeModel::Unknown(t.spec_bytes()),
        }
    }
}

impl<'a> View for FieldType<'a> {
    type V = FieldTypeModel;

    open spec fn view(&self) -> FieldTypeModel {
        match self {
            FieldType::K => FieldTypeModel::K,
            FieldType::X => FieldTypeModel::X,
            FieldType::Y => FieldTypeModel::Y,
            FieldType::Unknown(t) => FieldTypeModel::Unknown(t.spec_bytes()),
        }
    }
}

impl<'a> View for Field<'a> {
    type V = FieldModel;

    open spec fn view(&self) -> FieldModel {
        FieldModel { ty: self.ty@, value: self.value@ }
    }
}

pub open spec fn fields_view<'a>(v: Seq<Field<'a>>) -> Seq<FieldModel> {
    v.map_values(|f: Field<'a>| f@)
}

impl<'a> View for Record<'a> {
    type V = RecordModel;

    open spec fn view(&self) -> RecordModel {
        RecordModel { ty: self.ty@, fields: fields_view(self.fields@) }
    }
}

} // verus!
