use std::borrow::Cow;
use wc3_formats::error::ParseError;
use wc3_formats::sylk_parse::{field, k_value, parse_record, parse_str, parse_unknown_str, record, string_value, unescape_str};
use wc3_formats::sylk_types::{Field, FieldType, Record, RecordType, Value};

fn number_of(v: &Value) -> f64 {
    match v {
        Value::Number(t) => nom::number::complete::double::<&str, (&str, nom::error::ErrorKind)>(t).unwrap().1,
        other => panic!("not a number: {:?}", other),
    }
}

#[test]
fn test_parse_str() {
    assert_eq!(parse_str(r#"123"#), Ok(("", "123")));
    assert_eq!(parse_str(r#"123""#), Ok(("\"", "123")));
    assert_eq!(parse_str("a;;"), Ok(("", "a;;")));
    assert_eq!(parse_str("a\"\""), Ok(("\"", "a\"")));
}

#[test]
#[should_panic]
fn test_parse_str_failure() {
    parse_str("a;").unwrap();
}

#[test]
fn test_string_value() {
    assert_eq!(string_value(r#""123""#), Ok(("", Cow::Borrowed("123"))));
    assert_eq!(string_value(r#""""#), Ok(("", Cow::Borrowed(""))));
    assert_eq!(string_value(r#"";;;;""#), Ok(("", Cow::Owned(";;".to_string()))));
    assert_eq!(string_value(r#""1";Y"#), Ok((";Y", Cow::Borrowed("1"))));
}

#[test]
fn test_parse_unknown_str() {
    assert_eq!(parse_unknown_str(r#"123"#), Ok(("", "123")));
    assert_eq!(parse_unknown_str(r#"123;"#), Ok((";", "123")));
    assert_eq!(parse_unknown_str(r#"123;;"#), Ok(("", "123;;")));
}

#[test]
fn test_field_k_string() {
    assert_eq!(field(r#";K"1""#), Ok(("", Field { ty: FieldType::K, value: Value::Text(Cow::Borrowed("1")) })));
    assert_eq!(field(r#";K"1"""#), Ok(("", Field { ty: FieldType::K, value: Value::Text(Cow::Borrowed("1\"")) })));
    assert_eq!(field(r#";K"""#), Ok(("", Field { ty: FieldType::K, value: Value::Text(Cow::Borrowed("")) })));
    assert_eq!(field(r#";K;"#), Ok((";", Field { ty: FieldType::K, value: Value::Unknown(Cow::Borrowed("")) })));
    assert_eq!(field(r#";K"#), Ok(("", Field { ty: FieldType::K, value: Value::Unknown(Cow::Borrowed("")) })));
}

#[test]
fn test_field_k_number() {
    let (rest, f) = field(r#";K123"#).unwrap();
    assert_eq!(rest, "");
    assert_eq!(f.ty, FieldType::K);
    assert_eq!(number_of(&f.value), 123_f64);

    let (rest, f) = field(r#";K123.45"#).unwrap();
    assert_eq!(rest, "");
    assert_eq!(f.ty, FieldType::K);
    assert_eq!(number_of(&f.value), 123.45_f64);
}

#[test]
fn test_field_xy() {
    assert_eq!(field(r#";X1111"#), Ok(("", Field { ty: FieldType::X, value: Value::Integer(1111) })));
    assert_eq!(field(r#";Y222"#), Ok(("", Field { ty: FieldType::Y, value: Value::Integer(222) })));
}

#[test]
fn test_field_unknown() {
    assert_eq!(
        field(r#";WTF1234"#),
        Ok(("", Field { ty: FieldType::Unknown("WTF"), value: Value::Unknown(Cow::Borrowed("1234")) }))
    );
    assert_eq!(
        field(r#";WTF1234;;"#),
        Ok(("", Field { ty: FieldType::Unknown("WTF"), value: Value::Unknown(Cow::Owned("1234;".to_string())) }))
    );
    assert_eq!(
        field(r#";WTF1234;;;K"#),
        Ok((";K", Field { ty: FieldType::Unknown("WTF"), value: Value::Unknown(Cow::Owned("1234;".to_string())) }))
    );
    assert_eq!(
        field(r#";PWXL;N;E"#),
        Ok((";N;E", Field { ty: FieldType::Unknown("PWXL"), value: Value::Unknown(Cow::Borrowed("")) }))
    );
}

#[test]
fn test_record() {
    assert_eq!(
        record(r#"ID;PWXL;N;E"#),
        Ok((
            "",
            Record {
                ty: RecordType::ID,
                fields: vec![
                    Field { ty: FieldType::Unknown("PWXL"), value: Value::Unknown(Cow::Borrowed("")) },
                    Field { ty: FieldType::Unknown("N"), value: Value::Unknown(Cow::Borrowed("")) },
                    Field { ty: FieldType::Unknown("E"), value: Value::Unknown(Cow::Borrowed("")) }
                ]
            }
        ))
    );
    assert_eq!(
        record(r#"C;K""11";Y1;X1"#),
        Ok((
            "",
            Record {
                ty: RecordType::C,
                fields: vec![
                    Field { ty: FieldType::K, value: Value::Text(Cow::Borrowed("\"11")) },
                    Field { ty: FieldType::Y, value: Value::Integer(1) },
                    Field { ty: FieldType::X, value: Value::Integer(1) },
                ]
            }
        ))
    );
}

#[test]
fn unescape_str_borrows_plain_text_and_owns_unescaped_text() {
    assert!(matches!(unescape_str("abc"), Cow::Borrowed("abc")));
    assert_eq!(unescape_str("a;;b;;;c"), Cow::<str>::Owned("a;b;;c".to_string()));
    assert!(matches!(unescape_str("a;b"), Cow::Owned(_)));
}

#[test]
fn malformed_fields_are_failures_and_lines_must_be_consumed() {
    assert_eq!(field(";1"), Err(ParseError::Failure));
    assert_eq!(field("K1"), Err(ParseError::Error));
    assert_eq!(field(";X01"), Err(ParseError::Failure));
    assert_eq!(field(";X2147483648"), Err(ParseError::Failure));
    assert_eq!(field(";X2147483647"), Ok(("", Field { ty: FieldType::X, value: Value::Integer(2147483647) })));
    assert_eq!(field(";K\"ab"), Err(ParseError::Failure));
    assert_eq!(record("1;X1"), Err(ParseError::Failure));
    assert_eq!(record("C;X1 tail"), Err(ParseError::Error));
    assert!(parse_record("C;X1 tail").is_err());
}

#[test]
fn number_text_keeps_what_double_reads() {
    let (rest, f) = field(";K-1.5e3;X2").unwrap();
    assert_eq!(rest, ";X2");
    assert_eq!(f.value, Value::Number("-1.5e3"));
    assert_eq!(number_of(&f.value), -1500_f64);
}

#[test]
fn parse_record_reads_record_types() {
    assert_eq!(parse_record("B;Y10;X4").unwrap().ty, RecordType::B);
    assert_eq!(parse_record("E").unwrap(), Record { ty: RecordType::E, fields: vec![] });
    assert_eq!(parse_record("XYZ").unwrap().ty, RecordType::Unknown("XYZ"));
}

#[test]
fn k_value_by_what_double_left() {
    assert_eq!(k_value("1.5;X1", Some(";X1".as_bytes())), Ok((";X1", Value::Number("1.5"))));
    assert_eq!(k_value(";X1", None), Ok((";X1", Value::Unknown(Cow::Borrowed("")))));
    assert_eq!(k_value("\"a;;b\";X1", None), Ok((";X1", Value::Text(Cow::Owned("a;b".to_string())))));
    assert_eq!(k_value("abc", None), Err(ParseError::Failure));
    // a rest that is not a suffix of the input reads no number
    assert_eq!(k_value("12", Some("xyz".as_bytes())), Err(ParseError::Failure));
}

#[test]
fn texts_are_borrowed_unless_unescaped() {
    let (_, c) = string_value("\"abc\";X1").unwrap();
    assert!(matches!(c, Cow::Borrowed("abc")));
    let (_, c) = string_value("\"a;;b\"").unwrap();
    assert!(matches!(c, Cow::Owned(ref s) if s == "a;b"));
    let r = parse_record("C;K\"x;;y\";Z1;;r;W9plain").unwrap();
    assert!(matches!(r.fields[0].value, Value::Text(Cow::Owned(_))));
    assert!(matches!(r.fields[1].value, Value::Unknown(Cow::Owned(ref s)) if s == "1;r"));
    assert!(matches!(r.fields[2].value, Value::Unknown(Cow::Borrowed("9plain"))));
    let (_, f) = field(";K\"\"").unwrap();
    assert!(matches!(f.value, Value::Text(Cow::Borrowed(""))));
}
