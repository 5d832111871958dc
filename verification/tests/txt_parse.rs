use wc3_formats::error::ParseError;
use wc3_formats::txt_parse;
use wc3_formats::txt_parse::{comment, parse_sections, prop, prop_value, section, section_name};
use wc3_formats::txt_types::{Item, PropValue, Section};

#[test]
fn test_comment() {
    assert_eq!(comment("//    Attribute Bonus"), Ok(("", "Attribute Bonus")));
    assert_eq!(comment("// Attribute Bonus"), Ok(("", "Attribute Bonus")));
    assert_eq!(comment("// Attribute Bonus\n111"), Ok(("111", "Attribute Bonus")));
    assert_eq!(
        comment("//-----------------------------------------------------------------------------\n"),
        Ok(("", "-----------------------------------------------------------------------------"))
    );
    assert_eq!(comment("//    Attribute Bonus\n// 2"), Ok(("// 2", "Attribute Bonus")));
}

#[test]
fn test_section_name() {
    assert_eq!(section_name("[ACs7]"), Ok(("", "ACs7")));
    assert_eq!(section_name("[ACs7]   \n"), Ok(("", "ACs7")));
    assert_eq!(section_name("[ACs7]\n111"), Ok(("111", "ACs7")));
}

#[test]
fn test_prop_value() {
    assert_eq!(prop_value(r#"1,2,3"#), Ok(("", vec!["1", "2", "3"].into())));
    assert_eq!(prop_value(r#""123",4,5"#), Ok(("", vec!["123", "4", "5"].into())));
    assert_eq!(prop_value(r#""12""#), Ok(("", "12".into())));
    assert_eq!(prop_value(r#""1","#), Ok(("", vec!["1"].into())));
    assert_eq!(prop_value(r#""1""2""#), Ok(("", vec!["1", "2"].into())));
    assert_eq!(prop_value(r#""12"   "#), Ok(("", "12".into())));
    assert_eq!(prop_value(r#""12"   ,,,,"#), Ok(("", vec!["12"].into())));
}

#[test]
fn test_prop() {
    assert_eq!(prop("UnitSkinID=1233"), Ok(("", ("UnitSkinID", "1233".into()))));
    assert_eq!(prop("UnitSkinID=1233\n"), Ok(("", ("UnitSkinID", "1233".into()))));
    assert_eq!(prop("UnitSkinID=\"123\"\n"), Ok(("", ("UnitSkinID", "123".into()))));
    assert_eq!(
        prop("UnitSkinID=\"123\",\"345\"\n"),
        Ok(("", ("UnitSkinID", vec!["123", "345"].into())))
    );
    assert_eq!(
        prop("UnitSkinID=\"123\" , \"345\"\n"),
        Ok(("", ("UnitSkinID", vec!["123", "345"].into())))
    );
    assert_eq!(
        prop(r#"Herodeath="1,2","3,4",56,"7,8""#),
        Ok(("", ("Herodeath", vec!["1,2", "3,4", "56", "7,8"].into())))
    );
}

#[test]
fn test_section() {
    assert_eq!(
        section(
            r#"// test!
[ACs7]
skinType=ability
UnitSkinID=1233
Art=ReplaceableTextures\CommandButtons\BTNSpiritWolf.blp
Researchart=ReplaceableTextures\CommandButtons\BTNSpiritWolf.blp


Specialart=Abilities\Spells\Orc\FeralSpirit\feralspirittarget.mdl
//comment"#
        ),
        Ok((
            "//comment",
            Section {
                name: "ACs7",
                props: [
                    ("skinType", "ability".into()),
                    ("UnitSkinID", "1233".into()),
                    ("Art", r#"ReplaceableTextures\CommandButtons\BTNSpiritWolf.blp"#.into()),
                    ("Researchart", r#"ReplaceableTextures\CommandButtons\BTNSpiritWolf.blp"#.into()),
                    ("Specialart", r#"Abilities\Spells\Orc\FeralSpirit\feralspirittarget.mdl"#.into())
                ]
                .iter()
                .cloned()
                .collect()
            }
        ))
    );
}

#[test]
fn test_file() {
    assert_eq!(
        txt_parse::file(
            r#"//1
// FIRELORD
//2

// Incinerate
[test]
// ??
Name=焚身化骨

"#
        ),
        Ok((
            "",
            vec![
                Item::Comment("1"),
                Item::Comment("FIRELORD"),
                Item::Comment("2"),
                Item::Section(Section {
                    name: "test",
                    props: [("Name", "焚身化骨".into())].iter().cloned().collect()
                })
            ]
        ))
    );
}

#[test]
fn repeated_key_keeps_last_value_in_first_place() {
    let sections = parse_sections("[A]\nx=1\ny=2\nx=3\n").unwrap();
    assert_eq!(sections.len(), 1);
    assert_eq!(sections[0].props, vec![("x", PropValue::String("3")), ("y", PropValue::String("2"))]);
}

#[test]
fn line_without_equals_is_kept_under_empty_key() {
    let sections = parse_sections("[A]\nfoo\nbar\n").unwrap();
    assert_eq!(sections[0].props, vec![("", PropValue::String("bar"))]);
}

#[test]
fn parse_sections_drops_comments_and_accepts_crlf() {
    let sections = parse_sections("// c\r\n[A]\r\nk=v\r\n\r\n[B]\r\n").unwrap();
    assert_eq!(sections.len(), 2);
    assert_eq!(sections[0].name, "A");
    assert_eq!(sections[0].props, vec![("k", PropValue::String("v"))]);
    assert_eq!(sections[1].name, "B");
    assert!(sections[1].props.is_empty());
}

#[test]
fn parse_sections_rejects_stray_text() {
    assert_eq!(parse_sections("text before\n[A]\n"), Err(ParseError::Error));
    assert_eq!(parse_sections("[A B]\n"), Err(ParseError::Error));
}

#[test]
fn empty_quotes_give_empty_text() {
    assert_eq!(prop_value("\"\""), Ok(("", PropValue::String(""))));
    assert_eq!(prop_value("\"\"x"), Ok(("", PropValue::String("\"\"x"))));
}

#[test]
fn lone_carriage_return_stops_a_property() {
    assert_eq!(prop("k=v\rw"), Err(ParseError::Error));
    assert_eq!(comment("// a\rb"), Err(ParseError::Error));
}

#[test]
fn non_ascii_keys_and_values_are_kept_whole() {
    assert_eq!(prop("名字=\"焚身,化骨\",é"), Ok(("", ("名字", vec!["焚身,化骨", "é"].into()))));
}

#[test]
fn parse_errors_have_a_message() {
    assert_eq!(ParseError::Error.message(), "parse error: the input does not match the format");
    assert_eq!(ParseError::Failure.message(), "parse error: a required part is malformed");
    let e = wc3_formats::txt_parse::parse_sections("[A]\n[").unwrap_err();
    assert!(e.message().starts_with("parse error:"));
}
