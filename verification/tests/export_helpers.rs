use wc3_formats::art::{art_dds_path, collect_arts, ArtPath};
use wc3_formats::bom::strip_utf8_bom;
use wc3_formats::locale;
use wc3_formats::skin;
use wc3_formats::txt_data::{txt_data_from_str, txt_data_map, PropValueOwned};
use wc3_formats::txt_types::PropValue;

#[test]
fn skin_paths() {
    assert_eq!(skin::get_txt_path("unitskin"), "war3.w3mod:units/unitskin.txt");
    assert_eq!(
        skin::get_hd_dds_path("ReplaceableTextures/CommandButtons/BTNFoo.dds"),
        "war3.w3mod:_hd.w3mod:ReplaceableTextures/CommandButtons/BTNFoo.dds"
    );
    assert_eq!(
        skin::get_sd_dds_path("ReplaceableTextures/CommandButtons/BTNFoo.dds"),
        "war3.w3mod:ReplaceableTextures/CommandButtons/BTNFoo.dds"
    );
}

#[test]
fn locale_paths() {
    assert_eq!(
        locale::get_txt_path("zhCN", "human", "ability"),
        "war3.w3mod:_locales/zhCN.w3mod:units/humanabilitystrings.txt"
    );
    assert_eq!(locale::get_txt_path("enUS", "command", ""), "war3.w3mod:_locales/enUS.w3mod:units/commandstrings.txt");
    assert_eq!(locale::data_key("human", "unit"), "human_unit");
}

#[test]
fn strip_bom() {
    assert_eq!(strip_utf8_bom("\u{feff}[A]"), "[A]");
    assert_eq!(strip_utf8_bom("[A]"), "[A]");
    assert_eq!(strip_utf8_bom("\u{feff}\u{feff}x"), "\u{feff}x");
    assert_eq!(strip_utf8_bom(""), "");
}

#[test]
fn art_paths() {
    assert_eq!(art_dds_path(""), ArtPath::Empty);
    assert_eq!(art_dds_path("Textures\\x.blp"), ArtPath::UnexpectedPath);
    assert_eq!(art_dds_path("ReplaceableTextures\\CommandButtons\\BTNFoo.tga"), ArtPath::NotBlp);
    assert_eq!(
        art_dds_path("ReplaceableTextures\\CommandButtons\\BTNSpiritWolf.blp"),
        ArtPath::Dds {
            dds_path: "ReplaceableTextures/CommandButtons/BTNSpiritWolf.dds".to_string(),
            file_name: "BTNSpiritWolf.jpg".to_string()
        }
    );
    assert_eq!(
        art_dds_path("ReplaceableTextures\\PassiveButtons\\PASBTNa.b.blp"),
        ArtPath::Dds {
            dds_path: "ReplaceableTextures/PassiveButtons/PASBTNa.b.dds".to_string(),
            file_name: "PASBTNa.b.jpg".to_string()
        }
    );
    assert_eq!(
        art_dds_path("ReplaceableTextures\\PassiveButtons\\.blp"),
        ArtPath::Dds {
            dds_path: "ReplaceableTextures/PassiveButtons/.dds".to_string(),
            file_name: ".dds.jpg".to_string()
        }
    );
}

#[test]
fn prop_value_owned_from() {
    assert_eq!(PropValueOwned::from(PropValue::String("a")), PropValueOwned::String("a".to_string()));
    assert_eq!(
        PropValueOwned::from(PropValue::Array(vec!["a", "é"])),
        PropValueOwned::Array(vec!["a".to_string(), "é".to_string()])
    );
}

#[test]
fn data_map_keeps_last_section_of_a_name() {
    let content = "\u{feff}[A]\nArt=x.blp\n[B]\nArt=\"1\",\"2\"\n[A]\nArt=y.blp\nName=n\n".as_bytes();
    let data = txt_data_map(content).unwrap();
    assert_eq!(
        data,
        vec![
            (
                "A".to_string(),
                vec![
                    ("Art".to_string(), PropValueOwned::String("y.blp".to_string())),
                    ("Name".to_string(), PropValueOwned::String("n".to_string()))
                ]
            ),
            (
                "B".to_string(),
                vec![("Art".to_string(), PropValueOwned::Array(vec!["1".to_string(), "2".to_string()]))]
            ),
        ]
    );
    let mut arts = vec!["2".to_string()];
    collect_arts(&data, &mut arts);
    assert_eq!(arts, vec!["2".to_string(), "y.blp".to_string(), "1".to_string()]);
}

#[test]
fn data_map_decodes_invalid_utf8_lossily() {
    let data = txt_data_map(b"[A]\nk=\xff\n").unwrap();
    assert_eq!(data, vec![("A".to_string(), vec![("k".to_string(), PropValueOwned::String("\u{fffd}".to_string()))])]);
    assert!(txt_data_map(b"junk\n").is_err());
}

#[test]
fn data_from_text_drops_the_mark() {
    let data = txt_data_from_str("\u{feff}// c\n[A]\nk=v\nk=w\n").unwrap();
    assert_eq!(data, vec![("A".to_string(), vec![("k".to_string(), PropValueOwned::String("w".to_string()))])]);
    assert!(txt_data_from_str("[A]\n[").is_err());
}
