//! Readers for the text data formats of Warcraft III: the INI-like `.txt`
//! files, SYLK (`.slk`) spreadsheets, and the paths used to export them.

pub mod utf8_slice;
pub mod bom;
pub mod scan;
pub mod txt_grammar;
pub mod assoc;
pub mod txt_types;
pub mod error;
pub mod txt_parse;
pub mod sylk_types;
pub mod sylk_grammar;
pub mod number;
pub mod sylk_parse;
pub mod sylk_reader;
pub mod sylk_run;
pub mod skin;
pub mod locale;
pub mod txt_data;
pub mod txt_laws;
pub mod art;
pub mod plain_txt;
pub mod dds;
