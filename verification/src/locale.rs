//! Paths and keys of the locale export.
use vstd::prelude::*;
use vstd::string::StringExecFns;

verus! {

/// The storage path of the strings file of a group and sub-group in a language.
pub fn get_txt_path(lang: &str, group: &str, sub_group: &str) -> (r: String)
    ensures
        r@ == "war3.w3mod:_locales/"@ + lang@ + ".w3mod:units/"@ + group@ + sub_group@
            + "strings.txt"@,
{
    let mut r = String::from_str("war3.w3mod:_locales/");
    r.append(lang);
    r.append(".w3mod:units/");
    r.append(group);
    r.append(sub_group);
    r.append("strings.txt");
    r
}

/// The key under which the strings of a group and sub-group are exported.
pub fn data_key(group: &str, sub_group: &str) -> (r: String)
    ensures
        r@ == group@ + "_"@ + sub_group@,
{
    let mut r = String::from_str(group);
    r.append("_");
    r.append(sub_group);
    r
}

} // verus!
