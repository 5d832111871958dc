//! Paths and art files of the skin export.
use vstd::prelude::*;
use vstd::string::StringExecFns;

verus! {

/// The storage path of a skin data file, such as `unitskin`.
pub fn get_txt_path(name: &str) -> (r: String)
    ensures
        r@ == "war3.w3mod:units/"@ + name@ + ".txt"@,
{
    let mut r = String::from_str("war3.w3mod:units/");
    r.append(name);
    r.append(".txt");
    r
}

/// The storage path of the high definition texture at `path`.
pub fn get_hd_dds_path(path: &str) -> (r: String)
    ensures
        r@ == "war3.w3mod:_hd.w3mod:"@ + path@,
{
    let mut r = String::from_str("war3.w3mod:_hd.w3mod:");
    r.append(path);
    r
}

/// The storage path of the standard definition texture at `path`.
pub fn get_sd_dds_path(path: &str) -> (r: String)
    ensures
        r@ == "war3.w3mod:"@ + path@,
{
    let mut r = String::from_str("war3.w3mod:");
    r.append(path);
    r
}

} // verus!
