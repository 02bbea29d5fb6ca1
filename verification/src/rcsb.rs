//! Where the data bank keeps what belongs to a structure: the addresses of its
//! structure file and of its entry.

use vstd::prelude::*;
use vstd::string::StringExecFns;

verus! {

/// What the address of a structure file starts with.
pub const DOWNLOAD_PREFIX: &'static str = "https://files.rcsb.org/download/";

/// What the address of a structure file ends with.
pub const DOWNLOAD_SUFFIX: &'static str = ".pdb";

/// What the address of an entry starts with.
pub const ENTRY_PREFIX: &'static str = "https://data.rcsb.org/rest/v1/core/entry/";

/// `text` in upper case, as the standard library's `str::to_uppercase` gives
/// it.
pub uninterp spec fn uppercase_of(text: Seq<char>) -> Seq<char>;

/// `str::to_uppercase` of the standard library: the text in upper case, by
/// the rules of Unicode, which depend on the text alone. What those rules
/// yield is named, not stated.
#[verifier::external_body]
fn to_uppercase(text: &str) -> (upper: String)
    ensures
        upper@ == uppercase_of(text@),
{
    text.to_uppercase()
}

/// The address of the structure file whose identifier, in upper case, is
/// `upper_id`.
pub fn download_url_of(upper_id: &str) -> (url: String)
    ensures
        url@ == DOWNLOAD_PREFIX@ + upper_id@ + DOWNLOAD_SUFFIX@,
{
    let mut url = String::from_str(DOWNLOAD_PREFIX);
    url.append(upper_id);
    url.append(DOWNLOAD_SUFFIX);
    url
}

/// The address of the structure file of `pdb_id`: the identifier stands in it
/// in upper case.
pub fn download_url(pdb_id: &str) -> (url: String)
    ensures
        url@ == DOWNLOAD_PREFIX@ + uppercase_of(pdb_id@) + DOWNLOAD_SUFFIX@,
{
    let upper = to_uppercase(pdb_id);
    download_url_of(upper.as_str())
}

/// The address of the entry whose identifier, in upper case, is `upper_id`.
pub fn entry_url_of(upper_id: &str) -> (url: String)
    ensures
        url@ == ENTRY_PREFIX@ + upper_id@,
{
    let mut url = String::from_str(ENTRY_PREFIX);
    url.append(upper_id);
    url
}

/// The address of the entry of `pdb_id`: the identifier stands in it in upper
/// case.
pub fn entry_url(pdb_id: &str) -> (url: String)
    ensures
        url@ == ENTRY_PREFIX@ + uppercase_of(pdb_id@),
{
    let upper = to_uppercase(pdb_id);
    entry_url_of(upper.as_str())
}

} // verus!
