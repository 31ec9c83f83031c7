//! How a file is listed in its directory: its name and its size.

use crate::infer::{path_file_name, std_path_file_name};
use crate::FileRecord;
use vstd::prelude::*;

verus! {

/// What `byte_unit` writes for a number of bytes in the decimal unit that
/// suits it, without needless fractional digits (`{:#.0}`).
pub uninterp spec fn size_text(length: u64) -> Seq<char>;

/// Formats `Byte::from_u64(length).get_appropriate_unit(UnitType::Decimal)`
/// with `{:#.0}`. Claimed: the text is `size_text` of the length.
#[verifier::external_body]
fn byte_size_text(length: u64) -> (res: String)
    ensures
        res@ == size_text(length),
{
    format!("{:#.0}", byte_unit::Byte::from_u64(length).get_appropriate_unit(byte_unit::UnitType::Decimal))
}

/// The name of a listed file: the last component of its path, or the whole
/// path where it has none.
pub open spec fn listed_name(path: Seq<char>) -> Seq<char> {
    match path_file_name(path) {
        Some(name) => name,
        None => path,
    }
}

/// The name under which a file is listed.
pub fn listing_name(file: &FileRecord) -> (res: String)
    ensures
        res@ == listed_name(file.mbdb.path@),
{
    match std_path_file_name(file.mbdb.path.as_str()) {
        Some(name) => name,
        None => file.mbdb.path.clone(),
    }
}

/// The size shown beside a listed file.
pub fn listing_size(file: &FileRecord) -> (res: String)
    ensures
        res@ == size_text(file.mbdb.file_length),
{
    byte_size_text(file.mbdb.file_length)
}

} // verus!
