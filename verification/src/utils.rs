//! Choosing which files to show or copy, by extension.

use crate::FileRecord;
use vstd::prelude::*;

verus! {

/// Whether `extension` is one of `extensions`.
pub open spec fn listed(extensions: Seq<String>, extension: Seq<char>) -> bool {
    exists|i: int| 0 <= i < extensions.len() && extensions[i]@ == extension
}

/// Whether one of `extensions` is `extension`.
fn contains_extension(extensions: &[String], extension: &String) -> (res: bool)
    ensures
        res == listed(extensions@, extension@),
{
    let mut i: usize = 0;
    while i < extensions.len()
        invariant
            i <= extensions@.len(),
            forall|k: int| 0 <= k < i ==> extensions@[k]@ != extension@,
        decreases extensions@.len() - i,
    {
        if extensions[i] == *extension {
            return true;
        }
        i = i + 1;
    }
    false
}

/// A file is shown when no extension is selected, or when its extension is one
/// of the selected ones.
pub open spec fn spec_file_visible(extension: Seq<char>, extensions: Seq<String>) -> bool {
    extensions.len() == 0 || listed(extensions, extension)
}

/// Whether a file is shown under a selection of extensions.
pub fn is_file_visible(file: &FileRecord, extensions: &[String]) -> (res: bool)
    ensures
        res == spec_file_visible(file.inferred_extension.extension@, extensions@),
{
    extensions.len() == 0 || contains_extension(extensions, &file.inferred_extension.extension)
}

/// A file is left out of an extraction when a list of extensions to include is
/// given and does not hold its extension, or, with no such list, when a list
/// of extensions to exclude is given and holds it.
pub open spec fn spec_should_skip(
    extension: Seq<char>,
    included_list: Option<Seq<String>>,
    excluded_list: Option<Seq<String>>,
) -> bool {
    match included_list {
        Some(included) => !listed(included, extension),
        None => match excluded_list {
            Some(excluded) => listed(excluded, extension),
            None => false,
        },
    }
}

/// Whether an extraction leaves a file out.
pub fn should_skip(
    file: &FileRecord,
    include_extensions: Option<&[String]>,
    exclude_extensions: Option<&[String]>,
) -> (res: bool)
    ensures
        res == spec_should_skip(
            file.inferred_extension.extension@,
            match include_extensions {
                Some(l) => Some(l@),
                None => None,
            },
            match exclude_extensions {
                Some(l) => Some(l@),
                None => None,
            },
        ),
{
    match include_extensions {
        Some(included) => !contains_extension(included, &file.inferred_extension.extension),
        None => match exclude_extensions {
            Some(excluded) => contains_extension(excluded, &file.inferred_extension.extension),
            None => false,
        },
    }
}

/// With extensions selected, a file is shown exactly when one of them, at any
/// place in the selection, is its extension; with none selected, every file is
/// shown.
pub proof fn lemma_shown_exactly_when_selected(extension: Seq<char>, extensions: Seq<String>)
    ensures
        spec_file_visible(extension, extensions) <==> extensions.len() == 0 || exists|i: int|
            0 <= i < extensions.len() && #[trigger] extensions[i]@ == extension,
        forall|i: int| 0 <= i < extensions.len() ==> spec_file_visible(#[trigger] extensions[i]@, extensions),
{
    assert forall|i: int| 0 <= i < extensions.len() implies spec_file_visible(#[trigger] extensions[i]@, extensions) by {
        assert(extensions[i]@ == extensions[i]@);
    }
}

/// An extraction with a list of extensions to include copies exactly the files
/// whose extension is in it, at any place; without one, it leaves out exactly
/// the files whose extension is in the list to exclude, at any place; with
/// neither, it copies every file.
pub proof fn lemma_skipped_exactly_when_listed(extension: Seq<char>, included: Seq<String>, excluded: Seq<String>)
    ensures
        spec_should_skip(extension, Some(included), Some(excluded)) <==> !exists|i: int|
            0 <= i < included.len() && #[trigger] included[i]@ == extension,
        spec_should_skip(extension, Some(included), None) <==> !exists|i: int|
            0 <= i < included.len() && #[trigger] included[i]@ == extension,
        spec_should_skip(extension, None, Some(excluded)) <==> exists|i: int|
            0 <= i < excluded.len() && #[trigger] excluded[i]@ == extension,
        !spec_should_skip(extension, None, None),
        forall|i: int| 0 <= i < excluded.len() ==> spec_should_skip(#[trigger] excluded[i]@, None, Some(excluded)),
        forall|i: int| 0 <= i < included.len() ==> !spec_should_skip(#[trigger] included[i]@, Some(included), Some(excluded)),
{
    assert forall|i: int| 0 <= i < excluded.len() implies spec_should_skip(#[trigger] excluded[i]@, None, Some(excluded)) by {
        assert(excluded[i]@ == excluded[i]@);
    }
    assert forall|i: int| 0 <= i < included.len() implies !spec_should_skip(#[trigger] included[i]@, Some(included), Some(excluded)) by {
        assert(included[i]@ == included[i]@);
    }
}

} // verus!
