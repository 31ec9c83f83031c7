//! Guessing what kind of file a backed-up file is: from the first bytes of its
//! contents where they are recognised, from its path otherwise.

pub mod extension_type;

use crate::infer::extension_type::{ExtensionType, MatcherType};
use crate::mbdb::FileRecord;
use vstd::prelude::*;

verus! {

// ---------------------------------------------------------------------------
// Trusted calls
// ---------------------------------------------------------------------------

/// What `infer::get` recognises in a header: the usual extension of the type it
/// detects and the type's family, or nothing.
pub uninterp spec fn detected_type(header: Seq<u8>) -> Option<(Seq<char>, MatcherType)>;

/// Calls `infer::get` on the header and keeps the detected type's extension
/// and family. Claimed: the result is `detected_type` of the header, and the
/// family is never `Custom` (the crate's built-in detector holds no custom
/// matcher). The header is at most 8192 bytes, the most that a reader hands
/// out, and `usize` is 64 bits wide: the zstd and lz4 matchers walk skippable
/// frames by recursion and add a frame's 32-bit length to 8 in `usize`, which
/// overflows on a 32-bit target and recurses once per frame.
#[verifier::external_body]
fn infer_get(header: &[u8]) -> (res: Option<(String, MatcherType)>)
    requires
        header@.len() <= 8192,
        usize::BITS == 64,
    ensures
        match detected_type(header@) {
            Some((ext, kind)) => res matches Some((e, k)) && e@ == ext && k == kind,
            None => res is None,
        },
        res matches Some((_, k)) ==> k != MatcherType::Custom,
{
    match ::infer::get(header) {
        None => None,
        Some(t) => Some((t.extension().to_string(), match t.matcher_type() {
            ::infer::MatcherType::App => MatcherType::App,
            ::infer::MatcherType::Archive => MatcherType::Archive,
            ::infer::MatcherType::Audio => MatcherType::Audio,
            ::infer::MatcherType::Book => MatcherType::Book,
            ::infer::MatcherType::Doc => MatcherType::Doc,
            ::infer::MatcherType::Font => MatcherType::Font,
            ::infer::MatcherType::Image => MatcherType::Image,
            ::infer::MatcherType::Text => MatcherType::Text,
            ::infer::MatcherType::Video => MatcherType::Video,
            ::infer::MatcherType::Custom => MatcherType::Custom,
        })),
    }
}

/// Where the last dot of a name stands, or -1 where it has none.
pub open spec fn last_dot(name: Seq<char>) -> int
    decreases name.len(),
{
    if name.len() == 0 {
        -1
    } else if name.last() == '.' {
        name.len() - 1
    } else {
        last_dot(name.drop_last())
    }
}

/// The extension of a file name: nothing where the name has no dot, or its
/// only dot is its first character; otherwise what follows the last dot.
pub open spec fn extension_of_name(name: Seq<char>) -> Option<Seq<char>> {
    if last_dot(name) <= 0 {
        None
    } else {
        Some(name.skip(last_dot(name) + 1))
    }
}

/// The extension of a path: that of its file name, where it has one.
pub open spec fn path_extension(path: Seq<char>) -> Option<Seq<char>> {
    match path_file_name(path) {
        Some(name) => extension_of_name(name),
        None => None,
    }
}

/// Calls `Path::extension` on the path, as text. Claimed (std's
/// documentation): no extension where the path has no file name, where the
/// file name has no dot, or where its only dot is its first character;
/// otherwise what follows the file name's last dot.
#[verifier::external_body]
fn std_path_extension(path: &str) -> (res: Option<String>)
    ensures
        match path_extension(path@) {
            Some(ext) => res matches Some(e) && e@ == ext,
            None => res is None,
        },
{
    match std::path::Path::new(path).extension() {
        Some(e) => Some(e.to_string_lossy().to_string()),
        None => None,
    }
}

/// What `std::path::Path::file_name` gives for a path.
pub uninterp spec fn path_file_name(path: Seq<char>) -> Option<Seq<char>>;

/// Calls `Path::file_name` on the path, as text. Claimed: the result is
/// `path_file_name` of the path.
#[verifier::external_body]
pub(crate) fn std_path_file_name(path: &str) -> (res: Option<String>)
    ensures
        match path_file_name(path@) {
            Some(name) => res matches Some(n) && n@ == name,
            None => res is None,
        },
{
    match std::path::Path::new(path).file_name() {
        Some(n) => Some(n.to_string_lossy().to_string()),
        None => None,
    }
}

// ---------------------------------------------------------------------------
// Inference
// ---------------------------------------------------------------------------

/// The extension of a file and the family of its type.
#[derive(Debug)]
pub struct InferredExtension {
    pub extension: String,
    pub extension_type: ExtensionType,
}

/// What an [`InferredExtension`] holds, as mathematical values.
pub struct InferredExtensionView {
    pub extension: Seq<char>,
    pub extension_type: ExtensionType,
}

impl View for InferredExtension {
    type V = InferredExtensionView;

    open spec fn view(&self) -> InferredExtensionView {
        InferredExtensionView { extension: self.extension@, extension_type: self.extension_type }
    }
}

impl Clone for InferredExtension {
    fn clone(&self) -> (res: Self)
        ensures
            res == *self,
    {
        InferredExtension { extension: self.extension.clone(), extension_type: self.extension_type }
    }
}

/// Where the contents are not recognised: the path's extension, else its file
/// name, else the whole path.
pub open spec fn fallback_extension(path: Seq<char>) -> Seq<char> {
    match path_extension(path) {
        Some(ext) => ext,
        None => match path_file_name(path) {
            Some(name) => name,
            None => path,
        },
    }
}

/// The result for a detection outcome `detected` and the path of the file.
pub open spec fn inferred_from(detected: Option<(Seq<char>, MatcherType)>, path: Seq<char>) -> InferredExtensionView {
    match detected {
        Some((ext, kind)) => InferredExtensionView { extension: ext, extension_type: ExtensionType(kind) },
        None => InferredExtensionView {
            extension: fallback_extension(path),
            extension_type: ExtensionType(MatcherType::Custom),
        },
    }
}

/// The extension and family of a file whose path is `path` and whose contents
/// start with `header`.
pub open spec fn spec_infer_extension(path: Seq<char>, header: Seq<u8>) -> InferredExtensionView {
    inferred_from(detected_type(header), path)
}

/// The extension that the path suggests: its extension, else its file name,
/// else the whole path.
pub fn path_fallback_extension(path: &str) -> (res: String)
    ensures
        res@ == fallback_extension(path@),
{
    match std_path_extension(path) {
        Some(ext) => ext,
        None => match std_path_file_name(path) {
            Some(name) => name,
            None => path.to_owned(),
        },
    }
}

/// The result for what detection found: the detected extension and family, or,
/// where nothing was detected, the path's fallback extension in the `Custom`
/// family.
pub fn inferred_extension_from(detected: Option<(String, MatcherType)>, path: &str) -> (res: InferredExtension)
    ensures
        res@ == inferred_from(
            match detected {
                Some((e, k)) => Some((e@, k)),
                None => None,
            },
            path@,
        ),
{
    match detected {
        Some((extension, kind)) => InferredExtension { extension, extension_type: ExtensionType(kind) },
        None => InferredExtension {
            extension: path_fallback_extension(path),
            extension_type: ExtensionType(MatcherType::Custom),
        },
    }
}

/// The extension and family of a file, from the start of its contents (at most
/// 8192 bytes) and its path, on a 64-bit target.
pub fn infer_extension(path: &str, header: &[u8]) -> (res: InferredExtension)
    requires
        header@.len() <= 8192,
        usize::BITS == 64,
    ensures
        res@ == spec_infer_extension(path@, header@),
{
    let detected: Option<(String, MatcherType)> = infer_get(header);
    inferred_extension_from(detected, path)
}

/// Gives the first bytes of a backed-up file's contents, by its file id: at
/// most 8192 of them.
pub trait FileHeaderReader {
    /// `header` is what this reader can give for the file named `file_name`;
    /// a reader that says nothing of its headers allows any.
    open spec fn header_read(&self, file_name: Seq<char>, header: Seq<u8>) -> bool {
        true
    }

    fn read_header(&self, file_name: &str) -> (res: Vec<u8>)
        ensures
            self.header_read(file_name@, res@),
            res@.len() <= 8192,
    ;
}

/// Reads the start of a record's contents, by the record's file id, and infers
/// its kind from those bytes and the record's path.
pub fn file_type<R: FileHeaderReader>(file_record: &FileRecord, file_header_reader: &R) -> (res: InferredExtension)
    requires
        usize::BITS == 64,
    ensures
        exists|header: Seq<u8>|
            file_header_reader.header_read(file_record.file_id@, header) && res@
                == #[trigger] spec_infer_extension(file_record.path@, header),
{
    let header: Vec<u8> = file_header_reader.read_header(file_record.file_id.as_str());
    infer_extension(file_record.path.as_str(), header.as_slice())
}

} // verus!
