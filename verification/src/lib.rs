//! Reading the `Manifest.mbdb` index of an unencrypted iOS backup, guessing the
//! kind of each backed-up file, and summarising what a backup holds.

pub mod directory;
pub mod infer;
pub mod listing;
pub mod mbdb;
pub mod report;
pub mod selection;
pub mod summary;
pub mod utils;

pub use summary::gather_extensions;

use crate::infer::{file_type, spec_infer_extension, FileHeaderReader, InferredExtension, InferredExtensionView};
use crate::mbdb::MbdbError;
use vstd::prelude::*;

verus! {

/// A file of the backup: its manifest record and what its kind was found to be.
#[derive(Debug)]
pub struct FileRecord {
    pub inferred_extension: InferredExtension,
    pub mbdb: mbdb::FileRecord,
}

/// What a [`FileRecord`] holds, as mathematical values.
pub struct FileRecordView {
    pub inferred_extension: InferredExtensionView,
    pub mbdb: mbdb::FileRecordView,
}

impl View for FileRecord {
    type V = FileRecordView;

    open spec fn view(&self) -> FileRecordView {
        FileRecordView { inferred_extension: self.inferred_extension@, mbdb: self.mbdb@ }
    }
}

impl Clone for FileRecord {
    fn clone(&self) -> (res: Self)
        ensures
            res == *self,
    {
        FileRecord { inferred_extension: self.inferred_extension.clone(), mbdb: self.mbdb.clone() }
    }
}

/// The inferred kinds of a list of files.
pub open spec fn inferred_views(records: Seq<FileRecord>) -> Seq<InferredExtensionView> {
    records.map_values(|r: FileRecord| r.inferred_extension@)
}

/// Reads a manifest and infers the kind of each regular file it lists, reading
/// the start of each file's contents through `file_header_reader`, on a 64-bit
/// target.
pub fn parse<R: FileHeaderReader>(data: &[u8], file_header_reader: &R) -> (res: Result<Vec<FileRecord>, MbdbError>)
    requires
        usize::BITS == 64,
    ensures
        match mbdb::spec_parse(data@) {
            Ok(files) => res matches Ok(v) && v@.len() == files.len() && forall|i: int|
                0 <= i < files.len() ==> (#[trigger] v@[i]).mbdb@ == files[i] && exists|header: Seq<u8>|
                    file_header_reader.header_read(files[i].file_id, header)
                        && v@[i].inferred_extension@ == #[trigger] spec_infer_extension(files[i].path, header),
            Err(e) => res == Err::<Vec<FileRecord>, MbdbError>(e),
        },
{
    let records: Vec<mbdb::FileRecord> = mbdb::parse(data)?;
    let ghost files: Seq<mbdb::FileRecordView> = mbdb::records_view(records@);
    let mut out: Vec<FileRecord> = Vec::new();
    let mut i: usize = 0;
    while i < records.len()
        invariant
            usize::BITS == 64,
            i <= records@.len(),
            files == mbdb::records_view(records@),
            out@.len() == i,
            forall|k: int|
                0 <= k < i ==> (#[trigger] out@[k]).mbdb@ == files[k] && exists|header: Seq<u8>|
                    file_header_reader.header_read(files[k].file_id, header)
                        && out@[k].inferred_extension@ == #[trigger] spec_infer_extension(files[k].path, header),
        decreases records@.len() - i,
    {
        let mbdb_record: mbdb::FileRecord = records[i].clone();
        let inferred_extension: InferredExtension = file_type(&mbdb_record, file_header_reader);
        let ghost old_out: Seq<FileRecord> = out@;
        let ghost inferred: InferredExtensionView = inferred_extension@;
        let ghost path: Seq<char> = mbdb_record.path@;
        let ghost file_id: Seq<char> = mbdb_record.file_id@;
        proof {
            assert(files[i as int] == records@[i as int]@);
        }
        out.push(FileRecord { inferred_extension, mbdb: mbdb_record });
        proof {
            assert forall|k: int| 0 <= k < i + 1 implies (#[trigger] out@[k]).mbdb@ == files[k] && exists|header: Seq<u8>|
                file_header_reader.header_read(files[k].file_id, header)
                    && out@[k].inferred_extension@ == #[trigger] spec_infer_extension(files[k].path, header) by {
                if k < i {
                    assert(out@[k] == old_out[k]);
                } else {
                    let h: Seq<u8> = choose|h: Seq<u8>|
                        file_header_reader.header_read(file_id, h) && inferred == spec_infer_extension(path, h);
                    assert(out@[k].inferred_extension@ == spec_infer_extension(files[k].path, h));
                }
            }
        }
        i = i + 1;
    }
    Ok(out)
}

} // verus!
