//! The `Manifest.mbdb` index: a binary, big-endian list of file records.

use sha1::Digest;
use vstd::prelude::*;
use vstd::utf8::*;

verus! {

// ---------------------------------------------------------------------------
// Trusted calls
// ---------------------------------------------------------------------------

/// What `String::from_utf8_lossy` makes of a byte string that is not valid
/// UTF-8: the decoded text, with every invalid sequence replaced by U+FFFD.
pub uninterp spec fn utf8_lossy(bytes: Seq<u8>) -> Seq<char>;

/// The text that bytes stand for: the decoded text of valid UTF-8, and
/// otherwise what `String::from_utf8_lossy` makes of them.
pub open spec fn text_of(bytes: Seq<u8>) -> Seq<char> {
    if valid_utf8(bytes) {
        decode_utf8(bytes)
    } else {
        utf8_lossy(bytes)
    }
}

/// Calls `String::from_utf8_lossy` and takes the text as an owned `String`.
/// Claimed: on valid UTF-8 the result is exactly the decoded text (std
/// documents that valid input is converted without replacement), and
/// otherwise it is `utf8_lossy` of the bytes.
#[verifier::external_body]
fn string_from_utf8_lossy(bytes: &[u8]) -> (res: String)
    ensures
        !valid_utf8(bytes@) ==> res@ == utf8_lossy(bytes@),
        valid_utf8(bytes@) ==> res@ == decode_utf8(bytes@),
        res@ == text_of(bytes@),
{
    String::from_utf8_lossy(bytes).to_string()
}

/// The SHA-1 digest of a byte string, as computed by the `sha1` crate.
pub uninterp spec fn sha1_digest(data: Seq<u8>) -> Seq<u8>;

/// Calls `sha1::Sha1` (`new`, `update`, `finalize`) on the bytes.
/// Claimed: the result is `sha1_digest` of the input, and it is 20 bytes long
/// (the output size of `Sha1`).
#[verifier::external_body]
fn sha1(data: &[u8]) -> (res: Vec<u8>)
    ensures
        res@ == sha1_digest(data@),
        res@.len() == 20,
{
    let mut hasher = sha1::Sha1::new();
    hasher.update(data);
    hasher.finalize().to_vec()
}

// ---------------------------------------------------------------------------
// Lower-case hexadecimal
// ---------------------------------------------------------------------------

/// The lower-case hexadecimal digit for a value below 16.
pub open spec fn hex_digit(n: u8) -> char {
    if n < 10 {
        (48 + n) as char
    } else {
        (87 + n) as char
    }
}

/// Two lower-case hexadecimal digits per byte, most significant first.
pub open spec fn hex_lower(bytes: Seq<u8>) -> Seq<char>
    decreases bytes.len(),
{
    if bytes.len() == 0 {
        seq![]
    } else {
        seq![hex_digit(bytes[0] / 16), hex_digit(bytes[0] % 16)] + hex_lower(bytes.drop_first())
    }
}

proof fn lemma_hex_lower_len_ascii(bytes: Seq<u8>)
    ensures
        hex_lower(bytes).len() == 2 * bytes.len(),
        is_ascii_chars(hex_lower(bytes)),
        forall|i: int|
            0 <= i < bytes.len() ==> hex_lower(bytes)[2 * i] == hex_digit(#[trigger] bytes[i] / 16)
                && hex_lower(bytes)[2 * i + 1] == hex_digit(bytes[i] % 16),
    decreases bytes.len(),
{
    if bytes.len() > 0 {
        lemma_hex_lower_len_ascii(bytes.drop_first());
        assert forall|i: int| 0 <= i < bytes.len() implies hex_lower(bytes)[2 * i] == hex_digit(
            #[trigger] bytes[i] / 16,
        ) && hex_lower(bytes)[2 * i + 1] == hex_digit(bytes[i] % 16) by {
            if i > 0 {
                assert(bytes.drop_first()[i - 1] == bytes[i]);
            }
        }
    }
}

/// Forty lower-case hexadecimal digits: the form of a file id.
pub open spec fn is_file_id(id: Seq<char>) -> bool {
    &&& id.len() == 40
    &&& forall|i: int| 0 <= i < id.len() ==> ('0' <= #[trigger] id[i] <= '9' || 'a' <= id[i] <= 'f')
}

proof fn lemma_hex_digit_range(n: u8)
    requires
        n < 16,
    ensures
        '0' <= hex_digit(n) <= '9' || 'a' <= hex_digit(n) <= 'f',
{
}

proof fn lemma_hex_lower_is_hex(bytes: Seq<u8>)
    ensures
        forall|i: int|
            0 <= i < hex_lower(bytes).len() ==> ('0' <= #[trigger] hex_lower(bytes)[i] <= '9' || 'a'
                <= hex_lower(bytes)[i] <= 'f'),
{
    lemma_hex_lower_len_ascii(bytes);
    assert forall|i: int| 0 <= i < hex_lower(bytes).len() implies ('0' <= #[trigger] hex_lower(bytes)[i] <= '9' || 'a'
        <= hex_lower(bytes)[i] <= 'f') by {
        let k: int = i / 2;
        assert(0 <= k < bytes.len());
        lemma_hex_digit_range(bytes[k] / 16);
        lemma_hex_digit_range(bytes[k] % 16);
        if i % 2 == 0 {
            assert(i == 2 * k);
        } else {
            assert(i == 2 * k + 1);
        }
    }
}

/// Writes bytes as lower-case hexadecimal text, as `{:x}` does for a digest.
pub fn to_hex_lower(bytes: &[u8]) -> (res: String)
    requires
        2 * bytes@.len() <= usize::MAX,
    ensures
        res@ == hex_lower(bytes@),
{
    let ghost h: Seq<char> = hex_lower(bytes@);
    proof {
        lemma_hex_lower_len_ascii(bytes@);
    }
    let mut out: Vec<u8> = Vec::new();
    let mut i: usize = 0;
    while i < bytes.len()
        invariant
            i <= bytes@.len(),
            h == hex_lower(bytes@),
            h.len() == 2 * bytes@.len(),
            forall|k: int|
                0 <= k < bytes@.len() ==> h[2 * k] == hex_digit(#[trigger] bytes@[k] / 16) && h[2
                    * k + 1] == hex_digit(bytes@[k] % 16),
            out@.len() == 2 * i,
            forall|k: int| 0 <= k < 2 * i ==> #[trigger] out@[k] == h[k] as u8,
        decreases bytes@.len() - i,
    {
        let b: u8 = bytes[i];
        let hi: u8 = b / 16;
        let lo: u8 = b % 16;
        let dh: u8 = if hi < 10 { 48 + hi } else { 87 + hi };
        let dl: u8 = if lo < 10 { 48 + lo } else { 87 + lo };
        assert(h[2 * i] == hex_digit(b / 16));
        assert(h[2 * i + 1] == hex_digit(b % 16));
        out.push(dh);
        out.push(dl);
        i = i + 1;
    }
    proof {
        is_ascii_chars_encode_utf8(h);
        assert(encode_utf8(h) =~= out@);
        encode_utf8_valid_utf8(h);
        encode_utf8_decode_utf8(h);
    }
    string_from_utf8_lossy(out.as_slice())
}


// ---------------------------------------------------------------------------
// Records
// ---------------------------------------------------------------------------

/// Why a manifest could not be read.
#[derive(Debug, Clone, Copy, PartialEq, Eq)]
pub enum MbdbError {
    /// Fewer than four bytes: the magic number is missing.
    MissingHeader,
    /// The file does not start with `mbdb`.
    BadMagic,
    /// The two-byte version after the magic number is missing.
    MissingVersion,
    /// A record starts but the data ends before it does.
    TruncatedRecord,
}

/// One entry of the manifest.
#[derive(Debug)]
pub struct FileRecord {
    /// The backup domain, such as `HomeDomain`.
    pub domain: String,
    /// The path of the file inside its domain.
    pub path: String,
    /// The name under which the backup stores the file's contents.
    pub file_id: String,
    /// The Unix mode bits (file type and permissions).
    pub mode: u16,
    /// The size of the file in bytes.
    pub file_length: u64,
}

/// What a [`FileRecord`] holds, as mathematical values.
pub struct FileRecordView {
    pub domain: Seq<char>,
    pub path: Seq<char>,
    pub file_id: Seq<char>,
    pub mode: u16,
    pub file_length: u64,
}

impl View for FileRecord {
    type V = FileRecordView;

    open spec fn view(&self) -> FileRecordView {
        FileRecordView {
            domain: self.domain@,
            path: self.path@,
            file_id: self.file_id@,
            mode: self.mode,
            file_length: self.file_length,
        }
    }
}

impl Clone for FileRecord {
    fn clone(&self) -> (res: Self)
        ensures
            res == *self,
    {
        FileRecord {
            domain: self.domain.clone(),
            path: self.path.clone(),
            file_id: self.file_id.clone(),
            mode: self.mode,
            file_length: self.file_length,
        }
    }
}

/// The views of a list of records.
pub open spec fn records_view(records: Seq<FileRecord>) -> Seq<FileRecordView> {
    records.map_values(|r: FileRecord| r@)
}

/// A big-endian 16-bit number at `p`.
pub open spec fn be_u16(s: Seq<u8>, p: int) -> int {
    s[p] * 256 + s[p + 1]
}

/// A big-endian 64-bit number at `p`.
pub open spec fn be_u64(s: Seq<u8>, p: int) -> int {
    s[p] * 0x100000000000000 + s[p + 1] * 0x1000000000000 + s[p + 2] * 0x10000000000 + s[p + 3]
        * 0x100000000 + s[p + 4] * 0x1000000 + s[p + 5] * 0x10000 + s[p + 6] * 0x100 + s[p + 7]
}

/// Where a length-prefixed string field that starts at `p` ends; a length of
/// `0xFFFF` marks an empty field with no bytes after the length.
pub open spec fn string_end(s: Seq<u8>, p: int) -> Option<int> {
    if p + 2 <= s.len() {
        let n: int = be_u16(s, p);
        if n == 0xFFFF {
            Some(p + 2)
        } else if p + 2 + n <= s.len() {
            Some(p + 2 + n)
        } else {
            None
        }
    } else {
        None
    }
}

/// The text of the string field at `p`.
pub open spec fn string_text(s: Seq<u8>, p: int) -> Seq<char> {
    if be_u16(s, p) == 0xFFFF {
        seq![]
    } else {
        text_of(s.subrange(p + 2, p + 2 + be_u16(s, p)))
    }
}

/// Where a property (a length-prefixed name and a length-prefixed value) that
/// starts at `p` ends.
pub open spec fn property_end(s: Seq<u8>, p: int) -> Option<int> {
    if p + 2 <= s.len() && p + 4 + be_u16(s, p) <= s.len() {
        let q: int = p + 2 + be_u16(s, p);
        if q + 2 + be_u16(s, q) <= s.len() {
            Some(q + 2 + be_u16(s, q))
        } else {
            None
        }
    } else {
        None
    }
}

/// Where `n` properties that start at `p` end.
pub open spec fn properties_end(s: Seq<u8>, p: int, n: nat) -> Option<int>
    decreases n,
{
    if n == 0 {
        Some(p)
    } else {
        match property_end(s, p) {
            Some(q) => properties_end(s, q, (n - 1) as nat),
            None => None,
        }
    }
}

/// A regular file, not a directory or a link: the file-type bits of the mode.
pub open spec fn is_regular_file(mode: u16) -> bool {
    mode & 0xF000 == 0x8000
}

/// The name of a backed-up file: the SHA-1 of `domain-path`, in lower-case hex.
pub open spec fn file_id_of(domain: Seq<char>, path: Seq<char>) -> Seq<char> {
    hex_lower(sha1_digest(encode_utf8(domain + seq!['-'] + path)))
}

/// The record whose domain length is at `p`, whose domain ends at `q1` and
/// whose fixed-size fields start at `q5`.
pub open spec fn record_view(s: Seq<u8>, p: int, q1: int, q5: int) -> FileRecordView {
    let domain: Seq<char> = text_of(s.subrange(p + 2, q1));
    let path: Seq<char> = string_text(s, q1);
    FileRecordView {
        domain: domain,
        path: path,
        file_id: file_id_of(domain, path),
        mode: be_u16(s, q5) as u16,
        file_length: be_u64(s, q5 + 30) as u64,
    }
}

/// What reading one record at `p` gives.
pub enum RecordStep {
    /// No record: the data ends, or the end marker (a zero domain length).
    End,
    /// A record starts but does not fit in the data.
    Truncated,
    /// A record that ends at the given offset.
    Entry(int, FileRecordView),
}

/// A record is: the domain (length and bytes); path, link target, data hash
/// and encryption key (string fields); mode, inode, uid, gid, three times,
/// length, a flag and the number of properties (40 bytes); the properties.
pub open spec fn record_at(s: Seq<u8>, p: int) -> RecordStep {
    if p + 2 > s.len() || be_u16(s, p) == 0 {
        RecordStep::End
    } else if p + 2 + be_u16(s, p) > s.len() {
        RecordStep::Truncated
    } else {
        let q1: int = p + 2 + be_u16(s, p);
        match string_end(s, q1) {
            None => RecordStep::Truncated,
            Some(q2) => match string_end(s, q2) {
                None => RecordStep::Truncated,
                Some(q3) => match string_end(s, q3) {
                    None => RecordStep::Truncated,
                    Some(q4) => match string_end(s, q4) {
                        None => RecordStep::Truncated,
                        Some(q5) => if q5 + 40 > s.len() {
                            RecordStep::Truncated
                        } else {
                            match properties_end(s, q5 + 40, s[q5 + 39] as nat) {
                                None => RecordStep::Truncated,
                                Some(q6) => RecordStep::Entry(q6, record_view(s, p, q1, q5)),
                            }
                        },
                    },
                },
            },
        }
    }
}

/// The regular files among the records from `p` on, up to the end of the data
/// or the end marker.
pub open spec fn files_from(s: Seq<u8>, p: int) -> Result<Seq<FileRecordView>, MbdbError>
    decreases s.len() - p,
{
    match record_at(s, p) {
        RecordStep::End => Ok(seq![]),
        RecordStep::Truncated => Err(MbdbError::TruncatedRecord),
        RecordStep::Entry(q, r) => if p < q <= s.len() {
            match files_from(s, q) {
                Ok(rest) => Ok(
                    if is_regular_file(r.mode) {
                        seq![r] + rest
                    } else {
                        rest
                    },
                ),
                Err(e) => Err(e),
            }
        } else {
            Err(MbdbError::TruncatedRecord)
        },
    }
}

/// A manifest: the magic number `mbdb`, a two-byte version, then records.
pub open spec fn spec_parse(s: Seq<u8>) -> Result<Seq<FileRecordView>, MbdbError> {
    if s.len() < 4 {
        Err(MbdbError::MissingHeader)
    } else if s.subrange(0, 4) != seq![0x6du8, 0x62u8, 0x64u8, 0x62u8] {
        Err(MbdbError::BadMagic)
    } else if s.len() < 6 {
        Err(MbdbError::MissingVersion)
    } else {
        files_from(s, 6)
    }
}


proof fn lemma_string_end_bounds(s: Seq<u8>, p: int)
    ensures
        string_end(s, p) matches Some(q) ==> p + 2 <= q <= s.len(),
{
}

proof fn lemma_properties_end_bounds(s: Seq<u8>, p: int, n: nat)
    ensures
        properties_end(s, p, n) matches Some(q) ==> p <= q <= s.len() || (n == 0 && q == p),
    decreases n,
{
    if n > 0 {
        if let Some(q) = property_end(s, p) {
            lemma_properties_end_bounds(s, q, (n - 1) as nat);
        }
    }
}

/// The steps of [`record_at`] never go backwards.
proof fn lemma_record_at_advances(s: Seq<u8>, p: int)
    requires
        0 <= p <= s.len(),
    ensures
        record_at(s, p) matches RecordStep::Entry(q, _) ==> p < q <= s.len(),
{
    if p + 2 <= s.len() && be_u16(s, p) != 0 && p + 2 + be_u16(s, p) <= s.len() {
        let q1: int = p + 2 + be_u16(s, p);
        lemma_string_end_bounds(s, q1);
        if let Some(q2) = string_end(s, q1) {
            lemma_string_end_bounds(s, q2);
            if let Some(q3) = string_end(s, q2) {
                lemma_string_end_bounds(s, q3);
                if let Some(q4) = string_end(s, q3) {
                    lemma_string_end_bounds(s, q4);
                    if let Some(q5) = string_end(s, q4) {
                        if q5 + 40 <= s.len() {
                            lemma_properties_end_bounds(s, q5 + 40, s[q5 + 39] as nat);
                        }
                    }
                }
            }
        }
    }
}

// ---------------------------------------------------------------------------
// Properties of the format
// ---------------------------------------------------------------------------

proof fn lemma_files_from_regular(s: Seq<u8>, p: int)
    requires
        0 <= p <= s.len(),
    ensures
        files_from(s, p) matches Ok(files) ==> forall|i: int|
            0 <= i < files.len() ==> is_regular_file(#[trigger] files[i].mode),
    decreases s.len() - p,
{
    lemma_record_at_advances(s, p);
    if let RecordStep::Entry(q, r) = record_at(s, p) {
        lemma_files_from_regular(s, q);
        if let Ok(rest) = files_from(s, q) {
            if is_regular_file(r.mode) {
                assert forall|i: int| 0 <= i < rest.len() + 1 implies is_regular_file(
                    #[trigger] (seq![r] + rest)[i].mode,
                ) by {
                    if i > 0 {
                        assert((seq![r] + rest)[i] == rest[i - 1]);
                    }
                }
            }
        }
    }
}

/// Only regular files come out of a manifest: directories, links and other
/// special files are left out.
pub proof fn lemma_only_regular_files(s: Seq<u8>)
    ensures
        spec_parse(s) matches Ok(files) ==> forall|i: int|
            0 <= i < files.len() ==> is_regular_file(#[trigger] files[i].mode),
{
    if s.len() >= 6 {
        lemma_files_from_regular(s, 6);
    }
}

proof fn lemma_string_end_extend(s: Seq<u8>, t: Seq<u8>, p: int)
    requires
        0 <= p,
    ensures
        string_end(s, p) matches Some(q) ==> string_end(s + t, p) == Some(q) && string_text(s + t, p)
            == string_text(s, p),
{
    if let Some(q) = string_end(s, p) {
        assert((s + t)[p] == s[p]);
        assert((s + t)[p + 1] == s[p + 1]);
        if be_u16(s, p) != 0xFFFF {
            assert((s + t).subrange(p + 2, q) =~= s.subrange(p + 2, q));
        }
    }
}

proof fn lemma_properties_end_extend(s: Seq<u8>, t: Seq<u8>, p: int, n: nat)
    requires
        0 <= p,
    ensures
        properties_end(s, p, n) matches Some(q) ==> properties_end(s + t, p, n) == Some(q),
    decreases n,
{
    if n > 0 {
        if let Some(q) = property_end(s, p) {
            assert((s + t)[p] == s[p]);
            assert((s + t)[p + 1] == s[p + 1]);
            let m: int = p + 2 + be_u16(s, p);
            assert((s + t)[m] == s[m]);
            assert((s + t)[m + 1] == s[m + 1]);
            assert(property_end(s + t, p) == Some(q));
            lemma_properties_end_extend(s, t, q, (n - 1) as nat);
        }
    }
}

/// A record reads the same whatever follows it.
proof fn lemma_record_at_extend(s: Seq<u8>, t: Seq<u8>, p: int)
    requires
        0 <= p <= s.len(),
    ensures
        record_at(s, p) matches RecordStep::Entry(q, r) ==> record_at(s + t, p) == RecordStep::Entry(q, r),
{
    if let RecordStep::Entry(q, r) = record_at(s, p) {
        let u: Seq<u8> = s + t;
        assert(u[p] == s[p]);
        assert(u[p + 1] == s[p + 1]);
        let q1: int = p + 2 + be_u16(s, p);
        assert(u.subrange(p + 2, q1) =~= s.subrange(p + 2, q1));
        lemma_string_end_extend(s, t, q1);
        let q2: int = string_end(s, q1).unwrap();
        lemma_string_end_bounds(s, q1);
        lemma_string_end_extend(s, t, q2);
        let q3: int = string_end(s, q2).unwrap();
        lemma_string_end_bounds(s, q2);
        lemma_string_end_extend(s, t, q3);
        let q4: int = string_end(s, q3).unwrap();
        lemma_string_end_bounds(s, q3);
        lemma_string_end_extend(s, t, q4);
        let q5: int = string_end(s, q4).unwrap();
        lemma_string_end_bounds(s, q4);
        assert(u[q5 + 39] == s[q5 + 39]);
        assert(u[q5] == s[q5]);
        assert(u[q5 + 1] == s[q5 + 1]);
        assert forall|k: int| q5 + 30 <= k < q5 + 38 implies u[k] == s[k] by {}
        lemma_properties_end_extend(s, t, q5 + 40, s[q5 + 39] as nat);
        assert(record_view(u, p, q1, q5) == record_view(s, p, q1, q5));
    }
}

/// The records from `p` on are followed by an end marker (a zero domain
/// length) that lies inside the data.
pub open spec fn reaches_end_marker(s: Seq<u8>, p: int) -> bool
    decreases s.len() - p,
{
    if p + 2 <= s.len() && be_u16(s, p) == 0 {
        true
    } else {
        match record_at(s, p) {
            RecordStep::Entry(q, _) => p < q <= s.len() && reaches_end_marker(s, q),
            _ => false,
        }
    }
}

proof fn lemma_files_from_extend(s: Seq<u8>, t: Seq<u8>, p: int)
    requires
        0 <= p <= s.len(),
        reaches_end_marker(s, p),
    ensures
        files_from(s + t, p) == files_from(s, p),
    decreases s.len() - p,
{
    let u: Seq<u8> = s + t;
    if p + 2 <= s.len() && be_u16(s, p) == 0 {
        assert(u[p] == s[p]);
        assert(u[p + 1] == s[p + 1]);
    } else {
        lemma_record_at_extend(s, t, p);
        if let RecordStep::Entry(q, r) = record_at(s, p) {
            lemma_files_from_extend(s, t, q);
        }
    }
}

/// Whatever follows the end marker of a manifest is ignored.
pub proof fn lemma_bytes_after_end_marker_ignored(s: Seq<u8>, t: Seq<u8>)
    requires
        s.len() >= 6,
        reaches_end_marker(s, 6),
    ensures
        spec_parse(s + t) == spec_parse(s),
{
    assert((s + t).subrange(0, 4) =~= s.subrange(0, 4));
    lemma_files_from_extend(s, t, 6);
}

fn read_u16(s: &[u8], p: usize) -> (r: u16)
    requires
        p + 2 <= s@.len(),
    ensures
        r as int == be_u16(s@, p as int),
{
    (s[p] as u16) * 256 + (s[p + 1] as u16)
}

fn read_u64(s: &[u8], p: usize) -> (r: u64)
    requires
        p + 8 <= s@.len(),
    ensures
        r as int == be_u64(s@, p as int),
{
    (s[p] as u64) * 0x100000000000000 + (s[p + 1] as u64) * 0x1000000000000 + (s[p + 2] as u64)
        * 0x10000000000 + (s[p + 3] as u64) * 0x100000000 + (s[p + 4] as u64) * 0x1000000 + (s[p
        + 5] as u64) * 0x10000 + (s[p + 6] as u64) * 0x100 + (s[p + 7] as u64)
}

/// Reads `len` bytes at `p` as text; fails where the data is too short.
fn read_string(s: &[u8], p: usize, len: usize) -> (res: Result<(usize, String), MbdbError>)
    requires
        p <= s@.len(),
    ensures
        p + len <= s@.len() ==> (res matches Ok((q, t)) && q == p + len && t@ == text_of(
            s@.subrange(p as int, p + len),
        )),
        p + len > s@.len() ==> res == Err::<(usize, String), MbdbError>(MbdbError::TruncatedRecord),
{
    if s.len() - p < len {
        return Err(MbdbError::TruncatedRecord);
    }
    let bytes: &[u8] = vstd::slice::slice_subrange(s, p, p + len);
    Ok((p + len, string_from_utf8_lossy(bytes)))
}

/// Reads the string field at `p`: a length, then that many bytes, where the
/// length `0xFFFF` stands for an empty field.
fn read_string_or_blank(s: &[u8], p: usize) -> (res: Result<(usize, String), MbdbError>)
    requires
        p <= s@.len(),
    ensures
        match string_end(s@, p as int) {
            Some(q) => res matches Ok((q2, t)) && q2 == q && t@ == string_text(s@, p as int),
            None => res == Err::<(usize, String), MbdbError>(MbdbError::TruncatedRecord),
        },
{
    if s.len() - p < 2 {
        return Err(MbdbError::TruncatedRecord);
    }
    let length: u16 = read_u16(s, p);
    if length == 0xFFFF {
        return Ok((p + 2, String::new()));
    }
    read_string(s, p + 2, length as usize)
}

/// The name under which the backup stores a file: the lower-case hex SHA-1 of
/// `domain-path`.
pub fn compute_file_id(domain: &str, path: &str) -> (res: String)
    ensures
        res@ == file_id_of(domain@, path@),
        is_file_id(res@),
{
    let combined: String = domain.to_owned().concat("-").concat(path);
    proof {
        reveal_strlit("-");
        assert(combined@ =~= domain@ + seq!['-'] + path@);
    }
    let digest: Vec<u8> = sha1(combined.as_str().as_bytes());
    proof {
        lemma_hex_lower_len_ascii(digest@);
        lemma_hex_lower_is_hex(digest@);
    }
    to_hex_lower(digest.as_slice())
}


/// Reads the record at `p`: `Ok(None)` at the end of the data (fewer than two
/// bytes left) or at the end marker, the record and where it ends otherwise.
fn parse_file_record(s: &[u8], p: usize) -> (res: Result<Option<(usize, FileRecord)>, MbdbError>)
    requires
        p <= s@.len(),
    ensures
        match record_at(s@, p as int) {
            RecordStep::End => res matches Ok(None),
            RecordStep::Truncated => res matches Err(MbdbError::TruncatedRecord),
            RecordStep::Entry(q, r) => res matches Ok(Some((q2, rec))) && q2 == q && rec@ == r
                && is_file_id(rec.file_id@),
        },
{
    let ghost sv: Seq<u8> = s@;
    if s.len() - p < 2 {
        return Ok(None);
    }
    let domain_len: u16 = read_u16(s, p);
    if domain_len == 0 {
        return Ok(None);
    }
    let (q1, domain) = read_string(s, p + 2, domain_len as usize)?;
    let (q2, path) = read_string_or_blank(s, q1)?;
    proof {
        lemma_string_end_bounds(sv, q1 as int);
    }
    let (q3, _link_target) = read_string_or_blank(s, q2)?;
    proof {
        lemma_string_end_bounds(sv, q2 as int);
    }
    let (q4, _data_hash) = read_string_or_blank(s, q3)?;
    proof {
        lemma_string_end_bounds(sv, q3 as int);
    }
    let (q5, _encryption_key) = read_string_or_blank(s, q4)?;
    proof {
        lemma_string_end_bounds(sv, q4 as int);
    }
    if s.len() - q5 < 40 {
        return Err(MbdbError::TruncatedRecord);
    }
    let mode: u16 = read_u16(s, q5);
    let file_length: u64 = read_u64(s, q5 + 30);
    let num_props: u8 = s[q5 + 39];
    let mut q: usize = q5 + 40;
    let mut i: u8 = 0;
    assert(record_at(sv, p as int) == match properties_end(sv, q5 + 40, num_props as nat) {
        None => RecordStep::Truncated,
        Some(q6) => RecordStep::Entry(q6, record_view(sv, p as int, q1 as int, q5 as int)),
    });
    while i < num_props
        invariant
            sv == s@,
            record_at(sv, p as int) == match properties_end(sv, q5 + 40, num_props as nat) {
                None => RecordStep::Truncated,
                Some(q6) => RecordStep::Entry(q6, record_view(sv, p as int, q1 as int, q5 as int)),
            },
            q5 + 40 <= q <= s@.len(),
            i <= num_props,
            properties_end(sv, q5 + 40, num_props as nat) == properties_end(
                sv,
                q as int,
                (num_props - i) as nat,
            ),
        decreases num_props - i,
    {
        if s.len() - q < 2 {
            return Err(MbdbError::TruncatedRecord);
        }
        let name_len: u16 = read_u16(s, q);
        let (after_name, _name) = read_string(s, q + 2, name_len as usize)?;
        if s.len() - after_name < 2 {
            return Err(MbdbError::TruncatedRecord);
        }
        let value_len: u16 = read_u16(s, after_name);
        if s.len() - (after_name + 2) < value_len as usize {
            return Err(MbdbError::TruncatedRecord);
        }
        q = after_name + 2 + value_len as usize;
        i = i + 1;
    }
    let file_id: String = compute_file_id(domain.as_str(), path.as_str());
    let record: FileRecord = FileRecord { domain, path, file_id, mode, file_length };
    proof {
        assert(record@ == record_view(sv, p as int, q1 as int, q5 as int));
    }
    Ok(Some((q, record)))
}

/// Reads a whole manifest and keeps the regular files, in the order in which
/// the manifest lists them.
pub fn parse(data: &[u8]) -> (res: Result<Vec<FileRecord>, MbdbError>)
    ensures
        match spec_parse(data@) {
            Ok(files) => res matches Ok(v) && records_view(v@) == files && forall|i: int|
                0 <= i < v@.len() ==> is_file_id((#[trigger] v@[i]).file_id@),
            Err(e) => res == Err::<Vec<FileRecord>, MbdbError>(e),
        },
{
    if data.len() < 4 {
        return Err(MbdbError::MissingHeader);
    }
    if !(data[0] == 0x6d && data[1] == 0x62 && data[2] == 0x64 && data[3] == 0x62) {
        proof {
            if data@.subrange(0, 4) == seq![0x6du8, 0x62u8, 0x64u8, 0x62u8] {
                assert(data@.subrange(0, 4)[0] == data@[0]);
                assert(data@.subrange(0, 4)[1] == data@[1]);
                assert(data@.subrange(0, 4)[2] == data@[2]);
                assert(data@.subrange(0, 4)[3] == data@[3]);
            }
        }
        return Err(MbdbError::BadMagic);
    }
    assert(data@.subrange(0, 4) =~= seq![0x6du8, 0x62u8, 0x64u8, 0x62u8]);
    if data.len() < 6 {
        return Err(MbdbError::MissingVersion);
    }
    let mut files: Vec<FileRecord> = Vec::new();
    let mut pos: usize = 6;
    loop
        invariant
            6 <= pos <= data@.len(),
            spec_parse(data@) == files_from(data@, 6),
            forall|i: int| 0 <= i < files@.len() ==> is_file_id((#[trigger] files@[i]).file_id@),
            files_from(data@, 6) == (match files_from(data@, pos as int) {
                Ok(rest) => Ok(records_view(files@) + rest),
                Err(e) => Err(e),
            }),
        decreases data@.len() - pos,
    {
        proof {
            lemma_record_at_advances(data@, pos as int);
        }
        match parse_file_record(data, pos) {
            Err(e) => {
                return Err(e);
            },
            Ok(None) => {
                assert(records_view(files@) + seq![] =~= records_view(files@));
                return Ok(files);
            },
            Ok(Some((next, record))) => {
                let ghost before: Seq<FileRecordView> = records_view(files@);
                if (record.mode & 0xF000) == 0x8000 {
                    files.push(record);
                    assert(records_view(files@) =~= before.push(record@));
                }
                proof {
                    match files_from(data@, next as int) {
                        Ok(rest) => {
                            assert(before + (seq![record@] + rest) =~= before.push(record@)
                                + rest);
                        },
                        Err(_) => {},
                    }
                }
                pos = next;
            },
        }
    }
}

/// The properties of a record are read one after another: `n + 1` properties
/// end where one more property follows the first `n`.
pub proof fn lemma_properties_end_one_more(s: Seq<u8>, p: int, n: nat)
    ensures
        properties_end(s, p, n + 1) == match properties_end(s, p, n) {
            Some(q) => property_end(s, q),
            None => None,
        },
    decreases n,
{
    if let Some(q) = property_end(s, p) {
        assert(properties_end(s, p, n + 1) == properties_end(s, q, n));
        if n == 0 {
            assert(properties_end(s, q, 0) == Some(q));
        } else {
            lemma_properties_end_one_more(s, q, (n - 1) as nat);
            assert(properties_end(s, p, n) == properties_end(s, q, (n - 1) as nat));
        }
    }
}

/// Each property takes at least four bytes (two lengths): `n` properties that
/// start at `p` end no earlier than `p + 4 * n`.
pub proof fn lemma_properties_take_their_bytes(s: Seq<u8>, p: int, n: nat)
    ensures
        properties_end(s, p, n) matches Some(q) ==> q >= p + 4 * n,
    decreases n,
{
    if n > 0 {
        if let Some(q) = property_end(s, p) {
            lemma_properties_take_their_bytes(s, q, (n - 1) as nat);
        }
    }
}

} // verus!
