use ios_backup_core::infer::extension_type::{ExtensionType, MatcherType};
use ios_backup_core::infer::{file_type, infer_extension, inferred_extension_from, path_fallback_extension, FileHeaderReader};
use ios_backup_core::mbdb::FileRecord;

const PNG: [u8; 16] = [0x89, 0x50, 0x4E, 0x47, 0x0D, 0x0A, 0x1A, 0x0A, 0, 0, 0, 0x0D, 0x49, 0x48, 0x44, 0x52];
const JPEG: [u8; 4] = [0xFF, 0xD8, 0xFF, 0xAA];

#[test]
fn recognised_contents_win_over_the_path() {
    let inferred = infer_extension("Media/DCIM/IMG_0001.JPG", &PNG);
    assert_eq!(inferred.extension, "png");
    assert_eq!(inferred.extension_type, ExtensionType(MatcherType::Image));
    let inferred = infer_extension("Library/whatever.db", &JPEG);
    assert_eq!(inferred.extension, "jpg");
    assert_eq!(inferred.extension_type, ExtensionType(MatcherType::Image));
}

#[test]
fn unrecognised_contents_fall_back_to_the_path() {
    let inferred = infer_extension("Library/SMS/sms.db", b"not a known header");
    assert_eq!(inferred.extension, "db");
    assert_eq!(inferred.extension_type, ExtensionType(MatcherType::Custom));
    let inferred = infer_extension("Library/Preferences/README", &[]);
    assert_eq!(inferred.extension, "README");
    assert_eq!(inferred.extension_type, ExtensionType(MatcherType::Custom));
}

#[test]
fn fallback_order() {
    assert_eq!(path_fallback_extension("a/b/c.tar.gz"), "gz");
    assert_eq!(path_fallback_extension("a/b/.profile"), ".profile");
    assert_eq!(path_fallback_extension("a/b/noext"), "noext");
    assert_eq!(path_fallback_extension(""), "");
    assert_eq!(path_fallback_extension(".."), "..");
    assert_eq!(path_fallback_extension("dir/foo."), "");
}

#[test]
fn detection_result_is_used_as_given() {
    let inferred = inferred_extension_from(Some(("mp3".to_string(), MatcherType::Audio)), "x/y.wav");
    assert_eq!(inferred.extension, "mp3");
    assert_eq!(inferred.extension_type, ExtensionType(MatcherType::Audio));
    let inferred = inferred_extension_from(None, "x/y.wav");
    assert_eq!(inferred.extension, "wav");
    assert_eq!(inferred.extension_type, ExtensionType(MatcherType::Custom));
}

struct FixedReader(Vec<u8>);

impl FileHeaderReader for FixedReader {
    fn read_header(&self, file_name: &str) -> Vec<u8> {
        assert_eq!(file_name, "3d0d7e5fb2ce288813306e4d4636395e047a3d28");
        self.0.clone()
    }
}

#[test]
fn file_type_reads_the_header_by_file_id() {
    let record = FileRecord {
        domain: "HomeDomain".to_string(),
        path: "Library/SMS/sms.db".to_string(),
        file_id: "3d0d7e5fb2ce288813306e4d4636395e047a3d28".to_string(),
        mode: 0x81a4,
        file_length: 10,
    };
    let inferred = file_type(&record, &FixedReader(PNG.to_vec()));
    assert_eq!(inferred.extension, "png");
    let inferred = file_type(&record, &FixedReader(vec![]));
    assert_eq!(inferred.extension, "db");
    assert_eq!(inferred.extension_type, ExtensionType(MatcherType::Custom));
}

#[test]
fn kind_names() {
    assert_eq!(ExtensionType(MatcherType::App).to_string(), "App");
    assert_eq!(ExtensionType(MatcherType::Archive).to_string(), "Archive");
    assert_eq!(ExtensionType(MatcherType::Audio).to_string(), "Audio");
    assert_eq!(ExtensionType(MatcherType::Book).to_string(), "Book");
    assert_eq!(ExtensionType(MatcherType::Doc).to_string(), "Doc");
    assert_eq!(ExtensionType(MatcherType::Font).to_string(), "Font");
    assert_eq!(ExtensionType(MatcherType::Image).to_string(), "Image");
    assert_eq!(ExtensionType(MatcherType::Text).to_string(), "Text");
    assert_eq!(ExtensionType(MatcherType::Video).to_string(), "Video");
    assert_eq!(ExtensionType(MatcherType::Custom).to_string(), "Other");
}

#[test]
fn reading_kind_names() {
    assert_eq!(ExtensionType::from_str("Image"), Ok(ExtensionType(MatcherType::Image)));
    assert_eq!(ExtensionType::from_str("Custom"), Ok(ExtensionType(MatcherType::Custom)));
    assert!(ExtensionType::from_str("Other").is_err());
    assert!(ExtensionType::from_str("image").is_err());
    assert!(ExtensionType::from_str("").is_err());
    let parsed: ExtensionType = "Video".parse().unwrap();
    assert_eq!(parsed, ExtensionType(MatcherType::Video));
}

#[test]
fn shown_names_read_back() {
    for kind in [
        MatcherType::App,
        MatcherType::Archive,
        MatcherType::Audio,
        MatcherType::Book,
        MatcherType::Doc,
        MatcherType::Font,
        MatcherType::Image,
        MatcherType::Text,
        MatcherType::Video,
    ] {
        let t = ExtensionType(kind);
        assert_eq!(ExtensionType::from_str(&t.to_string()), Ok(t));
    }
}
