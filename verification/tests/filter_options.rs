use ios_backup_core::gather_extensions;
use ios_backup_core::infer::extension_type::{ExtensionType, MatcherType};
use ios_backup_core::infer::InferredExtension;
use ios_backup_core::mbdb::FileRecord as MbdbRecord;
use ios_backup_core::selection::{is_option_offered, selected_extensions, selected_extensions_checked};
use ios_backup_core::FileRecord;

fn record(extension: &str, kind: MatcherType) -> FileRecord {
    FileRecord {
        inferred_extension: InferredExtension {
            extension: extension.to_string(),
            extension_type: ExtensionType(kind),
        },
        mbdb: MbdbRecord {
            domain: "HomeDomain".to_string(),
            path: format!("f.{extension}"),
            file_id: String::new(),
            mode: 0x8000,
            file_length: 0,
        },
    }
}

fn strings(items: &[&str]) -> Vec<String> {
    items.iter().map(|s| s.to_string()).collect()
}

fn sample() -> Vec<FileRecord> {
    vec![
        record("png", MatcherType::Image),
        record("jpg", MatcherType::Image),
        record("jpg", MatcherType::Image),
        record("db", MatcherType::Custom),
        record("plist", MatcherType::Custom),
        record("mp3", MatcherType::Audio),
    ]
}

#[test]
fn single_extensions() {
    let summary = gather_extensions(&sample());
    assert_eq!(selected_extensions(&strings(&[".plist", ".db"]), &summary), strings(&["db", "plist"]));
}

#[test]
fn kinds_select_all_their_extensions() {
    let summary = gather_extensions(&sample());
    assert_eq!(selected_extensions(&strings(&["Image"]), &summary), strings(&["jpg", "png"]));
    assert_eq!(
        selected_extensions(&strings(&["Custom", ".jpg", "Image", ".mp3"]), &summary),
        strings(&["db", "jpg", "mp3", "plist", "png"])
    );
}

#[test]
fn nothing_chosen_selects_nothing() {
    let summary = gather_extensions(&sample());
    assert!(selected_extensions(&[], &summary).is_empty());
}

#[test]
fn a_lone_dot_selects_the_empty_extension() {
    let summary = gather_extensions(&sample());
    assert_eq!(selected_extensions(&strings(&[".", ".a"]), &summary), strings(&["", "a"]));
}

#[test]
fn order_is_that_of_bytes() {
    let summary = gather_extensions(&sample());
    assert_eq!(
        selected_extensions(&strings(&[".b", ".B", ".é", ".a", ".b"]), &summary),
        strings(&["B", "a", "b", "é"])
    );
}

#[test]
fn offered_options() {
    let summary = gather_extensions(&sample());
    assert!(is_option_offered(".anything", &summary));
    assert!(is_option_offered("Image", &summary));
    assert!(is_option_offered("Custom", &summary));
    assert!(!is_option_offered("Video", &summary));
    assert!(!is_option_offered("Other", &summary));
    assert!(!is_option_offered("", &summary));
}

#[test]
fn checked_selection() {
    let summary = gather_extensions(&sample());
    assert_eq!(
        selected_extensions_checked(&strings(&["Audio", ".db"]), &summary),
        Some(strings(&["db", "mp3"]))
    );
    assert_eq!(selected_extensions_checked(&strings(&[".db", "Video"]), &summary), None);
    assert_eq!(selected_extensions_checked(&strings(&["Other"]), &summary), None);
}
