use ios_backup_core::infer::extension_type::{ExtensionType, MatcherType};
use ios_backup_core::report::{extension_line, kind_line};

#[test]
fn kind_lines() {
    assert_eq!(kind_line(&ExtensionType(MatcherType::Image), 3), "Image (3 files)");
    assert_eq!(kind_line(&ExtensionType(MatcherType::Custom), 0), "Other (0 files)");
    assert_eq!(kind_line(&ExtensionType(MatcherType::Archive), 4294967295), "Archive (4294967295 files)");
}

#[test]
fn extension_lines() {
    assert_eq!(extension_line("png", 120), "  - .png (120 files)");
    assert_eq!(extension_line("db", 10), "  - .db (10 files)");
    assert_eq!(extension_line("", 7), "  - . (7 files)");
}
