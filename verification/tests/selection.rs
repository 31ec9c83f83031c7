use ios_backup_core::directory::{directory_tree, DirectoryNode, TogglableFileRecord};
use ios_backup_core::infer::extension_type::{ExtensionType, MatcherType};
use ios_backup_core::infer::InferredExtension;
use ios_backup_core::mbdb::FileRecord as MbdbRecord;
use ios_backup_core::listing::{listing_name, listing_size};
use ios_backup_core::utils::{is_file_visible, should_skip};
use ios_backup_core::FileRecord;

fn record(path: &str, extension: &str) -> FileRecord {
    FileRecord {
        inferred_extension: InferredExtension {
            extension: extension.to_string(),
            extension_type: ExtensionType(MatcherType::Custom),
        },
        mbdb: MbdbRecord {
            domain: "HomeDomain".to_string(),
            path: path.to_string(),
            file_id: String::new(),
            mode: 0x8000,
            file_length: 0,
        },
    }
}

fn strings(items: &[&str]) -> Vec<String> {
    items.iter().map(|s| s.to_string()).collect()
}

#[test]
fn nothing_selected_shows_everything() {
    assert!(is_file_visible(&record("a.db", "db"), &[]));
}

#[test]
fn selection_shows_only_selected_extensions() {
    let selected = strings(&["jpg", "png"]);
    assert!(is_file_visible(&record("a.png", "png"), &selected));
    assert!(!is_file_visible(&record("a.db", "db"), &selected));
}

#[test]
fn skipping_on_extraction() {
    let file = record("a.db", "db");
    let dbs = strings(&["db"]);
    let images = strings(&["jpg"]);
    assert!(!should_skip(&file, None, None));
    assert!(!should_skip(&file, Some(&dbs), None));
    assert!(should_skip(&file, Some(&images), None));
    assert!(should_skip(&file, None, Some(&dbs)));
    assert!(!should_skip(&file, None, Some(&images)));
    assert!(should_skip(&file, Some(&images), Some(&images)));
}

fn leaf(path: &str, extension: &str) -> TogglableFileRecord {
    TogglableFileRecord { file_record: record(path, extension), visible: true }
}

#[test]
fn filtering_marks_files_and_directories() {
    let sms = DirectoryNode::new(
        "/HomeDomain/Library/SMS".to_string(),
        "SMS".to_string(),
        vec![],
        vec![leaf("Library/SMS/sms.db", "db")],
    );
    let prefs = DirectoryNode::new(
        "/HomeDomain/Library/Preferences".to_string(),
        "Preferences".to_string(),
        vec![],
        vec![leaf("Library/Preferences/a.plist", "plist"), leaf("Library/Preferences/b.plist", "plist")],
    );
    let library = DirectoryNode::new(
        "/HomeDomain/Library".to_string(),
        "Library".to_string(),
        vec![sms, prefs],
        vec![leaf("Library/top.db", "db")],
    );
    let mut root = DirectoryNode::new(String::new(), String::new(), vec![library], vec![]);

    assert_eq!(root.filter_directory_node(&strings(&["plist"])), 2);
    let library = &root.children[0];
    assert!(root.visible);
    assert!(library.visible);
    assert!(!library.files[0].visible);
    assert!(!library.children[0].visible);
    assert!(!library.children[0].files[0].visible);
    assert!(library.children[1].visible);
    assert!(library.children[1].files[1].visible);

    assert_eq!(root.filter_directory_node(&strings(&["jpg"])), 0);
    assert!(!root.visible);
    assert!(!root.children[0].visible);

    assert_eq!(root.filter_directory_node(&vec![]), 4);
    assert!(root.visible);
    assert!(root.children[0].children[0].files[0].visible);
}

#[test]
fn tree_files_each_record_under_its_directories() {
    let mut sms = record("Library/SMS/sms.db", "db");
    sms.mbdb.domain = "HomeDomain".to_string();
    let mut notes = record("Library/Notes/notes.sqlite", "sqlite");
    notes.mbdb.domain = "HomeDomain".to_string();
    let mut photo = record("Media/DCIM/100APPLE/IMG_0001.JPG", "jpg");
    photo.mbdb.domain = "CameraRollDomain".to_string();
    let mut top = record("Manifest.plist", "plist");
    top.mbdb.domain = "HomeDomain".to_string();
    let mut bare = record("", "x");
    bare.mbdb.domain = "KeychainDomain".to_string();
    let tree = directory_tree(&[sms, notes, photo, top, bare]);

    assert_eq!(tree.name, "");
    assert_eq!(tree.full_name, "");
    assert_eq!(tree.files.len(), 1);
    assert_eq!(tree.files[0].file_record.mbdb.domain, "KeychainDomain");
    let names: Vec<&str> = tree.children.iter().map(|c| c.name.as_str()).collect();
    assert_eq!(names, vec!["HomeDomain", "CameraRollDomain"]);

    let home = &tree.children[0];
    assert_eq!(home.full_name, "/HomeDomain");
    assert_eq!(home.files.len(), 1);
    assert_eq!(home.files[0].file_record.mbdb.path, "Manifest.plist");
    assert_eq!(home.children.len(), 1);
    let library = &home.children[0];
    assert_eq!(library.full_name, "/HomeDomain/Library");
    let dirs: Vec<&str> = library.children.iter().map(|c| c.full_name.as_str()).collect();
    assert_eq!(dirs, vec!["/HomeDomain/Library/SMS", "/HomeDomain/Library/Notes"]);
    assert_eq!(library.children[0].files[0].file_record.mbdb.path, "Library/SMS/sms.db");
    assert!(library.children[0].files[0].visible);

    let camera = &tree.children[1];
    assert_eq!(camera.children[0].children[0].children[0].full_name, "/CameraRollDomain/Media/DCIM/100APPLE");
    assert_eq!(camera.children[0].children[0].children[0].files.len(), 1);
}

#[test]
fn directories_are_equal_by_path() {
    let a = DirectoryNode::new("/HomeDomain".to_string(), "HomeDomain".to_string(), vec![], vec![]);
    let b = DirectoryNode::new("/HomeDomain".to_string(), "other".to_string(), vec![], vec![leaf("x", "y")]);
    let c = DirectoryNode::new("/AppDomain".to_string(), "HomeDomain".to_string(), vec![], vec![]);
    assert!(a == b);
    assert!(a != c);
}

#[test]
fn listed_names_and_sizes() {
    let mut file = record("Library/SMS/sms.db", "db");
    assert_eq!(listing_name(&file), "sms.db");
    file.mbdb.path = String::new();
    assert_eq!(listing_name(&file), "");
    file.mbdb.path = "..".to_string();
    assert_eq!(listing_name(&file), "..");
    file.mbdb.file_length = 999;
    assert_eq!(listing_size(&file), "999 B");
    file.mbdb.file_length = 10000;
    assert_eq!(listing_size(&file), "10 KB");
    file.mbdb.file_length = 0;
    assert_eq!(listing_size(&file), "0 B");
}

#[test]
fn files_keep_their_order_within_a_directory() {
    let tree = directory_tree(&[
        record("Library/b.db", "db"),
        record("Media/x.jpg", "jpg"),
        record("Library/a.db", "db"),
        record("Library/c.db", "db"),
    ]);
    let home = &tree.children[0];
    let dirs: Vec<&str> = home.children.iter().map(|c| c.name.as_str()).collect();
    assert_eq!(dirs, vec!["Library", "Media"]);
    let library: Vec<&str> = home.children[0].files.iter().map(|f| f.file_record.mbdb.path.as_str()).collect();
    assert_eq!(library, vec!["Library/b.db", "Library/a.db", "Library/c.db"]);
}
