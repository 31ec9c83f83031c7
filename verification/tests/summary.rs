use ios_backup_core::gather_extensions;
use ios_backup_core::infer::extension_type::{ExtensionType, MatcherType};
use ios_backup_core::infer::InferredExtension;
use ios_backup_core::mbdb::FileRecord as MbdbRecord;
use ios_backup_core::FileRecord;

fn record(extension: &str, kind: MatcherType) -> FileRecord {
    FileRecord {
        inferred_extension: InferredExtension {
            extension: extension.to_string(),
            extension_type: ExtensionType(kind),
        },
        mbdb: MbdbRecord {
            domain: "HomeDomain".to_string(),
            path: format!("Library/file.{extension}"),
            file_id: String::new(),
            mode: 0x8000,
            file_length: 0,
        },
    }
}

#[test]
fn empty_input_gives_empty_summary() {
    assert!(gather_extensions(&[]).is_empty());
}

#[test]
fn groups_by_kind_then_extension() {
    let records = vec![
        record("db", MatcherType::Custom),
        record("jpg", MatcherType::Image),
        record("png", MatcherType::Image),
        record("db", MatcherType::Custom),
        record("jpg", MatcherType::Image),
        record("mp3", MatcherType::Audio),
        record("plist", MatcherType::Custom),
        record("jpg", MatcherType::Image),
        record("db", MatcherType::Custom),
        record("db", MatcherType::Custom),
        record("db", MatcherType::Custom),
    ];
    let summary = gather_extensions(&records);
    let entries: Vec<_> = summary.into_iter().collect();
    assert_eq!(entries.len(), 3);
    assert_eq!(entries[0].0, ExtensionType(MatcherType::Image));
    assert_eq!(entries[0].1 .0, 4);
    assert_eq!(entries[0].1 .1, vec![("jpg".to_string(), 3), ("png".to_string(), 1)]);
    assert_eq!(entries[1].0, ExtensionType(MatcherType::Audio));
    assert_eq!(entries[1].1 .0, 1);
    assert_eq!(entries[1].1 .1, vec![("mp3".to_string(), 1)]);
    assert_eq!(entries[2].0, ExtensionType(MatcherType::Custom));
    assert_eq!(entries[2].1 .0, 6);
    assert_eq!(entries[2].1 .1, vec![("db".to_string(), 5), ("plist".to_string(), 1)]);
}

#[test]
fn custom_goes_last_even_when_largest() {
    let mut records = vec![record("txt", MatcherType::Text)];
    for _ in 0..10 {
        records.push(record("bin", MatcherType::Custom));
    }
    records.push(record("zip", MatcherType::Archive));
    records.push(record("zip", MatcherType::Archive));
    let summary = gather_extensions(&records);
    let kinds: Vec<ExtensionType> = summary.keys().copied().collect();
    assert_eq!(
        kinds,
        vec![
            ExtensionType(MatcherType::Archive),
            ExtensionType(MatcherType::Text),
            ExtensionType(MatcherType::Custom)
        ]
    );
    assert_eq!(summary.get(&ExtensionType(MatcherType::Custom)).unwrap().0, 10);
}

#[test]
fn totals_add_up_to_the_number_of_files() {
    let records: Vec<FileRecord> = (0..30)
        .map(|i| match i % 5 {
            0 => record("a", MatcherType::Doc),
            1 => record("b", MatcherType::Doc),
            2 => record("c", MatcherType::Font),
            3 => record("d", MatcherType::Custom),
            _ => record("e", MatcherType::Book),
        })
        .collect();
    let summary = gather_extensions(&records);
    let total: u32 = summary.values().map(|(count, _)| *count).sum();
    assert_eq!(total, 30);
    for (_, (count, extensions)) in &summary {
        let sum: u32 = extensions.iter().map(|(_, c)| *c).sum();
        assert_eq!(sum, *count);
    }
}

#[test]
fn extensions_most_frequent_first() {
    let records = vec![
        record("heic", MatcherType::Image),
        record("png", MatcherType::Image),
        record("jpg", MatcherType::Image),
        record("png", MatcherType::Image),
        record("jpg", MatcherType::Image),
        record("jpg", MatcherType::Image),
    ];
    let summary = gather_extensions(&records);
    let (total, extensions) = summary.get(&ExtensionType(MatcherType::Image)).unwrap();
    assert_eq!(*total, 6);
    assert_eq!(
        *extensions,
        vec![("jpg".to_string(), 3), ("png".to_string(), 2), ("heic".to_string(), 1)]
    );
}
