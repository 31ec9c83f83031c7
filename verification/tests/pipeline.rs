use std::collections::HashMap;

use ios_backup_core::infer::extension_type::{ExtensionType, MatcherType};
use ios_backup_core::infer::FileHeaderReader;
use ios_backup_core::mbdb::{compute_file_id, MbdbError};
use ios_backup_core::{gather_extensions, parse};

struct MapReader(HashMap<String, Vec<u8>>);

impl FileHeaderReader for MapReader {
    fn read_header(&self, file_name: &str) -> Vec<u8> {
        self.0.get(file_name).cloned().unwrap_or_default()
    }
}

fn push_u16(out: &mut Vec<u8>, value: u16) {
    out.extend_from_slice(&value.to_be_bytes());
}

fn push_record(out: &mut Vec<u8>, domain: &str, path: &str, mode: u16) {
    push_u16(out, domain.len() as u16);
    out.extend_from_slice(domain.as_bytes());
    push_u16(out, path.len() as u16);
    out.extend_from_slice(path.as_bytes());
    for _ in 0..3 {
        push_u16(out, 0xFFFF);
    }
    push_u16(out, mode);
    out.extend_from_slice(&[0u8; 38]);
}

#[test]
fn parse_infers_each_regular_file() {
    let mut data = b"mbdb\x05\x00".to_vec();
    push_record(&mut data, "CameraRollDomain", "Media/DCIM/IMG_0001.JPG", 0x81a4);
    push_record(&mut data, "HomeDomain", "Library/SMS/sms.db", 0x81a4);
    push_record(&mut data, "HomeDomain", "Library/SMS", 0x41ed);
    let mut headers = HashMap::new();
    headers.insert(
        compute_file_id("CameraRollDomain", "Media/DCIM/IMG_0001.JPG"),
        vec![0xFF, 0xD8, 0xFF, 0xE0, 0, 0x10],
    );
    let records = parse(&data, &MapReader(headers)).unwrap();
    assert_eq!(records.len(), 2);
    assert_eq!(records[0].inferred_extension.extension, "jpg");
    assert_eq!(records[0].inferred_extension.extension_type, ExtensionType(MatcherType::Image));
    assert_eq!(records[1].mbdb.path, "Library/SMS/sms.db");
    assert_eq!(records[1].inferred_extension.extension, "db");
    assert_eq!(records[1].inferred_extension.extension_type, ExtensionType(MatcherType::Custom));

    let summary = gather_extensions(&records);
    let kinds: Vec<ExtensionType> = summary.keys().copied().collect();
    assert_eq!(kinds, vec![ExtensionType(MatcherType::Image), ExtensionType(MatcherType::Custom)]);
}

#[test]
fn parse_reports_manifest_errors() {
    let reader = MapReader(HashMap::new());
    assert_eq!(parse(b"xxxx\x05\x00", &reader).unwrap_err(), MbdbError::BadMagic);
    assert_eq!(parse(b"mbdb\x05\x00\x00\x05ab", &reader).unwrap_err(), MbdbError::TruncatedRecord);
}
