use ios_backup_core::mbdb::{compute_file_id, parse, to_hex_lower, MbdbError};

fn push_u16(out: &mut Vec<u8>, value: u16) {
    out.extend_from_slice(&value.to_be_bytes());
}

fn push_field(out: &mut Vec<u8>, text: Option<&[u8]>) {
    match text {
        Some(bytes) => {
            push_u16(out, bytes.len() as u16);
            out.extend_from_slice(bytes);
        }
        None => push_u16(out, 0xFFFF),
    }
}

fn push_record(out: &mut Vec<u8>, domain: &str, path: Option<&str>, mode: u16, length: u64, props: &[(&str, &[u8])]) {
    push_u16(out, domain.len() as u16);
    out.extend_from_slice(domain.as_bytes());
    push_field(out, path.map(|p| p.as_bytes()));
    push_field(out, None);
    push_field(out, Some(b"0123456789abcdef0123"));
    push_field(out, None);
    push_u16(out, mode);
    out.extend_from_slice(&7u64.to_be_bytes());
    for value in [501u32, 501, 1, 2, 3] {
        out.extend_from_slice(&value.to_be_bytes());
    }
    out.extend_from_slice(&length.to_be_bytes());
    out.push(4);
    out.push(props.len() as u8);
    for (name, value) in props {
        push_field(out, Some(name.as_bytes()));
        push_field(out, Some(value));
    }
}

fn header() -> Vec<u8> {
    let mut out = b"mbdb".to_vec();
    push_u16(&mut out, 0x0500);
    out
}

#[test]
fn file_id_is_sha1_of_domain_and_path() {
    assert_eq!(
        compute_file_id("HomeDomain", "Library/SMS/sms.db"),
        "3d0d7e5fb2ce288813306e4d4636395e047a3d28"
    );
    assert_eq!(
        compute_file_id("HomeDomain", "Library/AddressBook/AddressBook.sqlitedb"),
        "31bb7ba8914766d4ba40d6dfb6113c8b614be442"
    );
}

#[test]
fn hex_is_lower_case_two_digits_per_byte() {
    assert_eq!(to_hex_lower(&[0x00, 0x0f, 0xa0, 0xff]), "000fa0ff");
    assert_eq!(to_hex_lower(&[]), "");
}

#[test]
fn parses_regular_files_in_order() {
    let mut data = header();
    push_record(&mut data, "HomeDomain", Some("Library/SMS/sms.db"), 0x81a4, 1234, &[]);
    push_record(&mut data, "HomeDomain", Some("Library/SMS"), 0x41ed, 0, &[]);
    push_record(&mut data, "CameraRollDomain", Some("Media/DCIM/IMG_0001.JPG"), 0x8180, 99, &[("com.apple.x", b"abc")]);
    let files = parse(&data).unwrap();
    assert_eq!(files.len(), 2);
    assert_eq!(files[0].domain, "HomeDomain");
    assert_eq!(files[0].path, "Library/SMS/sms.db");
    assert_eq!(files[0].file_id, "3d0d7e5fb2ce288813306e4d4636395e047a3d28");
    assert_eq!(files[0].mode, 0x81a4);
    assert_eq!(files[0].file_length, 1234);
    assert_eq!(files[1].domain, "CameraRollDomain");
    assert_eq!(files[1].path, "Media/DCIM/IMG_0001.JPG");
    assert_eq!(files[1].file_length, 99);
    assert_eq!(files[1].file_id, compute_file_id("CameraRollDomain", "Media/DCIM/IMG_0001.JPG"));
}

#[test]
fn blank_path_is_empty() {
    let mut data = header();
    push_record(&mut data, "AppDomain-x", None, 0x8000, 5, &[]);
    let files = parse(&data).unwrap();
    assert_eq!(files.len(), 1);
    assert_eq!(files[0].path, "");
    assert_eq!(files[0].file_id, compute_file_id("AppDomain-x", ""));
}

#[test]
fn empty_manifest_has_no_files() {
    assert_eq!(parse(&header()).unwrap().len(), 0);
}

#[test]
fn end_marker_stops_reading() {
    let mut data = header();
    push_record(&mut data, "HomeDomain", Some("a.txt"), 0x8000, 1, &[]);
    push_u16(&mut data, 0);
    data.extend_from_slice(b"anything at all");
    let files = parse(&data).unwrap();
    assert_eq!(files.len(), 1);
    assert_eq!(files[0].path, "a.txt");
}

#[test]
fn a_single_trailing_byte_ends_the_list() {
    let mut data = header();
    push_record(&mut data, "HomeDomain", Some("a.txt"), 0x8000, 1, &[]);
    data.push(0x12);
    assert_eq!(parse(&data).unwrap().len(), 1);
}

#[test]
fn missing_header() {
    assert_eq!(parse(b"mbd").unwrap_err(), MbdbError::MissingHeader);
    assert_eq!(parse(b"").unwrap_err(), MbdbError::MissingHeader);
}

#[test]
fn bad_magic() {
    assert_eq!(parse(b"mbdx\x05\x00").unwrap_err(), MbdbError::BadMagic);
    assert_eq!(parse(b"MBDB").unwrap_err(), MbdbError::BadMagic);
}

#[test]
fn missing_version() {
    assert_eq!(parse(b"mbdb").unwrap_err(), MbdbError::MissingVersion);
    assert_eq!(parse(b"mbdb\x05").unwrap_err(), MbdbError::MissingVersion);
}

#[test]
fn truncated_records_are_errors() {
    let mut full = header();
    push_record(&mut full, "HomeDomain", Some("Library/x.plist"), 0x8000, 3, &[("p", b"vv")]);
    let header_len = header().len();
    for cut in header_len + 2..full.len() {
        assert_eq!(parse(&full[..cut]).unwrap_err(), MbdbError::TruncatedRecord, "cut at {cut}");
    }
    assert_eq!(parse(&full).unwrap().len(), 1);
}

#[test]
fn invalid_utf8_is_replaced() {
    let mut data = header();
    push_u16(&mut data, 2);
    data.extend_from_slice(&[0x41, 0xff]);
    push_field(&mut data, Some(b"f.txt"));
    push_field(&mut data, None);
    push_field(&mut data, None);
    push_field(&mut data, None);
    push_u16(&mut data, 0x8000);
    data.extend_from_slice(&[0u8; 38]);
    let files = parse(&data).unwrap();
    assert_eq!(files[0].domain, "A\u{FFFD}");
    assert_eq!(files[0].file_id, compute_file_id("A\u{FFFD}", "f.txt"));
}

#[test]
fn file_ids_are_forty_lower_case_hex_digits() {
    for (domain, path) in [("HomeDomain", ""), ("", ""), ("MediaDomain", "Media/Recordings/é.m4a")] {
        let id = compute_file_id(domain, path);
        assert_eq!(id.len(), 40);
        assert!(id.chars().all(|c| c.is_ascii_digit() || ('a'..='f').contains(&c)));
    }
}

#[test]
fn only_regular_files_are_kept() {
    let mut data = header();
    for mode in [0x41ed, 0xa1ff, 0x81a4, 0x2000, 0x8000, 0xc000] {
        push_record(&mut data, "HomeDomain", Some("x"), mode, 0, &[]);
    }
    let files = parse(&data).unwrap();
    let modes: Vec<u16> = files.iter().map(|f| f.mode).collect();
    assert_eq!(modes, vec![0x81a4, 0x8000]);
}
