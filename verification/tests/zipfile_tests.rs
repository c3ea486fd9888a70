use zipcrack::zipfile::parse;
use zipcrack::zipfile::parse_local_file;
use zipcrack::zipfile::Record;

fn push_u16(out: &mut Vec<u8>, v: u16) {
    out.push((v & 0xff) as u8);
    out.push((v >> 8) as u8);
}

fn push_u32(out: &mut Vec<u8>, v: u32) {
    out.push((v & 0xff) as u8);
    out.push(((v >> 8) & 0xff) as u8);
    out.push(((v >> 16) & 0xff) as u8);
    out.push(((v >> 24) & 0xff) as u8);
}

fn plain_entry(name: &[u8], data: &[u8]) -> Vec<u8> {
    let mut out = Vec::new();
    out.extend_from_slice(b"PK\x03\x04");
    push_u16(&mut out, 20);
    push_u16(&mut out, 0); // not encrypted
    push_u16(&mut out, 0);
    push_u16(&mut out, 0x6b32);
    push_u16(&mut out, 0x2a41);
    push_u32(&mut out, 0xdeadbeef);
    push_u32(&mut out, data.len() as u32);
    push_u32(&mut out, data.len() as u32);
    push_u16(&mut out, name.len() as u16);
    push_u16(&mut out, 0);
    out.extend_from_slice(name);
    out.extend_from_slice(data);
    out
}

#[test]
fn test_parse_plain_local_file() {
    let bytes = plain_entry(b"hello.txt", b"plain data");
    let (lf, next) = parse_local_file(&bytes, 0).unwrap();
    assert_eq!(next, bytes.len());
    assert_eq!(lf.local_file_header.file_name, b"hello.txt".to_vec());
    assert_eq!(lf.local_file_header.last_mod_file_time, 0x6b32);
    assert_eq!(lf.local_file_header.crc32, 0xdeadbeef);
    assert_eq!(lf.file_data, b"plain data".to_vec());
    assert!(lf.encryption_header.is_none());
    assert!(lf.data_descriptor.is_none());
}

#[test]
fn test_parse_rejects_truncated() {
    let mut bytes = plain_entry(b"hello.txt", b"plain data");
    bytes.truncate(20);
    assert!(parse_local_file(&bytes, 0).is_err());
    let (records, pos) = parse(&bytes);
    assert_eq!(records.len(), 0);
    assert_eq!(pos, 0);
}

#[test]
fn test_parse_stops_at_junk() {
    let mut bytes = plain_entry(b"a", b"xy");
    let good = bytes.len();
    bytes.extend_from_slice(b"garbage");
    let (records, pos) = parse(&bytes);
    assert_eq!(records.len(), 1);
    assert_eq!(pos, good);
    match &records[0] {
        Record::LocalFile(lf) => assert_eq!(lf.file_data, b"xy".to_vec()),
        _ => panic!("expected a local file record"),
    }
}
