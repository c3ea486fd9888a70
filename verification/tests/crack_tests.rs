use zipcrack::crack::get_encryption_data;
use zipcrack::decrypt::Crc32Table;
use zipcrack::info::InfoData;
use zipcrack::opt::Alphabet;
use zipcrack::opt::Opt;
use zipcrack::password_iter::test_each_password;
use zipcrack::password_iter::test_each_password_unrolled;
use zipcrack::zipfile::parse;

fn base64_opt() -> Opt {
    let alphabet = match Alphabet::parse(b"base64") {
        Ok(a) => a,
        Err(_) => panic!("base64 alphabet must parse"),
    };
    Opt {
        alphabet,
        max_length: 3,
        min_length: 1,
        num_threads: 1,
        start_password: None,
        unroll: false,
    }
}

/// Encrypts a 12-byte plaintext preamble under `password`, returning the
/// ciphertext bytes that an archive would carry.
fn encrypt_header(password: &[u8], plaintext: [u8; 12]) -> [u8; 12] {
    let table = Crc32Table::new();
    let mut keys = [0x12345678u32, 0x23456789u32, 0x34567890u32];
    for &c in password {
        zipcrack::decrypt::update_keys(&table, &mut keys, c);
    }
    let mut ct = [0u8; 12];
    for i in 0..12 {
        let ks = zipcrack::decrypt::decrypt_byte(keys[2]);
        ct[i] = plaintext[i] ^ ks;
        zipcrack::decrypt::update_keys(&table, &mut keys, plaintext[i]);
    }
    ct
}

fn push_u16(out: &mut Vec<u8>, v: u16) {
    out.push((v & 0xff) as u8);
    out.push((v >> 8) as u8);
}

fn push_u32(out: &mut Vec<u8>, v: u32) {
    out.push((v & 0xff) as u8);
    out.push(((v >> 8) & 0xff) as u8);
    out.push(((v >> 16) & 0xff) as u8);
    out.push(((v >> 24) & 0xff) as u8);
}

/// One encrypted local file record whose 12 preamble bytes decrypt, under
/// the given password, to a plaintext ending in the two time bytes.
fn encrypted_entry(password: &[u8], time: u16, filler: u8) -> Vec<u8> {
    let mut plaintext = [filler; 12];
    plaintext[10] = (time & 0xff) as u8;
    plaintext[11] = (time >> 8) as u8;
    let ct = encrypt_header(password, plaintext);
    let mut out = Vec::new();
    out.extend_from_slice(b"PK\x03\x04");
    push_u16(&mut out, 20); // version needed
    push_u16(&mut out, 1); // general purpose flag: encrypted
    push_u16(&mut out, 0); // compression method
    push_u16(&mut out, time); // last mod file time
    push_u16(&mut out, 0); // last mod file date
    push_u32(&mut out, 0); // crc32
    push_u32(&mut out, 12); // compressed size (preamble only)
    push_u32(&mut out, 0); // uncompressed size
    push_u16(&mut out, 1); // file name length
    push_u16(&mut out, 0); // extra field length
    out.push(b'x');
    out.extend_from_slice(&ct);
    // Trailing data descriptor.
    out.extend_from_slice(b"PK\x07\x08");
    push_u32(&mut out, 0);
    push_u32(&mut out, 12);
    push_u32(&mut out, 0);
    out
}

fn end_of_central_directory() -> Vec<u8> {
    let mut out = Vec::new();
    out.extend_from_slice(b"PK\x05\x06");
    push_u16(&mut out, 0);
    push_u16(&mut out, 0);
    push_u16(&mut out, 2);
    push_u16(&mut out, 2);
    push_u32(&mut out, 0);
    push_u32(&mut out, 0);
    push_u16(&mut out, 0);
    out
}

fn two_entry_archive() -> Vec<u8> {
    let mut bytes = encrypted_entry(b"IWY", 40784, 0x21);
    bytes.extend_from_slice(&encrypted_entry(b"IWY", 12345, 0x5a));
    bytes.extend_from_slice(&end_of_central_directory());
    bytes
}

// Archive with two encrypted entries sharing password IWY, base64 alphabet,
// scalar mode: the only hit is IWY.
#[test]
fn test_two_entries_scalar() {
    let bytes = two_entry_archive();
    let (records, _) = parse(&bytes);
    let eds = get_encryption_data(&records);
    assert_eq!(eds.len(), 2);
    let opt = base64_opt();
    let mut info = InfoData::new();
    test_each_password(&opt, &mut info, 0, &eds);
    assert_eq!(info.found_passwords, vec![b"IWY".to_vec()]);
    // One attempt per candidate of lengths one to three.
    assert_eq!(info.counter, 64 + 64 * 64 + 64 * 64 * 64);
}

// The same archive in unrolled mode: the same hit, and the counter equals
// the scalar accounting of 64 + 64^2 + 64^3 attempts.
#[test]
fn test_two_entries_unrolled() {
    let bytes = two_entry_archive();
    let (records, _) = parse(&bytes);
    let eds = get_encryption_data(&records);
    let mut opt = base64_opt();
    opt.unroll = true;
    let mut info = InfoData::new();
    test_each_password_unrolled(&opt, &mut info, 0, &eds);
    assert_eq!(info.found_passwords, vec![b"IWY".to_vec()]);
    assert_eq!(info.counter, 64 + 64 * 64 + 64 * 64 * 64);
}

// A single-entry archive: the verification bytes are a 1-in-65536 filter,
// so the hits are IWY plus possible false positives.
#[test]
fn test_single_entry_superset() {
    let mut bytes = encrypted_entry(b"IWY", 40784, 0x21);
    bytes.extend_from_slice(&end_of_central_directory());
    let (records, _) = parse(&bytes);
    let eds = get_encryption_data(&records);
    assert_eq!(eds.len(), 1);
    let opt = base64_opt();
    let mut info = InfoData::new();
    test_each_password(&opt, &mut info, 0, &eds);
    assert!(info.found_passwords.contains(&b"IWY".to_vec()));
}

// Four shards together find the same hit set as one.
#[test]
fn test_four_shards_same_hits() {
    let bytes = two_entry_archive();
    let (records, _) = parse(&bytes);
    let eds = get_encryption_data(&records);
    let mut opt = base64_opt();
    opt.num_threads = 4;
    let mut hits: Vec<Vec<u8>> = Vec::new();
    let mut total: u64 = 0;
    for idx in 0..4 {
        let mut info = InfoData::new();
        test_each_password(&opt, &mut info, idx, &eds);
        hits.extend(info.found_passwords);
        total += info.counter;
    }
    hits.sort();
    assert_eq!(hits, vec![b"IWY".to_vec()]);
    assert_eq!(total, 64 + 64 * 64 + 64 * 64 * 64);
}

// The whole-run facades: extract the fingerprints from the archive, run
// every shard, and report the same hits and counts in either mode.
#[test]
fn test_crack_facades() {
    let bytes = two_entry_archive();
    let (records, _) = parse(&bytes);
    let mut opt = base64_opt();
    opt.num_threads = 2;
    let info = zipcrack::crack::crack(&opt, &records);
    assert_eq!(info.found_passwords, vec![b"IWY".to_vec()]);
    assert_eq!(info.counter, 64 + 64 * 64 + 64 * 64 * 64);

    let mut opt = base64_opt();
    opt.unroll = true;
    let info = zipcrack::crack::crack_unrolled(&opt, &records);
    assert_eq!(info.found_passwords, vec![b"IWY".to_vec()]);
    assert_eq!(info.counter, 64 + 64 * 64 + 64 * 64 * 64);
}

// Starting at ZZZ with maximum length three: the search starts exactly
// there, emits no earlier candidate, and terminates.
#[test]
fn test_start_password_late() {
    let mut opt = base64_opt();
    opt.start_password = Some(b"ZZZ".to_vec());
    let emitted = zipcrack::password_iter::for_each_password(&opt, 0);
    assert_eq!(emitted[0].0, b"ZZZ".to_vec());
    // 'Z' is digit 37 of the 64-letter alphabet; the candidates from ZZZ to
    // zzz (all of length three) number 64^3 - value(ZZZ).
    let value_zzz = 37 * (64 * 64) + 37 * 64 + 37;
    assert_eq!(emitted.len(), 64 * 64 * 64 - value_zzz);
    for (pw, _) in &emitted {
        assert_eq!(pw.len(), 3);
    }
    assert!(!emitted.iter().any(|(pw, _)| pw == &b"ZZY".to_vec()));
}
