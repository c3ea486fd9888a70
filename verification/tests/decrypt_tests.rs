use zipcrack::decrypt::password_matches;
use zipcrack::decrypt::Crc32Table;
use zipcrack::decrypt::EncryptionData;
use zipcrack::decrypt::PasswordBlock;

const BASE64_ALPHABET: &[u8; 64] =
    b"+/0123456789ABCDEFGHIJKLMNOPQRSTUVWXYZabcdefghijklmnopqrstuvwxyz";

fn sample_encryption_data() -> EncryptionData {
    EncryptionData {
        encryption_header: [147, 150, 41, 25, 165, 183, 31, 129, 76, 121, 70, 196],
        last_mod_file_time: 40784,
    }
}

#[test]
fn test_three_letter_passwords() {
    let table = Crc32Table::new();
    let ed = sample_encryption_data();
    let mut password = b"---".to_vec();
    let mut found_passwords = vec![];
    for i in 0..64 {
        password[0] = BASE64_ALPHABET[i];
        for j in 0..64 {
            password[1] = BASE64_ALPHABET[j];
            for k in 0..64 {
                password[2] = BASE64_ALPHABET[k];
                if password_matches(&table, ed, &password) {
                    found_passwords.push(password.clone());
                }
            }
        }
    }
    let expected_passwords = vec![
        vec![51, 98, 119],
        vec![53, 90, 120],
        vec![73, 87, 89],
        vec![77, 51, 101],
        vec![80, 54, 49],
        vec![101, 86, 119],
        vec![115, 72, 68],
    ];
    assert_eq!(found_passwords, expected_passwords);
}

#[test]
fn test_initial_key_constants() {
    let table = Crc32Table::new();
    let mut keys = [0x12345678u32, 0x23456789u32, 0x34567890u32];
    assert_eq!(keys, [305419896u32, 591751049u32, 878082192u32]);
    // Feeding one byte must change every key word for this input.
    zipcrack::decrypt::update_keys(&table, &mut keys, b'a');
    assert_ne!(keys, [305419896u32, 591751049u32, 878082192u32]);
}

// The unrolled check must report, for a block with prefix "IW", the last
// characters that complete a match; the known password is "IWY". This
// exercises the buffer of matching characters end to end: an unchanged
// buffer would stay empty.
#[test]
fn test_unrolled_block_finds_last_char() {
    let table = Crc32Table::new();
    let ed = sample_encryption_data();
    let mut keys = [0x12345678u32, 0x23456789u32, 0x34567890u32];
    zipcrack::decrypt::update_keys(&table, &mut keys, b'I');
    zipcrack::decrypt::update_keys(&table, &mut keys, b'W');

    let mut chunks: Vec<[u8; 8]> = Vec::new();
    for c in BASE64_ALPHABET.chunks(8) {
        let mut arr = [c[c.len() - 1]; 8];
        arr[..c.len()].copy_from_slice(c);
        chunks.push(arr);
    }
    let prefix = b"IW".to_vec();
    let block = PasswordBlock {
        password_prefix: &prefix,
        alphabet: &chunks,
        initialized_keys: keys,
    };
    let mut matching = arrayvec::ArrayVec::<u8, 256>::new();
    zipcrack::decrypt::password_matches_unrolled(&table, block, ed, &mut matching);
    assert!(matching.as_slice().contains(&b'Y'));
    // Every reported character must indeed complete a scalar match.
    for &c in matching.as_slice() {
        let pw = vec![b'I', b'W', c];
        assert!(password_matches(&table, ed, &pw));
    }
}

// Scalar and unrolled checks agree character by character over a block.
#[test]
fn test_unrolled_matches_scalar_per_char() {
    let table = Crc32Table::new();
    let ed = sample_encryption_data();
    let mut chunks: Vec<[u8; 8]> = Vec::new();
    for c in BASE64_ALPHABET.chunks(8) {
        let mut arr = [c[c.len() - 1]; 8];
        arr[..c.len()].copy_from_slice(c);
        chunks.push(arr);
    }
    for prefix in [b"IW".to_vec(), b"3b".to_vec(), b"++".to_vec()] {
        let mut keys = [0x12345678u32, 0x23456789u32, 0x34567890u32];
        for &c in &prefix {
            zipcrack::decrypt::update_keys(&table, &mut keys, c);
        }
        let block = PasswordBlock {
            password_prefix: &prefix,
            alphabet: &chunks,
            initialized_keys: keys,
        };
        let mut matching = arrayvec::ArrayVec::<u8, 256>::new();
        zipcrack::decrypt::password_matches_unrolled(&table, block, ed, &mut matching);
        for &c in BASE64_ALPHABET.iter() {
            let mut pw = prefix.clone();
            pw.push(c);
            let scalar = password_matches(&table, ed, &pw);
            let unrolled = matching.as_slice().contains(&c);
            assert_eq!(scalar, unrolled, "disagreement on last char {}", c as char);
        }
    }
}
