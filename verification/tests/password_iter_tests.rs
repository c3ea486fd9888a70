use zipcrack::opt::Alphabet;
use zipcrack::opt::Opt;
use zipcrack::password_iter::for_each_password;
use zipcrack::password_iter::for_each_password_unrolled;

fn test_opt() -> Opt {
    Opt {
        alphabet: Alphabet(b"abc".to_vec()),
        max_length: 3,
        min_length: 1,
        num_threads: 1,
        start_password: None,
        unroll: false,
    }
}

fn emitted_passwords(opt: &Opt, idx: u8) -> Vec<Vec<u8>> {
    for_each_password(opt, idx)
        .into_iter()
        .map(|(pw, _)| pw)
        .collect()
}

#[test]
fn test_abc_passwords() {
    let opt = test_opt();
    let expected_passwords = vec![
        b"a".to_vec(),
        b"b".to_vec(),
        b"c".to_vec(),
        b"aa".to_vec(),
        b"ab".to_vec(),
        b"ac".to_vec(),
        b"ba".to_vec(),
        b"bb".to_vec(),
        b"bc".to_vec(),
        b"ca".to_vec(),
        b"cb".to_vec(),
        b"cc".to_vec(),
        b"aaa".to_vec(),
        b"aab".to_vec(),
        b"aac".to_vec(),
        b"aba".to_vec(),
        b"abb".to_vec(),
        b"abc".to_vec(),
        b"aca".to_vec(),
        b"acb".to_vec(),
        b"acc".to_vec(),
        b"baa".to_vec(),
        b"bab".to_vec(),
        b"bac".to_vec(),
        b"bba".to_vec(),
        b"bbb".to_vec(),
        b"bbc".to_vec(),
        b"bca".to_vec(),
        b"bcb".to_vec(),
        b"bcc".to_vec(),
        b"caa".to_vec(),
        b"cab".to_vec(),
        b"cac".to_vec(),
        b"cba".to_vec(),
        b"cbb".to_vec(),
        b"cbc".to_vec(),
        b"cca".to_vec(),
        b"ccb".to_vec(),
        b"ccc".to_vec(),
    ];

    let passwords = emitted_passwords(&opt, 0);
    assert_eq!(passwords, expected_passwords);

    // The unrolled enumeration expands each prefix by every chunk lane;
    // after filtering the padding duplicates it must match the plain
    // enumeration.
    let mut passwords: Vec<Vec<u8>> = vec![];
    let (chunks, blocks) = for_each_password_unrolled(&opt, 0);
    for (prefix, _) in &blocks {
        for last_char_chunk in &chunks {
            for &last_char in last_char_chunk {
                let mut password = prefix.clone();
                password.push(last_char);
                // Filter out duplicates from padding.
                if passwords.last() != Some(&password) {
                    passwords.push(password);
                }
            }
        }
    }
    assert_eq!(passwords, expected_passwords);

    // Merging two shards and sorting by (length, lex) reproduces the
    // single-shard sequence.
    let mut opt_multithreaded = test_opt();
    opt_multithreaded.num_threads = 2;
    let mut passwords = emitted_passwords(&opt_multithreaded, 0);
    passwords.extend(emitted_passwords(&opt_multithreaded, 1));
    passwords.sort_by(|pw1, pw2| pw1.len().cmp(&pw2.len()).then(pw1.cmp(pw2)));
    assert_eq!(passwords, expected_passwords);

    // The same with twelve shards, more shards than candidates of the
    // shortest length.
    let mut opt_multithreaded = test_opt();
    opt_multithreaded.num_threads = 12;
    let mut passwords: Vec<Vec<u8>> = vec![];
    for idx in 0..12 {
        passwords.extend(emitted_passwords(&opt_multithreaded, idx));
    }
    passwords.sort_by(|pw1, pw2| pw1.len().cmp(&pw2.len()).then(pw1.cmp(pw2)));
    assert_eq!(passwords, expected_passwords);
}

#[test]
fn test_initialized_keys() {
    let mut opt = test_opt();
    opt.min_length = 0;
    let table = zipcrack::decrypt::Crc32Table::new();
    for (pw, initialized_keys) in for_each_password(&opt, 0) {
        let mut keys = [305419896u32, 591751049u32, 878082192u32];
        for &c in &pw {
            zipcrack::decrypt::update_keys(&table, &mut keys, c);
        }
        assert_eq!(initialized_keys, keys);
    }
}

// Starting from a mid-range candidate: emission begins exactly there and no
// earlier candidate appears.
#[test]
fn test_start_password_mid_range() {
    let mut opt = test_opt();
    opt.start_password = Some(b"bb".to_vec());
    let passwords = emitted_passwords(&opt, 0);
    assert_eq!(passwords[0], b"bb".to_vec());
    let expected: Vec<Vec<u8>> = vec![
        b"bb".to_vec(),
        b"bc".to_vec(),
        b"ca".to_vec(),
        b"cb".to_vec(),
        b"cc".to_vec(),
        b"aaa".to_vec(),
    ];
    assert_eq!(passwords[..6].to_vec(), expected);
    assert!(!passwords.contains(&b"ba".to_vec()));
    assert!(!passwords.contains(&b"a".to_vec()));
    assert_eq!(passwords.len(), 5 + 27);
}

// min_length 0 emits the empty candidate first; with max_length 0 it is the
// only candidate.
#[test]
fn test_boundary_lengths() {
    let mut opt = test_opt();
    opt.min_length = 0;
    opt.max_length = 1;
    let passwords = emitted_passwords(&opt, 0);
    assert_eq!(
        passwords,
        vec![b"".to_vec(), b"a".to_vec(), b"b".to_vec(), b"c".to_vec()]
    );

    let mut opt = test_opt();
    opt.min_length = 0;
    opt.max_length = 0;
    let passwords = emitted_passwords(&opt, 0);
    assert_eq!(passwords, vec![b"".to_vec()]);
}
