use zipcrack::opt::Alphabet;
use zipcrack::opt::AlphabetError;

// A custom alphabet is normalized: sorted ascending and deduplicated.
#[test]
fn test_custom_alphabet_normalized() {
    let a = Alphabet::parse(b"custom:ba").unwrap();
    assert_eq!(a.0, b"ab".to_vec());

    let a = Alphabet::parse(b"custom:banana").unwrap();
    assert_eq!(a.0, b"abn".to_vec());
}

#[test]
fn test_base64_alphabet() {
    let a = Alphabet::parse(b"base64").unwrap();
    assert_eq!(
        a.0,
        b"+/0123456789ABCDEFGHIJKLMNOPQRSTUVWXYZabcdefghijklmnopqrstuvwxyz".to_vec()
    );
    assert_eq!(a.0.len(), 64);
}

#[test]
fn test_alphabet_errors() {
    assert!(matches!(
        Alphabet::parse("custom:é".as_bytes()),
        Err(AlphabetError::NotAscii)
    ));
    assert!(matches!(
        Alphabet::parse(b"custom:"),
        Err(AlphabetError::EmptyCustom)
    ));
    assert!(matches!(Alphabet::parse(b"hex"), Err(AlphabetError::Invalid)));
    assert!(matches!(Alphabet::parse(b""), Err(AlphabetError::Invalid)));
}
