use blurhash::error::invalid_base83_message;
use blurhash::Error;

#[test]
fn message_of_hash_too_short() {
    assert_eq!(Error::HashTooShort.message(), "blurhash must be at least 6 characters long");
}

#[test]
fn message_of_length_mismatch() {
    assert_eq!(
        Error::LengthMismatch { expected: 28, actual: 6 }.message(),
        "blurhash length mismatch: length is 6 but it should be 28"
    );
    assert_eq!(
        Error::LengthMismatch { expected: 184, actual: 0 }.message(),
        "blurhash length mismatch: length is 0 but it should be 184"
    );
    assert_eq!(
        Error::LengthMismatch { expected: 6, actual: 1234567890 }.message(),
        "blurhash length mismatch: length is 1234567890 but it should be 6"
    );
}

#[test]
fn message_of_invalid_base83() {
    assert_eq!(Error::InvalidBase83(b'!').message(), "Invalid base83 character: '!'");
    assert_eq!(Error::InvalidBase83(b' ').message(), "Invalid base83 character: ' '");
    assert_eq!(Error::InvalidBase83(b'\'').message(), "Invalid base83 character: '\\''");
    assert_eq!(Error::InvalidBase83(b'\n').message(), "Invalid base83 character: '\\n'");
    assert_eq!(Error::InvalidBase83(0).message(), "Invalid base83 character: '\\0'");
    assert_eq!(Error::InvalidBase83(0xe9).message(), "Invalid base83 character: 'é'");
}

#[test]
fn message_of_invalid_base83_holds_what_shows_the_byte() {
    assert_eq!(invalid_base83_message("'!'"), "Invalid base83 character: '!'");
    assert_eq!(invalid_base83_message(""), "Invalid base83 character: ");
    assert_eq!(invalid_base83_message("'\\'"), "Invalid base83 character: '\\'");
}

#[test]
fn message_of_invalid_base83_is_what_debug_shows() {
    for byte in 0..=255u8 {
        assert_eq!(
            Error::InvalidBase83(byte).message(),
            format!("Invalid base83 character: {:?}", byte as char)
        );
    }
}

#[test]
fn message_of_components_out_of_range() {
    assert_eq!(
        Error::ComponentsOutOfRange.message(),
        "blurhash must have between 1 and 9 components"
    );
}

#[test]
fn message_of_length_mismatch_writes_base_ten() {
    for n in [0usize, 7, 9, 10, 99, 100, 1002003, usize::MAX] {
        assert_eq!(
            Error::LengthMismatch { expected: n, actual: n / 3 }.message(),
            format!("blurhash length mismatch: length is {} but it should be {}", n / 3, n)
        );
    }
}

#[test]
fn errors_compare_by_what_they_hold() {
    assert_eq!(Error::InvalidBase83(1), Error::InvalidBase83(1));
    assert_ne!(Error::InvalidBase83(1), Error::InvalidBase83(2));
    assert_ne!(
        Error::LengthMismatch { expected: 6, actual: 8 },
        Error::LengthMismatch { expected: 8, actual: 6 }
    );
    assert_ne!(Error::HashTooShort, Error::ComponentsOutOfRange);
}
