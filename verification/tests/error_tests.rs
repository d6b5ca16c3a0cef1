use serde_bonjson::Error;

#[test]
fn test_error_types() {
    assert_eq!(Error::Truncated.error_type(), "truncated");
    assert_eq!(Error::InvalidTypeCode(0x65).error_type(), "invalid_type_code");
    assert_eq!(Error::NulCharacter.error_type(), "nul_character");
}

#[test]
fn test_error_display() {
    let err = Error::InvalidTypeCode(0x65);
    assert_eq!(err.message(), "invalid type code: 0x65");
}

#[test]
fn error_messages() {
    assert_eq!(Error::InvalidData("bad".to_string()).message(), "invalid data: bad");
    assert_eq!(Error::Custom("free text".to_string()).message(), "free text");
    assert_eq!(Error::InvalidTypeCode(0xfb).message(), "invalid type code: 0xfb");
    assert_eq!(Error::MaxBignumberExponentExceeded.error_type(), "max_bignumber_exponent_exceeded");
    assert_eq!(Error::Io("x".to_string()).error_type(), "io_error");
}
