//! Error types for BONJSON encoding and decoding.
use vstd::prelude::*;

verus! {

/// Errors that can occur during BONJSON encoding or decoding.
#[derive(Debug, Clone, PartialEq, Eq)]
pub enum Error {
    /// Unexpected end of input data.
    Truncated,
    /// Unconsumed bytes after decoding a complete document.
    TrailingBytes,
    /// Unrecognized or reserved type code encountered.
    InvalidTypeCode(u8),
    /// Invalid UTF-8 byte sequence in string.
    InvalidUtf8,
    /// NUL (0x00) byte in string (rejected by default).
    NulCharacter,
    /// Duplicate key in object.
    DuplicateKey,
    /// Missing container end marker.
    UnclosedContainer,
    /// NaN value encountered where not allowed.
    NanNotAllowed,
    /// Infinity value encountered where not allowed.
    InfinityNotAllowed,
    /// Generic invalid data (e.g., invalid BigNumber).
    InvalidData(String),
    /// Non-string used as object key.
    InvalidObjectKey,
    /// Value exceeds allowed range.
    ValueOutOfRange,
    /// Container nesting too deep.
    MaxDepthExceeded,
    /// String exceeds length limit.
    MaxStringLengthExceeded,
    /// Container has too many elements.
    MaxContainerSizeExceeded,
    /// Document exceeds size limit.
    MaxDocumentSizeExceeded,
    /// Big number exponent exceeds the configured limit.
    MaxBignumberExponentExceeded,
    /// Big number magnitude exceeds the configured limit.
    MaxBignumberMagnitudeExceeded,
    /// Tried to close more containers than were opened.
    UnbalancedContainers,
    /// Expected an object key (string) but got a different type.
    ExpectedObjectKey,
    /// Container ended while expecting an object value.
    ExpectedObjectValue,
    /// IO error during encoding.
    Io(String),
    /// Custom error message.
    Custom(String),
}

/// The result type for BONJSON operations.
pub type Result<T> = core::result::Result<T, Error>;

/// An error with its messages as character sequences, for contracts.
pub enum SpecError {
    Truncated,
    TrailingBytes,
    InvalidTypeCode(u8),
    InvalidUtf8,
    NulCharacter,
    DuplicateKey,
    UnclosedContainer,
    NanNotAllowed,
    InfinityNotAllowed,
    InvalidData(Seq<char>),
    InvalidObjectKey,
    ValueOutOfRange,
    MaxDepthExceeded,
    MaxStringLengthExceeded,
    MaxContainerSizeExceeded,
    MaxDocumentSizeExceeded,
    MaxBignumberExponentExceeded,
    MaxBignumberMagnitudeExceeded,
    UnbalancedContainers,
    ExpectedObjectKey,
    ExpectedObjectValue,
    Io(Seq<char>),
    Custom(Seq<char>),
}

impl View for Error {
    type V = SpecError;

    open spec fn view(&self) -> SpecError {
        match self {
            Error::Truncated => SpecError::Truncated,
            Error::TrailingBytes => SpecError::TrailingBytes,
            Error::InvalidTypeCode(c) => SpecError::InvalidTypeCode(*c),
            Error::InvalidUtf8 => SpecError::InvalidUtf8,
            Error::NulCharacter => SpecError::NulCharacter,
            Error::DuplicateKey => SpecError::DuplicateKey,
            Error::UnclosedContainer => SpecError::UnclosedContainer,
            Error::NanNotAllowed => SpecError::NanNotAllowed,
            Error::InfinityNotAllowed => SpecError::InfinityNotAllowed,
            Error::InvalidData(m) => SpecError::InvalidData(m@),
            Error::InvalidObjectKey => SpecError::InvalidObjectKey,
            Error::ValueOutOfRange => SpecError::ValueOutOfRange,
            Error::MaxDepthExceeded => SpecError::MaxDepthExceeded,
            Error::MaxStringLengthExceeded => SpecError::MaxStringLengthExceeded,
            Error::MaxContainerSizeExceeded => SpecError::MaxContainerSizeExceeded,
            Error::MaxDocumentSizeExceeded => SpecError::MaxDocumentSizeExceeded,
            Error::MaxBignumberExponentExceeded => SpecError::MaxBignumberExponentExceeded,
            Error::MaxBignumberMagnitudeExceeded => SpecError::MaxBignumberMagnitudeExceeded,
            Error::UnbalancedContainers => SpecError::UnbalancedContainers,
            Error::ExpectedObjectKey => SpecError::ExpectedObjectKey,
            Error::ExpectedObjectValue => SpecError::ExpectedObjectValue,
            Error::Io(m) => SpecError::Io(m@),
            Error::Custom(m) => SpecError::Custom(m@),
        }
    }
}

/// Standardized error type name of each error.
pub open spec fn spec_error_type(e: Error) -> Seq<char> {
    match e {
        Error::Truncated => "truncated"@,
        Error::TrailingBytes => "trailing_bytes"@,
        Error::InvalidTypeCode(_) => "invalid_type_code"@,
        Error::InvalidUtf8 => "invalid_utf8"@,
        Error::NulCharacter => "nul_character"@,
        Error::DuplicateKey => "duplicate_key"@,
        Error::UnclosedContainer => "unclosed_container"@,
        Error::NanNotAllowed => "nan_not_allowed"@,
        Error::InfinityNotAllowed => "infinity_not_allowed"@,
        Error::InvalidData(_) => "invalid_data"@,
        Error::InvalidObjectKey => "invalid_object_key"@,
        Error::ValueOutOfRange => "value_out_of_range"@,
        Error::MaxDepthExceeded => "max_depth_exceeded"@,
        Error::MaxStringLengthExceeded => "max_string_length_exceeded"@,
        Error::MaxContainerSizeExceeded => "max_container_size_exceeded"@,
        Error::MaxDocumentSizeExceeded => "max_document_size_exceeded"@,
        Error::MaxBignumberExponentExceeded => "max_bignumber_exponent_exceeded"@,
        Error::MaxBignumberMagnitudeExceeded => "max_bignumber_magnitude_exceeded"@,
        Error::UnbalancedContainers => "unbalanced_containers"@,
        Error::ExpectedObjectKey => "expected_object_key"@,
        Error::ExpectedObjectValue => "expected_object_value"@,
        Error::Io(_) => "io_error"@,
        Error::Custom(_) => "custom"@,
    }
}

/// The lower-case hexadecimal digit of a nibble.
pub open spec fn hex_digit(n: u8) -> char {
    if n < 10 {
        (n + 48) as char
    } else {
        (n + 87) as char
    }
}

/// The human-readable message of each error.
pub open spec fn spec_error_message(e: Error) -> Seq<char> {
    match e {
        Error::Truncated => "unexpected end of input"@,
        Error::TrailingBytes => "trailing bytes after document"@,
        Error::InvalidTypeCode(code) => "invalid type code: 0x"@ + seq![
            hex_digit(code / 16),
            hex_digit(code % 16),
        ],
        Error::InvalidUtf8 => "invalid UTF-8 sequence"@,
        Error::NulCharacter => "NUL character in string"@,
        Error::DuplicateKey => "duplicate key in object"@,
        Error::UnclosedContainer => "unclosed container"@,
        Error::NanNotAllowed => "NaN is not allowed"@,
        Error::InfinityNotAllowed => "Infinity is not allowed"@,
        Error::InvalidData(msg) => "invalid data: "@ + msg@,
        Error::InvalidObjectKey => "non-string object key"@,
        Error::ValueOutOfRange => "value out of range"@,
        Error::MaxDepthExceeded => "maximum container depth exceeded"@,
        Error::MaxStringLengthExceeded => "maximum string length exceeded"@,
        Error::MaxContainerSizeExceeded => "maximum container size exceeded"@,
        Error::MaxDocumentSizeExceeded => "maximum document size exceeded"@,
        Error::MaxBignumberExponentExceeded => "maximum big number exponent exceeded"@,
        Error::MaxBignumberMagnitudeExceeded => "maximum big number magnitude exceeded"@,
        Error::UnbalancedContainers => "tried to close too many containers"@,
        Error::ExpectedObjectKey => "expected object key (string)"@,
        Error::ExpectedObjectValue => "expected object value"@,
        Error::Io(msg) => "I/O error: "@ + msg@,
        Error::Custom(msg) => msg@,
    }
}

/// A message made of `prefix`, "0x" and the two lower-case hex digits of `code`.
pub open spec fn spec_code_message(prefix: Seq<char>, code: u8) -> Seq<char> {
    prefix + "0x"@ + seq![hex_digit(code / 16), hex_digit(code % 16)]
}

/// Build a message made of `prefix`, "0x" and the two hex digits of `code`.
pub fn code_message(prefix: &str, code: u8) -> (r: String)
    ensures
        r@ == spec_code_message(prefix@, code),
{
    let mut s = String::from_str(prefix);
    s.append("0x");
    s.append(hex_digit_str(code / 16));
    s.append(hex_digit_str(code % 16));
    proof {
        reveal_strlit("0x");
    }
    assert(s@ =~= spec_code_message(prefix@, code));
    s
}

pub(crate) fn hex_digit_str(n: u8) -> (r: &'static str)
    requires
        n < 16,
    ensures
        r@ == seq![hex_digit(n)],
{
    proof {
        reveal_strlit("0");
        reveal_strlit("1");
        reveal_strlit("2");
        reveal_strlit("3");
        reveal_strlit("4");
        reveal_strlit("5");
        reveal_strlit("6");
        reveal_strlit("7");
        reveal_strlit("8");
        reveal_strlit("9");
        reveal_strlit("a");
        reveal_strlit("b");
        reveal_strlit("c");
        reveal_strlit("d");
        reveal_strlit("e");
        reveal_strlit("f");
    }
    let r = if n == 0 {
        "0"
    } else if n == 1 {
        "1"
    } else if n == 2 {
        "2"
    } else if n == 3 {
        "3"
    } else if n == 4 {
        "4"
    } else if n == 5 {
        "5"
    } else if n == 6 {
        "6"
    } else if n == 7 {
        "7"
    } else if n == 8 {
        "8"
    } else if n == 9 {
        "9"
    } else if n == 10 {
        "a"
    } else if n == 11 {
        "b"
    } else if n == 12 {
        "c"
    } else if n == 13 {
        "d"
    } else if n == 14 {
        "e"
    } else {
        "f"
    };
    assert(r@ =~= seq![hex_digit(n)]);
    r
}

impl Error {
    /// Returns the standardized error type name for test matching.
    pub fn error_type(&self) -> (r: &'static str)
        ensures
            r@ == spec_error_type(*self),
    {
        match self {
            Error::Truncated => "truncated",
            Error::TrailingBytes => "trailing_bytes",
            Error::InvalidTypeCode(_) => "invalid_type_code",
            Error::InvalidUtf8 => "invalid_utf8",
            Error::NulCharacter => "nul_character",
            Error::DuplicateKey => "duplicate_key",
            Error::UnclosedContainer => "unclosed_container",
            Error::NanNotAllowed => "nan_not_allowed",
            Error::InfinityNotAllowed => "infinity_not_allowed",
            Error::InvalidData(_) => "invalid_data",
            Error::InvalidObjectKey => "invalid_object_key",
            Error::ValueOutOfRange => "value_out_of_range",
            Error::MaxDepthExceeded => "max_depth_exceeded",
            Error::MaxStringLengthExceeded => "max_string_length_exceeded",
            Error::MaxContainerSizeExceeded => "max_container_size_exceeded",
            Error::MaxDocumentSizeExceeded => "max_document_size_exceeded",
            Error::MaxBignumberExponentExceeded => "max_bignumber_exponent_exceeded",
            Error::MaxBignumberMagnitudeExceeded => "max_bignumber_magnitude_exceeded",
            Error::UnbalancedContainers => "unbalanced_containers",
            Error::ExpectedObjectKey => "expected_object_key",
            Error::ExpectedObjectValue => "expected_object_value",
            Error::Io(_) => "io_error",
            Error::Custom(_) => "custom",
        }
    }

    /// The human-readable description of the error (what its display form prints).
    pub fn message(&self) -> (r: String)
        ensures
            r@ == spec_error_message(*self),
    {
        match self {
            Error::Truncated => String::from_str("unexpected end of input"),
            Error::TrailingBytes => String::from_str("trailing bytes after document"),
            Error::InvalidTypeCode(code) => {
                let mut s = String::from_str("invalid type code: 0x");
                s.append(hex_digit_str(*code / 16));
                s.append(hex_digit_str(*code % 16));
                s
            },
            Error::InvalidUtf8 => String::from_str("invalid UTF-8 sequence"),
            Error::NulCharacter => String::from_str("NUL character in string"),
            Error::DuplicateKey => String::from_str("duplicate key in object"),
            Error::UnclosedContainer => String::from_str("unclosed container"),
            Error::NanNotAllowed => String::from_str("NaN is not allowed"),
            Error::InfinityNotAllowed => String::from_str("Infinity is not allowed"),
            Error::InvalidData(msg) => {
                let mut s = String::from_str("invalid data: ");
                s.append(msg.as_str());
                s
            },
            Error::InvalidObjectKey => String::from_str("non-string object key"),
            Error::ValueOutOfRange => String::from_str("value out of range"),
            Error::MaxDepthExceeded => String::from_str("maximum container depth exceeded"),
            Error::MaxStringLengthExceeded => String::from_str("maximum string length exceeded"),
            Error::MaxContainerSizeExceeded => String::from_str("maximum container size exceeded"),
            Error::MaxDocumentSizeExceeded => String::from_str("maximum document size exceeded"),
            Error::MaxBignumberExponentExceeded => String::from_str(
                "maximum big number exponent exceeded",
            ),
            Error::MaxBignumberMagnitudeExceeded => String::from_str(
                "maximum big number magnitude exceeded",
            ),
            Error::UnbalancedContainers => String::from_str("tried to close too many containers"),
            Error::ExpectedObjectKey => String::from_str("expected object key (string)"),
            Error::ExpectedObjectValue => String::from_str("expected object value"),
            Error::Io(msg) => {
                let mut s = String::from_str("I/O error: ");
                s.append(msg.as_str());
                s
            },
            Error::Custom(msg) => msg.clone(),
        }
    }
}

} // verus!
