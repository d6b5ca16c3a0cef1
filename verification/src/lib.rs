//! BONJSON (Binary Object Notation for JSON): a binary encoding with JSON's data model.
pub mod types;

pub use types::{limits, type_code, BigNumber};
pub mod error;

pub use error::{Error, Result};
pub mod encoder;

pub use encoder::Encoder;
pub mod text;
pub mod floatbits;
pub mod decoder;

pub use decoder::{
    DecodedValue, Decoder, DecoderConfig, DuplicateKeyMode, InvalidUtf8Mode, NanInfinityMode,
    OutOfRangeMode, UnicodeNormalization,
};
pub mod value;

pub use value::Value;
pub mod typed_array;

pub use typed_array::ElementKind;
pub mod records;
pub mod document;

pub use document::{decode_value, decode_value_with_config, encode_value};
pub mod roundtrip;
pub mod de;

pub use de::Deserializer;
