use serde_bonjson::value::{object_contains_key, object_get, object_insert};
use serde_bonjson::{decode_value, decode_value_with_config, encode_value, BigNumber, Value};
use serde_bonjson::{DecoderConfig, DuplicateKeyMode, Error, InvalidUtf8Mode, NanInfinityMode};
use serde_bonjson::{OutOfRangeMode, UnicodeNormalization};

fn int_array(items: &[i64]) -> Value {
    Value::Array(items.iter().map(|&n| Value::Int(n)).collect())
}

fn object(pairs: Vec<(&str, Value)>) -> Value {
    let mut map = Vec::new();
    for (k, v) in pairs {
        object_insert(&mut map, k.to_string(), v);
    }
    Value::Object(map)
}

#[test]
fn test_value_types() {
    assert!(Value::Null.is_null());
    assert!(Value::Bool(true).is_bool());
    assert!(Value::Int(42).is_number());
    assert!(Value::Float(2.5f64.to_bits()).is_number());
    assert!(Value::String("hello".into()).is_string());
    assert!(Value::Array(vec![]).is_array());
    assert!(Value::Object(Vec::new()).is_object());
}

#[test]
fn test_bonjson_macro() {
    let v = Value::Null;
    assert!(v.is_null());

    let v = int_array(&[1, 2, 3]);
    assert!(v.is_array());
    assert_eq!(v.get(0).and_then(|v| v.as_i64()), Some(1));

    let v = object(vec![("name", Value::String("test".into())), ("value", Value::Int(42))]);
    assert!(v.is_object());
    assert_eq!(v.get_key("name").and_then(|v| v.as_str()), Some("test"));
}

#[test]
fn test_json_macro_alias() {
    let value1 = object(vec![("name", Value::String("test".into())), ("values", int_array(&[1, 2, 3]))]);
    let value2 = object(vec![("name", Value::String("test".into())), ("values", int_array(&[1, 2, 3]))]);
    assert_eq!(value1, value2);

    assert_eq!(Value::Null, Value::Null);
    assert_eq!(Value::Bool(true), Value::Bool(true));
    assert_eq!(Value::Bool(false), Value::Bool(false));
    assert_eq!(Value::Int(42), Value::Int(42));
    assert_eq!(Value::String("hello".into()), Value::String("hello".into()));
    assert_eq!(int_array(&[1, 2, 3]), int_array(&[1, 2, 3]));
}

#[test]
fn test_value_roundtrip() {
    let value = object(vec![
        ("name", Value::String("test".into())),
        ("values", int_array(&[1, 2, 3])),
        ("nested", object(vec![("flag", Value::Bool(true))])),
    ]);

    let bytes = encode_value(&value).unwrap();
    let decoded = decode_value(&bytes).unwrap();
    assert_eq!(decoded, value);
}

#[test]
fn test_decode_spec_example() {
    // {"number": 50}
    let bytes = vec![
        0xfd, // object
        0xd6, b'n', b'u', b'm', b'b', b'e', b'r', // "number"
        0x96, // 50
        0xfe, // end marker
    ];

    let value = decode_value(&bytes).unwrap();
    assert!(value.is_object());
    assert_eq!(value.get_key("number").and_then(|v| v.as_i64()), Some(50));
}

#[test]
fn objects_keep_keys_sorted() {
    let mut map = Vec::new();
    assert_eq!(object_insert(&mut map, "b".to_string(), Value::Int(2)), None);
    assert_eq!(object_insert(&mut map, "a".to_string(), Value::Int(1)), None);
    assert_eq!(object_insert(&mut map, "ab".to_string(), Value::Int(3)), None);
    assert_eq!(object_insert(&mut map, "a".to_string(), Value::Int(4)), Some(Value::Int(1)));
    let keys: Vec<&str> = map.iter().map(|(k, _)| k.as_str()).collect();
    assert_eq!(keys, vec!["a", "ab", "b"]);
    assert_eq!(object_get(&map, "a"), Some(&Value::Int(4)));
    assert!(object_contains_key(&map, "ab"));
    assert!(!object_contains_key(&map, "c"));
    // Keys order by their UTF-8 bytes.
    let mut map = Vec::new();
    object_insert(&mut map, "é".to_string(), Value::Null);
    object_insert(&mut map, "z".to_string(), Value::Null);
    assert_eq!(map[0].0, "z");
}

#[test]
fn accessors() {
    assert_eq!(Value::Bool(true).as_bool(), Some(true));
    assert_eq!(Value::Int(42).as_i64(), Some(42));
    assert_eq!(Value::UInt(100).as_u64(), Some(100));
    assert_eq!(Value::UInt(u64::MAX).as_i64(), None);
    assert_eq!(Value::Int(-1).as_u64(), None);
    assert_eq!(Value::Float(3.0f64.to_bits()).as_i64(), Some(3));
    assert_eq!(Value::Float(3.5f64.to_bits()).as_i64(), None);
    assert_eq!(Value::Float((-0.0f64).to_bits()).as_u64(), Some(0));
    assert_eq!(Value::Float((-2.0f64).to_bits()).as_u64(), None);
    assert_eq!(Value::Float(f64::NAN.to_bits()).as_i64(), None);
    assert_eq!(Value::Float(9223372036854775808.0f64.to_bits()).as_i64(), None);
    assert_eq!(Value::Float(9223372036854775808.0f64.to_bits()).as_u64(), Some(1u64 << 63));
    assert_eq!(Value::Float(18446744073709551616.0f64.to_bits()).as_u64(), None);
    assert_eq!(Value::BigNumber(BigNumber::new(1, 12, 1)).as_i64(), Some(120));
    assert_eq!(Value::String("hello".into()).as_str(), Some("hello"));
    assert_eq!(Value::Null.as_str(), None);
    assert_eq!(int_array(&[7]).get(1), None);
    let mut v = int_array(&[1]);
    v.as_array_mut().unwrap().push(Value::Int(2));
    assert_eq!(v, int_array(&[1, 2]));
    let mut o = object(vec![("k", Value::Null)]);
    assert_eq!(o.as_object().map(|m| m.len()), Some(1));
    o.as_object_mut().unwrap().clear();
    assert_eq!(o, Value::Object(Vec::new()));
    assert_eq!(Value::default(), Value::Null);
}

#[test]
fn decode_duplicate_keys_by_mode() {
    // {"a": 1, "a": 2}
    let bytes = [0xfd, 0xd1, b'a', 0x65, 0xd1, b'a', 0x66, 0xfe];
    assert_eq!(decode_value(&bytes), Err(Error::DuplicateKey));
    let first = DecoderConfig { duplicate_key_mode: DuplicateKeyMode::KeepFirst, ..Default::default() };
    assert_eq!(decode_value_with_config(&bytes, first), Ok(object(vec![("a", Value::Int(1))])));
    let last = DecoderConfig { duplicate_key_mode: DuplicateKeyMode::KeepLast, ..Default::default() };
    assert_eq!(decode_value_with_config(&bytes, last), Ok(object(vec![("a", Value::Int(2))])));
}

#[test]
fn decode_objects_sort_keys() {
    // {"b": 1, "a": 2} decodes to pairs ordered by key.
    let bytes = [0xfd, 0xd1, b'b', 0x65, 0xd1, b'a', 0x66, 0xfe];
    let v = decode_value(&bytes).unwrap();
    let keys: Vec<&str> = v.as_object().unwrap().iter().map(|(k, _)| k.as_str()).collect();
    assert_eq!(keys, vec!["a", "b"]);
}

#[test]
fn decode_nan_infinity_by_mode() {
    let mut nan = vec![0xcc];
    nan.extend_from_slice(&f64::NAN.to_le_bytes());
    let mut inf = vec![0xcb];
    inf.extend_from_slice(&f32::NEG_INFINITY.to_le_bytes());
    assert_eq!(decode_value(&nan), Err(Error::NanNotAllowed));
    assert_eq!(decode_value(&inf), Err(Error::InfinityNotAllowed));
    let stringify = DecoderConfig { nan_infinity_mode: NanInfinityMode::Stringify, ..Default::default() };
    assert_eq!(decode_value_with_config(&nan, stringify), Ok(Value::String("NaN".into())));
    assert_eq!(decode_value_with_config(&inf, stringify), Ok(Value::String("-Infinity".into())));
    let allow = DecoderConfig { nan_infinity_mode: NanInfinityMode::Allow, ..Default::default() };
    assert_eq!(
        decode_value_with_config(&inf, allow),
        Ok(Value::Float(f64::NEG_INFINITY.to_bits()))
    );
}

#[test]
fn decode_big_numbers_by_range() {
    // 2e308 exceeds binary64.
    let bytes = [0xca, 0xe8, 0x04, 0x02, 0x02];
    assert_eq!(decode_value(&bytes), Err(Error::ValueOutOfRange));
    let stringify = DecoderConfig { out_of_range_mode: OutOfRangeMode::Stringify, ..Default::default() };
    assert_eq!(decode_value_with_config(&bytes, stringify), Ok(Value::String("2e308".into())));
    // 1e308 does not.
    let bytes = [0xca, 0xe8, 0x04, 0x02, 0x01];
    assert_eq!(decode_value(&bytes), Ok(Value::BigNumber(BigNumber::new(1, 1, 308))));
    // -15e-1
    let bytes = [0xca, 0x01, 0x01, 0x0f];
    assert_eq!(decode_value(&bytes), Ok(Value::BigNumber(BigNumber::new(-1, 15, -1))));
    assert_eq!(decode_value_with_config(&bytes, stringify), Ok(Value::BigNumber(BigNumber::new(-1, 15, -1))));
    // a magnitude with a zero top byte is refused
    let bytes = [0xca, 0x00, 0x04, 0x01, 0x00];
    assert_eq!(
        decode_value(&bytes),
        Err(Error::InvalidData("non-normalized BigNumber magnitude".to_string()))
    );
    // nine magnitude bytes are beyond the default limit
    let bytes = [0xca, 0x00, 0x12, 1, 1, 1, 1, 1, 1, 1, 1, 1];
    assert_eq!(decode_value(&bytes), Err(Error::MaxBignumberMagnitudeExceeded));
    // an exponent beyond the default limit
    let bytes = [0xca, 0xa0, 0x9c, 0x01, 0x02, 0x01];
    assert_eq!(decode_value(&bytes), Err(Error::MaxBignumberExponentExceeded));
    assert_eq!(decode_value_with_config(&bytes, stringify), Ok(Value::String("1e10000".into())));
}

#[test]
fn decode_invalid_utf8_by_mode() {
    let bytes = [0xd3, b'a', 0xff, b'b'];
    assert_eq!(decode_value(&bytes), Err(Error::InvalidUtf8));
    let replace = DecoderConfig { invalid_utf8_mode: InvalidUtf8Mode::Replace, ..Default::default() };
    assert_eq!(decode_value_with_config(&bytes, replace), Ok(Value::String("a\u{fffd}b".into())));
    let delete = DecoderConfig { invalid_utf8_mode: InvalidUtf8Mode::Delete, ..Default::default() };
    assert_eq!(decode_value_with_config(&bytes, delete), Ok(Value::String("ab".into())));
}

#[test]
fn decode_nfc_normalization() {
    // "e" followed by a combining acute accent.
    let bytes = [0xd3, b'e', 0xcc, 0x81];
    assert_eq!(decode_value(&bytes), Ok(Value::String("e\u{301}".into())));
    let nfc = DecoderConfig { unicode_normalization: UnicodeNormalization::Nfc, ..Default::default() };
    assert_eq!(decode_value_with_config(&bytes, nfc), Ok(Value::String("\u{e9}".into())));
}

#[test]
fn decode_document_errors() {
    assert_eq!(decode_value(&[]), Err(Error::Truncated));
    assert_eq!(decode_value(&[0x64, 0x64]), Err(Error::TrailingBytes));
    let trailing = DecoderConfig { allow_trailing_bytes: true, ..Default::default() };
    assert_eq!(decode_value_with_config(&[0x64, 0x64], trailing), Ok(Value::Int(0)));
    assert_eq!(decode_value(&[0xfc, 0x64]), Err(Error::Truncated));
    assert_eq!(decode_value(&[0xfe]), Err(Error::UnbalancedContainers));
    assert_eq!(decode_value(&[0xc9]), Err(Error::InvalidTypeCode(0xc9)));
    assert_eq!(decode_value(&[0xfd, 0x64, 0x64, 0xfe]), Err(Error::ExpectedObjectKey));
    let shallow = DecoderConfig { max_depth: 1, ..Default::default() };
    assert_eq!(decode_value_with_config(&[0xfc, 0xfc, 0xfe, 0xfe], shallow), Err(Error::MaxDepthExceeded));
    let small = DecoderConfig { max_container_size: 1, ..Default::default() };
    assert_eq!(decode_value_with_config(&[0xfc, 0x64, 0x64, 0xfe], small), Err(Error::MaxContainerSizeExceeded));
    let tiny = DecoderConfig { max_document_size: 1, ..Default::default() };
    assert_eq!(decode_value_with_config(&[0xfc, 0xfe], tiny), Err(Error::MaxDocumentSizeExceeded));
    let short = DecoderConfig { max_string_length: 2, ..Default::default() };
    assert_eq!(decode_value_with_config(&[0xd3, b'a', b'b', b'c'], short), Err(Error::MaxStringLengthExceeded));
    assert_eq!(decode_value(&[0xff, b'a']), Err(Error::Truncated));
}

#[test]
fn roundtrip_canonical_forms() {
    // Integers come back signed or unsigned as their encoding says.
    let v = Value::Array(vec![
        Value::Int(200),
        Value::UInt(5),
        Value::UInt(u64::MAX),
        Value::Float(2.0f64.to_bits()),
        Value::Float(0.1f64.to_bits()),
        Value::BigNumber(BigNumber::new(-1, 0, 3)),
        Value::String("a longer string of text".into()),
    ]);
    let back = decode_value(&encode_value(&v).unwrap()).unwrap();
    assert_eq!(
        back,
        Value::Array(vec![
            Value::UInt(200),
            Value::Int(5),
            Value::UInt(u64::MAX),
            Value::Int(2),
            Value::Float(0.1f64.to_bits()),
            Value::BigNumber(BigNumber::new(1, 0, 3)),
            Value::String("a longer string of text".into()),
        ])
    );
    assert_eq!(encode_value(&Value::Float(f64::NAN.to_bits())), Err(Error::NanNotAllowed));
}

#[test]
fn object_insert_keeps_other_keys() {
    let mut map = Vec::new();
    object_insert(&mut map, "a".to_string(), Value::Int(1));
    object_insert(&mut map, "c".to_string(), Value::Int(3));
    object_insert(&mut map, "b".to_string(), Value::Int(2));
    object_insert(&mut map, "c".to_string(), Value::Int(30));
    assert_eq!(object_get(&map, "a"), Some(&Value::Int(1)));
    assert_eq!(object_get(&map, "b"), Some(&Value::Int(2)));
    assert_eq!(object_get(&map, "c"), Some(&Value::Int(30)));
    assert_eq!(object_get(&map, "d"), None);
    assert_eq!(map.len(), 3);
}

#[test]
fn decoded_objects_have_sorted_unique_keys() {
    // {"b": 1, "a": 2, "b": 3} with the last duplicate kept
    let bytes = [0xfd, 0xd1, b'b', 0x65, 0xd1, b'a', 0x66, 0xd1, b'b', 0x67, 0xfe];
    let mut config = DecoderConfig::default();
    config.duplicate_key_mode = DuplicateKeyMode::KeepLast;
    let value = decode_value_with_config(&bytes, config).unwrap();
    let pairs = value.as_object().unwrap();
    let keys: Vec<&str> = pairs.iter().map(|(k, _)| k.as_str()).collect();
    assert_eq!(keys, vec!["a", "b"]);
    assert_eq!(value.get_key("b"), Some(&Value::Int(3)));
}

#[test]
fn test_value_accessors() {
    assert_eq!(Value::Bool(true).as_bool(), Some(true));
    assert_eq!(Value::Int(42).as_i64(), Some(42));
    assert_eq!(Value::UInt(100).as_u64(), Some(100));
    assert_eq!(Value::String("hello".into()).as_str(), Some("hello"));
}

#[test]
fn value_conversions() {
    let v: Value = 42i32.into();
    assert_eq!(v.as_i64(), Some(42));
    assert_eq!(Value::from(true), Value::Bool(true));
    assert_eq!(Value::from(-7i8), Value::Int(-7));
    assert_eq!(Value::from(200u8), Value::Int(200));
    assert_eq!(Value::from(5u64), Value::Int(5));
    assert_eq!(Value::from(u64::MAX), Value::UInt(u64::MAX));
    assert_eq!(Value::from(String::from("hi")).as_str(), Some("hi"));
    assert_eq!(Value::from(BigNumber::new(1, 15, -1)), Value::BigNumber(BigNumber::new(1, 15, -1)));
}

#[test]
fn value_clone_is_equal() {
    let v = object(vec![
        ("a", int_array(&[1, 2, 3])),
        ("b", Value::String("x".into())),
        ("c", object(vec![("d", Value::Float(2.5f64.to_bits()))])),
    ]);
    assert_eq!(v.clone(), v);
}
