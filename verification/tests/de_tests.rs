use serde_bonjson::{Decoder, DecoderConfig, Deserializer, Error};

/// The decoder of a deserializer over `data`, as the serde path uses it.
fn decoder(data: &[u8]) -> Decoder<'_> {
    Deserializer::from_slice(data).into_decoder()
}

#[test]
fn test_deserialize_primitives() {
    // true: 0xcf, false: 0xce
    let mut d = decoder(&[0xcf]);
    assert!(d.decode_bool_direct().unwrap());
    d.finish().unwrap();
    let mut d = decoder(&[0xce]);
    assert!(!d.decode_bool_direct().unwrap());
    d.finish().unwrap();
    // 42 as small int: 42 + 100 = 142 = 0x8e
    let mut d = decoder(&[0x8e]);
    assert_eq!(d.decode_i64_direct().unwrap() as i32, 42);
    d.finish().unwrap();
    // "hello" (5 chars): 0xd5 + bytes
    let data = [0xd5, b'h', b'e', b'l', b'l', b'o'];
    let mut d = decoder(&data);
    assert_eq!(d.decode_str_direct().unwrap(), "hello");
    d.finish().unwrap();
}

#[test]
fn test_deserialize_option() {
    // null: 0xcd
    let mut d = decoder(&[0xcd]);
    assert_eq!(d.peek_type_code().unwrap(), 0xcd);
    d.skip_byte();
    d.finish().unwrap();
    // 42 as small int: 0x8e
    let mut d = decoder(&[0x8e]);
    assert_ne!(d.peek_type_code().unwrap(), 0xcd);
    assert_eq!(d.decode_i64_direct().unwrap(), 42);
    d.finish().unwrap();
}

#[test]
fn test_deserialize_vec() {
    // [1, 2, 3]: FC + elements + FE
    let data = [0xfc, 0x65, 0x66, 0x67, 0xfe];
    let mut d = decoder(&data);
    d.expect_array_start().unwrap();
    let mut out = Vec::new();
    while !d.try_consume_container_end().unwrap() {
        out.push(d.decode_i64_direct().unwrap() as i32);
    }
    d.finish().unwrap();
    assert_eq!(out, vec![1, 2, 3]);
}

#[test]
fn test_from_slice_with_config_allow_nul() {
    // String containing NUL: "a\0b" (3 chars): 0xd3 + bytes
    let bytes = vec![0xd3, b'a', 0x00, b'b'];

    // Default config should fail
    let mut d = decoder(&bytes);
    assert!(d.decode_str_direct().is_err());

    // With allow_nul should succeed
    let config = DecoderConfig { allow_nul: true, ..Default::default() };
    let mut d = Deserializer::from_slice_with_config(&bytes, config).into_decoder();
    let result = d.decode_str_direct().unwrap();
    d.finish().unwrap();
    assert_eq!(result, "a\0b");
}

#[test]
fn direct_reads_refuse_other_types() {
    let mut d = decoder(&[0xcd]);
    assert_eq!(d.decode_bool_direct(), Err(Error::Custom("expected bool, got 0xcd".to_string())));
    let mut d = decoder(&[0xcd]);
    assert_eq!(d.decode_i64_direct(), Err(Error::Custom("expected integer, got 0xcd".to_string())));
    let mut d = decoder(&[0xcf]);
    assert_eq!(
        d.decode_u64_direct(),
        Err(Error::Custom("expected unsigned integer, got 0xcf".to_string()))
    );
    let mut d = decoder(&[0x63]);
    assert_eq!(d.decode_u64_direct(), Err(Error::ValueOutOfRange));
    let mut d = decoder(&[0xe4, 0xff]);
    assert_eq!(d.decode_u64_direct(), Err(Error::ValueOutOfRange));
    let mut d = decoder(&[0xe3, 0xff, 0xff, 0xff, 0xff, 0xff, 0xff, 0xff, 0xff]);
    assert_eq!(d.decode_u64_direct(), Ok(u64::MAX));
    let mut d = decoder(&[0xe3, 0xff, 0xff, 0xff, 0xff, 0xff, 0xff, 0xff, 0xff]);
    assert_eq!(d.decode_i64_direct(), Ok(-1));
    let mut d = decoder(&[0x01]);
    assert_eq!(d.decode_str_direct(), Err(Error::ExpectedObjectKey));
    let mut d = decoder(&[0xcd]);
    assert_eq!(d.expect_array_start(), Err(Error::Custom("expected array, got 0xcd".to_string())));
    let mut d = decoder(&[0xfc]);
    assert_eq!(d.expect_object_start(), Err(Error::Custom("expected object, got 0xfc".to_string())));
    let mut d = decoder(&[]);
    assert_eq!(d.decode_bool_direct(), Err(Error::Truncated));
}

#[test]
fn test_decode_bytes_direct() {
    // [1, 255, 0]: small int 1 (0x65), uint8 255 (0xe0 0xff), small int 0 (0x64)
    let mut d = decoder(&[0xfc, 0x65, 0xe0, 0xff, 0x64, 0xfe]);
    assert_eq!(d.decode_bytes_direct().unwrap(), vec![1u8, 255, 0]);
    d.finish().unwrap();
    // empty array
    let mut d = decoder(&[0xfc, 0xfe]);
    assert_eq!(d.decode_bytes_direct().unwrap(), Vec::<u8>::new());
    d.finish().unwrap();
    // a negative small integer is no byte
    let mut d = decoder(&[0xfc, 0x63, 0xfe]);
    assert_eq!(
        d.decode_bytes_direct(),
        Err(Error::Custom("expected byte array".to_string()))
    );
    // a string is no byte
    let mut d = decoder(&[0xfc, 0xd1, b'a', 0xfe]);
    assert_eq!(
        d.decode_bytes_direct(),
        Err(Error::Custom("expected byte array".to_string()))
    );
    // missing end marker
    let mut d = decoder(&[0xfc, 0x65]);
    assert_eq!(d.decode_bytes_direct(), Err(Error::Truncated));
    // not an array
    let mut d = decoder(&[0x65]);
    assert_eq!(
        d.decode_bytes_direct(),
        Err(Error::Custom("expected array, got 0x65".to_string()))
    );
}
