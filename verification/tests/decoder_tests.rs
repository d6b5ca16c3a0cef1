use serde_bonjson::{BigNumber, DecodedValue, Decoder, Error};

#[test]
fn test_decode_long_string() {
    // 67-byte string: FF + data + FF
    let mut data = vec![0xff];
    data.extend_from_slice(b"abcdefghijklmnopqrstuvwxyzABCDEFGHIJKLMNOPQRSTUVWXYZ0123456789_____");
    data.push(0xff);
    let mut dec = Decoder::new(&data);
    assert_eq!(
        dec.decode_value().unwrap(),
        DecodedValue::String(
            "abcdefghijklmnopqrstuvwxyzABCDEFGHIJKLMNOPQRSTUVWXYZ0123456789_____".to_string()
        )
    );
}

#[test]
fn test_trailing_bytes() {
    let mut dec = Decoder::new(&[0x00, 0x00]); // small int + extra byte
    dec.decode_value().unwrap();
    assert!(matches!(dec.finish(), Err(Error::TrailingBytes)));
}

#[test]
fn test_decode_tokens_of_array() {
    // [1, "x", null] → FC 65 D1 78 CD FE
    let data = [0xfc, 0x65, 0xd1, 0x78, 0xcd, 0xfe];
    let mut dec = Decoder::new(&data);
    assert_eq!(dec.decode_value().unwrap(), DecodedValue::ArrayStart);
    assert!(!dec.is_at_container_end().unwrap());
    assert_eq!(dec.decode_value().unwrap(), DecodedValue::Int(1));
    assert!(!dec.is_at_container_end().unwrap());
    assert_eq!(dec.decode_value().unwrap(), DecodedValue::String("x".to_string()));
    assert!(!dec.is_at_container_end().unwrap());
    assert_eq!(dec.decode_value().unwrap(), DecodedValue::Null);
    assert!(dec.is_at_container_end().unwrap());
    dec.end_container().unwrap();
    dec.finish().unwrap();
}

#[test]
fn test_decode_tokens_errors() {
    // reserved codes
    let mut dec = Decoder::new(&[0xc9]);
    assert_eq!(dec.decode_value(), Err(Error::InvalidTypeCode(0xc9)));
    let mut dec = Decoder::new(&[0xe8]);
    assert_eq!(dec.decode_value(), Err(Error::InvalidTypeCode(0xe8)));
    // sint16 with one byte missing
    let mut dec = Decoder::new(&[0xe5, 0xe8]);
    assert_eq!(dec.decode_value(), Err(Error::Truncated));
    // closing a container that was never opened
    let mut dec = Decoder::new(&[0xfe]);
    assert_eq!(dec.decode_value(), Err(Error::UnbalancedContainers));
    // an unclosed array
    let mut dec = Decoder::new(&[0xfc]);
    assert_eq!(dec.decode_value().unwrap(), DecodedValue::ArrayStart);
    assert_eq!(dec.finish(), Err(Error::UnclosedContainer));
}

#[test]
fn integers_read_back_what_was_written() {
    for v in [0i64, 1, -1, 100, -100, 101, -101, 255, 256, -32768, 1 << 40, i64::MAX, i64::MIN] {
        let mut enc = serde_bonjson::Encoder::new(Vec::new());
        enc.write_i64(v).unwrap();
        let buf = enc.into_inner();
        let mut dec = Decoder::new(&buf);
        assert_eq!(dec.decode_i64_direct(), Ok(v));
        assert_eq!(dec.position(), buf.len());
    }
}

#[test]
fn big_numbers_read_back_what_was_written() {
    for bn in [
        BigNumber::new(1, 15, -1),
        BigNumber::new(-1, u64::MAX, 300),
        BigNumber::new(1, 0, 5),
        BigNumber::new(-1, 0, -2),
    ] {
        let mut enc = serde_bonjson::Encoder::new(Vec::new());
        enc.write_big_number(bn).unwrap();
        let buf = enc.into_inner();
        let mut dec = Decoder::new(&buf);
        let expected = if bn.significand == 0 { BigNumber::new(1, 0, bn.exponent) } else { bn };
        assert_eq!(dec.decode_value(), Ok(DecodedValue::BigNumber(expected)));
        assert_eq!(dec.position(), buf.len());
    }
}
