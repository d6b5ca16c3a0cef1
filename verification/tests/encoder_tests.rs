use serde_bonjson::encoder::{required_signed_bytes_min1, required_unsigned_bytes_min1};
use serde_bonjson::{BigNumber, Encoder, Error};

fn encoded(f: impl FnOnce(&mut Encoder)) -> Vec<u8> {
    let mut enc = Encoder::new(Vec::new());
    f(&mut enc);
    enc.into_inner()
}

#[test]
fn test_required_unsigned_bytes() {
    assert_eq!(required_unsigned_bytes_min1(0), 1);
    assert_eq!(required_unsigned_bytes_min1(255), 1);
    assert_eq!(required_unsigned_bytes_min1(256), 2);
    assert_eq!(required_unsigned_bytes_min1(0xffff), 2);
    assert_eq!(required_unsigned_bytes_min1(0x10000), 3);
    assert_eq!(required_unsigned_bytes_min1(u64::MAX), 8);
}

#[test]
fn test_required_signed_bytes() {
    assert_eq!(required_signed_bytes_min1(0), 1);
    assert_eq!(required_signed_bytes_min1(127), 1);
    assert_eq!(required_signed_bytes_min1(128), 2);
    assert_eq!(required_signed_bytes_min1(-1), 1);
    assert_eq!(required_signed_bytes_min1(-128), 1);
    assert_eq!(required_signed_bytes_min1(-129), 2);
}

#[test]
fn test_encode_small_ints() {
    assert_eq!(encoded(|e| e.write_i64(0).unwrap()), vec![0x64]);
    assert_eq!(encoded(|e| e.write_i64(100).unwrap()), vec![0xc8]);
    assert_eq!(encoded(|e| e.write_i64(-100).unwrap()), vec![0x00]);
    assert_eq!(encoded(|e| e.write_i64(-1).unwrap()), vec![0x63]);
}

#[test]
fn test_encode_larger_ints() {
    // 1000 as sint16 (0xe5): native size for 2 bytes
    assert_eq!(encoded(|e| e.write_i64(1000).unwrap()), vec![0xe5, 0xe8, 0x03]);
    // 180 as uint8 (0xe0)
    assert_eq!(encoded(|e| e.write_u64(180).unwrap()), vec![0xe0, 0xb4]);
}

#[test]
fn test_encode_null_bool() {
    assert_eq!(encoded(|e| e.write_null().unwrap()), vec![0xcd]);
    assert_eq!(encoded(|e| e.write_bool(true).unwrap()), vec![0xcf]);
    assert_eq!(encoded(|e| e.write_bool(false).unwrap()), vec![0xce]);
}

#[test]
fn test_encode_short_string() {
    // Empty string: 0xd0
    assert_eq!(encoded(|e| e.write_str("").unwrap()), vec![0xd0]);
    // "A": 0xd1 + 'A'
    assert_eq!(encoded(|e| e.write_str("A").unwrap()), vec![0xd1, 0x41]);
}

#[test]
fn test_encode_long_string() {
    // 16-byte string: FF + data + FF
    let s = "abcdefghijklmnop";
    let buf = encoded(|e| e.write_str(s).unwrap());
    assert_eq!(buf[0], 0xff);
    assert_eq!(&buf[1..17], s.as_bytes());
    assert_eq!(buf[17], 0xff);
}

#[test]
fn test_encode_empty_containers() {
    let buf = encoded(|e| {
        e.begin_array().unwrap();
        e.end_container().unwrap();
    });
    assert_eq!(buf, vec![0xfc, 0xfe]);

    let buf = encoded(|e| {
        e.begin_object().unwrap();
        e.end_container().unwrap();
    });
    assert_eq!(buf, vec![0xfd, 0xfe]);
}

#[test]
fn test_encode_array_with_values() {
    // [1, "x", null] -> FC 65 D1 78 CD FE
    let buf = encoded(|e| {
        e.begin_array().unwrap();
        e.write_i64(1).unwrap();
        e.write_str("x").unwrap();
        e.write_null().unwrap();
        e.end_container().unwrap();
    });
    assert_eq!(buf, vec![0xfc, 0x65, 0xd1, 0x78, 0xcd, 0xfe]);
}

#[test]
fn test_encode_object() {
    // {"a": 1} -> FD D1 61 65 FE
    let buf = encoded(|e| {
        e.begin_object().unwrap();
        e.write_str("a").unwrap();
        e.write_i64(1).unwrap();
        e.end_container().unwrap();
    });
    assert_eq!(buf, vec![0xfd, 0xd1, 0x61, 0x65, 0xfe]);
}

#[test]
fn test_nan_infinity_rejected() {
    let mut enc = Encoder::new(Vec::new());
    assert!(enc.write_f64_bits(f64::NAN.to_bits()).is_err());

    let mut enc = Encoder::new(Vec::new());
    assert!(enc.write_f64_bits(f64::INFINITY.to_bits()).is_err());

    let mut enc = Encoder::new(Vec::new());
    assert!(enc.write_f64_bits(f64::NEG_INFINITY.to_bits()).is_err());
}

#[test]
fn encode_floats_in_shortest_form() {
    // A whole float is written as an integer.
    assert_eq!(encoded(|e| e.write_f64_bits(2.0f64.to_bits()).unwrap()), vec![0x66]);
    // 1.5 is exactly a binary32 number.
    let mut expected = vec![0xcb];
    expected.extend_from_slice(&1.5f32.to_le_bytes());
    assert_eq!(encoded(|e| e.write_f64_bits(1.5f64.to_bits()).unwrap()), expected);
    // 0.1 needs binary64.
    let mut expected = vec![0xcc];
    expected.extend_from_slice(&0.1f64.to_le_bytes());
    assert_eq!(encoded(|e| e.write_f64_bits(0.1f64.to_bits()).unwrap()), expected);
    // Negative zero stays a float.
    let mut expected = vec![0xcb];
    expected.extend_from_slice(&(-0.0f32).to_le_bytes());
    assert_eq!(encoded(|e| e.write_f64_bits((-0.0f64).to_bits()).unwrap()), expected);
    // A binary32 subnormal.
    let tiny = f32::from_bits(1) as f64;
    let mut expected = vec![0xcb];
    expected.extend_from_slice(&1u32.to_le_bytes());
    assert_eq!(encoded(|e| e.write_f64_bits(tiny.to_bits()).unwrap()), expected);
    // 2^63 lies outside the i64 range: it stays a float, exactly (binary32 0x5f000000).
    assert_eq!(
        encoded(|e| e.write_f64_bits(9223372036854775808.0f64.to_bits()).unwrap()),
        vec![0xcb, 0x00, 0x00, 0x00, 0x5f]
    );
    // -2^63 is exactly i64::MIN.
    assert_eq!(
        encoded(|e| e.write_f64_bits((-9223372036854775808.0f64).to_bits()).unwrap()),
        encoded(|e| e.write_i64(i64::MIN).unwrap())
    );
}

#[test]
fn encode_errors() {
    let mut enc = Encoder::new(Vec::new());
    enc.begin_object().unwrap();
    assert_eq!(enc.write_null(), Err(Error::ExpectedObjectKey));
    assert_eq!(enc.write_f64_bits(1.5f64.to_bits()), Err(Error::ExpectedObjectKey));
    enc.write_str("k").unwrap();
    assert_eq!(enc.end_container(), Err(Error::ExpectedObjectValue));

    let mut enc = Encoder::new(Vec::new());
    assert_eq!(enc.end_container(), Err(Error::UnbalancedContainers));

    let mut enc = Encoder::new(Vec::new());
    enc.begin_array().unwrap();
    assert_eq!(enc.finish().err(), Some(Error::UnclosedContainer));
}

#[test]
fn encode_integers_at_width_edges() {
    assert_eq!(encoded(|e| e.write_i64(101).unwrap()), vec![0xe4, 101]);
    assert_eq!(encoded(|e| e.write_i64(200).unwrap()), vec![0xe0, 200]);
    assert_eq!(encoded(|e| e.write_i64(-101).unwrap()), vec![0xe4, 0x9b]);
    assert_eq!(encoded(|e| e.write_u64(u64::MAX).unwrap()), vec![0xe3, 0xff, 0xff, 0xff, 0xff, 0xff, 0xff, 0xff, 0xff]);
    assert_eq!(encoded(|e| e.write_u64(0x7fff).unwrap()), vec![0xe5, 0xff, 0x7f]);
    assert_eq!(encoded(|e| e.write_u64(0x8000).unwrap()), vec![0xe1, 0x00, 0x80]);
    assert_eq!(encoded(|e| e.write_i64(0x10000).unwrap()), vec![0xe6, 0x00, 0x00, 0x01, 0x00]);
}

#[test]
fn encode_big_numbers() {
    // 1.5 = 15e-1: exponent zigzag(-1)=1, length zigzag(1)=2, magnitude 15
    assert_eq!(encoded(|e| e.write_big_number(BigNumber::new(1, 15, -1)).unwrap()), vec![0xca, 0x01, 0x02, 0x0f]);
    // -256e2: exponent 4, length zigzag(-2)=3, magnitude 00 01
    assert_eq!(encoded(|e| e.write_big_number(BigNumber::new(-1, 256, 2)).unwrap()), vec![0xca, 0x04, 0x03, 0x00, 0x01]);
    // zero
    assert_eq!(encoded(|e| e.write_big_number(BigNumber::zero()).unwrap()), vec![0xca, 0x00, 0x00]);
}
