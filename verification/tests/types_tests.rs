use serde_bonjson::type_code::{
    int_size, is_reserved, is_short_string, RESERVED_C9, SINT16, SINT32, SINT64, SINT8, STRING0,
    STRING15, UINT16, UINT32, UINT64, UINT8,
};
use serde_bonjson::types::{
    leb128_decode, leb128_encode, zigzag_decode, zigzag_encode, NATIVE_SIZE_BYTES, NATIVE_SIZE_INDEX,
};
use serde_bonjson::BigNumber;

#[test]
fn test_zigzag() {
    assert_eq!(zigzag_encode(0), 0);
    assert_eq!(zigzag_encode(-1), 1);
    assert_eq!(zigzag_encode(1), 2);
    assert_eq!(zigzag_encode(-2), 3);
    assert_eq!(zigzag_encode(2), 4);
    assert_eq!(zigzag_decode(0), 0);
    assert_eq!(zigzag_decode(1), -1);
    assert_eq!(zigzag_decode(2), 1);
    assert_eq!(zigzag_decode(3), -2);
    assert_eq!(zigzag_decode(4), 2);
}

#[test]
fn test_leb128() {
    let mut buf = [0u8; 10];
    assert_eq!(leb128_encode(0, &mut buf), 1);
    assert_eq!(buf[0], 0);
    assert_eq!(leb128_encode(127, &mut buf), 1);
    assert_eq!(buf[0], 127);
    assert_eq!(leb128_encode(128, &mut buf), 2);
    assert_eq!(buf[0..2], [0x80, 0x01]);

    assert_eq!(leb128_decode(&[0]), Some((0, 1)));
    assert_eq!(leb128_decode(&[127]), Some((127, 1)));
    assert_eq!(leb128_decode(&[0x80, 0x01]), Some((128, 2)));
}

#[test]
fn test_int_sizes() {
    assert_eq!(int_size(UINT8), 1);
    assert_eq!(int_size(UINT16), 2);
    assert_eq!(int_size(UINT32), 4);
    assert_eq!(int_size(UINT64), 8);
    assert_eq!(int_size(SINT8), 1);
    assert_eq!(int_size(SINT16), 2);
    assert_eq!(int_size(SINT32), 4);
    assert_eq!(int_size(SINT64), 8);
}

#[test]
fn test_native_size_lookup() {
    assert_eq!(NATIVE_SIZE_INDEX[0], 0); // 1 byte -> index 0
    assert_eq!(NATIVE_SIZE_INDEX[1], 1); // 2 bytes -> index 1
    assert_eq!(NATIVE_SIZE_INDEX[2], 2); // 3 bytes -> index 2 (round to 4)
    assert_eq!(NATIVE_SIZE_INDEX[3], 2); // 4 bytes -> index 2
    assert_eq!(NATIVE_SIZE_INDEX[4], 3); // 5 bytes -> index 3 (round to 8)
}

#[test]
fn test_short_string_range() {
    assert!(is_short_string(STRING0));
    assert!(is_short_string(STRING15));
    assert!(!is_short_string(0xcf)); // true
    assert!(!is_short_string(0xe0)); // uint8
}

#[test]
fn test_reserved() {
    assert!(is_reserved(RESERVED_C9));
    assert!(is_reserved(0xe8));
    assert!(is_reserved(0xfb));
    assert!(!is_reserved(0xe0)); // uint8
    assert!(!is_reserved(0xfc)); // array
}

#[test]
fn native_size_bytes_table() {
    assert_eq!(NATIVE_SIZE_BYTES, [1, 2, 4, 4, 8, 8, 8, 8]);
}

#[test]
fn leb128_roundtrip_and_limits() {
    for v in [0u64, 1, 127, 128, 300, 16384, u32::MAX as u64, u64::MAX] {
        let mut buf = [0u8; 10];
        let n = leb128_encode(v, &mut buf);
        assert_eq!(leb128_decode(&buf[..n]), Some((v, n)));
    }
    // truncated
    assert_eq!(leb128_decode(&[0x80]), None);
    assert_eq!(leb128_decode(&[]), None);
    // an eleventh byte is refused
    assert_eq!(leb128_decode(&[0x80; 11]), None);
}

#[test]
fn zigzag_roundtrip() {
    for v in [0i64, 1, -1, 63, -64, i64::MAX, i64::MIN] {
        assert_eq!(zigzag_decode(zigzag_encode(v)), v);
    }
    assert_eq!(zigzag_encode(i64::MIN), u64::MAX);
}

#[test]
fn big_number_conversions() {
    let bn = BigNumber::from_i64(-1000);
    assert_eq!(bn.sign, -1);
    assert_eq!(bn.significand, 1000);
    assert_eq!(bn.exponent, 0);
    assert_eq!(bn.to_i64(), Some(-1000));
    assert_eq!(BigNumber::new(1, 15, 2).to_i64(), Some(1500));
    assert_eq!(BigNumber::new(1, 15, -1).to_i64(), None);
    assert_eq!(BigNumber::new(1, 1, 19).to_i64(), None);
    assert_eq!(BigNumber::new(1, 1, 19).to_u64(), Some(10_000_000_000_000_000_000));
    assert_eq!(BigNumber::new(-1, 5, 0).to_u64(), None);
    assert_eq!(BigNumber::from_u64(u64::MAX).to_u64(), Some(u64::MAX));
    assert!(BigNumber::zero().is_zero());
    assert!(BigNumber::new(-1, 3, 0).is_negative());
    assert_eq!(BigNumber::new(-1, u64::MAX, 0).signed_significand(), -(u64::MAX as i128));
    assert_eq!(BigNumber::default(), BigNumber::zero());
}

#[test]
fn big_number_to_i64_is_exact() {
    // A significand past i64::MAX does not wrap.
    assert_eq!(BigNumber::new(1, u64::MAX, 0).to_i64(), None);
    assert_eq!(BigNumber::new(1, 1 << 63, 0).to_i64(), None);
    assert_eq!(BigNumber::new(-1, 1 << 63, 0).to_i64(), Some(i64::MIN));
    assert_eq!(BigNumber::new(-1, 92233720368547758, 2).to_i64(), Some(-9223372036854775800));
    assert_eq!(BigNumber::new(1, 92233720368547759, 2).to_i64(), None);
    for v in [0i64, 1, -1, 42, -1000, i64::MAX, i64::MIN] {
        assert_eq!(BigNumber::from_i64(v).to_i64(), Some(v));
    }
    for v in [0u64, 1, 255, u64::MAX] {
        assert_eq!(BigNumber::from_u64(v).to_u64(), Some(v));
    }
}

#[test]
fn leb128_overflow_is_refused() {
    // Ten bytes whose value is 2^70 - 1: past u64.
    let mut data = vec![0xff; 9];
    data.push(0x7f);
    assert_eq!(leb128_decode(&data), None);
    // The tenth byte may carry one bit only.
    let mut data = vec![0xff; 9];
    data.push(0x01);
    assert_eq!(leb128_decode(&data), Some((u64::MAX, 10)));
    let mut data = vec![0x80; 9];
    data.push(0x01);
    assert_eq!(leb128_decode(&data), Some((1u64 << 63, 10)));
    let mut data = vec![0x80; 9];
    data.push(0x02);
    assert_eq!(leb128_decode(&data), None);
}

#[test]
fn test_big_number() {
    let bn = BigNumber::from_i64(-1000);
    assert_eq!(bn.sign, -1);
    assert_eq!(bn.significand, 1000);
    assert_eq!(bn.exponent, 0);
    assert_eq!(bn.to_i64(), Some(-1000));
}

#[test]
fn big_number_exact_integers() {
    // Every exactly representable whole value converts, whatever the exponent.
    assert_eq!(BigNumber::new(1, 150, -1).to_i64(), Some(15));
    assert_eq!(BigNumber::new(-1, 1000, -3).to_i64(), Some(-1));
    assert_eq!(BigNumber::new(1, 0, 19).to_i64(), Some(0));
    assert_eq!(BigNumber::new(1, 0, -30).to_i64(), Some(0));
    assert_eq!(BigNumber::new(1, 5, -30).to_i64(), None);
    assert_eq!(BigNumber::new(1, 1, 20).to_i64(), None);
    assert_eq!(BigNumber::new(1, 150, -1).to_u64(), Some(15));
    assert_eq!(BigNumber::new(-1, 0, 25).to_u64(), Some(0));
    assert_eq!(BigNumber::new(1, 1, 19).to_u64(), Some(10_000_000_000_000_000_000));
    assert_eq!(BigNumber::new(1, 1, 20).to_u64(), None);
    assert_eq!(BigNumber::new(1, 18446744073709551615, -1).to_u64(), None);
    assert_eq!(BigNumber::new(1, 18446744073709551610, -1).to_u64(), Some(1844674407370955161));
    assert_eq!(BigNumber::new(-1, 10, -1).to_u64(), None);
}
