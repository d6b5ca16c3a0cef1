use serde_bonjson::typed_array::{detect_typed_array, encode_typed_array_data};
use serde_bonjson::{Decoder, DecodedValue, ElementKind, Value};

fn ints(items: &[i64]) -> Vec<Value> {
    items.iter().map(|&n| Value::Int(n)).collect()
}

#[test]
fn detect_kinds() {
    assert_eq!(detect_typed_array(&[]), None);
    assert_eq!(detect_typed_array(&ints(&[1, -2, 127])), Some(ElementKind::I8));
    assert_eq!(detect_typed_array(&ints(&[1, -129])), Some(ElementKind::I16));
    assert_eq!(detect_typed_array(&ints(&[40000])), Some(ElementKind::I32));
    assert_eq!(detect_typed_array(&ints(&[1 << 40])), Some(ElementKind::I64));
    assert_eq!(
        detect_typed_array(&[Value::UInt(200), Value::Int(3)]),
        Some(ElementKind::U8)
    );
    assert_eq!(detect_typed_array(&[Value::UInt(300)]), Some(ElementKind::U16));
    assert_eq!(detect_typed_array(&[Value::UInt(70000)]), Some(ElementKind::U32));
    assert_eq!(detect_typed_array(&[Value::UInt(u64::MAX)]), Some(ElementKind::U64));
    assert_eq!(detect_typed_array(&[Value::UInt(1), Value::Int(-1)]), None);
    assert_eq!(
        detect_typed_array(&[Value::Float(1.5f64.to_bits()), Value::Float(2.0f64.to_bits())]),
        Some(ElementKind::F32)
    );
    assert_eq!(detect_typed_array(&[Value::Float(0.1f64.to_bits())]), Some(ElementKind::F64));
    assert_eq!(detect_typed_array(&[Value::Float(f64::NAN.to_bits())]), None);
    assert_eq!(detect_typed_array(&[Value::Float(1.0f64.to_bits()), Value::Int(1)]), None);
    assert_eq!(detect_typed_array(&[Value::Int(1), Value::Null]), None);
    assert_eq!(ElementKind::I16.element_size(), 2);
    assert_eq!(ElementKind::F64.element_size(), 8);
}

#[test]
fn encode_payloads() {
    assert_eq!(encode_typed_array_data(&ints(&[1, -2]), ElementKind::I8), vec![0x01, 0xfe]);
    assert_eq!(encode_typed_array_data(&ints(&[-129]), ElementKind::I16), vec![0x7f, 0xff]);
    assert_eq!(
        encode_typed_array_data(&[Value::UInt(300)], ElementKind::U16),
        vec![0x2c, 0x01]
    );
    assert_eq!(
        encode_typed_array_data(&[Value::Float(1.5f64.to_bits())], ElementKind::F32),
        1.5f32.to_le_bytes().to_vec()
    );
    assert_eq!(
        encode_typed_array_data(&[Value::Float(0.1f64.to_bits())], ElementKind::F64),
        0.1f64.to_le_bytes().to_vec()
    );
}

#[test]
fn read_elements() {
    let data = [0xfe, 0x2c, 0x01, 0x00, 0x00, 0xc0, 0x3f];
    let mut d = Decoder::new(&data);
    assert_eq!(d.read_typed_array_element(ElementKind::I8).unwrap(), DecodedValue::Int(-2));
    assert_eq!(d.read_typed_array_element(ElementKind::U16).unwrap(), DecodedValue::UInt(300));
    assert_eq!(
        d.read_typed_array_element(ElementKind::F32).unwrap(),
        DecodedValue::Float(1.5f64.to_bits())
    );
    assert_eq!(d.position(), data.len());
    assert_eq!(
        d.read_typed_array_element(ElementKind::U8),
        Err(serde_bonjson::Error::Truncated)
    );
}

#[test]
fn packed_elements_read_back() {
    let arrays: Vec<Vec<Value>> = vec![
        ints(&[1, -2, 127, -128]),
        ints(&[300, -40000, 1 << 40]),
        vec![Value::UInt(7), Value::Int(250)],
        vec![Value::UInt(u64::MAX), Value::UInt(0)],
        vec![Value::Float(0.25f64.to_bits()), Value::Float((-3.0f64).to_bits())],
        vec![Value::Float(0.1f64.to_bits())],
    ];
    for arr in arrays {
        let kind = detect_typed_array(&arr).unwrap();
        let data = encode_typed_array_data(&arr, kind);
        assert_eq!(data.len(), arr.len() * kind.element_size());
        let mut d = Decoder::new(&data);
        for v in &arr {
            let expected = match (v, kind) {
                (Value::Int(n), ElementKind::U8 | ElementKind::U16 | ElementKind::U32 | ElementKind::U64) => {
                    DecodedValue::UInt(*n as u64)
                }
                (Value::Int(n), _) => DecodedValue::Int(*n),
                (Value::UInt(n), _) => DecodedValue::UInt(*n),
                (Value::Float(b), _) => DecodedValue::Float(*b),
                _ => unreachable!(),
            };
            assert_eq!(d.read_typed_array_element(kind).unwrap(), expected);
        }
        assert_eq!(d.position(), data.len());
    }
}
