# serde_bonjson

BONJSON (Binary Object Notation for JSON) in Rust, with the format's logic
verified by Verus.

## Layout

- `src/` — the verified library.
  - `types.rs`, `types/type_code.rs`, `types/limits.rs`: type codes, zigzag
    and LEB128 coding, `BigNumber`.
  - `encoder.rs`: the `Encoder`, each write stated as the bytes it appends.
  - `decoder.rs`: the `Decoder`, each read stated over a spec of one decoding
    step (`spec_decode_at`).
  - `text.rs`: UTF-8 validation, byte search and NFC normalization, through
    `simdutf8`, `memchr` and `unicode-normalization`.
  - `floatbits.rs`: IEEE 754 bit-pattern helpers (floats are held as bits).
  - `value.rs`: the dynamic `Value`, objects as sorted key/value pairs.
  - `typed_array.rs`: which element kind a numeric array fits, and the packed
    bytes of its elements.
  - `records.rs`: the key lists of the objects in a value, and which of them
    repeat (the candidates for record definitions).
  - `document.rs`: whole documents, `encode_value` and `decode_value`, stated
    over `spec_encode` and `spec_decode_document`.
  - `roundtrip.rs`: the proof that decoding an encoded value gives back its
    canonical form.
  - `de.rs`: the entry point of the serde deserializer.
- `app/` — serde's `Serializer`/`Deserializer`, readers and writers, a `Value`
  with `f64` floats and `BTreeMap` objects, and the floating-point conversions.
- `tests/` — the tests.

## The type-code table

The type codes are those of the `type_code` module: small integers
0x00..=0xc8 for -100..=100, floats and big numbers at 0xca..=0xcc,
null/false/true at 0xcd..=0xcf, short strings 0xd0..=0xdf, integers
0xe0..=0xe7, arrays 0xfc, objects 0xfd, the end marker 0xfe and long strings
0xff; 0xc9 and 0xe8..=0xfb are reserved.

An older layout of the format put small integers 0..=100 at 0x00..=0x64,
short strings at 0x65..=0xa7, integers at 0xa8..=0xaf, null at 0xb3, arrays at
0xb7, objects at 0xb8, the end marker at 0xb6 and typed arrays at 0xf5..=0xfe.
A byte has one meaning, so documents in that layout do not decode here: the
array `[0xb7, 0x01, 0x02, 0x03, 0xb6]` of that layout reads here as the small
integer 83 followed by trailing bytes.

Neither layout assigns codes to the individual typed-array element kinds or
to record definitions and instances, so documents carry no typed arrays or
records. What the library computes for them does not depend on codes: which
element kind an array fits (`detect_typed_array`), the packed bytes of its
elements (`encode_typed_array_data`), reading one element of a given kind
(`Decoder::read_typed_array_element`), and which key lists repeat among a
value's objects (`collect_record_definitions`).
