use rcc::cbor::{from_slice, to_vec, Value};

fn hex(s: &str) -> Vec<u8> {
    assert_eq!(s.len() % 2, 0);
    (0..s.len()).step_by(2).map(|i| u8::from_str_radix(&s[i..i + 2], 16).unwrap()).collect()
}

fn decode_one(bytes: &[u8]) -> Value {
    let mut pos = 0;
    let v = from_slice(bytes, &mut pos).unwrap();
    assert_eq!(pos, bytes.len(), "leftover bytes after decoding");
    v
}

fn roundtrip(hex_bytes: &str, value: Value) {
    let bytes = hex(hex_bytes);
    assert_eq!(decode_one(&bytes), value, "decoding {hex_bytes}");
    assert_eq!(to_vec(&value), bytes, "encoding {value:?}");
}

#[test]
fn integers() {
    roundtrip("00", Value::from(0u8));
    roundtrip("01", Value::from(1u8));
    roundtrip("0a", Value::from(10u8));
    roundtrip("17", Value::from(23u8));
    roundtrip("1818", Value::from(24u8));
    roundtrip("1819", Value::from(25u8));
    roundtrip("1864", Value::from(100u8));
    roundtrip("1903e8", Value::from(1000u16));
    roundtrip("1a000f4240", Value::from(1_000_000u32));
    roundtrip("1b000000e8d4a51000", Value::from(1_000_000_000_000i64));
    roundtrip("1bffffffffffffffff", Value::Integer(i128::from(u64::MAX)));
    roundtrip("20", Value::from(-1i8));
    roundtrip("29", Value::from(-10i8));
    roundtrip("3863", Value::from(-100i8));
    roundtrip("3903e7", Value::from(-1000i16));
    roundtrip("3b7fffffffffffffff", Value::from(i64::MIN));
}

#[test]
fn integer_width_boundaries() {
    roundtrip("18ff", Value::from(255u8));
    roundtrip("190100", Value::from(256u16));
    roundtrip("19ffff", Value::from(65535u32));
    roundtrip("1a00010000", Value::from(65536u32));
    roundtrip("1affffffff", Value::from(u32::MAX));
    roundtrip("1b0000000100000000", Value::from(u64::from(u32::MAX) + 1));
}

#[test]
fn strings() {
    roundtrip("60", Value::Text(String::new()));
    roundtrip("6161", Value::Text("a".to_string()));
    roundtrip("6449455446", Value::Text("IETF".to_string()));
    roundtrip("62225c", Value::Text("\"\\".to_string()));
    roundtrip("40", Value::Bytes(vec![]));
    roundtrip("4401020304", Value::Bytes(vec![1, 2, 3, 4]));
}

#[test]
fn text_string_must_be_valid_utf8() {
    let mut pos = 0;
    let err = from_slice(&hex("61ff"), &mut pos).unwrap_err();
    assert!(err.to_string().contains("UTF-8"));
}

#[test]
fn arrays_and_maps() {
    roundtrip("80", Value::Array(vec![]));
    roundtrip("83010203", Value::Array(vec![Value::from(1u8), Value::from(2u8), Value::from(3u8)]));
    roundtrip(
        "8301820203820405",
        Value::Array(vec![
            Value::from(1u8),
            Value::Array(vec![Value::from(2u8), Value::from(3u8)]),
            Value::Array(vec![Value::from(4u8), Value::from(5u8)]),
        ]),
    );
    roundtrip("a0", Value::Entries(vec![]));
    roundtrip("a201020304", Value::Entries(vec![(Value::from(1u8), Value::from(2u8)), (Value::from(3u8), Value::from(4u8))]));
    roundtrip(
        "a26161016162820203",
        Value::Entries(vec![
            (Value::Text("a".to_string()), Value::from(1u8)),
            (Value::Text("b".to_string()), Value::Array(vec![Value::from(2u8), Value::from(3u8)])),
        ]),
    );
}

#[test]
fn tags() {
    roundtrip("c11a514b67b0", Value::Tag(1, Box::new(Value::from(1_363_896_240u32))));
    assert_eq!(decode_one(&hex("c074323031332d30332d32315432303a30343a30305a")), Value::Tag(0, Box::new(Value::Text("2013-03-21T20:04:00Z".to_string()))));
}

#[test]
fn simple_values() {
    roundtrip("f4", Value::Bool(false));
    roundtrip("f5", Value::Bool(true));
    roundtrip("f6", Value::Null);
    assert_eq!(decode_one(&hex("f7")), Value::Null);
}

#[test]
fn decoding_any_float_width_is_an_error() {
    for bad in ["f93c00", "fa47c35000", "fb3ff199999999999a"] {
        let mut pos = 0;
        let err = from_slice(&hex(bad), &mut pos).unwrap_err();
        assert!(err.to_string().contains("never sends"), "{bad}: {}", err.to_string());
    }
}

#[test]
fn indefinite_length_byte_string() {
    assert_eq!(decode_one(&hex("5f42010243030405ff")), Value::Bytes(vec![1, 2, 3, 4, 5]));
}

#[test]
fn indefinite_length_text_string() {
    assert_eq!(decode_one(&hex("7f657374726561646d696e67ff")), Value::Text("streaming".to_string()));
}

#[test]
fn indefinite_length_array() {
    assert_eq!(
        decode_one(&hex("9f010203ff")),
        Value::Array(vec![Value::from(1u8), Value::from(2u8), Value::from(3u8)])
    );
    assert_eq!(decode_one(&hex("9fff")), Value::Array(vec![]));
    assert_eq!(
        decode_one(&hex("83018202039f0405ff")),
        Value::Array(vec![
            Value::from(1u8),
            Value::Array(vec![Value::from(2u8), Value::from(3u8)]),
            Value::Array(vec![Value::from(4u8), Value::from(5u8)]),
        ])
    );
}

#[test]
fn indefinite_length_map() {
    assert_eq!(
        decode_one(&hex("bf61610161629f0203ffff")),
        Value::Entries(vec![
            (Value::Text("a".to_string()), Value::from(1u8)),
            (Value::Text("b".to_string()), Value::Array(vec![Value::from(2u8), Value::from(3u8)])),
        ])
    );
}

#[test]
fn indefinite_length_string_chunk_must_match_major_type() {
    let mut pos = 0;
    let err = from_slice(&hex("5f6161ff"), &mut pos).unwrap_err();
    assert!(err.to_string().contains("indefinite-length string"));
}

#[test]
fn empty_input_is_an_error() {
    let mut pos = 0;
    assert!(from_slice(&[], &mut pos).is_err());
}

#[test]
fn truncated_length_prefix_is_an_error() {
    let mut pos = 0;
    assert!(from_slice(&hex("19ff"), &mut pos).is_err());
}

#[test]
fn byte_string_length_past_end_of_input_is_an_error() {
    let mut pos = 0;
    assert!(from_slice(&hex("4401"), &mut pos).is_err());
}

#[test]
fn unterminated_indefinite_array_is_an_error() {
    let mut pos = 0;
    assert!(from_slice(&hex("9f0102"), &mut pos).is_err());
}

#[test]
fn reserved_additional_info_is_an_error() {
    let mut pos = 0;
    assert!(from_slice(&[0x1c], &mut pos).is_err());
}

#[test]
fn unsupported_one_byte_simple_value_is_an_error() {
    let mut pos = 0;
    assert!(from_slice(&hex("f818"), &mut pos).is_err());
}

#[test]
fn bare_break_byte_is_an_error() {
    let mut pos = 0;
    assert!(from_slice(&[0xff], &mut pos).is_err());
}

#[test]
fn decoding_a_sequence() {
    let bytes = hex("0102");
    let mut pos = 0;
    let mut items = Vec::new();
    while pos < bytes.len() {
        items.push(from_slice(&bytes, &mut pos).unwrap());
    }
    assert_eq!(items, vec![Value::from(1u8), Value::from(2u8)]);
}

#[test]
fn accessors() {
    assert_eq!(Value::Text("x".to_string()).as_text(), Some("x"));
    assert_eq!(Value::Integer(5).as_text(), None);
    assert_eq!(Value::Bytes(vec![1, 2]).as_bytes(), Some(&[1u8, 2u8][..]));
    assert_eq!(Value::Bool(true).as_bool(), Some(true));
    assert_eq!(Value::Array(vec![Value::from(1u8)]).as_array(), Some(&[Value::from(1u8)][..]));
    assert_eq!(
        Value::Entries(vec![(Value::from(1u8), Value::from(2u8))]).as_map(),
        Some(&[(Value::from(1u8), Value::from(2u8))][..])
    );
}
