use rcc::cbor::Value as Cbor;
use rcc::json::{insert, position, Json};
use rcc::yang::codec::{
    base64_decode, base64_encode, decode_bits, decode_decimal64, decode_node_value, encode_bits,
    encode_decimal64, encode_node_value, json_seq_to_cbor, ContentFormat, DecimalText,
};
use rcc::yang::scalars::cbor_as_i128;
use rcc::yang::schema::{build, Bit, Builtin, NodeId, Schema, TypeDef};

#[test]
fn base64_round_trips() {
    for data in [&b""[..], b"f", b"fo", b"foo", b"foob", b"fooba", b"foobar", b"\x00\xff\x10"] {
        let enc = base64_encode(data);
        assert_eq!(base64_decode(&enc).unwrap(), data);
    }
}

fn empty_schema() -> Schema {
    build(&[], &[]).expect("empty schema builds")
}

#[test]
fn rejects_a_non_map_array_entry() {
    let schema = empty_schema();
    let err = json_seq_to_cbor(&schema, &[Json::Array(vec![Json::String("/some/path".into())])], ContentFormat::Ipatch, false).unwrap_err();
    assert!(err.0.contains("IPATCH"), "{}", err.0);
    assert!(err.0.contains("got array"), "{}", err.0);
}

#[test]
fn rejects_a_scalar_entry() {
    let schema = empty_schema();
    let err = json_seq_to_cbor(&schema, &[Json::String("/some/path".into())], ContentFormat::Post, false).unwrap_err();
    assert!(err.0.contains("POST"), "{}", err.0);
    assert!(err.0.contains("got String"), "{}", err.0);
}

#[test]
fn rejects_a_null_entry() {
    let schema = empty_schema();
    let err = json_seq_to_cbor(&schema, &[Json::Null], ContentFormat::Ipatch, false).unwrap_err();
    assert!(err.0.contains("got null"), "{}", err.0);
}

#[test]
fn rejects_an_entry_with_two_keys_listing_them() {
    let schema = empty_schema();
    let mut map = Vec::new();
    insert(&mut map, "/a".to_string(), Json::Integer(1));
    insert(&mut map, "/b".to_string(), Json::Integer(2));
    let err = json_seq_to_cbor(&schema, &[Json::Object(map)], ContentFormat::Ipatch, false).unwrap_err();
    assert!(err.0.contains("exactly one key/value pair"), "{}", err.0);
    assert!(err.0.contains("got 2"), "{}", err.0);
    assert!(err.0.contains("/a") && err.0.contains("/b"), "{}", err.0);
}

#[test]
fn rejects_an_empty_map() {
    let schema = empty_schema();
    let err = json_seq_to_cbor(&schema, &[Json::Object(Vec::new())], ContentFormat::Fetch, false).unwrap_err();
    assert!(err.0.contains("got 0"), "{}", err.0);
}

fn alarm_state_type() -> TypeDef {
    let mut ty = TypeDef::new(Builtin::Bits);
    ty.bits = vec![
        Bit { name: "unknown".into(), position: 0 },
        Bit { name: "under-repair".into(), position: 1 },
        Bit { name: "critical".into(), position: 2 },
        Bit { name: "major".into(), position: 3 },
        Bit { name: "minor".into(), position: 4 },
        Bit { name: "warning".into(), position: 8 },
        Bit { name: "indeterminate".into(), position: 128 },
    ];
    ty
}

#[test]
fn bits_sparse_encoding_matches_ruby_spec_exact_bytes() {
    let ty = alarm_state_type();
    assert_eq!(
        encode_bits(&ty, &Json::String("warning critical indeterminate".into()), false).unwrap(),
        Cbor::Array(vec![Cbor::Bytes(vec![0x04, 0x01]), Cbor::from(14), Cbor::Bytes(vec![0x01])])
    );
    assert_eq!(encode_bits(&ty, &Json::String("indeterminate".into()), false).unwrap(), Cbor::Array(vec![Cbor::from(16), Cbor::Bytes(vec![0x01])]));
    assert_eq!(encode_bits(&ty, &Json::String("".into()), false).unwrap(), Cbor::Array(vec![]));
}

#[test]
fn bits_dense_encoding_is_a_plain_bytestring() {
    let ty = alarm_state_type();
    assert_eq!(encode_bits(&ty, &Json::String("critical under-repair".into()), false).unwrap(), Cbor::Bytes(vec![0x06]));
}

#[test]
fn bits_decode_is_the_exact_inverse() {
    let ty = alarm_state_type();
    assert_eq!(decode_bits(&ty, &Cbor::Array(vec![Cbor::Bytes(vec![0x04, 0x01]), Cbor::from(14), Cbor::Bytes(vec![0x01])]), false).unwrap(), Json::String("critical warning indeterminate".into()));
    assert_eq!(decode_bits(&ty, &Cbor::Bytes(vec![0x06]), false).unwrap(), Json::String("under-repair critical".into()));
    assert_eq!(decode_bits(&ty, &Cbor::Array(vec![]), false).unwrap(), Json::String("".into()));
}

#[test]
fn decimal64_exponent_is_always_fraction_digits() {
    let mut ty = TypeDef::new(Builtin::Decimal64);
    ty.fraction_digits = Some(2);
    assert_eq!(encode_decimal64(&ty, &Json::String("2.57".into()), false).unwrap(), Cbor::Tag(4, Box::new(Cbor::Array(vec![Cbor::from(-2), Cbor::from(257)]))));
    assert_eq!(encode_decimal64(&ty, &Json::String("25.7".into()), false).unwrap(), Cbor::Tag(4, Box::new(Cbor::Array(vec![Cbor::from(-2), Cbor::from(2570)]))));
    assert_eq!(encode_decimal64(&ty, &Json::String("257".into()), false).unwrap(), Cbor::Tag(4, Box::new(Cbor::Array(vec![Cbor::from(-2), Cbor::from(25700)]))));
}

#[test]
fn decimal64_decode_always_shows_a_decimal_point() {
    let shown = vec![
        DecimalText { exponent: -2, mantissa: 257, text: "2.57".to_string() },
        DecimalText { exponent: -2, mantissa: 25700, text: "257.0".to_string() },
        DecimalText { exponent: -2, mantissa: 0, text: "0.0".to_string() },
    ];
    assert_eq!(decode_decimal64(&Cbor::Tag(4, Box::new(Cbor::Array(vec![Cbor::from(-2), Cbor::from(257)]))), &shown).unwrap(), Json::String("2.57".into()));
    assert_eq!(decode_decimal64(&Cbor::Tag(4, Box::new(Cbor::Array(vec![Cbor::from(-2), Cbor::from(25700)]))), &shown).unwrap(), Json::String("257.0".into()));
    assert_eq!(decode_decimal64(&Cbor::Tag(4, Box::new(Cbor::Array(vec![Cbor::from(-2), Cbor::from(0)]))), &shown).unwrap(), Json::String("0.0".into()));
}

fn validation_test_schema() -> Schema {
        let yang = r#"
            module test {
                namespace "urn:test";
                prefix t;

                container box {
                    leaf level {
                        type uint8 {
                            range "0..10";
                        }
                        mandatory true;
                    }
                    leaf mode {
                        type string {
                            length "1..4";
                            pattern "[a-z]+";
                        }
                    }
                    leaf armed {
                        type empty;
                    }
                    leaf-list tag {
                        type string;
                    }
                    leaf setting {
                        type union {
                            type boolean;
                            type uint8 {
                                range "0..10";
                            }
                        }
                    }
                    list item {
                        key "id";
                        leaf id {
                            type uint8;
                        }
                        leaf name {
                            type string;
                        }
                    }
                }
            }
    "#;
        let sid = r#"{
            "module-name": "test",
            "module-revision": "2026-01-01",
            "items": [
                {"namespace": "module", "identifier": "test", "sid": 1000},
                {"namespace": "data", "identifier": "/test:box", "sid": 1001},
                {"namespace": "data", "identifier": "/test:box/level", "sid": 1002},
                {"namespace": "data", "identifier": "/test:box/mode", "sid": 1003},
                {"namespace": "data", "identifier": "/test:box/armed", "sid": 1004},
                {"namespace": "data", "identifier": "/test:box/item", "sid": 1005},
                {"namespace": "data", "identifier": "/test:box/item/id", "sid": 1006},
                {"namespace": "data", "identifier": "/test:box/item/name", "sid": 1007},
                {"namespace": "data", "identifier": "/test:box/tag", "sid": 1008},
                {"namespace": "data", "identifier": "/test:box/setting", "sid": 1009}
            ]
    }"#;
    build(&[yang.to_string()], &[sid.to_string()]).expect("validation test schema builds")
}

fn box_node(schema: &Schema) -> NodeId {
    schema.find_child(schema.root, "test:box").expect("test:box exists")
}

fn box_obj() -> Vec<(String, Json)> {
    let mut m = Vec::new();
    insert(&mut m, "level".to_string(), Json::Integer(5));
    m
}

#[test]
fn range_violation_hard_fails_without_continue_and_degrades_with_it() {
    let schema = validation_test_schema();
    let box_id = box_node(&schema);
    let mut obj = box_obj();
    insert(&mut obj, "level".to_string(), Json::Integer(300));

    let e = encode_node_value(&schema, box_id, &Json::Object(obj.clone()), ContentFormat::Put, false).unwrap_err();
    assert!(e.0.contains("300"), "{}", e.0);
    assert!(e.0.contains("between 0 and 10"), "{}", e.0);

    assert!(encode_node_value(&schema, box_id, &Json::Object(obj), ContentFormat::Put, true).is_ok());
}

#[test]
fn pattern_violation_hard_fails_without_continue_and_degrades_with_it() {
    let schema = validation_test_schema();
    let box_id = box_node(&schema);
    let mut obj = box_obj();
    insert(&mut obj, "mode".to_string(), Json::String("ABC".into()));

    let e = encode_node_value(&schema, box_id, &Json::Object(obj.clone()), ContentFormat::Put, false).unwrap_err();
    assert!(e.0.contains("ABC"), "{}", e.0);
    assert!(e.0.contains("[a-z]+"), "{}", e.0);

    assert!(encode_node_value(&schema, box_id, &Json::Object(obj), ContentFormat::Put, true).is_ok());
}

#[test]
fn length_violation_is_rejected_with_the_actual_bound_shown() {
    let schema = validation_test_schema();
    let box_id = box_node(&schema);
    let mut obj = box_obj();
    insert(&mut obj, "mode".to_string(), Json::String("toolong".into()));

    let e = encode_node_value(&schema, box_id, &Json::Object(obj), ContentFormat::Put, false).unwrap_err();
    assert!(e.0.contains("7 character"), "{}", e.0);
    assert!(e.0.contains("between 1 and 4"), "{}", e.0);
}

#[test]
fn unknown_field_hard_fails_without_continue_and_is_skipped_with_it() {
    let schema = validation_test_schema();
    let box_id = box_node(&schema);
    let mut obj = box_obj();
    insert(&mut obj, "nope".to_string(), Json::Integer(1));

    let e = encode_node_value(&schema, box_id, &Json::Object(obj.clone()), ContentFormat::Put, false).unwrap_err();
    assert!(e.0.contains("\"nope\""), "{}", e.0);
    assert!(e.0.contains("not a valid field"), "{}", e.0);

    let cbor = encode_node_value(&schema, box_id, &Json::Object(obj), ContentFormat::Put, true).unwrap();
    let decoded = decode_node_value(&schema, box_id, &cbor, ContentFormat::Put, &[]).unwrap();
    let decoded_obj = decoded.as_object().unwrap();
    assert!(!position(decoded_obj, "nope").is_some(), "unknown field should have been dropped, got {decoded:?}");
    assert!(position(decoded_obj, "level").is_some());
}

#[test]
fn missing_mandatory_field_hard_fails_without_continue_and_is_absent_with_it() {
    let schema = validation_test_schema();
    let box_id = box_node(&schema);
    let obj = Vec::new();

    let e = encode_node_value(&schema, box_id, &Json::Object(obj.clone()), ContentFormat::Put, false).unwrap_err();
    assert!(e.0.contains("\"level\""), "{}", e.0);
    assert!(e.0.contains("required"), "{}", e.0);

    let cbor = encode_node_value(&schema, box_id, &Json::Object(obj), ContentFormat::Put, true).unwrap();
    let decoded = decode_node_value(&schema, box_id, &cbor, ContentFormat::Put, &[]).unwrap();
    assert_eq!(decoded, Json::Object(Vec::new()), "the missing field should simply stay absent, not appear as null or a default");
}

#[test]
fn missing_list_key_hard_fails_without_continue_and_is_absent_with_it() {
    let schema = validation_test_schema();
    let box_id = box_node(&schema);
    let mut item = Vec::new();
    insert(&mut item, "name".to_string(), Json::String("x".into()));
    let mut obj = box_obj();
    insert(&mut obj, "item".to_string(), Json::Array(vec![Json::Object(item)]));

    let e = encode_node_value(&schema, box_id, &Json::Object(obj.clone()), ContentFormat::Put, false).unwrap_err();
    assert!(e.0.contains("\"id\""), "{}", e.0);
    assert!(e.0.contains("key of this list"), "{}", e.0);

    assert!(encode_node_value(&schema, box_id, &Json::Object(obj), ContentFormat::Put, true).is_ok());
}

#[test]
fn malformed_leaf_value_hard_fails_without_continue_and_passes_through_raw_with_it() {
    let schema = validation_test_schema();
    let box_id = box_node(&schema);
    let mut obj = box_obj();
    insert(&mut obj, "level".to_string(), Json::String("not-a-number".into()));

    let e = encode_node_value(&schema, box_id, &Json::Object(obj.clone()), ContentFormat::Put, false).unwrap_err();
    assert!(e.0.contains("expected a whole number"), "{}", e.0);

    let cbor = encode_node_value(&schema, box_id, &Json::Object(obj), ContentFormat::Put, true).unwrap();
    let map = cbor.as_map().expect("still a CBOR map");
    let (_, level_cbor) = map.iter().find(|(k, _)| cbor_as_i128(k) == Some(1)).expect("level's entry is present");
    assert_eq!(level_cbor, &Cbor::Text("not-a-number".to_string()));
}

#[test]
fn empty_typed_leaf_requires_the_null_array_shape() {
    let schema = validation_test_schema();
    let box_id = box_node(&schema);
    let mut obj = box_obj();
    insert(&mut obj, "armed".to_string(), Json::Bool(true));

    let e = encode_node_value(&schema, box_id, &Json::Object(obj.clone()), ContentFormat::Put, false).unwrap_err();
    assert!(e.0.contains("[null]"), "{}", e.0);

    insert(&mut obj, "armed".to_string(), Json::Array(vec![Json::Null]));
    assert!(encode_node_value(&schema, box_id, &Json::Object(obj), ContentFormat::Put, false).is_ok());
}

#[test]
fn container_shape_mismatch_hard_fails_without_continue_and_is_empty_with_it() {
    let schema = validation_test_schema();
    let box_id = box_node(&schema);

    let e = encode_node_value(&schema, box_id, &Json::Integer(5), ContentFormat::Put, false).unwrap_err();
    assert!(e.0.contains("needs an object"), "{}", e.0);

    assert_eq!(encode_node_value(&schema, box_id, &Json::Integer(5), ContentFormat::Put, true).unwrap(), Cbor::Entries(vec![]));
}

#[test]
fn list_shape_mismatch_hard_fails_without_continue_and_is_empty_with_it() {
    let schema = validation_test_schema();
    let box_id = box_node(&schema);
    let item_id = schema.find_child(box_id, "item").expect("test:box/item exists");

    let e = encode_node_value(&schema, item_id, &Json::Integer(5), ContentFormat::Put, false).unwrap_err();
    assert!(e.0.contains("needs a list"), "{}", e.0);

    assert_eq!(encode_node_value(&schema, item_id, &Json::Integer(5), ContentFormat::Put, true).unwrap(), Cbor::Array(vec![]));
}

#[test]
fn leaf_list_shape_mismatch_is_always_a_hard_error_regardless_of_continue() {
    let schema = validation_test_schema();
    let box_id = box_node(&schema);
    let tag_id = schema.find_child(box_id, "tag").expect("test:box/tag exists");

    assert!(encode_node_value(&schema, tag_id, &Json::Integer(5), ContentFormat::Put, false).is_err());
    assert!(encode_node_value(&schema, tag_id, &Json::Integer(5), ContentFormat::Put, true).is_err());
}

#[test]
fn union_mismatch_names_the_value_and_the_allowed_types_not_an_internal_id() {
    let schema = validation_test_schema();
    let box_id = box_node(&schema);
    let mut obj = box_obj();
    insert(&mut obj, "setting".to_string(), Json::String("nope".into()));

    let e = encode_node_value(&schema, box_id, &Json::Object(obj.clone()), ContentFormat::Put, false).unwrap_err();
    assert!(e.0.contains("\"nope\""), "{}", e.0);
    assert!(e.0.contains("boolean"), "{}", e.0);
    assert!(e.0.contains("uint8"), "{}", e.0);
    assert!(!e.0.contains("type 0") && !e.0.contains("type 1"), "should not mention an internal type id: {}", e.0);

    insert(&mut obj, "setting".to_string(), Json::Integer(300));
    let e2 = encode_node_value(&schema, box_id, &Json::Object(obj.clone()), ContentFormat::Put, false).unwrap_err();
    assert!(e2.0.contains("between 0 and 10"), "{}", e2.0);
    assert!(encode_node_value(&schema, box_id, &Json::Object(obj), ContentFormat::Put, true).is_ok());
}

#[test]
fn a_list_entry_that_is_no_object_makes_an_empty_list_with_continue() {
    let schema = validation_test_schema();
    let box_id = box_node(&schema);
    let item_id = schema.find_child(box_id, "item").expect("test:box/item exists");
    let value = Json::Array(vec![Json::Integer(5)]);

    let e = encode_node_value(&schema, item_id, &value, ContentFormat::Put, false).unwrap_err();
    assert!(e.0.contains("each entry in \"item\" needs to be an object"), "{}", e.0);
    assert_eq!(
        encode_node_value(&schema, item_id, &value, ContentFormat::Put, true).unwrap(),
        Cbor::Array(vec![])
    );
}
