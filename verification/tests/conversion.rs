use rcc::cbor::{to_vec, Value as Cbor};
use rcc::command::convert::{
    content_format_of, convert, plan_conversion, plan_description, ConvInput, ConvOutput,
};
use rcc::command::formats::{is_nonempty, parse, Format};
use rcc::json::{to_text, Json};
use rcc::yang::codec::{
    cbor_seq_from_bytes, cbor_seq_to_json, cbor_to_json, decode_iid, json_seq_to_cbor,
    json_to_cbor, list_decimals, normalize_cbor_seq, resolve_iid, type_to_cbor, type_to_json,
    ContentFormat, DecimalText,
};
use rcc::yang::schema::{build, Schema};

const MODEL: &str = r#"
module m {
  namespace "urn:m";
  prefix m;
  identity animal;
  identity dog { base animal; }
  container top {
    leaf small { type int8; }
    leaf big { type uint64; }
    leaf signed { type int64; }
    leaf on { type boolean; }
    leaf name { type string; }
    leaf raw { type binary { length "1..4"; } }
    leaf mark { type empty; }
    leaf price { type decimal64 { fraction-digits 2; } }
    leaf color { type enumeration { enum red; enum blue { value 7; } } }
    leaf flags { type bits { bit a { position 0; } bit b { position 9; } bit c; } }
    leaf pet { type identityref { base animal; } }
    leaf where { type instance-identifier; }
    leaf same { type leafref { path "../small"; } }
    leaf either {
      type union {
        type uint16;
        type enumeration { enum auto; }
        type bits { bit x; bit y; }
        type identityref { base animal; }
        type decimal64 { fraction-digits 1; }
        type string { pattern "s.*"; }
      }
    }
    leaf-list tags { type string; }
    list row {
      key "id kind";
      leaf id { type uint8; }
      leaf kind { type string; }
      leaf value { type string; }
    }
    action turn {
      input { leaf speed { type uint8; } }
      output { leaf done { type boolean; } }
    }
  }
}"#;

const SIDS: &str = r#"{"module-name": "m", "items": [
  {"namespace": "identity", "identifier": "animal", "sid": 5001},
  {"namespace": "identity", "identifier": "dog", "sid": 5002},
  {"namespace": "data", "identifier": "/m:top", "sid": 5010},
  {"namespace": "data", "identifier": "/m:top/small", "sid": 5011},
  {"namespace": "data", "identifier": "/m:top/big", "sid": 5012},
  {"namespace": "data", "identifier": "/m:top/signed", "sid": 5013},
  {"namespace": "data", "identifier": "/m:top/on", "sid": 5014},
  {"namespace": "data", "identifier": "/m:top/name", "sid": 5015},
  {"namespace": "data", "identifier": "/m:top/raw", "sid": 5016},
  {"namespace": "data", "identifier": "/m:top/mark", "sid": 5017},
  {"namespace": "data", "identifier": "/m:top/price", "sid": 5018},
  {"namespace": "data", "identifier": "/m:top/color", "sid": 5019},
  {"namespace": "data", "identifier": "/m:top/flags", "sid": 5020},
  {"namespace": "data", "identifier": "/m:top/pet", "sid": 5021},
  {"namespace": "data", "identifier": "/m:top/where", "sid": 5022},
  {"namespace": "data", "identifier": "/m:top/same", "sid": 5023},
  {"namespace": "data", "identifier": "/m:top/either", "sid": 5024},
  {"namespace": "data", "identifier": "/m:top/tags", "sid": 5025},
  {"namespace": "data", "identifier": "/m:top/row", "sid": 5026},
  {"namespace": "data", "identifier": "/m:top/row/id", "sid": 5027},
  {"namespace": "data", "identifier": "/m:top/row/kind", "sid": 5028},
  {"namespace": "data", "identifier": "/m:top/row/value", "sid": 5029},
  {"namespace": "data", "identifier": "/m:top/turn", "sid": 5030},
  {"namespace": "data", "identifier": "/m:top/turn/input/speed", "sid": 5031},
  {"namespace": "data", "identifier": "/m:top/turn/output/done", "sid": 5032}
]}"#;

fn schema() -> Schema {
    match build(&[MODEL.to_string()], &[SIDS.to_string()]) {
        Ok(s) => s,
        Err(e) => panic!("{}", e.0),
    }
}

fn json(text: &str) -> Json {
    parse(text, Format::Json).unwrap()
}

fn hundredths(mantissa: i128, text: &str) -> DecimalText {
    DecimalText { exponent: -2, mantissa, text: text.to_string() }
}

/// Encodes one leaf below the top.
fn leaf(name: &str, value: &str) -> Result<Cbor, String> {
    let s = schema();
    let top = s.find_child(s.root, "m:top").unwrap();
    let n = s.find_child(top, name).unwrap();
    let t = s.node(n).type_id.unwrap();
    type_to_cbor(&s, t, &json(value), false, false).map_err(|e| e.0)
}

/// Encodes one leaf and decodes it again.
fn there_and_back(name: &str, value: &str) -> String {
    let s = schema();
    let top = s.find_child(s.root, "m:top").unwrap();
    let n = s.find_child(top, name).unwrap();
    let t = s.node(n).type_id.unwrap();
    let c = type_to_cbor(&s, t, &json(value), false, false).unwrap();
    let d = [hundredths(1250, "12.5"), DecimalText { exponent: -1, mantissa: 15, text: "1.5".to_string() }];
    to_text(&type_to_json(&s, t, &c, false, &d).unwrap())
}

#[test]
fn scalars_come_back() {
    for (name, value) in [
        ("small", "-5"),
        ("big", "\"18446744073709551615\""),
        ("signed", "\"-9223372036854775808\""),
        ("on", "true"),
        ("name", "\"some text\""),
        ("raw", "\"AQID\""),
        ("mark", "[null]"),
        ("price", "\"12.5\""),
        ("color", "\"blue\""),
        ("flags", "\"a b c\""),
        ("pet", "\"m:dog\""),
        ("where", "\"/m:top/row[id='3'][kind='x']/value\""),
        ("same", "7"),
        ("either", "300"),
        ("either", "\"auto\""),
        ("either", "\"x y\""),
        ("either", "\"m:dog\""),
        ("either", "\"1.5\""),
        ("either", "\"some\""),
    ] {
        assert_eq!(there_and_back(name, value), value, "{name}");
    }
}

#[test]
fn other_ways_to_write_a_value_mean_the_same() {
    assert_eq!(there_and_back("big", "\"+007\""), "\"7\"");
    assert_eq!(there_and_back("pet", "\"dog\""), "\"m:dog\"");
    assert_eq!(there_and_back("flags", "[\"c\", \"a\"]"), "\"a c\"");
    assert_eq!(there_and_back("raw", "\"AQ ID\\n\""), "\"AQID\"");
}

#[test]
fn scalars_as_items() {
    assert_eq!(leaf("small", "-5").unwrap(), Cbor::Integer(-5));
    assert_eq!(leaf("big", "\"12\"").unwrap(), Cbor::Integer(12));
    assert_eq!(leaf("raw", "\"AQID\"").unwrap(), Cbor::Bytes(vec![1, 2, 3]));
    assert_eq!(leaf("mark", "[null]").unwrap(), Cbor::Null);
    assert_eq!(leaf("color", "\"blue\"").unwrap(), Cbor::Integer(7));
    assert_eq!(leaf("color", "\"red\"").unwrap(), Cbor::Integer(0));
    assert_eq!(leaf("flags", "\"b\"").unwrap(), Cbor::Array(vec![Cbor::Integer(1), Cbor::Bytes(vec![2])]));
    assert_eq!(leaf("pet", "\"dog\"").unwrap(), Cbor::Integer(5002));
    assert_eq!(leaf("either", "\"auto\"").unwrap(), Cbor::tagged(44, Cbor::Text("auto".to_string())));
    assert_eq!(leaf("either", "\"x\"").unwrap(), Cbor::tagged(43, Cbor::Text("x".to_string())));
    assert_eq!(leaf("either", "\"dog\"").unwrap(), Cbor::tagged(45, Cbor::Integer(5002)));
}

#[test]
fn scalars_that_are_refused() {
    assert_eq!(leaf("small", "\"x\"").unwrap_err(), "expected a whole number here, got \"x\"");
    assert!(leaf("small", "300").unwrap_err().contains("between -128 and 127"));
    assert_eq!(leaf("big", "\"-1\"").unwrap_err(), "\"-1\" is not a valid non-negative whole number");
    assert_eq!(leaf("signed", "\"x\"").unwrap_err(), "\"x\" is not a valid whole number");
    assert!(leaf("big", "1").unwrap_err().starts_with("expected a large whole number"));
    assert_eq!(leaf("on", "1").unwrap_err(), "expected true or false, got 1");
    assert_eq!(leaf("name", "null").unwrap_err(), "expected text here, got null");
    assert_eq!(leaf("raw", "\"*\"").unwrap_err(), "\"*\" is not valid base64-encoded text");
    assert!(leaf("raw", "\"AQIDBAU=\"").unwrap_err().contains("5 byte(s) long once decoded"));
    assert!(leaf("price", "\"1.234\"").unwrap_err().contains("more decimal places"));
    assert!(leaf("price", "1").unwrap_err().starts_with("expected a decimal number"));
    assert_eq!(leaf("color", "\"green\"").unwrap_err(), "\"green\" is not one of the allowed values for this field");
    assert_eq!(leaf("flags", "\"z\"").unwrap_err(), "\"z\" is not one of the allowed names for this field");
    assert_eq!(leaf("pet", "\"cat\"").unwrap_err(), "\"cat\" is not one of the allowed values for this field");
    assert!(leaf("where", "\"/m:nope\"").unwrap_err().contains("check for a typo"));
    assert!(leaf("either", "{}").unwrap_err().contains("does not match any of the allowed types here"));
    assert!(leaf("either", "\"tall\"").unwrap_err().contains("is not in the expected format"));
}

#[test]
fn a_tree_comes_back() {
    let s = schema();
    let v = json(r#"{"m:top": {"name": "n", "tags": ["a", "b"], "small": 3,
        "row": [{"id": 1, "kind": "k", "value": "v"}, {"kind": "l", "id": 2}]}}"#);
    let bytes = json_to_cbor(&s, &v, ContentFormat::Put, false).unwrap();
    assert_eq!(cbor_to_json(&s, &bytes, ContentFormat::Put, &[]).unwrap(), v);
    let items = cbor_seq_from_bytes(&bytes).unwrap();
    assert_eq!(items.len(), 1);
    let top = items[0].as_map().unwrap();
    assert_eq!(top[0].0, Cbor::Integer(5010));
    assert_eq!(top[0].1.as_map().unwrap()[0], (Cbor::Integer(5), Cbor::Text("n".to_string())));
}

#[test]
fn entries_come_back() {
    let s = schema();
    let v = json(r#"[{"/m:top/row[id='1'][kind='k']": {"id": 1, "kind": "k", "value": "v"}},
        {"/m:top/name": "n"}, {"/m:top/mark": null}, {"/m:top/turn": {"input": {"speed": 4}}}]"#);
    let a = v.as_array().unwrap();
    for cf in [ContentFormat::Ipatch, ContentFormat::Post, ContentFormat::Fetch] {
        let bytes = json_seq_to_cbor(&s, a, cf, false).unwrap();
        let back = cbor_seq_to_json(&s, &bytes, cf, &[]).unwrap();
        assert_eq!(Json::Array(back), v);
    }
    let paths = [Json::String("/m:top/row".to_string())];
    let bytes = json_seq_to_cbor(&s, &paths, ContentFormat::Fetch, false).unwrap();
    assert_eq!(bytes, to_vec(&Cbor::Integer(5026)));
    assert_eq!(cbor_seq_to_json(&s, &bytes, ContentFormat::Fetch, &[]).unwrap(), paths);
}

#[test]
fn what_was_decoded_is_encoded_as_before() {
    let s = schema();
    let v = json(r#"{"m:top": {"big": "+007", "pet": "dog", "flags": ["c", "a"], "turn": {"speed": 1},
        "row": [{"value": "v", "kind": "k", "id": 1}]}}"#);
    let bytes = json_to_cbor(&s, &v, ContentFormat::Put, false).unwrap();
    let back = cbor_to_json(&s, &bytes, ContentFormat::Put, &[]).unwrap();
    assert_ne!(back, v);
    assert_eq!(json_to_cbor(&s, &back, ContentFormat::Put, false).unwrap(), bytes);
    let a = json(r#"[{"m:top/row[kind='k'][id=\"+1\"]": {"id": 1, "kind": "k"}}, {"/m:top/big": "08"}]"#);
    let bytes = json_seq_to_cbor(&s, a.as_array().unwrap(), ContentFormat::Ipatch, false).unwrap();
    let back = cbor_seq_to_json(&s, &bytes, ContentFormat::Ipatch, &[]).unwrap();
    assert_eq!(to_text(&Json::Array(back.clone())), r#"[{"/m:top/row[id='1'][kind='k']":{"id":1,"kind":"k"}},{"/m:top/big":"8"}]"#);
    assert_eq!(json_seq_to_cbor(&s, &back, ContentFormat::Ipatch, false).unwrap(), bytes);
}

#[test]
fn paths_come_back() {
    let s = schema();
    for path in ["/m:top", "/m:top/row", "/m:top/row[id='9']", "/m:top/row[id='9'][kind='a/b']/value"] {
        let (node, iid) = resolve_iid(&s, path).unwrap();
        let (again, text) = decode_iid(&s, &iid, &[]).unwrap();
        assert_eq!((node, path), (again, text.as_str()));
    }
    let (_, iid) = resolve_iid(&s, "/m:top/row[kind=\"q\"][id='9']").unwrap();
    assert_eq!(iid, Cbor::Array(vec![Cbor::Integer(5026), Cbor::Integer(9), Cbor::Text("q".to_string())]));
}

#[test]
fn paths_that_are_refused() {
    let s = schema();
    let refused = |p: &str| resolve_iid(&s, p).unwrap_err().0;
    assert!(refused("/m:top/nope").contains("\"nope\" in the path"));
    assert!(refused("/m:top/row[id").contains("no matching ']'"));
    assert!(refused("/m:top/row[id]").contains("isn't a key selector"));
    assert!(refused("/m:top/row[x='1']").contains("is not a key of the list"));
    assert!(refused("/m:top/name[x='1']").contains("is not a list"));
    assert!(refused("/m:top/row[id='z']").contains("is not a whole number"));
    assert!(decode_iid(&s, &Cbor::Integer(1), &[]).unwrap_err().0.contains("#1"));
    assert!(decode_iid(&s, &Cbor::Bool(true), &[]).is_err());
}

#[test]
fn responses_that_do_not_fit() {
    let s = schema();
    let decode = |v: Cbor| cbor_to_json(&s, &to_vec(&v), ContentFormat::Yang, &[]).unwrap_err().0;
    assert!(decode(Cbor::Integer(1)).contains("expected a set of fields"));
    assert!(decode(Cbor::Entries(vec![(Cbor::Integer(9), Cbor::Null)])).contains("field #9"));
    assert!(decode(Cbor::Entries(vec![(Cbor::Bool(true), Cbor::Null)])).contains("isn't a valid number"));
    assert!(cbor_to_json(&s, &[0xff], ContentFormat::Yang, &[]).unwrap_err().0.contains("could not decode this as CBOR"));
    assert_eq!(cbor_to_json(&s, &[], ContentFormat::Yang, &[]).unwrap(), json("{}"));
    assert!(cbor_seq_to_json(&s, &[0x01], ContentFormat::Post, &[]).unwrap_err().0.contains("POST"));
}

#[test]
fn errors_that_are_passed_over() {
    let s = schema();
    let v = json(r#"{"m:top": {"small": "much", "what": 1, "row": [{"id": 1, "kind": "k"}]}}"#);
    assert!(json_to_cbor(&s, &v, ContentFormat::Put, false).is_err());
    let bytes = json_to_cbor(&s, &v, ContentFormat::Put, true).unwrap();
    let item = &cbor_seq_from_bytes(&bytes).unwrap()[0];
    let top = item.as_map().unwrap()[0].1.as_map().unwrap();
    assert_eq!(top.len(), 2);
    assert_eq!(top[0], (Cbor::Integer(1), Cbor::Text("much".to_string())));
    let good = json(r#"{"m:top": {"small": 1}}"#);
    assert_eq!(
        json_to_cbor(&s, &good, ContentFormat::Put, true).unwrap(),
        json_to_cbor(&s, &good, ContentFormat::Put, false).unwrap()
    );
}

#[test]
fn a_sequence_has_a_normal_form() {
    let odd = [0x18, 0x01, 0x9f, 0x19, 0x00, 0x02, 0xff];
    let normal = normalize_cbor_seq(&odd).unwrap();
    assert_eq!(normal, vec![0x01, 0x81, 0x02]);
    assert_eq!(normalize_cbor_seq(&normal).unwrap(), normal);
    assert!(normalize_cbor_seq(&[0x81]).is_err());
}

#[test]
fn decimals_are_listed() {
    let price = Cbor::tagged(4, Cbor::Array(vec![Cbor::Integer(-2), Cbor::Integer(1250)]));
    let v = Cbor::Entries(vec![(Cbor::Integer(1), Cbor::Array(vec![price, Cbor::Null]))]);
    let mut found = Vec::new();
    list_decimals(&v, &mut found);
    assert_eq!(found, vec![(-2, 1250)]);
}

#[test]
fn only_listed_decimals_matter() {
    let s = schema();
    let bytes = json_to_cbor(&s, &json(r#"{"m:top": {"price": "12.5"}}"#), ContentFormat::Put, false).unwrap();
    let mut found = Vec::new();
    list_decimals(&cbor_seq_from_bytes(&bytes).unwrap()[0], &mut found);
    assert_eq!(found, vec![(-2, 1250)]);
    let few = [hundredths(1250, "12.5")];
    let many = [hundredths(1, "0.01"), hundredths(1250, "12.5"), hundredths(1250, "other")];
    let decode = |d: &[DecimalText]| cbor_to_json(&s, &bytes, ContentFormat::Put, d).unwrap();
    assert_eq!(decode(&few), decode(&many));
    assert!(cbor_to_json(&s, &bytes, ContentFormat::Put, &[]).is_err());
}

#[test]
fn conversions_between_all_formats() {
    let s = schema();
    let text = r#"{"m:top": {"small": 3, "price": "12.5"}}"#;
    let d = [hundredths(1250, "12.5")];
    let cf = content_format_of("put");
    let made = convert(&s, "json", "cbor", cf, false, ConvInput::Text(text), &d).unwrap();
    let bytes = match made {
        ConvOutput::Bytes(b) => b,
        other => panic!("{other:?}"),
    };
    let back = |to: &str| convert(&s, "cbor", to, cf, false, ConvInput::Bytes(&bytes), &d).unwrap();
    assert_eq!(
        back("json"),
        ConvOutput::Text("{\n  \"m:top\": {\n    \"small\": 3,\n    \"price\": \"12.5\"\n  }\n}".to_string())
    );
    assert_eq!(back("yaml"), ConvOutput::Text("m:top:\n  small: 3\n  price: '12.5'\n".to_string()));
    match convert(&s, "cbor", "cbor", cf, false, ConvInput::Bytes(&bytes), &d).unwrap() {
        ConvOutput::Bytes(b) => assert_eq!(b, bytes),
        other => panic!("{other:?}"),
    }
    let made = convert(&s, "yaml", "json", cf, false, ConvInput::Text("a: [1, x, 0.1]\n"), &d).unwrap();
    assert_eq!(
        made,
        ConvOutput::Text("{\n  \"a\": [\n    1,\n    \"x\",\n    0.1\n  ]\n}".to_string())
    );
    let e = convert(&s, "xml", "json", cf, false, ConvInput::Text(""), &d).unwrap_err();
    assert_eq!(e, "unsupported conversion xml -> json");
    let e = convert(&s, "json", "cbor", ContentFormat::Fetch, false, ConvInput::Text("{}"), &d);
    assert!(e.unwrap_err().contains("must be a YAML/JSON list"));
    let e = convert(&s, "json", "cbor", cf, false, ConvInput::Text("{"), &d).unwrap_err();
    assert!(e.starts_with("JSON parse error: "), "{e}");
    let e = convert(&s, "yaml", "cbor", cf, false, ConvInput::Text("[}"), &d).unwrap_err();
    assert!(e.starts_with("YAML parse error: "), "{e}");
}

#[test]
fn file_arguments_of_conversions() {
    let files = |names: &[&str]| names.iter().map(|n| n.to_string()).collect::<Vec<_>>();
    let p = plan_conversion(&files(&["a.yang", "x.json", "a.sid"])).unwrap();
    assert_eq!((p.yangs, p.sids), (files(&["a.yang"]), files(&["a.sid"])));
    assert_eq!(p.data_file.as_deref(), Some("x.json"));
    assert!(plan_conversion(&[]).unwrap().data_file.is_none());
    assert_eq!(
        plan_conversion(&files(&["x", "y"])).unwrap_err(),
        "expected at most one data file on the command line, got 2: x, y"
    );
    assert!(plan_conversion(&files(&["a.yang"])).unwrap_err().ends_with("got only one kind"));
    assert_eq!(plan_description(&files(&["a.yang"])).unwrap(), files(&["a.yang"]));
    assert!(plan_description(&files(&["x"])).unwrap_err().ends_with("argument(s): x"));
    assert!(plan_description(&files(&["a.sid"])).unwrap_err().starts_with(".sid files"));
}

#[test]
fn formats_are_picked() {
    assert_eq!(Format::pick(Some("a.json"), None), Format::Json);
    assert_eq!(Format::pick(Some("a.json"), Some("yaml")), Format::Yaml);
    assert_eq!(Format::pick(Some("a.txt"), None), Format::Yaml);
    assert_eq!(Format::pick(None, None), Format::Yaml);
    assert!(!is_nonempty(&json("{}")) && !is_nonempty(&json("[]")) && !is_nonempty(&Json::Null));
    assert!(is_nonempty(&json("0")));
}

#[test]
fn values_as_text() {
    assert_eq!(to_text(&json(r#"{"a":[1,null,true],"b":"\u0001\"\n"}"#)), r#"{"a":[1,null,true],"b":"\u0001\"\n"}"#);
    assert_eq!(json("1.50"), Json::Float("1.5".to_string()));
    let text = "q\" b\\ \u{8}\t\n\u{c}\r \u{0}\u{1f}\u{7f} / \u{e9}\u{2028}\u{1f600}";
    assert_eq!(
        to_text(&Json::String(text.to_string())),
        "\"q\\\" b\\\\ \\b\\t\\n\\f\\r \\u0000\\u001f\u{7f} / \u{e9}\u{2028}\u{1f600}\""
    );
}

#[test]
fn numbers_are_checked_as_they_are() {
    assert_eq!(
        leaf("small", "18446744073709551615").unwrap_err(),
        "18446744073709551615 is not allowed here -- the value must be between -128 and 127"
    );
    assert!(leaf("small", "9223372036854775808").is_err());
    assert_eq!(leaf("big", "\"18446744073709551615\"").unwrap(), Cbor::Integer(u64::MAX as i128));
    let yang = r#"module m { prefix m; leaf u { type uint64 { range "5..10 | 18446744073709551615"; } }
        leaf i { type int64 { range "-3..3"; } } }"#;
    let s = match build(&[yang.to_string()], &[]) {
        Ok(s) => s,
        Err(e) => panic!("{}", e.0),
    };
    let encode = |name: &str, text: &str| {
        let n = s.find_child(s.root, name).unwrap();
        let v = Json::String(text.to_string());
        type_to_cbor(&s, s.node(n).type_id.unwrap(), &v, false, false).map_err(|e| e.0)
    };
    assert_eq!(encode("m:u", "7").unwrap(), Cbor::Integer(7));
    assert_eq!(encode("m:u", "18446744073709551615").unwrap(), Cbor::Integer(u64::MAX as i128));
    assert_eq!(
        encode("m:u", "11").unwrap_err(),
        "11 is not allowed here -- the value must be between 5 and 10, or exactly 18446744073709551615"
    );
    assert!(encode("m:i", "-4").unwrap_err().contains("between -3 and 3"));
    assert_eq!(encode("m:i", "-3").unwrap(), Cbor::Integer(-3));
}

#[test]
fn decimals_have_to_fit() {
    assert!(leaf("price", "\"92233720368547758.07\"").is_ok());
    assert!(leaf("price", "\"-92233720368547758.08\"").is_ok());
    assert_eq!(
        leaf("price", "\"92233720368547758.08\"").unwrap_err(),
        "\"92233720368547758.08\" is not a valid decimal number"
    );
}

#[test]
fn bits_come_back_once_and_by_position() {
    assert_eq!(there_and_back("flags", "\"c  b a b c\""), "\"a b c\"");
}

#[test]
fn joined_sequences_have_joined_normal_forms() {
    let a = [0x18, 0x01, 0x9f, 0xff];
    let b = [0x19, 0x00, 0x02];
    let mut joined = a.to_vec();
    joined.extend_from_slice(&b);
    let mut expected = normalize_cbor_seq(&a).unwrap();
    expected.extend(normalize_cbor_seq(&b).unwrap());
    assert_eq!(normalize_cbor_seq(&joined).unwrap(), expected);
    for n in 1..a.len() {
        assert_eq!(normalize_cbor_seq(&a[..n]).is_ok(), n == 2);
    }
}

#[test]
fn no_encoding_of_definite_length_is_shorter() {
    for text in ["1800", "190017", "1b0000000000000001", "9800", "b90001f6f6", "5803010203", "d82cf6"] {
        let bytes: Vec<u8> =
            (0..text.len()).step_by(2).map(|i| u8::from_str_radix(&text[i..i + 2], 16).unwrap()).collect();
        let short = normalize_cbor_seq(&bytes).unwrap();
        assert!(short.len() <= bytes.len(), "{text}");
    }
}

#[test]
fn resolved_paths_come_back() {
    let s = schema();
    for path in ["m:top/row[kind=k][id=+07]/value", "/m:top/row[ id = ]", "m:top//row[id='1']"] {
        if let Ok((node, iid)) = resolve_iid(&s, path) {
            let (again, text) = decode_iid(&s, &iid, &[]).unwrap();
            assert_eq!(again, node);
            assert_eq!(resolve_iid(&s, &text).unwrap(), (node, iid));
        }
    }
    let (_, iid) = resolve_iid(&s, "m:top/row[kind=k][id=+07]/value").unwrap();
    assert_eq!(decode_iid(&s, &iid, &[]).unwrap().1, "/m:top/row[id='7'][kind='k']/value");
}

#[test]
fn each_node_is_found_by_its_sid() {
    let s = schema();
    let mut found = 0;
    for n in s.root..s.nodes.len() {
        if let Some(sid) = s.nodes[n].sid {
            assert_eq!(s.sid_index[&sid], n);
            found += 1;
        }
        assert_eq!(s.nodes[n].kw == "module", n == s.root);
    }
    assert_eq!((found, s.nodes[s.root].sid), (24, Some(0)));
}

#[test]
fn the_empty_path_comes_back() {
    let s = schema();
    for path in ["", "/", "//"] {
        let (node, iid) = resolve_iid(&s, path).unwrap();
        assert_eq!((node, &iid), (s.root, &Cbor::Integer(0)));
        assert_eq!(decode_iid(&s, &iid, &[]).unwrap(), (s.root, String::new()));
    }
}

#[test]
fn paths_with_odd_names_and_other_keys_come_back() {
    let model = r#"module m { namespace "urn:m"; prefix m;
        identity animal; identity dog { base animal; }
        container top {
          list "a]/b" { key k; leaf k { type string; } leaf v { type string; } }
          list "" { key "k k"; leaf k { type boolean; } leaf v { type string; } }
          list all { key "e u p"; leaf e { type enumeration { enum x; enum y; } }
            leaf u { type uint64; } leaf p { type identityref { base animal; } } leaf v { type empty; } }
        } }"#;
    let sids = r#"{"module-name": "m", "items": [
        {"namespace": "identity", "identifier": "animal", "sid": 1},
        {"namespace": "identity", "identifier": "dog", "sid": 2}]}"#;
    let mut s = build(&[model.to_string()], &[sids.to_string()]).unwrap();
    let mut next: i64 = 10;
    for n in s.root + 1..s.nodes.len() {
        s.nodes[n].sid = Some(next);
        s.sid_index.insert(next, n);
        next += 1;
    }
    for (path, shown) in [
        ("m:top/a]/b", "/m:top/a]/b"),
        ("/m:top/a]/b[k=q]", "/m:top/a]/b[k='q']"),
        ("m:top/[k=true][k=false]/v", "/m:top/[k='true'][k='true']/v"),
        ("/m:top/all[p=dog][u=007][e='y']/v", "/m:top/all[e='y'][u='7'][p='m:dog']/v"),
        ("/m:top/all[u='7'][e=x]", "/m:top/all[e='x'][u='7']"),
    ] {
        let (node, iid) = resolve_iid(&s, path).unwrap();
        let (again, text) = decode_iid(&s, &iid, &[]).unwrap();
        assert_eq!((again, text.as_str()), (node, shown));
        assert_eq!(resolve_iid(&s, &text).unwrap(), (node, iid));
    }
}
