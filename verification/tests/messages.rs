use rcc::cbor::{to_vec, Value as Cbor};
use rcc::coap::client::Response;
use rcc::command::messages::{data_notices, data_warnings, request_warnings, response_notices};
use rcc::command::request::prepare_request;
use rcc::json::Json;
use rcc::yang::codec::ContentFormat;
use rcc::yang::schema::{build, Schema};

fn schema() -> Schema {
    let yang = r#"module m { namespace "urn:m"; prefix m;
        container c {
          leaf a { type uint8; }
          leaf e { type enumeration { enum low { value 1; } enum high { value 2; } } }
          leaf-list n { type uint8; }
          list l { key k; leaf k { type enumeration { enum on { value 1; } } }
            leaf v { type uint8; mandatory true; } }
        } }"#;
    let sids = r#"{"module-name": "m", "items": [
        {"namespace": "data", "identifier": "/m:c", "sid": 100},
        {"namespace": "data", "identifier": "/m:c/a", "sid": 101},
        {"namespace": "data", "identifier": "/m:c/e", "sid": 102},
        {"namespace": "data", "identifier": "/m:c/n", "sid": 103},
        {"namespace": "data", "identifier": "/m:c/l", "sid": 104},
        {"namespace": "data", "identifier": "/m:c/l/k", "sid": 105},
        {"namespace": "data", "identifier": "/m:c/l/v", "sid": 106}]}"#;
    match build(&[yang.to_string()], &[sids.to_string()]) {
        Ok(s) => s,
        Err(e) => panic!("{}", e.0),
    }
}

fn object(members: Vec<(&str, Json)>) -> Json {
    Json::Object(members.into_iter().map(|(k, v)| (k.to_string(), v)).collect())
}

fn in_container(members: Vec<(&str, Json)>) -> Json {
    object(vec![("m:c", object(members))])
}

fn passed_over(message: &str) -> String {
    format!("WARNING: {message} (continuing, --continue given)")
}

fn unnamed(n: i64) -> String {
    format!("WARNING: the device reported enum value {n}, which isn't defined in the loaded YANG catalog (the device's firmware may be newer than the catalog) -- showing the raw number instead of a name")
}

#[test]
fn what_is_passed_over_is_told_in_order() {
    let s = schema();
    let wrong = |v: Json| prepare_request(&s, "put", Some(&v), false).unwrap_err();
    let number = wrong(in_container(vec![("a", Json::Integer(300))]));
    let field = "\"x\" is not a valid field inside m:c -- check for a typo or the wrong nesting";
    assert_eq!(wrong(in_container(vec![("x", Json::Null)])), field);
    let item = wrong(in_container(vec![("n", Json::Array(vec![Json::Integer(256)]))]));
    let data = in_container(vec![
        ("x", Json::Null),
        ("a", Json::Integer(300)),
        ("n", Json::Array(vec![Json::Integer(1), Json::Integer(256)])),
    ]);
    assert_eq!(
        request_warnings(&s, "put", Some(&data)),
        vec![passed_over(field), passed_over(&number), passed_over(&item)]
    );
    assert!(prepare_request(&s, "put", Some(&data), true).is_ok());
    assert_eq!(request_warnings(&s, "get", Some(&data)), Vec::<String>::new());
    assert_eq!(request_warnings(&s, "put", None), Vec::<String>::new());
    let right = in_container(vec![("a", Json::Integer(3))]);
    assert_eq!(request_warnings(&s, "put", Some(&right)), Vec::<String>::new());
}

#[test]
fn what_is_missing_and_what_has_the_wrong_shape_is_told() {
    let s = schema();
    let wrong = |v: Json| prepare_request(&s, "put", Some(&v), false).unwrap_err();
    let no_object = wrong(object(vec![("m:c", Json::Integer(1))]));
    assert_eq!(
        data_warnings(&s, &object(vec![("m:c", Json::Integer(1))]), ContentFormat::Yang),
        vec![passed_over(&no_object)]
    );
    let without_value = || object(vec![("k", Json::String("on".to_string()))]);
    let missing = wrong(in_container(vec![("l", Json::Array(vec![without_value()]))]));
    let both = vec![without_value(), object(vec![])];
    let told = data_warnings(&s, &in_container(vec![("l", Json::Array(both))]), ContentFormat::Yang);
    assert_eq!(told[0], passed_over(&missing));
    assert_eq!(told.len(), 3);
    assert_eq!(told[2], passed_over(&missing));
    assert!(told[1].starts_with("WARNING: \"k\" is missing from l"), "{}", told[1]);
    let top = data_warnings(&s, &Json::Null, ContentFormat::Put);
    assert_eq!(
        top,
        vec![passed_over("a PUT request needs an object (key/value fields) at the top level, got null")]
    );
}

#[test]
fn the_entries_of_a_request_are_told_up_to_the_first_that_fails() {
    let s = schema();
    let entry = |path: &str, v: i128| object(vec![(path, Json::Integer(v))]);
    let one = |v: Json| prepare_request(&s, "ipatch", Some(&Json::Array(vec![v])), false);
    let number = one(entry("/m:c/a", 300)).unwrap_err();
    let list = Json::Array(vec![
        entry("/m:c/a", 300),
        entry("/m:c/a", 3),
        entry("/m:c/a", 300),
        entry("/m:none", 1),
        entry("/m:c/a", 300),
    ]);
    assert_eq!(
        request_warnings(&s, "ipatch", Some(&list)),
        vec![passed_over(&number), passed_over(&number)]
    );
    assert!(prepare_request(&s, "ipatch", Some(&list), true).is_err());
    let fetch = Json::Array(vec![object(vec![("/m:c/a", Json::Null)])]);
    assert_eq!(request_warnings(&s, "fetch", Some(&fetch)), Vec::<String>::new());
    assert_eq!(request_warnings(&s, "fetch", Some(&Json::Null)), Vec::<String>::new());
    assert_eq!(
        request_warnings(&s, "post", Some(&Json::Array(vec![entry("/m:c/a", 300)]))),
        vec![passed_over(&number)]
    );
}

#[test]
fn values_without_a_name_are_told() {
    let s = schema();
    let tree = |n: i128| {
        to_vec(&Cbor::Entries(vec![(
            Cbor::Integer(100),
            Cbor::Entries(vec![(Cbor::Integer(2), Cbor::Integer(n))]),
        )]))
    };
    assert_eq!(data_notices(&s, &tree(7), ContentFormat::Yang, &[]), vec![unnamed(7)]);
    assert_eq!(data_notices(&s, &tree(2), ContentFormat::Yang, &[]), Vec::<String>::new());
    let reply = |class: u8, detail: u8, payload: Vec<u8>| Response {
        code_class: class,
        code_detail: detail,
        content_format: Some(140),
        payload,
    };
    let told = |r: Response| response_notices(&s, &r, ContentFormat::Get, &[]);
    assert_eq!(told(reply(2, 5, tree(-3))), vec![unnamed(-3)]);
    assert_eq!(told(reply(5, 0, tree(-3))), Vec::<String>::new());
    assert_eq!(told(reply(2, 5, vec![])), Vec::<String>::new());
}

#[test]
fn keys_without_a_name_are_told_up_to_the_first_entry_that_fails() {
    let s = schema();
    let key = |n: i128| Cbor::Array(vec![Cbor::Integer(106), Cbor::Integer(n)]);
    let entry = |n: i128, v: Cbor| to_vec(&Cbor::Entries(vec![(key(n), v)]));
    let mut bytes = entry(9, Cbor::Integer(1));
    bytes.extend(entry(1, Cbor::Integer(1)));
    bytes.extend(to_vec(&key(8)));
    bytes.extend(entry(7, Cbor::Bool(true)));
    bytes.extend(entry(6, Cbor::Integer(1)));
    assert_eq!(
        data_notices(&s, &bytes, ContentFormat::Fetch, &[]),
        vec![unnamed(9), unnamed(8), unnamed(7)]
    );
    assert_eq!(data_notices(&s, &[0x82, 1], ContentFormat::Fetch, &[]), Vec::<String>::new());
}
