use rcc::cbor::{to_vec, Value as Cbor};
use rcc::coap::client::{Client, Response};
use rcc::coap::message::{parse, Method};
use rcc::command::catalog::{
    extension_kind, next_download, partition_catalog_files, yang_file_name, Download, FileKind,
};
use rcc::command::options::Opts;
use rcc::command::request::{
    begin_request, checksum_in_response, checksum_request, decode_response_payload, needs_input,
    normalize_fetch_request_items, prepare_request, show_failure, show_frame,
    url_with_query_params, Prepared,
};
use rcc::command::topology::{Dut, Topology};
use rcc::json::Json;
use rcc::mup1::frame::{Decoder, Frame, TYPE_RAW};
use rcc::mup1::frame_type::{ANNOUNCE, PING, TRACE};
use rcc::mup1::{ChecksumType, Mup1Client};
use rcc::yang::codec::ContentFormat;
use rcc::yang::schema::{build, Schema};

fn schema() -> Schema {
    let yang = r#"module m { namespace "urn:m"; prefix m;
        container c { leaf a { type uint8; } } }"#;
    let sids = r#"{"module-name": "m", "items": [
        {"namespace": "data", "identifier": "/m:c", "sid": 100},
        {"namespace": "data", "identifier": "/m:c/a", "sid": 101}]}"#;
    match build(&[yang.to_string()], &[sids.to_string()]) {
        Ok(s) => s,
        Err(e) => panic!("{}", e.0),
    }
}

fn opts() -> Opts {
    Opts {
        device: None,
        key: None,
        checksum_type: "internet-checksum".to_string(),
        baudrate: 115200,
        method: Some("get".to_string()),
        input: None,
        output: None,
        input_format: None,
        output_format: None,
        query: vec![],
        verbose: false,
        continue_on_error: false,
        workspace: false,
        no_workspace: false,
    }
}

fn setup() -> Option<Topology> {
    Some(Topology { dut: Dut { terminal: Some("termhub://lab:4000".to_string()) } })
}

fn response(class: u8, detail: u8, content_format: Option<u16>, payload: &[u8]) -> Response {
    Response { code_class: class, code_detail: detail, content_format, payload: payload.to_vec() }
}

#[test]
fn options_make_a_plan() {
    let p = opts().plan(&setup()).unwrap();
    assert_eq!(p.device, "termhub://lab:4000");
    assert_eq!(p.method, "get");
    assert_eq!(p.checksum_type, ChecksumType::Internet);
    assert!(p.use_workspace);
    let mut o = opts();
    o.device = Some("/dev/tty".to_string());
    o.checksum_type = "crc32".to_string();
    let p = o.plan(&None).unwrap();
    assert_eq!(p.device, "/dev/tty");
    assert_eq!(p.checksum_type, ChecksumType::Crc32);
    assert!(!p.use_workspace);
    o.workspace = true;
    assert_eq!(o.workspace_flag(), Some(true));
    assert!(o.plan(&None).unwrap().use_workspace);
    o.workspace = false;
    o.no_workspace = true;
    assert!(!o.plan(&setup()).unwrap().use_workspace);
}

#[test]
fn options_that_make_no_plan() {
    let mut o = opts();
    assert!(o.plan(&None).unwrap_err().starts_with("No device given"));
    o.device = Some("d".to_string());
    o.method = None;
    assert!(o.plan(&None).unwrap_err().starts_with("No method given"));
    o.key = Some("k".to_string());
    assert!(o.plan(&None).unwrap_err().starts_with("DTLS (-k/--key) is not"));
    o.query = vec!["c=c".to_string(), "d=a".to_string(), "c=n".to_string()];
    assert_eq!(o.plan(&None).unwrap_err(), "Duplicate query parameter c=n");
    o.query = vec!["c=c".to_string(), "d=a".to_string()];
    assert!(o.validate_query().is_ok());
}

#[test]
fn query_parameters_are_for_some_methods() {
    let q = vec!["c=c".to_string(), "d=a".to_string()];
    assert_eq!(url_with_query_params("c", &q, "get").unwrap(), "c?c=c&d=a");
    assert_eq!(url_with_query_params("c", &[], "put").unwrap(), "c");
    assert_eq!(
        url_with_query_params("c", &q, "put").unwrap_err(),
        "-q/--query only works with fetch and get, not put"
    );
    assert!(needs_input("put") && !needs_input("delete"));
}

#[test]
fn a_path_with_null_is_only_a_path() {
    let path = Json::String("/m:c".to_string());
    let entry = Json::Object(vec![("/m:c".to_string(), Json::Null)]);
    let full = Json::Object(vec![("/m:c".to_string(), Json::Integer(1))]);
    let once = normalize_fetch_request_items(&[entry, full, path]);
    assert_eq!(once[0], Json::String("/m:c".to_string()));
    assert!(matches!(&once[1], Json::Object(_)));
    assert_eq!(normalize_fetch_request_items(&once), once);
}

#[test]
fn requests_are_prepared() {
    let s = schema();
    let list = Json::Array(vec![Json::Object(vec![("/m:c/a".to_string(), Json::Null)])]);
    let p: Prepared = prepare_request(&s, "fetch", Some(&list), false).unwrap();
    assert_eq!(p.method, Method::Fetch);
    assert_eq!(p.payload, to_vec(&Cbor::Integer(101)));
    let p = prepare_request(&s, "ipatch", Some(&list), false).unwrap();
    assert_eq!(p.payload, to_vec(&Cbor::Entries(vec![(Cbor::Integer(101), Cbor::Null)])));
    let p = prepare_request(&s, "get", Some(&list), false).unwrap();
    assert_eq!((p.method, p.payload.len()), (Method::Get, 0));
    let tree = Json::Object(vec![]);
    let p = prepare_request(&s, "put", Some(&tree), false).unwrap();
    assert_eq!(p.payload, vec![0xA0]);
    let p = prepare_request(&s, "delete", None, false).unwrap();
    assert_eq!(p.success_format, ContentFormat::Yang);
    let refused = |m: &str, v: Option<&Json>| prepare_request(&s, m, v, false).unwrap_err();
    assert_eq!(refused("fetch", Some(&tree)), "fetch needs a YAML/JSON list as input, not a single value");
    assert_eq!(refused("ipatch", None), "ipatch needs a YAML/JSON list as input, not a single value");
    assert_eq!(refused("post", None), "post needs a YAML/JSON list as input, not a single value");
    assert_eq!(refused("put", None), "put needs a YAML/JSON object (key/value fields) as input");
    assert_eq!(refused("copy", None), "CoAP method copy not implemented!");
}

#[test]
fn a_request_begins() {
    let mut client = Client::new(Mup1Client::new(ChecksumType::Crc32), 0);
    let p = Prepared {
        method: Method::Ipatch,
        payload: vec![1, 2, 3],
        success_format: ContentFormat::Ipatch,
    };
    let (_, wire) = begin_request(&mut client, &p, "c", 0);
    let mut dec = Decoder::new(ChecksumType::Crc32);
    for b in wire {
        dec.inject(b);
    }
    let sent = parse(&dec.get().unwrap().data).unwrap();
    assert_eq!(sent.code, 7);
    assert_eq!(sent.content_format, Some(142));
    assert_eq!(sent.payload, vec![1, 2, 3]);
}

#[test]
fn responses_are_shown() {
    let s = schema();
    let tree = to_vec(&Cbor::Entries(vec![(
        Cbor::Integer(100),
        Cbor::Entries(vec![(Cbor::Integer(1), Cbor::Integer(5))]),
    )]));
    let show = |r: &Response, cf: ContentFormat| decode_response_payload(&s, r, cf, &[]);
    let five = Json::Object(vec![(
        "m:c".to_string(),
        Json::Object(vec![("a".to_string(), Json::Integer(5))]),
    )]);
    assert_eq!(show(&response(2, 5, Some(140), &tree), ContentFormat::Get), Some(five));
    assert_eq!(show(&response(2, 4, None, &[]), ContentFormat::Put), None);
    let path = to_vec(&Cbor::Integer(101));
    let mut two = path.clone();
    two.extend_from_slice(&path);
    let a = || Json::String("/m:c/a".to_string());
    assert_eq!(show(&response(2, 5, Some(141), &path), ContentFormat::Get), Some(a()));
    assert_eq!(
        show(&response(2, 5, None, &two), ContentFormat::Fetch),
        Some(Json::Array(vec![a(), a()]))
    );
    assert_eq!(
        show(&response(2, 4, None, &[1, 2]), ContentFormat::Ipatch),
        Some(Json::String("<2 bytes, response code 2.04 has no defined body shape>".to_string()))
    );
    assert_eq!(
        show(&response(5, 3, Some(140), &tree), ContentFormat::Get),
        Some(Json::String(format!(
            "<{} bytes, response code 5.03 has no defined body shape>",
            tree.len()
        )))
    );
    match show(&response(4, 0, Some(140), &[0x01]), ContentFormat::Ipatch) {
        Some(Json::String(t)) => {
            assert!(t.starts_with("<could not decode 1-byte response payload: "), "{t}")
        }
        other => panic!("{other:?}"),
    }
    assert_eq!(show_failure(&response(4, 4, None, &[])).as_deref(), Some("ERROR: response code 4.04"));
    assert_eq!(show_failure(&response(2, 4, None, &[])), None);
}

#[test]
fn the_checksum_of_a_library() {
    assert_eq!(checksum_request(), to_vec(&Cbor::Integer(29304)));
    let entry = |v: Cbor| to_vec(&Cbor::Entries(vec![(Cbor::Integer(29304), v)]));
    let good = response(2, 5, None, &entry(Cbor::Bytes(vec![0x0a, 0xff])));
    assert_eq!(checksum_in_response(&good).unwrap(), "0aff");
    let refused = |r: &Response| checksum_in_response(r).unwrap_err();
    assert!(refused(&response(4, 4, None, &[])).contains("got CoAP response 4.04"));
    assert!(refused(&response(2, 5, None, &[])).contains("could not be decoded as CBOR"));
    assert!(refused(&response(2, 5, None, &[0x01])).contains("expected a CBOR map"));
    assert!(refused(&response(2, 5, None, &[0xA0])).contains("was empty"));
    assert!(refused(&response(2, 5, None, &entry(Cbor::Null))).contains("expected raw bytes"));
}

#[test]
fn other_frames_are_shown() {
    let show = |type_byte: u8, data: &[u8]| show_frame(&Frame { type_byte, data: data.to_vec() });
    assert_eq!(show(TYPE_RAW, b"  boot \xff\r\n").as_deref(), Some("CON: \"boot \u{fffd}\""));
    assert_eq!(show(TYPE_RAW, b" \r\n"), None);
    assert_eq!(show(TRACE, b"a\tb").as_deref(), Some("TRACE: \"a\\tb\""));
    assert_eq!(show(ANNOUNCE, b"x").as_deref(), Some("ANNOUNCE: \"x\""));
    assert_eq!(show(PING, b"x"), None);
}

#[test]
fn files_of_a_catalog() {
    let files = |names: &[&str]| names.iter().map(|n| n.to_string()).collect::<Vec<_>>();
    let (y, s, o) = partition_catalog_files(&files(&["b.yang", "x", "a.sid", "a.yang"]));
    assert_eq!((y, s, o), (files(&["b.yang", "a.yang"]), files(&["a.sid"]), files(&["x"])));
    assert_eq!(yang_file_name("ietf-x@2020-01-01.sid"), "ietf-x.yang");
    assert_eq!(extension_kind("sid"), FileKind::Sid);
}

#[test]
fn downloads_are_tried_in_order() {
    let url = |n: usize| match next_download("abc", n, "why") {
        Download::Try(u) => Ok(u),
        Download::Failed(e) => Err(e.0),
    };
    assert!(url(0).unwrap().starts_with("http://") && url(0).unwrap().ends_with("/abc.tar.gz"));
    assert!(url(1).unwrap().starts_with("https://"));
    assert!(url(2).unwrap_err().ends_with("Last error: why"));
}
