use rcc::coap::client::{Action, Client, CoapError, Exchange, Response};
use rcc::coap::message::{encode_request, parse, Block, Method, MsgType, RequestParams};
use rcc::mup1::checksum::base128_decode;
use rcc::mup1::frame::{encode, Decoder, SOF, TYPE_RAW};
use rcc::mup1::frame_type::{ANNOUNCE, COAP_LOWER, TRACE};
use rcc::mup1::transport::{endpoint_of, split_host_port, Endpoint};
use rcc::mup1::{ChecksumType, Mup1Client};

fn client() -> Client {
    Client::new(Mup1Client::new(ChecksumType::Internet), 0x0007_0102)
}

/// The message in the only frame of what was written to the line.
fn message_in(wire: &[u8]) -> Vec<u8> {
    let mut dec = Decoder::new(ChecksumType::Internet);
    for &b in wire {
        dec.inject(b);
    }
    let f = dec.get().unwrap();
    assert_eq!(f.type_byte, COAP_LOWER);
    assert!(dec.get().is_none());
    f.data
}

/// A reply as it comes over the line.
fn reply(msg_type: u8, code: u8, msg_id: u16, rest: &[u8]) -> Vec<u8> {
    let mut msg = vec![0x40 | (msg_type << 4) | 1, code];
    msg.extend_from_slice(&msg_id.to_be_bytes());
    msg.push(8);
    msg.extend_from_slice(rest);
    encode(ChecksumType::Internet, COAP_LOWER, &msg)
}

fn next(c: &Client, x: &mut Exchange, now: u64) -> Option<Vec<u8>> {
    match c.decide(x, now) {
        Action::Send(b) => Some(b),
        _ => None,
    }
}

#[test]
fn a_request_travels() {
    let p = RequestParams {
        method: Method::Fetch,
        msg_id: 0xBEEF,
        token: 9,
        uri: "c?d=a",
        content_format: Some(141),
        accept: None,
        block1: Some(Block { num: 2, more: true, szx: 4 }),
        block2: Block { num: 0, more: false, szx: 4 },
        payload: b"\x3e\x3c\x5c\x00\xff",
    };
    let parsed = parse(&message_in(&encode(
        ChecksumType::Internet,
        COAP_LOWER,
        &encode_request(&p),
    )))
    .unwrap();
    assert_eq!(parsed.msg_type, MsgType::Con);
    assert_eq!(parsed.code, 5);
    assert_eq!(parsed.msg_id, 0xBEEF);
    assert_eq!(parsed.content_format, Some(141));
    assert_eq!(parsed.block1, Some(Block { num: 2, more: true, szx: 4 }));
    assert_eq!(parsed.payload, b"\x3e\x3c\x5c\x00\xff");
}

#[test]
fn pieces_of_a_frame_make_the_frame() {
    for t in [ChecksumType::Internet, ChecksumType::Crc32] {
        let wire = encode(t, b'c', b"some data");
        for cut in 0..wire.len() {
            let mut line = Mup1Client::new(t);
            let mut frames = line.poll(&wire[..cut], 0);
            frames.extend(line.poll(&wire[cut..], 1));
            assert_eq!(frames.len(), 1);
            assert_eq!(frames[0].data, b"some data");
        }
    }
}

#[test]
fn a_restarted_frame_gives_its_first_bytes_back() {
    let mut dec = Decoder::new(ChecksumType::Internet);
    for b in [SOF, b'A', b'b'] {
        dec.inject(b);
    }
    for b in encode(ChecksumType::Internet, b'X', b"y") {
        dec.inject(b);
    }
    assert_eq!(dec.get().unwrap().data, b"y");
    let raw = dec.get().unwrap();
    assert_eq!(raw.type_byte, TYPE_RAW);
    assert_eq!(raw.data, vec![SOF, b'A', b'b']);
}

#[test]
fn a_simple_exchange() {
    let mut c = client();
    let (mut x, wire) = c.get("c", 0);
    let sent = parse(&message_in(&wire)).unwrap();
    assert_eq!(sent.code, 1);
    assert_eq!(sent.msg_id, 0x0103);
    assert!(matches!(c.decide(&mut x, 0), Action::Wait));
    let others = c.receive(&mut x, &reply(2, 0x45, 0x0103, b"\xc1\x8c\xffhi"), 1);
    assert!(others.is_empty());
    assert!(matches!(c.decide(&mut x, 1), Action::Finished));
    let resp: Response = c.finish(x).unwrap();
    assert_eq!((resp.code_class, resp.code_detail), (2, 5));
    assert!(resp.is_success());
    assert_eq!(resp.content_format, Some(140));
    assert_eq!(resp.payload, b"hi");
}

#[test]
fn other_ids_and_other_frames_are_left_alone() {
    let mut c = client();
    let (mut x, _) = c.get("c", 0);
    let mut bytes = reply(2, 0x45, 0x0102, b"\xffno");
    bytes.extend(encode(ChecksumType::Internet, TRACE, b"trace"));
    let others = c.receive(&mut x, &bytes, 1);
    assert_eq!(others.len(), 1);
    assert_eq!(others[0].type_byte, TRACE);
    assert!(matches!(c.decide(&mut x, 1), Action::Wait));
}

#[test]
fn a_reset_ends_the_exchange() {
    let mut c = client();
    let (mut x, _) = c.delete("c", 0);
    c.receive(&mut x, &reply(3, 0, 0x0103, b""), 1);
    assert!(matches!(c.decide(&mut x, 1), Action::Finished));
    match c.finish(x) {
        Err(CoapError::Protocol(m)) => assert_eq!(m, "device sent RST"),
        other => panic!("{other:?}"),
    }
}

#[test]
fn silence_times_out_after_all_retransmits() {
    let mut c = client();
    let (mut x, first) = c.put("c", b"body", 0);
    let mut now = 0;
    let mut again = 0;
    loop {
        match c.decide(&mut x, now) {
            Action::Send(b) => {
                assert_eq!(b, first);
                again += 1;
            }
            Action::Wait => {}
            Action::Finished => break,
        }
        now += 100;
    }
    let e = c.finish(x).unwrap_err();
    assert!(matches!(e, CoapError::Timeout));
    assert_eq!(
        e.to_string(),
        format!("CoAP request timed out (no ACK after {again} retransmits)")
    );
}

#[test]
fn a_long_body_goes_in_blocks() {
    let mut c = client();
    c.set_block_size(16).unwrap();
    let body: Vec<u8> = (0..40).collect();
    let (mut x, first) = c.post("c", &body, 0);
    let mut got = Vec::new();
    let mut wire = first;
    for num in 0..3u32 {
        let sent = parse(&message_in(&wire)).unwrap();
        let block = sent.block1.unwrap();
        assert_eq!(block.num, num);
        assert_eq!(block.more, num < 2);
        got.extend_from_slice(&sent.payload);
        let code = if num < 2 { 0x5F } else { 0x44 };
        let value = Block { num, more: num < 2, szx: 0 }.encode_value() as u8;
        c.receive(&mut x, &reply(2, code, sent.msg_id, &[0xD1, 14, value]), 1);
        if num < 2 {
            wire = next(&c, &mut x, 1).unwrap();
        }
    }
    assert!(matches!(c.decide(&mut x, 1), Action::Finished));
    assert_eq!(c.finish(x).unwrap().code_detail, 4);
    assert_eq!(got, body);
}

#[test]
fn a_long_response_is_put_together() {
    let mut c = client();
    c.set_block_size(16).unwrap();
    let body: Vec<u8> = (0..20).collect();
    let (mut x, wire) = c.get("c", 0);
    let id = parse(&message_in(&wire)).unwrap().msg_id;
    let mut rest = vec![0xC1, 140, 0xB1, 0x08, 0xFF];
    rest.extend_from_slice(&body[..16]);
    c.receive(&mut x, &reply(2, 0x45, id, &rest), 1);
    let wire = next(&c, &mut x, 1).unwrap();
    let sent = parse(&message_in(&wire)).unwrap();
    assert_eq!(sent.block2, Some(Block { num: 1, more: false, szx: 0 }));
    assert_ne!(sent.msg_id, id);
    let mut rest = vec![0xC1, 140, 0xB1, 0x10, 0xFF];
    rest.extend_from_slice(&body[16..]);
    c.receive(&mut x, &reply(2, 0x45, sent.msg_id, &rest), 2);
    assert!(matches!(c.decide(&mut x, 2), Action::Finished));
    assert_eq!(c.finish(x).unwrap().payload, body);
}

#[test]
fn block_sizes_are_powers_of_two() {
    let mut c = client();
    assert!(c.set_block_size(1024).is_ok());
    assert!(c.set_block_size(100).is_err());
    assert_eq!(Block::szx_for_size(100), None);
}

#[test]
fn io_and_protocol_errors_are_shown() {
    assert_eq!(CoapError::Io("gone".to_string()).to_string(), "I/O error: gone");
    assert_eq!(CoapError::Protocol("odd".to_string()).to_string(), "protocol error: odd");
}

#[test]
fn devices_by_their_strings() {
    assert!(matches!(endpoint_of("/dev/ttyACM0"), Ok(Endpoint::Serial(p)) if p == "/dev/ttyACM0"));
    assert!(
        matches!(endpoint_of("termhub://h:4000"), Ok(Endpoint::Termhub(h, 4000)) if h == "h")
    );
    assert!(
        matches!(endpoint_of("telnet://::1:23"), Ok(Endpoint::Telnet(h, 23)) if h == "::1")
    );
    assert_eq!(
        split_host_port("nowhere").unwrap_err(),
        "\"nowhere\" isn't in the form host:port (e.g. localhost:10001)"
    );
    assert_eq!(
        split_host_port("h:70000").unwrap_err(),
        "\"h:70000\" doesn't have a valid port number after the ':' (e.g. localhost:10001)"
    );
}

#[test]
fn announcements_are_handed_out() {
    let mut line = Mup1Client::new(ChecksumType::Internet);
    let frames = line.poll(&encode(ChecksumType::Internet, ANNOUNCE, b"VelocitySP"), 0);
    assert_eq!(frames.len(), 1);
    assert_eq!(frames[0].type_byte, ANNOUNCE);
}

#[test]
fn frames_byte_by_byte() {
    assert_eq!(encode(ChecksumType::Internet, b'A', b""), b">A<<8582\r\n");
    assert_eq!(encode(ChecksumType::Internet, b'A', b"x"), b">Ax<4982\r\n");
    let wire = encode(ChecksumType::Crc32, b'C', b"abc");
    assert_eq!(&wire[..6], b">Cabc<");
    assert_eq!(base128_decode(&wire[6..11]), Some(0x3997_2e2c));
    assert_eq!(&wire[11..], b"\r\n");
}

#[test]
fn a_lone_carriage_return_behind_a_frame_is_kept() {
    let frame = [SOF, b'A', b'x', 0x3C, b'0', b'0', b'0', b'0'];
    let mut dec = Decoder::new(ChecksumType::Internet);
    for b in frame.iter().copied().chain([0x0D, b'Z']) {
        dec.inject(b);
    }
    let f = dec.get().unwrap();
    assert_eq!((f.type_byte, f.data), (b'A', b"x".to_vec()));
    let raw = dec.get().unwrap();
    assert_eq!((raw.type_byte, raw.data), (TYPE_RAW, vec![0x0D, b'Z']));
    assert!(dec.get().is_none());

    let mut dec = Decoder::new(ChecksumType::Internet);
    for b in frame.iter().copied().chain([0x0D]).chain(frame) {
        dec.inject(b);
    }
    assert_eq!(dec.get().unwrap().data, b"x");
    assert_eq!(dec.get().unwrap().data, b"x");
    assert_eq!(dec.get().unwrap().data, vec![0x0D]);

    let mut dec = Decoder::new(ChecksumType::Internet);
    for b in frame.iter().copied().chain([0x0D]) {
        dec.inject(b);
    }
    dec.get();
    assert!(!dec.tick(0).frame_ready);
    assert!(!dec.tick(499).frame_ready);
    assert!(dec.tick(500).frame_ready);
    assert_eq!(dec.get().unwrap().data, vec![0x0D]);
}

#[test]
fn a_new_attempt_is_waited_for() {
    let mut dec = Decoder::new(ChecksumType::Internet);
    for b in [SOF, b'X', b'A'] {
        dec.inject(b);
    }
    assert!(!dec.tick(0).frame_ready);
    for b in [0x3C, b'0', b'0', b'0', b'0'] {
        dec.inject(b);
    }
    assert_eq!(dec.get().unwrap().data, b"A");
    for b in [SOF, b'X', b'B'] {
        dec.inject(b);
    }
    assert!(!dec.tick(600).frame_ready);
    assert!(!dec.tick(1099).frame_ready);
    assert!(dec.tick(1100).frame_ready);
}

#[test]
fn silence_takes_its_time() {
    for gap in [1, 7, 3000, 10_000] {
        let mut c = client();
        let (mut x, first) = c.get("c", 0);
        let mut now = 0;
        let mut again = 0;
        loop {
            match c.decide(&mut x, now) {
                Action::Send(b) => {
                    assert_eq!(b, first);
                    again += 1;
                }
                Action::Wait => {}
                Action::Finished => break,
            }
            now += gap;
        }
        assert_eq!(again, 5);
        assert!(now >= 18_000 && now <= 18_000 + 6 * gap, "{now} at {gap}");
    }
}
