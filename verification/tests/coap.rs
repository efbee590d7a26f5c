use rcc::coap::message::{encode_request, parse, Block, Method, MsgType, RequestParams, PAYLOAD_MARKER};

#[test]
fn encodes_a_simple_get_with_uri_path_and_query() {
    let block2 = Block { num: 0, more: false, szx: 4 };
    let wire = encode_request(&RequestParams {
        method: Method::Get,
        msg_id: 0x1234,
        token: 7,
        uri: "c?c=c",
        content_format: None,
        accept: None,
        block1: None,
        block2,
        payload: &[],
    });
    assert_eq!(wire[0], (1 << 6) | (0 << 4) | 1);
    assert_eq!(wire[1], Method::Get.code());
    assert_eq!(&wire[2..4], &[0x12, 0x34]);
    assert_eq!(wire[4], 7);
    assert_eq!(wire[5], (11 << 4) | 1);
    assert_eq!(wire[6], b'c');
    assert_eq!(wire[7], (4 << 4) | 3);
    assert_eq!(&wire[8..11], b"c=c");
    assert_eq!(wire[11], (8 << 4) | 1);
    assert_eq!(wire[12], 4);
}

#[test]
fn round_trips_response_with_content_format_and_block2() {
    let mut msg = vec![(1 << 6) | (2 << 4) | 1, (2 << 5) | 5, 0xAB, 0xCD, 9];
    msg.push((12 << 4) | 2);
    msg.extend_from_slice(&140u16.to_be_bytes());
    msg.push((11 << 4) | 1);
    msg.push(0x14);
    msg.push(PAYLOAD_MARKER);
    msg.extend_from_slice(b"hi");

    let parsed = parse(&msg).expect("parses");
    assert_eq!(parsed.msg_type, MsgType::Ack);
    assert_eq!(parsed.code, (2 << 5) | 5);
    assert_eq!(parsed.msg_id, 0xABCD);
    assert_eq!(parsed.content_format, Some(140));
    assert_eq!(parsed.block2, Some(Block { num: 1, more: false, szx: 4 }));
    assert_eq!(parsed.payload, b"hi");
}

#[test]
fn block_size_round_trips_through_szx() {
    for size in [16u32, 32, 64, 128, 256, 512, 1024] {
        let szx = Block::szx_for_size(size).unwrap();
        let block = Block { num: 3, more: true, szx };
        assert_eq!(block.size(), size);
        assert_eq!(Block::decode_value(block.encode_value()), block);
    }
}
