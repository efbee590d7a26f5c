//! What encoding and decoding of messages do to each other.
use vstd::prelude::*;
use vstd::utf8::encode_utf8;

use crate::bytes::{big_endian, bound, lemma_big_endian, lemma_stands_split, stands_at};
use crate::coap::message::{
    block_fits, block_of, block_option, block_value, extended_at, extension, method_code, msg_type,
    nibble, offered, option_bytes, options_at, options_bytes, parsed, payload_bytes, request_bytes,
    request_head, request_options, text_options, uint_bytes, uint_of, uint_option,
    uri_path, uri_query, with_option, Block, MessageView, MsgType, OptionView, RequestView,
    OPT_ACCEPT, OPT_BLOCK1, OPT_BLOCK2, OPT_CONTENT_FORMAT, OPT_URI_PATH, OPT_URI_QUERY,
    PAYLOAD_MARKER,
};
use crate::text::segments;
use crate::mup1::checksum::ChecksumType;
use crate::mup1::frame::{fetched, fresh, injected_all, wire, MAX_DATA_SIZE};
use crate::mup1::frame_type::COAP_LOWER;
use crate::mup1::laws::{law_decode_of_encode, law_frame_has_room};

verus! {

/// A block is got back from the number that it is written as.
pub proof fn law_block_round_trip(b: Block)
    requires
        block_fits(b),
    ensures
        block_of(block_value(b)) == b,
{
}

/// A number is got back from its shortest form.
pub proof fn law_uint_round_trip(val: int)
    requires
        0 <= val <= u32::MAX,
    ensures
        uint_of(uint_bytes(val)) == val,
{
    reveal_with_fuel(bound, 5);
    if val == 0 {
    } else if val <= 0xFF {
        lemma_big_endian(val as nat, 1);
    } else if val <= 0xFFFF {
        lemma_big_endian(val as nat, 2);
    } else if val <= 0xFF_FFFF {
        lemma_big_endian(val as nat, 3);
    } else {
        lemma_big_endian(val as nat, 4);
    }
}

/// A delta or length is got back from its bits and extension.
proof fn lemma_extended(msg: Seq<u8>, pos: int, n: int)
    requires
        0 <= n <= 0xFFFF,
        0 <= pos,
        pos + extension(n).len() <= msg.len(),
        msg.subrange(pos, pos + extension(n).len()) == extension(n),
    ensures
        extended_at(msg, pos, nibble(n)) == Some((n, pos + extension(n).len())),
        0 <= nibble(n) <= 14,
{
    let ext = extension(n);
    let found = msg.subrange(pos, pos + ext.len());
    reveal_with_fuel(big_endian, 3);
    if n >= 13 {
        assert(msg[pos] == found[0]);
        if n >= 269 {
            assert(msg[pos + 1] == found[1]);
        }
    }
}

/// The message `m` once all of `opts` have been taken in.
pub open spec fn with_options(m: MessageView, opts: Seq<OptionView>) -> MessageView
    decreases opts.len(),
{
    if opts.len() == 0 {
        m
    } else {
        with_options(
            with_option(m, opts[0].num as int, opts[0].value),
            opts.subrange(1, opts.len() as int),
        )
    }
}

/// Whether options are in the order of their numbers, from `prev` on, and
/// short enough for their length fields.
pub open spec fn writable(prev: u16, opts: Seq<OptionView>) -> bool
    decreases opts.len(),
{
    opts.len() > 0 ==> prev <= opts[0].num && opts[0].value.len() <= 0xFFFF && writable(
        opts[0].num,
        opts.subrange(1, opts.len() as int),
    )
}

/// An option that was written is read back.
proof fn lemma_option_read(msg: Seq<u8>, pos: int, prev: u16, opt: OptionView)
    requires
        prev <= opt.num,
        opt.value.len() <= 0xFFFF,
        stands_at(msg, pos, option_bytes(prev, opt)),
    ensures
        ({
            let delta = opt.num - prev;
            let len = opt.value.len() as int;
            let p2 = pos + 1 + extension(delta).len();
            let p3 = p2 + extension(len).len();
            &&& msg[pos] != PAYLOAD_MARKER
            &&& extended_at(msg, pos + 1, msg[pos] as int / 16) == Some((delta as int, p2))
            &&& extended_at(msg, p2, msg[pos] as int % 16) == Some((len, p3))
            &&& p3 + len <= msg.len()
            &&& msg.subrange(p3, p3 + len) == opt.value
            &&& p3 + len == pos + option_bytes(prev, opt).len()
        }),
{
    let delta = opt.num - prev;
    let len = opt.value.len() as int;
    assert(len % 0x1_0000 == len);
    let head = seq![(nibble(delta) * 16 + nibble(len)) as u8];
    lemma_stands_split(msg, pos, head + extension(delta) + extension(len), opt.value);
    lemma_stands_split(msg, pos, head + extension(delta), extension(len));
    lemma_stands_split(msg, pos, head, extension(delta));
    assert(msg[pos] == msg.subrange(pos, pos + 1)[0]);
    lemma_extended(msg, pos + 1, delta);
    lemma_extended(msg, pos + 1 + extension(delta).len(), len);
}

/// Options that were written are taken in, in order.
proof fn lemma_options_read(
    msg: Seq<u8>,
    pos: int,
    prev: u16,
    opts: Seq<OptionView>,
    payload: Seq<u8>,
    m: MessageView,
)
    requires
        writable(prev, opts),
        m.payload == Seq::<u8>::empty(),
        stands_at(msg, pos, options_bytes(prev, opts) + payload_bytes(payload)),
        msg.len() == pos + (options_bytes(prev, opts) + payload_bytes(payload)).len(),
    ensures
        options_at(msg, pos, prev as int, m) == Some(
            MessageView { payload, ..with_options(m, opts) },
        ),
    decreases opts.len(),
{
    if opts.len() == 0 {
        lemma_stands_split(msg, pos, options_bytes(prev, opts), payload_bytes(payload));
        if payload.len() > 0 {
            lemma_stands_split(msg, pos, seq![PAYLOAD_MARKER], payload);
            assert(msg[pos] == msg.subrange(pos, pos + 1)[0]);
        } else {
            assert(payload =~= Seq::empty());
        }
    } else {
        let opt = opts[0];
        let rest = opts.subrange(1, opts.len() as int);
        let one = option_bytes(prev, opt);
        let tail = options_bytes(opt.num, rest) + payload_bytes(payload);
        assert(options_bytes(prev, opts) + payload_bytes(payload) =~= one + tail);
        lemma_stands_split(msg, pos, one, tail);
        lemma_option_read(msg, pos, prev, opt);
        lemma_options_read(
            msg,
            pos + one.len(),
            opt.num,
            rest,
            payload,
            with_option(m, opt.num as int, opt.value),
        );
        assert((prev as int + (opt.num - prev)) % 0x1_0000 == opt.num);
    }
}

/// Whether each text fits the length field of an option.
pub open spec fn short_texts(parts: Seq<Seq<char>>) -> bool {
    forall|i: int| 0 <= i < parts.len() ==> encode_utf8(#[trigger] parts[i]).len() <= 0xFFFF
}

/// Options that nothing is kept of, put before others, change nothing.
proof fn lemma_skip_texts(num: u16, parts: Seq<Seq<char>>, more: Seq<OptionView>, m: MessageView)
    requires
        num == OPT_URI_PATH || num == OPT_URI_QUERY,
    ensures
        with_options(m, text_options(num, parts) + more) == with_options(m, more),
    decreases parts.len(),
{
    let opts = text_options(num, parts) + more;
    if parts.len() == 0 {
        assert(opts =~= more);
    } else {
        let rest = parts.subrange(1, parts.len() as int);
        assert(opts.subrange(1, opts.len() as int) =~= text_options(num, rest) + more);
        lemma_skip_texts(num, rest, more, m);
    }
}

proof fn lemma_texts_writable(
    prev: u16,
    num: u16,
    parts: Seq<Seq<char>>,
    more: Seq<OptionView>,
)
    requires
        prev <= num,
        short_texts(parts),
        writable(num, more),
        more.len() > 0 ==> num <= more[0].num,
    ensures
        writable(prev, text_options(num, parts) + more),
    decreases parts.len(),
{
    let opts = text_options(num, parts) + more;
    if parts.len() == 0 {
        assert(opts =~= more);
        if more.len() > 0 {
            assert(writable(prev, more));
        }
    } else {
        let rest = parts.subrange(1, parts.len() as int);
        assert forall|i: int| 0 <= i < rest.len() implies encode_utf8(#[trigger] rest[i]).len()
            <= 0xFFFF by {
            assert(rest[i] == parts[i + 1]);
        }
        assert(opts.subrange(1, opts.len() as int) =~= text_options(num, rest) + more);
        lemma_texts_writable(num, num, rest, more);
        assert(encode_utf8(parts[0]).len() <= 0xFFFF);
    }
}

proof fn lemma_uint_length(val: int)
    requires
        0 <= val <= u32::MAX,
    ensures
        uint_bytes(val).len() <= 4,
{
    reveal_with_fuel(bound, 5);
    if val == 0 {
    } else if val <= 0xFF {
        lemma_big_endian(val as nat, 1);
    } else if val <= 0xFFFF {
        lemma_big_endian(val as nat, 2);
    } else if val <= 0xFF_FFFF {
        lemma_big_endian(val as nat, 3);
    } else {
        lemma_big_endian(val as nat, 4);
    }
}

/// One option before others.
proof fn lemma_first(opt: OptionView, more: Seq<OptionView>, prev: u16, m: MessageView)
    requires
        prev <= opt.num,
        opt.value.len() <= 0xFFFF,
        writable(opt.num, more),
    ensures
        writable(prev, seq![opt] + more),
        with_options(m, seq![opt] + more) == with_options(
            with_option(m, opt.num as int, opt.value),
            more,
        ),
{
    let all = seq![opt] + more;
    assert(all.subrange(1, all.len() as int) =~= more);
}

/// The message before its options.
spec fn bare(p: RequestView) -> MessageView {
    MessageView {
        msg_type: MsgType::Con,
        code: method_code(p.method),
        msg_id: p.msg_id,
        content_format: None,
        block1: None,
        block2: None,
        payload: Seq::empty(),
    }
}

/// The options of a request from the content format on.
proof fn lemma_block_options(p: RequestView, m: MessageView)
    requires
        block_fits(p.block2),
        p.block1 matches Some(b) ==> block_fits(b),
        m.block1 is None,
        m.block2 is None,
    ensures
        ({
            let opts = uint_option(OPT_ACCEPT, p.accept) + (block_option(
                OPT_BLOCK2,
                Some(offered(p.block2)),
            ) + block_option(OPT_BLOCK1, p.block1));
            &&& writable(OPT_URI_QUERY, opts)
            &&& opts.len() > 0
            &&& opts[0].num >= OPT_URI_QUERY
            &&& with_options(m, opts) == MessageView {
                block1: p.block1,
                block2: Some(offered(p.block2)),
                ..m
            }
        }),
{
    let a4 = uint_option(OPT_ACCEPT, p.accept);
    let b2 = offered(p.block2);
    let a5 = block_option(OPT_BLOCK2, Some(b2));
    let a6 = block_option(OPT_BLOCK1, p.block1);
    let m2 = MessageView { block2: Some(b2), ..m };
    let m3 = MessageView { block1: p.block1, ..m2 };
    lemma_uint_length(block_value(b2));
    law_uint_round_trip(block_value(b2));
    law_block_round_trip(b2);
    match p.block1 {
        Some(b) => {
            lemma_uint_length(block_value(b));
            law_uint_round_trip(block_value(b));
            law_block_round_trip(b);
            lemma_first(a6[0], Seq::empty(), OPT_BLOCK2, m2);
            assert(a6 =~= seq![a6[0]] + Seq::empty());
        },
        None => {},
    }
    assert(writable(OPT_BLOCK2, a6));
    assert(with_options(m2, a6) == m3);
    lemma_first(a5[0], a6, OPT_ACCEPT, m);
    lemma_first(a5[0], a6, OPT_URI_QUERY, m);
    assert(a5 =~= seq![a5[0]]);
    match p.accept {
        Some(v) => {
            lemma_uint_length(v as int);
            lemma_first(a4[0], a5 + a6, OPT_URI_QUERY, m);
            assert(a4 =~= seq![a4[0]]);
        },
        None => {
            assert(a4 + (a5 + a6) =~= a5 + a6);
        },
    }
}

/// All options of a request.
proof fn lemma_request_options(p: RequestView)
    requires
        short_texts(segments(uri_path(p.uri), '/')),
        short_texts(segments(uri_query(p.uri), '&')),
        block_fits(p.block2),
        p.block1 matches Some(b) ==> block_fits(b),
    ensures
        writable(0, request_options(p)),
        with_options(bare(p), request_options(p)) == (MessageView {
            content_format: p.content_format,
            block1: p.block1,
            block2: Some(offered(p.block2)),
            ..bare(p)
        }),
{
    let m0 = bare(p);
    let m1 = MessageView { content_format: p.content_format, ..m0 };
    let paths = segments(uri_path(p.uri), '/');
    let queries = segments(uri_query(p.uri), '&');
    let a1 = text_options(OPT_URI_PATH, paths);
    let a2 = uint_option(OPT_CONTENT_FORMAT, p.content_format);
    let a3 = text_options(OPT_URI_QUERY, queries);
    let t4 = uint_option(OPT_ACCEPT, p.accept) + (block_option(
        OPT_BLOCK2,
        Some(offered(p.block2)),
    ) + block_option(OPT_BLOCK1, p.block1));
    lemma_block_options(p, m1);
    let t3 = a3 + t4;
    lemma_texts_writable(OPT_CONTENT_FORMAT, OPT_URI_QUERY, queries, t4);
    lemma_skip_texts(OPT_URI_QUERY, queries, t4, m1);
    let t2 = a2 + t3;
    match p.content_format {
        Some(v) => {
            lemma_uint_length(v as int);
            law_uint_round_trip(v as int);
            lemma_first(a2[0], t3, OPT_URI_PATH, m0);
            assert(a2 =~= seq![a2[0]]);
        },
        None => {
            assert(t2 =~= t3);
            lemma_texts_writable(OPT_URI_PATH, OPT_URI_QUERY, queries, t4);
        },
    }
    lemma_texts_writable(0, OPT_URI_PATH, paths, t2);
    lemma_skip_texts(OPT_URI_PATH, paths, t2, m0);
    assert(request_options(p) =~= a1 + t2);
}

/// A request that was encoded is decoded with its type, method, message id,
/// content format, blocks and payload, as long as each piece of its URI fits
/// an option.
#[verifier::rlimit(60)]
pub proof fn law_parse_of_encode(p: RequestView)
    requires
        short_texts(segments(uri_path(p.uri), '/')),
        short_texts(segments(uri_query(p.uri), '&')),
        block_fits(p.block2),
        p.block1 matches Some(b) ==> block_fits(b),
    ensures
        parsed(request_bytes(p)) == Some(
            MessageView {
                msg_type: MsgType::Con,
                code: method_code(p.method),
                msg_id: p.msg_id,
                content_format: p.content_format,
                block1: p.block1,
                block2: Some(offered(p.block2)),
                payload: p.payload,
            },
        ),
{
    let msg = request_bytes(p);
    let head = request_head(p);
    let rest = options_bytes(0, request_options(p)) + payload_bytes(p.payload);
    reveal_with_fuel(big_endian, 3);
    assert(head.len() == 5);
    assert(msg =~= head + rest);
    assert(msg[0] == head[0] && msg[1] == head[1] && msg[2] == head[2] && msg[3] == head[3]);
    assert(msg.subrange(5, msg.len() as int) =~= rest);
    lemma_request_options(p);
    lemma_options_read(msg, 5, 0, request_options(p), p.payload, bare(p));
}

/// A request that is put on a quiet line comes out at the other end as one
/// frame that holds it.
pub proof fn law_request_travels(t: ChecksumType, p: RequestView)
    requires
        short_texts(segments(uri_path(p.uri), '/')),
        short_texts(segments(uri_query(p.uri), '&')),
        block_fits(p.block2),
        p.block1 matches Some(b) ==> block_fits(b),
        request_bytes(p).len() <= MAX_DATA_SIZE,
    ensures
        ({
            let d = injected_all(fresh(t), wire(t, COAP_LOWER, request_bytes(p)));
            fetched(d).0 matches Some(f) && f.type_byte == COAP_LOWER && parsed(f.data) == Some(
                MessageView {
                    msg_type: MsgType::Con,
                    code: method_code(p.method),
                    msg_id: p.msg_id,
                    content_format: p.content_format,
                    block1: p.block1,
                    block2: Some(offered(p.block2)),
                    payload: p.payload,
                },
            )
        }),
{
    law_parse_of_encode(p);
    law_frame_has_room(t, COAP_LOWER, request_bytes(p));
    law_decode_of_encode(fresh(t), COAP_LOWER, request_bytes(p));
}

} // verus!
