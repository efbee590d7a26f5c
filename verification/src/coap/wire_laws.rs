//! The numbers that messages are made of.
use vstd::arithmetic::power2::{lemma2_to64, lemma_pow2_unfold};
use vstd::prelude::*;
use vstd::utf8::encode_utf8;

use crate::bytes::{big_endian, big_endian_value};
use crate::coap::client::{
    answered, begun, client_begun, decided, heard, heard_all, on_the_line, others,
    lemma_block_bytes, outgoing, ClientView, ErrorView, ExchangeView, SessionView,
};
use crate::coap::message::{
    block_bytes, block_fits, block_of, block_value, extended_at, extension, msg_type, nibble,
    offered, option_bytes, options_bytes, parsed, payload_bytes, request_bytes, request_head,
    request_options, uint_bytes, uint_of, uri_path, uri_query, with_option, Block, MessageView,
    Method, MsgType, OptionView, RequestView,
};
use crate::mup1::frame::{wire, FrameView};
use crate::text::{index_from, lemma_index_from, segments};

verus! {

/// A request begins with its version, its type and the length of its token in
/// one byte; the code of its method: 1 for GET, 2 for POST, 3 for PUT, 4 for
/// DELETE, 5 for FETCH, 7 for iPATCH; its id in two bytes, the high one first;
/// and its token.
pub proof fn law_request_header(p: RequestView)
    ensures
        ({
            let bytes = request_bytes(p);
            &&& bytes.len() >= 5
            &&& bytes[0] as int / 64 == 1
            &&& bytes[0] as int / 16 % 4 == 0
            &&& bytes[0] as int % 16 == 1
            &&& p.method == Method::Get ==> bytes[1] == 1
            &&& p.method == Method::Post ==> bytes[1] == 2
            &&& p.method == Method::Put ==> bytes[1] == 3
            &&& p.method == Method::Delete ==> bytes[1] == 4
            &&& p.method == Method::Fetch ==> bytes[1] == 5
            &&& p.method == Method::Ipatch ==> bytes[1] == 7
            &&& bytes[2] as int * 256 + bytes[3] as int == p.msg_id
            &&& bytes[4] == p.token
        }),
{
    reveal_with_fuel(big_endian, 3);
    let head = request_head(p);
    let rest = options_bytes(0, request_options(p)) + payload_bytes(p.payload);
    assert(request_bytes(p) =~= head + rest);
    assert(head.len() == 5);
}

/// The payload of a request stands at its end, behind a byte of all ones; one
/// without a payload has no such byte behind its options.
pub proof fn law_payload_goes_last(p: RequestView)
    ensures
        ({
            let bytes = request_bytes(p);
            let n = p.payload.len() as int;
            &&& n > 0 ==> bytes.len() > n && bytes.subrange(bytes.len() - n, bytes.len() as int)
                == p.payload && bytes[bytes.len() - n - 1] == 0xFF
            &&& n == 0 ==> bytes == request_head(p) + options_bytes(0, request_options(p))
        }),
{
    let bytes = request_bytes(p);
    let n = p.payload.len() as int;
    if n > 0 {
        assert(bytes.subrange(bytes.len() - n, bytes.len() as int) =~= p.payload);
    } else {
        assert(bytes =~= request_head(p) + options_bytes(0, request_options(p)));
    }
}

/// The number that four bits and the bytes behind them stand for: the bits up
/// to 12; with 13, one byte more than 13; with 14, two bytes more than 269.
pub open spec fn field_value(bits: int, ext: Seq<u8>) -> int {
    if bits == 13 {
        13 + ext[0]
    } else if bits == 14 {
        269 + ext[0] * 256 + ext[1]
    } else {
        bits
    }
}

/// The number of bytes behind four bits.
pub open spec fn field_size(bits: int) -> int {
    if bits == 13 {
        1
    } else if bits == 14 {
        2
    } else {
        0
    }
}

/// An option on the wire is one byte of two fields, the distance of its number
/// from the one before and the length of its value, then the bytes of these
/// fields, then the value.
pub proof fn law_options_on_the_wire(prev: u16, opt: OptionView)
    requires
        prev <= opt.num,
        opt.value.len() <= 0xFFFF,
    ensures
        ({
            let bytes = option_bytes(prev, opt);
            let d = bytes[0] as int / 16;
            let l = bytes[0] as int % 16;
            let p = 1 + field_size(d);
            let q = p + field_size(l);
            &&& bytes.len() == q + opt.value.len()
            &&& d < 15 && l < 15
            &&& field_value(d, bytes.subrange(1, p)) == opt.num - prev
            &&& field_value(l, bytes.subrange(p, q)) == opt.value.len()
            &&& bytes.subrange(q, bytes.len() as int) == opt.value
        }),
{
    reveal_with_fuel(big_endian, 3);
    let bytes = option_bytes(prev, opt);
    let delta = opt.num - prev;
    let len = opt.value.len() as int;
    assert(len % 0x1_0000 == len);
    let a = extension(delta);
    let b = extension(len);
    assert(bytes[0] == (nibble(delta) * 16 + nibble(len)) as u8);
    let p = 1 + a.len() as int;
    let q = p + b.len() as int;
    assert(bytes.subrange(1, p) =~= a);
    assert(bytes.subrange(p, q) =~= b);
    assert(bytes.subrange(q, bytes.len() as int) =~= opt.value);
}

/// A field of an option is read as the number that it stands for, modulo 2^16;
/// a field of all ones is none.
pub proof fn law_fields_are_read(msg: Seq<u8>, pos: int, bits: int)
    requires
        0 <= pos <= msg.len(),
        0 <= bits <= 15,
    ensures
        extended_at(msg, pos, bits) == (if bits == 15 || pos + field_size(bits) > msg.len() {
            None
        } else {
            Some(
                (
                    field_value(bits, msg.subrange(pos, pos + field_size(bits))) % 0x1_0000,
                    pos + field_size(bits),
                ),
            )
        }),
{
}

/// The options of a request: one with number 11 for each segment of the path,
/// one with number 12 for the content format, one with number 15 for each part
/// of the query, one with number 17 for the format that is accepted, one with
/// number 23 for the block that is asked for, and one with number 27 for the
/// block that is sent.
pub proof fn law_options_by_number(p: RequestView, i: int)
    requires
        0 <= i < request_options(p).len(),
    ensures
        ({
            let paths = segments(uri_path(p.uri), '/');
            let queries = segments(uri_query(p.uri), '&');
            let format: int = if p.content_format is Some {
                1
            } else {
                0
            };
            let accept: int = if p.accept is Some {
                1
            } else {
                0
            };
            let a = paths.len() as int;
            let b = a + format;
            let c = b + queries.len();
            let d = c + accept;
            let o = request_options(p)[i];
            &&& request_options(p).len() == d + 1 + (if p.block1 is Some {
                1int
            } else {
                0int
            })
            &&& i < a ==> o.num == 11 && o.value == encode_utf8(paths[i])
            &&& a <= i < b ==> o.num == 12 && uint_of(o.value) == p.content_format->0
            &&& b <= i < c ==> o.num == 15 && o.value == encode_utf8(queries[i - b])
            &&& c <= i < d ==> o.num == 17 && uint_of(o.value) == p.accept->0
            &&& i == d && block_fits(p.block2) ==> o.num == 23 && uint_of(o.value) == p.block2.num
                * 16 + p.block2.szx
            &&& i > d && block_fits(p.block1->0) ==> o.num == 27 && uint_of(o.value)
                == p.block1->0.num * 16 + (if p.block1->0.more {
                8int
            } else {
                0int
            }) + p.block1->0.szx
        }),
{
    let o = request_options(p)[i];
    if let Some(f) = p.content_format {
        crate::coap::laws::law_uint_round_trip(f as int);
    }
    if let Some(f) = p.accept {
        crate::coap::laws::law_uint_round_trip(f as int);
    }
    let v = block_value(offered(p.block2));
    crate::coap::laws::law_uint_round_trip(v);
    if let Some(b) = p.block1 {
        crate::coap::laws::law_uint_round_trip(block_value(b));
    }
}

/// A number in an option is written with its high byte first and without any
/// byte of zero in front, and read in the same way.
pub proof fn law_numbers_in_options(v: int)
    requires
        0 <= v <= u32::MAX,
    ensures
        ({
            let b = uint_bytes(v);
            &&& b.len() <= 4
            &&& v == 0 <==> b.len() == 0
            &&& b.len() > 0 ==> b[0] != 0
            &&& b.len() == 1 ==> v == b[0]
            &&& b.len() == 2 ==> v == b[0] * 0x100 + b[1]
            &&& b.len() == 3 ==> v == b[0] * 0x1_0000 + b[1] * 0x100 + b[2]
            &&& b.len() == 4 ==> v == b[0] * 0x100_0000 + b[1] * 0x1_0000 + b[2] * 0x100 + b[3]
            &&& uint_of(b) == v
        }),
{
    reveal_with_fuel(big_endian, 5);
    crate::coap::laws::law_uint_round_trip(v);
}

/// The path of a URI is what stands before the first question mark, without a
/// slash in front, and its query is what stands behind.
pub proof fn law_path_and_query(path: Seq<char>, query: Seq<char>)
    requires
        !path.contains('?'),
        path.len() > 0 ==> path[0] != '/',
    ensures
        uri_path(path) == path,
        uri_query(path) == Seq::<char>::empty(),
        uri_path(path + seq!['?'] + query) == path,
        uri_query(path + seq!['?'] + query) == query,
        uri_path(seq!['/'] + path) == path,
        uri_path(seq!['/'] + path + seq!['?'] + query) == path,
        uri_query(seq!['/'] + path + seq!['?'] + query) == query,
{
    let n = path.len() as int;
    lemma_mark(path, n, false);
    assert(path.subrange(0, n) =~= path);
    let a = path + seq!['?'] + query;
    lemma_mark(a, n, true);
    assert(a.subrange(0, n) =~= path);
    assert(a.subrange(n + 1, a.len() as int) =~= query);
    let b = seq!['/'] + path;
    assert forall|k: int| 0 <= k < n + 1 implies b[k] != '?' by {
        if k > 0 {
            assert(b[k] == path[k - 1]);
        }
    }
    lemma_mark(b, n + 1, false);
    assert(b.subrange(0, n + 1) =~= b);
    assert(b.subrange(1, n + 1) =~= path);
    let c = seq!['/'] + path + seq!['?'] + query;
    assert forall|k: int| 0 <= k < n + 1 implies c[k] != '?' by {
        if k > 0 {
            assert(c[k] == path[k - 1]);
        }
    }
    lemma_mark(c, n + 1, true);
    assert(c.subrange(0, n + 1) =~= b);
    assert(c.subrange(n + 2, c.len() as int) =~= query);
}

/// The first question mark stands where none is before it.
proof fn lemma_mark(t: Seq<char>, n: int, there: bool)
    requires
        0 <= n <= t.len(),
        there ==> n < t.len() && t[n] == '?',
        !there ==> n == t.len(),
        forall|k: int| 0 <= k < n ==> t[k] != '?',
    ensures
        index_from(t, '?', 0) == n,
{
    lemma_index_from(t, '?', 0);
    let i = index_from(t, '?', 0);
    if i < n {
        assert(t[i] != '?');
    }
}

/// Blocks of size exponent nought have 16 bytes, and each further one doubles
/// the size.
pub proof fn law_block_sizes(szx: int)
    requires
        0 <= szx,
    ensures
        block_bytes(0) == 16,
        block_bytes(szx + 1) == 2 * block_bytes(szx),
{
    lemma2_to64();
    lemma_pow2_unfold((szx + 5) as nat);
}

/// The number of a block option is that of the block times 16, with 8 more if
/// blocks follow, and the size exponent.
pub proof fn law_block_numbers(b: Block, raw: int)
    requires
        block_fits(b),
        0 <= raw <= u32::MAX,
    ensures
        block_value(b) == b.num * 16 + (if b.more {
            8int
        } else {
            0int
        }) + b.szx,
        block_of(raw).num == raw / 16,
        block_of(raw).more <==> raw % 16 >= 8,
        block_of(raw).szx == raw % 8,
{
}

/// The header of a message that is received: the type in the third and fourth
/// highest bits of the first byte, 0 to 3 for confirmable, not confirmable,
/// acknowledgement and reset; the code in the second byte; the id in the next
/// two, the high one first.
pub proof fn law_received_header(msg: Seq<u8>, m: MessageView)
    requires
        parsed(msg) == Some(m),
    ensures
        msg.len() >= 4 + msg[0] as int % 16,
        msg[0] as int / 64 == 1,
        msg[0] as int % 16 <= 8,
        m.code == msg[1],
        m.msg_id == msg[2] * 256 + msg[3],
        m.msg_type == MsgType::Con <==> msg[0] as int / 16 % 4 == 0,
        m.msg_type == MsgType::Non <==> msg[0] as int / 16 % 4 == 1,
        m.msg_type == MsgType::Ack <==> msg[0] as int / 16 % 4 == 2,
        m.msg_type == MsgType::Rst <==> msg[0] as int / 16 % 4 == 3,
{
    let t = msg[0] as int % 16;
    lemma_options_keep(
        msg,
        4 + t,
        0,
        MessageView {
            msg_type: msg_type(msg[0] as int / 16),
            code: msg[1],
            msg_id: (msg[2] as int * 256 + msg[3]) as u16,
            content_format: None,
            block1: None,
            block2: None,
            payload: Seq::empty(),
        },
    );
}

/// Options change nothing in the header.
proof fn lemma_options_keep(msg: Seq<u8>, pos: int, prev: int, m: MessageView)
    ensures
        crate::coap::message::options_at(msg, pos, prev, m) matches Some(r) ==> r.msg_type
            == m.msg_type && r.code == m.code && r.msg_id == m.msg_id,
    decreases msg.len() - pos,
{
    if pos < msg.len() && msg[pos] != 0xFF {
        match extended_at(msg, pos + 1, msg[pos] as int / 16) {
            Some((delta, p)) => match extended_at(msg, p, msg[pos] as int % 16) {
                Some((len, q)) => {
                    if q + len <= msg.len() {
                        let num = (prev + delta) % 0x1_0000;
                        lemma_options_keep(
                            msg,
                            q + len,
                            num,
                            with_option(m, num, msg.subrange(q, q + len)),
                        );
                    }
                },
                None => {},
            },
            None => {},
        }
    }
}

/// Of the options of a message that is received, number 12 is the content
/// format, number 23 the block of the response and number 27 the block of the
/// request; others are passed over.
pub proof fn law_received_options(m: MessageView, num: int, val: Seq<u8>)
    requires
        val.len() <= 4,
    ensures
        ({
            let r = with_option(m, num, val);
            let n = big_endian_value(val) as int;
            &&& num == 12 && n <= 0xFFFF ==> r == (MessageView { content_format: Some(n as u16), ..m })
            &&& num == 23 ==> r == (MessageView { block2: Some(block_of(n)), ..m })
            &&& num == 27 ==> r == (MessageView { block1: Some(block_of(n)), ..m })
            &&& num != 12 && num != 23 && num != 27 ==> r == m
        }),
{
}

/// What an exchange sends: its method, path and formats; the part of the body
/// that begins at the number of the block times its size and is at most one
/// block long; a Block1 option exactly if the body takes more than one block,
/// which says whether bytes are left behind this block.
pub proof fn law_what_is_sent(x: ExchangeView)
    requires
        x.session.block1_szx < 8,
        x.session.block1_num * block_bytes(x.session.block1_szx as int) < x.req_payload.len(),
        !x.session.req_payload_cleared,
    ensures
        ({
            let size = block_bytes(x.session.block1_szx as int);
            let from = x.session.block1_num * size;
            let left = x.req_payload.len() - from;
            let p = outgoing(x);
            &&& p.method == x.method && p.uri == x.uri && p.content_format == x.content_format
                && p.accept == x.accept && p.token == x.token && p.msg_id == x.session.msg_id
            &&& left <= size ==> p.payload == x.req_payload.subrange(
                from,
                x.req_payload.len() as int,
            )
            &&& left > size ==> p.payload == x.req_payload.subrange(from, from + size)
            &&& p.block1 is Some <==> x.req_payload.len() > size || x.session.block1_num > 0
            &&& p.block1 matches Some(b) ==> b.num == x.session.block1_num && b.szx
                == x.session.block1_szx && (b.more <==> left > size)
            &&& p.block2.num == x.session.block2_num && p.block2.szx == x.session.block2_szx
        }),
{
    lemma_block_bytes(x.session.block1_szx as int);
    let size = block_bytes(x.session.block1_szx as int);
    let from = x.session.block1_num * size;
    assert(0 <= from) by (nonlinear_arith)
        requires
            from == x.session.block1_num * size,
            size >= 16,
            x.session.block1_num >= 0,
    ;
}

/// Once a response comes in blocks, the body of the request is not sent again.
pub proof fn law_asking_on_takes_no_body(x: ExchangeView)
    requires
        x.session.req_payload_cleared,
    ensures
        outgoing(x).payload == Seq::<u8>::empty(),
        outgoing(x).block1 is None,
{
}

/// What a reply does: while blocks of the response follow, the next one is
/// asked for; a 2.31, which is code 95, asks for the next block of the request,
/// if there is one; any other reply ends the exchange. The code and the content
/// format of the reply are kept, and its payload goes behind what came before.
pub proof fn law_what_a_reply_does(s: SessionView, m: MessageView)
    ensures
        ({
            let t = answered(s, m);
            let more = m.block2 matches Some(b) && b.more;
            let next = (s.block1_num + 1) * block_bytes(m.block1->0.szx as int);
            &&& t.resp_code == m.code
            &&& t.resp_content_format == m.content_format
            &&& t.resp_payload == s.resp_payload + m.payload
            &&& t.req_payload_size == s.req_payload_size
            &&& more && m.block2->0.num < u32::MAX ==> t.need_resend && t.block2_num
                == m.block2->0.num + 1 && t.block2_szx == m.block2->0.szx && t.req_payload_cleared
                && t.done == s.done && t.error == s.error && t.block1_num == s.block1_num
            &&& !more && m.code == 95 && m.block1 is Some && next < s.req_payload_size
                && s.block1_num < u32::MAX ==> t.need_resend && t.block1_num == s.block1_num + 1
                && t.block1_szx == m.block1->0.szx && t.done == s.done && t.error == s.error
                && t.block2_num == s.block2_num && t.req_payload_cleared == s.req_payload_cleared
            &&& !more && m.code == 95 && m.block1 is Some && next >= s.req_payload_size ==> t.done
                && t.error is Some && t.need_resend == s.need_resend
            &&& !more && !(m.code == 95 && m.block1 is Some) ==> t.done && t.error == s.error
                && t.need_resend == s.need_resend && t.msg_id == s.msg_id
            &&& t.need_resend && !s.need_resend ==> t.msg_id == (s.msg_id + 1) % 0x1_0000
        }),
{
}

/// Only frames of type `c` or `C` carry messages. Of these, only an
/// acknowledgement with the id of the request is a reply, and a reset with it
/// ends the exchange with an error.
pub proof fn law_what_is_heard(s: SessionView, f: FrameView)
    ensures
        ({
            let is_message = f.type_byte == 0x63 || f.type_byte == 0x43;
            match parsed(f.data) {
                Some(m) => {
                    let ours = is_message && m.msg_id == s.msg_id;
                    &&& ours && m.msg_type == MsgType::Ack ==> heard(s, f) == answered(s, m)
                    &&& ours && m.msg_type == MsgType::Rst ==> heard(s, f).done && heard(
                        s,
                        f,
                    ).error is Some && heard(s, f).resp_payload == s.resp_payload
                    &&& !ours || m.msg_type == MsgType::Con || m.msg_type == MsgType::Non ==> heard(
                        s,
                        f,
                    ) == s
                },
                None => heard(s, f) == s,
            }
        }),
{
}

/// A request begins with the first block under the next id and the next token,
/// with blocks of the size of the client, and is sent again after three seconds
/// without a reply.
pub proof fn law_how_a_request_begins(
    c: ClientView,
    method: Method,
    uri: Seq<char>,
    content_format: Option<u16>,
    accept: Option<u16>,
    body: Seq<u8>,
    now_ms: u64,
)
    requires
        c.block_size == 16 || c.block_size == 32 || c.block_size == 64 || c.block_size == 128
            || c.block_size == 256 || c.block_size == 512 || c.block_size == 1024,
        now_ms + 3000 <= u64::MAX,
    ensures
        ({
            let x = begun(c, method, uri, content_format, accept, body, now_ms);
            let p = outgoing(x);
            &&& p.method == method && p.uri == uri && p.content_format == content_format
                && p.accept == accept
            &&& p.msg_id == (c.msg_id + 1) % 0x1_0000
            &&& p.token == (c.token + 1) % 0x100
            &&& p.block2 == (Block { num: 0, more: false, szx: p.block2.szx })
            &&& block_bytes(p.block2.szx as int) == c.block_size
            &&& body.len() <= c.block_size ==> p.payload == body && p.block1 is None
            &&& body.len() > c.block_size ==> p.payload == body.subrange(0, c.block_size as int)
                && p.block1 == Some(Block { num: 0, more: true, szx: p.block2.szx })
            &&& x.retransmit_deadline == now_ms + 3000
            &&& x.retransmit_count == 0
            &&& !x.session.done && x.session.error is None && !x.session.need_resend
            &&& x.session.resp_payload.len() == 0
        }),
{
    lemma2_to64();
    let x = begun(c, method, uri, content_format, accept, body, now_ms);
    let szx = x.session.block1_szx as int;
    assert(block_bytes(szx) == c.block_size);
    assert(0 * block_bytes(szx) == 0) by (nonlinear_arith);
    if body.len() <= c.block_size {
        assert(body.subrange(0, body.len() as int) =~= body);
    }
}

/// What an exchange asks for: nothing more once there is an error; the next
/// message at once where one is to be sent; nothing more once it is done; the
/// same message again when its time is up, at most five times, three seconds
/// apart; and to wait otherwise.
pub proof fn law_what_is_decided(x: ExchangeView, now_ms: u64)
    requires
        now_ms + 3000 <= u64::MAX,
    ensures
        ({
            let (step, y) = decided(x, now_ms);
            let quiet = x.session.error is None && !x.session.need_resend && !x.session.done;
            &&& x.session.error is Some ==> step is Finished && y == x
            &&& x.session.error is None && x.session.need_resend ==> step is Send
                && y.retransmit_count == 0 && y.retransmit_deadline == now_ms + 3000
                && !y.session.need_resend && outgoing(y) == outgoing(x)
            &&& x.session.error is None && !x.session.need_resend && x.session.done ==> step
                is Finished && y == x
            &&& quiet && now_ms < x.retransmit_deadline ==> step is Wait && y == x
            &&& quiet && now_ms >= x.retransmit_deadline && x.retransmit_count < 5 ==> step is Send
                && y.retransmit_count == x.retransmit_count + 1 && y.retransmit_deadline == now_ms
                + 3000 && y.session == x.session && outgoing(y) == outgoing(x)
            &&& quiet && now_ms >= x.retransmit_deadline && x.retransmit_count >= 5 ==> step
                is Finished && y.session.error == Some(ErrorView::Timeout)
        }),
{
}

/// What is sent goes on the line in a frame of type `c` with the checksum of the
/// line.
pub proof fn law_requests_go_in_frames(c: ClientView, x: ExchangeView)
    ensures
        on_the_line(c, x) == wire(c.line.checksum_type, 0x63, request_bytes(outgoing(x))),
{
}

/// A client uses the ids and tokens one after the other.
pub proof fn law_clients_count_on(
    c: ClientView,
    method: Method,
    uri: Seq<char>,
    content_format: Option<u16>,
    accept: Option<u16>,
    body: Seq<u8>,
    now_ms: u64,
)
    ensures
        ({
            let x = begun(c, method, uri, content_format, accept, body, now_ms);
            let e = client_begun(c);
            &&& e.msg_id == (c.msg_id + 1) % 0x1_0000 && e.token == (c.token + 1) % 0x100
            &&& x.session.msg_id == e.msg_id && x.token == e.token
            &&& e.block_size == c.block_size && e.line == c.line
        }),
{
}

/// Frames that carry no message are handed on, in their order, and no others.
pub proof fn law_other_frames_are_handed_on(frames: Seq<FrameView>)
    ensures
        others(frames) == frames.filter(|f: FrameView| f.type_byte != 0x63 && f.type_byte != 0x43),
    decreases frames.len(),
{
    reveal(Seq::filter);
    let keep = |f: FrameView| f.type_byte != 0x63 && f.type_byte != 0x43;
    if frames.len() > 0 {
        law_other_frames_are_handed_on(frames.drop_last());
    }
    assert(others(frames) =~= frames.filter(keep));
}

/// Frames are heard one after the other.
pub proof fn law_frames_are_heard_in_order(
    s: SessionView,
    a: Seq<FrameView>,
    b: Seq<FrameView>,
)
    ensures
        heard_all(s, a + b) == heard_all(heard_all(s, a), b),
        a.len() == 1 ==> heard_all(s, a) == heard(s, a[0]),
    decreases b.len(),
{
    if b.len() == 0 {
        assert(a + b =~= a);
    } else {
        assert((a + b).drop_last() =~= a + b.drop_last());
        law_frames_are_heard_in_order(s, a, b.drop_last());
    }
    if a.len() == 1 {
        assert(a.drop_last() =~= Seq::empty());
        assert(heard_all(s, a.drop_last()) == s);
    }
}

} // verus!
