//! Requests and their responses: blockwise transfer, retransmission and the
//! matching of replies. The one who holds the line sends what this says and
//! hands back what was received.
use vstd::arithmetic::power2::{lemma2_to64, lemma_pow2_strictly_increases};
use vstd::prelude::*;

use crate::coap::content_format::{
    YANG_DATA_CBOR, YANG_IDENTIFIERS_CBOR, YANG_INSTANCES_CBOR,
};
use crate::coap::message::{
    block_bytes, blocks_fit, code_class, code_detail, encode_request, parse, parsed, request_bytes,
    Block, MessageView, Method, MsgType, ParsedMessage, RequestParams, RequestView,
    RESPONSE_CONTINUE,
};
use crate::mup1::client::{drained, frame_views, pending, Mup1Client};
use crate::mup1::frame::{injected_all, ticked, wire, DecoderView, Frame, FrameView};
use crate::mup1::frame_type::{COAP_LOWER, COAP_UPPER};
use crate::text::{cat, owned};

verus! {

/// Block size of a new client.
pub const DEFAULT_BLOCK_SIZE: u32 = 256;

/// How long to wait for a reply before sending again.
pub const RETRANSMIT_MS: u64 = 3000;

/// How often to send again before giving up.
pub const MAX_RETRANSMIT: u32 = 5;

/// The response to a request.
#[derive(Debug)]
pub struct Response {
    pub code_class: u8,
    pub code_detail: u8,
    pub content_format: Option<u16>,
    pub payload: Vec<u8>,
}

impl Response {
    /// Whether the code is of class 2.
    pub fn is_success(&self) -> (r: bool)
        ensures
            r == (self.code_class == 2),
    {
        self.code_class == 2
    }
}

/// Why a request failed.
#[derive(Debug)]
pub enum CoapError {
    /// No reply came.
    Timeout,
    /// The line failed.
    Io(String),
    /// The device broke the protocol.
    Protocol(String),
}

/// What a [`CoapError`] stands for.
#[verifier::ext_equal]
pub enum ErrorView {
    Timeout,
    Io(Seq<char>),
    Protocol(Seq<char>),
}

impl View for CoapError {
    type V = ErrorView;

    open spec fn view(&self) -> ErrorView {
        match self {
            CoapError::Timeout => ErrorView::Timeout,
            CoapError::Io(e) => ErrorView::Io(e@),
            CoapError::Protocol(e) => ErrorView::Protocol(e@),
        }
    }
}

impl CoapError {
    /// The message for a person.
    pub fn to_string(&self) -> (r: String)
        ensures
            r@ == match self@ {
                ErrorView::Timeout => "CoAP request timed out (no ACK after 5 retransmits)"@,
                ErrorView::Io(e) => "I/O error: "@ + e,
                ErrorView::Protocol(e) => "protocol error: "@ + e,
            },
    {
        match self {
            CoapError::Timeout => owned("CoAP request timed out (no ACK after 5 retransmits)"),
            CoapError::Io(e) => cat("I/O error: ", e.as_str()),
            CoapError::Protocol(e) => cat("protocol error: ", e.as_str()),
        }
    }
}

/// Where a transfer stands.
#[derive(Debug)]
pub struct Session {
    pub block1_num: u32,
    pub block1_szx: u8,
    pub block2_num: u32,
    pub block2_szx: u8,
    pub msg_id: u16,
    /// Once the response comes in blocks, the request body is not sent
    /// again: asking for the next block takes none.
    pub req_payload_cleared: bool,
    pub resp_payload: Vec<u8>,
    pub resp_content_format: Option<u16>,
    pub resp_code: u8,
    pub req_payload_size: usize,
    pub done: bool,
    pub error: Option<CoapError>,
    pub need_resend: bool,
}

/// What a [`Session`] stands for.
#[verifier::ext_equal]
pub struct SessionView {
    pub block1_num: u32,
    pub block1_szx: u8,
    pub block2_num: u32,
    pub block2_szx: u8,
    pub msg_id: u16,
    pub req_payload_cleared: bool,
    pub resp_payload: Seq<u8>,
    pub resp_content_format: Option<u16>,
    pub resp_code: u8,
    pub req_payload_size: int,
    pub done: bool,
    pub error: Option<ErrorView>,
    pub need_resend: bool,
}

/// The error that a session ended with.
pub open spec fn error_view(e: Option<CoapError>) -> Option<ErrorView> {
    match e {
        Some(e) => Some(e@),
        None => None,
    }
}

impl View for Session {
    type V = SessionView;

    open spec fn view(&self) -> SessionView {
        SessionView {
            block1_num: self.block1_num,
            block1_szx: self.block1_szx,
            block2_num: self.block2_num,
            block2_szx: self.block2_szx,
            msg_id: self.msg_id,
            req_payload_cleared: self.req_payload_cleared,
            resp_payload: self.resp_payload@,
            resp_content_format: self.resp_content_format,
            resp_code: self.resp_code,
            req_payload_size: self.req_payload_size as int,
            done: self.done,
            error: error_view(self.error),
            need_resend: self.need_resend,
        }
    }
}

/// What holds of a session throughout: the next block to upload lies within
/// the request body.
pub open spec fn session_ok(s: SessionView) -> bool {
    &&& s.block1_szx < 8
    &&& s.block2_szx < 8
    &&& 0 <= s.req_payload_size <= u32::MAX
    &&& if s.req_payload_size > 0 {
        s.block1_num * block_bytes(s.block1_szx as int) < s.req_payload_size
    } else {
        s.block1_num == 0
    }
}

/// The next message id.
pub open spec fn next_id(id: u16) -> u16 {
    ((id + 1) % 0x1_0000) as u16
}

/// The session after a response message with its id.
pub open spec fn answered(s: SessionView, m: MessageView) -> SessionView {
    let t = SessionView {
        resp_code: m.code,
        resp_content_format: m.content_format,
        resp_payload: s.resp_payload + m.payload,
        ..s
    };
    if m.block2 is Some && m.block2->0.more {
        SessionView {
            block2_num: (m.block2->0.num + 1) as u32,
            block2_szx: m.block2->0.szx,
            msg_id: next_id(s.msg_id),
            req_payload_cleared: true,
            need_resend: true,
            ..t
        }
    } else if m.code == RESPONSE_CONTINUE && m.block1 is Some {
        if (s.block1_num + 1) * block_bytes(m.block1->0.szx as int) >= s.req_payload_size {
            SessionView {
                error: Some(
                    ErrorView::Protocol(
                        "server sent a spurious 2.31 Continue past the end of the request body"@,
                    ),
                ),
                done: true,
                ..t
            }
        } else {
            SessionView {
                block1_szx: m.block1->0.szx,
                block1_num: (s.block1_num + 1) as u32,
                msg_id: next_id(s.msg_id),
                need_resend: true,
                ..t
            }
        }
    } else {
        SessionView { done: true, ..t }
    }
}

/// Whether a frame carries a message.
pub open spec fn carries_message(f: FrameView) -> bool {
    f.type_byte == COAP_LOWER || f.type_byte == COAP_UPPER
}

/// The session after a frame. Only messages with the id of the request
/// count, and of these only resets and acknowledgements.
pub open spec fn heard(s: SessionView, f: FrameView) -> SessionView {
    if !carries_message(f) {
        s
    } else {
        match parsed(f.data) {
            None => s,
            Some(m) => if m.msg_id != s.msg_id {
                s
            } else if m.msg_type == MsgType::Rst {
                SessionView {
                    error: Some(ErrorView::Protocol("device sent RST"@)),
                    done: true,
                    ..s
                }
            } else if m.msg_type == MsgType::Ack {
                answered(s, m)
            } else {
                s
            },
        }
    }
}

/// The session after some frames.
pub open spec fn heard_all(s: SessionView, frames: Seq<FrameView>) -> SessionView
    decreases frames.len(),
{
    if frames.len() == 0 {
        s
    } else {
        heard(heard_all(s, frames.drop_last()), frames.last())
    }
}

/// A block size of at least 16 and at most 2048.
pub proof fn lemma_block_bytes(szx: int)
    requires
        0 <= szx < 8,
    ensures
        16 <= block_bytes(szx) <= 2048,
{
    lemma2_to64();
    if szx > 0 {
        lemma_pow2_strictly_increases(4, (szx + 4) as nat);
    }
    if szx < 7 {
        lemma_pow2_strictly_increases((szx + 4) as nat, 11);
    }
}

/// A session stays as it must be.
pub proof fn law_session_stays_ok(s: SessionView, f: FrameView)
    requires
        session_ok(s),
        parsed(f.data) matches Some(m) ==> blocks_fit(m),
    ensures
        session_ok(heard(s, f)),
        heard(s, f).req_payload_size == s.req_payload_size,
{
    match parsed(f.data) {
        Some(m) => {
            if m.block1 is Some {
                lemma_block_bytes(m.block1->0.szx as int);
                let num = s.block1_num + 1;
                let size = block_bytes(m.block1->0.szx as int);
                if num * size < s.req_payload_size {
                    assert(num <= num * size) by (nonlinear_arith)
                        requires
                            num >= 0,
                            size >= 16,
                    ;
                }
            }
        },
        None => {},
    }
}

/// Takes in a response message with the id of the request.
pub fn process_response(session: &mut Session, parsed: &ParsedMessage)
    requires
        old(session).req_payload_size <= u32::MAX,
        blocks_fit(parsed@),
    ensures
        final(session)@ == answered(old(session)@, parsed@),
{
    let ghost before = session@;
    session.resp_code = parsed.code;
    session.resp_content_format = parsed.content_format;
    session.resp_payload.extend_from_slice(parsed.payload.as_slice());
    assert(session.resp_payload@ =~= before.resp_payload + parsed.payload@);
    if let Some(b2) = parsed.block2 {
        if b2.more {
            session.block2_num = b2.num + 1;
            session.block2_szx = b2.szx;
            session.msg_id = session.msg_id.wrapping_add(1);
            session.req_payload_cleared = true;
            session.need_resend = true;
            return;
        }
    }
    if parsed.code == RESPONSE_CONTINUE {
        if let Some(b1) = parsed.block1 {
            proof {
                lemma_block_bytes(b1.szx as int);
            }
            let size = b1.size();
            let num: u64 = session.block1_num as u64 + 1;
            assert(0 <= num * size <= 0x1_0000_0000 * 2048) by (nonlinear_arith)
                requires
                    0 <= num <= 0x1_0000_0000,
                    0 <= size <= 2048,
            ;
            let next_offset: u64 = num * size as u64;
            if next_offset >= session.req_payload_size as u64 {
                session.error = Some(
                    CoapError::Protocol(
                        owned(
                            "server sent a spurious 2.31 Continue past the end of the request body",
                        ),
                    ),
                );
                session.done = true;
                return;
            }
            assert(num <= num * size) by (nonlinear_arith)
                requires
                    num >= 0,
                    size >= 16,
            ;
            session.block1_szx = b1.szx;
            session.block1_num = session.block1_num + 1;
            session.msg_id = session.msg_id.wrapping_add(1);
            session.need_resend = true;
            return;
        }
    }
    session.done = true;
}

/// A request on its way to its response.
#[derive(Debug)]
pub struct Exchange {
    pub method: Method,
    pub uri: String,
    pub content_format: Option<u16>,
    pub accept: Option<u16>,
    pub req_payload: Vec<u8>,
    pub token: u8,
    pub session: Session,
    pub retransmit_deadline: u64,
    pub retransmit_count: u32,
}

/// What an [`Exchange`] stands for.
#[verifier::ext_equal]
pub struct ExchangeView {
    pub method: Method,
    pub uri: Seq<char>,
    pub content_format: Option<u16>,
    pub accept: Option<u16>,
    pub req_payload: Seq<u8>,
    pub token: u8,
    pub session: SessionView,
    pub retransmit_deadline: u64,
    pub retransmit_count: u32,
}

impl View for Exchange {
    type V = ExchangeView;

    open spec fn view(&self) -> ExchangeView {
        ExchangeView {
            method: self.method,
            uri: self.uri@,
            content_format: self.content_format,
            accept: self.accept,
            req_payload: self.req_payload@,
            token: self.token,
            session: self.session@,
            retransmit_deadline: self.retransmit_deadline,
            retransmit_count: self.retransmit_count,
        }
    }
}

/// What holds of an exchange throughout.
pub open spec fn exchange_ok(x: ExchangeView) -> bool {
    &&& session_ok(x.session)
    &&& x.session.req_payload_size == x.req_payload.len()
    &&& x.retransmit_count <= MAX_RETRANSMIT
}

/// Block `num` of a body.
pub open spec fn chunk(body: Seq<u8>, num: int, szx: int) -> Seq<u8> {
    let from = num * block_bytes(szx);
    let to = if from + block_bytes(szx) < body.len() {
        from + block_bytes(szx)
    } else {
        body.len() as int
    };
    body.subrange(from, to)
}

/// Whether blocks follow block `num` of a body.
pub open spec fn more_follow(body: Seq<u8>, num: int, szx: int) -> bool {
    body.len() - num * block_bytes(szx) > block_bytes(szx)
}

/// The request body as far as it is still to be sent.
pub open spec fn body_to_send(x: ExchangeView) -> Seq<u8> {
    if x.session.req_payload_cleared {
        Seq::empty()
    } else {
        x.req_payload
    }
}

/// The message that an exchange sends next. A body that takes one block
/// goes without a Block1 option.
pub open spec fn outgoing(x: ExchangeView) -> RequestView {
    let body = body_to_send(x);
    let num = x.session.block1_num as int;
    let szx = x.session.block1_szx as int;
    RequestView {
        method: x.method,
        msg_id: x.session.msg_id,
        token: x.token,
        uri: x.uri,
        content_format: x.content_format,
        accept: x.accept,
        block1: if body.len() > 0 && (body.len() > block_bytes(szx) || num > 0) {
            Some(
                Block {
                    num: x.session.block1_num,
                    more: more_follow(body, num, szx),
                    szx: x.session.block1_szx,
                },
            )
        } else {
            None
        },
        block2: Block { num: x.session.block2_num, more: false, szx: x.session.block2_szx },
        payload: if body.len() > 0 {
            chunk(body, num, szx)
        } else {
            Seq::empty()
        },
    }
}

/// What to do next for an exchange.
#[derive(Debug)]
pub enum Action {
    /// Write these bytes to the line.
    Send(Vec<u8>),
    /// Read from the line after a short pause.
    Wait,
    /// The exchange is over.
    Finished,
}

/// What an exchange asks for next.
pub enum Step {
    Send,
    Wait,
    Finished,
}

/// The time at which to send again.
pub open spec fn deadline_from(now_ms: u64) -> u64 {
    if now_ms + RETRANSMIT_MS > u64::MAX {
        u64::MAX
    } else {
        (now_ms + RETRANSMIT_MS) as u64
    }
}

/// What an exchange asks for at a point in time, and where it then stands:
/// the next block goes out at once, the same message again when no reply came
/// in time, and after the last of these the exchange times out.
pub open spec fn decided(x: ExchangeView, now_ms: u64) -> (Step, ExchangeView) {
    if x.session.error is Some {
        (Step::Finished, x)
    } else if x.session.need_resend {
        (
            Step::Send,
            ExchangeView {
                session: SessionView { need_resend: false, ..x.session },
                retransmit_count: 0,
                retransmit_deadline: deadline_from(now_ms),
                ..x
            },
        )
    } else if x.session.done {
        (Step::Finished, x)
    } else if now_ms >= x.retransmit_deadline {
        if x.retransmit_count >= MAX_RETRANSMIT {
            (
                Step::Finished,
                ExchangeView {
                    session: SessionView { error: Some(ErrorView::Timeout), ..x.session },
                    ..x
                },
            )
        } else {
            (
                Step::Send,
                ExchangeView {
                    retransmit_count: (x.retransmit_count + 1) as u32,
                    retransmit_deadline: deadline_from(now_ms),
                    ..x
                },
            )
        }
    } else {
        (Step::Wait, x)
    }
}

/// Sends requests over a line, one at a time.
pub struct Client {
    mup1: Mup1Client,
    msg_id: u16,
    token: u8,
    block_size: u32,
}

/// What a [`Client`] stands for.
#[verifier::ext_equal]
pub struct ClientView {
    pub line: DecoderView,
    pub msg_id: u16,
    pub token: u8,
    pub block_size: u32,
}

impl View for Client {
    type V = ClientView;

    closed spec fn view(&self) -> ClientView {
        ClientView {
            line: self.mup1@,
            msg_id: self.msg_id,
            token: self.token,
            block_size: self.block_size,
        }
    }
}

/// Whether blocks can have this size: a power of two from 16 to 1024.
pub open spec fn valid_block_size(size: u32) -> bool {
    exists|szx: int| 0 <= szx <= 6 && #[trigger] block_bytes(szx) == size
}

/// The size exponent of a block size.
pub open spec fn szx_of(size: u32) -> u8 {
    if size == 16 {
        0
    } else if size == 32 {
        1
    } else if size == 64 {
        2
    } else if size == 128 {
        3
    } else if size == 256 {
        4
    } else if size == 512 {
        5
    } else {
        6
    }
}

/// The size exponent of a block size is the one that gives it.
pub proof fn lemma_szx_of(size: u32, szx: u8)
    requires
        szx <= 6,
        block_bytes(szx as int) == size,
    ensures
        szx_of(size) == szx,
{
    lemma2_to64();
    if szx == 0 {
    } else if szx == 1 {
    } else if szx == 2 {
    } else if szx == 3 {
    } else if szx == 4 {
    } else if szx == 5 {
    } else {
    }
}

/// The exchange that a client begins with a request.
pub open spec fn begun(
    c: ClientView,
    method: Method,
    uri: Seq<char>,
    content_format: Option<u16>,
    accept: Option<u16>,
    req_payload: Seq<u8>,
    now_ms: u64,
) -> ExchangeView {
    ExchangeView {
        method,
        uri,
        content_format,
        accept,
        req_payload,
        token: ((c.token + 1) % 0x100) as u8,
        session: SessionView {
            block1_num: 0,
            block1_szx: szx_of(c.block_size),
            block2_num: 0,
            block2_szx: szx_of(c.block_size),
            msg_id: next_id(c.msg_id),
            req_payload_cleared: false,
            resp_payload: Seq::empty(),
            resp_content_format: None,
            resp_code: 0,
            req_payload_size: req_payload.len() as int,
            done: false,
            error: None,
            need_resend: false,
        },
        retransmit_deadline: deadline_from(now_ms),
        retransmit_count: 0,
    }
}

/// The client once it has begun an exchange.
pub open spec fn client_begun(c: ClientView) -> ClientView {
    ClientView { token: ((c.token + 1) % 0x100) as u8, msg_id: next_id(c.msg_id), ..c }
}

/// The bytes on the line for what an exchange sends next.
pub open spec fn on_the_line(c: ClientView, x: ExchangeView) -> Seq<u8> {
    wire(c.line.checksum_type, COAP_LOWER, request_bytes(outgoing(x)))
}

/// The frames that carry no message.
pub open spec fn others(frames: Seq<FrameView>) -> Seq<FrameView>
    decreases frames.len(),
{
    if frames.len() == 0 {
        Seq::empty()
    } else if carries_message(frames.last()) {
        others(frames.drop_last())
    } else {
        others(frames.drop_last()).push(frames.last())
    }
}

impl Client {
    /// What holds between calls.
    pub closed spec fn wf(&self) -> bool {
        self.mup1.wf() && valid_block_size(self.block_size)
    }

    /// A client on a line. The first message id and token are taken from the
    /// seed, which should differ from process to process: a late reply to an
    /// earlier process must not match a new request.
    pub fn new(mup1: Mup1Client, seed: u128) -> (r: Self)
        requires
            mup1.wf(),
        ensures
            r.wf(),
            r@ == (ClientView {
                line: mup1@,
                msg_id: (seed as int % 0x1_0000) as u16,
                token: (seed as int / 0x1_0000 % 0x100) as u8,
                block_size: DEFAULT_BLOCK_SIZE,
            }),
    {
        proof {
            lemma2_to64();
            assert(block_bytes(4) == DEFAULT_BLOCK_SIZE);
        }
        Client {
            mup1,
            msg_id: (seed % 0x1_0000) as u16,
            token: (seed / 0x1_0000 % 0x100) as u8,
            block_size: DEFAULT_BLOCK_SIZE,
        }
    }

    /// Sets the block size.
    pub fn set_block_size(&mut self, size: u32) -> (r: Result<(), CoapError>)
        requires
            old(self).wf(),
        ensures
            final(self).wf(),
            match r {
                Ok(_) => valid_block_size(size) && final(self)@ == (ClientView {
                    block_size: size,
                    ..old(self)@
                }),
                Err(e) => !valid_block_size(size) && final(self)@ == old(self)@ && e@
                    == ErrorView::Protocol("block size must be a power of two, 16..=1024"@),
            },
    {
        match Block::szx_for_size(size) {
            Some(szx) => {
                assert(block_bytes(szx as int) == size);
                self.block_size = size;
                Ok(())
            },
            None => Err(
                CoapError::Protocol(owned("block size must be a power of two, 16..=1024")),
            ),
        }
    }

    /// The bytes for what an exchange sends next.
    fn send_frame(&self, x: &Exchange) -> (r: Vec<u8>)
        requires
            self.wf(),
            exchange_ok(x@),
        ensures
            r@ == on_the_line(self@, x@),
    {
        let size: u32 = Block { num: 0, more: false, szx: x.session.block1_szx }.size();
        let num: u32 = x.session.block1_num;
        let mut block1: Option<Block> = None;
        let mut from: usize = 0;
        let mut to: usize = 0;
        if !x.session.req_payload_cleared && x.req_payload.len() > 0 {
            let total: usize = x.req_payload.len();
            proof {
                lemma_block_bytes(x.session.block1_szx as int);
                assert(0 <= num * size) by (nonlinear_arith)
                    requires
                        num >= 0,
                        size >= 0,
                ;
            }
            from = (num * size) as usize;
            let remaining: usize = total - from;
            to = if remaining < size as usize {
                total
            } else {
                from + size as usize
            };
            if total > size as usize || num > 0 {
                block1 = Some(
                    Block { num, more: remaining > size as usize, szx: x.session.block1_szx },
                );
            }
        }
        let body = x.req_payload.as_slice();
        let params = RequestParams {
            method: x.method,
            msg_id: x.session.msg_id,
            token: x.token,
            uri: x.uri.as_str(),
            content_format: x.content_format,
            accept: x.accept,
            block1,
            block2: Block {
                num: x.session.block2_num,
                more: false,
                szx: x.session.block2_szx,
            },
            payload: &body[from..to],
        };
        assert(params@ =~= outgoing(x@));
        let message = encode_request(&params);
        self.mup1.send(COAP_LOWER, message.as_slice())
    }

    /// Begins a request: the exchange, and the bytes to write to the line.
    pub fn request(
        &mut self,
        method: Method,
        uri: &str,
        content_format: Option<u16>,
        accept: Option<u16>,
        req_payload: &[u8],
        now_ms: u64,
    ) -> (r: (Exchange, Vec<u8>))
        requires
            old(self).wf(),
            req_payload@.len() <= u32::MAX,
        ensures
            final(self).wf(),
            final(self)@ == client_begun(old(self)@),
            r.0@ == begun(
                old(self)@,
                method,
                uri@,
                content_format,
                accept,
                req_payload@,
                now_ms,
            ),
            exchange_ok(r.0@),
            r.1@ == on_the_line(old(self)@, r.0@),
    {
        self.token = self.token.wrapping_add(1);
        self.msg_id = self.msg_id.wrapping_add(1);
        let szx: u8 = match Block::szx_for_size(self.block_size) {
            Some(szx) => szx,
            None => 0,
        };
        proof {
            lemma_szx_of(self.block_size, szx);
        }
        let mut body: Vec<u8> = Vec::new();
        body.extend_from_slice(req_payload);
        assert(body@ =~= req_payload@);
        let session = Session {
            block1_num: 0,
            block1_szx: szx,
            block2_num: 0,
            block2_szx: szx,
            msg_id: self.msg_id,
            req_payload_cleared: false,
            resp_payload: Vec::new(),
            resp_content_format: None,
            resp_code: 0,
            req_payload_size: req_payload.len(),
            done: false,
            error: None,
            need_resend: false,
        };
        let x = Exchange {
            method,
            uri: owned(uri),
            content_format,
            accept,
            req_payload: body,
            token: self.token,
            session,
            retransmit_deadline: now_ms.saturating_add(RETRANSMIT_MS),
            retransmit_count: 0,
        };
        assert(x@ =~= begun(
            old(self)@,
            method,
            uri@,
            content_format,
            accept,
            req_payload@,
            now_ms,
        ));
        let bytes = self.send_frame(&x);
        (x, bytes)
    }

    /// Takes in what was read from the line for an exchange, and gives the
    /// frames that carry no message.
    pub fn receive(&mut self, x: &mut Exchange, received: &[u8], now_ms: u64) -> (r: Vec<Frame>)
        requires
            old(self).wf(),
            exchange_ok(old(x)@),
        ensures
            final(self).wf(),
            exchange_ok(final(x)@),
            ({
                let line = ticked(injected_all(old(self)@.line, received@), now_ms);
                &&& final(self)@ == (ClientView { line: drained(line), ..old(self)@ })
                &&& final(x)@ == (ExchangeView {
                    session: heard_all(old(x)@.session, pending(line)),
                    ..old(x)@
                })
                &&& frame_views(r@) == others(pending(line))
            }),
    {
        let mut frames = self.mup1.poll(received, now_ms);
        let ghost views = frame_views(frames@);
        let mut rest: Vec<Frame> = Vec::new();
        let ghost x0 = x@;
        let ghost n = frames@.len();
        let mut queue: Vec<Frame> = Vec::new();
        // Frames are taken from the end of a reversed queue.
        while frames.len() > 0
            invariant
                frames@.len() + queue@.len() == n,
                forall|k: int| 0 <= k < frames@.len() ==> (#[trigger] frames@[k])@ == views[k],
                forall|k: int|
                    0 <= k < queue@.len() ==> (#[trigger] queue@[k])@ == views[n - 1 - k],
                views.len() == n,
                n >= queue@.len(),
            decreases frames@.len(),
        {
            let f = frames.pop();
            if let Some(f) = f {
                queue.push(f);
            }
        }
        assert(views.subrange(0, 0) =~= Seq::empty());
        assert(frame_views(rest@) =~= others(views.subrange(0, 0)));
        while queue.len() > 0
            invariant
                queue@.len() <= n,
                views.len() == n,
                forall|k: int|
                    0 <= k < queue@.len() ==> (#[trigger] queue@[k])@ == views[n - 1 - k],
                exchange_ok(x@),
                exchange_ok(x0),
                x@ == (ExchangeView {
                    session: heard_all(x0.session, views.subrange(0, n - queue@.len())),
                    ..x0
                }),
                frame_views(rest@) == others(views.subrange(0, n - queue@.len())),
            decreases queue@.len(),
        {
            let ghost done = views.subrange(0, n - queue@.len());
            let ghost i = n - queue@.len();
            let ghost had = frame_views(rest@);
            let f = queue.pop();
            if let Some(f) = f {
                proof {
                    assert(f@ == views[i]);
                    let next = views.subrange(0, i + 1);
                    assert(next.drop_last() =~= done);
                    assert(next.last() == f@);
                }
                if f.type_byte == COAP_LOWER || f.type_byte == COAP_UPPER {
                    hear(&mut x.session, f.data.as_slice(), Ghost(f@));
                } else {
                    rest.push(f);
                    assert(frame_views(rest@) =~= had.push(f@));
                }
            }
        }
        assert(views.subrange(0, n as int) =~= views);
        rest
    }

    /// What to do next for an exchange.
    pub fn decide(&self, x: &mut Exchange, now_ms: u64) -> (r: Action)
        requires
            self.wf(),
            exchange_ok(old(x)@),
        ensures
            exchange_ok(final(x)@),
            final(x)@ == decided(old(x)@, now_ms).1,
            match decided(old(x)@, now_ms).0 {
                Step::Send => r matches Action::Send(bytes) && bytes@ == on_the_line(
                    self@,
                    final(x)@,
                ),
                Step::Wait => r is Wait,
                Step::Finished => r is Finished,
            },
    {
        if x.session.error.is_some() {
            return Action::Finished;
        }
        if x.session.need_resend {
            x.session.need_resend = false;
            x.retransmit_count = 0;
            x.retransmit_deadline = now_ms.saturating_add(RETRANSMIT_MS);
            let bytes = self.send_frame(x);
            return Action::Send(bytes);
        }
        if x.session.done {
            return Action::Finished;
        }
        if now_ms >= x.retransmit_deadline {
            if x.retransmit_count >= MAX_RETRANSMIT {
                x.session.error = Some(CoapError::Timeout);
                return Action::Finished;
            }
            x.retransmit_count = x.retransmit_count + 1;
            x.retransmit_deadline = now_ms.saturating_add(RETRANSMIT_MS);
            let bytes = self.send_frame(x);
            return Action::Send(bytes);
        }
        Action::Wait
    }

    /// Ends an exchange: the response, or why there is none.
    pub fn finish(&mut self, x: Exchange) -> (r: Result<Response, CoapError>)
        requires
            old(self).wf(),
        ensures
            final(self).wf(),
            final(self)@ == (ClientView { msg_id: x@.session.msg_id, ..old(self)@ }),
            match r {
                Ok(resp) => {
                    &&& x@.session.error is None
                    &&& resp.code_class == x@.session.resp_code as int / 32
                    &&& resp.code_detail == x@.session.resp_code as int % 32
                    &&& resp.content_format == x@.session.resp_content_format
                    &&& resp.payload@ == x@.session.resp_payload
                },
                Err(e) => x@.session.error == Some(e@),
            },
    {
        self.msg_id = x.session.msg_id;
        match x.session.error {
            Some(e) => Err(e),
            None => Ok(
                Response {
                    code_class: code_class(x.session.resp_code),
                    code_detail: code_detail(x.session.resp_code),
                    content_format: x.session.resp_content_format,
                    payload: x.session.resp_payload,
                },
            ),
        }
    }

    /// Begins a GET: a whole datastore, or a part of it.
    pub fn get(&mut self, uri: &str, now_ms: u64) -> (r: (Exchange, Vec<u8>))
        requires
            old(self).wf(),
        ensures
            final(self).wf(),
            final(self)@ == client_begun(old(self)@),
            r.0@ == begun(old(self)@, Method::Get, uri@, None, None, Seq::empty(), now_ms),
            exchange_ok(r.0@),
            r.1@ == on_the_line(old(self)@, r.0@),
    {
        let empty: Vec<u8> = Vec::new();
        self.request(Method::Get, uri, None, None, empty.as_slice(), now_ms)
    }

    /// Begins a PUT: replaces a whole datastore.
    pub fn put(&mut self, uri: &str, payload: &[u8], now_ms: u64) -> (r: (Exchange, Vec<u8>))
        requires
            old(self).wf(),
            payload@.len() <= u32::MAX,
        ensures
            final(self).wf(),
            final(self)@ == client_begun(old(self)@),
            r.0@ == begun(
                old(self)@,
                Method::Put,
                uri@,
                Some(YANG_DATA_CBOR),
                None,
                payload@,
                now_ms,
            ),
            exchange_ok(r.0@),
            r.1@ == on_the_line(old(self)@, r.0@),
    {
        self.request(Method::Put, uri, Some(YANG_DATA_CBOR), None, payload, now_ms)
    }

    /// Begins a POST: invokes an RPC or action.
    pub fn post(&mut self, uri: &str, payload: &[u8], now_ms: u64) -> (r: (Exchange, Vec<u8>))
        requires
            old(self).wf(),
            payload@.len() <= u32::MAX,
        ensures
            final(self).wf(),
            final(self)@ == client_begun(old(self)@),
            r.0@ == begun(
                old(self)@,
                Method::Post,
                uri@,
                Some(YANG_INSTANCES_CBOR),
                None,
                payload@,
                now_ms,
            ),
            exchange_ok(r.0@),
            r.1@ == on_the_line(old(self)@, r.0@),
    {
        self.request(Method::Post, uri, Some(YANG_INSTANCES_CBOR), None, payload, now_ms)
    }

    /// Begins a DELETE.
    pub fn delete(&mut self, uri: &str, now_ms: u64) -> (r: (Exchange, Vec<u8>))
        requires
            old(self).wf(),
        ensures
            final(self).wf(),
            final(self)@ == client_begun(old(self)@),
            r.0@ == begun(old(self)@, Method::Delete, uri@, None, None, Seq::empty(), now_ms),
            exchange_ok(r.0@),
            r.1@ == on_the_line(old(self)@, r.0@),
    {
        let empty: Vec<u8> = Vec::new();
        self.request(Method::Delete, uri, None, None, empty.as_slice(), now_ms)
    }

    /// Begins a FETCH: asks for the values at some instance identifiers.
    pub fn fetch(&mut self, uri: &str, payload: &[u8], now_ms: u64) -> (r: (Exchange, Vec<u8>))
        requires
            old(self).wf(),
            payload@.len() <= u32::MAX,
        ensures
            final(self).wf(),
            final(self)@ == client_begun(old(self)@),
            r.0@ == begun(
                old(self)@,
                Method::Fetch,
                uri@,
                Some(YANG_IDENTIFIERS_CBOR),
                None,
                payload@,
                now_ms,
            ),
            exchange_ok(r.0@),
            r.1@ == on_the_line(old(self)@, r.0@),
    {
        self.request(Method::Fetch, uri, Some(YANG_IDENTIFIERS_CBOR), None, payload, now_ms)
    }

    /// Begins an iPATCH: sets the values at some instance identifiers.
    pub fn ipatch(&mut self, uri: &str, payload: &[u8], now_ms: u64) -> (r: (Exchange, Vec<u8>))
        requires
            old(self).wf(),
            payload@.len() <= u32::MAX,
        ensures
            final(self).wf(),
            final(self)@ == client_begun(old(self)@),
            r.0@ == begun(
                old(self)@,
                Method::Ipatch,
                uri@,
                Some(YANG_INSTANCES_CBOR),
                None,
                payload@,
                now_ms,
            ),
            exchange_ok(r.0@),
            r.1@ == on_the_line(old(self)@, r.0@),
    {
        self.request(Method::Ipatch, uri, Some(YANG_INSTANCES_CBOR), None, payload, now_ms)
    }
}

/// Takes in the data of a frame that carries a message.
fn hear(session: &mut Session, data: &[u8], Ghost(f): Ghost<FrameView>)
    requires
        session_ok(old(session)@),
        carries_message(f),
        f.data == data@,
    ensures
        session_ok(final(session)@),
        final(session)@ == heard(old(session)@, f),
        final(session)@.req_payload_size == old(session)@.req_payload_size,
{
    let ghost before = session@;
    if let Ok(m) = parse(data) {
        proof {
            law_session_stays_ok(before, f);
        }
        if m.msg_id == session.msg_id {
            match m.msg_type {
                MsgType::Rst => {
                    session.error = Some(CoapError::Protocol(owned("device sent RST")));
                    session.done = true;
                },
                MsgType::Ack => {
                    process_response(session, &m);
                },
                _ => {},
            }
        }
    }
}

/// A message with another id than that of the request changes nothing.
pub proof fn law_other_ids_are_ignored(s: SessionView, f: FrameView)
    requires
        parsed(f.data) matches Some(m) ==> m.msg_id != s.msg_id,
    ensures
        heard(s, f) == s,
{
}

/// Whenever a message makes the exchange send on, it does so under the next
/// message id, which is another one: a reply to what was sent before is no
/// reply any more.
pub proof fn law_sending_on_takes_a_new_id(s: SessionView, f: FrameView)
    requires
        !s.need_resend,
        heard(s, f).need_resend,
    ensures
        heard(s, f).msg_id == next_id(s.msg_id),
        heard(s, f).msg_id != s.msg_id,
{
}

/// Where an exchange stands that hears nothing and asks what to do at some
/// points in time.
pub open spec fn polled(x: ExchangeView, times: Seq<u64>) -> ExchangeView
    decreases times.len(),
{
    if times.len() == 0 {
        x
    } else {
        decided(polled(x, times.drop_last()), times.last()).1
    }
}

/// How many deadlines are missed at some points in time, and the next one: a
/// deadline that is missed sets a new one.
pub open spec fn missed(deadline: u64, times: Seq<u64>) -> (nat, u64)
    decreases times.len(),
{
    if times.len() == 0 {
        (0, deadline)
    } else {
        let (n, next) = missed(deadline, times.drop_last());
        let now = times.last();
        if now >= next {
            (n + 1, deadline_from(now))
        } else {
            (n, next)
        }
    }
}

/// An exchange without any reply sends its message again, and nothing else,
/// at each of the first five deadlines that it finds missed, and times out at
/// the next one, whenever it is asked.
pub proof fn law_silence_times_out(x: ExchangeView, times: Seq<u64>)
    requires
        x.session.error is None,
        !x.session.need_resend,
        !x.session.done,
        x.retransmit_count == 0,
    ensures
        ({
            let n = missed(x.retransmit_deadline, times).0;
            let y = polled(x, times);
            &&& outgoing(y) == outgoing(x)
            &&& n <= 5 ==> y.retransmit_count == n && y.session == x.session
                && y.retransmit_deadline == missed(x.retransmit_deadline, times).1
            &&& n > 5 ==> y.session.error == Some(ErrorView::Timeout)
            &&& times.len() > 0 ==> ({
                let before = missed(x.retransmit_deadline, times.drop_last()).0;
                let step = decided(polled(x, times.drop_last()), times.last()).0;
                step is Send <==> before < n <= 5
            })
        }),
    decreases times.len(),
{
    if times.len() > 0 {
        law_silence_times_out(x, times.drop_last());
    }
}

/// Whether a clock never goes back, and is looked at with at most `gap`
/// between two looks; the first look is at most `gap` behind `from`.
pub open spec fn looks(times: Seq<u64>, from: int, gap: int) -> bool {
    &&& times.len() > 0 ==> times[0] <= from + gap
    &&& forall|i: int, j: int|
        0 <= i < j < times.len() ==> #[trigger] times[i] <= #[trigger] times[j]
    &&& forall|i: int|
        1 <= i < times.len() ==> #[trigger] times[i] <= times[i - 1] + gap
}

/// A clock that never goes back and is looked at regularly: deadlines are
/// missed no earlier than their time and no later than the next look. So an
/// exchange without any reply times out no earlier than six times the time
/// between two messages, and no later than that and six gaps.
pub proof fn law_silence_takes_its_time(deadline: u64, times: Seq<u64>, gap: int)
    requires
        times.len() > 0,
        gap >= 0,
        looks(times, deadline as int, gap),
        times.last() + RETRANSMIT_MS <= u64::MAX,
    ensures
        ({
            let n = missed(deadline, times).0;
            let now = times.last() as int;
            &&& n > 0 ==> now >= deadline + (n - 1) * RETRANSMIT_MS
            &&& now < deadline + n * (RETRANSMIT_MS + gap)
        }),
{
    lemma_missed(deadline, times, gap);
}

/// What the next deadline is while a clock is looked at regularly.
proof fn lemma_missed(deadline: u64, times: Seq<u64>, gap: int)
    requires
        times.len() > 0,
        gap >= 0,
        looks(times, deadline as int, gap),
        times.last() + RETRANSMIT_MS <= u64::MAX,
    ensures
        ({
            let (n, next) = missed(deadline, times);
            let now = times.last() as int;
            &&& now < next
            &&& deadline + n * RETRANSMIT_MS <= next <= deadline + n * (RETRANSMIT_MS + gap)
            &&& n > 0 ==> next <= now + RETRANSMIT_MS
        }),
    decreases times.len(),
{
    let before = times.drop_last();
    let now = times[times.len() - 1];
    let (n, next) = missed(deadline, before);
    reveal_with_fuel(missed, 2);
    if before.len() > 0 {
        assert(before.last() == times[times.len() - 2]);
        assert(times[times.len() - 2] <= times[times.len() - 1]);
        assert forall|i: int, j: int| 0 <= i < j < before.len() implies #[trigger] before[i]
            <= #[trigger] before[j] by {
            assert(before[i] == times[i] && before[j] == times[j]);
        }
        assert forall|i: int| 1 <= i < before.len() implies #[trigger] before[i] <= before[i - 1]
            + gap by {
            assert(before[i] == times[i] && before[i - 1] == times[i - 1]);
        }
        lemma_missed(deadline, before, gap);
        assert(now <= before.last() + gap);
    }
    assert((n + 1) * RETRANSMIT_MS == n * RETRANSMIT_MS + RETRANSMIT_MS) by (nonlinear_arith);
    assert((n + 1) * (RETRANSMIT_MS + gap) == n * (RETRANSMIT_MS + gap) + RETRANSMIT_MS + gap)
        by (nonlinear_arith);
}

/// The first `n` blocks of a body, one after the other.
pub open spec fn first_chunks(body: Seq<u8>, szx: int, n: nat) -> Seq<u8>
    decreases n,
{
    if n == 0 {
        Seq::empty()
    } else {
        first_chunks(body, szx, (n - 1) as nat) + chunk(body, n - 1, szx)
    }
}

/// The blocks up to one that is announced as not the last are the beginning
/// of the body, and with the last one they are the whole body.
pub proof fn law_blocks_make_the_body(body: Seq<u8>, szx: int, n: nat)
    requires
        0 <= szx < 8,
        n > 0,
        (n - 1) * block_bytes(szx) < body.len(),
    ensures
        more_follow(body, n - 1, szx) ==> n * block_bytes(szx) < body.len() && first_chunks(
            body,
            szx,
            n,
        ) == body.subrange(0, n * block_bytes(szx)),
        !more_follow(body, n - 1, szx) ==> first_chunks(body, szx, n) == body,
    decreases n,
{
    let size = block_bytes(szx);
    lemma_block_bytes(szx);
    assert(n * size == (n - 1) * size + size) by (nonlinear_arith);
    assert(0 <= (n - 1) * size) by (nonlinear_arith)
        requires
            n > 0,
            size >= 16,
    ;
    let from = (n - 1) * size;
    if n == 1 {
        assert(from == 0) by (nonlinear_arith)
            requires
                from == (n - 1) * size,
                n == 1,
        ;
        assert(first_chunks(body, szx, 0) =~= body.subrange(0, 0));
    } else {
        assert((n - 1) * size == (n - 2) * size + size) by (nonlinear_arith);
        assert((n - 2) * size < body.len());
        law_blocks_make_the_body(body, szx, (n - 1) as nat);
        assert(more_follow(body, n - 2, szx));
    }
    assert(first_chunks(body, szx, (n - 1) as nat) =~= body.subrange(0, from));
    if more_follow(body, n - 1, szx) {
        assert(first_chunks(body, szx, n) =~= body.subrange(0, n * size));
    } else {
        assert(first_chunks(body, szx, n) =~= body);
    }
}

/// The session after some responses, each to what was asked for last.
pub open spec fn answered_all(s: SessionView, ms: Seq<MessageView>) -> SessionView
    decreases ms.len(),
{
    if ms.len() == 0 {
        s
    } else {
        answered(answered_all(s, ms.drop_last()), ms.last())
    }
}

/// The payloads of some messages, one after the other.
pub open spec fn payloads(ms: Seq<MessageView>) -> Seq<u8>
    decreases ms.len(),
{
    if ms.len() == 0 {
        Seq::empty()
    } else {
        payloads(ms.drop_last()) + ms.last().payload
    }
}

/// A response in blocks is put together from the blocks: while more follow,
/// the next one is asked for under the next message id, without the body of
/// the request; the last one ends the exchange.
pub proof fn law_response_is_put_together(s: SessionView, ms: Seq<MessageView>)
    requires
        ms.len() > 0,
        forall|k: int|
            0 <= k < ms.len() ==> (#[trigger] ms[k]).block2 is Some && ms[k].block2->0.num == k
                && ms[k].code != RESPONSE_CONTINUE,
    ensures
        answered_all(s, ms).resp_payload == s.resp_payload + payloads(ms),
        answered_all(s, ms).resp_code == ms.last().code,
        ms.last().block2->0.more && ms.len() <= u32::MAX ==> ({
            let t = answered_all(s, ms);
            t.need_resend && t.block2_num == ms.len() && t.msg_id == next_id(
                answered_all(s, ms.drop_last()).msg_id,
            ) && t.req_payload_cleared
        }),
        !ms.last().block2->0.more ==> answered_all(s, ms).done,
    decreases ms.len(),
{
    let short = ms.drop_last();
    let last = ms[ms.len() - 1];
    assert(last.block2 is Some);
    if short.len() > 0 {
        assert forall|k: int| 0 <= k < short.len() implies (#[trigger] short[k]).block2 is Some
            && short[k].block2->0.num == k && short[k].code != RESPONSE_CONTINUE by {
            assert(short[k] == ms[k]);
        }
        law_response_is_put_together(s, short);
    } else {
        assert(payloads(short) =~= Seq::empty());
        assert(s.resp_payload + payloads(short) =~= s.resp_payload);
    }
    assert(s.resp_payload + payloads(short) + last.payload =~= s.resp_payload + payloads(ms));
}

} // verus!
