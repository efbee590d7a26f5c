//! Encoding and decoding of messages.
use vstd::arithmetic::power2::{lemma2_to64, lemma_pow2_strictly_increases, pow2};
use vstd::bits::lemma_u32_shl_is_mul;
use vstd::prelude::*;
use vstd::utf8::encode_utf8;

use crate::bytes::{
    big_endian, big_endian_value, bound, lemma_big_endian_value_bound, push_big_endian,
};
use crate::text::{chars_of, index_from, index_of, segments, split_segments, text_between, texts};

verus! {

/// The version of the protocol.
pub const VERSION: u8 = 1;

pub const OPT_URI_PATH: u16 = 11;

pub const OPT_CONTENT_FORMAT: u16 = 12;

pub const OPT_URI_QUERY: u16 = 15;

pub const OPT_ACCEPT: u16 = 17;

pub const OPT_BLOCK2: u16 = 23;

pub const OPT_BLOCK1: u16 = 27;

/// Stands between the options and the payload.
pub const PAYLOAD_MARKER: u8 = 0xFF;

/// The code of a 2.31 Continue response.
pub const RESPONSE_CONTINUE: u8 = 95;

/// The type of a message.
#[derive(Debug, Clone, Copy, PartialEq, Eq, Structural)]
pub enum MsgType {
    Con,
    Non,
    Ack,
    Rst,
}

/// The type whose number is in the low two bits of `b`.
pub open spec fn msg_type(b: int) -> MsgType {
    if b % 4 == 0 {
        MsgType::Con
    } else if b % 4 == 1 {
        MsgType::Non
    } else if b % 4 == 2 {
        MsgType::Ack
    } else {
        MsgType::Rst
    }
}

impl MsgType {
    /// The type whose number is in the low two bits of `b`.
    pub fn from_bits(b: u8) -> (r: Self)
        ensures
            r == msg_type(b as int),
    {
        if b % 4 == 0 {
            MsgType::Con
        } else if b % 4 == 1 {
            MsgType::Non
        } else if b % 4 == 2 {
            MsgType::Ack
        } else {
            MsgType::Rst
        }
    }
}

/// The methods.
#[derive(Debug, Clone, Copy, PartialEq, Eq, Structural)]
pub enum Method {
    Get,
    Post,
    Put,
    Delete,
    Fetch,
    Ipatch,
}

/// The code of a method.
pub open spec fn method_code(m: Method) -> u8 {
    match m {
        Method::Get => 1,
        Method::Post => 2,
        Method::Put => 3,
        Method::Delete => 4,
        Method::Fetch => 5,
        Method::Ipatch => 7,
    }
}

impl Method {
    /// The code of the method.
    pub fn code(self) -> (r: u8)
        ensures
            r == method_code(self),
    {
        match self {
            Method::Get => 1,
            Method::Post => 2,
            Method::Put => 3,
            Method::Delete => 4,
            Method::Fetch => 5,
            Method::Ipatch => 7,
        }
    }
}

/// The class of a code: its upper three bits.
pub fn code_class(code: u8) -> (r: u8)
    ensures
        r == code as int / 32,
{
    code / 32
}

/// The detail of a code: its lower five bits.
pub fn code_detail(code: u8) -> (r: u8)
    ensures
        r == code as int % 32,
{
    code % 32
}

/// The value of a Block1 or Block2 option: which block, whether more follow,
/// and the exponent of its size.
#[derive(Debug, Clone, Copy, Default, PartialEq, Eq, Structural)]
pub struct Block {
    pub num: u32,
    pub more: bool,
    pub szx: u8,
}

/// The size of the blocks with size exponent `szx`.
pub open spec fn block_bytes(szx: int) -> int {
    pow2((szx + 4) as nat) as int
}

/// The number that a block option is written as.
pub open spec fn block_value(b: Block) -> int {
    (b.num as int * 16) % 0x1_0000_0000 + (if b.more {
        8int
    } else {
        0
    }) + b.szx as int % 8
}

/// The block that a number stands for.
pub open spec fn block_of(raw: int) -> Block {
    Block { num: (raw / 16) as u32, more: raw / 8 % 2 != 0, szx: (raw % 8) as u8 }
}

/// Whether an option can carry the block.
pub open spec fn block_fits(b: Block) -> bool {
    b.num < 0x1000_0000 && b.szx < 8
}

impl Block {
    /// The size of the block.
    pub fn size(self) -> (r: u32)
        requires
            self.szx < 28,
        ensures
            r == block_bytes(self.szx as int),
    {
        let shift: u32 = self.szx as u32 + 4;
        proof {
            lemma2_to64();
            if shift < 31 {
                lemma_pow2_strictly_increases(shift as nat, 31);
            }
            lemma_u32_shl_is_mul(1, shift);
        }
        1u32 << shift
    }

    /// The size exponent of a block size.
    pub fn szx_for_size(block_size: u32) -> (r: Option<u8>)
        ensures
            match r {
                Some(szx) => szx <= 6 && block_bytes(szx as int) == block_size,
                None => forall|szx: int| 0 <= szx <= 6 ==> block_bytes(szx) != block_size,
            },
    {
        proof {
            lemma2_to64();
        }
        if block_size == 16 {
            Some(0)
        } else if block_size == 32 {
            Some(1)
        } else if block_size == 64 {
            Some(2)
        } else if block_size == 128 {
            Some(3)
        } else if block_size == 256 {
            Some(4)
        } else if block_size == 512 {
            Some(5)
        } else if block_size == 1024 {
            Some(6)
        } else {
            assert forall|szx: int| 0 <= szx <= 6 implies block_bytes(szx) != block_size by {
                if szx == 0 {
                } else if szx == 1 {
                } else if szx == 2 {
                } else if szx == 3 {
                } else if szx == 4 {
                } else if szx == 5 {
                } else {
                }
            }
            None
        }
    }

    /// The number that the option is written as.
    pub fn encode_value(self) -> (r: u32)
        ensures
            r == block_value(self),
    {
        let more: u32 = if self.more {
            8
        } else {
            0
        };
        (self.num % 0x1000_0000) * 16 + more + (self.szx % 8) as u32
    }

    /// The block that a number stands for.
    pub fn decode_value(raw: u32) -> (r: Self)
        ensures
            r == block_of(raw as int),
            block_fits(r),
    {
        Block { szx: (raw % 8) as u8, more: raw / 8 % 2 != 0, num: raw / 16 }
    }
}

/// What one request message is made of. Blockwise transfer takes several.
pub struct RequestParams<'a> {
    pub method: Method,
    pub msg_id: u16,
    pub token: u8,
    /// Such as `c` or `c?d=a`: the path, then the query.
    pub uri: &'a str,
    pub content_format: Option<u16>,
    pub accept: Option<u16>,
    /// Absent for a payload that is sent in one block.
    pub block1: Option<Block>,
    /// Always sent, so that any response can come in blocks.
    pub block2: Block,
    /// The payload of this block.
    pub payload: &'a [u8],
}

/// What [`RequestParams`] stand for.
#[verifier::ext_equal]
pub struct RequestView {
    pub method: Method,
    pub msg_id: u16,
    pub token: u8,
    pub uri: Seq<char>,
    pub content_format: Option<u16>,
    pub accept: Option<u16>,
    pub block1: Option<Block>,
    pub block2: Block,
    pub payload: Seq<u8>,
}

impl<'a> View for RequestParams<'a> {
    type V = RequestView;

    open spec fn view(&self) -> RequestView {
        RequestView {
            method: self.method,
            msg_id: self.msg_id,
            token: self.token,
            uri: self.uri@,
            content_format: self.content_format,
            accept: self.accept,
            block1: self.block1,
            block2: self.block2,
            payload: self.payload@,
        }
    }
}

/// An option: its number and its value.
pub struct OptionView {
    pub num: u16,
    pub value: Seq<u8>,
}

/// The shortest big-endian form of a number.
pub open spec fn uint_bytes(val: int) -> Seq<u8> {
    if val == 0 {
        Seq::empty()
    } else if val <= 0xFF {
        big_endian(val as nat, 1)
    } else if val <= 0xFFFF {
        big_endian(val as nat, 2)
    } else if val <= 0xFF_FFFF {
        big_endian(val as nat, 3)
    } else {
        big_endian(val as nat, 4)
    }
}

/// The number in an option value of at most four bytes; 0 if it is longer.
pub open spec fn uint_of(val: Seq<u8>) -> int {
    if val.len() <= 4 {
        big_endian_value(val) as int
    } else {
        0
    }
}

/// The four header bits for a delta or length.
pub open spec fn nibble(n: int) -> int {
    if n < 13 {
        n
    } else if n < 269 {
        13
    } else {
        14
    }
}

/// The extension bytes for a delta or length.
pub open spec fn extension(n: int) -> Seq<u8> {
    if n < 13 {
        Seq::empty()
    } else if n < 269 {
        big_endian((n - 13) as nat, 1)
    } else {
        big_endian((n - 269) as nat, 2)
    }
}

/// An option on the wire, behind one with number `prev`. The length field
/// keeps the low 16 bits of the value's length.
pub open spec fn option_bytes(prev: u16, opt: OptionView) -> Seq<u8> {
    let delta = opt.num - prev;
    let len = opt.value.len() as int % 0x1_0000;
    seq![(nibble(delta) * 16 + nibble(len)) as u8] + extension(delta) + extension(len) + opt.value
}

/// The number of the last option, or `prev` if there is none.
pub open spec fn last_number(prev: u16, opts: Seq<OptionView>) -> u16 {
    if opts.len() == 0 {
        prev
    } else {
        opts.last().num
    }
}

/// Options on the wire, behind one with number `prev`.
pub open spec fn options_bytes(prev: u16, opts: Seq<OptionView>) -> Seq<u8>
    decreases opts.len(),
{
    if opts.len() == 0 {
        Seq::empty()
    } else {
        option_bytes(prev, opts[0]) + options_bytes(
            opts[0].num,
            opts.subrange(1, opts.len() as int),
        )
    }
}

/// One more option goes behind the others.
pub proof fn lemma_options_push(prev: u16, opts: Seq<OptionView>, opt: OptionView)
    ensures
        options_bytes(prev, opts.push(opt)) == options_bytes(prev, opts) + option_bytes(
            last_number(prev, opts),
            opt,
        ),
    decreases opts.len(),
{
    let more = opts.push(opt);
    if opts.len() == 0 {
        assert(more.subrange(1, 1) =~= Seq::empty());
        assert(options_bytes(opt.num, more.subrange(1, 1)) =~= Seq::empty());
        assert(options_bytes(prev, more) =~= options_bytes(prev, opts) + option_bytes(prev, opt));
    } else {
        let rest = opts.subrange(1, opts.len() as int);
        assert(more.subrange(1, more.len() as int) =~= rest.push(opt));
        lemma_options_push(opts[0].num, rest, opt);
        assert(last_number(opts[0].num, rest) == last_number(prev, opts));
        assert(options_bytes(prev, more) =~= options_bytes(prev, opts) + option_bytes(
            last_number(prev, opts),
            opt,
        ));
    }
}

/// The path of a URI: what stands before the first `?`, without one leading
/// slash.
pub open spec fn uri_path(uri: Seq<char>) -> Seq<char> {
    let path = uri.subrange(0, index_from(uri, '?', 0));
    if path.len() > 0 && path[0] == '/' {
        path.subrange(1, path.len() as int)
    } else {
        path
    }
}

/// The query of a URI: what stands behind the first `?`, if there is one.
pub open spec fn uri_query(uri: Seq<char>) -> Seq<char> {
    if index_from(uri, '?', 0) < uri.len() {
        uri.subrange(index_from(uri, '?', 0) + 1, uri.len() as int)
    } else {
        Seq::empty()
    }
}

/// One option with number `num` for each text.
pub open spec fn text_options(num: u16, parts: Seq<Seq<char>>) -> Seq<OptionView> {
    parts.map_values(|p: Seq<char>| OptionView { num, value: encode_utf8(p) })
}

/// The option with number `num` if there is a value.
pub open spec fn uint_option(num: u16, val: Option<u16>) -> Seq<OptionView> {
    match val {
        Some(v) => seq![OptionView { num, value: uint_bytes(v as int) }],
        None => Seq::empty(),
    }
}

/// The option with number `num` if there is a block.
pub open spec fn block_option(num: u16, block: Option<Block>) -> Seq<OptionView> {
    match block {
        Some(b) => seq![OptionView { num, value: uint_bytes(block_value(b)) }],
        None => Seq::empty(),
    }
}

/// The Block2 option of a request: whether more follow means nothing there.
pub open spec fn offered(b: Block) -> Block {
    Block { num: b.num, more: false, szx: b.szx }
}

/// The options of a request, in the order of their numbers.
pub open spec fn request_options(p: RequestView) -> Seq<OptionView> {
    text_options(OPT_URI_PATH, segments(uri_path(p.uri), '/')) + uint_option(
        OPT_CONTENT_FORMAT,
        p.content_format,
    ) + text_options(OPT_URI_QUERY, segments(uri_query(p.uri), '&')) + uint_option(
        OPT_ACCEPT,
        p.accept,
    ) + block_option(OPT_BLOCK2, Some(offered(p.block2))) + block_option(OPT_BLOCK1, p.block1)
}

/// The fixed part of a request: version 1, confirmable, one byte of token.
pub open spec fn request_head(p: RequestView) -> Seq<u8> {
    seq![0x41u8, method_code(p.method)] + big_endian(p.msg_id as nat, 2) + seq![p.token]
}

/// The payload behind its marker, if there is any.
pub open spec fn payload_bytes(payload: Seq<u8>) -> Seq<u8> {
    if payload.len() == 0 {
        Seq::empty()
    } else {
        seq![PAYLOAD_MARKER] + payload
    }
}

/// A request on the wire.
pub open spec fn request_bytes(p: RequestView) -> Seq<u8> {
    request_head(p) + options_bytes(0, request_options(p)) + payload_bytes(p.payload)
}

/// Appends the shortest big-endian form of `val`.
pub fn opt_uint_encode(val: u32, out: &mut Vec<u8>)
    ensures
        final(out)@ == old(out)@ + uint_bytes(val as int),
{
    let ghost start = out@;
    if val == 0 {
    } else if val <= 0xFF {
        push_big_endian(val as u64, 1, out);
    } else if val <= 0xFFFF {
        push_big_endian(val as u64, 2, out);
    } else if val <= 0xFF_FFFF {
        push_big_endian(val as u64, 3, out);
    } else {
        push_big_endian(val as u64, 4, out);
    }
    assert(out@ =~= start + uint_bytes(val as int));
}

/// The number in an option value.
pub fn opt_uint_decode(val: &[u8]) -> (r: u32)
    ensures
        r == uint_of(val@),
{
    if val.len() > 4 {
        return 0;
    }
    let mut n: u32 = 0;
    let mut i: usize = 0;
    while i < val.len()
        invariant
            i <= val@.len() <= 4,
            n == big_endian_value(val@.subrange(0, i as int)),
        decreases val@.len() - i,
    {
        proof {
            let next = val@.subrange(0, i + 1);
            assert(next.subrange(0, next.len() - 1) =~= val@.subrange(0, i as int));
            lemma_big_endian_value_bound(next);
            reveal_with_fuel(bound, 5);
        }
        n = n * 256 + val[i] as u32;
        i += 1;
    }
    assert(val@.subrange(0, val@.len() as int) =~= val@);
    n
}

/// Writes options in the order of their numbers.
struct Writer {
    buf: Vec<u8>,
    prev_opt: u16,
}

impl Writer {
    /// Whether the options `opts` were written behind `head`.
    spec fn holds(&self, head: Seq<u8>, opts: Seq<OptionView>) -> bool {
        &&& self.buf@ == head + options_bytes(0, opts)
        &&& self.prev_opt == last_number(0, opts)
    }

    /// Appends the delta and the length of an option.
    fn opt_header(&mut self, delta: u16, length: u16)
        ensures
            final(self).buf@ == old(self).buf@ + (seq![
                (nibble(delta as int) * 16 + nibble(length as int)) as u8,
            ] + extension(delta as int) + extension(length as int)),
            final(self).prev_opt == old(self).prev_opt,
    {
        let ghost start = self.buf@;
        let delta_nibble: u8 = if delta < 13 {
            delta as u8
        } else if delta < 269 {
            13
        } else {
            14
        };
        let length_nibble: u8 = if length < 13 {
            length as u8
        } else if length < 269 {
            13
        } else {
            14
        };
        self.buf.push(delta_nibble * 16 + length_nibble);
        push_extension(delta, &mut self.buf);
        push_extension(length, &mut self.buf);
        assert(self.buf@ =~= start + (seq![
            (nibble(delta as int) * 16 + nibble(length as int)) as u8,
        ] + extension(delta as int) + extension(length as int)));
    }

    /// Appends an option.
    fn opt(&mut self, opt_num: u16, val: &[u8], Ghost(head): Ghost<Seq<u8>>, Ghost(opts): Ghost<
        Seq<OptionView>,
    >)
        requires
            old(self).holds(head, opts),
            old(self).prev_opt <= opt_num,
        ensures
            final(self).holds(head, opts.push(OptionView { num: opt_num, value: val@ })),
            final(self).prev_opt == opt_num,
    {
        let ghost start = self.buf@;
        let ghost opt = OptionView { num: opt_num, value: val@ };
        let delta: u16 = opt_num - self.prev_opt;
        let len: u16 = (val.len() % 0x1_0000) as u16;
        self.opt_header(delta, len);
        self.buf.extend_from_slice(val);
        self.prev_opt = opt_num;
        proof {
            lemma_options_push(0, opts, opt);
            assert(self.buf@ =~= start + option_bytes(last_number(0, opts), opt));
            assert(self.buf@ =~= head + options_bytes(0, opts.push(opt)));
        }
    }

    /// Appends an option for each non-empty piece of `s`.
    fn opt_segments(
        &mut self,
        opt_num: u16,
        s: &str,
        delim: char,
        Ghost(head): Ghost<Seq<u8>>,
        Ghost(opts): Ghost<Seq<OptionView>>,
    )
        requires
            old(self).holds(head, opts),
            old(self).prev_opt <= opt_num,
        ensures
            final(self).holds(head, opts + text_options(opt_num, segments(s@, delim))),
            final(self).prev_opt <= opt_num,
    {
        let pieces = split_segments(s, delim);
        let ghost all = segments(s@, delim);
        let mut i: usize = 0;
        assert(opts + text_options(opt_num, all.subrange(0, 0)) =~= opts);
        while i < pieces.len()
            invariant
                i <= pieces@.len(),
                all == texts(pieces@),
                self.holds(head, opts + text_options(opt_num, all.subrange(0, i as int))),
                self.prev_opt <= opt_num,
            decreases pieces@.len() - i,
        {
            let ghost done = all.subrange(0, i as int);
            self.opt(
                opt_num,
                pieces[i].as_str().as_bytes(),
                Ghost(head),
                Ghost(opts + text_options(opt_num, done)),
            );
            assert((opts + text_options(opt_num, done)).push(
                OptionView { num: opt_num, value: encode_utf8(all[i as int]) },
            ) =~= opts + text_options(opt_num, all.subrange(0, i + 1)));
            i += 1;
        }
        assert(all.subrange(0, all.len() as int) =~= all);
    }

    /// Appends an option with a number, if there is one.
    fn opt_uint(
        &mut self,
        opt_num: u16,
        val: Option<u16>,
        Ghost(head): Ghost<Seq<u8>>,
        Ghost(opts): Ghost<Seq<OptionView>>,
    )
        requires
            old(self).holds(head, opts),
            old(self).prev_opt <= opt_num,
        ensures
            final(self).holds(head, opts + uint_option(opt_num, val)),
            final(self).prev_opt <= opt_num,
    {
        match val {
            Some(v) => {
                let mut enc: Vec<u8> = Vec::new();
                opt_uint_encode(v as u32, &mut enc);
                assert(enc@ =~= uint_bytes(v as int));
                self.opt(opt_num, enc.as_slice(), Ghost(head), Ghost(opts));
                assert(opts.push(OptionView { num: opt_num, value: enc@ }) =~= opts + uint_option(
                    opt_num,
                    val,
                ));
            },
            None => {
                assert(opts + uint_option(opt_num, val) =~= opts);
            },
        }
    }

    /// Appends a block option, if there is a block.
    fn opt_block(
        &mut self,
        opt_num: u16,
        block: Option<Block>,
        Ghost(head): Ghost<Seq<u8>>,
        Ghost(opts): Ghost<Seq<OptionView>>,
    )
        requires
            old(self).holds(head, opts),
            old(self).prev_opt <= opt_num,
        ensures
            final(self).holds(head, opts + block_option(opt_num, block)),
            final(self).prev_opt <= opt_num,
    {
        match block {
            Some(b) => {
                let mut enc: Vec<u8> = Vec::new();
                opt_uint_encode(b.encode_value(), &mut enc);
                assert(enc@ =~= uint_bytes(block_value(b)));
                self.opt(opt_num, enc.as_slice(), Ghost(head), Ghost(opts));
                assert(opts.push(OptionView { num: opt_num, value: enc@ }) =~= opts + block_option(
                    opt_num,
                    block,
                ));
            },
            None => {
                assert(opts + block_option(opt_num, block) =~= opts);
            },
        }
    }
}

/// Appends the extension bytes for a delta or length.
fn push_extension(n: u16, out: &mut Vec<u8>)
    ensures
        final(out)@ == old(out)@ + extension(n as int),
{
    let ghost start = out@;
    if n < 13 {
    } else if n < 269 {
        push_big_endian((n - 13) as u64, 1, out);
    } else {
        push_big_endian((n - 269) as u64, 2, out);
    }
    assert(out@ =~= start + extension(n as int));
}

/// Encodes one request message.
pub fn encode_request(p: &RequestParams) -> (r: Vec<u8>)
    ensures
        r@ == request_bytes(p@),
{
    let mut w = Writer { buf: Vec::new(), prev_opt: 0 };
    w.buf.push(0x41);
    w.buf.push(p.method.code());
    push_big_endian(p.msg_id as u64, 2, &mut w.buf);
    w.buf.push(p.token);
    let ghost head = request_head(p@);
    let ghost o0: Seq<OptionView> = Seq::empty();
    assert(w.buf@ =~= head + options_bytes(0, o0));
    let chars = chars_of(p.uri);
    let n: usize = chars.len();
    let mark = index_of(chars.as_slice(), '?', 0);
    let from: usize = if mark > 0 && chars[0] == '/' {
        1
    } else {
        0
    };
    let path = text_between(chars.as_slice(), from, mark);
    proof {
        let whole = p.uri@.subrange(0, mark as int);
        assert(whole.subrange(0, whole.len() as int) =~= whole);
        assert(path@ =~= uri_path(p.uri@));
    }
    let query = if mark < n {
        text_between(chars.as_slice(), mark + 1, n)
    } else {
        String::new()
    };
    assert(query@ == uri_query(p.uri@));
    w.opt_segments(OPT_URI_PATH, path.as_str(), '/', Ghost(head), Ghost(o0));
    let ghost o1 = o0 + text_options(OPT_URI_PATH, segments(uri_path(p.uri@), '/'));
    w.opt_uint(OPT_CONTENT_FORMAT, p.content_format, Ghost(head), Ghost(o1));
    let ghost o2 = o1 + uint_option(OPT_CONTENT_FORMAT, p.content_format);
    w.opt_segments(OPT_URI_QUERY, query.as_str(), '&', Ghost(head), Ghost(o2));
    let ghost o3 = o2 + text_options(OPT_URI_QUERY, segments(uri_query(p.uri@), '&'));
    w.opt_uint(OPT_ACCEPT, p.accept, Ghost(head), Ghost(o3));
    let ghost o4 = o3 + uint_option(OPT_ACCEPT, p.accept);
    let offer = Block { num: p.block2.num, more: false, szx: p.block2.szx };
    w.opt_block(OPT_BLOCK2, Some(offer), Ghost(head), Ghost(o4));
    let ghost o5 = o4 + block_option(OPT_BLOCK2, Some(offer));
    w.opt_block(OPT_BLOCK1, p.block1, Ghost(head), Ghost(o5));
    assert(o5 + block_option(OPT_BLOCK1, p.block1) =~= request_options(p@));
    let mut out = w.buf;
    if p.payload.len() > 0 {
        out.push(PAYLOAD_MARKER);
        out.extend_from_slice(p.payload);
    }
    assert(out@ =~= request_bytes(p@));
    out
}

/// A received message.
#[derive(Debug, Clone)]
pub struct ParsedMessage {
    pub msg_type: MsgType,
    pub code: u8,
    pub msg_id: u16,
    pub content_format: Option<u16>,
    pub block1: Option<Block>,
    pub block2: Option<Block>,
    pub payload: Vec<u8>,
}

/// What a [`ParsedMessage`] stands for.
#[verifier::ext_equal]
pub struct MessageView {
    pub msg_type: MsgType,
    pub code: u8,
    pub msg_id: u16,
    pub content_format: Option<u16>,
    pub block1: Option<Block>,
    pub block2: Option<Block>,
    pub payload: Seq<u8>,
}

impl View for ParsedMessage {
    type V = MessageView;

    open spec fn view(&self) -> MessageView {
        MessageView {
            msg_type: self.msg_type,
            code: self.code,
            msg_id: self.msg_id,
            content_format: self.content_format,
            block1: self.block1,
            block2: self.block2,
            payload: self.payload@,
        }
    }
}

/// The bytes are no message.
#[derive(Debug)]
pub struct ParseError;

/// A delta or length from its four header bits and the extension at `pos`,
/// with the place behind it. It is kept modulo 2^16.
pub open spec fn extended_at(msg: Seq<u8>, pos: int, bits: int) -> Option<(int, int)> {
    if bits == 13 {
        if pos < msg.len() {
            Some((msg[pos] + 13, pos + 1))
        } else {
            None
        }
    } else if bits == 14 {
        if pos + 1 < msg.len() {
            Some(((msg[pos] as int * 256 + msg[pos + 1] + 269) % 0x1_0000, pos + 2))
        } else {
            None
        }
    } else if bits == 15 {
        None
    } else {
        Some((bits, pos))
    }
}

/// The message once an option has been taken in. Only the content format and
/// the blocks are kept.
pub open spec fn with_option(m: MessageView, num: int, val: Seq<u8>) -> MessageView {
    if num == OPT_CONTENT_FORMAT {
        MessageView { content_format: Some((uint_of(val) % 0x1_0000) as u16), ..m }
    } else if num == OPT_BLOCK2 {
        MessageView { block2: Some(block_of(uint_of(val))), ..m }
    } else if num == OPT_BLOCK1 {
        MessageView { block1: Some(block_of(uint_of(val))), ..m }
    } else {
        m
    }
}

/// The message `m` with the options and the payload that stand at `pos`,
/// behind an option with number `prev`.
pub open spec fn options_at(msg: Seq<u8>, pos: int, prev: int, m: MessageView) -> Option<
    MessageView,
>
    decreases msg.len() - pos,
{
    if pos >= msg.len() {
        Some(m)
    } else if msg[pos] == PAYLOAD_MARKER {
        if pos + 1 >= msg.len() {
            None
        } else {
            Some(MessageView { payload: msg.subrange(pos + 1, msg.len() as int), ..m })
        }
    } else {
        match extended_at(msg, pos + 1, msg[pos] as int / 16) {
            None => None,
            Some((delta, p)) => match extended_at(msg, p, msg[pos] as int % 16) {
                None => None,
                Some((len, q)) => if q + len > msg.len() {
                    None
                } else {
                    let num = (prev + delta) % 0x1_0000;
                    options_at(
                        msg,
                        q + len,
                        num,
                        with_option(m, num, msg.subrange(q, q + len)),
                    )
                },
            },
        }
    }
}

/// The message that bytes stand for, if they do.
pub open spec fn parsed(msg: Seq<u8>) -> Option<MessageView> {
    if msg.len() < 4 || msg[0] as int / 64 != VERSION {
        None
    } else {
        let token_len = msg[0] as int % 16;
        if token_len > 8 || 4 + token_len > msg.len() {
            None
        } else {
            options_at(
                msg,
                4 + token_len,
                0,
                MessageView {
                    msg_type: msg_type(msg[0] as int / 16),
                    code: msg[1],
                    msg_id: (msg[2] as int * 256 + msg[3]) as u16,
                    content_format: None,
                    block1: None,
                    block2: None,
                    payload: Seq::empty(),
                },
            )
        }
    }
}

/// Whether the blocks of a message are such as an option can carry.
pub open spec fn blocks_fit(m: MessageView) -> bool {
    &&& m.block1 matches Some(b) ==> block_fits(b)
    &&& m.block2 matches Some(b) ==> block_fits(b)
}

/// A delta or length from its four header bits and its extension.
fn read_extended(msg: &[u8], pos: usize, bits: u8) -> (r: Option<(u16, usize)>)
    requires
        pos <= msg@.len(),
        bits < 16,
    ensures
        match r {
            Some((n, p)) => extended_at(msg@, pos as int, bits as int) == Some((n as int, p as int))
                && pos <= p <= msg@.len(),
            None => extended_at(msg@, pos as int, bits as int) is None,
        },
{
    if bits == 13 {
        if pos >= msg.len() {
            return None;
        }
        Some((msg[pos] as u16 + 13, pos + 1))
    } else if bits == 14 {
        if pos >= msg.len() || pos + 1 >= msg.len() {
            return None;
        }
        let n: u32 = msg[pos] as u32 * 256 + msg[pos + 1] as u32 + 269;
        Some(((n % 0x1_0000) as u16, pos + 2))
    } else if bits == 15 {
        None
    } else {
        Some((bits as u16, pos))
    }
}

/// Decodes one received message.
pub fn parse(msg: &[u8]) -> (r: Result<ParsedMessage, ParseError>)
    ensures
        match r {
            Ok(m) => parsed(msg@) == Some(m@) && blocks_fit(m@),
            Err(_) => parsed(msg@) is None,
        },
{
    if msg.len() < 4 {
        return Err(ParseError);
    }
    if msg[0] / 64 != VERSION {
        return Err(ParseError);
    }
    let token_len: usize = (msg[0] % 16) as usize;
    if token_len > 8 || 4 + token_len > msg.len() {
        return Err(ParseError);
    }
    let mut m = ParsedMessage {
        msg_type: MsgType::from_bits(msg[0] / 16),
        code: msg[1],
        msg_id: msg[2] as u16 * 256 + msg[3] as u16,
        content_format: None,
        block1: None,
        block2: None,
        payload: Vec::new(),
    };
    let total: usize = msg.len();
    let mut pos: usize = 4 + token_len;
    let mut prev: u16 = 0;
    assert(m.payload@ =~= Seq::empty());
    while pos < total
        invariant
            total == msg@.len(),
            pos <= total,
            m.payload@ == Seq::<u8>::empty(),
            blocks_fit(m@),
            parsed(msg@) == options_at(msg@, pos as int, prev as int, m@),
        decreases total - pos,
    {
        let head = msg[pos];
        if head == PAYLOAD_MARKER {
            if pos + 1 >= total {
                return Err(ParseError);
            }
            m.payload.extend_from_slice(&msg[pos + 1..total]);
            assert(m.payload@ =~= msg@.subrange(pos + 1, total as int));
            return Ok(m);
        }
        let (delta, after_delta) = match read_extended(msg, pos + 1, head / 16) {
            Some(found) => found,
            None => {
                return Err(ParseError);
            },
        };
        let (len, from) = match read_extended(msg, after_delta, head % 16) {
            Some(found) => found,
            None => {
                return Err(ParseError);
            },
        };
        let len: usize = len as usize;
        if len > total - from {
            return Err(ParseError);
        }
        let num: u16 = ((prev as u32 + delta as u32) % 0x1_0000) as u16;
        let val = &msg[from..from + len];
        if num == OPT_CONTENT_FORMAT {
            m.content_format = Some((opt_uint_decode(val) % 0x1_0000) as u16);
        } else if num == OPT_BLOCK2 {
            m.block2 = Some(Block::decode_value(opt_uint_decode(val)));
        } else if num == OPT_BLOCK1 {
            m.block1 = Some(Block::decode_value(opt_uint_decode(val)));
        }
        pos = from + len;
        prev = num;
    }
    Ok(m)
}

} // verus!
