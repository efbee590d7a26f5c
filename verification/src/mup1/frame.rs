//! Frames on the wire, and the decoder that finds them in a byte stream.
use std::collections::VecDeque;

use vstd::prelude::*;

use crate::mup1::checksum::{
    checksum_len, checksum_text, encoded_len, ignores, is_ignore_sentinel, running_over,
    ChecksumType, Running,
};

use crate::mup1::laws::{consistent, law_stays_consistent};

verus! {

/// Starts a frame.
pub const SOF: u8 = 0x3E;

/// Ends the data of a frame.
pub const EOF: u8 = 0x3C;

/// Announces an escaped byte.
pub const ESC: u8 = 0x5C;

/// What a zero byte is escaped as.
pub const ESCAPED_00: u8 = 0x30;

/// What a byte of all ones is escaped as.
pub const ESCAPED_FF: u8 = 0x46;

/// First byte of the trailer.
pub const CR: u8 = 0x0D;

/// Second byte of the trailer.
pub const LF: u8 = 0x0A;

/// Largest data of a frame.
pub const MAX_DATA_SIZE: usize = 300;

/// The type of content that was recovered without being a frame: never a
/// type on the wire.
pub const TYPE_RAW: u8 = 0xFF;

/// How many verbatim bytes a decoder holds: a frame of the largest data with
/// every byte escaped. Bounds the memory on pathological input.
pub const RAW_BUF_CAP: usize = 1 + 1 + 2 * MAX_DATA_SIZE + 2 + 5;

/// Whether a data byte has to be escaped.
pub open spec fn special(b: u8) -> bool {
    b == SOF || b == EOF || b == ESC || b == 0x00 || b == 0xFF
}

/// What stands behind the escape byte for `b`.
pub open spec fn escaped_byte(b: u8) -> u8 {
    if b == 0x00 {
        ESCAPED_00
    } else if b == 0xFF {
        ESCAPED_FF
    } else {
        b
    }
}

/// The byte that an escaped byte stands for.
pub open spec fn unescaped_byte(b: u8) -> u8 {
    if b == ESCAPED_00 {
        0x00
    } else if b == ESCAPED_FF {
        0xFF
    } else {
        b
    }
}

/// Whether a data byte has to be escaped.
pub fn needs_escape(b: u8) -> (r: bool)
    ensures
        r == special(b),
{
    b == SOF || b == EOF || b == ESC || b == 0x00 || b == 0xFF
}

/// What stands behind the escape byte for `b`.
pub fn escape_byte(b: u8) -> (r: u8)
    ensures
        r == escaped_byte(b),
{
    if b == 0x00 {
        ESCAPED_00
    } else if b == 0xFF {
        ESCAPED_FF
    } else {
        b
    }
}

/// The byte that an escaped byte stands for.
pub fn unescape_byte(b: u8) -> (r: u8)
    ensures
        r == unescaped_byte(b),
{
    if b == ESCAPED_00 {
        0x00
    } else if b == ESCAPED_FF {
        0xFF
    } else {
        b
    }
}

/// A frame: a type and its data.
#[derive(Debug, Clone, PartialEq, Eq)]
pub struct Frame {
    pub type_byte: u8,
    pub data: Vec<u8>,
}

/// What a [`Frame`] stands for.
#[verifier::ext_equal]
pub struct FrameView {
    pub type_byte: u8,
    pub data: Seq<u8>,
}

impl View for Frame {
    type V = FrameView;

    open spec fn view(&self) -> FrameView {
        FrameView { type_byte: self.type_byte, data: self.data@ }
    }
}

/// The form that a data byte has on the wire.
pub open spec fn stuffed_byte(b: u8) -> Seq<u8> {
    if special(b) {
        seq![ESC, escaped_byte(b)]
    } else {
        seq![b]
    }
}

/// The form that data has on the wire.
pub open spec fn stuffed(data: Seq<u8>) -> Seq<u8>
    decreases data.len(),
{
    if data.len() == 0 {
        Seq::empty()
    } else {
        stuffed(data.drop_last()) + stuffed_byte(data.last())
    }
}

/// The end-of-data bytes behind data of length `n`: two where the
/// one's-complement sum needs padding to a whole word.
pub open spec fn end_bytes(t: ChecksumType, n: nat) -> Seq<u8> {
    if t == ChecksumType::Internet && n % 2 == 0 {
        seq![EOF, EOF]
    } else {
        seq![EOF]
    }
}

/// The bytes that a frame's checksum is made over.
pub open spec fn summed(t: ChecksumType, type_byte: u8, data: Seq<u8>) -> Seq<u8> {
    seq![SOF, type_byte] + data + end_bytes(t, data.len())
}

/// The checksum of a frame.
pub open spec fn frame_checksum(t: ChecksumType, type_byte: u8, data: Seq<u8>) -> Seq<u8> {
    checksum_text(running_over(t, summed(t, type_byte, data)))
}

/// A frame on the wire, without its trailer.
pub open spec fn wire_body(t: ChecksumType, type_byte: u8, data: Seq<u8>) -> Seq<u8> {
    seq![SOF, type_byte] + stuffed(data) + end_bytes(t, data.len()) + frame_checksum(
        t,
        type_byte,
        data,
    )
}

/// A frame on the wire, with the trailer that only serves display.
pub open spec fn wire(t: ChecksumType, type_byte: u8, data: Seq<u8>) -> Seq<u8> {
    wire_body(t, type_byte, data) + seq![CR, LF]
}

/// Encodes a complete frame, ready to be written to the wire.
pub fn encode(checksum_type: ChecksumType, type_byte: u8, data: &[u8]) -> (out: Vec<u8>)
    ensures
        out@ == wire(checksum_type, type_byte, data@),
{
    let mut running = Running::new(checksum_type);
    let mut out: Vec<u8> = Vec::new();
    let ghost head = seq![SOF, type_byte];
    running.update(SOF);
    out.push(SOF);
    running.update(type_byte);
    out.push(type_byte);
    proof {
        reveal_with_fuel(running_over, 3);
        assert(head.drop_last() =~= seq![SOF]);
        assert(head.drop_last().drop_last() =~= Seq::empty());
        assert(head + data@.subrange(0, 0) =~= head);
        assert(out@ =~= head + stuffed(data@.subrange(0, 0)));
    }
    let mut i: usize = 0;
    while i < data.len()
        invariant
            i <= data@.len(),
            head == seq![SOF, type_byte],
            running == running_over(checksum_type, head + data@.subrange(0, i as int)),
            out@ == head + stuffed(data@.subrange(0, i as int)),
        decreases data@.len() - i,
    {
        let b = data[i];
        running.update(b);
        if needs_escape(b) {
            out.push(ESC);
            out.push(escape_byte(b));
        } else {
            out.push(b);
        }
        proof {
            let next = data@.subrange(0, i + 1);
            assert(next.drop_last() =~= data@.subrange(0, i as int));
            assert((head + next).drop_last() =~= head + data@.subrange(0, i as int));
            assert(out@ =~= head + stuffed(next));
        }
        i += 1;
    }
    assert(data@.subrange(0, data@.len() as int) =~= data@);
    running.update(EOF);
    out.push(EOF);
    let ghost ended = head + data@ + seq![EOF];
    assert(ended.drop_last() =~= head + data@);
    if checksum_type == ChecksumType::Internet && data.len() % 2 == 0 {
        running.update(EOF);
        out.push(EOF);
        assert(summed(checksum_type, type_byte, data@).drop_last() =~= ended);
    } else {
        assert(summed(checksum_type, type_byte, data@) =~= ended);
    }
    let sum = running.finalize();
    out.extend_from_slice(sum.as_slice());
    out.push(CR);
    out.push(LF);
    assert(out@ =~= wire(checksum_type, type_byte, data@));
    out
}

/// Where a decoder is within a frame.
#[derive(Debug, Clone, Copy, PartialEq, Eq, Structural)]
enum State {
    Idle,
    Sof,
    Data,
    DataEsc,
    Eof,
    Checksum,
    PostFrame,
    PostFrameCr,
}

/// What came of an injected byte or of a tick.
#[derive(Debug, Clone, Copy, Default, PartialEq, Eq, Structural)]
pub struct InjectStatus {
    /// A frame, decoded or recovered, is ready.
    pub frame_ready: bool,
    /// The frame that was just completed failed its checksum and was
    /// recovered as raw content.
    pub checksum_error: bool,
    /// The byte did not fit and was dropped.
    pub buffer_full: bool,
}

/// Where a decoder is within a frame, and what it has of the frame.
#[verifier::ext_equal]
pub enum Phase {
    /// No frame is open.
    Idle,
    /// The start byte was seen.
    Sof,
    /// In the data.
    Data { type_byte: u8, data: Seq<u8> },
    /// In the data, right behind an escape byte.
    DataEsc { type_byte: u8, data: Seq<u8> },
    /// Waiting for the second end byte.
    Eof { type_byte: u8, data: Seq<u8> },
    /// In the checksum, of which `sum` was seen.
    Checksum { type_byte: u8, data: Seq<u8>, sum: Seq<u8> },
    /// Right behind a decoded frame.
    PostFrame,
    /// Right behind a decoded frame and the first trailer byte, which is held
    /// until the next byte tells whether it is one.
    PostFrameCr,
}

/// What a [`Decoder`] stands for.
#[verifier::ext_equal]
pub struct DecoderView {
    pub checksum_type: ChecksumType,
    /// Bytes that are known not to be part of a frame.
    pub settled: Seq<u8>,
    /// The verbatim bytes of the frame that is open, or a trailer byte that is
    /// held.
    pub open: Seq<u8>,
    pub phase: Phase,
    /// Decoded frames that were not fetched yet, oldest first.
    pub frames: Seq<FrameView>,
    pub drop_count: u64,
    pub timeout_ms: u64,
    /// Whether a byte was taken in since the last look at the clock.
    pub moved: bool,
    pub time_of_last_progress: u64,
}

/// A decoder that has seen nothing.
pub open spec fn fresh(t: ChecksumType) -> DecoderView {
    DecoderView {
        checksum_type: t,
        settled: Seq::empty(),
        open: Seq::empty(),
        phase: Phase::Idle,
        frames: Seq::empty(),
        drop_count: 0,
        timeout_ms: 500,
        moved: false,
        time_of_last_progress: 0,
    }
}

/// The decoder once the open frame has been given up: all its bytes are
/// settled, behind them `more`.
pub open spec fn given_up(d: DecoderView, more: Seq<u8>) -> DecoderView {
    DecoderView {
        settled: d.settled + d.open + more,
        open: Seq::empty(),
        phase: Phase::Idle,
        ..d
    }
}

/// Whether a received checksum `sum` is right for a frame.
pub open spec fn accepted(t: ChecksumType, type_byte: u8, data: Seq<u8>, sum: Seq<u8>) -> bool {
    ignores(t, sum) || sum == frame_checksum(t, type_byte, data)
}

/// Whether the verbatim bytes have run out of room.
pub open spec fn full(d: DecoderView) -> bool {
    d.settled.len() + d.open.len() >= RAW_BUF_CAP
}

/// The decoder after a byte that is none of the trailer's and has room.
pub open spec fn taken(d: DecoderView, ch: u8) -> DecoderView {
    let open = d.open.push(ch);
    match d.phase {
        Phase::Checksum { type_byte, data, sum } => {
            let sum = sum.push(ch);
            if sum.len() < checksum_len(d.checksum_type) {
                DecoderView { open, phase: Phase::Checksum { type_byte, data, sum }, ..d }
            } else if accepted(d.checksum_type, type_byte, data, sum) {
                DecoderView {
                    open: Seq::empty(),
                    phase: Phase::PostFrame,
                    frames: d.frames.push(FrameView { type_byte, data }),
                    ..d
                }
            } else {
                given_up(d, seq![ch])
            }
        },
        Phase::DataEsc { type_byte, data } => DecoderView {
            open,
            phase: Phase::Data { type_byte, data: data.push(unescaped_byte(ch)) },
            ..d
        },
        _ => if ch == SOF {
            DecoderView { settled: d.settled + d.open, open: seq![SOF], phase: Phase::Sof, ..d }
        } else {
            match d.phase {
                Phase::Sof => if ch == EOF {
                    given_up(d, seq![ch])
                } else {
                    DecoderView {
                        open,
                        phase: Phase::Data { type_byte: ch, data: Seq::empty() },
                        ..d
                    }
                },
                Phase::Data { type_byte, data } => if ch == ESC {
                    DecoderView { open, phase: Phase::DataEsc { type_byte, data }, ..d }
                } else if ch == EOF {
                    if d.checksum_type == ChecksumType::Internet && data.len() % 2 == 0 {
                        DecoderView { open, phase: Phase::Eof { type_byte, data }, ..d }
                    } else {
                        DecoderView {
                            open,
                            phase: Phase::Checksum { type_byte, data, sum: Seq::empty() },
                            ..d
                        }
                    }
                } else {
                    DecoderView { open, phase: Phase::Data { type_byte, data: data.push(ch) }, ..d }
                },
                Phase::Eof { type_byte, data } => if ch == EOF {
                    DecoderView {
                        open,
                        phase: Phase::Checksum { type_byte, data, sum: Seq::empty() },
                        ..d
                    }
                } else {
                    given_up(d, seq![ch])
                },
                _ => given_up(d, seq![ch]),
            }
        },
    }
}

/// Whether a byte is the second one of the trailer of a decoded frame.
pub open spec fn ends_trailer(d: DecoderView, ch: u8) -> bool {
    d.phase is PostFrameCr && ch == LF
}

/// Whether a byte is dropped for want of room. The end of a trailer takes
/// none.
pub open spec fn drops(d: DecoderView, ch: u8) -> bool {
    full(d) && !ends_trailer(d, ch)
}

/// The decoder after a byte. Only a carriage return and a line feed right
/// behind a decoded frame go: a carriage return alone is settled with the
/// next byte.
pub open spec fn injected(d: DecoderView, ch: u8) -> DecoderView {
    if drops(d, ch) {
        DecoderView {
            drop_count: ((d.drop_count + 1) % 0x1_0000_0000_0000_0000) as u64,
            ..given_up(d, Seq::empty())
        }
    } else if ends_trailer(d, ch) {
        DecoderView { open: Seq::empty(), phase: Phase::Idle, moved: true, ..d }
    } else if d.phase is PostFrame && ch == CR {
        DecoderView { open: seq![CR], phase: Phase::PostFrameCr, moved: true, ..d }
    } else {
        DecoderView { moved: true, ..taken(d, ch) }
    }
}

/// Whether a byte completes a frame whose checksum is wrong.
pub open spec fn fails_checksum(d: DecoderView, ch: u8) -> bool {
    &&& !full(d)
    &&& d.phase matches Phase::Checksum { type_byte, data, sum } && sum.len() + 1 >= checksum_len(
        d.checksum_type,
    ) && !accepted(d.checksum_type, type_byte, data, sum.push(ch))
}

/// Whether anything can be fetched.
pub open spec fn ready(d: DecoderView) -> bool {
    d.frames.len() > 0 || d.settled.len() > 0
}

/// The decoder after some bytes.
pub open spec fn injected_all(d: DecoderView, bytes: Seq<u8>) -> DecoderView
    decreases bytes.len(),
{
    if bytes.len() == 0 {
        d
    } else {
        injected(injected_all(d, bytes.drop_last()), bytes.last())
    }
}

/// The time from `since` to `now`, none if the clock went back.
pub open spec fn elapsed(since: u64, now: u64) -> int {
    if now >= since {
        now - since
    } else {
        0
    }
}

/// The decoder after a look at the clock: an open frame, or a trailer byte
/// that is held, is given up if no byte was taken in since the last look and
/// the last one was taken in at least the timeout ago.
pub open spec fn ticked(d: DecoderView, now_ms: u64) -> DecoderView {
    if d.moved {
        DecoderView { moved: false, time_of_last_progress: now_ms, ..d }
    } else if d.open.len() > 0 && elapsed(d.time_of_last_progress, now_ms) >= d.timeout_ms {
        given_up(d, Seq::empty())
    } else {
        d
    }
}

/// What is fetched next: the oldest decoded frame, else all settled bytes.
pub open spec fn fetched(d: DecoderView) -> (Option<FrameView>, DecoderView) {
    if d.frames.len() > 0 {
        (Some(d.frames[0]), DecoderView { frames: d.frames.drop_first(), ..d })
    } else if d.settled.len() > 0 {
        (
            Some(FrameView { type_byte: TYPE_RAW, data: d.settled }),
            DecoderView { settled: Seq::empty(), ..d },
        )
    } else {
        (None, d)
    }
}

/// A decoder that is fed the bytes of a wire one at a time.
///
/// No byte is discarded except when the verbatim bytes run out of room;
/// anything that is neither a frame nor the carriage return and line feed
/// right behind one comes back as raw content.
pub struct Decoder {
    checksum_type: ChecksumType,
    state: State,
    /// Verbatim bytes: `raw[..raw_head]` is settled, the rest is the open
    /// frame or a trailer byte that is held.
    raw: Vec<u8>,
    raw_head: usize,
    /// The type and the unescaped data of the open frame.
    type_byte: u8,
    data: Vec<u8>,
    running: Running,
    checksum_bytes: Vec<u8>,
    frames: VecDeque<Frame>,
    drop_count: u64,
    timeout_ms: u64,
    moved: bool,
    time_of_last_progress: u64,
}

impl View for Decoder {
    type V = DecoderView;

    closed spec fn view(&self) -> DecoderView {
        DecoderView {
            checksum_type: self.checksum_type,
            settled: self.raw@.subrange(0, self.raw_head as int),
            open: self.raw@.subrange(self.raw_head as int, self.raw@.len() as int),
            phase: self.phase(),
            frames: self.frames@.map_values(|f: Frame| f@),
            drop_count: self.drop_count,
            timeout_ms: self.timeout_ms,
            moved: self.moved,
            time_of_last_progress: self.time_of_last_progress,
        }
    }
}

impl Decoder {
    spec fn phase(&self) -> Phase {
        match self.state {
            State::Idle => Phase::Idle,
            State::Sof => Phase::Sof,
            State::Data => Phase::Data { type_byte: self.type_byte, data: self.data@ },
            State::DataEsc => Phase::DataEsc { type_byte: self.type_byte, data: self.data@ },
            State::Eof => Phase::Eof { type_byte: self.type_byte, data: self.data@ },
            State::Checksum => Phase::Checksum {
                type_byte: self.type_byte,
                data: self.data@,
                sum: self.checksum_bytes@,
            },
            State::PostFrame => Phase::PostFrame,
            State::PostFrameCr => Phase::PostFrameCr,
        }
    }

    /// The bytes that the running checksum was fed.
    spec fn fed_bytes(&self) -> Seq<u8> {
        match self.state {
            State::Sof => seq![SOF],
            State::Data | State::DataEsc => seq![SOF, self.type_byte] + self.data@,
            State::Eof => (seq![SOF, self.type_byte] + self.data@).push(EOF),
            State::Checksum => summed(self.checksum_type, self.type_byte, self.data@),
            _ => Seq::empty(),
        }
    }

    /// Whether no frame is open.
    spec fn at_rest(&self) -> bool {
        self.state == State::Idle || self.state == State::PostFrame || self.state
            == State::PostFrameCr
    }

    /// What holds between calls.
    pub closed spec fn wf(&self) -> bool {
        &&& consistent(self@)
        &&& self.raw_head <= self.raw@.len() <= RAW_BUF_CAP
        &&& !self.at_rest() ==> self.running == running_over(self.checksum_type, self.fed_bytes())
        &&& self.state == State::Eof ==> self.checksum_type == ChecksumType::Internet
            && self.data@.len() % 2 == 0
        &&& self.state == State::Checksum ==> self.checksum_bytes@.len() < checksum_len(
            self.checksum_type,
        )
    }

    /// Between calls a decoder is consistent.
    pub proof fn law_is_consistent(&self)
        requires
            self.wf(),
        ensures
            consistent(self@),
    {
    }

    /// A decoder that has seen nothing.
    pub fn new(checksum_type: ChecksumType) -> (r: Self)
        ensures
            r.wf(),
            r@ == fresh(checksum_type),
    {
        let r = Decoder {
            checksum_type,
            state: State::Idle,
            raw: Vec::new(),
            raw_head: 0,
            type_byte: 0,
            data: Vec::new(),
            running: Running::new(checksum_type),
            checksum_bytes: Vec::new(),
            frames: VecDeque::new(),
            drop_count: 0,
            timeout_ms: 500,
            moved: false,
            time_of_last_progress: 0,
        };
        assert(r@ =~= fresh(checksum_type));
        r
    }

    /// Sets how long an open frame may stall.
    pub fn set_timeout_ms(&mut self, ms: u64)
        requires
            old(self).wf(),
        ensures
            final(self).wf(),
            final(self)@ == (DecoderView { timeout_ms: ms, ..old(self)@ }),
    {
        self.timeout_ms = ms;
    }

    /// How many bytes were dropped for want of room.
    pub fn drop_count(&self) -> (r: u64)
        ensures
            r == self@.drop_count,
    {
        self.drop_count
    }

    /// Where things stand, with what the last byte did.
    fn status(&self, checksum_error: bool, buffer_full: bool) -> (r: InjectStatus)
        requires
            self.wf(),
        ensures
            r == (InjectStatus { frame_ready: ready(self@), checksum_error, buffer_full }),
    {
        InjectStatus {
            frame_ready: self.frames.len() > 0 || self.raw_head > 0,
            checksum_error,
            buffer_full,
        }
    }

    /// Gives the open frame up.
    fn resolve_raw(&mut self)
        requires
            old(self).raw_head <= old(self).raw@.len() <= RAW_BUF_CAP,
        ensures
            final(self).wf(),
            final(self)@ == given_up(old(self)@, Seq::empty()),
    {
        self.raw_head = self.raw.len();
        self.state = State::Idle;
        assert(self@ =~= given_up(old(self)@, Seq::empty()));
    }

    /// Whether the received checksum is right.
    fn checksum_ok(&self) -> (r: bool)
        requires
            self.state == State::Checksum,
            self.running == running_over(self.checksum_type, self.fed_bytes()),
        ensures
            r == accepted(self.checksum_type, self.type_byte, self.data@, self.checksum_bytes@),
    {
        if is_ignore_sentinel(self.checksum_type, self.checksum_bytes.as_slice()) {
            return true;
        }
        let sum = self.running.finalize();
        same_bytes(sum.as_slice(), self.checksum_bytes.as_slice())
    }

    /// Queues the completed frame in place of its verbatim bytes.
    fn resolve_success(&mut self)
        requires
            old(self).state == State::Checksum,
            old(self).raw_head <= old(self).raw@.len() <= RAW_BUF_CAP,
        ensures
            final(self).wf(),
            final(self)@ == (DecoderView {
                open: Seq::empty(),
                phase: Phase::PostFrame,
                frames: old(self)@.frames.push(
                    FrameView { type_byte: old(self).type_byte, data: old(self).data@ },
                ),
                ..old(self)@
            }),
    {
        let mut decoded: Vec<u8> = Vec::new();
        decoded.append(&mut self.data);
        let frame = Frame { type_byte: self.type_byte, data: decoded };
        assert(frame@ =~= FrameView { type_byte: old(self).type_byte, data: old(self).data@ });
        self.frames.push_back(frame);
        self.raw.truncate(self.raw_head);
        self.state = State::PostFrame;
        assert(self@.frames =~= old(self)@.frames.push(frame@));
        assert(self@.open =~= Seq::empty());
        assert(self@.settled =~= old(self)@.settled);
    }

    /// Feeds one received byte.
    #[verifier::rlimit(60)]
    pub fn inject(&mut self, ch: u8) -> (r: InjectStatus)
        requires
            old(self).wf(),
        ensures
            final(self).wf(),
            final(self)@ == injected(old(self)@, ch),
            r == (InjectStatus {
                frame_ready: ready(final(self)@),
                checksum_error: fails_checksum(old(self)@, ch),
                buffer_full: drops(old(self)@, ch),
            }),
    {
        let ghost before = self@;
        proof {
            law_stays_consistent(before, ch, 0);
        }
        if self.state == State::PostFrameCr && ch == LF {
            self.raw.truncate(self.raw_head);
            self.state = State::Idle;
            self.moved = true;
            assert(self.raw@.subrange(0, self.raw_head as int) =~= before.settled);
            assert(self@ =~= injected(before, ch));
            return self.status(false, false);
        }
        if self.raw.len() >= RAW_BUF_CAP {
            self.resolve_raw();
            self.drop_count = self.drop_count.wrapping_add(1);
            assert(self@ =~= injected(before, ch));
            return self.status(false, true);
        }
        self.moved = true;
        self.raw.push(ch);
        assert(self.raw@.subrange(0, self.raw_head as int) =~= before.settled);
        assert(self.raw@.subrange(self.raw_head as int, self.raw@.len() as int) =~= before.open.push(
            ch,
        ));
        if self.state == State::PostFrame && ch == CR {
            self.state = State::PostFrameCr;
            assert(before.open.push(ch) =~= seq![CR]);
            assert(self@ =~= injected(before, ch));
            return self.status(false, false);
        }
        if self.state == State::Checksum {
            self.checksum_bytes.push(ch);
            if self.checksum_bytes.len() < encoded_len(self.checksum_type) {
                assert(self@ =~= injected(before, ch));
                return self.status(false, false);
            }
            if self.checksum_ok() {
                self.resolve_success();
                assert(self@ =~= injected(before, ch));
                return self.status(false, false);
            }
            self.resolve_raw();
            assert(self@ =~= injected(before, ch));
            return self.status(true, false);
        }
        if self.state == State::DataEsc {
            let b = unescape_byte(ch);
            self.running.update(b);
            let ghost fed_before = self.fed_bytes();
            self.data.push(b);
            self.state = State::Data;
            assert(self.fed_bytes().drop_last() =~= fed_before);
            assert(self@ =~= injected(before, ch));
            return self.status(false, false);
        }
        if ch == SOF {
            self.raw_head = self.raw.len() - 1;
            self.running = Running::new(self.checksum_type);
            self.running.update(SOF);
            self.state = State::Sof;
            proof {
                reveal_with_fuel(running_over, 2);
                assert(seq![SOF].drop_last() =~= Seq::empty());
                assert(self@.settled =~= before.settled + before.open);
                assert(self@.open =~= seq![SOF]);
            }
            assert(self@ =~= injected(before, ch));
            return self.status(false, false);
        }
        if self.state == State::Sof {
            if ch == EOF {
                self.resolve_raw();
                assert(self@ =~= injected(before, ch));
                return self.status(false, false);
            }
            self.running.update(ch);
            self.type_byte = ch;
            self.data.clear();
            self.state = State::Data;
            assert(self.fed_bytes().drop_last() =~= seq![SOF]);
            assert(self@ =~= injected(before, ch));
            return self.status(false, false);
        }
        if self.state == State::Data {
            if ch == ESC {
                self.state = State::DataEsc;
                assert(self@ =~= injected(before, ch));
                return self.status(false, false);
            }
            let ghost fed_before = self.fed_bytes();
            self.running.update(ch);
            if ch == EOF {
                if self.checksum_type == ChecksumType::Internet && self.data.len() % 2 == 0 {
                    self.state = State::Eof;
                    assert(self.fed_bytes().drop_last() =~= fed_before);
                    assert(self@ =~= injected(before, ch));
                    return self.status(false, false);
                }
                self.checksum_bytes.clear();
                self.state = State::Checksum;
                assert(self.fed_bytes().drop_last() =~= fed_before);
                assert(self@ =~= injected(before, ch));
                return self.status(false, false);
            }
            self.data.push(ch);
            assert(self.fed_bytes().drop_last() =~= fed_before);
            assert(self@ =~= injected(before, ch));
            return self.status(false, false);
        }
        if self.state == State::Eof && ch == EOF {
            let ghost fed_before = self.fed_bytes();
            self.running.update(EOF);
            self.checksum_bytes.clear();
            self.state = State::Checksum;
            assert(self.fed_bytes().drop_last() =~= fed_before);
            assert(self@ =~= injected(before, ch));
            return self.status(false, false);
        }
        self.resolve_raw();
        assert(self@ =~= injected(before, ch));
        self.status(false, false)
    }

    /// Gives up an open frame that has made no progress for the timeout: to
    /// which no byte was added since the last call, nor for the timeout before
    /// this one. To be called regularly with a monotonic clock.
    pub fn tick(&mut self, now_ms: u64) -> (r: InjectStatus)
        requires
            old(self).wf(),
        ensures
            final(self).wf(),
            final(self)@ == ticked(old(self)@, now_ms),
            r == (InjectStatus {
                frame_ready: ready(final(self)@),
                checksum_error: false,
                buffer_full: false,
            }),
    {
        proof {
            law_stays_consistent(self@, 0, now_ms);
        }
        let open_len: usize = self.raw.len() - self.raw_head;
        if self.moved {
            self.moved = false;
            self.time_of_last_progress = now_ms;
        } else if open_len > 0 && now_ms.saturating_sub(self.time_of_last_progress)
            >= self.timeout_ms {
            self.resolve_raw();
        }
        assert(self@ =~= ticked(old(self)@, now_ms));
        self.status(false, false)
    }

    /// Fetches the next frame: the oldest decoded one, else what was settled
    /// as raw content.
    pub fn get(&mut self) -> (r: Option<Frame>)
        requires
            old(self).wf(),
        ensures
            final(self).wf(),
            match r {
                Some(f) => (Some(f@), final(self)@),
                None => (None, final(self)@),
            } == fetched(old(self)@),
    {
        let ghost before = self@;
        proof {
            law_stays_consistent(before, 0, 0);
        }
        let first = self.frames.pop_front();
        if first.is_some() {
            assert(self@ =~= fetched(before).1);
            return first;
        }
        assert(self@ =~= before);
        if self.raw_head > 0 {
            let mut open = self.raw.split_off(self.raw_head);
            let mut data: Vec<u8> = Vec::new();
            data.append(&mut self.raw);
            self.raw.append(&mut open);
            self.raw_head = 0;
            assert(data@ =~= before.settled);
            assert(self@ =~= fetched(before).1);
            return Some(Frame { type_byte: TYPE_RAW, data });
        }
        None
    }
}

/// Whether two byte strings are the same.
pub fn same_bytes(a: &[u8], b: &[u8]) -> (r: bool)
    ensures
        r == (a@ == b@),
{
    if a.len() != b.len() {
        return false;
    }
    let mut i: usize = 0;
    while i < a.len()
        invariant
            i <= a@.len(),
            a@.len() == b@.len(),
            forall|k: int| 0 <= k < i ==> a@[k] == b@[k],
        decreases a@.len() - i,
    {
        if a[i] != b[i] {
            return false;
        }
        i += 1;
    }
    assert(a@ =~= b@);
    true
}

} // verus!
