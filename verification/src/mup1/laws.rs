//! What framing and decoding do to each other, and what a decoder keeps.
use vstd::prelude::*;

use crate::mup1::checksum::{checksum_len, running_over, ChecksumType};
use crate::mup1::frame::{
    accepted, drops, end_bytes, ends_trailer, escaped_byte, fetched, frame_checksum, fresh, full, injected,
    injected_all, special, stuffed, stuffed_byte, ticked, unescaped_byte, wire, wire_body,
    DecoderView, FrameView, Phase, CR, EOF, ESC, LF, MAX_DATA_SIZE, RAW_BUF_CAP, SOF, TYPE_RAW,
};

verus! {

/// A byte that has to be escaped is got back from its escaped form.
pub proof fn law_unescape_of_escape(b: u8)
    requires
        special(b),
    ensures
        unescaped_byte(escaped_byte(b)) == b,
{
}

/// Feeding two pieces one after the other is feeding them as one.
pub proof fn law_injected_pieces(d: DecoderView, a: Seq<u8>, b: Seq<u8>)
    ensures
        injected_all(d, a + b) == injected_all(injected_all(d, a), b),
    decreases b.len(),
{
    if b.len() == 0 {
        assert(a + b =~= a);
    } else {
        assert((a + b).drop_last() =~= a + b.drop_last());
        law_injected_pieces(d, a, b.drop_last());
    }
}

proof fn lemma_inject_one(d: DecoderView, b: u8)
    ensures
        injected_all(d, seq![b]) == injected(d, b),
{
    reveal_with_fuel(injected_all, 2);
    assert(seq![b].drop_last() =~= Seq::empty());
}

proof fn lemma_inject_two(d: DecoderView, a: u8, b: u8)
    ensures
        injected_all(d, seq![a, b]) == injected(injected(d, a), b),
{
    assert(seq![a, b] =~= seq![a] + seq![b]);
    law_injected_pieces(d, seq![a], seq![b]);
    lemma_inject_one(d, a);
    lemma_inject_one(injected(d, a), b);
}

/// Data of length `n` takes at most twice that on the wire.
pub proof fn lemma_stuffed_length(data: Seq<u8>)
    ensures
        data.len() <= stuffed(data).len() <= 2 * data.len(),
    decreases data.len(),
{
    if data.len() > 0 {
        lemma_stuffed_length(data.drop_last());
    }
}

/// Within the data of a frame, stuffed bytes are taken as the data they
/// stand for.
proof fn lemma_inject_stuffed(
    d: DecoderView,
    type_byte: u8,
    seen: Seq<u8>,
    data: Seq<u8>,
)
    requires
        d.phase == (Phase::Data { type_byte, data: seen }),
        d.moved,
        d.settled.len() + d.open.len() + stuffed(data).len() <= RAW_BUF_CAP,
    ensures
        injected_all(d, stuffed(data)) == (DecoderView {
            open: d.open + stuffed(data),
            phase: Phase::Data { type_byte, data: seen + data },
            ..d
        }),
    decreases data.len(),
{
    if data.len() == 0 {
        assert(d.open + stuffed(data) =~= d.open);
        assert(seen + data =~= seen);
    } else {
        let most = data.drop_last();
        let b = data.last();
        lemma_inject_stuffed(d, type_byte, seen, most);
        law_injected_pieces(d, stuffed(most), stuffed_byte(b));
        let mid = injected_all(d, stuffed(most));
        if special(b) {
            lemma_inject_two(mid, ESC, escaped_byte(b));
            law_unescape_of_escape(b);
        } else {
            lemma_inject_one(mid, b);
        }
        assert((seen + most).push(b) =~= seen + data);
        assert(injected_all(d, stuffed(data)).open =~= d.open + stuffed(data));
    }
}

/// Within the checksum of a frame, the right bytes are collected.
proof fn lemma_inject_sum(d: DecoderView, type_byte: u8, data: Seq<u8>, n: int)
    requires
        d.phase == (Phase::Checksum { type_byte, data, sum: Seq::empty() }),
        d.moved,
        0 <= n < checksum_len(d.checksum_type),
        d.settled.len() + d.open.len() + n <= RAW_BUF_CAP,
    ensures
        ({
            let sum = frame_checksum(d.checksum_type, type_byte, data).subrange(0, n);
            injected_all(d, sum) == DecoderView {
                open: d.open + sum,
                phase: Phase::Checksum { type_byte, data, sum },
                ..d
            }
        }),
    decreases n,
{
    let whole = frame_checksum(d.checksum_type, type_byte, data);
    lemma_checksum_length(d.checksum_type, type_byte, data);
    let sum = whole.subrange(0, n);
    if n == 0 {
        assert(sum =~= Seq::empty());
        assert(d.open + sum =~= d.open);
    } else {
        lemma_inject_sum(d, type_byte, data, n - 1);
        assert(sum.drop_last() =~= whole.subrange(0, n - 1));
        assert(sum =~= sum.drop_last().push(sum.last()));
        assert(injected_all(d, sum).open =~= d.open + sum);
    }
}

/// A checksum has its fixed length.
pub proof fn lemma_checksum_length(t: ChecksumType, type_byte: u8, data: Seq<u8>)
    ensures
        frame_checksum(t, type_byte, data).len() == checksum_len(t),
{
    lemma_running_type(t, crate::mup1::frame::summed(t, type_byte, data));
}

proof fn lemma_running_type(t: ChecksumType, bytes: Seq<u8>)
    ensures
        t == ChecksumType::Internet <==> running_over(t, bytes) is Internet,
    decreases bytes.len(),
{
    if bytes.len() > 0 {
        lemma_running_type(t, bytes.drop_last());
    }
}

/// A frame that was encoded is decoded as that frame, and as nothing else,
/// as long as its bytes have room: no byte is left over, and what was there
/// before is settled. A start byte opens a frame everywhere but behind an
/// escape byte and in a checksum; the start and end bytes are no types.
pub proof fn law_decode_of_encode(d: DecoderView, type_byte: u8, data: Seq<u8>)
    requires
        !(d.phase is DataEsc),
        !(d.phase is Checksum),
        type_byte != SOF,
        type_byte != EOF,
        d.settled.len() + d.open.len() + wire_body(d.checksum_type, type_byte, data).len()
            <= RAW_BUF_CAP,
    ensures
        injected_all(d, wire(d.checksum_type, type_byte, data)) == (DecoderView {
            settled: d.settled + d.open,
            open: Seq::empty(),
            phase: Phase::Idle,
            frames: d.frames.push(FrameView { type_byte, data }),
            moved: true,
            ..d
        }),
{
    let t = d.checksum_type;
    let head = seq![SOF, type_byte];
    let body = stuffed(data);
    let ends = end_bytes(t, data.len());
    let sum = frame_checksum(t, type_byte, data);
    let tail = seq![CR, LF];
    lemma_checksum_length(t, type_byte, data);
    let n = sum.len() - 1;
    let most = sum.subrange(0, n);
    // The start and the type.
    lemma_inject_two(d, SOF, type_byte);
    let d1 = injected_all(d, head);
    assert(d1 =~= DecoderView {
        settled: d.settled + d.open,
        open: head,
        phase: Phase::Data { type_byte, data: Seq::empty() },
        moved: true,
        ..d
    });
    // The data.
    lemma_inject_stuffed(d1, type_byte, Seq::empty(), data);
    let d2 = injected_all(d1, body);
    assert(Seq::<u8>::empty() + data =~= data);
    // The end bytes.
    let d3 = injected_all(d2, ends);
    if t == ChecksumType::Internet && data.len() % 2 == 0 {
        lemma_inject_two(d2, EOF, EOF);
    } else {
        lemma_inject_one(d2, EOF);
    }
    assert(d3 =~= DecoderView {
        open: head + body + ends,
        phase: Phase::Checksum { type_byte, data, sum: Seq::empty() },
        ..d2
    });
    // The checksum.
    lemma_inject_sum(d3, type_byte, data, n);
    let d4 = injected_all(d3, most);
    assert(most.push(sum.last()) =~= sum);
    lemma_inject_one(d4, sum.last());
    let d5 = injected_all(d4, seq![sum.last()]);
    law_injected_pieces(d3, most, seq![sum.last()]);
    assert(most + seq![sum.last()] =~= sum);
    // The trailer.
    lemma_inject_two(d5, CR, LF);
    law_injected_pieces(d, head, body);
    law_injected_pieces(d, head + body, ends);
    law_injected_pieces(d, head + body + ends, sum);
    law_injected_pieces(d, wire_body(t, type_byte, data), tail);
}

/// Every frame of at most the largest data has room in a decoder that holds
/// nothing.
pub proof fn law_frame_has_room(t: ChecksumType, type_byte: u8, data: Seq<u8>)
    requires
        data.len() <= MAX_DATA_SIZE,
    ensures
        wire_body(t, type_byte, data).len() <= RAW_BUF_CAP,
{
    lemma_stuffed_length(data);
    lemma_checksum_length(t, type_byte, data);
}

/// Frames that were encoded one after the other come out in that order.
pub proof fn law_frames_in_order(t: ChecksumType, a: FrameView, b: FrameView)
    requires
        a.type_byte != SOF,
        a.type_byte != EOF,
        a.data.len() <= MAX_DATA_SIZE,
        b.type_byte != SOF,
        b.type_byte != EOF,
        b.data.len() <= MAX_DATA_SIZE,
    ensures
        ({
            let d = injected_all(
                fresh(t),
                wire(t, a.type_byte, a.data) + wire(t, b.type_byte, b.data),
            );
            let (first, d1) = fetched(d);
            let (second, d2) = fetched(d1);
            let (third, d3) = fetched(d2);
            first == Some(a) && second == Some(b) && third is None
        }),
{
    law_frame_has_room(t, a.type_byte, a.data);
    law_frame_has_room(t, b.type_byte, b.data);
    law_injected_pieces(
        fresh(t),
        wire(t, a.type_byte, a.data),
        wire(t, b.type_byte, b.data),
    );
    law_decode_of_encode(fresh(t), a.type_byte, a.data);
    let d1 = injected_all(fresh(t), wire(t, a.type_byte, a.data));
    assert(d1.settled =~= Seq::empty());
    law_decode_of_encode(d1, b.type_byte, b.data);
    let d = injected_all(d1, wire(t, b.type_byte, b.data));
    assert(d.settled =~= Seq::empty());
    assert(d.frames =~= seq![a, b]);
    assert(d.frames.drop_first() =~= seq![b]);
    assert(d.frames.drop_first().drop_first() =~= Seq::empty());
}

/// Whether the wire bytes `body` spell `data`: each data byte stands for
/// itself or behind an escape byte.
pub open spec fn spells(body: Seq<u8>, data: Seq<u8>) -> bool
    decreases data.len(),
{
    if data.len() == 0 {
        body.len() == 0
    } else {
        ||| body.len() >= 1 && body.last() == data.last() && spells(
            body.drop_last(),
            data.drop_last(),
        )
        ||| body.len() >= 2 && body[body.len() - 2] == ESC && unescaped_byte(body.last())
            == data.last() && spells(body.subrange(0, body.len() - 2), data.drop_last())
    }
}

/// Whether wire bytes are a frame with data `data`, up to the part `sum` of
/// its checksum.
pub open spec fn spells_frame(
    t: ChecksumType,
    bytes: Seq<u8>,
    type_byte: u8,
    data: Seq<u8>,
    sum: Seq<u8>,
) -> bool {
    let n = bytes.len() - end_bytes(t, data.len()).len() - sum.len();
    &&& n >= 2
    &&& bytes.subrange(0, 2) == seq![SOF, type_byte]
    &&& spells(bytes.subrange(2, n), data)
    &&& bytes.subrange(n, bytes.len() as int) == end_bytes(t, data.len()) + sum
}

/// What a decoder keeps between bytes: the verbatim bytes of the open frame
/// spell what it has of the frame.
pub open spec fn consistent(d: DecoderView) -> bool {
    &&& d.settled.len() + d.open.len() <= RAW_BUF_CAP
    &&& match d.phase {
        Phase::Idle | Phase::PostFrame => d.open.len() == 0,
        Phase::PostFrameCr => d.open == seq![CR],
        Phase::Sof => d.open == seq![SOF],
        Phase::Data { type_byte, data } => d.open.len() >= 2 && d.open.subrange(0, 2) == seq![
            SOF,
            type_byte,
        ] && spells(d.open.subrange(2, d.open.len() as int), data),
        Phase::DataEsc { type_byte, data } => d.open.len() >= 3 && d.open.subrange(0, 2) == seq![
            SOF,
            type_byte,
        ] && d.open.last() == ESC && spells(d.open.subrange(2, d.open.len() - 1), data),
        Phase::Eof { type_byte, data } => d.checksum_type == ChecksumType::Internet && data.len()
            % 2 == 0 && d.open.len() >= 3 && d.open.subrange(0, 2) == seq![SOF, type_byte]
            && d.open.last() == EOF && spells(d.open.subrange(2, d.open.len() - 1), data),
        Phase::Checksum { type_byte, data, sum } => sum.len() < checksum_len(d.checksum_type)
            && spells_frame(d.checksum_type, d.open, type_byte, data, sum),
    }
}

/// Injecting a byte, looking at the clock and fetching all keep a decoder
/// consistent, and a new one is.
pub proof fn law_stays_consistent(d: DecoderView, ch: u8, now_ms: u64)
    requires
        consistent(d),
    ensures
        consistent(fresh(d.checksum_type)),
        consistent(injected(d, ch)),
        consistent(ticked(d, now_ms)),
        consistent(fetched(d).1),
{
    let e = injected(d, ch);
    if !full(d) {
        let open = d.open.push(ch);
        match d.phase {
            Phase::Sof => {
                if ch != SOF && ch != EOF {
                    assert(open.subrange(0, 2) =~= seq![SOF, ch]);
                    assert(open.subrange(2, open.len() as int) =~= Seq::empty());
                }
            },
            Phase::Data { type_byte, data } => {
                assert(open.subrange(0, 2) =~= d.open.subrange(0, 2));
                let body = d.open.subrange(2, d.open.len() as int);
                assert(open.subrange(2, open.len() - 1) =~= body);
                if ch == EOF {
                    assert(open.subrange(open.len() - 1, open.len() as int) =~= seq![EOF]
                        + Seq::empty());
                } else if ch != SOF && ch != ESC {
                    assert(open.subrange(2, open.len() as int).drop_last() =~= body);
                    assert(data.push(ch).drop_last() =~= data);
                }
            },
            Phase::DataEsc { type_byte, data } => {
                assert(open.subrange(0, 2) =~= d.open.subrange(0, 2));
                let body = open.subrange(2, open.len() as int);
                assert(body.subrange(0, body.len() - 2) =~= d.open.subrange(2, d.open.len() - 1));
                assert(data.push(unescaped_byte(ch)).drop_last() =~= data);
            },
            Phase::Eof { type_byte, data } => {
                assert(open.subrange(0, 2) =~= d.open.subrange(0, 2));
                if ch == EOF {
                    assert(open.subrange(2, open.len() - 2) =~= d.open.subrange(
                        2,
                        d.open.len() - 1,
                    ));
                    assert(open.subrange(open.len() - 2, open.len() as int) =~= seq![EOF, EOF]
                        + Seq::empty());
                }
            },
            Phase::Checksum { type_byte, data, sum } => {
                lemma_spells_more(d, ch);
            },
            _ => {},
        }
    }
}

/// One more checksum byte keeps the bytes spelling the frame.
proof fn lemma_spells_more(d: DecoderView, ch: u8)
    requires
        consistent(d),
        d.phase is Checksum,
    ensures
        d.phase matches Phase::Checksum { type_byte, data, sum } && spells_frame(
            d.checksum_type,
            d.open.push(ch),
            type_byte,
            data,
            sum.push(ch),
        ),
{
    match d.phase {
        Phase::Checksum { type_byte, data, sum } => {
            let open = d.open.push(ch);
            let ends = end_bytes(d.checksum_type, data.len());
            let n = d.open.len() - ends.len() - sum.len();
            assert(open.subrange(0, 2) =~= d.open.subrange(0, 2));
            assert(open.subrange(2, n) =~= d.open.subrange(2, n));
            assert(open.subrange(n, open.len() as int) =~= d.open.subrange(
                n,
                d.open.len() as int,
            ).push(ch));
            assert((ends + sum).push(ch) =~= ends + sum.push(ch));
        },
        _ => {},
    }
}

/// No byte is lost while there is room. An injected byte is kept behind all
/// that was kept before; or with the byte before it, it is the carriage return
/// and line feed right behind a decoded frame, and both go; or it completes a
/// frame, whose verbatim bytes the frame then stands for.
pub proof fn law_no_byte_lost(d: DecoderView, ch: u8)
    requires
        consistent(d),
        !full(d),
    ensures
        ({
            let e = injected(d, ch);
            ||| e.frames == d.frames && e.settled + e.open == (d.settled + d.open).push(ch)
            ||| e.frames == d.frames && e.settled == d.settled && e.open.len() == 0 && d.phase
                is PostFrameCr && d.open.push(ch) == seq![CR, LF]
            ||| d.phase matches Phase::Checksum { type_byte, data, sum } && e.frames
                == d.frames.push(FrameView { type_byte, data }) && e.settled == d.settled
                && e.open.len() == 0 && spells_frame(
                d.checksum_type,
                d.open.push(ch),
                type_byte,
                data,
                sum.push(ch),
            ) && accepted(d.checksum_type, type_byte, data, sum.push(ch))
        }),
{
    let e = injected(d, ch);
    if d.phase is Checksum {
        lemma_spells_more(d, ch);
    }
    if ends_trailer(d, ch) {
        assert(d.open.push(ch) =~= seq![CR, LF]);
    } else if d.phase matches Phase::Checksum { type_byte, data, sum } && sum.len() + 1
        >= checksum_len(d.checksum_type) && accepted(
        d.checksum_type,
        type_byte,
        data,
        sum.push(ch),
    ) {
    } else {
        assert(e.settled + e.open =~= (d.settled + d.open).push(ch));
    }
}

/// A look at the clock and fetching lose no byte either: the one keeps all
/// verbatim bytes, the other hands out what it takes away.
pub proof fn law_looking_loses_nothing(d: DecoderView, now_ms: u64)
    ensures
        ticked(d, now_ms).settled + ticked(d, now_ms).open == d.settled + d.open,
        ticked(d, now_ms).frames == d.frames,
        fetched(d) matches (Some(f), e) ==> e.open == d.open && if d.frames.len() > 0 {
            seq![f] + e.frames == d.frames && e.settled == d.settled
        } else {
            f.type_byte == TYPE_RAW && f.data == d.settled && e.settled.len() == 0
        },
{
    assert(ticked(d, now_ms).settled + ticked(d, now_ms).open =~= d.settled + d.open);
    match fetched(d) {
        (Some(f), e) => {
            if d.frames.len() > 0 {
                assert(seq![f] + e.frames =~= d.frames);
            }
        },
        _ => {},
    }
}

/// A frame to which a byte was added since the last look at the clock is not
/// given up by the next one, however late it comes.
pub proof fn law_progress_is_waited_for(d: DecoderView, ch: u8, now_ms: u64)
    requires
        !drops(d, ch),
    ensures
        ({
            let e = injected(d, ch);
            let f = ticked(e, now_ms);
            f.phase == e.phase && f.open == e.open && f.settled == e.settled && f.frames == e.frames
        }),
{
}

/// A frame that makes no progress for the timeout is given up: all its bytes
/// are settled.
pub proof fn law_stalled_frame_is_given_up(d: DecoderView, first_ms: u64, then_ms: u64)
    requires
        d.open.len() > 0,
        first_ms + d.timeout_ms <= then_ms,
        d.moved || d.time_of_last_progress <= first_ms,
    ensures
        ticked(ticked(d, first_ms), then_ms).open.len() == 0,
        ticked(ticked(d, first_ms), then_ms).settled == d.settled + d.open,
{
    assert(d.settled + d.open + Seq::<u8>::empty() =~= d.settled + d.open);
}

/// Without room, one byte is dropped and counted, and all others are kept.
pub proof fn law_overflow_drops_one(d: DecoderView, ch: u8)
    requires
        consistent(d),
        drops(d, ch),
    ensures
        injected(d, ch).settled == d.settled + d.open,
        injected(d, ch).open.len() == 0,
        injected(d, ch).frames == d.frames,
        injected(d, ch).drop_count == (d.drop_count + 1) % 0x1_0000_0000_0000_0000,
{
    assert(d.settled + d.open + Seq::<u8>::empty() =~= d.settled + d.open);
}

} // verus!
