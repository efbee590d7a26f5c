//! What each byte does to a decoder.
use vstd::prelude::*;

use crate::mup1::checksum::ChecksumType;
use crate::mup1::client::{drained, pending};
use crate::mup1::frame::{accepted, fetched, injected, ticked, DecoderView, FrameView, Phase};

verus! {

/// Whether a decoder has room for a byte: at most 609 are held.
pub open spec fn has_room(d: DecoderView) -> bool {
    d.settled.len() + d.open.len() < 609
}

/// The start byte 0x3E begins a frame wherever it stands, but in a checksum and
/// behind an escape byte: what was open before is settled.
pub proof fn law_the_start_byte_begins_a_frame(d: DecoderView)
    requires
        has_room(d),
        !(d.phase is Checksum),
        !(d.phase is DataEsc),
    ensures
        ({
            let e = injected(d, 0x3E);
            &&& e.phase is Sof
            &&& e.open == seq![0x3Eu8]
            &&& e.settled == d.settled + d.open
            &&& e.frames == d.frames && e.drop_count == d.drop_count
        }),
{
}

/// Behind the start byte stands the type. Data bytes are collected as they are;
/// behind the escape byte 0x5C a `0` stands for a zero byte, an `F` for a byte of
/// all ones, and any other byte for itself.
pub proof fn law_data_is_collected(d: DecoderView, ch: u8, t: u8, data: Seq<u8>)
    requires
        has_room(d),
    ensures
        ({
            let e = injected(d, ch);
            &&& d.phase is Sof && ch != 0x3E && ch != 0x3C ==> e.phase == (Phase::Data {
                type_byte: ch,
                data: Seq::empty(),
            }) && e.open == d.open.push(ch) && e.settled == d.settled
            &&& d.phase == (Phase::Data { type_byte: t, data }) && ch != 0x3E && ch != 0x3C && ch
                != 0x5C ==> e.phase == (Phase::Data { type_byte: t, data: data.push(ch) })
                && e.open == d.open.push(ch) && e.settled == d.settled
            &&& d.phase == (Phase::Data { type_byte: t, data }) && ch == 0x5C ==> e.phase == (
            Phase::DataEsc { type_byte: t, data }) && e.open == d.open.push(ch) && e.settled
                == d.settled
            &&& d.phase == (Phase::DataEsc { type_byte: t, data }) ==> e.phase == (Phase::Data {
                type_byte: t,
                data: data.push(
                    if ch == 0x30 {
                        0x00u8
                    } else if ch == 0x46 {
                        0xFFu8
                    } else {
                        ch
                    },
                ),
            }) && e.open == d.open.push(ch) && e.settled == d.settled
        }),
{
}

/// The end byte 0x3C leads to the checksum. Where that is the one's-complement
/// sum and the data is even, a second end byte has to come first, and anything
/// else gives the frame up.
pub proof fn law_end_bytes_lead_to_the_checksum(d: DecoderView, ch: u8, t: u8, data: Seq<u8>)
    requires
        has_room(d),
    ensures
        ({
            let e = injected(d, ch);
            let padded = d.checksum_type == ChecksumType::Internet && data.len() % 2 == 0;
            &&& d.phase == (Phase::Data { type_byte: t, data }) && ch == 0x3C && padded ==> e.phase
                == (Phase::Eof { type_byte: t, data })
            &&& d.phase == (Phase::Data { type_byte: t, data }) && ch == 0x3C && !padded
                ==> e.phase == (Phase::Checksum { type_byte: t, data, sum: Seq::empty() })
            &&& d.phase == (Phase::Eof { type_byte: t, data }) && ch == 0x3C ==> e.phase == (
            Phase::Checksum { type_byte: t, data, sum: Seq::empty() })
            &&& d.phase == (Phase::Eof { type_byte: t, data }) && ch != 0x3C && ch != 0x3E
                ==> e.phase is Idle && e.open.len() == 0 && e.settled == d.settled + d.open.push(ch)
            &&& d.phase is Sof && ch == 0x3C ==> e.phase is Idle && e.open.len() == 0 && e.settled
                == d.settled + d.open.push(ch)
        }),
{
    assert(d.settled + d.open + seq![ch] =~= d.settled + d.open.push(ch));
}

/// The one's-complement sum takes four bytes and the CRC five. With the last of
/// them a right frame is decoded, and a wrong one is given up: all its bytes are
/// settled.
pub proof fn law_checksums_decide(d: DecoderView, ch: u8, t: u8, data: Seq<u8>, sum: Seq<u8>)
    requires
        has_room(d),
        d.phase == (Phase::Checksum { type_byte: t, data, sum }),
    ensures
        ({
            let e = injected(d, ch);
            let n = if d.checksum_type == ChecksumType::Crc32 {
                5int
            } else {
                4int
            };
            &&& sum.len() + 1 < n ==> e.phase == (Phase::Checksum {
                type_byte: t,
                data,
                sum: sum.push(ch),
            }) && e.frames == d.frames && e.open == d.open.push(ch)
            &&& sum.len() + 1 >= n && accepted(d.checksum_type, t, data, sum.push(ch)) ==> e.phase
                is PostFrame && e.frames == d.frames.push(FrameView { type_byte: t, data })
                && e.open.len() == 0 && e.settled == d.settled
            &&& sum.len() + 1 >= n && !accepted(d.checksum_type, t, data, sum.push(ch))
                ==> e.phase is Idle && e.frames == d.frames && e.open.len() == 0 && e.settled
                == d.settled + d.open.push(ch)
        }),
{
    assert(d.settled + d.open + seq![ch] =~= d.settled + d.open.push(ch));
}

/// A carriage return and a line feed right behind a frame go; anything else that
/// is no frame is settled.
pub proof fn law_what_stands_between_frames(d: DecoderView, ch: u8)
    requires
        has_room(d),
    ensures
        ({
            let e = injected(d, ch);
            &&& d.phase is PostFrame && ch == 0x0D ==> e.phase is PostFrameCr && e.open == seq![
                0x0Du8,
            ] && e.settled == d.settled
            &&& d.phase is PostFrameCr && ch == 0x0A ==> e.phase is Idle && e.open.len() == 0
                && e.settled == d.settled
            &&& d.phase is PostFrameCr && ch != 0x0A && ch != 0x3E ==> e.phase is Idle
                && e.open.len() == 0 && e.settled == d.settled + d.open.push(ch)
            &&& d.phase is PostFrame && ch != 0x0D && ch != 0x3E ==> e.phase is Idle
                && e.open.len() == 0 && e.settled == d.settled + d.open.push(ch)
            &&& d.phase is Idle && ch != 0x3E ==> e.phase is Idle && e.open.len() == 0 && e.settled
                == d.settled + d.open.push(ch)
        }),
{
    assert(d.settled + d.open + seq![ch] =~= d.settled + d.open.push(ch));
}

/// A look at the clock notes the time if a byte was taken in since the last; else
/// an open frame is given up once the timeout has passed, and not before.
pub proof fn law_frames_time_out(d: DecoderView, now_ms: u64)
    ensures
        ({
            let e = ticked(d, now_ms);
            let late = now_ms - d.time_of_last_progress >= d.timeout_ms;
            &&& d.moved ==> !e.moved && e.time_of_last_progress == now_ms && e.open == d.open
                && e.phase == d.phase && e.settled == d.settled
            &&& !d.moved && d.open.len() > 0 && late ==> e.open.len() == 0 && e.phase is Idle
                && e.settled == d.settled + d.open
            &&& !d.moved && !late && d.timeout_ms > 0 ==> e == d
        }),
{
    assert(d.settled + d.open + Seq::<u8>::empty() =~= d.settled + d.open);
}

/// Frames are fetched before bytes that are none, the oldest first; the bytes
/// come together, as content of type 0xFF.
pub proof fn law_frames_are_fetched_first(d: DecoderView)
    ensures
        d.frames.len() > 0 ==> fetched(d).0 == Some(d.frames[0]),
        d.frames.len() == 0 && d.settled.len() > 0 ==> fetched(d).0 == Some(
            FrameView { type_byte: 0xFF, data: d.settled },
        ),
        d.frames.len() == 0 && d.settled.len() == 0 ==> fetched(d).0 is None,
        d.settled.len() == 0 ==> pending(d) == d.frames,
        d.settled.len() > 0 ==> pending(d) == d.frames.push(
            FrameView { type_byte: 0xFF, data: d.settled },
        ),
        pending(drained(d)).len() == 0,
        drained(d).open == d.open && drained(d).phase == d.phase,
{
}

} // verus!
