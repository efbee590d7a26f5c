//! One end of a line: frames to bytes and bytes to frames.
use vstd::prelude::*;

use crate::mup1::checksum::ChecksumType;
use crate::mup1::frame::{
    encode, fresh, injected_all, ticked, wire, Decoder, DecoderView, Frame, FrameView, TYPE_RAW,
};

verus! {

/// The views of some frames.
pub open spec fn frame_views(frames: Seq<Frame>) -> Seq<FrameView> {
    frames.map_values(|f: Frame| f@)
}

/// All that can be fetched: the decoded frames, then the settled bytes.
pub open spec fn pending(d: DecoderView) -> Seq<FrameView> {
    if d.settled.len() > 0 {
        d.frames.push(FrameView { type_byte: TYPE_RAW, data: d.settled })
    } else {
        d.frames
    }
}

/// The decoder once all has been fetched.
pub open spec fn drained(d: DecoderView) -> DecoderView {
    DecoderView { frames: Seq::empty(), settled: Seq::empty(), ..d }
}

/// Turns frames into bytes to send, and received bytes into frames. The one
/// who holds the line does the reading and writing.
pub struct Mup1Client {
    decoder: Decoder,
    checksum_type: ChecksumType,
}

impl View for Mup1Client {
    type V = DecoderView;

    closed spec fn view(&self) -> DecoderView {
        self.decoder@
    }
}

impl Mup1Client {
    /// What holds between calls.
    pub closed spec fn wf(&self) -> bool {
        self.decoder.wf() && self.decoder@.checksum_type == self.checksum_type
    }

    /// A client that has received nothing.
    pub fn new(checksum_type: ChecksumType) -> (r: Self)
        ensures
            r.wf(),
            r@ == fresh(checksum_type),
    {
        Mup1Client { decoder: Decoder::new(checksum_type), checksum_type }
    }

    /// The bytes to write for one frame.
    pub fn send(&self, type_byte: u8, data: &[u8]) -> (r: Vec<u8>)
        requires
            self.wf(),
        ensures
            r@ == wire(self@.checksum_type, type_byte, data@),
    {
        encode(self.checksum_type, type_byte, data)
    }

    /// Takes in what was read from the line and gives every frame that is
    /// ready, in order.
    pub fn poll(&mut self, received: &[u8], now_ms: u64) -> (r: Vec<Frame>)
        requires
            old(self).wf(),
        ensures
            final(self).wf(),
            final(self)@ == drained(ticked(injected_all(old(self)@, received@), now_ms)),
            frame_views(r@) == pending(ticked(injected_all(old(self)@, received@), now_ms)),
    {
        let ghost start = self@;
        let mut i: usize = 0;
        assert(received@.subrange(0, 0) =~= Seq::empty());
        while i < received.len()
            invariant
                i <= received@.len(),
                self.wf(),
                self@ == injected_all(start, received@.subrange(0, i as int)),
            decreases received@.len() - i,
        {
            assert(received@.subrange(0, i + 1).drop_last() =~= received@.subrange(0, i as int));
            self.decoder.inject(received[i]);
            i += 1;
        }
        assert(received@.subrange(0, received@.len() as int) =~= received@);
        self.decoder.tick(now_ms);
        let ghost all = self@;
        let mut out: Vec<Frame> = Vec::new();
        assert(frame_views(out@) + pending(self@) =~= pending(all));
        loop
            invariant
                self.wf(),
                start == old(self)@,
                all == ticked(injected_all(start, received@), now_ms),
                frame_views(out@) + pending(self@) == pending(all),
                drained(self@) == drained(all),
            decreases pending(self@).len(),
        {
            let ghost before = self@;
            let ghost had = frame_views(out@);
            match self.decoder.get() {
                Some(f) => {
                    out.push(f);
                    assert(frame_views(out@) =~= had.push(f@));
                    assert(pending(before) =~= seq![f@] + pending(self@));
                    assert(frame_views(out@) + pending(self@) =~= had + pending(before));
                },
                None => {
                    assert(pending(self@) =~= Seq::empty());
                    assert(frame_views(out@) =~= pending(all));
                    assert(drained(self@) =~= self@);
                    return out;
                },
            }
        }
    }
}

} // verus!
