use vstd::prelude::*;

use crate::types::{Mid, Sid};

verus! {

/// The frames that carry a message over the wire.
#[derive(Debug, PartialEq, Eq)]
pub enum Frame {
    /// Announces a message and its total length.
    DataHeader { mid: Mid, sid: Sid, length: u64 },
    /// A slice of a message's payload that starts at byte `start`.
    Data { mid: Mid, start: u64, data: Vec<u8> },
}

/// A frame as a mathematical value.
pub enum FrameView {
    DataHeader { mid: Mid, sid: Sid, length: u64 },
    Data { mid: Mid, start: u64, data: Seq<u8> },
}

impl View for Frame {
    type V = FrameView;

    open spec fn view(&self) -> FrameView {
        match self {
            Frame::DataHeader { mid, sid, length } => FrameView::DataHeader {
                mid: *mid,
                sid: *sid,
                length: *length,
            },
            Frame::Data { mid, start, data } => FrameView::Data {
                mid: *mid,
                start: *start,
                data: data@,
            },
        }
    }
}

/// Bytes that a header frame is accounted for.
pub const HEADER_FRAME_COST: u64 = 25;

/// Bytes that a data frame is accounted for, whatever its payload.
pub const DATA_FRAME_COST: u64 = 1419;

/// The number of bytes that the scheduler accounts for one frame.
pub open spec fn frame_cost(f: FrameView) -> int {
    match f {
        FrameView::DataHeader { .. } => HEADER_FRAME_COST as int,
        FrameView::Data { .. } => DATA_FRAME_COST as int,
    }
}

/// The accounted bytes of a sequence of frames.
pub open spec fn total_cost(frames: Seq<FrameView>) -> int
    decreases frames.len(),
{
    if frames.len() == 0 {
        0
    } else {
        total_cost(frames.drop_last()) + frame_cost(frames.last())
    }
}

/// Accounted bytes of a concatenation add up.
pub proof fn lemma_total_cost_append(a: Seq<FrameView>, b: Seq<FrameView>)
    ensures
        total_cost(a + b) == total_cost(a) + total_cost(b),
    decreases b.len(),
{
    if b.len() == 0 {
        assert(a + b =~= a);
    } else {
        lemma_total_cost_append(a, b.drop_last());
        assert((a + b).drop_last() =~= a + b.drop_last());
    }
}

/// The accounted bytes of the frame, computed.
pub fn cost_of(f: &Frame) -> (c: u64)
    ensures
        c == frame_cost(f@),
{
    match f {
        Frame::DataHeader { .. } => HEADER_FRAME_COST,
        Frame::Data { .. } => DATA_FRAME_COST,
    }
}

} // verus!
