use std::sync::Arc;

use vstd::prelude::*;

use crate::frame::{Frame, FrameView};
use crate::types::{Mid, Sid};

verus! {

/// The payload of a message, shared between all the streams that send it.
pub struct MessageBuffer {
    pub data: Vec<u8>,
}

/// A message on its way out: it yields a header frame and then its payload
/// in data frames of at most `FRAME_DATA_SIZE` bytes.
pub struct OutgoingMessage {
    buffer: Arc<MessageBuffer>,
    send_index: u64,
    send_header: bool,
    mid: Mid,
    sid: Sid,
}

/// Payload bytes that one data frame carries at most.
pub const FRAME_DATA_SIZE: u64 = 1400;

/// An outgoing message as a mathematical value.
pub struct MessageView {
    pub mid: Mid,
    pub sid: Sid,
    pub data: Seq<u8>,
    pub header_sent: bool,
    pub sent: nat,
}

impl View for OutgoingMessage {
    type V = MessageView;

    closed spec fn view(&self) -> MessageView {
        MessageView {
            mid: self.mid,
            sid: self.sid,
            data: self.buffer.data@,
            header_sent: self.send_header,
            sent: self.send_index as nat,
        }
    }
}

/// A message state that the frame iteration can reach.
pub open spec fn message_wf(m: MessageView) -> bool {
    &&& m.sent <= m.data.len()
    &&& m.data.len() <= u64::MAX
}

/// The header frame of a message.
pub open spec fn header_frame(m: MessageView) -> FrameView {
    FrameView::DataHeader { mid: m.mid, sid: m.sid, length: m.data.len() as u64 }
}

/// The data frames that carry `data` from byte `from` on.
pub open spec fn data_frames(mid: Mid, data: Seq<u8>, from: nat) -> Seq<FrameView>
    decreases data.len() - from,
{
    if from >= data.len() {
        seq![]
    } else {
        let n: nat = if data.len() - from < FRAME_DATA_SIZE {
            (data.len() - from) as nat
        } else {
            FRAME_DATA_SIZE as nat
        };
        seq![FrameView::Data { mid, start: from as u64, data: data.subrange(from as int, (from + n) as int) }]
            + data_frames(mid, data, from + n)
    }
}

/// The frames that a message has still to yield, in order.
pub open spec fn pending(m: MessageView) -> Seq<FrameView> {
    if m.header_sent {
        data_frames(m.mid, m.data, m.sent)
    } else {
        seq![header_frame(m)] + data_frames(m.mid, m.data, m.sent)
    }
}

/// The message after it yielded one more frame.
pub open spec fn step(m: MessageView) -> MessageView {
    if !m.header_sent {
        MessageView { header_sent: true, ..m }
    } else if m.sent < m.data.len() {
        let rest = m.data.len() - m.sent;
        MessageView {
            sent: if rest < FRAME_DATA_SIZE { m.data.len() } else { (m.sent + FRAME_DATA_SIZE) as nat },
            ..m
        }
    } else {
        m
    }
}

/// The message after it yielded `k` more frames.
pub open spec fn advance(m: MessageView, k: nat) -> MessageView
    decreases k,
{
    if k == 0 {
        m
    } else {
        advance(step(m), (k - 1) as nat)
    }
}

/// One step consumes the first pending frame.
pub proof fn lemma_step_pending(m: MessageView)
    requires
        message_wf(m),
    ensures
        message_wf(step(m)),
        pending(m).len() == 0 ==> step(m) == m,
        pending(m).len() > 0 ==> pending(step(m)) =~= pending(m).drop_first(),
        step(m).mid == m.mid,
        step(m).sid == m.sid,
        step(m).data == m.data,
{
    if m.header_sent && m.sent < m.data.len() {
        assert(pending(step(m)) =~= pending(m).drop_first());
    }
}

/// Advancing by `k` frames drops the first `k` pending frames.
pub proof fn lemma_advance_pending(m: MessageView, k: nat)
    requires
        message_wf(m),
        k <= pending(m).len(),
    ensures
        message_wf(advance(m, k)),
        pending(advance(m, k)) =~= pending(m).skip(k as int),
        advance(m, k).mid == m.mid,
        advance(m, k).sid == m.sid,
        advance(m, k).data == m.data,
    decreases k,
{
    if k > 0 {
        lemma_step_pending(m);
        lemma_advance_pending(step(m), (k - 1) as nat);
        assert(pending(m).drop_first().skip(k - 1) =~= pending(m).skip(k as int));
    }
}

/// `advance` composes step by step.
pub proof fn lemma_advance_step(m: MessageView, k: nat)
    ensures
        advance(m, k + 1) == step(advance(m, k)),
    decreases k,
{
    assert(advance(m, k + 1) == advance(step(m), k));
    if k > 0 {
        lemma_advance_step(step(m), (k - 1) as nat);
        assert(advance(m, k) == advance(step(m), (k - 1) as nat));
    }
}

impl OutgoingMessage {
    pub closed spec fn wf(&self) -> bool {
        &&& self.send_index <= self.buffer.data.len()
    }

    pub proof fn lemma_wf(&self)
        requires
            self.wf(),
        ensures
            message_wf(self@),
    {
    }

    /// A message that has sent nothing yet.
    pub fn new(buffer: Arc<MessageBuffer>, mid: Mid, sid: Sid) -> (m: Self)
        ensures
            m.wf(),
            m@ == (MessageView { mid, sid, data: buffer.data@, header_sent: false, sent: 0 }),
    {
        OutgoingMessage { buffer, send_index: 0, send_header: false, mid, sid }
    }

    /// The stream and the payload length of the message.
    pub fn get_sid_len(&self) -> (r: (Sid, u64))
        ensures
            r.0 == self@.sid,
            r.1 == self@.data.len(),
    {
        (self.sid, self.buffer.data.len() as u64)
    }

    fn get_header(&self) -> (f: Frame)
        ensures
            f@ == header_frame(self@),
    {
        Frame::DataHeader { mid: self.mid, sid: self.sid, length: self.buffer.data.len() as u64 }
    }

    fn get_next_data(&mut self) -> (f: Frame)
        requires
            old(self).wf(),
            old(self)@.header_sent,
            old(self)@.sent < old(self)@.data.len(),
        ensures
            final(self).wf(),
            final(self)@ == step(old(self)@),
            f@ == pending(old(self)@)[0],
    {
        let len = self.buffer.data.len() as u64;
        let rest = len - self.send_index;
        let to_send = if rest < FRAME_DATA_SIZE { rest } else { FRAME_DATA_SIZE };
        let start = self.send_index;
        let mut data: Vec<u8> = Vec::new();
        let mut i: usize = start as usize;
        let end: usize = (start + to_send) as usize;
        while i < end
            invariant
                start <= i <= end,
                end == start + to_send,
                end <= self.buffer.data.len(),
                data@ =~= self.buffer.data@.subrange(start as int, i as int),
            decreases end - i,
        {
            data.push(self.buffer.data[i]);
            i = i + 1;
        }
        self.send_index = start + to_send;
        Frame::Data { mid: self.mid, start, data }
    }

    /// The next frame of the message, if it has one left.
    pub fn next(&mut self) -> (r: Option<Frame>)
        requires
            old(self).wf(),
        ensures
            final(self).wf(),
            final(self)@ == step(old(self)@),
            match r {
                None => pending(old(self)@).len() == 0,
                Some(f) => pending(old(self)@).len() > 0 && f@ == pending(old(self)@)[0],
            },
    {
        if !self.send_header {
            self.send_header = true;
            Some(self.get_header())
        } else if self.send_index < self.buffer.data.len() as u64 {
            Some(self.get_next_data())
        } else {
            None
        }
    }
}

} // verus!
