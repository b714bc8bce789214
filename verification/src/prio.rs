use std::collections::HashMap;
use std::sync::Arc;

use vstd::prelude::*;
use vstd::std_specs::hash::group_hash_axioms;
use vstd::std_specs::iter::IteratorSpec;

use crate::frame::{lemma_total_cost_append, total_cost, Frame, FrameView};
use crate::grab_laws::{queue_wf, streams_wf};
use crate::message::{message_wf, MessageBuffer, MessageView, OutgoingMessage};
use crate::serve::{frames_view, messages_view, messages_wf, serve, serve_messages};
use crate::types::{Bandwidth, Mid, Prio, Promises, Sid};

verus! {

broadcast use group_hash_axioms;

/// A stream's parameters and its queue of outgoing messages.
pub struct StreamInfo {
    pub guaranteed_bandwidth: Bandwidth,
    pub prio: Prio,
    pub promises: Promises,
    pub messages: Vec<OutgoingMessage>,
}

/// A stream as a mathematical value.
pub struct StreamView {
    pub guaranteed_bandwidth: Bandwidth,
    pub prio: Prio,
    pub promises: Promises,
    pub messages: Seq<MessageView>,
}

impl View for StreamInfo {
    type V = StreamView;

    open spec fn view(&self) -> StreamView {
        StreamView {
            guaranteed_bandwidth: self.guaranteed_bandwidth,
            prio: self.prio,
            promises: self.promises,
            messages: messages_view(self.messages@),
        }
    }
}

/// Responsible for queueing messages.
/// Every stream has a guaranteed bandwidth and a prio 0-7.
/// When `n` bytes are available in the buffer, first the guaranteed bandwidth
/// is used. Then the remaining bandwidth is used to fill up the prios.
pub struct PrioManager {
    streams: HashMap<Sid, StreamInfo>,
}

/// The highest priority level that gets bandwidth of its own.
pub const HIGHEST_PRIO: u8 = 7;

impl View for PrioManager {
    type V = Map<Sid, StreamView>;

    closed spec fn view(&self) -> Map<Sid, StreamView> {
        self.streams@.map_values(|s: StreamInfo| s@)
    }
}


/// The state of a `grab` in progress: the streams, the frames sent so far and
/// the bytes accounted for them.
pub struct GrabState {
    pub streams: Map<Sid, StreamView>,
    pub frames: Seq<FrameView>,
    pub spent: int,
    /// The stream and payload length of each message that left its queue, in
    /// the order they were reported.
    pub finished: Seq<(Sid, u64)>,
    /// For each frame sent, the stream that sent it.
    pub sources: Seq<Sid>,
}

/// A `grab` that has not sent anything yet.
pub open spec fn initial_state(streams: Map<Sid, StreamView>) -> GrabState {
    GrabState { streams, frames: seq![], spent: 0, finished: seq![], sources: seq![] }
}

/// Bytes that `bandwidth` bytes per second allow in `dt_nanos` nanoseconds,
/// rounded down and capped at `u64::MAX`.
pub open spec fn bytes_in(bandwidth: Bandwidth, dt_nanos: u128) -> int {
    let b = bandwidth * dt_nanos / 1_000_000_000;
    if b > u64::MAX { u64::MAX as int } else { b }
}

/// A byte count reinterpreted as a signed budget: counts above `i64::MAX`
/// wrap around to negative budgets.
pub open spec fn signed_budget(x: u64) -> int {
    if x <= i64::MAX { x as int } else { x - 0x1_0000_0000_0000_0000 }
}

/// The priority level whose streams a stream is counted with.
pub open spec fn prio_level(prio: Prio) -> int {
    if prio < HIGHEST_PRIO { prio as int } else { HIGHEST_PRIO as int }
}

/// Serves stream `sid` with a budget of `budget` bytes.
pub open spec fn serve_stream(st: GrabState, sid: Sid, budget: int) -> GrabState {
    let s = serve(st.streams[sid].messages, budget);
    GrabState {
        streams: st.streams.insert(sid, StreamView { messages: s.rest, ..st.streams[sid] }),
        frames: st.frames + s.frames,
        spent: st.spent + total_cost(s.frames),
        finished: st.finished + s.finished,
        sources: st.sources + Seq::new(s.frames.len(), |i: int| sid),
    }
}

/// `order` walks each open stream exactly once.
pub open spec fn is_walk_order(order: Seq<Sid>, streams: Map<Sid, StreamView>) -> bool {
    &&& order.no_duplicates()
    &&& forall|i: int| 0 <= i < order.len() ==> streams.contains_key(#[trigger] order[i])
    &&& forall|sid: Sid| streams.contains_key(sid) ==> order.contains(sid)
}

/// The first phase: each stream in `order` is served with the bytes that its
/// guaranteed bandwidth allows.
pub open spec fn guaranteed_phase(st: GrabState, order: Seq<Sid>, dt_nanos: u128) -> GrabState
    decreases order.len(),
{
    if order.len() == 0 {
        st
    } else {
        let prev = guaranteed_phase(st, order.drop_last(), dt_nanos);
        let sid = order.last();
        serve_stream(
            prev,
            sid,
            signed_budget(
                bytes_in(prev.streams[sid].guaranteed_bandwidth, dt_nanos) as u64,
            ),
        )
    }
}

/// How many streams of `order` are counted at priority level `level`.
pub open spec fn prio_count(streams: Map<Sid, StreamView>, order: Seq<Sid>, level: int) -> nat
    decreases order.len(),
{
    if order.len() == 0 {
        0
    } else {
        prio_count(streams, order.drop_last(), level) + if prio_level(
            streams[order.last()].prio,
        ) == level {
            1nat
        } else {
            0nat
        }
    }
}

/// Serves, in `order`, each stream whose prio is exactly `prio`, each with
/// `budget` bytes.
pub open spec fn prio_round(st: GrabState, order: Seq<Sid>, prio: int, budget: int) -> GrabState
    decreases order.len(),
{
    if order.len() == 0 {
        st
    } else {
        let prev = prio_round(st, order.drop_last(), prio, budget);
        let sid = order.last();
        if prev.streams[sid].prio == prio {
            serve_stream(prev, sid, budget)
        } else {
            prev
        }
    }
}

/// The second phase over the priority levels below `levels`: at each level
/// with counted streams, the bytes still left of `total` (none, once the
/// frames sent exceed it) are shared evenly among the streams counted there,
/// and the streams of exactly that prio are served with their share. A stream
/// is counted at the level of its prio, or at the highest level when its prio
/// is above it, so a stream whose prio is above the highest level takes a
/// share at that level but is not served. The streams counted are those of
/// `base`.
pub open spec fn optional_phase(
    st: GrabState,
    base: Map<Sid, StreamView>,
    order: Seq<Sid>,
    total: int,
    levels: nat,
) -> GrabState
    decreases levels,
{
    if levels == 0 {
        st
    } else {
        let prev = optional_phase(st, base, order, total, (levels - 1) as nat);
        let level = levels - 1;
        let cnt = prio_count(base, order, level);
        if cnt == 0 {
            prev
        } else {
            let left = if total > prev.spent { total - prev.spent } else { 0 };
            prio_round(prev, order, level, signed_budget((left / cnt as int) as u64))
        }
    }
}

/// What `grab` does when it walks the streams in `order`.
pub open spec fn grab_spec(
    streams: Map<Sid, StreamView>,
    order: Seq<Sid>,
    bandwidth: Bandwidth,
    dt_nanos: u128,
) -> GrabState {
    let first = guaranteed_phase(
        initial_state(streams),
        order,
        dt_nanos,
    );
    let total = bytes_in(bandwidth, dt_nanos);
    if first.spent < total {
        optional_phase(first, streams, order, total, (HIGHEST_PRIO + 1) as nat)
    } else {
        first
    }
}

/// The state of a `grab` in progress, read off the manager and the frames sent.
pub open spec fn grab_state(
    streams: Map<Sid, StreamView>,
    frames: Seq<Frame>,
    cur_bytes: u128,
    finished: Seq<(Sid, u64)>,
    sources: Seq<Sid>,
) -> GrabState {
    GrabState { streams, frames: frames_view(frames), spent: cur_bytes as int, finished, sources }
}

/// `bytes_in`, computed.
pub fn bytes_in_exec(bandwidth: Bandwidth, dt_nanos: u128) -> (b: u64)
    ensures
        b == bytes_in(bandwidth, dt_nanos),
{
    match (bandwidth as u128).checked_mul(dt_nanos) {
        Some(p) => {
            let b = p / 1_000_000_000;
            if b > u64::MAX as u128 {
                u64::MAX
            } else {
                b as u64
            }
        },
        None => {
            proof {
                let x = bandwidth * dt_nanos;
                assert(x / 1_000_000_000 > u64::MAX) by (nonlinear_arith)
                    requires
                        x > u128::MAX,
                ;
            }
            u64::MAX
        },
    }
}

/// `signed_budget`, computed.
pub fn to_signed_budget(x: u64) -> (b: i64)
    ensures
        b == signed_budget(x),
{
    if x <= i64::MAX as u64 {
        x as i64
    } else {
        -((u64::MAX - x) as i64) - 1
    }
}

/// Streams are counted at most once each.
proof fn lemma_prio_count_bound(streams: Map<Sid, StreamView>, order: Seq<Sid>, level: int)
    ensures
        prio_count(streams, order, level) <= order.len(),
    decreases order.len(),
{
    if order.len() > 0 {
        lemma_prio_count_bound(streams, order.drop_last(), level);
    }
}

impl PrioManager {
    /// Every queued message is in a reachable state.
    pub closed spec fn wf(&self) -> bool {
        forall|sid: Sid| #[trigger]
            self.streams@.contains_key(sid) ==> messages_wf(self.streams@[sid].messages@)
    }

    /// A manager without streams.
    pub fn new() -> (pm: Self)
        ensures
            pm.wf(),
            pm@ == Map::<Sid, StreamView>::empty(),
    {
        let pm = PrioManager { streams: HashMap::new() };
        proof {
            assert(pm@ =~= Map::<Sid, StreamView>::empty());
        }
        pm
    }

    /// Opens stream `sid` with an empty queue; a stream already open under that
    /// id is replaced.
    pub fn open_stream(
        &mut self,
        sid: Sid,
        prio: Prio,
        promises: Promises,
        guaranteed_bandwidth: Bandwidth,
    )
        requires
            old(self).wf(),
        ensures
            final(self).wf(),
            final(self)@ == old(self)@.insert(
                sid,
                StreamView { guaranteed_bandwidth, prio, promises, messages: seq![] },
            ),
    {
        let si = StreamInfo { guaranteed_bandwidth, prio, promises, messages: Vec::new() };
        proof {
            assert(messages_view(si.messages@) =~= Seq::<MessageView>::empty());
        }
        self.streams.insert(sid, si);
        proof {
            assert(self@ =~= old(self)@.insert(
                sid,
                StreamView { guaranteed_bandwidth, prio, promises, messages: seq![] },
            ));
        }
    }

    /// Closes stream `sid` when it is open and has nothing left to send, and
    /// says whether it did.
    pub fn try_close_stream(&mut self, sid: Sid) -> (closed: bool)
        requires
            old(self).wf(),
        ensures
            final(self).wf(),
            closed == (old(self)@.contains_key(sid) && old(self)@[sid].messages.len() == 0),
            final(self)@ == if closed {
                old(self)@.remove(sid)
            } else {
                old(self)@
            },
    {
        let empty = match self.streams.get(&sid) {
            Some(si) => si.messages.len() == 0,
            None => false,
        };
        if empty {
            self.streams.remove(&sid);
            proof {
                assert(self@ =~= old(self)@.remove(sid));
            }
            true
        } else {
            false
        }
    }

    /// Whether no stream is open.
    pub fn is_empty(&self) -> (r: bool)
        ensures
            r == self@.is_empty(),
    {
        let r = self.streams.is_empty();
        proof {
            assert(self@.dom() =~= self.streams@.dom());
        }
        r
    }

    /// Queues message `mid` with payload `buffer` at the end of stream `sid`.
    pub fn add(&mut self, buffer: Arc<MessageBuffer>, mid: Mid, sid: Sid)
        requires
            old(self).wf(),
            old(self)@.contains_key(sid),
        ensures
            final(self).wf(),
            final(self)@ == old(self)@.insert(
                sid,
                StreamView {
                    messages: old(self)@[sid].messages.push(
                        MessageView { mid, sid, data: buffer.data@, header_sent: false, sent: 0 },
                    ),
                    ..old(self)@[sid]
                },
            ),
    {
        let mut si = self.streams.remove(&sid).unwrap();
        let msg = OutgoingMessage::new(buffer, mid, sid);
        let ghost old_msgs = si.messages@;
        si.messages.push(msg);
        proof {
            assert(messages_view(si.messages@) =~= messages_view(old_msgs).push(msg@));
            assert(messages_wf(si.messages@));
        }
        self.streams.insert(sid, si);
        proof {
            assert(self@ =~= old(self)@.insert(
                sid,
                StreamView {
                    messages: old(self)@[sid].messages.push(
                        MessageView { mid, sid, data: buffer.data@, header_sent: false, sent: 0 },
                    ),
                    ..old(self)@[sid]
                },
            ));
        }
    }

    /// Serves stream `sid` with a budget of `budget` bytes.
    fn serve_one(
        &mut self,
        sid: Sid,
        budget: i64,
        frames: &mut Vec<Frame>,
        cur_bytes: &mut u128,
        finished: &mut Vec<(Sid, u64)>,
        Ghost(sources): Ghost<Seq<Sid>>,
    )
        requires
            old(self).wf(),
            old(self)@.contains_key(sid),
            *old(cur_bytes) == total_cost(frames_view(old(frames)@)),
        ensures
            final(self).wf(),
            grab_state(
                final(self)@,
                final(frames)@,
                *final(cur_bytes),
                final(finished)@,
                serve_stream(
                    grab_state(old(self)@, old(frames)@, *old(cur_bytes), old(finished)@, sources),
                    sid,
                    budget as int,
                ).sources,
            ) == serve_stream(
                grab_state(old(self)@, old(frames)@, *old(cur_bytes), old(finished)@, sources),
                sid,
                budget as int,
            ),
            *final(cur_bytes) == total_cost(frames_view(final(frames)@)),
            final(self)@.dom() == old(self)@.dom(),
            forall|s: Sid| #[trigger]
                final(self)@.contains_key(s) ==> final(self)@[s].prio == old(self)@[s].prio
                    && final(self)@[s].guaranteed_bandwidth == old(self)@[s].guaranteed_bandwidth,
    {
        let mut si = self.streams.remove(&sid).unwrap();
        let ghost frames0 = frames_view(frames@);
        let ghost served = serve(old(self)@[sid].messages, budget as int);
        serve_messages(&mut si.messages, budget, frames, cur_bytes, finished);
        proof {
            lemma_total_cost_append(frames0, served.frames);
        }
        self.streams.insert(sid, si);
        proof {
            let st = grab_state(old(self)@, old(frames)@, *old(cur_bytes), old(finished)@, sources);
            assert(self@ =~= serve_stream(st, sid, budget as int).streams);
            assert(self@.dom() =~= old(self)@.dom());
        }
    }

    /// Fills the frames to send in a time step of `dt_nanos` nanoseconds with
    /// a total bandwidth of `bandwidth` bytes per second, walking the streams
    /// in `order`. Bandwidth might be extended: a stream always sends at
    /// least one frame when it has one, and it stops only after the frame that
    /// used its budget up. Besides the frames, it returns the stream and the
    /// payload length of each message that left its queue, as it left.
    pub fn grab_in_order(
        &mut self,
        order: &Vec<Sid>,
        bandwidth: Bandwidth,
        dt_nanos: u128,
    ) -> (r: (Vec<Frame>, Vec<(Sid, u64)>))
        requires
            old(self).wf(),
            is_walk_order(order@, old(self)@),
        ensures
            final(self).wf(),
            final(self)@ == grab_spec(old(self)@, order@, bandwidth, dt_nanos).streams,
            frames_view(r.0@) == grab_spec(old(self)@, order@, bandwidth, dt_nanos).frames,
            r.1@ == grab_spec(old(self)@, order@, bandwidth, dt_nanos).finished,
    {
        let ghost base = self@;
        let ghost init = initial_state(base);
        let mut frames: Vec<Frame> = Vec::new();
        let mut cur_bytes: u128 = 0;
        let mut finished: Vec<(Sid, u64)> = Vec::new();
        let ghost mut sources: Seq<Sid> = seq![];
        let mut counts: Vec<u64> = vec![0u64; 8];
        proof {
            assert(frames_view(frames@) =~= Seq::<FrameView>::empty());
            assert(finished@ =~= Seq::<(Sid, u64)>::empty());
            assert(grab_state(self@, frames@, cur_bytes, finished@, sources) == init);
            assert(order@.take(0) =~= Seq::<Sid>::empty());
        }
        let n = order.len();
        let mut i: usize = 0;
        while i < n
            invariant
                n == order@.len(),
                i <= n,
                is_walk_order(order@, base),
                self.wf(),
                self@.dom() == base.dom(),
                forall|s: Sid| #[trigger]
                    self@.contains_key(s) ==> self@[s].prio == base[s].prio
                        && self@[s].guaranteed_bandwidth == base[s].guaranteed_bandwidth,
                *&cur_bytes == total_cost(frames_view(frames@)),
                grab_state(self@, frames@, cur_bytes, finished@, sources) == guaranteed_phase(
                    init,
                    order@.take(i as int),
                    dt_nanos,
                ),
                counts@.len() == 8,
                forall|l: int|
                    0 <= l < 8 ==> #[trigger] counts@[l] == prio_count(
                        base,
                        order@.take(i as int),
                        l,
                    ),
            decreases n - i,
        {
            let sid = order[i];
            let (gb, prio) = match self.streams.get(&sid) {
                Some(si) => (si.guaranteed_bandwidth, si.prio),
                None => (0, 0),
            };
            proof {
                assert(base.contains_key(sid));
                assert(self@.contains_key(sid));
                assert(order@.take(i + 1).drop_last() =~= order@.take(i as int));
                assert(order@.take(i + 1).last() == sid);
            }
            let level: usize = if prio < HIGHEST_PRIO { prio as usize } else { HIGHEST_PRIO as usize };
            proof {
                lemma_prio_count_bound(base, order@.take(i as int), level as int);
            }
            let c = counts[level];
            counts.set(level, c + 1);
            let budget = to_signed_budget(bytes_in_exec(gb, dt_nanos));
            let ghost before = grab_state(self@, frames@, cur_bytes, finished@, sources);
            self.serve_one(sid, budget, &mut frames, &mut cur_bytes, &mut finished, Ghost(sources));
            proof {
                sources = serve_stream(before, sid, budget as int).sources;
            }
            i = i + 1;
        }
        proof {
            assert(order@.take(n as int) =~= order@);
        }
        let ghost first = grab_state(self@, frames@, cur_bytes, finished@, sources);
        let total = bytes_in_exec(bandwidth, dt_nanos);
        if cur_bytes < total as u128 {
            let mut q: u8 = 0;
            while q <= HIGHEST_PRIO
                invariant
                    n == order@.len(),
                    is_walk_order(order@, base),
                    self.wf(),
                    self@.dom() == base.dom(),
                    forall|s: Sid| #[trigger]
                        self@.contains_key(s) ==> self@[s].prio == base[s].prio,
                    *&cur_bytes == total_cost(frames_view(frames@)),
                    q <= HIGHEST_PRIO + 1,
                    total == bytes_in(bandwidth, dt_nanos),
                    grab_state(self@, frames@, cur_bytes, finished@, sources) == optional_phase(
                        first,
                        base,
                        order@,
                        total as int,
                        q as nat,
                    ),
                    counts@.len() == 8,
                    forall|l: int| 0 <= l < 8 ==> #[trigger] counts@[l] == prio_count(base, order@, l),
                decreases HIGHEST_PRIO + 1 - q,
            {
                let ghost prev = grab_state(self@, frames@, cur_bytes, finished@, sources);
                let cnt = counts[q as usize];
                if cnt != 0 {
                    let left: u128 = if total as u128 > cur_bytes {
                        total as u128 - cur_bytes
                    } else {
                        0
                    };
                    let per = (left / cnt as u128) as u64;
                    let budget = to_signed_budget(per);
                    let mut j: usize = 0;
                    proof {
                        assert(order@.take(0) =~= Seq::<Sid>::empty());
                    }
                    while j < n
                        invariant
                            n == order@.len(),
                            j <= n,
                            is_walk_order(order@, base),
                            self.wf(),
                            self@.dom() == base.dom(),
                            forall|s: Sid| #[trigger]
                                self@.contains_key(s) ==> self@[s].prio == base[s].prio,
                            *&cur_bytes == total_cost(frames_view(frames@)),
                            grab_state(self@, frames@, cur_bytes, finished@, sources) == prio_round(
                                prev,
                                order@.take(j as int),
                                q as int,
                                budget as int,
                            ),
                        decreases n - j,
                    {
                        let sid = order[j];
                        let prio = match self.streams.get(&sid) {
                            Some(si) => si.prio,
                            None => 0,
                        };
                        proof {
                            assert(base.contains_key(sid));
                            assert(self@.contains_key(sid));
                            assert(order@.take(j + 1).drop_last() =~= order@.take(j as int));
                            assert(order@.take(j + 1).last() == sid);
                        }
                        if prio == q {
                            let ghost before = grab_state(self@, frames@, cur_bytes, finished@, sources);
                            self.serve_one(
                                sid,
                                budget,
                                &mut frames,
                                &mut cur_bytes,
                                &mut finished,
                                Ghost(sources),
                            );
                            proof {
                                sources = serve_stream(before, sid, budget as int).sources;
                            }
                        }
                        j = j + 1;
                    }
                    proof {
                        assert(order@.take(n as int) =~= order@);
                    }
                }
                q = q + 1;
            }
        }
        (frames, finished)
    }


    /// The order in which the map of streams is walked.
    fn walk_order(&self) -> (order: Vec<Sid>)
        ensures
            is_walk_order(order@, self@),
    {
        let mut order: Vec<Sid> = Vec::new();
        let ghost keys = self.streams.keys();
        proof {
            assert(keys.remaining().unref().to_set() == self.streams@.dom());
        }
        for sid in it: self.streams.keys()
            invariant
                it.seq() == keys.remaining(),
                order@ == it.seq().take(it.index()).unref(),
        {
            assert(*sid == *it.seq()[it.index()]);
            order.push(*sid);
            proof {
                assert(order@ =~= it.seq().take(it.index() + 1).unref());
            }
        }
        proof {
            let all = keys.remaining();
            assert(order@ =~= all.unref());
            assert(forall|i: int, j: int|
                0 <= i < order@.len() && 0 <= j < order@.len() && i != j ==> all[i] != all[j]);
            assert(forall|i: int| 0 <= i < order@.len() ==> all.unref().to_set().contains(
                #[trigger] order@[i],
            ));
            assert forall|sid: Sid| self@.contains_key(sid) implies order@.contains(sid) by {
                assert(all.unref().to_set().contains(sid));
            }
        }
        order
    }


    /// Fills the frames to send in a time step of `dt_nanos` nanoseconds with
    /// a total bandwidth of `bandwidth` bytes per second. The streams are
    /// walked in the order of the map that holds them, which nothing fixes:
    /// the result is that of `grab_in_order` for some walk of the streams.
    pub fn grab(&mut self, bandwidth: Bandwidth, dt_nanos: u128) -> (r: (
        Vec<Frame>,
        Vec<(Sid, u64)>,
    ))
        requires
            old(self).wf(),
        ensures
            final(self).wf(),
            exists|order: Seq<Sid>|
                {
                    &&& is_walk_order(order, old(self)@)
                    &&& final(self)@ == grab_spec(old(self)@, order, bandwidth, dt_nanos).streams
                    &&& frames_view(r.0@) == grab_spec(
                        old(self)@,
                        order,
                        bandwidth,
                        dt_nanos,
                    ).frames
                    &&& r.1@ == grab_spec(old(self)@, order, bandwidth, dt_nanos).finished
                },
    {
        let order = self.walk_order();
        self.grab_in_order(&order, bandwidth, dt_nanos)
    }


    /// The queues of a well-formed manager are in reachable states.
    pub proof fn lemma_streams_wf(&self)
        requires
            self.wf(),
        ensures
            streams_wf(self@),
    {
        assert forall|s: Sid| #[trigger] self@.contains_key(s) implies queue_wf(self@[s].messages) by {
            assert(self.streams@.contains_key(s));
            let v = self.streams@[s].messages@;
            assert forall|i: int| 0 <= i < self@[s].messages.len() implies message_wf(
                #[trigger] self@[s].messages[i],
            ) by {
                assert(v[i].wf());
                v[i].lemma_wf();
            }
        }
    }

}

/// A stream that was just opened has nothing queued, so `try_close_stream`
/// closes it at once, and closing it leaves every other stream as it was.
/// Once a message is queued on a stream, the stream no longer closes.
pub proof fn lemma_open_then_close(
    streams: Map<Sid, StreamView>,
    sid: Sid,
    prio: Prio,
    promises: Promises,
    guaranteed_bandwidth: Bandwidth,
    msg: MessageView,
)
    ensures
        ({
            let opened = streams.insert(
                sid,
                StreamView { guaranteed_bandwidth, prio, promises, messages: seq![] },
            );
            let added = opened.insert(
                sid,
                StreamView { messages: opened[sid].messages.push(msg), ..opened[sid] },
            );
            &&& opened.contains_key(sid) && opened[sid].messages.len() == 0
            &&& opened.remove(sid) == streams.remove(sid)
            &&& added[sid].messages.len() != 0
        }),
{
    let opened = streams.insert(
        sid,
        StreamView { guaranteed_bandwidth, prio, promises, messages: seq![] },
    );
    assert(opened.remove(sid) =~= streams.remove(sid));
}

} // verus!
