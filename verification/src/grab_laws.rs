use vstd::prelude::*;
use vstd::seq_lib::lemma_multiset_commutative;

use crate::frame::{lemma_total_cost_append, total_cost, FrameView};
use crate::message::{message_wf, MessageView};
use crate::prio::{
    grab_spec, guaranteed_phase, initial_state, optional_phase, prio_round, serve_stream, GrabState, StreamView,
    is_walk_order, signed_budget, bytes_in, prio_count,
};
use crate::serve::{lemma_serve_conserves, pending_all, serve};
use crate::types::Sid;

verus! {

broadcast use vstd::multiset::group_multiset_axioms;

/// Every message of the queue is in a reachable state.
pub open spec fn queue_wf(msgs: Seq<MessageView>) -> bool {
    forall|i: int| 0 <= i < msgs.len() ==> message_wf(#[trigger] msgs[i])
}

/// Every queue of the streams is in a reachable state.
pub open spec fn streams_wf(streams: Map<Sid, StreamView>) -> bool {
    forall|s: Sid| #[trigger] streams.contains_key(s) ==> queue_wf(streams[s].messages)
}

/// `a` is what is left of `b` after some frames were taken from its front.
pub open spec fn is_suffix(a: Seq<FrameView>, b: Seq<FrameView>) -> bool {
    a.len() <= b.len() && a =~= b.skip(b.len() - a.len())
}

/// The frames pending in all streams, stream by stream in `order`.
pub open spec fn queue_frames(streams: Map<Sid, StreamView>, order: Seq<Sid>) -> Seq<FrameView>
    decreases order.len(),
{
    if order.len() == 0 {
        seq![]
    } else {
        queue_frames(streams, order.drop_last()) + pending_all(streams[order.last()].messages)
    }
}

/// The frames among `frames` that `sources` attributes to stream `s`, in
/// order.
pub open spec fn frames_from(frames: Seq<FrameView>, sources: Seq<Sid>, s: Sid) -> Seq<FrameView>
    decreases frames.len(),
{
    if frames.len() == 0 || sources.len() == 0 {
        seq![]
    } else {
        let prev = frames_from(frames.drop_last(), sources.drop_last(), s);
        if sources.last() == s {
            prev.push(frames.last())
        } else {
            prev
        }
    }
}

/// Appending frames all sent by `sid` adds them to what `sid` sent and to
/// nothing else.
proof fn lemma_frames_from_append(
    frames: Seq<FrameView>,
    sources: Seq<Sid>,
    f: Seq<FrameView>,
    sid: Sid,
    s: Sid,
)
    requires
        frames.len() == sources.len(),
    ensures
        frames_from(frames + f, sources + Seq::new(f.len(), |i: int| sid), s) == frames_from(
            frames,
            sources,
            s,
        ) + if s == sid {
            f
        } else {
            seq![]
        },
    decreases f.len(),
{
    let rep = Seq::new(f.len(), |i: int| sid);
    if f.len() == 0 {
        assert(frames + f =~= frames);
        assert(sources + rep =~= sources);
        assert(frames_from(frames, sources, s) + Seq::<FrameView>::empty() =~= frames_from(
            frames,
            sources,
            s,
        ));
    } else {
        let f1 = f.drop_last();
        let rep1 = Seq::new(f1.len(), |i: int| sid);
        lemma_frames_from_append(frames, sources, f1, sid, s);
        assert((frames + f).drop_last() =~= frames + f1);
        assert((sources + rep).drop_last() =~= sources + rep1);
        assert((frames + f).last() == f.last());
        assert((sources + rep).last() == sid);
        if s == sid {
            assert(frames_from(frames, sources, s) + f1.push(f.last()) =~= frames_from(
                frames,
                sources,
                s,
            ) + f);
            assert((frames_from(frames, sources, s) + f1).push(f.last()) =~= frames_from(
                frames,
                sources,
                s,
            ) + f1.push(f.last()));
        }
    }
}

/// What stays true while `grab` runs, measured against the streams `base`
/// that it started from.
pub open spec fn grab_inv(st: GrabState, base: Map<Sid, StreamView>, order: Seq<Sid>) -> bool {
    &&& st.streams.dom() == base.dom()
    &&& forall|s: Sid| #[trigger]
        st.streams.contains_key(s) ==> {
            &&& st.streams[s].prio == base[s].prio
            &&& st.streams[s].guaranteed_bandwidth == base[s].guaranteed_bandwidth
            &&& st.streams[s].promises == base[s].promises
            &&& queue_wf(st.streams[s].messages)
            &&& is_suffix(pending_all(st.streams[s].messages), pending_all(base[s].messages))
        }
    &&& st.spent == total_cost(st.frames)
    &&& st.sources.len() == st.frames.len()
    &&& forall|i: int| 0 <= i < st.sources.len() ==> base.contains_key(#[trigger] st.sources[i])
    &&& forall|s: Sid| #[trigger]
        base.contains_key(s) ==> frames_from(st.frames, st.sources, s) + pending_all(
            st.streams[s].messages,
        ) == pending_all(base[s].messages)
    &&& st.frames.to_multiset().add(queue_frames(st.streams, order).to_multiset())
        == queue_frames(base, order).to_multiset()
}

/// Changing the entry of a stream that `order` does not walk leaves the
/// pending frames along `order` as they are.
proof fn lemma_queue_frames_other(
    streams: Map<Sid, StreamView>,
    order: Seq<Sid>,
    sid: Sid,
    v: StreamView,
)
    requires
        !order.contains(sid),
    ensures
        queue_frames(streams.insert(sid, v), order) == queue_frames(streams, order),
    decreases order.len(),
{
    if order.len() > 0 {
        assert(!order.drop_last().contains(sid)) by {
            if order.drop_last().contains(sid) {
                let k = choose|k: int| 0 <= k < order.drop_last().len() && order.drop_last()[k] == sid;
                assert(order[k] == sid);
            }
        }
        lemma_queue_frames_other(streams, order.drop_last(), sid, v);
        assert(order.last() != sid) by {
            assert(order[order.len() - 1] == order.last());
        }
    }
}

/// Changing the entry of a stream that `order` walks once exchanges its
/// pending frames in the multiset of all pending frames.
proof fn lemma_queue_frames_update(
    streams: Map<Sid, StreamView>,
    order: Seq<Sid>,
    sid: Sid,
    v: StreamView,
)
    requires
        order.no_duplicates(),
        order.contains(sid),
    ensures
        queue_frames(streams, order).to_multiset().add(pending_all(v.messages).to_multiset())
            == queue_frames(streams.insert(sid, v), order).to_multiset().add(
            pending_all(streams[sid].messages).to_multiset(),
        ),
    decreases order.len(),
{
    let prefix = order.drop_last();
    let last = order.last();
    let s2 = streams.insert(sid, v);
    let old_q = queue_frames(streams, prefix);
    let new_q = queue_frames(s2, prefix);
    let p_last = pending_all(streams[last].messages);
    let p2_last = pending_all(s2[last].messages);
    assert(queue_frames(streams, order) == old_q + p_last);
    assert(queue_frames(s2, order) == new_q + p2_last);
    lemma_multiset_commutative(old_q, p_last);
    lemma_multiset_commutative(new_q, p2_last);
    let vm = pending_all(v.messages).to_multiset();
    let om = pending_all(streams[sid].messages).to_multiset();
    if last == sid {
        assert(!prefix.contains(sid)) by {
            if prefix.contains(sid) {
                let k = choose|k: int| 0 <= k < prefix.len() && prefix[k] == sid;
                assert(order[k] == order[order.len() - 1]);
            }
        }
        lemma_queue_frames_other(streams, prefix, sid, v);
        assert(p2_last == pending_all(v.messages));
        assert(old_q.to_multiset().add(p_last.to_multiset()).add(vm) =~= new_q.to_multiset().add(
            p2_last.to_multiset(),
        ).add(om));
    } else {
        assert(prefix.contains(sid)) by {
            let k = choose|k: int| 0 <= k < order.len() && order[k] == sid;
            assert(k != order.len() - 1);
            assert(prefix[k] == sid);
        }
        assert(prefix.no_duplicates()) by {
            assert forall|i: int, j: int| 0 <= i < j < prefix.len() implies prefix[i] != prefix[j] by {
                assert(prefix[i] == order[i] && prefix[j] == order[j]);
            }
        }
        lemma_queue_frames_update(streams, prefix, sid, v);
        assert(s2[last] == streams[last]);
        assert(old_q.to_multiset().add(vm) == new_q.to_multiset().add(om));
        assert(old_q.to_multiset().add(p_last.to_multiset()).add(vm) =~= new_q.to_multiset().add(
            p2_last.to_multiset(),
        ).add(om)) by {
            assert forall|f: FrameView| old_q.to_multiset().add(p_last.to_multiset()).add(vm).count(f)
                == new_q.to_multiset().add(p2_last.to_multiset()).add(om).count(f) by {
                assert(old_q.to_multiset().add(vm).count(f) == new_q.to_multiset().add(om).count(f));
            }
        }
    }
}

/// Serving one stream keeps the invariant of `grab`.
pub(crate) proof fn lemma_serve_stream_inv(
    st: GrabState,
    base: Map<Sid, StreamView>,
    order: Seq<Sid>,
    sid: Sid,
    budget: int,
)
    requires
        grab_inv(st, base, order),
        is_walk_order(order, base),
        base.contains_key(sid),
    ensures
        grab_inv(serve_stream(st, sid, budget), base, order),
{
    let old_s = st.streams[sid];
    let sv = serve(old_s.messages, budget);
    let new_s = StreamView { messages: sv.rest, ..old_s };
    let next = serve_stream(st, sid, budget);
    lemma_serve_conserves(old_s.messages, budget);
    lemma_total_cost_append(st.frames, sv.frames);
    let old_p = pending_all(old_s.messages);
    let new_p = pending_all(sv.rest);
    let base_p = pending_all(base[sid].messages);
    // the stream's pending frames shrink from the front
    assert(is_suffix(new_p, base_p)) by {
        assert(new_p =~= old_p.skip(sv.frames.len() as int));
        assert(old_p =~= base_p.skip(base_p.len() - old_p.len()));
        assert(new_p =~= base_p.skip(base_p.len() - new_p.len()));
    }
    // the frames sent and the frames left pending add up
    lemma_queue_frames_update(st.streams, order, sid, new_s);
    lemma_multiset_commutative(st.frames, sv.frames);
    lemma_multiset_commutative(sv.frames, new_p);
    let q_old = queue_frames(st.streams, order).to_multiset();
    let q_new = queue_frames(next.streams, order).to_multiset();
    assert(q_old =~= q_new.add(sv.frames.to_multiset())) by {
        assert(q_old.add(new_p.to_multiset()) == q_new.add(old_p.to_multiset()));
        assert(old_p.to_multiset() =~= sv.frames.to_multiset().add(new_p.to_multiset()));
        assert forall|f: FrameView| q_old.count(f) == q_new.add(sv.frames.to_multiset()).count(f) by {
            assert(q_old.add(new_p.to_multiset()).count(f) == q_new.add(old_p.to_multiset()).count(f));
        }
    }
    assert(next.frames.to_multiset().add(q_new) =~= st.frames.to_multiset().add(q_old));
    assert forall|s: Sid| #[trigger] next.streams.contains_key(s) implies {
        &&& next.streams[s].prio == base[s].prio
        &&& next.streams[s].guaranteed_bandwidth == base[s].guaranteed_bandwidth
        &&& next.streams[s].promises == base[s].promises
        &&& queue_wf(next.streams[s].messages)
        &&& is_suffix(pending_all(next.streams[s].messages), pending_all(base[s].messages))
    } by {
        if s != sid {
            assert(next.streams[s] == st.streams[s]);
            assert(st.streams.contains_key(s));
        }
    }
    assert(next.streams.dom() =~= base.dom());
    let rep = Seq::new(sv.frames.len(), |i: int| sid);
    assert(next.sources == st.sources + rep);
    assert forall|i: int| 0 <= i < next.sources.len() implies base.contains_key(
        #[trigger] next.sources[i],
    ) by {
        if i >= st.sources.len() {
            assert(next.sources[i] == rep[i - st.sources.len()]);
        } else {
            assert(next.sources[i] == st.sources[i]);
        }
    }
    assert forall|s: Sid| #[trigger] base.contains_key(s) implies frames_from(
        next.frames,
        next.sources,
        s,
    ) + pending_all(next.streams[s].messages) == pending_all(base[s].messages) by {
        lemma_frames_from_append(st.frames, st.sources, sv.frames, sid, s);
        if s == sid {
            let x = frames_from(st.frames, st.sources, s);
            assert(x + old_p == base_p);
            assert(x + sv.frames + new_p =~= x + (sv.frames + new_p));
        } else {
            assert(next.streams[s] == st.streams[s]);
            assert(frames_from(st.frames, st.sources, s) + Seq::<FrameView>::empty() =~= frames_from(
                st.frames,
                st.sources,
                s,
            ));
        }
    }
}

/// The first phase keeps the invariant of `grab`.
pub(crate) proof fn lemma_guaranteed_phase_inv(
    st: GrabState,
    base: Map<Sid, StreamView>,
    order: Seq<Sid>,
    walked: Seq<Sid>,
    dt_nanos: u128,
)
    requires
        grab_inv(st, base, order),
        is_walk_order(order, base),
        forall|i: int| 0 <= i < walked.len() ==> base.contains_key(#[trigger] walked[i]),
    ensures
        grab_inv(guaranteed_phase(st, walked, dt_nanos), base, order),
    decreases walked.len(),
{
    if walked.len() > 0 {
        let prefix = walked.drop_last();
        assert(forall|i: int| 0 <= i < prefix.len() ==> prefix[i] == walked[i]);
        lemma_guaranteed_phase_inv(st, base, order, prefix, dt_nanos);
        let prev = guaranteed_phase(st, prefix, dt_nanos);
        let sid = walked.last();
        assert(base.contains_key(sid)) by {
            assert(walked[walked.len() - 1] == sid);
        }
        lemma_serve_stream_inv(
            prev,
            base,
            order,
            sid,
            signed_budget(bytes_in(prev.streams[sid].guaranteed_bandwidth, dt_nanos) as u64),
        );
    }
}

/// A round of the second phase keeps the invariant of `grab`.
pub(crate) proof fn lemma_prio_round_inv(
    st: GrabState,
    base: Map<Sid, StreamView>,
    order: Seq<Sid>,
    walked: Seq<Sid>,
    prio: int,
    budget: int,
)
    requires
        grab_inv(st, base, order),
        is_walk_order(order, base),
        forall|i: int| 0 <= i < walked.len() ==> base.contains_key(#[trigger] walked[i]),
    ensures
        grab_inv(prio_round(st, walked, prio, budget), base, order),
    decreases walked.len(),
{
    if walked.len() > 0 {
        let prefix = walked.drop_last();
        assert(forall|i: int| 0 <= i < prefix.len() ==> prefix[i] == walked[i]);
        lemma_prio_round_inv(st, base, order, prefix, prio, budget);
        let prev = prio_round(st, prefix, prio, budget);
        let sid = walked.last();
        assert(base.contains_key(sid)) by {
            assert(walked[walked.len() - 1] == sid);
        }
        if prev.streams[sid].prio == prio {
            lemma_serve_stream_inv(prev, base, order, sid, budget);
        }
    }
}

/// The second phase keeps the invariant of `grab`.
pub(crate) proof fn lemma_optional_phase_inv(
    st: GrabState,
    base: Map<Sid, StreamView>,
    order: Seq<Sid>,
    total: int,
    levels: nat,
)
    requires
        grab_inv(st, base, order),
        is_walk_order(order, base),
    ensures
        grab_inv(optional_phase(st, base, order, total, levels), base, order),
    decreases levels,
{
    if levels > 0 {
        lemma_optional_phase_inv(st, base, order, total, (levels - 1) as nat);
        let prev = optional_phase(st, base, order, total, (levels - 1) as nat);
        let level = levels - 1;
        let cnt = prio_count(base, order, level);
        if cnt != 0 {
            let left = if total > prev.spent { total - prev.spent } else { 0 };
            lemma_prio_round_inv(
                prev,
                base,
                order,
                order,
                level,
                signed_budget((left / cnt as int) as u64),
            );
        }
    }
}

/// A grab starts out keeping its invariant.
pub(crate) proof fn lemma_initial_inv(streams: Map<Sid, StreamView>, order: Seq<Sid>)
    requires
        streams_wf(streams),
        is_walk_order(order, streams),
    ensures
        grab_inv(initial_state(streams), streams, order),
{
    let init = initial_state(streams);
    assert(grab_inv(init, streams, order)) by {
        assert(total_cost(Seq::<FrameView>::empty()) == 0);
        assert forall|s: Sid| #[trigger] streams.contains_key(s) implies frames_from(
            init.frames,
            init.sources,
            s,
        ) + pending_all(init.streams[s].messages) == pending_all(streams[s].messages) by {
            assert(Seq::<FrameView>::empty() + pending_all(streams[s].messages) =~= pending_all(
                streams[s].messages,
            ));
        }
        lemma_multiset_commutative(Seq::<FrameView>::empty(), queue_frames(streams, order));
        assert(Seq::<FrameView>::empty() + queue_frames(streams, order) =~= queue_frames(
            streams,
            order,
        ));
        assert forall|s: Sid| #[trigger] streams.contains_key(s) implies is_suffix(
            pending_all(streams[s].messages),
            pending_all(streams[s].messages),
        ) by {
            let p = pending_all(streams[s].messages);
            assert(p.skip(0) =~= p);
        }
    }
}

/// `grab` sends every frame at most once and loses none: the frames it sends
/// together with the frames still pending afterwards are exactly the frames
/// that were pending before. Each stream sends from the front of its queue,
/// so what a stream has left is what it had, less its first frames; and the
/// streams, their priorities, guaranteed bandwidths and promises stay as they
/// were.
pub proof fn lemma_grab_sends_pending_frames_once(
    streams: Map<Sid, StreamView>,
    order: Seq<Sid>,
    bandwidth: u64,
    dt_nanos: u128,
)
    requires
        streams_wf(streams),
        is_walk_order(order, streams),
    ensures
        grab_inv(grab_spec(streams, order, bandwidth, dt_nanos), streams, order),
{
    let init = initial_state(streams);
    lemma_initial_inv(streams, order);
    lemma_guaranteed_phase_inv(init, streams, order, order, dt_nanos);
    let first = guaranteed_phase(init, order, dt_nanos);
    let total = bytes_in(bandwidth, dt_nanos);
    if first.spent < total {
        lemma_optional_phase_inv(first, streams, order, total, 8);
    }
}

/// A grab where no stream has a frame pending sends nothing.
pub proof fn lemma_idle_grab_sends_nothing(
    streams: Map<Sid, StreamView>,
    order: Seq<Sid>,
    bandwidth: u64,
    dt_nanos: u128,
)
    requires
        streams_wf(streams),
        is_walk_order(order, streams),
        forall|s: Sid| #[trigger] streams.contains_key(s) ==> pending_all(streams[s].messages).len() == 0,
    ensures
        grab_spec(streams, order, bandwidth, dt_nanos).frames.len() == 0,
{
    broadcast use vstd::seq_lib::to_multiset_len;

    lemma_grab_sends_pending_frames_once(streams, order, bandwidth, dt_nanos);
    let g = grab_spec(streams, order, bandwidth, dt_nanos);
    lemma_queue_frames_empty(streams, order);
    let q = queue_frames(g.streams, order);
    assert(g.frames.to_multiset().len() + q.to_multiset().len() == queue_frames(
        streams,
        order,
    ).to_multiset().len());
}

/// With nothing pending in any stream, nothing is pending along any walk.
proof fn lemma_queue_frames_empty(streams: Map<Sid, StreamView>, order: Seq<Sid>)
    requires
        forall|i: int| 0 <= i < order.len() ==> streams.contains_key(#[trigger] order[i]),
        forall|s: Sid| #[trigger] streams.contains_key(s) ==> pending_all(streams[s].messages).len() == 0,
    ensures
        queue_frames(streams, order).len() == 0,
    decreases order.len(),
{
    if order.len() > 0 {
        let prefix = order.drop_last();
        assert(forall|i: int| 0 <= i < prefix.len() ==> prefix[i] == order[i]);
        lemma_queue_frames_empty(streams, prefix);
        assert(streams.contains_key(order[order.len() - 1]));
    }
}

/// No queue of `st` is longer than in `reference`, the streams are the same,
/// and every queue is in a reachable state.
pub open spec fn no_longer(st: GrabState, reference: Map<Sid, StreamView>) -> bool {
    &&& st.streams.dom() == reference.dom()
    &&& forall|s: Sid| #[trigger]
        st.streams.contains_key(s) ==> {
            &&& queue_wf(st.streams[s].messages)
            &&& pending_all(st.streams[s].messages).len() <= pending_all(
                reference[s].messages,
            ).len()
        }
}

/// Serving a stream shortens its queue by the frames it sends and leaves the
/// other queues as they are.
proof fn lemma_serve_stream_shortens(st: GrabState, sid: Sid, budget: int)
    requires
        st.streams.contains_key(sid),
        queue_wf(st.streams[sid].messages),
    ensures
        serve_stream(st, sid, budget).streams.dom() == st.streams.dom(),
        queue_wf(serve_stream(st, sid, budget).streams[sid].messages),
        pending_all(serve_stream(st, sid, budget).streams[sid].messages).len() + serve(
            st.streams[sid].messages,
            budget,
        ).frames.len() == pending_all(st.streams[sid].messages).len(),
        forall|s: Sid| s != sid ==> #[trigger] serve_stream(st, sid, budget).streams[s] == st.streams[s],
{
    lemma_serve_conserves(st.streams[sid].messages, budget);
    assert(serve_stream(st, sid, budget).streams.dom() =~= st.streams.dom());
}

/// A round of the second phase makes no queue longer.
proof fn lemma_prio_round_no_longer(
    st: GrabState,
    reference: Map<Sid, StreamView>,
    walked: Seq<Sid>,
    prio: int,
    budget: int,
)
    requires
        no_longer(st, reference),
        forall|i: int| 0 <= i < walked.len() ==> reference.contains_key(#[trigger] walked[i]),
    ensures
        no_longer(prio_round(st, walked, prio, budget), reference),
    decreases walked.len(),
{
    if walked.len() > 0 {
        let prefix = walked.drop_last();
        assert(forall|i: int| 0 <= i < prefix.len() ==> prefix[i] == walked[i]);
        lemma_prio_round_no_longer(st, reference, prefix, prio, budget);
        let prev = prio_round(st, prefix, prio, budget);
        let sid = walked.last();
        assert(reference.contains_key(sid)) by {
            assert(walked[walked.len() - 1] == sid);
        }
        if prev.streams[sid].prio == prio {
            lemma_serve_stream_shortens(prev, sid, budget);
        }
    }
}

/// The second phase makes no queue longer.
proof fn lemma_optional_phase_no_longer(
    st: GrabState,
    reference: Map<Sid, StreamView>,
    base: Map<Sid, StreamView>,
    order: Seq<Sid>,
    total: int,
    levels: nat,
)
    requires
        no_longer(st, reference),
        forall|i: int| 0 <= i < order.len() ==> reference.contains_key(#[trigger] order[i]),
    ensures
        no_longer(optional_phase(st, base, order, total, levels), reference),
    decreases levels,
{
    if levels > 0 {
        lemma_optional_phase_no_longer(st, reference, base, order, total, (levels - 1) as nat);
        let prev = optional_phase(st, base, order, total, (levels - 1) as nat);
        let level = levels - 1;
        let cnt = prio_count(base, order, level);
        if cnt != 0 {
            let left = if total > prev.spent { total - prev.spent } else { 0 };
            lemma_prio_round_no_longer(
                prev,
                reference,
                order,
                level,
                signed_budget((left / cnt as int) as u64),
            );
        }
    }
}

/// In the first phase each walked stream sends at least one frame when it has
/// one pending, and the streams not walked yet are untouched.
proof fn lemma_guaranteed_phase_progress(
    base: Map<Sid, StreamView>,
    order: Seq<Sid>,
    walked: Seq<Sid>,
    dt_nanos: u128,
)
    requires
        streams_wf(base),
        is_walk_order(order, base),
        walked.len() <= order.len(),
        walked == order.take(walked.len() as int),
    ensures
        ({
            let st = guaranteed_phase(
                initial_state(base),
                walked,
                dt_nanos,
            );
            &&& no_longer(st, base)
            &&& forall|s: Sid| #[trigger]
                base.contains_key(s) && !walked.contains(s) ==> st.streams[s] == base[s]
            &&& forall|s: Sid| #[trigger]
                base.contains_key(s) && walked.contains(s) && pending_all(base[s].messages).len()
                    > 0 ==> pending_all(st.streams[s].messages).len() < pending_all(
                    base[s].messages,
                ).len()
        }),
    decreases walked.len(),
{
    let init = initial_state(base);
    if walked.len() == 0 {
        assert(no_longer(init, base));
    } else {
        let prefix = walked.drop_last();
        assert(prefix =~= order.take(prefix.len() as int));
        lemma_guaranteed_phase_progress(base, order, prefix, dt_nanos);
        let prev = guaranteed_phase(init, prefix, dt_nanos);
        let sid = walked.last();
        assert(walked[walked.len() - 1] == sid);
        assert(order[walked.len() - 1] == sid);
        assert(base.contains_key(sid));
        assert(!prefix.contains(sid)) by {
            if prefix.contains(sid) {
                let k = choose|k: int| 0 <= k < prefix.len() && prefix[k] == sid;
                assert(order[k] == order[walked.len() - 1]);
            }
        }
        let budget = signed_budget(
            bytes_in(prev.streams[sid].guaranteed_bandwidth, dt_nanos) as u64,
        );
        assert(prev.streams[sid] == base[sid]);
        lemma_serve_stream_shortens(prev, sid, budget);
        if pending_all(base[sid].messages).len() > 0 {
            crate::serve::lemma_serve_progress(base[sid].messages, budget);
        }
        let next = guaranteed_phase(init, walked, dt_nanos);
        assert forall|s: Sid| #[trigger]
            base.contains_key(s) && !walked.contains(s) implies next.streams[s] == base[s] by {
            assert(s != sid);
            assert(!prefix.contains(s)) by {
                if prefix.contains(s) {
                    let k = choose|k: int| 0 <= k < prefix.len() && prefix[k] == s;
                    assert(walked[k] == s);
                }
            }
        }
        assert forall|s: Sid| #[trigger]
            base.contains_key(s) && walked.contains(s) && pending_all(base[s].messages).len() > 0
            implies pending_all(next.streams[s].messages).len() < pending_all(base[s].messages).len() by {
            if s != sid {
                assert(prefix.contains(s)) by {
                    let k = choose|k: int| 0 <= k < walked.len() && walked[k] == s;
                    assert(k != walked.len() - 1);
                    assert(prefix[k] == s);
                }
            }
        }
    }
}

/// Each grab sends at least one frame of every stream that has a frame
/// pending: whatever the bandwidth, the first phase serves every stream, and
/// a served stream always sends its next frame.
pub proof fn lemma_grab_serves_every_stream(
    streams: Map<Sid, StreamView>,
    order: Seq<Sid>,
    bandwidth: u64,
    dt_nanos: u128,
)
    requires
        streams_wf(streams),
        is_walk_order(order, streams),
    ensures
        forall|s: Sid| #[trigger]
            streams.contains_key(s) && pending_all(streams[s].messages).len() > 0 ==> pending_all(
                grab_spec(streams, order, bandwidth, dt_nanos).streams[s].messages,
            ).len() < pending_all(streams[s].messages).len(),
{
    assert(order =~= order.take(order.len() as int));
    lemma_guaranteed_phase_progress(streams, order, order, dt_nanos);
    let init = initial_state(streams);
    let first = guaranteed_phase(init, order, dt_nanos);
    let total = bytes_in(bandwidth, dt_nanos);
    if first.spent < total {
        assert(no_longer(first, first.streams)) by {
            assert forall|s: Sid| #[trigger] first.streams.contains_key(s) implies queue_wf(
                first.streams[s].messages,
            ) by {
                assert(streams.contains_key(s));
            }
        }
        lemma_optional_phase_no_longer(first, first.streams, streams, order, total, 8);
    }
}

/// Each stream sends its frames in queue order: attributing each frame of a
/// grab to the stream that sent it, the frames of stream `s`, in the order of
/// the result, are the first frames that `s` had pending, and what `s` has
/// pending afterwards is the rest. So over successive grabs every frame of
/// every message goes out once, in order, one message after the other.
pub proof fn lemma_grab_keeps_stream_order(
    streams: Map<Sid, StreamView>,
    order: Seq<Sid>,
    bandwidth: u64,
    dt_nanos: u128,
)
    requires
        streams_wf(streams),
        is_walk_order(order, streams),
    ensures
        ({
            let g = grab_spec(streams, order, bandwidth, dt_nanos);
            &&& g.sources.len() == g.frames.len()
            &&& forall|i: int| 0 <= i < g.sources.len() ==> streams.contains_key(#[trigger] g.sources[i])
            &&& forall|s: Sid| #[trigger]
                streams.contains_key(s) ==> frames_from(g.frames, g.sources, s) + pending_all(
                    g.streams[s].messages,
                ) == pending_all(streams[s].messages)
        }),
{
    lemma_grab_sends_pending_frames_once(streams, order, bandwidth, dt_nanos);
}

} // verus!
