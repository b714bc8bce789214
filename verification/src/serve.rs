use vstd::prelude::*;

use crate::types::Sid;
use crate::frame::{cost_of, frame_cost, lemma_total_cost_append, total_cost, Frame, FrameView};
use crate::message::{
    advance, lemma_advance_pending, lemma_advance_step, message_wf, pending,
    MessageView, OutgoingMessage,
};

verus! {

/// The frames of a sequence as mathematical values.
pub open spec fn frames_view(v: Seq<Frame>) -> Seq<FrameView> {
    v.map_values(|f: Frame| f@)
}

/// The messages of a sequence as mathematical values.
pub open spec fn messages_view(v: Seq<OutgoingMessage>) -> Seq<MessageView> {
    v.map_values(|m: OutgoingMessage| m@)
}

/// Every message of the sequence is in a reachable state.
pub open spec fn messages_wf(v: Seq<OutgoingMessage>) -> bool {
    forall|i: int| 0 <= i < v.len() ==> #[trigger] v[i].wf()
}

/// The frames that a sequence of messages has still to yield, in order.
pub open spec fn pending_all(msgs: Seq<MessageView>) -> Seq<FrameView>
    decreases msgs.len(),
{
    if msgs.len() == 0 {
        seq![]
    } else {
        pending(msgs[0]) + pending_all(msgs.drop_first())
    }
}

/// How many frames of `frames` go out with `remaining` bytes of budget: the
/// first always does, and each further one only while the budget left after
/// the frames before it is positive.
pub open spec fn emit_count(frames: Seq<FrameView>, remaining: int) -> nat
    decreases frames.len(),
{
    if frames.len() == 0 {
        0
    } else if remaining - frame_cost(frames[0]) <= 0 {
        1
    } else {
        1 + emit_count(frames.drop_first(), remaining - frame_cost(frames[0]))
    }
}

/// What serving a stream's queue produces.
pub struct Served {
    /// The frames sent, in order.
    pub frames: Seq<FrameView>,
    /// The queue afterwards.
    pub rest: Seq<MessageView>,
    /// The stream id and payload length of each message that left the queue,
    /// the last one to leave first.
    pub finished: Seq<(Sid, u64)>,
}

/// What is reported of a message that leaves its queue: its stream and the
/// length of its payload.
pub open spec fn report(m: MessageView) -> (Sid, u64) {
    (m.sid, m.data.len() as u64)
}

/// Serving a queue of messages with a budget of `remaining` bytes: messages
/// are served in order, each frame costs its accounted bytes, and serving stops
/// right after the frame that brings the budget to zero or below. A message
/// whose frames all went out while budget was left over leaves the queue; the
/// message at which serving stops stays at the front, advanced. The messages
/// that leave are reported, the last one to leave first.
pub open spec fn serve(msgs: Seq<MessageView>, remaining: int) -> Served
    decreases msgs.len(),
{
    if msgs.len() == 0 {
        Served { frames: seq![], rest: seq![], finished: seq![] }
    } else {
        let p = pending(msgs[0]);
        if p.len() == 0 || remaining - total_cost(p) > 0 {
            let s = serve(msgs.drop_first(), remaining - total_cost(p));
            Served { frames: p + s.frames, rest: s.rest, finished: s.finished.push(report(msgs[0])) }
        } else {
            let k = emit_count(p, remaining);
            Served {
                frames: p.take(k as int),
                rest: seq![advance(msgs[0], k)] + msgs.drop_first(),
                finished: seq![],
            }
        }
    }
}

/// A frame is accounted at least one and at most a data frame's bytes.
pub proof fn lemma_total_cost_bounds(frames: Seq<FrameView>)
    ensures
        frames.len() <= total_cost(frames) <= 1419 * frames.len(),
    decreases frames.len(),
{
    if frames.len() > 0 {
        lemma_total_cost_bounds(frames.drop_last());
    }
}

/// The accounted bytes of a prefix one frame longer.
proof fn lemma_total_cost_take(p: Seq<FrameView>, k: int)
    requires
        0 <= k < p.len(),
    ensures
        total_cost(p.take(k + 1)) == total_cost(p.take(k)) + frame_cost(p[k]),
{
    assert(p.take(k + 1).drop_last() =~= p.take(k));
}

/// A prefix costs no more than the whole.
proof fn lemma_total_cost_prefix(p: Seq<FrameView>, k: int)
    requires
        0 <= k <= p.len(),
    ensures
        total_cost(p.take(k)) <= total_cost(p),
{
    assert(p =~= p.take(k) + p.skip(k));
    lemma_total_cost_append(p.take(k), p.skip(k));
    lemma_total_cost_bounds(p.skip(k));
}

/// The accounted bytes of a sequence, computed from the front.
proof fn lemma_total_cost_cons(p: Seq<FrameView>, j: int)
    requires
        0 <= j < p.len(),
    ensures
        total_cost(p.take(j + 1)) == frame_cost(p[0]) + total_cost(p.drop_first().take(j)),
{
    assert(p.take(j + 1) =~= seq![p[0]] + p.drop_first().take(j));
    lemma_total_cost_append(seq![p[0]], p.drop_first().take(j));
    assert(seq![p[0]].drop_last() =~= Seq::<FrameView>::empty());
    assert(total_cost(Seq::<FrameView>::empty()) == 0);
}

/// `emit_count` sends at least one frame, stops at the first frame that uses
/// the budget up, and sends each frame before it with budget left.
proof fn lemma_emit_count(p: Seq<FrameView>, r: int)
    requires
        p.len() > 0,
    ensures
        1 <= emit_count(p, r) <= p.len(),
        emit_count(p, r) < p.len() ==> r - total_cost(p.take(emit_count(p, r) as int)) <= 0,
        emit_count(p, r) >= 2 ==> r - total_cost(p.take(emit_count(p, r) - 1)) > 0,
    decreases p.len(),
{
    let c0 = frame_cost(p[0]);
    lemma_total_cost_cons(p, 0);
    assert(p.drop_first().take(0) =~= Seq::<FrameView>::empty());
    assert(total_cost(Seq::<FrameView>::empty()) == 0);
    if r - c0 > 0 && p.len() > 1 {
        let q = p.drop_first();
        lemma_emit_count(q, r - c0);
        let k1 = emit_count(q, r - c0);
        lemma_total_cost_cons(p, k1 as int);
        if k1 >= 2 {
            lemma_total_cost_cons(p, k1 - 1);
        }
    }
}

/// Frames that are sent are taken from the front of what is pending, and the
/// rest stays pending: nothing is lost, duplicated or reordered.
pub proof fn lemma_serve_conserves(msgs: Seq<MessageView>, remaining: int)
    requires
        forall|i: int| 0 <= i < msgs.len() ==> message_wf(#[trigger] msgs[i]),
    ensures
        serve(msgs, remaining).frames + pending_all(serve(msgs, remaining).rest) == pending_all(
            msgs,
        ),
        forall|i: int|
            0 <= i < serve(msgs, remaining).rest.len() ==> message_wf(
                #[trigger] serve(msgs, remaining).rest[i],
            ),
    decreases msgs.len(),
{
    if msgs.len() > 0 {
        let p = pending(msgs[0]);
        let tail = msgs.drop_first();
        assert(forall|i: int| 0 <= i < tail.len() ==> tail[i] == msgs[i + 1]);
        if p.len() == 0 || remaining - total_cost(p) > 0 {
            lemma_serve_conserves(tail, remaining - total_cost(p));
            let s = serve(tail, remaining - total_cost(p));
            assert(p + s.frames + pending_all(s.rest) =~= p + (s.frames + pending_all(s.rest)));
        } else {
            lemma_emit_count(p, remaining);
            let k = emit_count(p, remaining);
            lemma_advance_pending(msgs[0], k);
            let rest = seq![advance(msgs[0], k)] + tail;
            assert(rest.drop_first() =~= tail);
            assert(rest[0] == advance(msgs[0], k));
            assert(p.take(k as int) + (p.skip(k as int) + pending_all(tail)) =~= p + pending_all(
                tail,
            ));
            assert(forall|i: int| 0 <= i < rest.len() ==> message_wf(#[trigger] rest[i])) by {
                assert forall|i: int| 0 <= i < rest.len() implies message_wf(#[trigger] rest[i]) by {
                    if i > 0 {
                        assert(rest[i] == msgs[i]);
                    }
                }
            }
        }
    }
}

/// Serving sends at least one frame whenever a frame is pending.
pub proof fn lemma_serve_progress(msgs: Seq<MessageView>, remaining: int)
    requires
        forall|i: int| 0 <= i < msgs.len() ==> message_wf(#[trigger] msgs[i]),
        pending_all(msgs).len() > 0,
    ensures
        serve(msgs, remaining).frames.len() > 0,
    decreases msgs.len(),
{
    let p = pending(msgs[0]);
    let tail = msgs.drop_first();
    assert(forall|i: int| 0 <= i < tail.len() ==> tail[i] == msgs[i + 1]);
    if p.len() == 0 {
        assert(pending_all(msgs) =~= pending_all(tail));
        lemma_serve_progress(tail, remaining - total_cost(p));
    } else if remaining - total_cost(p) <= 0 {
        lemma_emit_count(p, remaining);
    }
}

/// Serving stops only once the budget is used up: when frames stay pending,
/// the frames sent cost at least the budget; and every frame but the last was
/// sent while budget was left, so the budget is exceeded by less than one
/// frame.
pub proof fn lemma_serve_budget(msgs: Seq<MessageView>, remaining: int)
    requires
        forall|i: int| 0 <= i < msgs.len() ==> message_wf(#[trigger] msgs[i]),
    ensures
        serve(msgs, remaining).frames.len() < pending_all(msgs).len() ==> total_cost(
            serve(msgs, remaining).frames,
        ) >= remaining,
        serve(msgs, remaining).frames.len() >= 2 ==> total_cost(
            serve(msgs, remaining).frames.drop_last(),
        ) < remaining,
    decreases msgs.len(),
{
    if msgs.len() > 0 {
        let p = pending(msgs[0]);
        let tail = msgs.drop_first();
        assert(forall|i: int| 0 <= i < tail.len() ==> tail[i] == msgs[i + 1]);
        if p.len() == 0 || remaining - total_cost(p) > 0 {
            let r1 = remaining - total_cost(p);
            lemma_serve_budget(tail, r1);
            lemma_serve_conserves(tail, r1);
            let s = serve(tail, r1);
            lemma_total_cost_append(p, s.frames);
            assert(pending_all(msgs) == p + pending_all(tail));
            if s.frames.len() >= 1 {
                assert((p + s.frames).drop_last() =~= p + s.frames.drop_last());
                lemma_total_cost_append(p, s.frames.drop_last());
                if s.frames.len() == 1 {
                    assert(s.frames.drop_last() =~= Seq::<FrameView>::empty());
                    assert(total_cost(Seq::<FrameView>::empty()) == 0);
                }
            } else {
                assert(p + s.frames =~= p);
                if p.len() > 0 {
                    lemma_total_cost_prefix(p, p.len() - 1);
                    assert(p.take(p.len() - 1) =~= p.drop_last());
                }
            }
        } else {
            lemma_emit_count(p, remaining);
            let k = emit_count(p, remaining);
            if k == p.len() {
                assert(p.take(k as int) =~= p);
            }
            assert(p.take(k as int).drop_last() =~= p.take(k - 1));
        }
    }
}

/// A message queued at the end has its frames pending after every frame of
/// the messages queued before it.
pub proof fn lemma_pending_all_push(msgs: Seq<MessageView>, m: MessageView)
    ensures
        pending_all(msgs.push(m)) == pending_all(msgs) + pending(m),
    decreases msgs.len(),
{
    if msgs.len() == 0 {
        assert(msgs.push(m).drop_first() =~= Seq::<MessageView>::empty());
        assert(msgs.push(m)[0] == m);
        assert(pending_all(Seq::<MessageView>::empty()) == Seq::<FrameView>::empty());
        assert(pending_all(msgs.push(m)) =~= pending_all(msgs) + pending(m));
    } else {
        lemma_pending_all_push(msgs.drop_first(), m);
        assert(msgs.push(m).drop_first() =~= msgs.drop_first().push(m));
        assert(msgs.push(m)[0] == msgs[0]);
        let a = pending(msgs[0]);
        let b = pending_all(msgs.drop_first());
        assert(a + (b + pending(m)) =~= (a + b) + pending(m));
    }
}

/// Serving a queue of messages: the exact computation that `serve` describes.
/// The frames go to the end of `frames`, and `cur_bytes` keeps counting their
/// accounted bytes.
pub fn serve_messages(
    messages: &mut Vec<OutgoingMessage>,
    budget: i64,
    frames: &mut Vec<Frame>,
    cur_bytes: &mut u128,
    finished: &mut Vec<(Sid, u64)>,
)
    requires
        messages_wf(old(messages)@),
        *old(cur_bytes) == total_cost(frames_view(old(frames)@)),
    ensures
        messages_wf(final(messages)@),
        frames_view(final(frames)@) == frames_view(old(frames)@) + serve(
            messages_view(old(messages)@),
            budget as int,
        ).frames,
        messages_view(final(messages)@) == serve(messages_view(old(messages)@), budget as int).rest,
        final(finished)@ == old(finished)@ + serve(messages_view(old(messages)@), budget as int).finished,
        *final(cur_bytes) == total_cost(frames_view(final(frames)@)),
{
    let ghost msgs0 = messages_view(messages@);
    let ghost frames0 = frames_view(frames@);
    let ghost goal = serve(msgs0, budget as int);
    let mut remaining: i128 = budget as i128;
    let mut stop = false;
    let mut left: Vec<(Sid, u64)> = Vec::new();
    while !stop && messages.len() > 0
        invariant
            messages_wf(messages@),
            *cur_bytes == total_cost(frames_view(frames@)),
            !stop ==> remaining >= i64::MIN,
            remaining <= i64::MAX,
            stop ==> frames_view(frames@) == frames0 + goal.frames,
            stop ==> messages_view(messages@) == goal.rest,
            stop ==> left@ == goal.finished,
            !stop ==> serve(messages_view(messages@), remaining as int).finished + left@
                == goal.finished,
            !stop ==> frames_view(frames@) + serve(messages_view(messages@), remaining as int).frames
                == frames0 + goal.frames,
            !stop ==> serve(messages_view(messages@), remaining as int).rest == goal.rest,
        decreases messages.len() + if stop { 0int } else { 1int },
    {
        let ghost msgs = messages_view(messages@);
        let ghost tail = messages@.drop_first();
        let ghost frames_before = frames_view(frames@);
        let ghost r0 = remaining as int;
        let mut m = messages.remove(0);
        proof {
            assert(messages@ =~= tail);
            assert(messages_view(tail) =~= msgs.drop_first());
            m.lemma_wf();
        }
        let ghost m0 = m@;
        let ghost p = pending(m0);
        let ghost mut k: nat = 0;
        proof {
            assert(p.skip(0) =~= p);
            assert(p.take(0) =~= Seq::<FrameView>::empty());
            assert(frames_before + p.take(0) =~= frames_before);
        }
        let mut exhausted = false;
        loop
            invariant_except_break
                !exhausted,
                !stop,
                k == 0 || remaining > 0,
                emit_count(p, r0) == k + emit_count(p.skip(k as int), remaining as int),
            invariant
                m.wf(),
                message_wf(m0),
                messages@ == tail,
                p == pending(m0),
                r0 >= i64::MIN,
                k <= p.len(),
                m@ == advance(m0, k),
                remaining == r0 - total_cost(p.take(k as int)),
                frames_view(frames@) == frames_before + p.take(k as int),
                *cur_bytes == total_cost(frames_view(frames@)),
                remaining >= i64::MIN - 1419,
                remaining <= i64::MAX,
            ensures
                exhausted ==> !stop && k == p.len() && (k == 0 || remaining > 0),
                stop ==> k >= 1 && remaining <= 0 && emit_count(p, r0) == k,
                exhausted || stop,
            decreases p.len() - k,
        {
            proof {
                lemma_advance_pending(m0, k);
                lemma_advance_step(m0, k);
            }
            match m.next() {
                None => {
                    exhausted = true;
                    break;
                },
                Some(f) => {
                    let c = cost_of(&f);
                    let n = frames.len();
                    proof {
                        assert(f@ == p[k as int]);
                        lemma_total_cost_take(p, k as int);
                        lemma_total_cost_bounds(frames_view(frames@));
                    }
                    let ghost old_frames = frames@;
                    frames.push(f);
                    *cur_bytes = *cur_bytes + c as u128;
                    remaining = remaining - c as i128;
                    proof {
                        assert(frames_view(frames@) =~= frames_view(old_frames).push(f@));
                        assert(p.take(k as int + 1) =~= p.take(k as int).push(p[k as int]));
                        lemma_total_cost_append(frames_view(old_frames), seq![f@]);
                        assert(frames_view(old_frames).push(f@) =~= frames_view(old_frames) + seq![f@]);
                        assert(total_cost(seq![f@]) == frame_cost(f@)) by {
                            assert(seq![f@].drop_last() =~= Seq::<FrameView>::empty());
                            assert(seq![f@].last() == f@);
                            assert(total_cost(Seq::<FrameView>::empty()) == 0);
                        }
                        let q = p.skip(k as int);
                        assert(q[0] == p[k as int]);
                        assert(q.drop_first() =~= p.skip(k as int + 1));
                        k = k + 1;
                    }
                    if remaining <= 0 {
                        stop = true;
                        break;
                    }
                },
            }
        }
        proof {
            lemma_total_cost_prefix(p, k as int);
            if exhausted {
                lemma_advance_pending(m0, k);
                assert(p.take(k as int) =~= p);
                assert(frames_view(frames@) + serve(messages_view(messages@), remaining as int).frames
                    =~= frames_before + serve(msgs, r0).frames);
            }
        }
        if exhausted {
            let r = m.get_sid_len();
            let ghost old_left = left@;
            left.insert(0, r);
            proof {
                assert(r == report(m0));
                let s1 = serve(messages_view(messages@), remaining as int).finished;
                assert(left@ =~= seq![r] + old_left);
                assert(s1.push(r) + old_left =~= s1 + left@);
            }
        }
        if stop {
            messages.insert(0, m);
            proof {
                assert(messages_view(messages@) =~= seq![advance(m0, k)] + msgs.drop_first());
                assert(messages_wf(messages@));
            }
        }
    }
    finished.append(&mut left);
}

} // verus!
