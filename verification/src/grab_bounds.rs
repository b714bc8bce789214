use vstd::prelude::*;

use crate::frame::{lemma_total_cost_append, total_cost, FrameView};
use crate::grab_laws::{
    grab_inv, lemma_guaranteed_phase_inv, lemma_initial_inv, lemma_optional_phase_inv,
    lemma_prio_round_inv, queue_wf, streams_wf,
};
use crate::message::MessageView;
use crate::prio::{
    bytes_in, grab_spec, guaranteed_phase, initial_state, is_walk_order, optional_phase,
    prio_count, prio_level, prio_round, serve_stream, signed_budget, GrabState, StreamView,
    HIGHEST_PRIO,
};
use crate::serve::{lemma_serve_budget, serve};
use crate::types::Sid;

verus! {

/// The bytes that the guaranteed bandwidths of the streams in `order` allow
/// in `dt_nanos` nanoseconds, added up.
pub open spec fn guaranteed_total(streams: Map<Sid, StreamView>, order: Seq<Sid>, dt_nanos: u128) -> int
    decreases order.len(),
{
    if order.len() == 0 {
        0
    } else {
        guaranteed_total(streams, order.drop_last(), dt_nanos) + bytes_in(
            streams[order.last()].guaranteed_bandwidth,
            dt_nanos,
        )
    }
}

/// How many streams of `order` have exactly prio `prio`.
pub open spec fn count_prio(streams: Map<Sid, StreamView>, order: Seq<Sid>, prio: int) -> nat
    decreases order.len(),
{
    if order.len() == 0 {
        0
    } else {
        count_prio(streams, order.drop_last(), prio) + if streams[order.last()].prio == prio {
            1nat
        } else {
            0nat
        }
    }
}

/// How many streams of `order` have a prio below `levels`.
pub open spec fn count_below(streams: Map<Sid, StreamView>, order: Seq<Sid>, levels: nat) -> nat
    decreases levels,
{
    if levels == 0 {
        0
    } else {
        count_below(streams, order, (levels - 1) as nat) + count_prio(streams, order, levels - 1)
    }
}

/// The larger of two integers.
pub open spec fn max_int(a: int, b: int) -> int {
    if a < b { b } else { a }
}

/// Serving a queue spends at most its budget (none, when the budget is not
/// positive) and one more frame.
proof fn lemma_serve_cost(msgs: Seq<MessageView>, budget: int)
    requires
        queue_wf(msgs),
    ensures
        total_cost(serve(msgs, budget).frames) <= max_int(budget, 0) + 1419,
{
    let f = serve(msgs, budget).frames;
    lemma_serve_budget(msgs, budget);
    crate::serve::lemma_total_cost_bounds(f);
    if f.len() >= 2 {
        crate::serve::lemma_total_cost_bounds(seq![f.last()]);
        assert(f.drop_last() + seq![f.last()] =~= f);
        lemma_total_cost_append(f.drop_last(), seq![f.last()]);
    }
}

/// Streams at one prio are counted at the level of that prio.
proof fn lemma_count_prio_le_count(streams: Map<Sid, StreamView>, order: Seq<Sid>, level: int)
    requires
        0 <= level <= HIGHEST_PRIO,
    ensures
        count_prio(streams, order, level) <= prio_count(streams, order, level),
    decreases order.len(),
{
    if order.len() > 0 {
        lemma_count_prio_le_count(streams, order.drop_last(), level);
    }
}

/// Counting below a level one stream at a time.
proof fn lemma_count_below_last(streams: Map<Sid, StreamView>, order: Seq<Sid>, levels: nat)
    requires
        order.len() > 0,
    ensures
        count_below(streams, order, levels) == count_below(streams, order.drop_last(), levels) + if (
        streams[order.last()].prio as int) < levels {
            1nat
        } else {
            0nat
        },
    decreases levels,
{
    if levels > 0 {
        lemma_count_below_last(streams, order, (levels - 1) as nat);
    }
}

/// No more streams are counted than there are.
proof fn lemma_count_below_bound(streams: Map<Sid, StreamView>, order: Seq<Sid>, levels: nat)
    ensures
        count_below(streams, order, levels) <= order.len(),
    decreases order.len(),
{
    if order.len() == 0 {
        lemma_count_below_empty(streams, order, levels);
    } else {
        lemma_count_below_last(streams, order, levels);
        lemma_count_below_bound(streams, order.drop_last(), levels);
    }
}

proof fn lemma_count_below_empty(streams: Map<Sid, StreamView>, order: Seq<Sid>, levels: nat)
    requires
        order.len() == 0,
    ensures
        count_below(streams, order, levels) == 0,
    decreases levels,
{
    if levels > 0 {
        lemma_count_below_empty(streams, order, (levels - 1) as nat);
    }
}

/// A signed budget is never more than the byte count it comes from.
proof fn lemma_signed_budget_le(x: u64)
    ensures
        max_int(signed_budget(x), 0) <= x,
{
}

/// The first phase spends at most the guaranteed bytes and one frame per
/// stream.
proof fn lemma_guaranteed_spent(
    base: Map<Sid, StreamView>,
    order: Seq<Sid>,
    walked: Seq<Sid>,
    dt_nanos: u128,
)
    requires
        streams_wf(base),
        is_walk_order(order, base),
        forall|i: int| 0 <= i < walked.len() ==> base.contains_key(#[trigger] walked[i]),
    ensures
        guaranteed_phase(initial_state(base), walked, dt_nanos).spent <= guaranteed_total(
            base,
            walked,
            dt_nanos,
        ) + walked.len() * 1419,
    decreases walked.len(),
{
    let init = initial_state(base);
    if walked.len() > 0 {
        let prefix = walked.drop_last();
        assert(forall|i: int| 0 <= i < prefix.len() ==> prefix[i] == walked[i]);
        lemma_guaranteed_spent(base, order, prefix, dt_nanos);
        lemma_initial_inv(base, order);
        lemma_guaranteed_phase_inv(init, base, order, prefix, dt_nanos);
        let prev = guaranteed_phase(init, prefix, dt_nanos);
        let sid = walked.last();
        assert(base.contains_key(sid)) by {
            assert(walked[walked.len() - 1] == sid);
        }
        assert(prev.streams.contains_key(sid));
        let x = bytes_in(prev.streams[sid].guaranteed_bandwidth, dt_nanos);
        lemma_serve_cost(prev.streams[sid].messages, signed_budget(x as u64));
        lemma_signed_budget_le(x as u64);
    }
}

/// A round of the second phase spends at most the budget and one frame for
/// each stream of that prio.
proof fn lemma_prio_round_spent(
    st: GrabState,
    base: Map<Sid, StreamView>,
    order: Seq<Sid>,
    walked: Seq<Sid>,
    prio: int,
    budget: int,
)
    requires
        grab_inv(st, base, order),
        is_walk_order(order, base),
        forall|i: int| 0 <= i < walked.len() ==> base.contains_key(#[trigger] walked[i]),
    ensures
        prio_round(st, walked, prio, budget).spent <= st.spent + count_prio(base, walked, prio) * (
        max_int(budget, 0) + 1419),
    decreases walked.len(),
{
    if walked.len() > 0 {
        let prefix = walked.drop_last();
        assert(forall|i: int| 0 <= i < prefix.len() ==> prefix[i] == walked[i]);
        lemma_prio_round_spent(st, base, order, prefix, prio, budget);
        lemma_prio_round_inv(st, base, order, prefix, prio, budget);
        let prev = prio_round(st, prefix, prio, budget);
        let sid = walked.last();
        assert(base.contains_key(sid)) by {
            assert(walked[walked.len() - 1] == sid);
        }
        assert(prev.streams.contains_key(sid));
        let c = count_prio(base, prefix, prio);
        let x = max_int(budget, 0) + 1419;
        assert((c + 1) * x == c * x + x) by (nonlinear_arith);
        if prev.streams[sid].prio == prio {
            lemma_serve_cost(prev.streams[sid].messages, budget);
        }
        assert(0 <= c * x) by (nonlinear_arith)
            requires
                x >= 0,
        ;
    }
}

/// The second phase spends at most what is left of the total, and one frame
/// for each stream served.
proof fn lemma_optional_spent(
    first: GrabState,
    base: Map<Sid, StreamView>,
    order: Seq<Sid>,
    total: int,
    levels: nat,
)
    requires
        grab_inv(first, base, order),
        is_walk_order(order, base),
        0 <= total <= u64::MAX,
        levels <= HIGHEST_PRIO + 1,
    ensures
        optional_phase(first, base, order, total, levels).spent <= max_int(total, first.spent)
            + count_below(base, order, levels) * 1419,
    decreases levels,
{
    if levels > 0 {
        lemma_optional_spent(first, base, order, total, (levels - 1) as nat);
        lemma_optional_phase_inv(first, base, order, total, (levels - 1) as nat);
        let prev = optional_phase(first, base, order, total, (levels - 1) as nat);
        let level = levels - 1;
        let cnt = prio_count(base, order, level);
        let ce = count_prio(base, order, level);
        let cb = count_below(base, order, (levels - 1) as nat);
        lemma_count_prio_le_count(base, order, level);
        if cnt != 0 {
            let left = if total > prev.spent { total - prev.spent } else { 0 };
            let per = left / cnt as int;
            assert(0 <= per <= left) by (nonlinear_arith)
                requires
                    left >= 0,
                    cnt >= 1,
                    per == left / cnt as int,
            ;
            assert(ce * per <= left) by (nonlinear_arith)
                requires
                    left >= 0,
                    cnt >= 1,
                    per == left / cnt as int,
                    0 <= ce <= cnt,
            ;
            let b = signed_budget(per as u64);
            lemma_signed_budget_le(per as u64);
            assert(forall|i: int| 0 <= i < order.len() ==> base.contains_key(#[trigger] order[i]));
            lemma_prio_round_spent(prev, base, order, order, level, b);
            assert(ce * (max_int(b, 0) + 1419) <= ce * per + ce * 1419) by (nonlinear_arith)
                requires
                    max_int(b, 0) <= per,
                    ce >= 0,
            ;
        }
        assert((cb + ce) * 1419 == cb * 1419 + ce * 1419) by (nonlinear_arith);
    }
}

/// A grab spends about its bandwidth: the accounted bytes of the frames it
/// sends are at most the larger of the bytes that the total bandwidth and the
/// guaranteed bandwidths allow in the time step, plus two frames per stream
/// (each stream may overshoot its budget by less than one frame, once with
/// its guaranteed bytes and once with its share of the rest). In particular a
/// level of the second phase shares only the bytes still left once every
/// frame sent before it in the grab is accounted, and no stream gets more
/// than its share.
pub proof fn lemma_grab_spends_its_bandwidth(
    streams: Map<Sid, StreamView>,
    order: Seq<Sid>,
    bandwidth: u64,
    dt_nanos: u128,
)
    requires
        streams_wf(streams),
        is_walk_order(order, streams),
    ensures
        total_cost(grab_spec(streams, order, bandwidth, dt_nanos).frames) <= max_int(
            bytes_in(bandwidth, dt_nanos),
            guaranteed_total(streams, order, dt_nanos),
        ) + 2 * order.len() * 1419,
{
    crate::grab_laws::lemma_grab_sends_pending_frames_once(streams, order, bandwidth, dt_nanos);
    let init = initial_state(streams);
    lemma_initial_inv(streams, order);
    assert(forall|i: int| 0 <= i < order.len() ==> streams.contains_key(#[trigger] order[i]));
    lemma_guaranteed_phase_inv(init, streams, order, order, dt_nanos);
    lemma_guaranteed_spent(streams, order, order, dt_nanos);
    let first = guaranteed_phase(init, order, dt_nanos);
    let total = bytes_in(bandwidth, dt_nanos);
    if first.spent < total {
        lemma_optional_spent(first, streams, order, total, 8);
        lemma_count_below_bound(streams, order, 8);
        let cb = count_below(streams, order, 8);
        assert(cb * 1419 <= order.len() * 1419) by (nonlinear_arith)
            requires
                cb <= order.len(),
        ;
    }
}

/// The frames after the first phase are in a prio prefix-preserving order.
pub open spec fn sorted_after(g: GrabState, streams: Map<Sid, StreamView>, k: int, levels: int) -> bool {
    &&& k <= g.frames.len()
    &&& g.sources.len() == g.frames.len()
    &&& forall|i: int|
        k <= i < g.sources.len() ==> (streams[#[trigger] g.sources[i]].prio as int) < levels
    &&& forall|i: int, j: int|
        k <= i < j < g.sources.len() ==> streams[#[trigger] g.sources[i]].prio <= streams[#[trigger] g.sources[j]].prio
}

/// A round at `prio` keeps what was sent before and adds only frames of
/// streams of that prio.
proof fn lemma_prio_round_appends(
    st: GrabState,
    base: Map<Sid, StreamView>,
    order: Seq<Sid>,
    walked: Seq<Sid>,
    prio: int,
    budget: int,
)
    requires
        grab_inv(st, base, order),
        is_walk_order(order, base),
        forall|i: int| 0 <= i < walked.len() ==> base.contains_key(#[trigger] walked[i]),
    ensures
        ({
            let r = prio_round(st, walked, prio, budget);
            &&& st.frames.len() <= r.frames.len()
            &&& r.frames.take(st.frames.len() as int) == st.frames
            &&& r.sources.take(st.sources.len() as int) == st.sources
            &&& forall|i: int|
                st.sources.len() <= i < r.sources.len() ==> base[#[trigger] r.sources[i]].prio == prio
        }),
    decreases walked.len(),
{
    if walked.len() == 0 {
        assert(st.frames.take(st.frames.len() as int) =~= st.frames);
        assert(st.sources.take(st.sources.len() as int) =~= st.sources);
    } else {
        let prefix = walked.drop_last();
        assert(forall|i: int| 0 <= i < prefix.len() ==> prefix[i] == walked[i]);
        lemma_prio_round_appends(st, base, order, prefix, prio, budget);
        lemma_prio_round_inv(st, base, order, prefix, prio, budget);
        let prev = prio_round(st, prefix, prio, budget);
        let sid = walked.last();
        assert(base.contains_key(sid)) by {
            assert(walked[walked.len() - 1] == sid);
        }
        assert(prev.streams.contains_key(sid));
        if prev.streams[sid].prio == prio {
            let r = serve_stream(prev, sid, budget);
            let f = serve(prev.streams[sid].messages, budget).frames;
            let rep = Seq::new(f.len(), |i: int| sid);
            assert(r.frames.take(st.frames.len() as int) =~= st.frames) by {
                assert(r.frames == prev.frames + f);
                assert forall|i: int| 0 <= i < st.frames.len() implies r.frames[i] == st.frames[i] by {
                    assert(prev.frames.take(st.frames.len() as int)[i] == st.frames[i]);
                }
            }
            assert(r.sources.take(st.sources.len() as int) =~= st.sources) by {
                assert(r.sources == prev.sources + rep);
                assert forall|i: int| 0 <= i < st.sources.len() implies r.sources[i] == st.sources[i] by {
                    assert(prev.sources.take(st.sources.len() as int)[i] == st.sources[i]);
                }
            }
            assert forall|i: int| st.sources.len() <= i < r.sources.len() implies base[
                #[trigger] r.sources[i]
            ].prio == prio by {
                assert(r.sources == prev.sources + rep);
                if i < prev.sources.len() {
                    assert(r.sources[i] == prev.sources[i]);
                } else {
                    assert(r.sources[i] == sid);
                }
            }
        }
    }
}

/// The second phase serves the levels in increasing prio.
proof fn lemma_optional_sorted(
    first: GrabState,
    base: Map<Sid, StreamView>,
    order: Seq<Sid>,
    total: int,
    levels: nat,
)
    requires
        grab_inv(first, base, order),
        is_walk_order(order, base),
    ensures
        ({
            let r = optional_phase(first, base, order, total, levels);
            &&& r.frames.take(first.frames.len() as int) == first.frames
            &&& sorted_after(r, base, first.frames.len() as int, levels as int)
        }),
    decreases levels,
{
    let k = first.frames.len() as int;
    if levels == 0 {
        assert(first.frames.take(k) =~= first.frames);
    } else {
        lemma_optional_sorted(first, base, order, total, (levels - 1) as nat);
        lemma_optional_phase_inv(first, base, order, total, (levels - 1) as nat);
        let prev = optional_phase(first, base, order, total, (levels - 1) as nat);
        let level = levels - 1;
        let cnt = prio_count(base, order, level);
        if cnt != 0 {
            let left = if total > prev.spent { total - prev.spent } else { 0 };
            let b = signed_budget((left / cnt as int) as u64);
            assert(forall|i: int| 0 <= i < order.len() ==> base.contains_key(#[trigger] order[i]));
            lemma_prio_round_appends(prev, base, order, order, level, b);
            lemma_prio_round_inv(prev, base, order, order, level, b);
            let r = prio_round(prev, order, level, b);
            assert(r.frames.take(k) =~= first.frames) by {
                assert forall|i: int| 0 <= i < k implies r.frames[i] == first.frames[i] by {
                    assert(r.frames.take(prev.frames.len() as int)[i] == prev.frames[i]);
                    assert(prev.frames.take(k)[i] == first.frames[i]);
                }
            }
            assert forall|i: int| k <= i < r.sources.len() implies (base[
                #[trigger] r.sources[i]
            ].prio as int) < levels by {
                if i < prev.sources.len() {
                    assert(r.sources.take(prev.sources.len() as int)[i] == prev.sources[i]);
                }
            }
            assert forall|i: int, j: int| k <= i < j < r.sources.len() implies base[
                #[trigger] r.sources[i]
            ].prio <= base[#[trigger] r.sources[j]].prio by {
                if j < prev.sources.len() {
                    assert(r.sources.take(prev.sources.len() as int)[i] == prev.sources[i]);
                    assert(r.sources.take(prev.sources.len() as int)[j] == prev.sources[j]);
                } else if i < prev.sources.len() {
                    assert(r.sources.take(prev.sources.len() as int)[i] == prev.sources[i]);
                }
            }
        }
    }
}

/// The second phase serves prio 0 first, then prio 1, and so on up to the
/// highest level: the frames of a grab are those of the first phase followed
/// by frames of streams in increasing prio, and no stream of a prio above the
/// highest level sends anything beyond its guaranteed bytes.
pub proof fn lemma_grab_serves_prios_in_order(
    streams: Map<Sid, StreamView>,
    order: Seq<Sid>,
    bandwidth: u64,
    dt_nanos: u128,
)
    requires
        streams_wf(streams),
        is_walk_order(order, streams),
    ensures
        ({
            let g = grab_spec(streams, order, bandwidth, dt_nanos);
            let first = guaranteed_phase(initial_state(streams), order, dt_nanos);
            let k = first.frames.len() as int;
            &&& k <= g.frames.len()
            &&& g.frames.take(k) == first.frames
            &&& g.sources.len() == g.frames.len()
            &&& forall|i: int| k <= i < g.sources.len() ==> streams[#[trigger] g.sources[i]].prio <= HIGHEST_PRIO
            &&& forall|i: int, j: int|
                k <= i < j < g.sources.len() ==> streams[#[trigger] g.sources[i]].prio
                    <= streams[#[trigger] g.sources[j]].prio
        }),
{
    crate::grab_laws::lemma_grab_sends_pending_frames_once(streams, order, bandwidth, dt_nanos);
    let init = initial_state(streams);
    lemma_initial_inv(streams, order);
    assert(forall|i: int| 0 <= i < order.len() ==> streams.contains_key(#[trigger] order[i]));
    lemma_guaranteed_phase_inv(init, streams, order, order, dt_nanos);
    let first = guaranteed_phase(init, order, dt_nanos);
    let total = bytes_in(bandwidth, dt_nanos);
    if first.spent < total {
        lemma_optional_sorted(first, streams, order, total, 8);
    } else {
        assert(first.frames.take(first.frames.len() as int) =~= first.frames);
    }
}

} // verus!
