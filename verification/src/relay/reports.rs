//! How often a connection is told that a node is not here.

use vstd::prelude::*;

use crate::limiter::{
    allowed_at, asked_at, in_order, law_reports_are_limited, PeerGoneLimiter, REPORTS, SECOND,
};
use crate::protocol::{peer_gone_reason, FrameView};
use crate::relay::laws::{
    does, is_run, law_runs_keep_the_invariant, lemma_arrival_plans, lemma_departure_plans,
    lemma_restart_plan, lemma_source_told, lemma_told, lemma_watch_plan, Op,
};
use crate::relay::model::{
    lemma_offered, plan_ok, to_all, to_each, Joining, Offer, Outcome, RelayView, SessionView,
};
use crate::relay::upkeep::{lemma_joined, lemma_left};

verus! {

/// Whether a frame tells that a node is not here.
pub open spec fn is_report(frame: FrameView) -> bool {
    frame matches FrameView::PeerGone { reason, .. } && reason == peer_gone_reason::NOT_HERE
}

/// How many of the offers tell that a node is not here.
pub open spec fn reports(offers: Seq<(FrameView, bool)>) -> nat
    decreases offers.len(),
{
    if offers.len() == 0 {
        0
    } else {
        reports(offers.drop_last()) + (if is_report(offers.last().0) {
            1nat
        } else {
            0nat
        })
    }
}

/// How many reports a connection was offered since it joined.
pub open spec fn reported(v: RelayView, id: u64) -> nat {
    reports(v.sessions[id].offers)
}

/// Whether a connection was offered no report and its limiter was not asked.
pub open spec fn unasked(pre: RelayView, post: RelayView, id: u64) -> bool {
    &&& post.sessions[id].limiter == pre.sessions[id].limiter
    &&& reported(post, id) == reported(pre, id)
}

proof fn lemma_one_more(s: SessionView, frame: FrameView, ok: bool)
    ensures
        reports(s.with_offer(frame, ok).offers) == reports(s.offers) + (if is_report(frame) {
            1nat
        } else {
            0nat
        }),
{
    assert(s.with_offer(frame, ok).offers.drop_last() =~= s.offers);
}

/// Offers of other frames are no reports.
proof fn lemma_plan_reports(v: RelayView, plan: Seq<Offer>, id: u64)
    requires
        plan_ok(v, plan),
        v.sessions.contains_key(id),
        forall|i: int| 0 <= i < plan.len() ==> !is_report((#[trigger] plan[i]).frame),
    ensures
        unasked(v, v.offered(plan), id),
        v.offered(plan).sessions.contains_key(id),
    decreases plan.len(),
{
    if plan.len() > 0 {
        let before = plan.drop_last();
        let last = plan.last();
        assert forall|i: int| 0 <= i < before.len() implies v.sessions.contains_key(
            (#[trigger] before[i]).id,
        ) && !is_report(before[i].frame) by {
            assert(before[i] == plan[i]);
        }
        lemma_plan_reports(v, before, id);
        lemma_offered(v, before);
        assert(!is_report(plan[plan.len() - 1].frame));
        let m = v.offered(before);
        if last.id == id {
            lemma_one_more(m.sessions[id], last.frame, last.ok);
        }
    }
}

/// The same frame for all, where it is no report.
proof fn lemma_all_reports(v: RelayView, plan: Seq<Offer>, ids: Set<u64>, frame: FrameView, id: u64)
    requires
        to_all(plan, ids, frame),
        plan_ok(v, plan),
        v.sessions.contains_key(id),
        !is_report(frame),
    ensures
        unasked(v, v.offered(plan), id),
        v.offered(plan).sessions.contains_key(id),
{
    let order = choose|order: Seq<u64>| #[trigger]
        to_each(plan, order, frame) && order.no_duplicates() && order.to_set() == ids;
    assert(to_each(plan, order, frame));
    lemma_plan_reports(v, plan, id);
}

/// Whether a connection's limiter was asked once, and the connection offered a report at most
/// where the limiter allowed it.
pub open spec fn asked_once(pre: RelayView, post: RelayView, id: u64, now: u64) -> bool {
    let l = pre.sessions[id].limiter;
    &&& post.sessions[id].limiter == l.asked(now)
    &&& reported(post, id) == reported(pre, id) + (if l.allows(now) {
        1nat
    } else {
        0nat
    })
}

/// Routing a packet asks the limiter of its sender at most.
proof fn lemma_route_reports(
    pre: RelayView,
    post: RelayView,
    source: u64,
    src: Seq<u8>,
    dst: Seq<u8>,
    packet: Seq<u8>,
    forwarded: bool,
    now: u64,
    id: u64,
)
    requires
        pre.wf(),
        pre.routed(post, source, src, dst, packet, forwarded, now),
        pre.sessions.contains_key(id),
    ensures
        unasked(pre, post, id) || (id == source && asked_once(pre, post, id, now)),
{
    let o = choose|o: Outcome|
        {
            &&& !pre.here(dst) && !forwarded ==> pre.mesh_answers(dst, o.tried, o.sent_out)
            &&& post == #[trigger] pre.routed_with(source, src, dst, packet, forwarded, now, o)
        };
    let s = pre.sessions[id];
    if pre.here(dst) {
        let frame = FrameView::RecvPacket { src, packet };
        lemma_one_more(s, frame, o.ok);
        if id == pre.active(dst) {
            assert(post.sessions[id] == s.with_offer(frame, o.ok));
        } else {
            assert(post.sessions[id] == s);
        }
    } else {
        lemma_source_told(pre, source, src, dst, packet, forwarded, now, o);
        if pre.sessions.contains_key(source) {
            lemma_told(pre, source, dst, packet, now, o.ok);
        }
        lemma_one_more(
            s,
            FrameView::PeerGone { peer: dst, reason: peer_gone_reason::NOT_HERE },
            o.ok,
        );
    }
}

/// An arrival brings no reports.
proof fn lemma_arrival_reports(pre: RelayView, post: RelayView, j: Joining, now: u64, id: u64)
    requires
        pre.wf(),
        pre.next_id < u64::MAX,
        pre.registered(post, j, now),
        pre.sessions.contains_key(id),
    ensures
        unasked(pre, post, id),
{
    lemma_joined(pre, j, now);
    let base = pre.joined(j, now);
    let (health, presence) = lemma_arrival_plans(pre, post, j, now);
    assert(unasked(pre, base, id));
    lemma_plan_reports(base, health, id);
    let told = base.offered(health);
    let frame = pre.fresh(j, now).present_frame();
    lemma_all_reports(told, presence, pre.watchers, frame, id);
}

/// A departure brings no reports.
proof fn lemma_departure_reports(pre: RelayView, post: RelayView, gone: u64, id: u64)
    requires
        pre.wf(),
        pre.unregistered(post, gone),
        pre.sessions.contains_key(gone),
        pre.sessions.contains_key(id),
    ensures
        unasked(pre, post, id),
{
    let left = pre.left(gone);
    lemma_left(pre, gone);
    assert(left.sessions.dom().contains(id));
    assert(unasked(pre, left, id));
    if pre.rest(gone).len() == 1 {
        lemma_one_more(left.sessions[id], FrameView::Health(Seq::empty()), true);
        lemma_one_more(left.sessions[id], FrameView::Health(Seq::empty()), false);
    } else if pre.rest(gone).len() == 0 && pre.sessions[gone].connected {
        let key = pre.sessions[gone].key;
        let frame = FrameView::PeerGone { peer: key, reason: peer_gone_reason::DISCONNECTED };
        let (watching, reached) = lemma_departure_plans(pre, post, gone);
        lemma_all_reports(left, watching, pre.watchers.remove(gone), frame, id);
        let told = left.offered(watching);
        lemma_all_reports(told, reached, pre.reached_by(key), frame, id);
    }
}

/// A request to watch brings no reports.
proof fn lemma_watch_reports(pre: RelayView, post: RelayView, watcher: u64, id: u64)
    requires
        pre.wf(),
        pre.may_mesh(watcher),
        pre.watched(post, watcher),
        pre.sessions.contains_key(id),
    ensures
        unasked(pre, post, id),
{
    let base = RelayView { watchers: pre.watchers.insert(watcher), ..pre };
    let (plan, order) = lemma_watch_plan(pre, post, watcher);
    lemma_plan_reports(base, plan, id);
}

/// Whatever is done asks the limiter of the sender of a packet at most, as long as nobody sends
/// reports by hand.
pub proof fn law_reports_are_asked_for(pre: RelayView, op: Op, post: RelayView, id: u64)
    requires
        pre.wf(),
        does(pre, op, post),
        pre.sessions.contains_key(id),
        post.sessions.contains_key(id),
        op matches Op::SendTo { frame, .. } ==> !is_report(frame),
    ensures
        unasked(pre, post, id) || (op matches Op::Route { source, now, .. } && source == id
            && asked_once(pre, post, id, now)),
{
    match op {
        Op::Register { joining, now } => {
            lemma_arrival_reports(pre, post, joining, now, id);
        },
        Op::Unregister { id: gone } => {
            if pre.sessions.contains_key(gone) {
                lemma_departure_reports(pre, post, gone, id);
            }
        },
        Op::Route { source, src, dst, packet, forwarded, now } => {
            lemma_route_reports(pre, post, source, src, dst, packet, forwarded, now, id);
        },
        Op::Watch { id: watcher } => {
            if pre.may_mesh(watcher) {
                lemma_watch_reports(pre, post, watcher, id);
            }
        },
        Op::BroadcastRestart { reconnect_in_ms, try_for_ms } => {
            let frame = FrameView::Restarting { reconnect_in_ms, try_for_ms };
            let plan = lemma_restart_plan(pre, post, reconnect_in_ms, try_for_ms);
            lemma_all_reports(pre, plan, pre.connected(), frame, id);
        },
        Op::SendTo { id: to, frame } => {
            lemma_one_more(pre.sessions[id], frame, true);
            lemma_one_more(pre.sessions[id], frame, false);
        },
        _ => {},
    }
}

/// Whether the packets of a run come in the order of their times, all of them in a span of time.
pub open spec fn timed(ops: Seq<Op>, start: u64, end: u64) -> bool {
    &&& forall|i: int|
        0 <= i < ops.len() && (#[trigger] ops[i]) is Route ==> start <= ops[i]->Route_now <= end
    &&& forall|i: int, j: int|
        0 <= i <= j < ops.len() && (#[trigger] ops[i]) is Route && (#[trigger] ops[j]) is Route
            ==> ops[i]->Route_now <= ops[j]->Route_now
}

/// Whether a packet came at this time among the first things that were done.
spec fn at_a_packet(ops: Seq<Op>, n: int, time: u64) -> bool {
    exists|i: int| 0 <= i < n && (#[trigger] ops[i]) is Route && ops[i]->Route_now == time
}

/// The times at which a connection's limiter was asked.
proof fn lemma_asked_times(
    states: Seq<RelayView>,
    ops: Seq<Op>,
    start: u64,
    end: u64,
    id: u64,
    n: int,
) -> (times: Seq<u64>)
    requires
        is_run(states, ops),
        states[0].wf(),
        forall|i: int| 0 <= i < states.len() ==> (#[trigger] states[i]).sessions.contains_key(id),
        forall|i: int|
            0 <= i < ops.len() ==> ((#[trigger] ops[i]) matches Op::SendTo { frame, .. }
                ==> !is_report(frame)),
        timed(ops, start, end),
        0 <= n < states.len(),
    ensures
        states[n].sessions[id].limiter == asked_at(states[0].sessions[id].limiter, times),
        reported(states[n], id) == reported(states[0], id) + allowed_at(
            states[0].sessions[id].limiter,
            times,
        ),
        forall|k: int| 0 <= k < times.len() ==> at_a_packet(ops, n, #[trigger] times[k]),
        forall|j: int, k: int| 0 <= j <= k < times.len() ==> times[j] <= times[k],
    decreases n,
{
    if n == 0 {
        Seq::empty()
    } else {
        let m = n - 1;
        let before = lemma_asked_times(states, ops, start, end, id, m);
        law_runs_keep_the_invariant(states, ops, m);
        assert(does(states[m], ops[m], states[m + 1]));
        assert(states[n].sessions.contains_key(id));
        law_reports_are_asked_for(states[m], ops[m], states[n], id);
        assert forall|t: u64| at_a_packet(ops, m, t) implies #[trigger] at_a_packet(ops, n, t) by {
            let i = choose|i: int|
                0 <= i < m && (#[trigger] ops[i]) is Route && ops[i]->Route_now == t;
            assert(ops[i] is Route);
        }
        if unasked(states[m], states[n], id) {
            before
        } else {
            let now = ops[m]->Route_now;
            let times = before.push(now);
            assert(times.drop_last() =~= before);
            assert(at_a_packet(ops, n, now)) by {
                assert(ops[m] is Route);
            }
            assert forall|j: int, k: int| 0 <= j <= k < times.len() implies times[j]
                <= times[k] by {
                if k == before.len() && j < before.len() {
                    assert(at_a_packet(ops, m, before[j]));
                    let i = choose|i: int|
                        0 <= i < m && (#[trigger] ops[i]) is Route && ops[i]->Route_now
                            == before[j];
                    assert(ops[i]->Route_now <= ops[m]->Route_now);
                }
            }
            assert forall|k: int| 0 <= k < times.len() implies at_a_packet(
                ops,
                n,
                #[trigger] times[k],
            ) by {
                if k < before.len() {
                    assert(at_a_packet(ops, m, before[k]));
                }
            }
            times
        }
    }
}

/// Whatever is done in a span of time, short of sending such frames by hand, a connection is told
/// at most three times that a node is not here, and three times more for each second of the span.
pub proof fn law_connections_are_told_rarely(
    states: Seq<RelayView>,
    ops: Seq<Op>,
    start: u64,
    end: u64,
    id: u64,
)
    requires
        is_run(states, ops),
        states[0].wf(),
        forall|i: int| 0 <= i < states.len() ==> (#[trigger] states[i]).sessions.contains_key(id),
        forall|i: int|
            0 <= i < ops.len() ==> ((#[trigger] ops[i]) matches Op::SendTo { frame, .. }
                ==> !is_report(frame)),
        start <= end,
        timed(ops, start, end),
    ensures
        (reported(states.last(), id) - reported(states[0], id)) * SECOND <= REPORTS * SECOND
            + REPORTS * (end - start),
{
    let n = states.len() - 1;
    let times = lemma_asked_times(states, ops, start, end, id, n);
    let l: PeerGoneLimiter = states[0].sessions[id].limiter;
    if times.len() > 0 {
        assert forall|k: int| 0 <= k < times.len() implies start <= #[trigger] times[k] <= end by {
            assert(at_a_packet(ops, n, times[k]));
        }
        assert forall|k: int| 0 <= k < times.len() implies times[0] <= #[trigger] times[k] by {}
        assert(in_order(times[0], times));
        law_reports_are_limited(l, times);
    }
}

} // verus!
