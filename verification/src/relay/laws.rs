//! What holds of the relay whatever is done with it.

use vstd::prelude::*;

use crate::metrics::{plus, Metrics};
use crate::protocol::{peer_gone_reason, FrameView};
use crate::relay::model::{
    duplicate_text, gone_frame, is_disco, law_offers_are_recorded, lemma_offered, lemma_without,
    newest, offers_to, plan_ok, same_but_offers, to_all, to_each, tried_routes, without, Joining,
    Offer, Outcome, RelayView, SessionView,
};
use crate::relay::upkeep::{
    lemma_active, lemma_active_noted, lemma_joined, lemma_left, lemma_listed, lemma_mesh_removed,
    lemma_newest, lemma_other_routes, lemma_released, lemma_route_added, lemma_route_removed,
    lemma_routes_kept, lemma_selected, lemma_sessions_changed, lemma_tried, lemma_watching,
};

verus! {

/// Something that is done with the relay.
pub enum Op {
    Register { joining: Joining, now: u64 },
    Unregister { id: u64 },
    Release { id: u64 },
    NoteActivity { id: u64 },
    NotePreferred { id: u64, preferred: bool },
    Route {
        source: u64,
        src: Seq<u8>,
        dst: Seq<u8>,
        packet: Seq<u8>,
        forwarded: bool,
        now: u64,
    },
    AddMeshRoute { mesh_id: u64, peer: Seq<u8>, queue: int, offers: Seq<(FrameView, bool)> },
    RemoveMeshRoute { mesh_id: u64, peer: Seq<u8> },
    RemoveMesh { mesh_id: u64 },
    Watch { id: u64 },
    ClosePeer { requester: u64, peer: Seq<u8> },
    BroadcastRestart { reconnect_in_ms: u32, try_for_ms: u32 },
    SendTo { id: u64, frame: FrameView },
    SettleDelivery { src: Seq<u8>, dst: Seq<u8>, len: nat, accepted: bool },
    CountUnknownFrame,
    CountRejection,
    /// The public counters are written from outside.
    WriteMetrics { metrics: Metrics },
}

/// Whether `post` can be the state after something was done in state `pre`.
pub open spec fn does(pre: RelayView, op: Op, post: RelayView) -> bool {
    match op {
        Op::Register { joining, now } => pre.next_id < u64::MAX && pre.registered(
            post,
            joining,
            now,
        ),
        Op::Unregister { id } => pre.unregistered(post, id),
        Op::Release { id } => post == pre.released(id),
        Op::NoteActivity { id } => post == pre.active_noted(id),
        Op::NotePreferred { id, preferred } => post == pre.preferred_noted(id, preferred),
        Op::Route { source, src, dst, packet, forwarded, now } => pre.routed(
            post,
            source,
            src,
            dst,
            packet,
            forwarded,
            now,
        ),
        Op::AddMeshRoute { mesh_id, peer, queue, offers } => post == pre.route_added(
            mesh_id,
            peer,
            queue,
            offers,
        ),
        Op::RemoveMeshRoute { mesh_id, peer } => post == pre.route_removed(mesh_id, peer),
        Op::RemoveMesh { mesh_id } => post == pre.mesh_removed(mesh_id),
        Op::Watch { id } => if pre.may_mesh(id) {
            pre.watched(post, id)
        } else {
            post == pre
        },
        Op::ClosePeer { requester, peer } => if pre.may_mesh(requester) && pre.here(peer) {
            post == pre.peer_closed(peer)
        } else {
            post == pre
        },
        Op::BroadcastRestart { reconnect_in_ms, try_for_ms } => pre.restart_told(
            post,
            reconnect_in_ms,
            try_for_ms,
        ),
        Op::SendTo { id, frame } => if pre.sessions.contains_key(id) {
            exists|ok: bool| post == #[trigger] pre.deliver(Offer { id, frame, ok })
        } else {
            post == pre
        },
        Op::SettleDelivery { src, dst, len, accepted } => pre.here(dst) && post == pre.settled(
            src,
            dst,
            len,
            accepted,
        ),
        Op::CountUnknownFrame => post == RelayView {
            metrics: Metrics {
                unknown_frames: plus(pre.metrics.unknown_frames, 1),
                ..pre.metrics
            },
            ..pre
        },
        Op::CountRejection => post == RelayView {
            metrics: Metrics {
                admission_rejected: plus(pre.metrics.admission_rejected, 1),
                ..pre.metrics
            },
            ..pre
        },
        Op::WriteMetrics { metrics } => post == RelayView { metrics, ..pre },
    }
}

/// Offers to connections that are all there go to connections that are there.
pub proof fn lemma_to_all_ok(v: RelayView, plan: Seq<Offer>, ids: Set<u64>, frame: FrameView)
    requires
        to_all(plan, ids, frame),
        forall|id: u64| #[trigger] ids.contains(id) ==> v.sessions.contains_key(id),
    ensures
        plan_ok(v, plan),
{
    let order = choose|order: Seq<u64>| #[trigger]
        to_each(plan, order, frame) && order.no_duplicates() && order.to_set() == ids;
    assert forall|i: int| 0 <= i < plan.len() implies v.sessions.contains_key(
        (#[trigger] plan[i]).id,
    ) by {
        assert(order.to_set().contains(order[i]));
        assert(ids.contains(order[i]));
    }
}

/// One offer is a plan of one.
pub proof fn lemma_one_offer(v: RelayView, o: Offer)
    requires
        v.sessions.contains_key(o.id),
    ensures
        plan_ok(v, seq![o]),
        v.offered(seq![o]) == v.deliver(o),
        same_but_offers(v, v.deliver(o)),
        v.wf() ==> v.deliver(o).wf(),
{
    let plan = seq![o];
    assert(plan.drop_last() =~= Seq::empty());
    assert(v.offered(plan.drop_last()) == v);
    lemma_offered(v, plan);
}

/// The offers of a registration: to the connections that share the key, then to the watchers.
pub proof fn lemma_arrival_plans(pre: RelayView, post: RelayView, j: Joining, now: u64) -> (r: (
    Seq<Offer>,
    Seq<Offer>,
))
    requires
        pre.wf(),
        pre.next_id < u64::MAX,
        pre.registered(post, j, now),
    ensures
        ({
            let base = pre.joined(j, now);
            let told = base.offered(r.0);
            &&& to_each(r.0, pre.duplicates(j.key), FrameView::Health(duplicate_text()))
            &&& to_all(r.1, pre.watchers, pre.fresh(j, now).present_frame())
            &&& plan_ok(base, r.0)
            &&& plan_ok(told, r.1)
            &&& base.wf()
            &&& same_but_offers(base, told)
            &&& post == told.offered(r.1)
        }),
{
    let base = pre.joined(j, now);
    let present = pre.fresh(j, now).present_frame();
    lemma_joined(pre, j, now);
    let (health, presence) = choose|health: Seq<Offer>, presence: Seq<Offer>|
        {
            &&& #[trigger] to_each(
                health,
                pre.duplicates(j.key),
                FrameView::Health(duplicate_text()),
            )
            &&& #[trigger] to_all(presence, pre.watchers, present)
            &&& post == base.offered(health).offered(presence)
        };
    lemma_health_ok(pre, j, now, health);
    lemma_offered(base, health);
    let told = base.offered(health);
    assert forall|id: u64| #[trigger] pre.watchers.contains(id) implies told.sessions.contains_key(
        id,
    ) by {
        assert(pre.may_mesh(id));
        assert(base.sessions.contains_key(id));
    }
    lemma_to_all_ok(told, presence, pre.watchers, present);
    (health, presence)
}

/// What a registration comes to: the client has joined, and offers were made.
pub proof fn lemma_registered(pre: RelayView, post: RelayView, j: Joining, now: u64)
    requires
        pre.wf(),
        pre.next_id < u64::MAX,
        pre.registered(post, j, now),
    ensures
        post.wf(),
        same_but_offers(pre.joined(j, now), post),
        pre.joined(j, now).wf(),
{
    let base = pre.joined(j, now);
    let (health, presence) = lemma_arrival_plans(pre, post, j, now);
    let told = base.offered(health);
    lemma_offered(base, health);
    lemma_offered(told, presence);
    lemma_offers_twice(base, told, post);
}

/// Offers after offers are offers.
proof fn lemma_offers_twice(a: RelayView, b: RelayView, c: RelayView)
    requires
        same_but_offers(a, b),
        same_but_offers(b, c),
    ensures
        same_but_offers(a, c),
{
    assert forall|id: u64| #[trigger] a.sessions.contains_key(id) implies SessionView {
        offers: a.sessions[id].offers,
        ..c.sessions[id]
    } == a.sessions[id] by {
        assert(b.sessions.contains_key(id));
    }
}

/// The health frames of a registration go to connections that are there.
proof fn lemma_health_ok(pre: RelayView, j: Joining, now: u64, health: Seq<Offer>)
    requires
        pre.wf(),
        pre.next_id < u64::MAX,
        to_each(health, pre.duplicates(j.key), FrameView::Health(duplicate_text())),
    ensures
        plan_ok(pre.joined(j, now), health),
{
    let base = pre.joined(j, now);
    lemma_joined(pre, j, now);
    if pre.here(j.key) {
        assert(base.list_ok(j.key));
        assert(base.peers[j.key] =~= pre.duplicates(j.key));
        assert forall|i: int| 0 <= i < health.len() implies base.sessions.contains_key(
            (#[trigger] health[i]).id,
        ) by {
            assert(base.sessions.contains_key(base.peers[j.key][i]));
        }
    }
}

/// The offers of a node's last departure: to the watchers, then to those that it has reached.
pub proof fn lemma_departure_plans(pre: RelayView, post: RelayView, id: u64) -> (r: (
    Seq<Offer>,
    Seq<Offer>,
))
    requires
        pre.wf(),
        pre.is_connected(id),
        pre.rest(id).len() == 0,
        pre.unregistered(post, id),
    ensures
        ({
            let key = pre.sessions[id].key;
            let gone = gone_frame(key, peer_gone_reason::DISCONNECTED);
            let left = pre.left(id);
            let told = left.offered(r.0);
            &&& to_all(r.0, pre.watchers.remove(id), gone)
            &&& to_all(r.1, pre.reached_by(key), gone)
            &&& plan_ok(left, r.0)
            &&& plan_ok(told, r.1)
            &&& left.wf()
            &&& same_but_offers(left, told)
            &&& post == told.offered(r.1)
        }),
{
    let key = pre.sessions[id].key;
    let gone = gone_frame(key, peer_gone_reason::DISCONNECTED);
    let left = pre.left(id);
    lemma_left(pre, id);
    let (watching, reached) = choose|watching: Seq<Offer>, reached: Seq<Offer>|
        {
            &&& #[trigger] to_all(watching, pre.watchers.remove(id), gone)
            &&& #[trigger] to_all(reached, pre.reached_by(key), gone)
            &&& post == left.offered(watching).offered(reached)
        };
    assert forall|x: u64| #[trigger] pre.watchers.remove(id).contains(
        x,
    ) implies left.sessions.contains_key(x) by {
        assert(pre.watchers.contains(x));
        assert(pre.may_mesh(x));
    }
    lemma_to_all_ok(left, watching, pre.watchers.remove(id), gone);
    lemma_offered(left, watching);
    let told = left.offered(watching);
    assert forall|x: u64| #[trigger] pre.reached_by(key).contains(
        x,
    ) implies told.sessions.contains_key(x) by {
        assert(pre.sessions.contains_key(x));
        assert(left.sessions.dom().contains(x));
    }
    lemma_to_all_ok(told, reached, pre.reached_by(key), gone);
    (watching, reached)
}

/// What a departure comes to: the connection has left, and offers were made.
pub proof fn lemma_unregistered(pre: RelayView, post: RelayView, id: u64)
    requires
        pre.wf(),
        pre.sessions.contains_key(id),
        pre.unregistered(post, id),
    ensures
        post.wf(),
        same_but_offers(pre.left(id), post),
        pre.left(id).wf(),
{
    let left = pre.left(id);
    lemma_left(pre, id);
    if pre.rest(id).len() == 1 {
        let other = pre.rest(id)[0];
        lemma_remaining(pre, id);
        let ok = choose|ok: bool|
            post == #[trigger] left.deliver(
                Offer { id: other, frame: FrameView::Health(Seq::empty()), ok },
            );
        lemma_one_offer(left, Offer { id: other, frame: FrameView::Health(Seq::empty()), ok });
    } else if pre.rest(id).len() == 0 && pre.sessions[id].connected {
        let (watching, reached) = lemma_departure_plans(pre, post, id);
        let told = left.offered(watching);
        lemma_offered(told, reached);
        lemma_offers_twice(left, told, post);
    }
}

/// The one connection that remains of a node is there, and is not the one that leaves.
proof fn lemma_remaining(pre: RelayView, id: u64)
    requires
        pre.wf(),
        pre.sessions.contains_key(id),
        pre.rest(id).len() == 1,
    ensures
        pre.here(pre.sessions[id].key),
        pre.is_connected(pre.rest(id)[0]),
        pre.sessions[pre.rest(id)[0]].key == pre.sessions[id].key,
        pre.rest(id)[0] != id,
        pre.left(id).sessions.contains_key(pre.rest(id)[0]),
{
    let key = pre.sessions[id].key;
    let other = pre.rest(id)[0];
    lemma_left(pre, id);
    assert(pre.here(key));
    assert(pre.list_ok(key));
    lemma_without(pre.peers[key], id);
    assert(pre.rest(id).contains(other));
    lemma_listed(pre, key, other);
    assert(pre.sessions.dom().contains(other));
}

/// What routing leaves alone: who is connected, where, and with what standing.
pub open spec fn standing_kept(pre: RelayView, post: RelayView) -> bool {
    &&& post.sessions.dom() == pre.sessions.dom()
    &&& forall|id: u64| #[trigger]
        pre.sessions.contains_key(id) ==> post.sessions[id] == (SessionView {
            limiter: post.sessions[id].limiter,
            offers: post.sessions[id].offers,
            ..pre.sessions[id]
        })
    &&& post.peers == pre.peers
    &&& post.watchers == pre.watchers
    &&& post.next_id == pre.next_id
    &&& post.queue_depth == pre.queue_depth
    &&& post.metrics.current_clients == pre.metrics.current_clients
    &&& post.metrics.preferred_clients == pre.metrics.preferred_clients
}

proof fn lemma_standing_twice(a: RelayView, b: RelayView, c: RelayView)
    requires
        standing_kept(a, b),
        standing_kept(b, c),
    ensures
        standing_kept(a, c),
{
    assert forall|id: u64| #[trigger] a.sessions.contains_key(id) implies c.sessions[id] == (
    SessionView {
        limiter: c.sessions[id].limiter,
        offers: c.sessions[id].offers,
        ..a.sessions[id]
    }) by {
        assert(b.sessions.dom().contains(id));
        assert(b.sessions.contains_key(id));
    }
}

proof fn lemma_standing_deliver(v: RelayView, o: Offer)
    requires
        v.sessions.contains_key(o.id),
    ensures
        standing_kept(v, v.deliver(o)),
{
    assert(v.deliver(o).sessions.dom() =~= v.sessions.dom());
}

proof fn lemma_standing_told(
    v: RelayView,
    source: u64,
    dst: Seq<u8>,
    packet: Seq<u8>,
    now: u64,
    ok: bool,
)
    ensures
        standing_kept(v, v.not_here_told(source, dst, packet, now, ok)),
        v.not_here_told(source, dst, packet, now, ok).routes == v.routes,
        v.not_here_told(source, dst, packet, now, ok).paths == v.paths,
{
    let w = v.not_here_told(source, dst, packet, now, ok);
    assert(w.sessions.dom() =~= v.sessions.dom());
}

/// A packet to a node that is here.
proof fn lemma_routed_here(
    pre: RelayView,
    source: u64,
    src: Seq<u8>,
    dst: Seq<u8>,
    packet: Seq<u8>,
    forwarded: bool,
    now: u64,
    o: Outcome,
)
    requires
        pre.wf(),
        pre.here(dst),
    ensures
        ({
            let post = pre.routed_with(source, src, dst, packet, forwarded, now, o);
            &&& standing_kept(pre, post)
            &&& post.routes == pre.routes
            &&& post.paths == if o.ok {
                pre.paths.insert((src, dst))
            } else {
                pre.paths
            }
        }),
{
    let counted = pre.counted(packet.len(), forwarded);
    let offer = Offer {
        id: pre.active(dst),
        frame: FrameView::RecvPacket { src, packet },
        ok: o.ok,
    };
    lemma_active(pre, dst);
    lemma_standing_deliver(counted, offer);
    let post = pre.routed_with(source, src, dst, packet, forwarded, now, o);
    assert(post.sessions == counted.deliver(offer).sessions);
}

/// A packet to a node that is not here.
proof fn lemma_routed_away(
    pre: RelayView,
    source: u64,
    src: Seq<u8>,
    dst: Seq<u8>,
    packet: Seq<u8>,
    forwarded: bool,
    now: u64,
    o: Outcome,
)
    requires
        pre.wf(),
        !pre.here(dst),
    ensures
        ({
            let post = pre.routed_with(source, src, dst, packet, forwarded, now, o);
            &&& standing_kept(pre, post)
            &&& post.paths == pre.paths
            &&& post.routes == pre.routes || (pre.routes.contains_key(dst) && post.routes
                == pre.routes.insert(
                dst,
                tried_routes(
                    pre.routes[dst],
                    FrameView::ForwardPacket { src, dst, packet },
                    o.tried,
                    o.sent_out,
                ),
            ))
        }),
{
    let counted = pre.counted(packet.len(), forwarded);
    let tried = if forwarded {
        counted
    } else {
        counted.sent_to_mesh(src, dst, packet, o.tried, o.sent_out)
    };
    assert(standing_kept(pre, tried));
    let post = pre.routed_with(source, src, dst, packet, forwarded, now, o);
    if !(!forwarded && o.sent_out) {
        let lost = RelayView {
            metrics: Metrics {
                packets_dropped: plus(tried.metrics.packets_dropped, 1),
                ..tried.metrics
            },
            ..tried
        };
        assert(standing_kept(pre, lost));
        lemma_standing_told(lost, source, dst, packet, now, o.ok);
        assert(post == lost.not_here_told(source, dst, packet, now, o.ok));
        lemma_standing_twice(pre, lost, post);
    }
}

/// What a sender is told of a node that is not here.
pub proof fn lemma_told(
    v: RelayView,
    source: u64,
    dst: Seq<u8>,
    packet: Seq<u8>,
    now: u64,
    ok: bool,
)
    requires
        v.sessions.contains_key(source),
    ensures
        ({
            let w = v.not_here_told(source, dst, packet, now, ok);
            let s = v.sessions[source];
            &&& w.sessions[source].offers == (if is_disco(packet) && s.limiter.allows(now) {
                s.offers.push((gone_frame(dst, peer_gone_reason::NOT_HERE), ok))
            } else {
                s.offers
            })
            &&& w.sessions[source].limiter == (if is_disco(packet) {
                s.limiter.asked(now)
            } else {
                s.limiter
            })
            &&& forall|id: u64| id != source ==> #[trigger] w.sessions[id] == v.sessions[id]
        }),
{
}

/// Where a packet to a node that is not here does not go out to the mesh, its sender is told.
pub proof fn lemma_source_told(
    pre: RelayView,
    source: u64,
    src: Seq<u8>,
    dst: Seq<u8>,
    packet: Seq<u8>,
    forwarded: bool,
    now: u64,
    o: Outcome,
)
    requires
        !pre.here(dst),
    ensures
        ({
            let post = pre.routed_with(source, src, dst, packet, forwarded, now, o);
            post.sessions == (if !forwarded && o.sent_out {
                pre.sessions
            } else {
                pre.not_here_told(source, dst, packet, now, o.ok).sessions
            })
        }),
{
}

/// What routing comes to.
pub proof fn lemma_routed(
    pre: RelayView,
    post: RelayView,
    source: u64,
    src: Seq<u8>,
    dst: Seq<u8>,
    packet: Seq<u8>,
    forwarded: bool,
    now: u64,
)
    requires
        pre.wf(),
        pre.routed(post, source, src, dst, packet, forwarded, now),
    ensures
        post.wf(),
        standing_kept(pre, post),
        pre.paths.subset_of(post.paths),
{
    let o = choose|o: Outcome|
        {
            &&& !pre.here(dst) && !forwarded ==> pre.mesh_answers(dst, o.tried, o.sent_out)
            &&& post == #[trigger] pre.routed_with(source, src, dst, packet, forwarded, now, o)
        };
    let frame = FrameView::ForwardPacket { src, dst, packet };
    if pre.here(dst) {
        lemma_routed_here(pre, source, src, dst, packet, forwarded, now, o);
        lemma_routes_kept(pre, post);
    } else {
        lemma_routed_away(pre, source, src, dst, packet, forwarded, now, o);
        if post.routes == pre.routes {
            lemma_routes_kept(pre, post);
        } else {
            lemma_tried(pre, post, dst, frame, o.tried, o.sent_out);
        }
    }
    assert forall|p: (Seq<u8>, Seq<u8>)| #[trigger] post.paths.contains(p) implies post.here(
        p.1,
    ) by {
        if pre.paths.contains(p) {
            assert(pre.here(p.1));
        }
    }
    lemma_sessions_changed(pre, post);
}

/// The offers of a request to watch: who is here, node by node.
pub proof fn lemma_watch_plan(pre: RelayView, post: RelayView, id: u64) -> (r: (
    Seq<Offer>,
    Seq<Seq<u8>>,
))
    requires
        pre.wf(),
        pre.may_mesh(id),
        pre.watched(post, id),
    ensures
        ({
            let base = RelayView { watchers: pre.watchers.insert(id), ..pre };
            &&& pre.announces(r.0, id, r.1)
            &&& r.1.no_duplicates()
            &&& r.1.to_set() == pre.peers.dom()
            &&& plan_ok(base, r.0)
            &&& base.wf()
            &&& post == base.offered(r.0)
        }),
{
    let base = RelayView { watchers: pre.watchers.insert(id), ..pre };
    lemma_watching(pre, id);
    let plan = choose|plan: Seq<Offer>|
        {
            &&& #[trigger] pre.announces_all(plan, id)
            &&& post == base.offered(plan)
        };
    let order = choose|order: Seq<Seq<u8>>|
        {
            &&& #[trigger] pre.announces(plan, id, order)
            &&& order.no_duplicates()
            &&& order.to_set() == pre.peers.dom()
        };
    (plan, order)
}

/// What a request to watch comes to: offers were made to the watcher.
pub proof fn lemma_watched(pre: RelayView, post: RelayView, id: u64)
    requires
        pre.wf(),
        pre.may_mesh(id),
        pre.watched(post, id),
    ensures
        post.wf(),
        same_but_offers(RelayView { watchers: pre.watchers.insert(id), ..pre }, post),
{
    let (plan, order) = lemma_watch_plan(pre, post, id);
    lemma_offered(RelayView { watchers: pre.watchers.insert(id), ..pre }, plan);
}

/// The offers of a restart: one to each connection.
pub proof fn lemma_restart_plan(pre: RelayView, post: RelayView, a: u32, b: u32) -> (r: Seq<Offer>)
    requires
        pre.restart_told(post, a, b),
    ensures
        to_all(
            r,
            pre.connected(),
            FrameView::Restarting { reconnect_in_ms: a, try_for_ms: b },
        ),
        plan_ok(pre, r),
        post == pre.offered(r),
{
    let frame = FrameView::Restarting { reconnect_in_ms: a, try_for_ms: b };
    let plan = choose|plan: Seq<Offer>|
        {
            &&& #[trigger] to_all(plan, pre.connected(), frame)
            &&& post == pre.offered(plan)
        };
    lemma_to_all_ok(pre, plan, pre.connected(), frame);
    plan
}

/// What a restart comes to: offers were made.
pub proof fn lemma_restart_told(pre: RelayView, post: RelayView, a: u32, b: u32)
    requires
        pre.wf(),
        pre.restart_told(post, a, b),
    ensures
        post.wf(),
        same_but_offers(pre, post),
{
    let plan = lemma_restart_plan(pre, post, a, b);
    lemma_offered(pre, plan);
}

/// Whatever is done with the relay keeps its invariant.
pub proof fn law_every_operation_keeps_the_invariant(pre: RelayView, op: Op, post: RelayView)
    requires
        pre.wf(),
        does(pre, op, post),
    ensures
        post.wf(),
{
    match op {
        Op::Register { joining, now } => {
            lemma_registered(pre, post, joining, now);
        },
        Op::Unregister { id } => {
            if pre.sessions.contains_key(id) {
                lemma_unregistered(pre, post, id);
            }
        },
        Op::Release { id } => {
            lemma_released(pre, id);
        },
        Op::NoteActivity { id } => {
            lemma_active_noted(pre, id);
        },
        Op::NotePreferred { id, preferred } => {
            assert(post.sessions.dom() =~= pre.sessions.dom());
            lemma_routes_kept(pre, post);
            lemma_sessions_changed(pre, post);
        },
        Op::Route { source, src, dst, packet, forwarded, now } => {
            lemma_routed(pre, post, source, src, dst, packet, forwarded, now);
        },
        Op::AddMeshRoute { mesh_id, peer, queue, offers } => {
            lemma_route_added(pre, mesh_id, peer, queue, offers);
        },
        Op::RemoveMeshRoute { mesh_id, peer } => {
            lemma_route_removed(pre, mesh_id, peer);
        },
        Op::RemoveMesh { mesh_id } => {
            lemma_mesh_removed(pre, mesh_id);
        },
        Op::Watch { id } => {
            if pre.may_mesh(id) {
                lemma_watched(pre, post, id);
            }
        },
        Op::ClosePeer { requester, peer } => {
            assert(post.sessions.dom() =~= pre.sessions.dom());
            lemma_routes_kept(pre, post);
            lemma_sessions_changed(pre, post);
        },
        Op::BroadcastRestart { reconnect_in_ms, try_for_ms } => {
            lemma_restart_told(pre, post, reconnect_in_ms, try_for_ms);
        },
        Op::SendTo { id, frame } => {
            if pre.sessions.contains_key(id) {
                let ok = choose|ok: bool| post == #[trigger] pre.deliver(Offer { id, frame, ok });
                lemma_one_offer(pre, Offer { id, frame, ok });
            }
        },
        _ => {
            lemma_routes_kept(pre, post);
            lemma_sessions_changed(pre, post);
        },
    }
}

/// A client that joins becomes its node's active connection, whoever is connected already.
pub proof fn law_newest_connection_is_active(
    pre: RelayView,
    post: RelayView,
    j: Joining,
    now: u64,
)
    requires
        pre.wf(),
        pre.next_id < u64::MAX,
        pre.registered(post, j, now),
    ensures
        post.here(j.key),
        post.active(j.key) == pre.next_id,
        post.sessions.contains_key(pre.next_id),
        forall|k: Seq<u8>| k != j.key && pre.here(k) ==> post.here(k) && #[trigger] post.active(k)
            == pre.active(k),
{
    lemma_registered(pre, post, j, now);
}

/// A connection that is used becomes its node's active one, and those of other nodes stay so.
pub proof fn law_activity_selects_the_connection(pre: RelayView, id: u64)
    requires
        pre.wf(),
        pre.is_connected(id),
    ensures
        pre.active_noted(id).active(pre.sessions[id].key) == id,
        forall|k: Seq<u8>| k != pre.sessions[id].key && pre.here(k) ==> #[trigger] pre.active_noted(
            id,
        ).active(k) == pre.active(k),
{
}

/// A connection that left while its node had others selects the newest of those that are here,
/// where it is used all the same: no connection of the node joined later.
pub proof fn law_late_activity_selects_the_newest(pre: RelayView, id: u64)
    requires
        pre.wf(),
        pre.sessions.contains_key(id),
        !pre.sessions[id].connected,
        pre.sessions[id].duplicate,
        pre.here(pre.sessions[id].key),
    ensures
        ({
            let key = pre.sessions[id].key;
            let x = pre.active_noted(id).active(key);
            &&& pre.is_connected(x)
            &&& pre.sessions[x].key == key
            &&& forall|y: u64| #[trigger]
                pre.is_connected(y) && pre.sessions[y].key == key ==> y <= x
        }),
{
    let key = pre.sessions[id].key;
    lemma_selected(pre, id);
    assert(pre.list_ok(key));
    lemma_newest(pre.peers[key]);
    assert forall|y: u64| #[trigger]
        pre.is_connected(y) && pre.sessions[y].key == key implies y <= newest(pre.peers[key]) by {
        assert(pre.session_ok(y));
        let i = choose|i: int| 0 <= i < pre.peers[key].len() && pre.peers[key][i] == y;
        assert(pre.peers[key][i] <= newest(pre.peers[key]));
    }
}

/// When a connection leaves, its node's active one stays active; where it is that one, the one
/// that was active before it takes its place.
pub proof fn law_departure_falls_back(pre: RelayView, post: RelayView, id: u64)
    requires
        pre.wf(),
        pre.is_connected(id),
        pre.unregistered(post, id),
        pre.rest(id).len() > 0,
    ensures
        ({
            let key = pre.sessions[id].key;
            let list = pre.peers[key];
            &&& post.here(key)
            &&& pre.active(key) != id ==> post.active(key) == pre.active(key)
            &&& pre.active(key) == id ==> post.active(key) == list[list.len() - 2]
        }),
{
    lemma_unregistered(pre, post, id);
    let key = pre.sessions[id].key;
    let list = pre.peers[key];
    assert(pre.session_ok(id));
    assert(pre.list_ok(key));
    lemma_without(list, id);
    reveal(Seq::filter);
    let init = list.drop_last();
    if list.last() != id {
        assert(without(list, id) == without(init, id).push(list.last()));
    } else {
        assert(init.no_duplicates()) by {
            assert forall|i: int, j: int|
                0 <= i < init.len() && 0 <= j < init.len() && i != j implies init[i] != init[j] by {
                assert(list[i] != list[j]);
            }
        }
        assert(!init.contains(id)) by {
            if init.contains(id) {
                let i = choose|i: int| 0 <= i < init.len() && init[i] == id;
                assert(list[i] != list[list.len() - 1]);
            }
        }
        lemma_without(init, id);
        assert(without(list, id) == without(init, id));
    }
}

/// A node's active connection stays so until another one of the node is used or joins, or until it
/// leaves.
pub proof fn law_active_connection_stays(pre: RelayView, op: Op, post: RelayView, key: Seq<u8>)
    requires
        pre.wf(),
        does(pre, op, post),
        pre.here(key),
        op matches Op::Register { joining, .. } ==> joining.key != key,
        op matches Op::Unregister { id } ==> id != pre.active(key),
        op matches Op::NoteActivity { id } ==> id == pre.active(key) || !(
        pre.sessions.contains_key(id) && pre.sessions[id].key == key),
    ensures
        post.here(key),
        post.active(key) == pre.active(key),
{
    lemma_active(pre, key);
    match op {
        Op::Register { joining, now } => {
            law_newest_connection_is_active(pre, post, joining, now);
            assert(post.active(key) == pre.active(key));
        },
        Op::Unregister { id } => {
            if pre.sessions.contains_key(id) {
                lemma_unregistered(pre, post, id);
                if pre.sessions[id].key == key {
                    assert(pre.session_ok(id));
                    assert(pre.list_ok(key));
                    lemma_without(pre.peers[key], id);
                    assert(pre.rest(id).contains(pre.active(key)));
                    if pre.sessions[id].connected {
                        law_departure_falls_back(pre, post, id);
                    } else if pre.peers[key].contains(id) {
                        lemma_listed(pre, key, id);
                    }
                }
            }
        },
        Op::Route { source, src, dst, packet, forwarded, now } => {
            lemma_routed(pre, post, source, src, dst, packet, forwarded, now);
        },
        Op::Watch { id } => {
            if pre.may_mesh(id) {
                lemma_watched(pre, post, id);
            }
        },
        Op::BroadcastRestart { reconnect_in_ms, try_for_ms } => {
            lemma_restart_told(pre, post, reconnect_in_ms, try_for_ms);
        },
        _ => {},
    }
}

/// A packet to a node that is here is offered to its active connection, and where that takes it,
/// the path from its source is remembered.
pub proof fn law_delivery_leaves_a_path(
    pre: RelayView,
    source: u64,
    src: Seq<u8>,
    dst: Seq<u8>,
    packet: Seq<u8>,
    forwarded: bool,
    now: u64,
    o: Outcome,
)
    requires
        pre.wf(),
        pre.here(dst),
    ensures
        ({
            let post = pre.routed_with(source, src, dst, packet, forwarded, now, o);
            let id = pre.active(dst);
            &&& post.sessions[id].offers == pre.sessions[id].offers.push(
                (FrameView::RecvPacket { src, packet }, o.ok),
            )
            &&& o.ok ==> post.paths.contains((src, dst))
            &&& !o.ok ==> post.paths == pre.paths
        }),
{
    lemma_active(pre, dst);
}

/// A path is forgotten only when its destination leaves, or its source does.
pub proof fn law_path_stays(
    pre: RelayView,
    op: Op,
    post: RelayView,
    src: Seq<u8>,
    dst: Seq<u8>,
)
    requires
        pre.wf(),
        does(pre, op, post),
        pre.paths.contains((src, dst)),
        post.here(dst),
        pre.here(src) ==> post.here(src),
    ensures
        post.paths.contains((src, dst)),
{
    match op {
        Op::Register { joining, now } => {
            lemma_registered(pre, post, joining, now);
        },
        Op::Unregister { id } => {
            if pre.sessions.contains_key(id) {
                lemma_unregistered(pre, post, id);
                assert(pre.session_ok(id));
            }
        },
        Op::Route { source, src: s, dst: d, packet, forwarded, now } => {
            lemma_routed(pre, post, source, s, d, packet, forwarded, now);
        },
        Op::Watch { id } => {
            if pre.may_mesh(id) {
                lemma_watched(pre, post, id);
            }
        },
        Op::BroadcastRestart { reconnect_in_ms, try_for_ms } => {
            lemma_restart_told(pre, post, reconnect_in_ms, try_for_ms);
        },
        _ => {},
    }
}

/// Whether a frame was offered to a connection between two states.
pub open spec fn newly_offered(pre: RelayView, post: RelayView, id: u64, frame: FrameView) -> bool {
    exists|i: int|
        pre.sessions[id].offers.len() <= i < post.sessions[id].offers.len() && (
        #[trigger] post.sessions[id].offers[i]).0 == frame
}

/// What a plan offers to a connection is among what the connection was offered.
pub proof fn lemma_plan_offers(plan: Seq<Offer>, i: int)
    requires
        0 <= i < plan.len(),
    ensures
        exists|k: int|
            0 <= k < offers_to(plan, plan[i].id).len() && (#[trigger] offers_to(
                plan,
                plan[i].id,
            )[k]).0 == plan[i].frame,
    decreases plan.len(),
{
    let id = plan[i].id;
    let all = offers_to(plan, id);
    let before = plan.drop_last();
    if i == plan.len() - 1 {
        assert(all[all.len() - 1].0 == plan[i].frame);
    } else {
        assert(before[i] == plan[i]);
        lemma_plan_offers(before, i);
        let k = choose|k: int|
            0 <= k < offers_to(before, id).len() && (#[trigger] offers_to(before, id)[k]).0
                == before[i].frame;
        assert(all[k] == offers_to(before, id)[k]);
    }
}

/// Whoever is among those that a frame goes to is offered it.
pub proof fn lemma_all_are_offered(
    v: RelayView,
    plan: Seq<Offer>,
    ids: Set<u64>,
    frame: FrameView,
    id: u64,
)
    requires
        to_all(plan, ids, frame),
        ids.contains(id),
        plan_ok(v, plan),
    ensures
        v.sessions.contains_key(id),
        newly_offered(v, v.offered(plan), id, frame),
{
    let order = choose|order: Seq<u64>| #[trigger]
        to_each(plan, order, frame) && order.no_duplicates() && order.to_set() == ids;
    assert(order.to_set().contains(id));
    let i = choose|i: int| 0 <= i < order.len() && order[i] == id;
    assert(plan[i].id == id);
    law_offers_are_recorded(v, plan, id);
    lemma_plan_offers(plan, i);
    let k = choose|k: int|
        0 <= k < offers_to(plan, id).len() && (#[trigger] offers_to(plan, id)[k]).0 == frame;
    let n = v.sessions[id].offers.len();
    assert(v.offered(plan).sessions[id].offers[n + k].0 == frame);
}

/// When a node's last connection leaves, every other node that it has sent a packet to is told,
/// on its active connection, that the node has disconnected.
pub proof fn law_departure_is_told_along_paths(
    pre: RelayView,
    post: RelayView,
    id: u64,
    dst: Seq<u8>,
)
    requires
        pre.wf(),
        pre.is_connected(id),
        pre.rest(id).len() == 0,
        pre.unregistered(post, id),
        pre.paths.contains((pre.sessions[id].key, dst)),
        dst != pre.sessions[id].key,
    ensures
        newly_offered(
            pre,
            post,
            pre.active(dst),
            gone_frame(pre.sessions[id].key, peer_gone_reason::DISCONNECTED),
        ),
{
    let key = pre.sessions[id].key;
    let gone = gone_frame(key, peer_gone_reason::DISCONNECTED);
    let left = pre.left(id);
    lemma_left(pre, id);
    let (watching, reached) = lemma_departure_plans(pre, post, id);
    let told = left.offered(watching);
    assert(pre.here(dst));
    lemma_active(pre, dst);
    let to = pre.active(dst);
    assert(pre.reached_by(key).contains(to));
    lemma_all_are_offered(told, reached, pre.reached_by(key), gone, to);
    law_offers_are_recorded(left, watching, to);
    let i = choose|i: int|
        told.sessions[to].offers.len() <= i < post.sessions[to].offers.len() && (
        #[trigger] post.sessions[to].offers[i]).0 == gone;
    assert(left.sessions[to].offers == pre.sessions[to].offers);
    assert(pre.sessions[to].offers.len() <= i);
}

/// Whether the states follow each other by what was done.
pub open spec fn is_run(states: Seq<RelayView>, ops: Seq<Op>) -> bool {
    &&& states.len() == ops.len() + 1
    &&& forall|i: int| 0 <= i < ops.len() ==> does(#[trigger] states[i], ops[i], states[i + 1])
}

/// Whatever is done in any order, the invariant holds throughout.
pub proof fn law_runs_keep_the_invariant(states: Seq<RelayView>, ops: Seq<Op>, n: int)
    requires
        is_run(states, ops),
        states[0].wf(),
        0 <= n < states.len(),
    ensures
        states[n].wf(),
    decreases n,
{
    if n > 0 {
        law_runs_keep_the_invariant(states, ops, n - 1);
        assert(does(states[n - 1], ops[n - 1], states[n - 1 + 1]));
        law_every_operation_keeps_the_invariant(states[n - 1], ops[n - 1], states[n]);
    }
}

/// Once A's packet to B was taken, and as long as both stay, A's last departure is told to B,
/// whatever else happens in between.
pub proof fn law_receiver_learns_of_the_senders_departure(
    states: Seq<RelayView>,
    ops: Seq<Op>,
    a: Seq<u8>,
    b: Seq<u8>,
    post: RelayView,
    id: u64,
)
    requires
        is_run(states, ops),
        states[0].wf(),
        states[0].paths.contains((a, b)),
        a != b,
        forall|i: int|
            0 <= i < states.len() ==> (#[trigger] states[i]).here(a) && states[i].here(b),
        states.last().is_connected(id),
        states.last().sessions[id].key == a,
        states.last().rest(id).len() == 0,
        states.last().unregistered(post, id),
    ensures
        newly_offered(
            states.last(),
            post,
            states.last().active(b),
            gone_frame(a, peer_gone_reason::DISCONNECTED),
        ),
{
    let n = states.len() - 1;
    lemma_path_stays_along(states, ops, a, b, n);
    law_runs_keep_the_invariant(states, ops, n);
    law_departure_is_told_along_paths(states[n], post, id, b);
}

proof fn lemma_path_stays_along(
    states: Seq<RelayView>,
    ops: Seq<Op>,
    a: Seq<u8>,
    b: Seq<u8>,
    n: int,
)
    requires
        is_run(states, ops),
        states[0].wf(),
        states[0].paths.contains((a, b)),
        forall|i: int|
            0 <= i < states.len() ==> (#[trigger] states[i]).here(a) && states[i].here(b),
        0 <= n < states.len(),
    ensures
        states[n].paths.contains((a, b)),
    decreases n,
{
    if n > 0 {
        lemma_path_stays_along(states, ops, a, b, n - 1);
        law_runs_keep_the_invariant(states, ops, n - 1);
        assert(does(states[n - 1], ops[n - 1], states[n - 1 + 1]));
        assert(states[n].here(b));
        law_path_stays(states[n - 1], ops[n - 1], states[n], a, b);
    }
}

/// When a node's last connection leaves, every watcher is told.
pub proof fn law_departure_is_told_to_watchers(
    pre: RelayView,
    post: RelayView,
    id: u64,
    watcher: u64,
)
    requires
        pre.wf(),
        pre.is_connected(id),
        pre.rest(id).len() == 0,
        pre.unregistered(post, id),
        pre.watchers.contains(watcher),
        watcher != id,
    ensures
        newly_offered(
            pre,
            post,
            watcher,
            gone_frame(pre.sessions[id].key, peer_gone_reason::DISCONNECTED),
        ),
{
    let key = pre.sessions[id].key;
    let gone = gone_frame(key, peer_gone_reason::DISCONNECTED);
    let left = pre.left(id);
    lemma_left(pre, id);
    let (watching, reached) = lemma_departure_plans(pre, post, id);
    let told = left.offered(watching);
    lemma_all_are_offered(left, watching, pre.watchers.remove(id), gone, watcher);
    law_offers_are_recorded(told, reached, watcher);
    let i = choose|i: int|
        left.sessions[watcher].offers.len() <= i < told.sessions[watcher].offers.len() && (
        #[trigger] told.sessions[watcher].offers[i]).0 == gone;
    assert(pre.may_mesh(watcher));
    assert(left.sessions[watcher].offers == pre.sessions[watcher].offers);
    assert(post.sessions[watcher].offers[i].0 == gone);
}

/// When a client joins, every watcher is told.
pub proof fn law_arrival_is_told_to_watchers(
    pre: RelayView,
    post: RelayView,
    j: Joining,
    now: u64,
    watcher: u64,
)
    requires
        pre.wf(),
        pre.next_id < u64::MAX,
        pre.registered(post, j, now),
        pre.watchers.contains(watcher),
    ensures
        newly_offered(pre, post, watcher, pre.fresh(j, now).present_frame()),
{
    let base = pre.joined(j, now);
    lemma_joined(pre, j, now);
    let frame = pre.fresh(j, now).present_frame();
    let (health, presence) = lemma_arrival_plans(pre, post, j, now);
    let told = base.offered(health);
    lemma_all_are_offered(told, presence, pre.watchers, frame, watcher);
    assert(pre.may_mesh(watcher));
    assert(base.sessions.contains_key(watcher));
    law_offers_are_recorded(base, health, watcher);
    let i = choose|i: int|
        told.sessions[watcher].offers.len() <= i < post.sessions[watcher].offers.len() && (
        #[trigger] post.sessions[watcher].offers[i]).0 == frame;
    assert(base.sessions[watcher].offers == pre.sessions[watcher].offers);
    assert(pre.sessions[watcher].offers.len() <= i);
}

/// When a key is used a second time, every connection of that key is told so and marked, the new
/// one included.
pub proof fn law_duplicates_are_told(
    pre: RelayView,
    post: RelayView,
    j: Joining,
    now: u64,
    id: u64,
)
    requires
        pre.wf(),
        pre.next_id < u64::MAX,
        pre.registered(post, j, now),
        pre.here(j.key),
        post.peers[j.key].contains(id),
    ensures
        post.sessions.contains_key(id),
        post.sessions[id].duplicate,
        exists|i: int|
            0 <= i < post.sessions[id].offers.len() && (#[trigger] post.sessions[id].offers[i]).0
                == FrameView::Health(duplicate_text()) && (pre.sessions.contains_key(id)
                ==> pre.sessions[id].offers.len() <= i),
        duplicate_text().len() > 0,
{
    let base = pre.joined(j, now);
    lemma_joined(pre, j, now);
    lemma_registered(pre, post, j, now);
    let frame = FrameView::Health(duplicate_text());
    let (health, presence) = lemma_arrival_plans(pre, post, j, now);
    let told = base.offered(health);
    lemma_listed(post, j.key, id);
    assert(base.sessions.contains_key(id));
    assert(base.session_ok(id));
    let list = pre.duplicates(j.key);
    assert(list =~= base.peers[j.key]);
    let i = choose|i: int| 0 <= i < list.len() && list[i] == id;
    assert(health[i].id == id);
    lemma_plan_offers(health, i);
    law_offers_are_recorded(base, health, id);
    law_offers_are_recorded(told, presence, id);
    let k = choose|k: int|
        0 <= k < offers_to(health, id).len() && (#[trigger] offers_to(health, id)[k]).0 == frame;
    let n = base.sessions[id].offers.len();
    assert(told.sessions[id].offers[n + k].0 == frame);
    assert(post.sessions[id].offers[n + k].0 == frame);
    if pre.sessions.contains_key(id) {
        assert(id != pre.next_id);
        assert(base.sessions[id].offers == pre.sessions[id].offers);
    }
    reveal_strlit("duplicate DERP connection for node key");
    let chars = "duplicate DERP connection for node key"@;
    vstd::utf8::is_ascii_chars_encode_utf8(chars);
}

/// When one connection of a node remains, it is no longer marked, and is told so by an empty
/// health frame.
pub proof fn law_health_is_cleared(pre: RelayView, post: RelayView, id: u64)
    requires
        pre.wf(),
        pre.sessions.contains_key(id),
        pre.rest(id).len() == 1,
        pre.unregistered(post, id),
    ensures
        ({
            let other = pre.rest(id)[0];
            &&& pre.is_connected(other)
            &&& pre.sessions[other].key == pre.sessions[id].key
            &&& post.sessions.contains_key(other)
            &&& !post.sessions[other].duplicate
            &&& newly_offered(pre, post, other, FrameView::Health(Seq::empty()))
        }),
{
    let other = pre.rest(id)[0];
    let left = pre.left(id);
    lemma_left(pre, id);
    lemma_remaining(pre, id);
    assert(left.session_ok(other));
    let n = pre.sessions[other].offers.len();
    assert(left.sessions.contains_key(other));
    assert(left.sessions[other].offers == pre.sessions[other].offers);
    assert(post.sessions[other].offers[n as int].0 == FrameView::Health(Seq::empty()));
}

/// A packet to a node that is not here is offered to the mesh connections that lead to it, in turn,
/// until one takes it.
pub proof fn law_absent_nodes_are_tried_through_the_mesh(
    pre: RelayView,
    post: RelayView,
    source: u64,
    src: Seq<u8>,
    dst: Seq<u8>,
    packet: Seq<u8>,
    now: u64,
) -> (tried: nat)
    requires
        !pre.here(dst),
        pre.routed(post, source, src, dst, packet, false, now),
    ensures
        ({
            let frame = FrameView::ForwardPacket { src, dst, packet };
            let before = pre.routes_to(dst);
            let after = post.routes_to(dst);
            &&& tried <= before.len() == after.len()
            &&& forall|i: int|
                0 <= i < tried ==> (#[trigger] after[i]).offers == before[i].offers.push(
                    (frame, false),
                )
            &&& tried < before.len() ==> after[tried as int].offers
                == before[tried as int].offers.push((frame, true))
            &&& forall|i: int| tried < i < before.len() ==> #[trigger] after[i] == before[i]
        }),
{
    let o = choose|o: Outcome|
        {
            &&& pre.mesh_answers(dst, o.tried, o.sent_out)
            &&& post == #[trigger] pre.routed_with(source, src, dst, packet, false, now, o)
        };
    o.tried
}

/// Every packet is counted as received, and once more: as sent, as sent out to the mesh or as
/// lost.
pub proof fn law_every_packet_is_accounted_for(
    pre: RelayView,
    post: RelayView,
    source: u64,
    src: Seq<u8>,
    dst: Seq<u8>,
    packet: Seq<u8>,
    forwarded: bool,
    now: u64,
)
    requires
        pre.routed(post, source, src, dst, packet, forwarded, now),
    ensures
        post.metrics.packets_received == plus(pre.metrics.packets_received, 1),
        ({
            let sent = plus(pre.metrics.packets_sent, 1);
            let out = plus(pre.metrics.mesh_forwarded_out, 1);
            let lost = plus(pre.metrics.packets_dropped, 1);
            let m = pre.metrics;
            let now_counted = (
                post.metrics.packets_sent,
                post.metrics.mesh_forwarded_out,
                post.metrics.packets_dropped,
            );
            ||| now_counted == (sent, m.mesh_forwarded_out, m.packets_dropped)
            ||| now_counted == (m.packets_sent, out, m.packets_dropped)
            ||| now_counted == (m.packets_sent, m.mesh_forwarded_out, lost)
        }),
{
}

/// A packet that came from the mesh is not sent out to the mesh again.
pub proof fn law_forwarded_packets_stay(
    pre: RelayView,
    post: RelayView,
    source: u64,
    src: Seq<u8>,
    dst: Seq<u8>,
    packet: Seq<u8>,
    now: u64,
)
    requires
        pre.routed(post, source, src, dst, packet, true, now),
    ensures
        post.routes == pre.routes,
        post.metrics.mesh_forwarded_out == pre.metrics.mesh_forwarded_out,
        post.metrics.mesh_forwarded_in == plus(pre.metrics.mesh_forwarded_in, 1),
{
}

/// A packet to a node that is not here is answered only where it looks like a wrapped disco
/// message, and its sender has not been answered too often.
pub proof fn law_absence_is_told_for_disco_only(
    pre: RelayView,
    post: RelayView,
    source: u64,
    src: Seq<u8>,
    dst: Seq<u8>,
    packet: Seq<u8>,
    forwarded: bool,
    now: u64,
)
    requires
        pre.wf(),
        !pre.here(dst),
        pre.sessions.contains_key(source),
        pre.routed(post, source, src, dst, packet, forwarded, now),
    ensures
        !is_disco(packet) || !pre.sessions[source].limiter.allows(now)
            ==> post.sessions[source].offers == pre.sessions[source].offers,
        post.sessions[source].offers != pre.sessions[source].offers ==> newly_offered(
            pre,
            post,
            source,
            gone_frame(dst, peer_gone_reason::NOT_HERE),
        ),
        is_disco(packet) && pre.sessions[source].limiter.allows(now) && (forwarded
            || pre.routes_to(dst).len() == 0) ==> newly_offered(
            pre,
            post,
            source,
            gone_frame(dst, peer_gone_reason::NOT_HERE),
        ),
{
    let o = choose|o: Outcome|
        {
            &&& !pre.here(dst) && !forwarded ==> pre.mesh_answers(dst, o.tried, o.sent_out)
            &&& post == #[trigger] pre.routed_with(source, src, dst, packet, forwarded, now, o)
        };
    lemma_source_told(pre, source, src, dst, packet, forwarded, now, o);
    lemma_told(pre, source, dst, packet, now, o.ok);
    let n = pre.sessions[source].offers.len();
    let gone = gone_frame(dst, peer_gone_reason::NOT_HERE);
    if post.sessions[source].offers != pre.sessions[source].offers {
        assert(post.sessions[source].offers[n as int].0 == gone);
    }
}

/// Routing a packet concerns the destination's active connection and the sender's, nobody else.
pub proof fn law_routing_concerns_two_connections(
    pre: RelayView,
    post: RelayView,
    source: u64,
    src: Seq<u8>,
    dst: Seq<u8>,
    packet: Seq<u8>,
    forwarded: bool,
    now: u64,
    id: u64,
)
    requires
        pre.routed(post, source, src, dst, packet, forwarded, now),
        pre.sessions.contains_key(id),
        id != source,
        pre.here(dst) ==> id != pre.active(dst),
    ensures
        post.sessions.contains_key(id),
        post.sessions[id] == pre.sessions[id],
{
}

/// Once a mesh connection has ended, no route leads through it, and all others are left.
pub proof fn law_no_route_through_an_ended_mesh(pre: RelayView, mesh_id: u64)
    requires
        pre.wf(),
    ensures
        forall|k: Seq<u8>, i: int|
            #![trigger pre.mesh_removed(mesh_id).routes_to(k)[i]]
            0 <= i < pre.mesh_removed(mesh_id).routes_to(k).len() ==> pre.mesh_removed(
                mesh_id,
            ).routes_to(k)[i].mesh_id != mesh_id,
        forall|k: Seq<u8>| #[trigger]
            pre.mesh_removed(mesh_id).routes_to(k) == pre.other_routes(mesh_id, k),
{
    let post = pre.mesh_removed(mesh_id);
    assert forall|k: Seq<u8>| #[trigger] post.routes_to(k) == pre.other_routes(mesh_id, k) by {
        reveal(Seq::filter);
        if !post.routes.contains_key(k) {
            assert(pre.other_routes(mesh_id, k) =~= Seq::empty());
        }
    }
    assert forall|k: Seq<u8>, i: int|
        #![trigger post.routes_to(k)[i]]
        0 <= i < post.routes_to(k).len() implies post.routes_to(k)[i].mesh_id != mesh_id by {
        if pre.routes.contains_key(k) {
            assert(pre.routes_ok(k));
        }
        lemma_other_routes(pre.routes_to(k), mesh_id);
        assert(post.routes_to(k) == pre.other_routes(mesh_id, k));
    }
}

/// A mesh member that starts to watch is told of every node that is here.
pub proof fn law_watcher_is_told_who_is_here(
    pre: RelayView,
    post: RelayView,
    id: u64,
    key: Seq<u8>,
)
    requires
        pre.wf(),
        pre.may_mesh(id),
        pre.watched(post, id),
        pre.here(key),
    ensures
        post.watchers.contains(id),
        newly_offered(pre, post, id, pre.sessions[pre.active(key)].present_frame()),
{
    let base = RelayView { watchers: pre.watchers.insert(id), ..pre };
    let (plan, order) = lemma_watch_plan(pre, post, id);
    lemma_offered(base, plan);
    assert(order.to_set().contains(key));
    let i = choose|i: int| 0 <= i < order.len() && order[i] == key;
    assert(plan[i].id == id);
    lemma_plan_offers(plan, i);
    law_offers_are_recorded(base, plan, id);
    let k = choose|k: int|
        0 <= k < offers_to(plan, id).len() && (#[trigger] offers_to(plan, id)[k]).0
            == plan[i].frame;
    let n = pre.sessions[id].offers.len();
    assert(post.sessions[id].offers[n + k].0 == plan[i].frame);
}

/// Every connection is told of a restart.
pub proof fn law_restart_is_told_to_all(
    pre: RelayView,
    post: RelayView,
    reconnect_in_ms: u32,
    try_for_ms: u32,
    id: u64,
)
    requires
        pre.restart_told(post, reconnect_in_ms, try_for_ms),
        pre.is_connected(id),
    ensures
        newly_offered(pre, post, id, FrameView::Restarting { reconnect_in_ms, try_for_ms }),
{
    let frame = FrameView::Restarting { reconnect_in_ms, try_for_ms };
    let plan = lemma_restart_plan(pre, post, reconnect_in_ms, try_for_ms);
    assert(pre.connected().contains(id));
    lemma_all_are_offered(pre, plan, pre.connected(), frame, id);
}

/// Closing a node asks all of its connections to close, and nobody else's.
pub proof fn law_closing_concerns_one_node(pre: RelayView, key: Seq<u8>, id: u64)
    requires
        pre.sessions.contains_key(id),
    ensures
        pre.peer_closed(key).sessions[id].closed == (pre.sessions[id].key == key
            && pre.sessions[id].connected || pre.sessions[id].closed),
        pre.sessions[id].key != key ==> pre.peer_closed(key).sessions[id] == pre.sessions[id],
{
}

} // verus!
