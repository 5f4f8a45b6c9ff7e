//! What clients, watchers and mesh members change, and how everybody is told of a restart.

use tokio::sync::mpsc::Sender;
use vstd::prelude::*;

use crate::crypto::NodeKey;
use crate::laws::connections::{announced, due, heard, lemma_all_heard, others_kept};
use crate::laws::departures::{down, lemma_left_out};
use crate::laws::traffic::{stands, up};
use crate::metrics::Metrics;
use crate::protocol::{Frame, FrameView};
use crate::queue::{offers, queue_of};
use crate::relay::laws::{lemma_restart_plan, lemma_watch_plan};
use crate::relay::model::{
    law_offers_are_recorded, lemma_offered, offers_to, Offer, RelayView, RouteView, SessionView,
};
use crate::relay::upkeep::lemma_newest;
use crate::relay::{Relay, SessionId};

verus! {

/// Whether nothing changed but the order of one node's connections.
pub open spec fn only_order(a: RelayView, b: RelayView, key: Seq<u8>) -> bool {
    &&& b == RelayView { peers: b.peers, ..a }
    &&& b.peers.dom() == a.peers.dom()
    &&& forall|k: Seq<u8>| a.peers.contains_key(k) && k != key ==> #[trigger] b.peers[k] == a.peers[k]
}

/// Whether a connection that was used moved to the end of its node's list, and the others kept
/// their order. One that has left moves the newest there instead, where its node had others when it
/// left; else nothing changes.
#[verifier::opaque]
pub open spec fn used(a: RelayView, b: RelayView, id: u64) -> bool {
    let s = a.sessions[id];
    let known = a.sessions.contains_key(id);
    let list = a.peers[s.key];
    let after = b.peers[s.key];
    let late = !s.connected && s.duplicate && a.peers.contains_key(s.key);
    &&& !known || (!s.connected && !late) ==> b == a
    &&& known && (s.connected || late) ==> {
        &&& only_order(a, b, s.key)
        &&& s.connected ==> after.last() == id
        &&& late ==> forall|i: int| 0 <= i < list.len() ==> #[trigger] list[i] <= after.last()
        &&& exists|i: int| 0 <= i < list.len() && after == (#[trigger] list.remove(i)).push(list[i])
    }
}

/// What the model says of use, in plain words.
pub proof fn lemma_used(a: RelayView, id: u64)
    requires
        a.wf(),
    ensures
        used(a, a.active_noted(id), id),
{
    reveal(used);
    let b = a.active_noted(id);
    let s = a.sessions[id];
    let list = a.peers[s.key];
    if a.selected(id) is Some {
        if s.connected {
            assert(a.session_ok(id));
        }
        assert(a.list_ok(s.key));
        lemma_newest(list);
        let x = a.selected(id)->0;
        let i = choose|i: int| 0 <= i < list.len() && list[i] == x;
        lemma_left_out(list, x, i);
        assert(b.peers[s.key] == list.remove(i).push(list[i]));
        assert(b.peers.dom() =~= a.peers.dom());
    }
}

/// A connection that is used becomes its node's active one.
pub proof fn law_use_selects(relay: &mut Relay, id: SessionId)
    requires
        call_ensures(Relay::note_activity, (relay, id), ()),
        old(relay).wf(),
    ensures
        used(old(relay)@, final(relay)@, id),
{
    lemma_used(old(relay)@, id);
}

/// Whether it was noted that a client says whether this relay is its home. The gauge follows what
/// it says; a move is counted where it says another thing than before, from the second time on.
pub open spec fn home_noted(a: RelayView, b: RelayView, id: u64, preferred: bool) -> bool {
    let s = a.sessions[id];
    let known = a.sessions.contains_key(id);
    let changed = known && s.preferred != preferred;
    let (m, n) = (a.metrics, b.metrics);
    &&& !known ==> b == a
    &&& known ==> b == RelayView { sessions: b.sessions, metrics: n, ..a }
    &&& known ==> b.sessions == a.sessions.insert(
        id,
        SessionView { preferred, preferred_seen: true, ..s },
    )
    &&& !changed ==> m == n
    &&& changed && preferred ==> up(m.preferred_clients, 1, n.preferred_clients)
    &&& changed && !preferred ==> down(m.preferred_clients, n.preferred_clients)
    &&& changed && preferred && s.preferred_seen ==> up(m.home_moves_in, 1, n.home_moves_in)
    &&& !(preferred && s.preferred_seen) ==> m.home_moves_in == n.home_moves_in
    &&& changed && !preferred && s.preferred_seen ==> up(m.home_moves_out, 1, n.home_moves_out)
    &&& preferred || !s.preferred_seen ==> m.home_moves_out == n.home_moves_out
    &&& m.current_clients == n.current_clients
    &&& m.queue_dropped == n.queue_dropped
    &&& others_kept(m, n)
}

/// What clients say of their home is noted.
pub proof fn law_homes_are_noted(relay: &mut Relay, id: SessionId, preferred: bool)
    requires
        call_ensures(Relay::note_preferred, (relay, id, preferred), ()),
    ensures
        home_noted(old(relay)@, final(relay)@, id, preferred),
{
}

/// Whether a node's active connection was announced to a watcher.
pub open spec fn told_of(a: RelayView, b: RelayView, watcher: u64, key: Seq<u8>) -> bool {
    let s = a.sessions[a.peers[key].last()];
    let (p, q) = (a.sessions[watcher].offers, b.sessions[watcher].offers);
    exists|i: int|
        p.len() <= i < q.len() && (#[trigger] q[i]).0 == announced(
            s.key,
            s.endpoint,
            s.can_mesh,
            s.is_prober,
            s.not_ideal,
        )
}

proof fn lemma_only_watcher(a: RelayView, plan: Seq<Offer>, watcher: u64, id: u64)
    requires
        forall|i: int| 0 <= i < plan.len() ==> (#[trigger] plan[i]).id == watcher,
    ensures
        id != watcher ==> offers_to(plan, id).len() == 0,
        id == watcher ==> offers_to(plan, id).len() == plan.len() && (forall|i: int|
            0 <= i < plan.len() ==> (#[trigger] offers_to(plan, id)[i]).0 == plan[i].frame),
    decreases plan.len(),
{
    if plan.len() > 0 {
        let p = plan.drop_last();
        assert forall|i: int| 0 <= i < p.len() implies (#[trigger] p[i]).id == watcher by {
            assert(plan[i].id == watcher);
        }
        lemma_only_watcher(a, p, watcher, id);
        assert(plan[plan.len() - 1].id == watcher);
    }
}

/// Whether a connection became a watcher and was told of each node that is here, of one connection
/// each, and of nothing else. Nobody else is told anything.
#[verifier::opaque]
pub open spec fn watches(a: RelayView, b: RelayView, id: u64) -> bool {
    let (s, t) = (a.sessions[id], b.sessions[id]);
    &&& b.watchers == a.watchers.insert(id)
    &&& b.sessions.dom() == a.sessions.dom()
    &&& forall|x: u64|
        a.sessions.contains_key(x) && x != id ==> #[trigger] b.sessions[x] == a.sessions[x]
    &&& stands(s, t)
    &&& s.limiter == t.limiter
    &&& t.offers.len() == s.offers.len() + a.peers.dom().len()
    &&& forall|i: int| 0 <= i < s.offers.len() ==> s.offers[i] == #[trigger] t.offers[i]
    &&& forall|k: Seq<u8>| #[trigger] a.peers.contains_key(k) ==> told_of(a, b, id, k)
    &&& a.peers == b.peers
    &&& a.paths == b.paths
    &&& a.routes == b.routes
    &&& a.next_id == b.next_id
    &&& b.metrics == (Metrics { queue_dropped: b.metrics.queue_dropped, ..a.metrics })
}

/// What the model says of watching, in plain words.
#[verifier::rlimit(40)]
pub proof fn lemma_watches(a: RelayView, b: RelayView, id: u64)
    requires
        a.wf(),
        a.may_mesh(id),
        a.watched(b, id),
    ensures
        watches(a, b, id),
{
    reveal(watches);
    let base = RelayView { watchers: a.watchers.insert(id), ..a };
    let (plan, order) = lemma_watch_plan(a, b, id);
    lemma_offered(base, plan);
    order.unique_seq_to_set();
    assert forall|i: int| 0 <= i < plan.len() implies (#[trigger] plan[i]).id == id by {}
    assert forall|x: u64| a.sessions.contains_key(x) && x != id implies #[trigger] b.sessions[x]
        == a.sessions[x] by {
        law_offers_are_recorded(base, plan, x);
        lemma_only_watcher(a, plan, id, x);
        assert(b.sessions[x].offers =~= a.sessions[x].offers);
        assert(SessionView { offers: a.sessions[x].offers, ..b.sessions[x] } == a.sessions[x]);
    }
    law_offers_are_recorded(base, plan, id);
    lemma_only_watcher(a, plan, id, id);
    let (p, q) = (a.sessions[id].offers, b.sessions[id].offers);
    assert(SessionView { offers: p, ..b.sessions[id] } == a.sessions[id]);
    assert forall|k: Seq<u8>| #[trigger] a.peers.contains_key(k) implies told_of(a, b, id, k) by {
        assert(order.to_set().contains(k));
        let i = choose|i: int| 0 <= i < order.len() && order[i] == k;
        assert(plan[i].frame == a.sessions[a.active(k)].present_frame());
        assert(offers_to(plan, id)[i].0 == plan[i].frame);
        assert(q[p.len() + i] == offers_to(plan, id)[i]);
    }
}

/// A mesh member that asks to watch becomes a watcher. Nobody else may.
pub proof fn law_watching(relay: &mut Relay, id: SessionId, r: bool)
    requires
        call_ensures(Relay::watch, (relay, id), r),
        old(relay).wf(),
    ensures
        ({
            let (a, b) = (old(relay)@, final(relay)@);
            &&& r <==> a.sessions.contains_key(id) && a.sessions[id].can_mesh
            &&& !r ==> b == a
            &&& r ==> watches(a, b, id)
        }),
{
    if r {
        lemma_watches(old(relay)@, final(relay)@, id);
    }
}

/// Whether all connections of a node were asked to close, and nothing else changed.
pub open spec fn closes(a: RelayView, b: RelayView, key: Seq<u8>) -> bool {
    &&& b == RelayView { sessions: b.sessions, ..a }
    &&& b.sessions.dom() == a.sessions.dom()
    &&& forall|x: u64| #[trigger]
        a.sessions.contains_key(x) ==> b.sessions[x] == (SessionView {
            closed: a.sessions[x].closed || (a.sessions[x].connected && a.sessions[x].key == key),
            ..a.sessions[x]
        })
}

/// What the model says of closing a node's connections, in plain words.
pub proof fn lemma_closes(a: RelayView, key: Seq<u8>)
    ensures
        closes(a, a.peer_closed(key), key),
{
    assert(a.peer_closed(key).sessions.dom() =~= a.sessions.dom());
}

/// A mesh member has all connections of a node that is here closed. Nobody else can.
pub proof fn law_closing_peers(relay: &mut Relay, requester: SessionId, peer: NodeKey, r: bool)
    requires
        call_ensures(Relay::close_peer, (relay, requester, peer), r),
        old(relay).wf(),
    ensures
        ({
            let (a, b) = (old(relay)@, final(relay)@);
            &&& r <==> a.sessions.contains_key(requester) && a.sessions[requester].can_mesh
                && a.peers.contains_key(peer@)
            &&& !r ==> b == a
            &&& r ==> closes(a, b, peer@)
        }),
{
    lemma_closes(old(relay)@, peer@);
}

/// Every connection that has not left is told of a restart once, with both times in their places;
/// nobody is told anything else.
pub proof fn law_restarts_are_told(relay: &mut Relay, reconnect_in_ms: u32, try_for_ms: u32)
    requires
        call_ensures(Relay::broadcast_restart, (relay, reconnect_in_ms, try_for_ms), ()),
        old(relay).wf(),
    ensures
        ({
            let (a, b) = (old(relay)@, final(relay)@);
            &&& b.sessions.dom() == a.sessions.dom()
            &&& forall|x: u64| #[trigger]
                a.sessions.contains_key(x) ==> stands(a.sessions[x], b.sessions[x]) && heard(
                    a.sessions[x],
                    b.sessions[x],
                    due(
                        a.sessions[x].connected,
                        FrameView::Restarting { reconnect_in_ms, try_for_ms },
                    ),
                )
            &&& b == RelayView { sessions: b.sessions, metrics: b.metrics, ..a }
            &&& b.metrics == (Metrics { queue_dropped: b.metrics.queue_dropped, ..a.metrics })
        }),
{
    let (a, b) = (old(relay)@, final(relay)@);
    let plan = lemma_restart_plan(a, b, reconnect_in_ms, try_for_ms);
    let frame = FrameView::Restarting { reconnect_in_ms, try_for_ms };
    lemma_offered(a, plan);
    assert forall|x: u64| #[trigger] a.sessions.contains_key(x) implies stands(
        a.sessions[x],
        b.sessions[x],
    ) && heard(a.sessions[x], b.sessions[x], due(a.sessions[x].connected, frame)) by {
        lemma_all_heard(a, plan, a.connected(), frame, x);
    }
}

/// A connection that has left and does not watch is forgotten when it is released. Nothing else is.
pub proof fn law_releasing(relay: &mut Relay, id: SessionId)
    requires
        call_ensures(Relay::release, (relay, id), ()),
    ensures
        ({
            let (a, b) = (old(relay)@, final(relay)@);
            let goes = a.sessions.contains_key(id) && !a.sessions[id].connected
                && !a.watchers.contains(id);
            &&& b == RelayView { sessions: b.sessions, ..a }
            &&& goes ==> b.sessions == a.sessions.remove(id)
            &&& !goes ==> b.sessions == a.sessions
        }),
{
}

/// The ways to a node, none where none is known.
pub open spec fn ways(v: RelayView, peer: Seq<u8>) -> Seq<RouteView> {
    if v.routes.contains_key(peer) {
        v.routes[peer]
    } else {
        seq![]
    }
}

/// Whether a way to a node was noted behind those that are known, once for each mesh connection.
pub open spec fn way_noted(
    a: RelayView,
    b: RelayView,
    mesh_id: u64,
    peer: Seq<u8>,
    way: RouteView,
) -> bool {
    let known = exists|i: int|
        0 <= i < ways(a, peer).len() && (#[trigger] ways(a, peer)[i]).mesh_id == mesh_id;
    &&& way.mesh_id == mesh_id
    &&& b == RelayView { routes: b.routes, ..a }
    &&& known ==> b.routes == a.routes
    &&& !known ==> b.routes == a.routes.insert(peer, ways(a, peer).push(way))
}

/// What the model says of a way that is noted, in plain words.
pub proof fn lemma_way_noted(a: RelayView, peer: Seq<u8>, way: RouteView)
    ensures
        way_noted(
            a,
            a.route_added(way.mesh_id, peer, way.queue, way.offers),
            way.mesh_id,
            peer,
            way,
        ),
{
    assert(a.routes_to(peer) =~= ways(a, peer));
}

/// A way to a node is noted.
pub proof fn law_ways_are_noted(relay: &mut Relay, mesh_id: u64, peer: NodeKey, tx: Sender<Frame>)
    requires
        call_ensures(Relay::add_mesh_route, (relay, mesh_id, peer, tx), ()),
    ensures
        way_noted(
            old(relay)@,
            final(relay)@,
            mesh_id,
            peer@,
            RouteView { mesh_id, queue: queue_of(tx), offers: offers(tx) },
        ),
{
    lemma_way_noted(
        old(relay)@,
        peer@,
        RouteView { mesh_id, queue: queue_of(tx), offers: offers(tx) },
    );
}

/// The ways to a node that do not lead through a mesh connection, in their order.
pub open spec fn other_ways(v: RelayView, mesh_id: u64, peer: Seq<u8>) -> Seq<RouteView> {
    ways(v, peer).filter(|w: RouteView| w.mesh_id != mesh_id)
}

/// Whether the way to a node through a mesh connection was forgotten, and those through other mesh
/// connections stayed. A node without any is forgotten too.
pub open spec fn way_lost(a: RelayView, b: RelayView, mesh_id: u64, peer: Seq<u8>) -> bool {
    &&& b == RelayView { routes: b.routes, ..a }
    &&& ways(b, peer) == other_ways(a, mesh_id, peer)
    &&& b.routes.contains_key(peer) == (other_ways(a, mesh_id, peer).len() > 0)
    &&& forall|k: Seq<u8>|
        k != peer ==> #[trigger] ways(b, k) == ways(a, k) && b.routes.contains_key(k)
            == a.routes.contains_key(k)
}

/// Whether all ways through a mesh connection were forgotten, and no others.
pub open spec fn mesh_ended(a: RelayView, b: RelayView, mesh_id: u64) -> bool {
    &&& b == RelayView { routes: b.routes, ..a }
    &&& forall|k: Seq<u8>| #[trigger]
        ways(b, k) == other_ways(a, mesh_id, k) && b.routes.contains_key(k) == (other_ways(
            a,
            mesh_id,
            k,
        ).len() > 0)
}

/// What the model says of ways that are lost, in plain words.
pub proof fn lemma_ways_lost(a: RelayView, mesh_id: u64, peer: Seq<u8>)
    ensures
        way_lost(a, a.route_removed(mesh_id, peer), mesh_id, peer),
        mesh_ended(a, a.mesh_removed(mesh_id), mesh_id),
{
    reveal(Seq::filter);
    let b = a.route_removed(mesh_id, peer);
    assert(a.routes_to(peer) =~= ways(a, peer));
    assert(a.other_routes(mesh_id, peer) =~= other_ways(a, mesh_id, peer));
    assert(ways(b, peer) =~= other_ways(a, mesh_id, peer));
    assert forall|k: Seq<u8>| k != peer implies #[trigger] ways(b, k) == ways(a, k)
        && b.routes.contains_key(k) == a.routes.contains_key(k) by {}
    let c = a.mesh_removed(mesh_id);
    assert forall|k: Seq<u8>| #[trigger]
        ways(c, k) == other_ways(a, mesh_id, k) && c.routes.contains_key(k) == (other_ways(
            a,
            mesh_id,
            k,
        ).len() > 0) by {
        assert(a.routes_to(k) =~= ways(a, k));
        assert(a.other_routes(mesh_id, k) =~= other_ways(a, mesh_id, k));
        assert(ways(c, k) =~= other_ways(a, mesh_id, k));
    }
}

/// A way to a node that is lost is forgotten. A mesh connection that ends loses all its ways.
pub proof fn law_ways_are_lost(one: &mut Relay, all: &mut Relay, mesh_id: u64, peer: NodeKey)
    requires
        call_ensures(Relay::remove_mesh_route, (one, mesh_id, peer), ()),
        call_ensures(Relay::remove_mesh, (all, mesh_id), ()),
    ensures
        way_lost(old(one)@, final(one)@, mesh_id, peer@),
        mesh_ended(old(all)@, final(all)@, mesh_id),
{
    lemma_ways_lost(old(one)@, mesh_id, peer@);
    lemma_ways_lost(old(all)@, mesh_id, peer@);
}

/// Clients that are turned away and frames that nobody knows are counted, each in its own number.
pub proof fn law_counting(a: &mut Relay, b: &mut Relay)
    requires
        call_ensures(Relay::count_rejection, (a,), ()),
        call_ensures(Relay::count_unknown_frame, (b,), ()),
    ensures
        ({
            let (p, q) = (old(a)@, final(a)@);
            &&& q == RelayView { metrics: q.metrics, ..p }
            &&& q.metrics == (Metrics {
                admission_rejected: q.metrics.admission_rejected,
                ..p.metrics
            })
            &&& up(p.metrics.admission_rejected, 1, q.metrics.admission_rejected)
        }),
        ({
            let (p, q) = (old(b)@, final(b)@);
            &&& q == RelayView { metrics: q.metrics, ..p }
            &&& q.metrics == (Metrics { unknown_frames: q.metrics.unknown_frames, ..p.metrics })
            &&& up(p.metrics.unknown_frames, 1, q.metrics.unknown_frames)
        }),
{
}

} // verus!
