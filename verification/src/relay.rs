//! The relay: who is connected, and where packets go.

pub mod counts;
pub mod laws;
pub mod model;
pub mod notices;
pub mod reports;
pub mod routing;
pub mod upkeep;

use std::collections::HashMap;

use dashmap::DashSet;
use tokio::sync::mpsc::{Receiver, Sender};
use vstd::prelude::*;
use vstd::string::*;

use crate::crypto::NodeKey;
use crate::endpoint::Endpoint;
use crate::index::{
    ids_new, ids_of, ids_remove, ids_view, lists_get, lists_keys, lists_len, lists_new, lists_put,
    lists_remove, lists_view, paths_drop, paths_keys_of, paths_new, paths_take, paths_view,
    routes_new, routes_view, same_key, singles_get, singles_new, singles_put, singles_remove,
    singles_view, Lists, MeshRoute, Paths, Routes, Singles,
};
use crate::limiter::PeerGoneLimiter;
use crate::metrics::{plus, zero_metrics, Metrics};
use crate::protocol::{peer_gone_reason, peer_present_flags, Frame, FrameView};
use crate::queue::{offer, offers, open_queue, queue_behind, queue_limit, queue_of, reads, room_of};
use crate::relay::model::{
    duplicate_text, gone_frame, is_disco, lemma_offered, lemma_without, newest, plan_ok,
    presence_flags, to_all, to_each, without, Joining, Offer, RelayView, RouteView, SessionView,
    DISCO_MAGIC, DISCO_MIN_LEN,
};
use crate::relay::upkeep::{
    lemma_active, lemma_active_noted, lemma_joined, lemma_left, lemma_listed, lemma_push_contains,
    lemma_sessions_changed,
};
use crate::wire::{bytes_empty, bytes_from_vec, has_prefix, to_vec};

verus! {

/// The number of a connection. Numbers are not used twice.
pub type SessionId = u64;

/// One connection, as the relay knows it.
pub struct SessionHandle {
    pub id: SessionId,
    pub key: NodeKey,
    pub endpoint: Endpoint,
    pub can_mesh: bool,
    pub can_ack_pings: bool,
    pub is_prober: bool,
    pub not_ideal: bool,
    tx: Sender<Frame>,
    closed: bool,
    duplicate: bool,
    preferred: bool,
    preferred_seen: bool,
    connected: bool,
    peer_gone_limiter: PeerGoneLimiter,
}

impl View for SessionHandle {
    type V = SessionView;

    closed spec fn view(&self) -> SessionView {
        SessionView {
            id: self.id,
            key: self.key@,
            endpoint: self.endpoint@,
            can_mesh: self.can_mesh,
            can_ack_pings: self.can_ack_pings,
            is_prober: self.is_prober,
            not_ideal: self.not_ideal,
            closed: self.closed,
            duplicate: self.duplicate,
            preferred: self.preferred,
            preferred_seen: self.preferred_seen,
            connected: self.connected,
            limiter: self.peer_gone_limiter,
            queue: queue_of(self.tx),
            room: room_of(self.tx),
            offers: offers(self.tx),
        }
    }
}

/// Whether a packet looks like a wrapped disco message.
pub fn looks_like_disco_wrapper(packet: &[u8]) -> (r: bool)
    ensures
        r == is_disco(packet@),
{
    packet.len() >= DISCO_MIN_LEN && has_prefix(packet, DISCO_MAGIC.as_slice())
}

impl SessionHandle {
    /// The flags that announce this connection's node.
    pub fn flags(&self) -> (r: u8)
        ensures
            r == presence_flags(self@.can_mesh, self@.is_prober, self@.not_ideal),
    {
        let mut f: u8 = 0;
        if self.can_mesh {
            f = f + peer_present_flags::MESH;
        }
        if self.is_prober {
            f = f + peer_present_flags::PROBER;
        }
        if self.not_ideal {
            f = f + peer_present_flags::NOT_IDEAL;
        }
        if f == 0 {
            peer_present_flags::REGULAR
        } else {
            f
        }
    }

    /// The frame that announces this connection's node.
    fn present_frame(&self) -> (r: Frame)
        ensures
            r@ == self@.present_frame(),
    {
        Frame::PeerPresent {
            peer: self.key,
            endpoint: Some(self.endpoint),
            flags: Some(self.flags()),
            extra: bytes_empty(),
        }
    }

    /// Offers a frame to the connection's queue; a refused one is counted.
    pub fn send(&mut self, frame: Frame, metrics: &mut Metrics) -> (r: bool)
        ensures
            final(self)@ == old(self)@.with_offer(frame@, r),
            *final(metrics) == (if r {
                *old(metrics)
            } else {
                Metrics { queue_dropped: plus(old(metrics).queue_dropped, 1), ..*old(metrics) }
            }),
    {
        if offer(&mut self.tx, frame) {
            true
        } else {
            Metrics::inc(&mut metrics.queue_dropped, 1);
            false
        }
    }

    /// Asks the connection to close.
    pub fn close(&mut self)
        ensures
            final(self)@ == (SessionView { closed: true, ..old(self)@ }),
    {
        self.closed = true;
    }

    /// Whether the connection was asked to close.
    pub fn is_closed(&self) -> (r: bool)
        ensures
            r == self@.closed,
    {
        self.closed
    }

    /// Whether the client answers pings.
    pub fn acks_pings(&self) -> (r: bool)
        ensures
            r == self@.can_ack_pings,
    {
        self.can_ack_pings
    }

    /// Tells the connection that a peer is not here, where the packet to it looks like a wrapped
    /// disco message and the connection has not been told too often.
    fn send_peer_not_here(
        &mut self,
        peer: NodeKey,
        packet: &[u8],
        now: u64,
        metrics: &mut Metrics,
    ) -> (r: bool)
        ensures
            ({
                let asked = SessionView { limiter: old(self)@.limiter.asked(now), ..old(self)@ };
                if !is_disco(packet@) {
                    final(self)@ == old(self)@ && *final(metrics) == *old(metrics)
                } else if !old(self)@.limiter.allows(now) {
                    final(self)@ == asked && *final(metrics) == *old(metrics)
                } else {
                    &&& final(self)@ == asked.with_offer(
                        gone_frame(peer@, peer_gone_reason::NOT_HERE),
                        r,
                    )
                    &&& *final(metrics) == (if r {
                        *old(metrics)
                    } else {
                        Metrics {
                            queue_dropped: plus(old(metrics).queue_dropped, 1),
                            ..*old(metrics)
                        }
                    })
                }
            }),
    {
        if looks_like_disco_wrapper(packet) && self.peer_gone_limiter.allow(now) {
            self.send(Frame::PeerGone { peer, reason: peer_gone_reason::NOT_HERE }, metrics)
        } else {
            true
        }
    }
}

/// A connection's number, and the end of its queue that its writer reads.
pub struct RegisteredSession {
    pub handle: SessionId,
    pub rx: Receiver<Frame>,
}

/// The relay of one server.
pub struct Relay {
    sessions: HashMap<u64, SessionHandle>,
    peers: Lists,
    /// The hot path: which connection of each node packets go to.
    active: Singles,
    reverse_paths: Paths,
    watchers: DashSet<u64>,
    mesh_routes: Routes,
    next_id: u64,
    mesh_key: Option<[u8; 32]>,
    queue_depth: usize,
    pub metrics: Metrics,
}

spec fn sessions_view(m: Map<u64, SessionHandle>) -> Map<u64, SessionView> {
    m.map_values(|s: SessionHandle| s@)
}

spec fn pairs(m: Map<Seq<u8>, Set<Seq<u8>>>) -> Set<(Seq<u8>, Seq<u8>)> {
    Set::new(|p: (Seq<u8>, Seq<u8>)| m.contains_key(p.0) && m[p.0].contains(p.1))
}

spec fn route_view(r: MeshRoute) -> RouteView {
    RouteView { mesh_id: r.mesh_id, queue: queue_of(r.tx), offers: offers(r.tx) }
}

spec fn route_views(routes: Seq<MeshRoute>) -> Seq<RouteView> {
    routes.map_values(|r: MeshRoute| route_view(r))
}

spec fn routes_of(m: Map<Seq<u8>, Seq<MeshRoute>>) -> Map<Seq<u8>, Seq<RouteView>> {
    m.map_values(|rs: Seq<MeshRoute>| route_views(rs))
}

/// The key that mesh members share, as bytes.
pub open spec fn mesh_key_view(key: Option<[u8; 32]>) -> Option<Seq<u8>> {
    match key {
        Some(k) => Some(k@),
        None => None,
    }
}

impl View for Relay {
    type V = RelayView;

    closed spec fn view(&self) -> RelayView {
        RelayView {
            sessions: sessions_view(self.sessions@),
            peers: lists_view(self.peers),
            paths: pairs(paths_view(self.reverse_paths)),
            watchers: ids_view(self.watchers),
            routes: routes_of(routes_view(self.mesh_routes)),
            next_id: self.next_id,
            mesh_key: mesh_key_view(self.mesh_key),
            queue_depth: self.queue_depth,
            metrics: self.metrics,
        }
    }
}

proof fn lemma_sessions_insert(m: Map<u64, SessionHandle>, id: u64, s: SessionHandle)
    ensures
        sessions_view(m.insert(id, s)) == sessions_view(m).insert(id, s@),
{
    assert(sessions_view(m.insert(id, s)) =~= sessions_view(m).insert(id, s@));
}

proof fn lemma_sessions_remove(m: Map<u64, SessionHandle>, id: u64)
    ensures
        sessions_view(m.remove(id)) == sessions_view(m).remove(id),
{
    assert(sessions_view(m.remove(id)) =~= sessions_view(m).remove(id));
}

/// The client that joins, as plain values.
pub open spec fn joining(
    key: NodeKey,
    endpoint: Endpoint,
    can_mesh: bool,
    can_ack_pings: bool,
    is_prober: bool,
    not_ideal: bool,
    queue: int,
) -> Joining {
    Joining { key: key@, endpoint: endpoint@, can_mesh, can_ack_pings, is_prober, not_ideal, queue }
}

impl Relay {
    /// Whether the hot path leads to the connection that was active last.
    pub closed spec fn index_ok(self) -> bool {
        &&& singles_view(self.active).dom() == lists_view(self.peers).dom()
        &&& forall|k: Seq<u8>| #[trigger]
            lists_view(self.peers).contains_key(k) ==> singles_view(self.active)[k] == lists_view(
                self.peers,
            )[k].last()
    }

    /// The invariant of the relay.
    pub open spec fn wf(self) -> bool {
        self@.wf() && self.index_ok()
    }

    /// An empty relay. Each connection's queue holds `queue_depth` frames, at least one.
    pub fn new(queue_depth: usize, mesh_key: Option<[u8; 32]>) -> (r: Relay)
        ensures
            r.wf(),
            r@ == (RelayView {
                sessions: Map::empty(),
                peers: Map::empty(),
                paths: Set::empty(),
                watchers: Set::empty(),
                routes: Map::empty(),
                next_id: 1,
                mesh_key: mesh_key_view(mesh_key),
                queue_depth: if queue_depth == 0 {
                    1
                } else {
                    queue_depth
                },
                metrics: zero_metrics(),
            }),
    {
        let relay = Relay {
            sessions: HashMap::new(),
            peers: lists_new(),
            active: singles_new(),
            reverse_paths: paths_new(),
            watchers: ids_new(),
            mesh_routes: routes_new(),
            next_id: 1,
            mesh_key,
            queue_depth: if queue_depth == 0 {
                1
            } else {
                queue_depth
            },
            metrics: Metrics::default(),
        };
        proof {
            assert(relay@.sessions =~= Map::empty());
            assert(relay@.peers =~= Map::empty());
            assert(relay@.paths =~= Set::empty());
            assert(relay@.routes =~= Map::empty());
        }
        relay
    }

    /// The number of connections that have not left.
    pub fn client_count(&self) -> (r: usize)
        requires
            self.wf(),
        ensures
            r == self@.connected().len(),
    {
        let ids = self.all_ids();
        proof {
            ids@.unique_seq_to_set();
        }
        ids.len()
    }

    /// The number of nodes that are here.
    pub fn public_peer_count(&self) -> (r: usize)
        ensures
            r == self@.peers.len(),
    {
        lists_len(&self.peers)
    }

    /// Whether a client's key is the one that mesh members share. Without such a key nobody is a
    /// member.
    pub fn is_mesh_key(&self, value: Option<[u8; 32]>) -> (r: bool)
        ensures
            r == (self@.mesh_key is Some && mesh_key_view(value) == self@.mesh_key),
    {
        match (self.mesh_key, value) {
            (Some(a), Some(b)) => same_key(&a, &b),
            _ => false,
        }
    }

    /// A connection, where there is one of this number. One that has left is found until it is
    /// released.
    pub fn session(&self, id: SessionId) -> (r: Option<&SessionHandle>)
        ensures
            match r {
                Some(s) => self@.sessions.contains_key(id) && s@ == self@.sessions[id],
                None => !self@.sessions.contains_key(id),
            },
    {
        self.sessions.get(&id)
    }

    /// Whether another connection can be registered: its number is free, and its queue not
    /// deeper than a queue can be.
    pub fn has_room(&self) -> (r: bool)
        ensures
            r == (self@.next_id < u64::MAX && self@.queue_depth <= queue_limit()),
    {
        self.next_id < u64::MAX && self.queue_depth <= usize::MAX / 8
    }

    /// Offers a frame to a connection.
    fn offer_to(&mut self, id: u64, frame: Frame) -> (r: bool)
        requires
            old(self).index_ok(),
            old(self)@.sessions.contains_key(id),
        ensures
            final(self)@ == old(self)@.deliver(Offer { id, frame: frame@, ok: r }),
            final(self).index_ok(),
    {
        match self.sessions.remove(&id) {
            Some(mut s) => {
                let r = s.send(frame, &mut self.metrics);
                proof {
                    lemma_sessions_insert(self.sessions@, id, s);
                    lemma_sessions_remove(old(self).sessions@, id);
                }
                self.sessions.insert(id, s);
                proof {
                    let o = Offer { id, frame: frame@, ok: r };
                    assert(self@.sessions =~= old(self)@.deliver(o).sessions);
                    assert(self@ =~= old(self)@.deliver(o));
                }
                r
            },
            None => false,
        }
    }

    /// Offers a frame to each of these connections in turn.
    fn offer_each(&mut self, ids: &[u64], frame: &Frame)
        requires
            old(self).index_ok(),
            forall|i: int|
                0 <= i < ids@.len() ==> old(self)@.sessions.contains_key(#[trigger] ids@[i]),
        ensures
            final(self).index_ok(),
            exists|plan: Seq<Offer>| #[trigger]
                to_each(plan, ids@, frame@) && plan_ok(old(self)@, plan) && final(self)@
                    == old(self)@.offered(plan),
    {
        let ghost mut plan: Seq<Offer> = Seq::empty();
        let mut i: usize = 0;
        while i < ids.len()
            invariant
                i <= ids.len(),
                self.index_ok(),
                forall|j: int|
                    0 <= j < ids@.len() ==> old(self)@.sessions.contains_key(#[trigger] ids@[j]),
                to_each(plan, ids@.take(i as int), frame@),
                plan_ok(old(self)@, plan),
                self@ == old(self)@.offered(plan),
            decreases ids.len() - i,
        {
            proof {
                lemma_offered(old(self)@, plan);
            }
            let ok = self.offer_to(ids[i], frame.clone());
            proof {
                let o = Offer { id: ids@[i as int], frame: frame@, ok };
                let before = plan;
                plan = before.push(o);
                assert(plan.drop_last() =~= before);
                assert(plan.last() == o);
                assert forall|j: int| 0 <= j < plan.len() implies (#[trigger] plan[j]).id
                    == ids@.take(i + 1)[j] && plan[j].frame == frame@ by {
                    if j < before.len() {
                        assert(before[j].id == ids@.take(i as int)[j]);
                    }
                }
                assert forall|j: int| 0 <= j < plan.len() implies old(self)@.sessions.contains_key(
                    (#[trigger] plan[j]).id,
                ) by {
                    if j < before.len() {
                        assert(old(self)@.sessions.contains_key(before[j].id));
                    }
                }
            }
            i += 1;
        }
        proof {
            assert(ids@.take(i as int) =~= ids@);
        }
    }

    /// Offers a frame to every watcher.
    fn tell_watchers(&mut self, frame: &Frame)
        requires
            old(self).wf(),
        ensures
            final(self).wf(),
            exists|plan: Seq<Offer>| #[trigger]
                to_all(plan, old(self)@.watchers, frame@) && plan_ok(old(self)@, plan)
                    && final(self)@ == old(self)@.offered(plan),
    {
        let ids = ids_of(&self.watchers);
        proof {
            assert forall|i: int| 0 <= i < ids@.len() implies self@.sessions.contains_key(
                #[trigger] ids@[i],
            ) by {
                assert(ids@.to_set().contains(ids@[i]));
                assert(self@.watchers.contains(ids@[i]));
            }
        }
        self.offer_each(ids.as_slice(), frame);
        proof {
            let plan = choose|plan: Seq<Offer>| #[trigger]
                to_each(plan, ids@, frame@) && plan_ok(old(self)@, plan) && self@
                    == old(self)@.offered(plan);
            assert(to_all(plan, old(self)@.watchers, frame@));
            lemma_offered(old(self)@, plan);
        }
    }

    /// Sets or clears the duplicate mark of a node's connections.
    fn mark(&mut self, ids: &[u64], Ghost(key): Ghost<Seq<u8>>, duplicate: bool)
        requires
            old(self).index_ok(),
            forall|id: u64| #[trigger]
                old(self)@.sessions.contains_key(id) ==> (old(self)@.sessions[id].connected
                    && old(self)@.sessions[id].key == key) == ids@.contains(id),
            forall|i: int|
                0 <= i < ids@.len() ==> old(self)@.sessions.contains_key(#[trigger] ids@[i]),
        ensures
            final(self).index_ok(),
            final(self)@ == (RelayView {
                sessions: old(self)@.marked(key, duplicate),
                ..old(self)@
            }),
    {
        let mut i: usize = 0;
        while i < ids.len()
            invariant
                i <= ids.len(),
                self.index_ok(),
                self@ == (RelayView { sessions: self@.sessions, ..old(self)@ }),
                self@.sessions.dom() == old(self)@.sessions.dom(),
                forall|j: int|
                    0 <= j < ids@.len() ==> old(self)@.sessions.contains_key(#[trigger] ids@[j]),
                forall|id: u64| #[trigger]
                    old(self)@.sessions.contains_key(id) ==> self@.sessions[id] == (if ids@.take(
                        i as int,
                    ).contains(id) {
                        SessionView { duplicate, ..old(self)@.sessions[id] }
                    } else {
                        old(self)@.sessions[id]
                    }),
            decreases ids.len() - i,
        {
            let id = ids[i];
            let ghost before = self.sessions@;
            let ghost view = self@;
            proof {
                assert(old(self)@.sessions.contains_key(ids@[i as int]));
                assert(view.sessions.contains_key(id));
                assert(before.contains_key(id));
            }
            if let Some(mut s) = self.sessions.remove(&id) {
                s.duplicate = duplicate;
                proof {
                    lemma_sessions_remove(before, id);
                    lemma_sessions_insert(self.sessions@, id, s);
                }
                self.sessions.insert(id, s);
                proof {
                    assert(self@.sessions.dom() =~= view.sessions.dom());
                    assert(ids@.take(i + 1) =~= ids@.take(i as int).push(id));
                    assert forall|x: u64| #[trigger]
                        old(self)@.sessions.contains_key(x) implies self@.sessions[x] == (
                    if ids@.take(i + 1).contains(x) {
                        SessionView { duplicate, ..old(self)@.sessions[x] }
                    } else {
                        old(self)@.sessions[x]
                    }) by {
                        lemma_push_contains(ids@.take(i as int), id);
                    }
                }
            }
            i += 1;
        }
        proof {
            assert(ids@.take(i as int) =~= ids@);
            assert(self@.sessions =~= old(self)@.marked(key, duplicate));
        }
    }

    /// Registers a connection. It becomes its node's active one; where the node has others, all
    /// of them are told; and every watcher is told of it.
    pub fn register(
        &mut self,
        key: NodeKey,
        endpoint: Endpoint,
        can_mesh: bool,
        can_ack_pings: bool,
        is_prober: bool,
        not_ideal: bool,
        now: u64,
    ) -> (r: RegisteredSession)
        requires
            old(self).wf(),
            old(self)@.next_id < u64::MAX,
            old(self)@.queue_depth <= queue_limit(),
        ensures
            final(self).wf(),
            r.handle == old(self)@.next_id,
            reads(r.rx) == Seq::<Option<FrameView>>::empty(),
            old(self)@.registered(
                final(self)@,
                joining(
                    key,
                    endpoint,
                    can_mesh,
                    can_ack_pings,
                    is_prober,
                    not_ideal,
                    queue_behind(r.rx),
                ),
                now,
            ),
    {
        let ghost pre = self@;
        let id = self.next_id;
        let (tx, rx) = open_queue(self.queue_depth);
        let ghost j = joining(
            key,
            endpoint,
            can_mesh,
            can_ack_pings,
            is_prober,
            not_ideal,
            queue_behind(rx),
        );
        proof {
            lemma_joined(pre, j, now);
        }
        let (was_here, mut list) = match lists_get(&self.peers, key.as_bytes()) {
            Some(list) => (true, list),
            None => (false, Vec::new()),
        };
        proof {
            assert(list@ =~= pre.list(j.key));
        }
        if was_here {
            proof {
                assert(pre.list_ok(j.key));
                assert forall|x: u64| #[trigger] pre.sessions.contains_key(x) implies (
                pre.sessions[x].connected && pre.sessions[x].key == j.key) == list@.contains(
                    x,
                ) by {
                    assert(pre.session_ok(x));
                    if list@.contains(x) {
                        lemma_listed(pre, j.key, x);
                    }
                }
            }
            self.mark(list.as_slice(), Ghost(key@), true);
        }
        let handle = SessionHandle {
            id,
            key,
            endpoint,
            can_mesh,
            can_ack_pings,
            is_prober,
            not_ideal,
            tx,
            closed: false,
            duplicate: was_here,
            preferred: false,
            preferred_seen: false,
            connected: true,
            peer_gone_limiter: PeerGoneLimiter::new(now),
        };
        let present = handle.present_frame();
        proof {
            assert(handle@ == pre.fresh(j, now));
            lemma_sessions_insert(self.sessions@, id, handle);
        }
        self.sessions.insert(id, handle);
        self.next_id = id + 1;
        list.push(id);
        lists_put(&mut self.peers, key.as_bytes(), list.as_slice());
        singles_put(&mut self.active, key.as_bytes(), id);
        Metrics::inc(&mut self.metrics.current_clients, 1);
        let ghost joined = pre.joined(j, now);
        proof {
            assert(self@ =~= joined);
            assert(singles_view(self.active).dom() =~= lists_view(self.peers).dom());
        }
        let ghost mut health: Seq<Offer> = Seq::empty();
        if was_here {
            let text = bytes_from_vec(
                to_vec("duplicate DERP connection for node key".as_bytes()),
            );
            proof {
                assert(joined.list_ok(j.key));
            }
            let frame = Frame::Health(text);
            self.offer_each(list.as_slice(), &frame);
            proof {
                health = choose|plan: Seq<Offer>| #[trigger]
                    to_each(plan, list@, frame@) && plan_ok(joined, plan) && self@
                        == joined.offered(plan);
                lemma_offered(joined, health);
                assert(list@ =~= pre.duplicates(j.key));
            }
        }
        proof {
            assert(to_each(health, pre.duplicates(j.key), FrameView::Health(duplicate_text())));
        }
        let ghost told = self@;
        self.tell_watchers(&present);
        proof {
            let presence = choose|plan: Seq<Offer>| #[trigger]
                to_all(plan, told.watchers, present@) && plan_ok(told, plan) && self@
                    == told.offered(plan);
            assert(to_all(presence, pre.watchers, pre.fresh(j, now).present_frame()));
            assert(pre.registered(self@, j, now));
        }
        RegisteredSession { handle: id, rx }
    }

    /// Notes that a connection was used: it becomes its node's active one. Where it left while its
    /// node had others, the newest of those that are here becomes active.
    pub fn note_activity(&mut self, id: SessionId)
        requires
            old(self).wf(),
        ensures
            final(self).wf(),
            final(self)@ == old(self)@.active_noted(id),
    {
        let ghost pre = self@;
        proof {
            lemma_active_noted(pre, id);
        }
        let (key, connected, duplicate) = match self.sessions.get(&id) {
            Some(s) => (s.key, s.connected, s.duplicate),
            None => {
                return ;
            },
        };
        proof {
            assert(pre.session_ok(id));
        }
        if !duplicate {
            proof {
                if connected {
                    assert(pre.list_ok(key@));
                    lemma_single(pre.peers[key@], id);
                    assert(pre.active_noted(id).peers =~= pre.peers);
                }
            }
            return ;
        }
        if let Some(list) = lists_get(&self.peers, key.as_bytes()) {
            proof {
                assert(pre.list_ok(key@));
            }
            let selected = if connected {
                id
            } else {
                newest_of(list.as_slice())
            };
            let mut moved = drop_id(list.as_slice(), selected);
            moved.push(selected);
            lists_put(&mut self.peers, key.as_bytes(), moved.as_slice());
            singles_put(&mut self.active, key.as_bytes(), selected);
            proof {
                assert(self@ =~= pre.active_noted(id));
                assert(singles_view(self.active).dom() =~= lists_view(self.peers).dom());
            }
        }
    }

    /// Notes whether a client prefers this relay. Only a change counts, and only one after the
    /// first report is a move.
    pub fn note_preferred(&mut self, id: SessionId, preferred: bool)
        requires
            old(self).wf(),
        ensures
            final(self).wf(),
            final(self)@ == old(self)@.preferred_noted(id, preferred),
    {
        let ghost pre = self@;
        let mut s = match self.sessions.remove(&id) {
            Some(s) => s,
            None => {
                proof {
                    assert(self@ =~= pre);
                }
                return ;
            },
        };
        proof {
            lemma_sessions_remove(old(self).sessions@, id);
        }
        let was_preferred = s.preferred;
        let was_seen = s.preferred_seen;
        s.preferred = preferred;
        s.preferred_seen = true;
        proof {
            lemma_sessions_insert(self.sessions@, id, s);
        }
        self.sessions.insert(id, s);
        if was_preferred != preferred {
            if preferred {
                Metrics::inc(&mut self.metrics.preferred_clients, 1);
                if was_seen {
                    Metrics::inc(&mut self.metrics.home_moves_in, 1);
                }
            } else {
                Metrics::dec(&mut self.metrics.preferred_clients);
                if was_seen {
                    Metrics::inc(&mut self.metrics.home_moves_out, 1);
                }
            }
        }
        proof {
            let post = pre.preferred_noted(id, preferred);
            assert(self@.sessions =~= post.sessions);
            assert(self@ =~= post);
            assert(post.sessions.dom() =~= pre.sessions.dom());
            lemma_sessions_changed(pre, post);
        }
    }
}

impl Relay {
    /// The active connections of these nodes, where they are here.
    fn active_ids(&self, keys: &[[u8; 32]]) -> (r: Vec<u64>)
        requires
            self.wf(),
            forall|i: int, j: int|
                0 <= i < keys@.len() && 0 <= j < keys@.len() && i != j ==> #[trigger] keys@[i]@
                    != #[trigger] keys@[j]@,
        ensures
            r@.no_duplicates(),
            forall|x: u64| #[trigger]
                r@.contains(x) == (self@.is_connected(x) && listed_key(
                    keys@,
                    self@.sessions[x].key,
                ) && x == self@.active(self@.sessions[x].key)),
    {
        let mut out: Vec<u64> = Vec::new();
        let mut i: usize = 0;
        while i < keys.len()
            invariant
                i <= keys.len(),
                self.wf(),
                forall|a: int, b: int|
                    0 <= a < keys@.len() && 0 <= b < keys@.len() && a != b ==> #[trigger] keys@[a]@
                        != #[trigger] keys@[b]@,
                out@.no_duplicates(),
                forall|x: u64| #[trigger]
                    out@.contains(x) == (self@.is_connected(x) && listed_key(
                        keys@.take(i as int),
                        self@.sessions[x].key,
                    ) && x == self@.active(self@.sessions[x].key)),
            decreases keys.len() - i,
        {
            let ghost before = out@;
            let ghost key = keys@[i as int]@;
            proof {
                lemma_listed_step(keys@, i as int);
            }
            if let Some(id) = singles_get(&self.active, &keys[i]) {
                proof {
                    lemma_active(self@, key);
                    lemma_push_contains(before, id);
                    assert(!before.contains(id));
                    lemma_push_no_duplicates(before, id);
                }
                out.push(id);
            }
            proof {
                assert forall|x: u64| #[trigger] out@.contains(x) == (self@.is_connected(x)
                    && listed_key(keys@.take(i + 1), self@.sessions[x].key) && x == self@.active(
                    self@.sessions[x].key,
                )) by {
                    assert(before.contains(x) == (self@.is_connected(x) && listed_key(
                        keys@.take(i as int),
                        self@.sessions[x].key,
                    ) && x == self@.active(self@.sessions[x].key)));
                    if self@.is_connected(x) {
                        assert(self@.session_ok(x));
                    }
                }
            }
            i += 1;
        }
        proof {
            assert(keys@.take(i as int) =~= keys@);
        }
        out
    }

    /// Takes a node out of everybody's paths.
    fn forget_destination(&mut self, key: &[u8; 32])
        requires
            old(self).index_ok(),
        ensures
            final(self).index_ok(),
            final(self)@ == (RelayView {
                paths: old(self)@.paths.filter(|p: (Seq<u8>, Seq<u8>)| p.1 != key@),
                ..old(self)@
            }),
    {
        let sources = paths_keys_of(&self.reverse_paths);
        let ghost before = paths_view(self.reverse_paths);
        let mut i: usize = 0;
        while i < sources.len()
            invariant
                i <= sources.len(),
                lists_keys(sources@, before.dom()),
                before == paths_view(old(self).reverse_paths),
                *self == (Relay { reverse_paths: self.reverse_paths, ..*old(self) }),
                paths_view(self.reverse_paths).dom() == before.dom(),
                forall|k: Seq<u8>| #[trigger]
                    before.contains_key(k) ==> paths_view(self.reverse_paths)[k] == (if listed_key(
                        sources@.take(i as int),
                        k,
                    ) {
                        before[k].remove(key@)
                    } else {
                        before[k]
                    }),
            decreases sources.len() - i,
        {
            let ghost then = paths_view(self.reverse_paths);
            proof {
                assert(before.dom().contains(sources@[i as int]@));
                lemma_listed_step(sources@, i as int);
            }
            paths_drop(&mut self.reverse_paths, &sources[i], key);
            proof {
                assert(paths_view(self.reverse_paths).dom() =~= before.dom());
                assert forall|k: Seq<u8>| #[trigger]
                    before.contains_key(k) implies paths_view(self.reverse_paths)[k] == (
                if listed_key(sources@.take(i + 1), k) {
                    before[k].remove(key@)
                } else {
                    before[k]
                }) by {
                    assert(then[k].remove(key@) =~= before[k].remove(key@));
                }
            }
            i += 1;
        }
        proof {
            assert(sources@.take(i as int) =~= sources@);
            assert(self@.paths =~= old(self)@.paths.filter(
                |p: (Seq<u8>, Seq<u8>)| p.1 != key@,
            )) by {
                assert forall|p: (Seq<u8>, Seq<u8>)| self@.paths.contains(p) == (old(
                    self,
                )@.paths.contains(p) && p.1 != key@) by {
                    if before.contains_key(p.0) {
                        assert(before.dom().contains(p.0));
                        assert(listed_key(sources@, p.0));
                    }
                }
            }
        }
    }

    /// Takes a connection out. Where one connection of its node remains, that one's health is
    /// cleared. Where none remains, every watcher is told that the node is gone, and so is every
    /// node that it has sent packets to. One that has left already is counted as leaving again,
    /// but no node is gone by it. A number that is not in use changes nothing.
    #[verifier::rlimit(60)]
    #[verifier::spinoff_prover]
    pub fn unregister(&mut self, id: SessionId)
        requires
            old(self).wf(),
        ensures
            final(self).wf(),
            old(self)@.unregistered(final(self)@, id),
    {
        let ghost pre = self@;
        let mut s = match self.sessions.remove(&id) {
            Some(s) => s,
            None => {
                proof {
                    assert(self@ =~= pre);
                }
                return ;
            },
        };
        proof {
            lemma_sessions_remove(old(self).sessions@, id);
            assert(pre.sessions.contains_key(id));
            lemma_left(pre, id);
            assert(pre.session_ok(id));
        }
        let key = s.key;
        let was_connected = s.connected;
        let ghost left = pre.left(id);
        ids_remove(&mut self.watchers, id);
        if s.preferred {
            Metrics::dec(&mut self.metrics.preferred_clients);
        }
        Metrics::dec(&mut self.metrics.current_clients);
        s.close();
        s.preferred = false;
        s.connected = false;
        proof {
            assert(s@ == pre.departed(id));
            lemma_sessions_insert(self.sessions@, id, s);
        }
        self.sessions.insert(id, s);
        proof {
            assert(self@.sessions =~= pre.sessions.insert(id, pre.departed(id)));
        }
        let list = match lists_get(&self.peers, key.as_bytes()) {
            Some(list) => list,
            None => Vec::new(),
        };
        let rest = drop_id(list.as_slice(), id);
        proof {
            assert(list@ =~= pre.list(key@));
            assert(rest@ == pre.rest(id));
            if pre.here(key@) {
                assert(pre.list_ok(key@));
            }
            lemma_without(list@, id);
        }
        if rest.len() > 0 {
            let last = rest[rest.len() - 1];
            lists_put(&mut self.peers, key.as_bytes(), rest.as_slice());
            singles_put(&mut self.active, key.as_bytes(), last);
            proof {
                assert(singles_view(self.active).dom() =~= lists_view(self.peers).dom());
            }
            if rest.len() == 1 {
                proof {
                    assert forall|x: u64| #[trigger] self@.sessions.contains_key(x) implies (
                    self@.sessions[x].connected && self@.sessions[x].key == key@)
                        == rest@.contains(x) by {
                        assert(pre.sessions.contains_key(x));
                        assert(pre.session_ok(x));
                        if rest@.contains(x) {
                            lemma_listed(pre, key@, x);
                        }
                    }
                    assert(rest@.contains(rest@[0]));
                    lemma_listed(pre, key@, rest@[0]);
                }
                self.mark(rest.as_slice(), Ghost(key@), false);
                proof {
                    assert(self@.sessions =~= left.sessions);
                    assert(self@ =~= left);
                }
                let frame = Frame::Health(bytes_empty());
                let ok = self.offer_to(rest[0], frame);
                proof {
                    let o = Offer { id: rest@[0], frame: frame@, ok };
                    let plan = seq![o];
                    assert(plan.drop_last() =~= Seq::empty());
                    assert(left.offered(plan.drop_last()) == left);
                    assert(left.offered(plan) == left.deliver(o));
                    lemma_offered(left, plan);
                    assert(frame@ == FrameView::Health(Seq::empty()));
                    assert(pre.unregistered(self@, id));
                }
            } else {
                proof {
                    assert(self@ =~= left);
                }
            }
        } else if !was_connected {
            proof {
                assert(!pre.here(key@));
                assert(left.peers =~= pre.peers);
                assert(self@ =~= left);
            }
        } else {
            lists_remove(&mut self.peers, key.as_bytes());
            singles_remove(&mut self.active, key.as_bytes());
            let reached = match paths_take(&mut self.reverse_paths, key.as_bytes()) {
                Some(keys) => keys,
                None => Vec::new(),
            };
            proof {
                assert(singles_view(self.active).dom() =~= lists_view(self.peers).dom());
            }
            self.forget_destination(key.as_bytes());
            proof {
                assert(self@.paths =~= left.paths);
                assert(self@ =~= left);
            }
            let frame = Frame::PeerGone { peer: key, reason: peer_gone_reason::DISCONNECTED };
            self.tell_watchers(&frame);
            let ghost told = self@;
            let ghost watching = choose|plan: Seq<Offer>| #[trigger]
                to_all(plan, left.watchers, frame@) && plan_ok(left, plan) && told == left.offered(
                    plan,
                );
            proof {
                lemma_offered(left, watching);
            }
            let ids = self.active_ids(reached.as_slice());
            proof {
                assert forall|x: u64| ids@.contains(x) == #[trigger] pre.reached_by(
                    key@,
                ).contains(x) by {
                    if ids@.contains(x) {
                        assert(left.sessions.contains_key(x));
                        assert(left.session_ok(x));
                    }
                    if pre.reached_by(key@).contains(x) {
                        assert(x != id);
                        assert(left.sessions.contains_key(x));
                        assert(pre.session_ok(x));
                        assert(paths_view(old(self).reverse_paths).contains_key(key@));
                        assert(paths_view(old(self).reverse_paths)[key@].contains(
                            pre.sessions[x].key,
                        ));
                        assert(listed_key(reached@, pre.sessions[x].key));
                    }
                }
                assert(ids@.to_set() =~= pre.reached_by(key@));
                assert forall|i: int| 0 <= i < ids@.len() implies told.sessions.contains_key(
                    #[trigger] ids@[i],
                ) by {
                    assert(ids@.contains(ids@[i]));
                }
            }
            self.offer_each(ids.as_slice(), &frame);
            proof {
                let plan = choose|plan: Seq<Offer>| #[trigger]
                    to_each(plan, ids@, frame@) && plan_ok(told, plan) && self@ == told.offered(
                        plan,
                    );
                lemma_offered(told, plan);
                let gone = gone_frame(key@, peer_gone_reason::DISCONNECTED);
                assert(to_all(plan, pre.reached_by(key@), gone));
                assert(to_all(watching, pre.watchers.remove(id), gone));
                assert(pre.unregistered(self@, id));
            }
        }
    }
}

/// Whether a key is one of these.
pub open spec fn listed_key(keys: Seq<[u8; 32]>, key: Seq<u8>) -> bool {
    exists|i: int| 0 <= i < keys.len() && #[trigger] keys[i]@ == key
}

proof fn lemma_listed_step(keys: Seq<[u8; 32]>, i: int)
    requires
        0 <= i < keys.len(),
    ensures
        forall|k: Seq<u8>| #[trigger]
            listed_key(keys.take(i + 1), k) == (listed_key(keys.take(i), k) || k == keys[i]@),
{
    assert forall|k: Seq<u8>| #[trigger]
        listed_key(keys.take(i + 1), k) == (listed_key(keys.take(i), k) || k == keys[i]@) by {
        let a = keys.take(i);
        let b = keys.take(i + 1);
        if listed_key(a, k) {
            let j = choose|j: int| 0 <= j < a.len() && #[trigger] a[j]@ == k;
            assert(b[j]@ == k);
        }
        if listed_key(b, k) {
            let j = choose|j: int| 0 <= j < b.len() && #[trigger] b[j]@ == k;
            if j < i {
                assert(a[j]@ == k);
            }
        }
        assert(b[i]@ == keys[i]@);
    }
}

proof fn lemma_push_no_duplicates(list: Seq<u64>, id: u64)
    requires
        list.no_duplicates(),
        !list.contains(id),
    ensures
        list.push(id).no_duplicates(),
{
    let l = list.push(id);
    assert forall|a: int, b: int| 0 <= a < l.len() && 0 <= b < l.len() && a != b implies l[a]
        != l[b] by {
        if a < list.len() {
            assert(list.contains(list[a]));
        }
        if b < list.len() {
            assert(list.contains(list[b]));
        }
    }
}

/// A list of one item, with that item moved to the end.
proof fn lemma_single(list: Seq<u64>, id: u64)
    requires
        list.no_duplicates(),
        list.len() <= 1,
        list.contains(id),
    ensures
        without(list, id).push(id) == list,
{
    lemma_without(list, id);
    assert(without(list, id).push(id) =~= list);
}

/// The connection of a list that joined last.
fn newest_of(list: &[u64]) -> (r: u64)
    requires
        list@.len() > 0,
    ensures
        r == newest(list@),
{
    let mut best = list[0];
    let mut i: usize = 1;
    while i < list.len()
        invariant
            1 <= i <= list.len(),
            best == newest(list@.take(i as int)),
        decreases list.len() - i,
    {
        proof {
            assert(list@.take(i + 1).drop_last() =~= list@.take(i as int));
        }
        if list[i] >= best {
            best = list[i];
        }
        i += 1;
    }
    proof {
        assert(list@.take(i as int) =~= list@);
    }
    best
}

/// The list without an item.
fn drop_id(list: &[u64], id: u64) -> (r: Vec<u64>)
    ensures
        r@ == without(list@, id),
{
    let mut out: Vec<u64> = Vec::new();
    let mut i: usize = 0;
    proof {
        reveal(Seq::filter);
        assert(list@.take(0) =~= Seq::<u64>::empty());
    }
    while i < list.len()
        invariant
            i <= list.len(),
            out@ == without(list@.take(i as int), id),
        decreases list.len() - i,
    {
        let x = list[i];
        proof {
            reveal(Seq::filter);
            assert(list@.take(i + 1).drop_last() =~= list@.take(i as int));
            assert(list@.take(i + 1).last() == x);
        }
        if x != id {
            out.push(x);
        }
        i += 1;
    }
    proof {
        assert(list@.take(i as int) =~= list@);
    }
    out
}

} // verus!
