//! What the relay is and does, as mathematics: its state, what each operation makes of it, and
//! the invariant that all of them keep.
//!
//! Whether a queue takes a frame is decided outside. An operation is therefore stated with the
//! offers that it makes, each with its outcome: for every outcome there is one next state.

use vstd::prelude::*;
use vstd::utf8::encode_utf8;

use crate::endpoint::EndpointView;
use crate::limiter::{PeerGoneLimiter, REPORTS, SECOND};
use crate::metrics::{less_one, plus, Metrics};
use crate::protocol::{peer_gone_reason, peer_present_flags, FrameView};

verus! {

/// The model of one connection.
#[verifier::ext_equal]
pub struct SessionView {
    pub id: u64,
    pub key: Seq<u8>,
    pub endpoint: EndpointView,
    pub can_mesh: bool,
    pub can_ack_pings: bool,
    pub is_prober: bool,
    pub not_ideal: bool,
    pub closed: bool,
    pub duplicate: bool,
    pub preferred: bool,
    pub preferred_seen: bool,
    /// Whether it has not left.
    pub connected: bool,
    pub limiter: PeerGoneLimiter,
    /// The queue that the connection's writer reads.
    pub queue: int,
    /// How many frames that queue holds.
    pub room: nat,
    /// What was offered to that queue, each frame with whether it was taken.
    pub offers: Seq<(FrameView, bool)>,
}

/// The model of a way to a node through a mesh connection.
#[verifier::ext_equal]
pub struct RouteView {
    pub mesh_id: u64,
    /// The queue that the mesh connection's writer reads.
    pub queue: int,
    pub offers: Seq<(FrameView, bool)>,
}

/// The model of the relay.
#[verifier::ext_equal]
pub struct RelayView {
    /// The connections, by number. One that has left stays until it is released.
    pub sessions: Map<u64, SessionView>,
    /// The connections of each node that is here, the one active last at the end.
    pub peers: Map<Seq<u8>, Seq<u64>>,
    /// Who was sent a packet by whom: source, then destination.
    pub paths: Set<(Seq<u8>, Seq<u8>)>,
    /// The connections that are told who comes and goes.
    pub watchers: Set<u64>,
    /// The ways to nodes that are elsewhere in the mesh.
    pub routes: Map<Seq<u8>, Seq<RouteView>>,
    pub next_id: u64,
    pub mesh_key: Option<Seq<u8>>,
    pub queue_depth: usize,
    pub metrics: Metrics,
}

/// A frame offered to a connection, with whether its queue took it.
pub struct Offer {
    pub id: u64,
    pub frame: FrameView,
    pub ok: bool,
}

/// What is known of a client when it joins.
pub struct Joining {
    pub key: Seq<u8>,
    pub endpoint: EndpointView,
    pub can_mesh: bool,
    pub can_ack_pings: bool,
    pub is_prober: bool,
    pub not_ideal: bool,
    /// The queue that its writer reads.
    pub queue: int,
}

/// The text that tells a client that its key is in use more than once.
pub open spec fn duplicate_text() -> Seq<u8> {
    encode_utf8("duplicate DERP connection for node key"@)
}

/// The flags that announce a peer: regular, unless it is something else.
pub open spec fn presence_flags(can_mesh: bool, is_prober: bool, not_ideal: bool) -> u8 {
    let mesh: int = if can_mesh {
        peer_present_flags::MESH as int
    } else {
        0
    };
    let prober: int = if is_prober {
        peer_present_flags::PROBER as int
    } else {
        0
    };
    let ideal: int = if not_ideal {
        peer_present_flags::NOT_IDEAL as int
    } else {
        0
    };
    if mesh + prober + ideal == 0 {
        peer_present_flags::REGULAR
    } else {
        (mesh + prober + ideal) as u8
    }
}

/// The bytes that open a wrapped disco message: `TS` and the sign U+1F4AC in UTF-8.
pub const DISCO_MAGIC: [u8; 6] = [0x54, 0x53, 0xF0, 0x9F, 0x92, 0xAC];

/// The least length of a wrapped disco message: the magic, a key and a nonce.
pub const DISCO_MIN_LEN: usize = 62;

/// Whether a packet looks like a wrapped disco message.
pub open spec fn is_disco(packet: Seq<u8>) -> bool {
    packet.len() >= DISCO_MIN_LEN && packet.subrange(0, 6) == DISCO_MAGIC@
}

/// The frame that tells that a peer is gone, or not here.
pub open spec fn gone_frame(peer: Seq<u8>, reason: u8) -> FrameView {
    FrameView::PeerGone { peer, reason }
}

/// The list without an item.
pub open spec fn without(list: Seq<u64>, id: u64) -> Seq<u64> {
    list.filter(|x: u64| x != id)
}

/// The connection of a list that joined last: the one with the greatest number.
pub open spec fn newest(list: Seq<u64>) -> u64
    decreases list.len(),
{
    if list.len() <= 1 {
        list[0]
    } else {
        let x = newest(list.drop_last());
        if x > list.last() {
            x
        } else {
            list.last()
        }
    }
}

impl SessionView {
    /// The connection with one more offer made to it.
    pub open spec fn with_offer(self, frame: FrameView, ok: bool) -> SessionView {
        SessionView { offers: self.offers.push((frame, ok)), ..self }
    }

    /// The frame that announces this connection's node.
    pub open spec fn present_frame(self) -> FrameView {
        FrameView::PeerPresent {
            peer: self.key,
            endpoint: Some(self.endpoint),
            flags: Some(presence_flags(self.can_mesh, self.is_prober, self.not_ideal)),
            extra: Seq::empty(),
        }
    }
}

/// Whether the offers go to these connections in this order, all of the same frame.
pub open spec fn to_each(plan: Seq<Offer>, ids: Seq<u64>, frame: FrameView) -> bool {
    &&& plan.len() == ids.len()
    &&& forall|i: int|
        0 <= i < plan.len() ==> (#[trigger] plan[i]).id == ids[i] && plan[i].frame == frame
}

/// Whether the offers go to these connections, once to each in some order, all of the same frame.
pub open spec fn to_all(plan: Seq<Offer>, ids: Set<u64>, frame: FrameView) -> bool {
    exists|order: Seq<u64>| #[trigger]
        to_each(plan, order, frame) && order.no_duplicates() && order.to_set() == ids
}

/// How many of the offers were refused.
pub open spec fn refused(plan: Seq<Offer>) -> nat
    decreases plan.len(),
{
    if plan.len() == 0 {
        0
    } else {
        refused(plan.drop_last()) + (if plan.last().ok {
            0nat
        } else {
            1nat
        })
    }
}

/// What was offered to one connection.
pub open spec fn offers_to(plan: Seq<Offer>, id: u64) -> Seq<(FrameView, bool)>
    decreases plan.len(),
{
    if plan.len() == 0 {
        Seq::empty()
    } else if plan.last().id == id {
        offers_to(plan.drop_last(), id).push((plan.last().frame, plan.last().ok))
    } else {
        offers_to(plan.drop_last(), id)
    }
}

/// Routes after the first `tried` of them refused a frame and, where `ok`, the next one took it.
pub open spec fn tried_routes(
    routes: Seq<RouteView>,
    frame: FrameView,
    tried: nat,
    ok: bool,
) -> Seq<RouteView> {
    Seq::new(
        routes.len(),
        |i: int|
            if i < tried {
                RouteView { offers: routes[i].offers.push((frame, false)), ..routes[i] }
            } else if i == tried && ok {
                RouteView { offers: routes[i].offers.push((frame, true)), ..routes[i] }
            } else {
                routes[i]
            },
    )
}

/// What queues answered while a packet was routed: how many mesh routes refused it, whether the
/// next one took it, and whether the frame to a client was taken.
pub struct Outcome {
    pub tried: nat,
    pub sent_out: bool,
    pub ok: bool,
}

impl RelayView {
    /// Whether a node is here.
    pub open spec fn here(self, key: Seq<u8>) -> bool {
        self.peers.contains_key(key)
    }

    /// The connections of a node, none where it is not here.
    pub open spec fn list(self, key: Seq<u8>) -> Seq<u64> {
        if self.here(key) {
            self.peers[key]
        } else {
            Seq::empty()
        }
    }

    /// The connection that packets to a node go to: the one active last.
    pub open spec fn active(self, key: Seq<u8>) -> u64 {
        self.peers[key].last()
    }

    /// The routes to a node, none where it is not known in the mesh.
    pub open spec fn routes_to(self, key: Seq<u8>) -> Seq<RouteView> {
        if self.routes.contains_key(key) {
            self.routes[key]
        } else {
            Seq::empty()
        }
    }

    /// The state after one offer.
    pub open spec fn deliver(self, o: Offer) -> RelayView {
        RelayView {
            sessions: self.sessions.insert(o.id, self.sessions[o.id].with_offer(o.frame, o.ok)),
            metrics: if o.ok {
                self.metrics
            } else {
                Metrics { queue_dropped: plus(self.metrics.queue_dropped, 1), ..self.metrics }
            },
            ..self
        }
    }

    /// The state after these offers.
    pub open spec fn offered(self, plan: Seq<Offer>) -> RelayView
        decreases plan.len(),
    {
        if plan.len() == 0 {
            self
        } else {
            self.offered(plan.drop_last()).deliver(plan.last())
        }
    }

    /// Whether a connection is there and has not left.
    pub open spec fn is_connected(self, id: u64) -> bool {
        self.sessions.contains_key(id) && self.sessions[id].connected
    }

    /// The connections that have not left.
    pub open spec fn connected(self) -> Set<u64> {
        self.sessions.dom().filter(|id: u64| self.sessions[id].connected)
    }

    /// The connections with the duplicate mark of one node's set or cleared.
    pub open spec fn marked(self, key: Seq<u8>, duplicate: bool) -> Map<u64, SessionView> {
        self.sessions.map_values(
            |s: SessionView|
                if s.connected && s.key == key {
                    SessionView { duplicate, ..s }
                } else {
                    s
                },
        )
    }

    /// The connection that a joining client gets.
    pub open spec fn fresh(self, j: Joining, now: u64) -> SessionView {
        SessionView {
            id: self.next_id,
            key: j.key,
            endpoint: j.endpoint,
            can_mesh: j.can_mesh,
            can_ack_pings: j.can_ack_pings,
            is_prober: j.is_prober,
            not_ideal: j.not_ideal,
            closed: false,
            duplicate: self.here(j.key),
            preferred: false,
            preferred_seen: false,
            connected: true,
            limiter: PeerGoneLimiter { tokens: (REPORTS * SECOND) as u64, updated: now },
            queue: j.queue,
            room: self.queue_depth as nat,
            offers: Seq::empty(),
        }
    }

    /// The state after a client joined, before anybody is told.
    pub open spec fn joined(self, j: Joining, now: u64) -> RelayView {
        RelayView {
            sessions: (if self.here(j.key) {
                self.marked(j.key, true)
            } else {
                self.sessions
            }).insert(self.next_id, self.fresh(j, now)),
            peers: self.peers.insert(j.key, self.list(j.key).push(self.next_id)),
            next_id: (self.next_id + 1) as u64,
            metrics: Metrics {
                current_clients: plus(self.metrics.current_clients, 1),
                ..self.metrics
            },
            ..self
        }
    }

    /// The connections that share a key once another client has joined with it; none where it is
    /// the only one.
    pub open spec fn duplicates(self, key: Seq<u8>) -> Seq<u64> {
        if self.here(key) {
            self.peers[key].push(self.next_id)
        } else {
            Seq::empty()
        }
    }

    /// Whether `post` is the state after a client joined: it is its node's active connection;
    /// where its key is in use already, all connections of that key are told so; and every
    /// watcher is told of it.
    pub open spec fn registered(self, post: RelayView, j: Joining, now: u64) -> bool {
        exists|health: Seq<Offer>, presence: Seq<Offer>|
            {
                &&& #[trigger] to_each(
                    health,
                    self.duplicates(j.key),
                    FrameView::Health(duplicate_text()),
                )
                &&& #[trigger] to_all(presence, self.watchers, self.fresh(j, now).present_frame())
                &&& post == self.joined(j, now).offered(health).offered(presence)
            }
    }

    /// Which connection becomes its node's active one when a connection is used: that one. Where
    /// it left while its node had others, it is the newest of those that are here.
    pub open spec fn selected(self, id: u64) -> Option<u64> {
        let s = self.sessions[id];
        if self.is_connected(id) {
            Some(id)
        } else if self.sessions.contains_key(id) && s.duplicate && self.here(s.key) {
            Some(newest(self.peers[s.key]))
        } else {
            None
        }
    }

    /// The state after a connection was used: the one that this selects becomes active.
    pub open spec fn active_noted(self, id: u64) -> RelayView {
        match self.selected(id) {
            Some(x) => {
                let key = self.sessions[id].key;
                RelayView {
                    peers: self.peers.insert(key, without(self.peers[key], x).push(x)),
                    ..self
                }
            },
            None => self,
        }
    }

    /// The state after a client said whether this relay is its preferred one. Only a change
    /// counts, and only one after the first report is a move.
    pub open spec fn preferred_noted(self, id: u64, preferred: bool) -> RelayView {
        if self.sessions.contains_key(id) {
            let s = self.sessions[id];
            let m = self.metrics;
            RelayView {
                sessions: self.sessions.insert(
                    id,
                    SessionView { preferred, preferred_seen: true, ..s },
                ),
                metrics: if s.preferred == preferred {
                    m
                } else if preferred {
                    Metrics {
                        preferred_clients: plus(m.preferred_clients, 1),
                        home_moves_in: if s.preferred_seen {
                            plus(m.home_moves_in, 1)
                        } else {
                            m.home_moves_in
                        },
                        ..m
                    }
                } else {
                    Metrics {
                        preferred_clients: less_one(m.preferred_clients),
                        home_moves_out: if s.preferred_seen {
                            plus(m.home_moves_out, 1)
                        } else {
                            m.home_moves_out
                        },
                        ..m
                    }
                },
                ..self
            }
        } else {
            self
        }
    }

    /// The connections that remain of a node when one of them leaves.
    pub open spec fn rest(self, id: u64) -> Seq<u64> {
        without(self.list(self.sessions[id].key), id)
    }

    /// A connection once it has left: it is closed, and prefers no relay.
    pub open spec fn departed(self, id: u64) -> SessionView {
        SessionView { closed: true, preferred: false, connected: false, ..self.sessions[id] }
    }

    /// The state after a connection left, before anybody is told.
    pub open spec fn left(self, id: u64) -> RelayView {
        let s = self.sessions[id];
        let rest = self.rest(id);
        RelayView {
            sessions: (if rest.len() == 1 {
                self.marked(s.key, false)
            } else {
                self.sessions
            }).insert(id, self.departed(id)),
            peers: if rest.len() == 0 {
                self.peers.remove(s.key)
            } else {
                self.peers.insert(s.key, rest)
            },
            paths: if s.connected && rest.len() == 0 {
                self.paths.filter(|p: (Seq<u8>, Seq<u8>)| p.0 != s.key && p.1 != s.key)
            } else {
                self.paths
            },
            watchers: self.watchers.remove(id),
            metrics: Metrics {
                current_clients: less_one(self.metrics.current_clients),
                preferred_clients: if s.preferred {
                    less_one(self.metrics.preferred_clients)
                } else {
                    self.metrics.preferred_clients
                },
                ..self.metrics
            },
            ..self
        }
    }

    /// The active connections of the other nodes that a node has sent packets to.
    pub open spec fn reached_by(self, key: Seq<u8>) -> Set<u64> {
        Set::new(
            |id: u64|
                self.is_connected(id) && self.sessions[id].key != key
                    && self.paths.contains((key, self.sessions[id].key)) && id == self.active(
                    self.sessions[id].key,
                ),
        )
    }

    /// Whether `post` is the state after a connection left. Where one connection of its node
    /// remains, that one's health is cleared. Where none remains, every watcher is told that the
    /// node is gone, and so is every node that it has sent packets to. One that has left already
    /// is counted as leaving again, but no node is gone by it.
    pub open spec fn unregistered(self, post: RelayView, id: u64) -> bool {
        if !self.sessions.contains_key(id) {
            post == self
        } else if self.rest(id).len() > 1 || (!self.sessions[id].connected && self.rest(id).len()
            == 0) {
            post == self.left(id)
        } else if self.rest(id).len() == 1 {
            exists|ok: bool|
                post == #[trigger] self.left(id).deliver(
                    Offer { id: self.rest(id)[0], frame: FrameView::Health(Seq::empty()), ok },
                )
        } else {
            let key = self.sessions[id].key;
            let gone = gone_frame(key, peer_gone_reason::DISCONNECTED);
            exists|watching: Seq<Offer>, reached: Seq<Offer>|
                {
                    &&& #[trigger] to_all(watching, self.watchers.remove(id), gone)
                    &&& #[trigger] to_all(reached, self.reached_by(key), gone)
                    &&& post == self.left(id).offered(watching).offered(reached)
                }
        }
    }

    /// The state with a packet counted that came in.
    pub open spec fn counted(self, len: nat, forwarded: bool) -> RelayView {
        RelayView {
            metrics: Metrics {
                packets_received: plus(self.metrics.packets_received, 1),
                bytes_received: plus(self.metrics.bytes_received, len as u64),
                mesh_forwarded_in: if forwarded {
                    plus(self.metrics.mesh_forwarded_in, 1)
                } else {
                    self.metrics.mesh_forwarded_in
                },
                ..self.metrics
            },
            ..self
        }
    }

    /// The state with the outcome of a delivery noted: where the packet was taken, it is counted
    /// and its path remembered; where not, it is lost.
    pub open spec fn settled(self, src: Seq<u8>, dst: Seq<u8>, len: nat, ok: bool) -> RelayView {
        if ok {
            RelayView {
                paths: self.paths.insert((src, dst)),
                metrics: Metrics {
                    packets_sent: plus(self.metrics.packets_sent, 1),
                    bytes_sent: plus(self.metrics.bytes_sent, len as u64),
                    ..self.metrics
                },
                ..self
            }
        } else {
            RelayView {
                metrics: Metrics {
                    packets_dropped: plus(self.metrics.packets_dropped, 1),
                    ..self.metrics
                },
                ..self
            }
        }
    }

    /// The state after a sender was told that a peer is not here, where the packet asks for that
    /// and the sender has not been told too often.
    pub open spec fn not_here_told(
        self,
        source: u64,
        dst: Seq<u8>,
        packet: Seq<u8>,
        now: u64,
        ok: bool,
    ) -> RelayView {
        if self.sessions.contains_key(source) && is_disco(packet) {
            let s = self.sessions[source];
            let asked = RelayView {
                sessions: self.sessions.insert(
                    source,
                    SessionView { limiter: s.limiter.asked(now), ..s },
                ),
                ..self
            };
            if s.limiter.allows(now) {
                asked.deliver(
                    Offer { id: source, frame: gone_frame(dst, peer_gone_reason::NOT_HERE), ok },
                )
            } else {
                asked
            }
        } else {
            self
        }
    }

    /// The state after a packet was offered to the mesh.
    pub open spec fn sent_to_mesh(
        self,
        src: Seq<u8>,
        dst: Seq<u8>,
        packet: Seq<u8>,
        tried: nat,
        ok: bool,
    ) -> RelayView {
        if self.routes.contains_key(dst) {
            RelayView {
                routes: self.routes.insert(
                    dst,
                    tried_routes(
                        self.routes[dst],
                        FrameView::ForwardPacket { src, dst, packet },
                        tried,
                        ok,
                    ),
                ),
                ..self
            }
        } else {
            self
        }
    }

    /// Whether the mesh can have answered so: routes are tried in turn until one takes the packet.
    pub open spec fn mesh_answers(self, dst: Seq<u8>, tried: nat, ok: bool) -> bool {
        if ok {
            tried < self.routes_to(dst).len()
        } else {
            tried == self.routes_to(dst).len()
        }
    }

    /// The state after a packet was routed, given what the queues answered. A node that is here
    /// gets it on its active connection. For one that is not, the mesh is tried, unless the
    /// packet came from there; failing that, the packet is lost and its sender may be told.
    pub open spec fn routed_with(
        self,
        source: u64,
        src: Seq<u8>,
        dst: Seq<u8>,
        packet: Seq<u8>,
        forwarded: bool,
        now: u64,
        o: Outcome,
    ) -> RelayView {
        let counted = self.counted(packet.len(), forwarded);
        if self.here(dst) {
            counted.deliver(
                Offer {
                    id: self.active(dst),
                    frame: FrameView::RecvPacket { src, packet },
                    ok: o.ok,
                },
            ).settled(src, dst, packet.len(), o.ok)
        } else {
            let tried = if forwarded {
                counted
            } else {
                counted.sent_to_mesh(src, dst, packet, o.tried, o.sent_out)
            };
            if !forwarded && o.sent_out {
                RelayView {
                    metrics: Metrics {
                        mesh_forwarded_out: plus(tried.metrics.mesh_forwarded_out, 1),
                        ..tried.metrics
                    },
                    ..tried
                }
            } else {
                RelayView {
                    metrics: Metrics {
                        packets_dropped: plus(tried.metrics.packets_dropped, 1),
                        ..tried.metrics
                    },
                    ..tried
                }.not_here_told(source, dst, packet, now, o.ok)
            }
        }
    }

    /// Whether `post` is the state after a packet was routed.
    pub open spec fn routed(
        self,
        post: RelayView,
        source: u64,
        src: Seq<u8>,
        dst: Seq<u8>,
        packet: Seq<u8>,
        forwarded: bool,
        now: u64,
    ) -> bool {
        exists|o: Outcome|
            {
                &&& !self.here(dst) && !forwarded ==> self.mesh_answers(dst, o.tried, o.sent_out)
                &&& post == #[trigger] self.routed_with(
                    source,
                    src,
                    dst,
                    packet,
                    forwarded,
                    now,
                    o,
                )
            }
    }

    /// The state after a way to a node through the mesh became known. A mesh connection is one
    /// way to a node, however often it is announced.
    pub open spec fn route_added(
        self,
        mesh_id: u64,
        peer: Seq<u8>,
        queue: int,
        offers: Seq<(FrameView, bool)>,
    ) -> RelayView {
        if exists|i: int|
            0 <= i < self.routes_to(peer).len() && (#[trigger] self.routes_to(peer)[i]).mesh_id
                == mesh_id {
            self
        } else {
            RelayView {
                routes: self.routes.insert(
                    peer,
                    self.routes_to(peer).push(RouteView { mesh_id, queue, offers }),
                ),
                ..self
            }
        }
    }

    /// The routes to a node that do not go through a mesh connection.
    pub open spec fn other_routes(self, mesh_id: u64, peer: Seq<u8>) -> Seq<RouteView> {
        self.routes_to(peer).filter(|r: RouteView| r.mesh_id != mesh_id)
    }

    /// The state after a way to a node through the mesh was lost.
    pub open spec fn route_removed(self, mesh_id: u64, peer: Seq<u8>) -> RelayView {
        RelayView {
            routes: if self.other_routes(mesh_id, peer).len() == 0 {
                self.routes.remove(peer)
            } else {
                self.routes.insert(peer, self.other_routes(mesh_id, peer))
            },
            ..self
        }
    }

    /// The state after a mesh connection ended: no way leads through it.
    pub open spec fn mesh_removed(self, mesh_id: u64) -> RelayView {
        RelayView {
            routes: Map::new(
                |k: Seq<u8>|
                    self.routes.contains_key(k) && self.other_routes(mesh_id, k).len() > 0,
                |k: Seq<u8>| self.other_routes(mesh_id, k),
            ),
            ..self
        }
    }

    /// Whether the offers announce each node that is here to a watcher, once, in some order.
    pub open spec fn announces_all(self, plan: Seq<Offer>, watcher: u64) -> bool {
        exists|order: Seq<Seq<u8>>|
            {
                &&& #[trigger] self.announces(plan, watcher, order)
                &&& order.no_duplicates()
                &&& order.to_set() == self.peers.dom()
            }
    }

    /// Whether the offers announce these nodes to a watcher, in this order.
    pub open spec fn announces(self, plan: Seq<Offer>, watcher: u64, order: Seq<Seq<u8>>) -> bool {
        &&& plan.len() == order.len()
        &&& forall|i: int|
            0 <= i < plan.len() ==> (#[trigger] plan[i]).id == watcher && plan[i].frame
                == self.sessions[self.active(order[i])].present_frame()
    }

    /// Whether `post` is the state after a connection asked to be told who comes and goes: it is
    /// told who is here.
    pub open spec fn watched(self, post: RelayView, id: u64) -> bool {
        exists|plan: Seq<Offer>|
            {
                &&& #[trigger] self.announces_all(plan, id)
                &&& post == RelayView { watchers: self.watchers.insert(id), ..self }.offered(plan)
            }
    }

    /// Whether a connection is there and part of the mesh.
    pub open spec fn may_mesh(self, id: u64) -> bool {
        self.sessions.contains_key(id) && self.sessions[id].can_mesh
    }

    /// The state with all connections of a node asked to close.
    pub open spec fn peer_closed(self, key: Seq<u8>) -> RelayView {
        RelayView {
            sessions: self.sessions.map_values(
                |s: SessionView|
                    if s.connected && s.key == key {
                        SessionView { closed: true, ..s }
                    } else {
                        s
                    },
            ),
            ..self
        }
    }

    /// The state after a connection that has left was released. One that is still needed, by its
    /// node or as a watcher, stays.
    pub open spec fn released(self, id: u64) -> RelayView {
        if self.sessions.contains_key(id) && !self.sessions[id].connected
            && !self.watchers.contains(id) {
            RelayView { sessions: self.sessions.remove(id), ..self }
        } else {
            self
        }
    }

    /// Whether `post` is the state after every connection was told of a restart.
    pub open spec fn restart_told(
        self,
        post: RelayView,
        reconnect_in_ms: u32,
        try_for_ms: u32,
    ) -> bool {
        exists|plan: Seq<Offer>|
            {
                &&& #[trigger] to_all(
                    plan,
                    self.connected(),
                    FrameView::Restarting { reconnect_in_ms, try_for_ms },
                )
                &&& post == self.offered(plan)
            }
    }

    /// Whether a connection is where it belongs: under its number and, until it leaves, in its
    /// node's list, and marked as a duplicate exactly where that list has others.
    pub open spec fn session_ok(self, id: u64) -> bool {
        let s = self.sessions[id];
        &&& s.id == id
        &&& id < self.next_id
        &&& s.connected ==> {
            &&& self.here(s.key)
            &&& self.peers[s.key].contains(id)
            &&& s.duplicate == (self.peers[s.key].len() > 1)
        }
    }

    /// Whether a node's list has connections, each once, and only its own.
    pub open spec fn list_ok(self, key: Seq<u8>) -> bool {
        let list = self.peers[key];
        &&& list.len() > 0
        &&& list.no_duplicates()
        &&& forall|i: int|
            0 <= i < list.len() ==> self.sessions.contains_key(#[trigger] list[i])
                && self.sessions[list[i]].key == key && self.sessions[list[i]].connected
    }

    /// Whether there are routes, one for each mesh connection.
    pub open spec fn routes_ok(self, key: Seq<u8>) -> bool {
        let routes = self.routes[key];
        &&& routes.len() > 0
        &&& forall|i: int, j: int|
            0 <= i < j < routes.len() ==> (#[trigger] routes[i]).mesh_id != (
            #[trigger] routes[j]).mesh_id
    }

    /// The invariant of the relay.
    pub open spec fn wf(self) -> bool {
        &&& self.sessions.dom().finite()
        &&& self.peers.dom().finite()
        &&& forall|id: u64| #[trigger] self.sessions.contains_key(id) ==> self.session_ok(id)
        &&& forall|k: Seq<u8>| #[trigger] self.peers.contains_key(k) ==> self.list_ok(k)
        &&& forall|id: u64| #[trigger] self.watchers.contains(id) ==> self.may_mesh(id)
        &&& forall|p: (Seq<u8>, Seq<u8>)| #[trigger] self.paths.contains(p) ==> self.here(p.1)
        &&& forall|k: Seq<u8>| #[trigger] self.routes.contains_key(k) ==> self.routes_ok(k)
        &&& self.queue_depth > 0
    }
}

/// Whether two states differ at most in what was offered to connections and in the count of
/// refused offers.
pub open spec fn same_but_offers(a: RelayView, b: RelayView) -> bool {
    &&& b.sessions.dom() == a.sessions.dom()
    &&& forall|id: u64| #[trigger]
        a.sessions.contains_key(id) ==> SessionView {
            offers: a.sessions[id].offers,
            ..b.sessions[id]
        } == a.sessions[id]
    &&& b == RelayView {
        sessions: b.sessions,
        metrics: Metrics { queue_dropped: b.metrics.queue_dropped, ..a.metrics },
        ..a
    }
}

/// Whether the offers go to connections that are there.
pub open spec fn plan_ok(v: RelayView, plan: Seq<Offer>) -> bool {
    forall|i: int| 0 <= i < plan.len() ==> v.sessions.contains_key((#[trigger] plan[i]).id)
}

/// Offers change nothing but what they say, and do not disturb the invariant.
pub proof fn lemma_offered(v: RelayView, plan: Seq<Offer>)
    requires
        plan_ok(v, plan),
    ensures
        same_but_offers(v, v.offered(plan)),
        v.wf() ==> v.offered(plan).wf(),
    decreases plan.len(),
{
    if plan.len() > 0 {
        let before = plan.drop_last();
        assert forall|i: int| 0 <= i < before.len() implies v.sessions.contains_key(
            (#[trigger] before[i]).id,
        ) by {
            assert(v.sessions.contains_key(plan[i].id));
        }
        lemma_offered(v, before);
        let m = v.offered(before);
        let w = v.offered(plan);
        assert(v.sessions.contains_key(plan[plan.len() - 1].id));
        assert(w.sessions.dom() =~= v.sessions.dom());
    }
    lemma_wf_same_but_offers(v, v.offered(plan));
}

/// The invariant does not speak of offers.
pub proof fn lemma_wf_same_but_offers(a: RelayView, b: RelayView)
    requires
        same_but_offers(a, b),
    ensures
        a.wf() ==> b.wf(),
{
    if a.wf() {
        assert forall|id: u64| #[trigger] b.sessions.contains_key(id) implies b.session_ok(id) by {
            assert(a.sessions.contains_key(id));
            assert(a.session_ok(id));
        }
        assert forall|k: Seq<u8>| #[trigger] b.peers.contains_key(k) implies b.list_ok(k) by {
            assert(a.list_ok(k));
            let list = b.peers[k];
            assert forall|i: int| 0 <= i < list.len() implies b.sessions.contains_key(
                #[trigger] list[i],
            ) && b.sessions[list[i]].key == k && b.sessions[list[i]].connected by {
                assert(a.sessions.contains_key(list[i]));
            }
        }
        assert forall|id: u64| #[trigger] b.watchers.contains(id) implies b.may_mesh(id) by {
            assert(a.may_mesh(id));
        }
        assert forall|k: Seq<u8>| #[trigger] b.routes.contains_key(k) implies b.routes_ok(k) by {
            assert(a.routes_ok(k));
        }
    }
}

/// Offers add to a connection's history what they offer it, and nothing else; those that are
/// refused are counted.
pub proof fn law_offers_are_recorded(v: RelayView, plan: Seq<Offer>, id: u64)
    requires
        plan_ok(v, plan),
        v.sessions.contains_key(id),
    ensures
        v.offered(plan).sessions[id].offers == v.sessions[id].offers + offers_to(plan, id),
        v.offered(plan).metrics.queue_dropped == plus(
            v.metrics.queue_dropped,
            (refused(plan) % 0x1_0000_0000_0000_0000) as u64,
        ),
    decreases plan.len(),
{
    if plan.len() > 0 {
        let before = plan.drop_last();
        assert forall|i: int| 0 <= i < before.len() implies v.sessions.contains_key(
            (#[trigger] before[i]).id,
        ) by {
            assert(v.sessions.contains_key(plan[i].id));
        }
        law_offers_are_recorded(v, before, id);
        lemma_offered(v, before);
        assert(v.sessions.contains_key(plan[plan.len() - 1].id));
        assert(v.offered(plan).sessions[id].offers =~= v.sessions[id].offers + offers_to(plan, id));
    } else {
        assert(v.sessions[id].offers + offers_to(plan, id) =~= v.sessions[id].offers);
    }
}

/// Leaving one item out of a list without repetitions: the others stay, each once.
pub proof fn lemma_without(list: Seq<u64>, id: u64)
    requires
        list.no_duplicates(),
    ensures
        without(list, id).no_duplicates(),
        !without(list, id).contains(id),
        forall|x: u64| x != id ==> #[trigger] without(list, id).contains(x) == list.contains(x),
        without(list, id).len() == list.len() - (if list.contains(id) {
            1int
        } else {
            0int
        }),
        !list.contains(id) ==> without(list, id) == list,
    decreases list.len(),
{
    let p = |x: u64| x != id;
    reveal(Seq::filter);
    if list.len() == 0 {
        assert(without(list, id) =~= list);
    } else {
        let init = list.drop_last();
        let last = list.last();
        assert(init.no_duplicates()) by {
            assert forall|i: int, j: int|
                0 <= i < init.len() && 0 <= j < init.len() && i != j implies init[i] != init[j] by {
                assert(list[i] != list[j]);
            }
        }
        lemma_without(init, id);
        let w = without(init, id);
        assert(!init.contains(last)) by {
            if init.contains(last) {
                let i = choose|i: int| 0 <= i < init.len() && init[i] == last;
                assert(list[i] != list[list.len() - 1]);
            }
        }
        assert forall|x: u64| #[trigger] list.contains(x) == (init.contains(x) || x == last) by {
            if list.contains(x) {
                let i = choose|i: int| 0 <= i < list.len() && list[i] == x;
                if i < init.len() {
                    assert(init[i] == x);
                }
            }
            if init.contains(x) {
                let i = choose|i: int| 0 <= i < init.len() && init[i] == x;
                assert(list[i] == x);
            }
            if x == last {
                assert(list[list.len() - 1] == x);
            }
        }
        let all = without(list, id);
        if last != id {
            assert(all == w.push(last));
            assert(!w.contains(last));
            assert forall|x: u64| #[trigger] all.contains(x) == (w.contains(x) || x == last) by {
                if w.contains(x) {
                    let i = choose|i: int| 0 <= i < w.len() && w[i] == x;
                    assert(all[i] == x);
                }
                if x == last {
                    assert(all[w.len() as int] == x);
                }
            }
            assert forall|i: int, j: int|
                0 <= i < all.len() && 0 <= j < all.len() && i != j implies all[i] != all[j] by {
                if i < w.len() {
                    assert(w.contains(w[i]));
                }
                if j < w.len() {
                    assert(w.contains(w[j]));
                }
            }
            assert(!list.contains(id) ==> all =~= list);
        } else {
            assert(all == w);
        }
        assert forall|x: u64| x != id implies #[trigger] all.contains(x) == list.contains(x) by {
            assert(w.contains(x) == init.contains(x));
        }
    }
}

} // verus!
