//! Where packets go: to a connection, to the mesh, or nowhere.

use bytes::Bytes;
use tokio::sync::mpsc::Sender;
use vstd::prelude::*;

use crate::crypto::NodeKey;
use crate::index::{
    lists_keys, paths_note, paths_view, routes_keys_of, routes_put, routes_take, routes_view,
    singles_get, MeshRoute,
};
use crate::metrics::Metrics;
use crate::protocol::{Frame, FrameView};
use crate::queue::{offer, offers, queue_of};
use crate::relay::{
    lemma_listed_step, lemma_sessions_insert, lemma_sessions_remove, listed_key, pairs, route_view,
    route_views, Relay, SessionId,
};
use crate::relay::model::{lemma_offered, tried_routes, Offer, Outcome, RelayView, RouteView};
use crate::relay::upkeep::{
    lemma_active, lemma_route_added, lemma_route_removed, lemma_routes_kept,
    lemma_sessions_changed, lemma_tried,
};
use crate::wire::{bytes_as_slice, bytes_view};

verus! {

impl Relay {
    /// Notes the outcome of a delivery to a node that is here: where its queue took the packet, it
    /// is counted and its path remembered, so that the receiver is told when the sender is gone;
    /// where not, it is lost.
    pub fn settle_delivery(&mut self, src: NodeKey, dst: NodeKey, len: usize, accepted: bool)
        requires
            old(self).wf(),
            old(self)@.here(dst@),
        ensures
            final(self).wf(),
            final(self)@ == old(self)@.settled(src@, dst@, len as nat, accepted),
    {
        let ghost pre = self@;
        if accepted {
            Metrics::inc(&mut self.metrics.packets_sent, 1);
            Metrics::inc(&mut self.metrics.bytes_sent, len as u64);
            let ghost before = paths_view(self.reverse_paths);
            paths_note(&mut self.reverse_paths, src.as_bytes(), dst.as_bytes());
            proof {
                assert(pairs(paths_view(self.reverse_paths)) =~= pairs(before).insert(
                    (src@, dst@),
                ));
            }
        } else {
            Metrics::inc(&mut self.metrics.packets_dropped, 1);
        }
        proof {
            assert(self@ =~= pre.settled(src@, dst@, len as nat, accepted));
            lemma_routes_kept(pre, self@);
            lemma_sessions_changed(pre, self@);
        }
    }

    /// Tells a connection that a peer is not here, where the packet to it looks like a wrapped
    /// disco message and the connection has not been told too often.
    fn tell_not_here(&mut self, source: u64, dst: NodeKey, packet: &Bytes, now: u64) -> (r: bool)
        requires
            old(self).wf(),
        ensures
            final(self).wf(),
            final(self)@ == old(self)@.not_here_told(source, dst@, bytes_view(*packet), now, r),
    {
        let ghost pre = self@;
        match self.sessions.remove(&source) {
            Some(mut s) => {
                proof {
                    assert(pre.sessions.contains_key(source));
                    lemma_sessions_remove(old(self).sessions@, source);
                }
                let r = s.send_peer_not_here(dst, bytes_as_slice(packet), now, &mut self.metrics);
                proof {
                    lemma_sessions_insert(self.sessions@, source, s);
                }
                self.sessions.insert(source, s);
                proof {
                    let post = pre.not_here_told(source, dst@, bytes_view(*packet), now, r);
                    assert(self@.sessions =~= post.sessions);
                    assert(self@ =~= post);
                    assert(post.sessions.dom() =~= pre.sessions.dom());
                    lemma_routes_kept(pre, self@);
                    lemma_sessions_changed(pre, post);
                }
                r
            },
            None => {
                proof {
                    assert(self@ =~= pre);
                }
                true
            },
        }
    }

    /// Offers a packet to the routes to a node in turn, until one takes it.
    fn forward_to_mesh(&mut self, src: NodeKey, dst: NodeKey, packet: &Bytes) -> (r: bool)
        requires
            old(self).wf(),
        ensures
            final(self).wf(),
            exists|tried: nat|
                old(self)@.mesh_answers(dst@, tried, r) && final(self)@
                    == #[trigger] old(self)@.sent_to_mesh(
                    src@,
                    dst@,
                    bytes_view(*packet),
                    tried,
                    r,
                ),
    {
        let ghost pre = self@;
        let mut routes = match routes_take(&mut self.mesh_routes, dst.as_bytes()) {
            Some(routes) => routes,
            None => {
                proof {
                    assert(self@.routes =~= pre.routes);
                    assert(self@ == pre.sent_to_mesh(
                        src@,
                        dst@,
                        bytes_view(*packet),
                        0,
                        false,
                    ));
                }
                return false;
            },
        };
        let ghost before = routes@;
        let ghost frame_view = FrameView::ForwardPacket {
            src: src@,
            dst: dst@,
            packet: bytes_view(*packet),
        };
        let ghost old_views = route_views(before);
        proof {
            assert(pre.routes.contains_key(dst@));
            assert(old_views == pre.routes[dst@]);
        }
        let mut i: usize = 0;
        let mut taken = false;
        while i < routes.len() && !taken
            invariant
                i <= routes.len(),
                routes@.len() == before.len(),
                taken ==> i < routes.len(),
                old_views == route_views(before),
                frame_view == (FrameView::ForwardPacket {
                    src: src@,
                    dst: dst@,
                    packet: bytes_view(*packet),
                }),
                route_views(routes@) =~= tried_routes(
                    old_views,
                    frame_view,
                    i as nat,
                    taken,
                ),
            decreases routes.len() - i + (if taken {
                0int
            } else {
                1int
            }),
        {
            let ghost then = routes@;
            let frame = Frame::ForwardPacket { src, dst, packet: packet.clone() };
            let mut route = routes.remove(i);
            let ok = offer(&mut route.tx, frame);
            routes.insert(i, route);
            proof {
                assert(routes@ =~= then.update(i as int, route));
                assert(route_views(then)[i as int] == old_views[i as int]);
                assert(route_views(routes@) =~= route_views(then).update(
                    i as int,
                    route_view(route),
                ));
            }
            if ok {
                taken = true;
            } else {
                i += 1;
            }
        }
        let ghost after = routes@;
        routes_put(&mut self.mesh_routes, dst.as_bytes(), routes);
        proof {
            let post = pre.sent_to_mesh(src@, dst@, bytes_view(*packet), i as nat, taken);
            assert(pre.mesh_answers(dst@, i as nat, taken));
            assert(self@.routes =~= post.routes);
            assert(self@ =~= post);
            lemma_tried(pre, post, dst@, frame_view, i as nat, taken);
            lemma_sessions_changed(pre, post);
        }
        taken
    }

    /// Routes a packet. A node that is here gets it on its active connection. For one that is
    /// not, the mesh is tried, unless the packet came from there; failing that, the packet is
    /// lost and its sender may be told.
    pub fn route(
        &mut self,
        source: SessionId,
        src: NodeKey,
        dst: NodeKey,
        packet: Bytes,
        forwarded: bool,
        now: u64,
    )
        requires
            old(self).wf(),
        ensures
            final(self).wf(),
            old(self)@.routed(
                final(self)@,
                source,
                src@,
                dst@,
                bytes_view(packet),
                forwarded,
                now,
            ),
    {
        let ghost pre = self@;
        let ghost data = bytes_view(packet);
        let len = bytes_as_slice(&packet).len();
        Metrics::inc(&mut self.metrics.packets_received, 1);
        Metrics::inc(&mut self.metrics.bytes_received, len as u64);
        if forwarded {
            Metrics::inc(&mut self.metrics.mesh_forwarded_in, 1);
        }
        let ghost counted = pre.counted(data.len(), forwarded);
        proof {
            assert(self@ =~= counted);
            lemma_routes_kept(pre, counted);
            lemma_sessions_changed(pre, counted);
        }
        match singles_get(&self.active, dst.as_bytes()) {
            Some(id) => {
                proof {
                    lemma_active(pre, dst@);
                }
                let ok = self.offer_to(id, Frame::RecvPacket { src, packet });
                proof {
                    let o = Offer {
                        id,
                        frame: FrameView::RecvPacket { src: src@, packet: data },
                        ok,
                    };
                    let plan = seq![o];
                    assert(plan.drop_last() =~= Seq::empty());
                    assert(counted.offered(plan.drop_last()) == counted);
                    assert(counted.offered(plan) == counted.deliver(o));
                    lemma_offered(counted, plan);
                }
                self.settle_delivery(src, dst, len, ok);
                proof {
                    let o = Outcome { tried: 0, sent_out: false, ok };
                    assert(self@ == pre.routed_with(source, src@, dst@, data, forwarded, now, o));
                }
            },
            None => {
                let mut sent_out = false;
                let ghost mut tried: nat = 0;
                if !forwarded {
                    sent_out = self.forward_to_mesh(src, dst, &packet);
                    proof {
                        tried = choose|tried: nat|
                            counted.mesh_answers(dst@, tried, sent_out) && self@
                                == #[trigger] counted.sent_to_mesh(
                                src@,
                                dst@,
                                data,
                                tried,
                                sent_out,
                            );
                    }
                }
                let ghost mid = self@;
                if sent_out {
                    Metrics::inc(&mut self.metrics.mesh_forwarded_out, 1);
                    proof {
                        let o = Outcome { tried, sent_out, ok: false };
                        let post = pre.routed_with(source, src@, dst@, data, forwarded, now, o);
                        assert(self@ =~= post);
                        lemma_routes_kept(mid, self@);
                        lemma_sessions_changed(mid, self@);
                    }
                } else {
                    Metrics::inc(&mut self.metrics.packets_dropped, 1);
                    proof {
                        lemma_routes_kept(mid, self@);
                        lemma_sessions_changed(mid, self@);
                    }
                    let ok = self.tell_not_here(source, dst, &packet, now);
                    proof {
                        let o = Outcome { tried, sent_out, ok };
                        let post = pre.routed_with(source, src@, dst@, data, forwarded, now, o);
                        assert(self@ =~= post);
                    }
                }
            },
        }
    }

    /// Notes a way to a node through a mesh connection. A mesh connection is one way to a node,
    /// however often it is announced.
    pub fn add_mesh_route(&mut self, mesh_id: u64, peer: NodeKey, tx: Sender<Frame>)
        requires
            old(self).wf(),
        ensures
            final(self).wf(),
            final(self)@ == old(self)@.route_added(mesh_id, peer@, queue_of(tx), offers(tx)),
    {
        let ghost pre = self@;
        proof {
            lemma_route_added(pre, mesh_id, peer@, queue_of(tx), offers(tx));
        }
        let mut routes = match routes_take(&mut self.mesh_routes, peer.as_bytes()) {
            Some(routes) => routes,
            None => Vec::new(),
        };
        let ghost views = route_views(routes@);
        proof {
            assert(views =~= pre.routes_to(peer@));
        }
        let mut known = false;
        let mut i: usize = 0;
        while i < routes.len()
            invariant
                i <= routes.len(),
                views == route_views(routes@),
                known == exists|j: int| 0 <= j < i && (#[trigger] views[j]).mesh_id == mesh_id,
            decreases routes.len() - i,
        {
            if routes[i].mesh_id == mesh_id {
                known = true;
                proof {
                    assert(views[i as int].mesh_id == mesh_id);
                }
            }
            i += 1;
        }
        if !known {
            routes.push(MeshRoute { mesh_id, tx });
        }
        let ghost after = route_views(routes@);
        routes_put(&mut self.mesh_routes, peer.as_bytes(), routes);
        proof {
            let post = pre.route_added(mesh_id, peer@, queue_of(tx), offers(tx));
            assert(after =~= post.routes[peer@]);
            assert(self@.routes =~= post.routes);
            assert(self@ =~= post);
        }
    }

    /// Forgets the way to a node through a mesh connection.
    pub fn remove_mesh_route(&mut self, mesh_id: u64, peer: NodeKey)
        requires
            old(self).wf(),
        ensures
            final(self).wf(),
            final(self)@ == old(self)@.route_removed(mesh_id, peer@),
    {
        self.drop_routes(mesh_id, peer.as_bytes());
    }

    fn drop_routes(&mut self, mesh_id: u64, peer: &[u8; 32])
        requires
            old(self).wf(),
        ensures
            final(self).wf(),
            final(self)@ == old(self)@.route_removed(mesh_id, peer@),
    {
        let ghost pre = self@;
        proof {
            lemma_route_removed(pre, mesh_id, peer@);
        }
        let routes = match routes_take(&mut self.mesh_routes, peer) {
            Some(routes) => routes,
            None => {
                proof {
                    reveal(Seq::filter);
                    assert(pre.other_routes(mesh_id, peer@).len() == 0);
                    assert(self@.routes =~= pre.route_removed(mesh_id, peer@).routes);
                    assert(self@ =~= pre.route_removed(mesh_id, peer@));
                }
                return ;
            },
        };
        let ghost views = route_views(routes@);
        proof {
            assert(pre.routes.contains_key(peer@));
            assert(views == pre.routes[peer@]);
        }
        let kept = keep_others(routes, mesh_id);
        let ghost kept_views = route_views(kept@);
        proof {
            assert(kept_views == pre.other_routes(mesh_id, peer@));
        }
        if kept.len() > 0 {
            routes_put(&mut self.mesh_routes, peer, kept);
        }
        proof {
            let post = pre.route_removed(mesh_id, peer@);
            assert(self@.routes =~= post.routes);
            assert(self@ =~= post);
        }
    }

    /// Forgets every way through a mesh connection.
    pub fn remove_mesh(&mut self, mesh_id: u64)
        requires
            old(self).wf(),
        ensures
            final(self).wf(),
            final(self)@ == old(self)@.mesh_removed(mesh_id),
    {
        let ghost pre = self@;
        let peers = routes_keys_of(&self.mesh_routes);
        proof {
            assert(routes_view(self.mesh_routes).dom() =~= pre.routes.dom());
        }
        let mut i: usize = 0;
        while i < peers.len()
            invariant
                i <= peers.len(),
                self.wf(),
                lists_keys(peers@, pre.routes.dom()),
                self@ == (RelayView { routes: self@.routes, ..pre }),
                forall|k: Seq<u8>| #[trigger]
                    self@.routes.contains_key(k) == (pre.routes.contains_key(k) && (listed_key(
                        peers@.take(i as int),
                        k,
                    ) ==> pre.other_routes(mesh_id, k).len() > 0)),
                forall|k: Seq<u8>| #[trigger]
                    self@.routes.contains_key(k) ==> self@.routes[k] == (if listed_key(
                        peers@.take(i as int),
                        k,
                    ) {
                        pre.other_routes(mesh_id, k)
                    } else {
                        pre.routes[k]
                    }),
            decreases peers.len() - i,
        {
            let ghost then = self@;
            let ghost peer = peers@[i as int]@;
            proof {
                lemma_listed_step(peers@, i as int);
                assert(pre.routes.dom().contains(peer));
                assert(!listed_key(peers@.take(i as int), peer)) by {
                    if listed_key(peers@.take(i as int), peer) {
                        let j = choose|j: int|
                            0 <= j < i && #[trigger] peers@.take(i as int)[j]@ == peer;
                        assert(peers@[j]@ == peer);
                    }
                }
                assert(then.routes.contains_key(peer));
                assert(then.other_routes(mesh_id, peer) == pre.other_routes(mesh_id, peer));
            }
            self.drop_routes(mesh_id, &peers[i]);
            i += 1;
        }
        proof {
            assert(peers@.take(i as int) =~= peers@);
            assert forall|k: Seq<u8>| pre.routes.contains_key(k) implies #[trigger] listed_key(
                peers@,
                k,
            ) by {
                assert(pre.routes.dom().contains(k));
            }
            assert(self@.routes =~= pre.mesh_removed(mesh_id).routes);
            assert(self@ =~= pre.mesh_removed(mesh_id));
        }
    }
}

/// The routes that do not go through a mesh connection.
fn keep_others(routes: Vec<MeshRoute>, mesh_id: u64) -> (r: Vec<MeshRoute>)
    ensures
        route_views(r@) == route_views(routes@).filter(|r: RouteView| r.mesh_id != mesh_id),
{
    let ghost views = route_views(routes@);
    let ghost mut k: int = 0;
    let mut kept = routes;
    let mut i: usize = 0;
    proof {
        reveal(Seq::filter);
        assert(views.take(0) =~= Seq::empty());
        assert(views.take(0).filter(|r: RouteView| r.mesh_id != mesh_id) =~= Seq::empty());
        assert(route_views(kept@) =~= Seq::empty() + views.skip(0));
    }
    while i < kept.len()
        invariant
            0 <= k <= views.len(),
            i == views.take(k).filter(|r: RouteView| r.mesh_id != mesh_id).len(),
            route_views(kept@) =~= views.take(k).filter(
                |r: RouteView| r.mesh_id != mesh_id,
            ) + views.skip(k),
        decreases kept.len() - i,
    {
        let ghost f = |r: RouteView| r.mesh_id != mesh_id;
        let ghost now = route_views(kept@);
        let ghost done = views.take(k).filter(f);
        proof {
            reveal(Seq::filter);
            assert(now[i as int] == views.skip(k)[0]);
            assert(views.take(k + 1).drop_last() =~= views.take(k));
            assert(views.take(k + 1).last() == views[k]);
            assert(views.skip(k)[0] == views[k]);
        }
        if kept[i].mesh_id == mesh_id {
            let ghost held = kept@;
            let gone = kept.remove(i);
            proof {
                let after = route_views(kept@);
                assert(after =~= now.remove(i as int));
                assert(views.take(k + 1).filter(f) == done);
                assert(after =~= done + views.skip(k + 1));
            }
        } else {
            i += 1;
            proof {
                assert(views.take(k + 1).filter(f) == done.push(views[k]));
                assert(now =~= done.push(views[k]) + views.skip(k + 1));
            }
        }
        proof {
            k = k + 1;
        }
    }
    proof {
        assert(k == views.len());
        assert(views.take(k) =~= views);
        assert(views.skip(k) =~= Seq::empty());
    }
    kept
}

} // verus!
