//! What connections are told and asked: who is here, to close, that the server restarts.

use vstd::prelude::*;

use crate::crypto::NodeKey;
use crate::index::{ids_add, ids_has, lists_get, lists_keys, lists_keys_of, singles_get};
use crate::metrics::{plus, prometheus_text, Metrics};
use crate::protocol::Frame;
use crate::relay::{
    lemma_listed_step, lemma_sessions_insert, lemma_sessions_remove, listed_key, Relay, SessionId,
};
use crate::relay::model::{lemma_offered, plan_ok, to_all, to_each, Offer, RelayView, SessionView};
use crate::relay::upkeep::{
    lemma_active, lemma_listed, lemma_push_contains, lemma_released, lemma_routes_kept,
    lemma_sessions_changed, lemma_watching,
};

verus! {

impl Relay {
    /// Whether a connection is part of the mesh.
    pub fn is_mesh_member(&self, id: SessionId) -> (r: bool)
        ensures
            r == self@.may_mesh(id),
    {
        match self.sessions.get(&id) {
            Some(s) => s.can_mesh,
            None => false,
        }
    }

    /// Tells a mesh member from now on who comes and goes, and at once who is here. Nobody else
    /// may watch.
    pub fn watch(&mut self, watcher: SessionId) -> (r: bool)
        requires
            old(self).wf(),
        ensures
            final(self).wf(),
            r == old(self)@.may_mesh(watcher),
            r ==> old(self)@.watched(final(self)@, watcher),
            !r ==> final(self)@ == old(self)@,
    {
        let ghost pre = self@;
        if !self.is_mesh_member(watcher) {
            return false;
        }
        ids_add(&mut self.watchers, watcher);
        let ghost base = self@;
        proof {
            assert(base =~= RelayView { watchers: pre.watchers.insert(watcher), ..pre });
            lemma_watching(pre, watcher);
        }
        let keys = lists_keys_of(&self.peers);
        let ghost order = Seq::new(keys@.len(), |i: int| keys@[i]@);
        let ghost mut plan: Seq<Offer> = Seq::empty();
        let mut i: usize = 0;
        while i < keys.len()
            invariant
                i <= keys.len(),
                self.wf(),
                base.wf(),
                base == (RelayView { watchers: pre.watchers.insert(watcher), ..pre }),
                base.sessions.contains_key(watcher),
                lists_keys(keys@, base.peers.dom()),
                order == Seq::new(keys@.len(), |i: int| keys@[i]@),
                plan_ok(base, plan),
                self@ == base.offered(plan),
                pre.announces(plan, watcher, order.take(i as int)),
            decreases keys.len() - i,
        {
            let ghost then = self@;
            let ghost before = plan;
            let ghost key = keys@[i as int]@;
            proof {
                lemma_offered(base, plan);
                assert(base.peers.dom().contains(key));
                lemma_active(base, key);
                lemma_active(then, key);
            }
            if let Some(id) = singles_get(&self.active, &keys[i]) {
                if let Some(s) = self.sessions.get(&id) {
                    let frame = s.present_frame();
                    proof {
                        assert(id == base.active(key));
                        assert(frame@ == base.sessions[id].present_frame());
                    }
                    let ok = self.offer_to(watcher, frame);
                    proof {
                        let o = Offer { id: watcher, frame: frame@, ok };
                        plan = before.push(o);
                        assert(plan.drop_last() =~= before);
                        assert(plan.last() == o);
                        assert forall|j: int| 0 <= j < plan.len() implies base.sessions.contains_key(
                            (#[trigger] plan[j]).id,
                        ) by {
                            if j < before.len() {
                                assert(plan[j] == before[j]);
                            }
                        }
                        lemma_offered(base, plan);
                        let next = order.take(i + 1);
                        assert forall|j: int| 0 <= j < plan.len() implies (#[trigger] plan[j]).id
                            == watcher && plan[j].frame == pre.sessions[pre.active(
                            next[j],
                        )].present_frame() by {
                            if j < before.len() {
                                assert(plan[j] == before[j]);
                                assert(next[j] == order.take(i as int)[j]);
                            }
                        }
                    }
                }
            }
            i += 1;
        }
        proof {
            assert(order.take(i as int) =~= order);
            assert(order.no_duplicates());
            assert(order.to_set() =~= pre.peers.dom()) by {
                assert forall|k: Seq<u8>| #[trigger] order.to_set().contains(k)
                    == pre.peers.dom().contains(k) by {
                    if pre.peers.dom().contains(k) {
                        let j = choose|j: int| 0 <= j < keys@.len() && #[trigger] keys@[j]@ == k;
                        assert(order[j] == k);
                    }
                    if order.contains(k) {
                        let j = choose|j: int| 0 <= j < order.len() && order[j] == k;
                        assert(base.peers.dom().contains(keys@[j]@));
                    }
                }
            }
            assert(pre.announces_all(plan, watcher));
            assert(pre.watched(self@, watcher));
        }
        true
    }

    /// Asks all connections of a node to close, for a mesh member. Tells whether there are any.
    pub fn close_peer(&mut self, requester: SessionId, peer: NodeKey) -> (r: bool)
        requires
            old(self).wf(),
        ensures
            final(self).wf(),
            r == (old(self)@.may_mesh(requester) && old(self)@.here(peer@)),
            final(self)@ == (if r {
                old(self)@.peer_closed(peer@)
            } else {
                old(self)@
            }),
    {
        let ghost pre = self@;
        if !self.is_mesh_member(requester) {
            return false;
        }
        let ids = match lists_get(&self.peers, peer.as_bytes()) {
            Some(ids) => ids,
            None => {
                return false;
            },
        };
        proof {
            assert(pre.list_ok(peer@));
        }
        let mut i: usize = 0;
        while i < ids.len()
            invariant
                i <= ids.len(),
                self.index_ok(),
                self@ == (RelayView { sessions: self@.sessions, ..pre }),
                self@.sessions.dom() == pre.sessions.dom(),
                forall|j: int|
                    0 <= j < ids@.len() ==> pre.sessions.contains_key(#[trigger] ids@[j]),
                forall|id: u64| #[trigger]
                    pre.sessions.contains_key(id) ==> self@.sessions[id] == (if ids@.take(
                        i as int,
                    ).contains(id) {
                        SessionView { closed: true, ..pre.sessions[id] }
                    } else {
                        pre.sessions[id]
                    }),
            decreases ids.len() - i,
        {
            let id = ids[i];
            let ghost before = self.sessions@;
            let ghost view = self@;
            proof {
                assert(pre.sessions.contains_key(ids@[i as int]));
                assert(view.sessions.contains_key(id));
                assert(before.contains_key(id));
            }
            if let Some(mut s) = self.sessions.remove(&id) {
                s.close();
                proof {
                    lemma_sessions_remove(before, id);
                    lemma_sessions_insert(self.sessions@, id, s);
                }
                self.sessions.insert(id, s);
                proof {
                    assert(self@.sessions.dom() =~= view.sessions.dom());
                    assert(ids@.take(i + 1) =~= ids@.take(i as int).push(id));
                    assert forall|x: u64| #[trigger]
                        pre.sessions.contains_key(x) implies self@.sessions[x] == (if ids@.take(
                        i + 1,
                    ).contains(x) {
                        SessionView { closed: true, ..pre.sessions[x] }
                    } else {
                        pre.sessions[x]
                    }) by {
                        lemma_push_contains(ids@.take(i as int), id);
                    }
                }
            }
            i += 1;
        }
        proof {
            assert(ids@.take(i as int) =~= ids@);
            let post = pre.peer_closed(peer@);
            assert forall|x: u64| #[trigger] pre.sessions.contains_key(x) implies ids@.contains(x)
                == (pre.sessions[x].connected && pre.sessions[x].key == peer@) by {
                assert(pre.session_ok(x));
                if ids@.contains(x) {
                    lemma_listed(pre, peer@, x);
                }
            }
            assert(self@.sessions =~= post.sessions);
            assert(self@ =~= post);
            lemma_routes_kept(pre, post);
            lemma_sessions_changed(pre, post);
        }
        true
    }

    /// The numbers of all connections that have not left.
    pub(crate) fn all_ids(&self) -> (r: Vec<u64>)
        requires
            self.wf(),
        ensures
            r@.no_duplicates(),
            r@.to_set() == self@.connected(),
    {
        let keys = lists_keys_of(&self.peers);
        let mut out: Vec<u64> = Vec::new();
        let mut i: usize = 0;
        while i < keys.len()
            invariant
                i <= keys.len(),
                self.wf(),
                lists_keys(keys@, self@.peers.dom()),
                out@.no_duplicates(),
                forall|x: u64| #[trigger]
                    out@.contains(x) == (self@.is_connected(x) && listed_key(
                        keys@.take(i as int),
                        self@.sessions[x].key,
                    )),
            decreases keys.len() - i,
        {
            let ghost before = out@;
            let ghost key = keys@[i as int]@;
            proof {
                lemma_listed_step(keys@, i as int);
                assert(self@.peers.dom().contains(key));
                assert(self@.list_ok(key));
            }
            if let Some(list) = lists_get(&self.peers, &keys[i]) {
                out.extend_from_slice(list.as_slice());
                proof {
                    assert(out@ =~= before + list@);
                    lemma_joined_lists(before, list@);
                    assert forall|x: u64| #[trigger] list@.contains(x) == (self@.is_connected(x)
                        && self@.sessions[x].key == key) by {
                        if list@.contains(x) {
                            lemma_listed(self@, key, x);
                        }
                        if self@.sessions.contains_key(x) {
                            assert(self@.session_ok(x));
                        }
                    }
                    assert forall|x: u64| before.contains(x) implies !list@.contains(x) by {
                        if list@.contains(x) {
                            let j = choose|j: int|
                                0 <= j < i && #[trigger] keys@.take(i as int)[j]@ == key;
                            assert(keys@[j]@ == key);
                        }
                    }
                    assert forall|x: u64| #[trigger]
                        out@.contains(x) == (self@.is_connected(x) && listed_key(
                            keys@.take(i + 1),
                            self@.sessions[x].key,
                        )) by {
                        assert(out@.contains(x) == (before.contains(x) || list@.contains(x)));
                        assert(list@.contains(x) == (self@.is_connected(x) && self@.sessions[x].key
                            == key));
                    }
                }
            }
            i += 1;
        }
        proof {
            assert(keys@.take(i as int) =~= keys@);
            assert forall|x: u64| #[trigger] out@.to_set().contains(x)
                == self@.connected().contains(x) by {
                if self@.is_connected(x) {
                    assert(self@.session_ok(x));
                    assert(self@.peers.dom().contains(self@.sessions[x].key));
                }
                assert(out@.contains(x) == out@.to_set().contains(x));
            }
            assert(out@.to_set() =~= self@.connected());
        }
        out
    }

    /// Tells every connection that the server restarts: when to come back, and how long to try.
    pub fn broadcast_restart(&mut self, reconnect_in_ms: u32, try_for_ms: u32)
        requires
            old(self).wf(),
        ensures
            final(self).wf(),
            old(self)@.restart_told(final(self)@, reconnect_in_ms, try_for_ms),
    {
        let ghost pre = self@;
        let ids = self.all_ids();
        let frame = Frame::Restarting { reconnect_in_ms, try_for_ms };
        proof {
            assert forall|i: int| 0 <= i < ids@.len() implies pre.sessions.contains_key(
                #[trigger] ids@[i],
            ) by {
                assert(ids@.to_set().contains(ids@[i]));
                assert(pre.connected().contains(ids@[i]));
            }
        }
        self.offer_each(ids.as_slice(), &frame);
        proof {
            let plan = choose|plan: Seq<Offer>| #[trigger]
                to_each(plan, ids@, frame@) && plan_ok(pre, plan) && self@ == pre.offered(plan);
            assert(to_all(plan, pre.connected(), frame@));
            lemma_offered(pre, plan);
            assert(pre.restart_told(self@, reconnect_in_ms, try_for_ms));
        }
    }

    /// Releases a connection that has left: its number is not known from then on. One that is
    /// still needed, by its node or as a watcher, stays.
    pub fn release(&mut self, id: SessionId)
        requires
            old(self).wf(),
        ensures
            final(self).wf(),
            final(self)@ == old(self)@.released(id),
    {
        let ghost pre = self@;
        let connected = match self.sessions.get(&id) {
            Some(s) => s.connected,
            None => {
                return ;
            },
        };
        if connected || ids_has(&self.watchers, id) {
            return ;
        }
        self.sessions.remove(&id);
        proof {
            lemma_sessions_remove(old(self).sessions@, id);
            assert(self@ =~= pre.released(id));
            lemma_released(pre, id);
        }
    }

    /// Offers a frame to a connection, where there is one of this number. Tells whether its queue
    /// took it.
    pub fn send_to(&mut self, id: SessionId, frame: Frame) -> (r: bool)
        requires
            old(self).wf(),
        ensures
            final(self).wf(),
            old(self)@.sessions.contains_key(id) ==> final(self)@ == old(self)@.deliver(
                Offer { id, frame: frame@, ok: r },
            ),
            !old(self)@.sessions.contains_key(id) ==> !r && final(self)@ == old(self)@,
    {
        let ghost pre = self@;
        if !self.sessions.contains_key(&id) {
            return false;
        }
        let ok = self.offer_to(id, frame);
        proof {
            let plan = seq![Offer { id, frame: frame@, ok }];
            assert(plan.drop_last() =~= Seq::empty());
            assert(pre.offered(plan.drop_last()) == pre);
            assert(pre.offered(plan) == pre.deliver(plan.last()));
            lemma_offered(pre, plan);
        }
        ok
    }

    /// The node that a connection belongs to.
    pub fn session_key(&self, id: SessionId) -> (r: Option<NodeKey>)
        ensures
            match r {
                Some(key) => self@.sessions.contains_key(id) && key@ == self@.sessions[id].key,
                None => !self@.sessions.contains_key(id),
            },
    {
        match self.sessions.get(&id) {
            Some(s) => Some(s.key),
            None => None,
        }
    }

    /// All metrics in the Prometheus text format.
    pub fn prometheus(&self) -> (r: String)
        ensures
            r@ == prometheus_text(self@.metrics),
    {
        self.metrics.prometheus()
    }

    /// Counts a client that the admission controller rejected.
    pub fn count_rejection(&mut self)
        requires
            old(self).wf(),
        ensures
            final(self).wf(),
            final(self)@ == (RelayView {
                metrics: Metrics {
                    admission_rejected: plus(old(self)@.metrics.admission_rejected, 1),
                    ..old(self)@.metrics
                },
                ..old(self)@
            }),
    {
        let ghost pre = self@;
        Metrics::inc(&mut self.metrics.admission_rejected, 1);
        proof {
            lemma_routes_kept(pre, self@);
            lemma_sessions_changed(pre, self@);
        }
    }

    /// Counts a frame of a type that is not known.
    pub fn count_unknown_frame(&mut self)
        requires
            old(self).wf(),
        ensures
            final(self).wf(),
            final(self)@ == (RelayView {
                metrics: Metrics {
                    unknown_frames: plus(old(self)@.metrics.unknown_frames, 1),
                    ..old(self)@.metrics
                },
                ..old(self)@
            }),
    {
        let ghost pre = self@;
        Metrics::inc(&mut self.metrics.unknown_frames, 1);
        proof {
            lemma_routes_kept(pre, self@);
            lemma_sessions_changed(pre, self@);
        }
    }
}

/// Two lists in a row.
proof fn lemma_joined_lists(a: Seq<u64>, b: Seq<u64>)
    ensures
        forall|x: u64| #[trigger] (a + b).contains(x) == (a.contains(x) || b.contains(x)),
        a.no_duplicates() && b.no_duplicates() && (forall|x: u64|
            a.contains(x) ==> !b.contains(x)) ==> (a + b).no_duplicates(),
{
    let l = a + b;
    assert forall|x: u64| #[trigger] l.contains(x) == (a.contains(x) || b.contains(x)) by {
        if a.contains(x) {
            let i = choose|i: int| 0 <= i < a.len() && a[i] == x;
            assert(l[i] == x);
        }
        if b.contains(x) {
            let i = choose|i: int| 0 <= i < b.len() && b[i] == x;
            assert(l[a.len() + i] == x);
        }
        if l.contains(x) {
            let i = choose|i: int| 0 <= i < l.len() && l[i] == x;
            if i < a.len() {
                assert(a[i] == x);
            } else {
                assert(b[i - a.len()] == x);
            }
        }
    }
    if a.no_duplicates() && b.no_duplicates() && (forall|x: u64| a.contains(x) ==> !b.contains(x)) {
        assert forall|i: int, j: int| 0 <= i < l.len() && 0 <= j < l.len() && i != j implies l[i]
            != l[j] by {
            if i < a.len() {
                assert(a.contains(a[i]));
            } else {
                assert(b.contains(b[i - a.len()]));
            }
            if j < a.len() {
                assert(a.contains(a[j]));
            } else {
                assert(b.contains(b[j - a.len()]));
            }
        }
    }
}

} // verus!
