//! Connections that leave, and what becomes of the others.

use vstd::prelude::*;

use crate::laws::connections::{due, heard, lemma_all_heard, lemma_heard_twice, others_kept};
use crate::laws::traffic::stands;
use crate::protocol::FrameView;
use crate::relay::laws::{lemma_departure_plans, lemma_unregistered};
use crate::relay::model::{lemma_without, without, Offer, RelayView, SessionView};
use crate::relay::upkeep::lemma_left;
use crate::relay::{Relay, SessionId};

verus! {

/// Whether a gauge that wraps around at 2^64 went down by one.
pub open spec fn down(before: u64, after: u64) -> bool {
    before as int == (after + 1) % 0x1_0000_0000_0000_0000
}

/// Whether a connection is the active one of another node that this node has sent a packet to.
pub open spec fn was_reached(a: RelayView, key: Seq<u8>, x: u64) -> bool {
    let s = a.sessions[x];
    &&& s.connected
    &&& s.key != key
    &&& a.paths.contains((key, s.key))
    &&& a.peers[s.key].last() == x
}

/// What a departure makes of another connection. Where the node is gone with it, watchers and those
/// that the node has sent packets to are told; where one connection of the node remains, that one
/// is told that it is alone again. Nobody is told anything else.
pub open spec fn sees_leaving(a: RelayView, b: RelayView, id: u64, x: u64) -> bool {
    let key = a.sessions[id].key;
    let list = a.peers[key];
    let (s, t) = (a.sessions[x], b.sessions[x]);
    let gone = FrameView::PeerGone { peer: key, reason: 0 };
    let alone = list.len() == 2 && s.connected && s.key == key;
    &&& heard(
        s,
        t,
        due(list.len() == 1 && a.watchers.contains(x), gone) + due(
            list.len() == 1 && was_reached(a, key, x),
            gone,
        ) + due(alone, FrameView::Health(seq![])),
    )
    &&& t.duplicate == (s.duplicate && !alone)
    &&& stands(SessionView { duplicate: t.duplicate, ..s }, t)
    &&& t.limiter == s.limiter
}

/// Leaving one item out of a list that has it once is removing it.
pub proof fn lemma_left_out(list: Seq<u64>, id: u64, i: int)
    requires
        list.no_duplicates(),
        0 <= i < list.len(),
        list[i] == id,
    ensures
        without(list, id) == list.remove(i),
    decreases list.len(),
{
    reveal(Seq::filter);
    let init = list.drop_last();
    assert(init.no_duplicates()) by {
        assert forall|k: int, m: int|
            0 <= k < init.len() && 0 <= m < init.len() && k != m implies init[k] != init[m] by {
            assert(list[k] != list[m]);
        }
    }
    if i == list.len() - 1 {
        assert(!init.contains(id)) by {
            if init.contains(id) {
                let k = choose|k: int| 0 <= k < init.len() && init[k] == id;
                assert(list[k] != list[i]);
            }
        }
        lemma_without(init, id);
        assert(without(list, id) == without(init, id));
        assert(list.remove(i) =~= init);
    } else {
        lemma_left_out(init, id, i);
        assert(list.last() != id) by {
            assert(list[i] != list[list.len() - 1]);
        }
        assert(without(list, id) == without(init, id).push(list.last()));
        assert(list.remove(i) =~= init.remove(i).push(list.last()));
    }
}

/// A connection that is not there leaves nothing behind.
pub proof fn law_strangers_do_not_leave(relay: &mut Relay, id: SessionId)
    requires
        call_ensures(Relay::unregister, (relay, id), ()),
        !old(relay)@.sessions.contains_key(id),
    ensures
        final(relay)@ == old(relay)@,
{
}

#[verifier::rlimit(40)]
proof fn lemma_sees_leaving(a: RelayView, b: RelayView, id: u64, x: u64)
    requires
        a.wf(),
        a.is_connected(id),
        a.unregistered(b, id),
        a.sessions.contains_key(x),
        x != id,
    ensures
        sees_leaving(a, b, id, x),
{
    let key = a.sessions[id].key;
    let list = a.peers[key];
    let gone = FrameView::PeerGone { peer: key, reason: 0 };
    let left = a.left(id);
    let (s, m) = (a.sessions[x], left.sessions[x]);
    assert(a.session_ok(id));
    assert(a.session_ok(x));
    assert(a.list_ok(key));
    lemma_without(list, id);
    let rest = a.rest(id);
    assert(rest.len() == list.len() - 1);
    assert(rest.contains(x) == list.contains(x));
    assert(list.contains(x) == (s.connected && s.key == key)) by {
        if list.contains(x) {
            let i = choose|i: int| 0 <= i < list.len() && list[i] == x;
            assert(a.sessions[list[i]].key == key);
        }
    }
    lemma_left(a, id);
    assert(left.sessions.contains_key(x));
    let alone = list.len() == 2 && s.connected && s.key == key;
    assert(m == SessionView { duplicate: s.duplicate && !alone, ..s });
    let none = due(false, gone);
    if rest.len() == 0 {
        let (watching, reached) = lemma_departure_plans(a, b, id);
        let told = left.offered(watching);
        lemma_all_heard(left, watching, a.watchers.remove(id), gone, x);
        lemma_all_heard(told, reached, a.reached_by(key), gone, x);
        let (p, q) = (due(a.watchers.contains(x), gone), due(was_reached(a, key, x), gone));
        lemma_heard_twice(m, told.sessions[x], b.sessions[x], p, q);
        assert(p + q + none =~= p + q);
    } else if rest.len() == 1 {
        let other = rest[0];
        let ok = choose|ok: bool|
            b == #[trigger] left.deliver(
                Offer { id: other, frame: FrameView::Health(Seq::empty()), ok },
            );
        assert(rest.contains(x) == (x == other));
        let f = due(alone, FrameView::Health(seq![]));
        assert(none + none + f =~= f);
        assert(heard(s, b.sessions[x], f));
    } else {
        assert(none + none + none =~= none);
        assert(heard(s, b.sessions[x], none));
    }
}

/// Whether a connection left: it is closed, out of its node's list and no watcher any more. With
/// its last connection the node is gone, and every path to it and from it.
pub open spec fn leaves(a: RelayView, b: RelayView, id: u64) -> bool {
    let s = a.sessions[id];
    let list = a.peers[s.key];
    &&& b.sessions.dom() == a.sessions.dom()
    &&& b.sessions[id] == SessionView { closed: true, preferred: false, connected: false, ..s }
    &&& forall|x: u64| #[trigger]
        a.sessions.contains_key(x) && x != id ==> sees_leaving(a, b, id, x)
    &&& list.len() == 1 ==> b.peers == a.peers.remove(s.key)
    &&& list.len() == 1 ==> forall|p: Seq<u8>, q: Seq<u8>| #[trigger]
        b.paths.contains((p, q)) <==> a.paths.contains((p, q)) && p != s.key && q != s.key
    &&& list.len() > 1 ==> b.paths == a.paths && b.peers.dom() == a.peers.dom()
    &&& list.len() > 1 ==> forall|i: int|
        0 <= i < list.len() && #[trigger] list[i] == id ==> b.peers[s.key] == list.remove(i)
    &&& forall|k: Seq<u8>|
        a.peers.contains_key(k) && k != s.key ==> #[trigger] b.peers[k] == a.peers[k]
    &&& b.watchers == a.watchers.remove(id)
    &&& a.routes == b.routes
    &&& a.next_id == b.next_id
    &&& down(a.metrics.current_clients, b.metrics.current_clients)
    &&& s.preferred ==> down(a.metrics.preferred_clients, b.metrics.preferred_clients)
    &&& !s.preferred ==> a.metrics.preferred_clients == b.metrics.preferred_clients
    &&& a.metrics.home_moves_in == b.metrics.home_moves_in
    &&& a.metrics.home_moves_out == b.metrics.home_moves_out
    &&& others_kept(a.metrics, b.metrics)
}

/// What the model says of leaving, in plain words.
#[verifier::rlimit(40)]
pub proof fn lemma_leaves(a: RelayView, b: RelayView, id: u64)
    requires
        a.wf(),
        a.is_connected(id),
        a.unregistered(b, id),
    ensures
        leaves(a, b, id),
{
    let s = a.sessions[id];
    let list = a.peers[s.key];
    assert forall|x: u64| #[trigger] a.sessions.contains_key(x) && x != id implies sees_leaving(
        a,
        b,
        id,
        x,
    ) by {
        lemma_sees_leaving(a, b, id, x);
    }
    assert(a.session_ok(id));
    assert(a.list_ok(s.key));
    lemma_without(list, id);
    lemma_left(a, id);
    lemma_unregistered(a, b, id);
    lemma_not_told(a, b, id);
    assert forall|i: int| 0 <= i < list.len() && #[trigger] list[i] == id implies without(list, id)
        == list.remove(i) by {
        lemma_left_out(list, id, i);
    }
    assert(b.sessions.dom() =~= a.sessions.dom());
    if list.len() > 1 {
        assert(b.peers.dom() =~= a.peers.dom());
    }
}

/// A connection that is unregistered leaves.
pub proof fn law_leaving(relay: &mut Relay, id: SessionId)
    requires
        call_ensures(Relay::unregister, (relay, id), ()),
        old(relay).wf(),
        old(relay)@.sessions.contains_key(id),
        old(relay)@.sessions[id].connected,
    ensures
        leaves(old(relay)@, final(relay)@, id),
{
    lemma_leaves(old(relay)@, final(relay)@, id);
}

/// The connection that leaves is told nothing.
#[verifier::rlimit(40)]
proof fn lemma_not_told(a: RelayView, b: RelayView, id: u64)
    requires
        a.wf(),
        a.is_connected(id),
        a.unregistered(b, id),
    ensures
        b.sessions[id] == a.departed(id),
{
    let key = a.sessions[id].key;
    let list = a.peers[key];
    let gone = FrameView::PeerGone { peer: key, reason: 0 };
    let left = a.left(id);
    assert(a.session_ok(id));
    assert(a.list_ok(key));
    lemma_without(list, id);
    lemma_left(a, id);
    let rest = a.rest(id);
    lemma_unregistered(a, b, id);
    assert(left.sessions[id] == a.departed(id));
    assert(SessionView { offers: left.sessions[id].offers, ..b.sessions[id] } == left.sessions[id]);
    if rest.len() == 0 {
        let (watching, reached) = lemma_departure_plans(a, b, id);
        let told = left.offered(watching);
        lemma_all_heard(left, watching, a.watchers.remove(id), gone, id);
        lemma_all_heard(told, reached, a.reached_by(key), gone, id);
        assert(b.sessions[id].offers =~= left.sessions[id].offers);
    } else if rest.len() == 1 {
        assert(rest.contains(rest[0]));
        assert(rest[0] != id);
    }
}

/// What it makes of another connection that one which has left already leaves again: where its node
/// has one connection, that one is told that it is alone.
pub open spec fn sees_leaving_again(a: RelayView, b: RelayView, id: u64, x: u64) -> bool {
    let key = a.sessions[id].key;
    let (s, t) = (a.sessions[x], b.sessions[x]);
    let alone = a.peers.contains_key(key) && a.peers[key].len() == 1 && s.connected && s.key == key;
    &&& heard(s, t, due(alone, FrameView::Health(seq![])))
    &&& t.duplicate == (s.duplicate && !alone)
    &&& stands(SessionView { duplicate: t.duplicate, ..s }, t)
    &&& t.limiter == s.limiter
}

#[verifier::rlimit(40)]
proof fn lemma_sees_leaving_again(a: RelayView, b: RelayView, id: u64, x: u64)
    requires
        a.wf(),
        a.sessions.contains_key(id),
        !a.sessions[id].connected,
        a.unregistered(b, id),
        a.sessions.contains_key(x),
        x != id,
    ensures
        sees_leaving_again(a, b, id, x),
{
    let key = a.sessions[id].key;
    let list = a.list(key);
    let left = a.left(id);
    let (s, m) = (a.sessions[x], left.sessions[x]);
    lemma_not_listed(a, id);
    assert(a.session_ok(x));
    let rest = a.rest(id);
    assert(list.contains(x) == (s.connected && s.key == key)) by {
        if a.here(key) {
            assert(a.list_ok(key));
            if list.contains(x) {
                let i = choose|i: int| 0 <= i < list.len() && list[i] == x;
                assert(a.sessions[list[i]].key == key);
            }
        }
    }
    lemma_left(a, id);
    let alone = list.len() == 1 && s.connected && s.key == key;
    assert(m == SessionView { duplicate: s.duplicate && !alone, ..s });
    if rest.len() == 1 {
        let other = rest[0];
        let ok = choose|ok: bool|
            b == #[trigger] left.deliver(
                Offer { id: other, frame: FrameView::Health(Seq::empty()), ok },
            );
        assert(rest.contains(x) == (x == other));
        assert(heard(s, b.sessions[x], due(alone, FrameView::Health(seq![]))));
    }
}

proof fn lemma_not_listed(a: RelayView, id: u64)
    requires
        a.wf(),
        a.sessions.contains_key(id),
        !a.sessions[id].connected,
    ensures
        a.rest(id) == a.list(a.sessions[id].key),
{
    let key = a.sessions[id].key;
    let list = a.list(key);
    if a.here(key) {
        assert(a.list_ok(key));
        assert(!list.contains(id)) by {
            if list.contains(id) {
                let i = choose|i: int| 0 <= i < list.len() && list[i] == id;
                assert(a.sessions[list[i]].connected);
            }
        }
    }
    lemma_without(list, id);
}

/// A connection that has left already and leaves again is counted once more; no node is gone by it,
/// and no path.
#[verifier::rlimit(40)]
pub proof fn law_leaving_again(relay: &mut Relay, id: SessionId)
    requires
        call_ensures(Relay::unregister, (relay, id), ()),
        old(relay).wf(),
        old(relay)@.sessions.contains_key(id),
        !old(relay)@.sessions[id].connected,
    ensures
        ({
            let (a, b) = (old(relay)@, final(relay)@);
            let s = a.sessions[id];
            &&& b.sessions.dom() == a.sessions.dom()
            &&& b.sessions[id] == SessionView { closed: true, preferred: false, ..s }
            &&& forall|x: u64| #[trigger]
                a.sessions.contains_key(x) && x != id ==> sees_leaving_again(a, b, id, x)
            &&& b.peers == a.peers
            &&& b.paths == a.paths
            &&& b.watchers == a.watchers.remove(id)
            &&& b.routes == a.routes
            &&& b.next_id == a.next_id
            &&& down(a.metrics.current_clients, b.metrics.current_clients)
            &&& s.preferred ==> down(a.metrics.preferred_clients, b.metrics.preferred_clients)
            &&& !s.preferred ==> a.metrics.preferred_clients == b.metrics.preferred_clients
            &&& a.metrics.home_moves_in == b.metrics.home_moves_in
            &&& a.metrics.home_moves_out == b.metrics.home_moves_out
            &&& others_kept(a.metrics, b.metrics)
        }),
{
    let (a, b) = (old(relay)@, final(relay)@);
    let key = a.sessions[id].key;
    assert forall|x: u64| #[trigger] a.sessions.contains_key(x) && x != id implies
        sees_leaving_again(a, b, id, x) by {
        lemma_sees_leaving_again(a, b, id, x);
    }
    lemma_not_listed(a, id);
    lemma_left(a, id);
    lemma_unregistered(a, b, id);
    let rest = a.rest(id);
    if a.here(key) {
        assert(a.list_ok(key));
    }
    if rest.len() == 1 {
        assert(a.sessions[a.peers[key][0]].connected);
        assert(rest[0] != id);
    }
    assert(b.peers =~= a.peers);
    assert(b.sessions.dom() =~= a.sessions.dom());
}

} // verus!
