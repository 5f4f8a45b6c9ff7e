//! How many there are: of connections, of nodes, and of connections that prefer this relay.

use vstd::prelude::*;

use crate::metrics::{less_one, plus, zero_metrics};
use crate::relay::laws::{
    does, is_run, law_runs_keep_the_invariant, lemma_one_offer, lemma_registered,
    lemma_restart_told, lemma_routed, lemma_unregistered, lemma_watched, Op,
};
use crate::relay::model::{same_but_offers, Joining, Offer, RelayView};
use crate::relay::upkeep::{lemma_joined, lemma_left};

verus! {

proof fn lemma_connected_joined(pre: RelayView, j: Joining, now: u64)
    requires
        pre.wf(),
        pre.next_id < u64::MAX,
    ensures
        pre.joined(j, now).connected() == pre.connected().insert(pre.next_id),
        !pre.connected().contains(pre.next_id),
{
    lemma_joined(pre, j, now);
    let base = pre.joined(j, now);
    assert(base.sessions.dom() =~= pre.sessions.dom().insert(pre.next_id));
    assert(base.connected() =~= pre.connected().insert(pre.next_id));
}

proof fn lemma_connected_left(pre: RelayView, id: u64)
    requires
        pre.wf(),
        pre.sessions.contains_key(id),
    ensures
        pre.left(id).connected() == pre.connected().remove(id),
{
    lemma_left(pre, id);
    let left = pre.left(id);
    assert forall|x: u64| #[trigger] left.connected().contains(x) == pre.connected().remove(
        id,
    ).contains(x) by {
        assert(left.sessions.dom().contains(x) == pre.sessions.dom().contains(x));
    }
    assert(left.connected() =~= pre.connected().remove(id));
}

proof fn lemma_connected_offers(pre: RelayView, post: RelayView)
    requires
        same_but_offers(pre, post),
    ensures
        post.connected() == pre.connected(),
{
    assert forall|x: u64| #[trigger] post.connected().contains(x) == pre.connected().contains(
        x,
    ) by {
        assert(pre.sessions.dom().contains(x) == post.sessions.dom().contains(x));
    }
    assert(post.connected() =~= pre.connected());
}

/// A client that joins is one connection more, and one node more where its key was not in use.
pub proof fn law_joining_counts_one(pre: RelayView, post: RelayView, j: Joining, now: u64)
    requires
        pre.wf(),
        pre.next_id < u64::MAX,
        pre.registered(post, j, now),
    ensures
        post.connected().len() == pre.connected().len() + 1,
        post.peers.len() == pre.peers.len() + (if pre.here(j.key) {
            0int
        } else {
            1int
        }),
{
    lemma_registered(pre, post, j, now);
    lemma_connected_joined(pre, j, now);
    lemma_connected_offers(pre.joined(j, now), post);
    assert(post.peers.dom() =~= pre.peers.dom().insert(j.key));
}

/// A connection that leaves is one less, and its node is one less where it was the last of it.
pub proof fn law_leaving_counts_one(pre: RelayView, post: RelayView, id: u64)
    requires
        pre.wf(),
        pre.is_connected(id),
        pre.unregistered(post, id),
    ensures
        post.connected().len() == pre.connected().len() - 1,
        post.peers.len() == pre.peers.len() - (if pre.rest(id).len() == 0 {
            1int
        } else {
            0int
        }),
{
    lemma_unregistered(pre, post, id);
    lemma_connected_left(pre, id);
    lemma_connected_offers(pre.left(id), post);
    assert(pre.connected().contains(id));
    assert(pre.session_ok(id));
    let key = pre.sessions[id].key;
    if pre.rest(id).len() == 0 {
        assert(post.peers.dom() =~= pre.peers.dom().remove(key));
    } else {
        assert(post.peers.dom() =~= pre.peers.dom());
    }
}

/// The connections whose clients prefer this relay.
pub open spec fn preferring(v: RelayView) -> Set<u64> {
    v.sessions.dom().filter(|id: u64| v.sessions[id].preferred)
}

/// Whether the gauges show how many connections have not left, and how many prefer this relay.
pub open spec fn gauges_ok(v: RelayView) -> bool {
    &&& v.metrics.current_clients == v.connected().len() % 0x1_0000_0000_0000_0000
    &&& v.metrics.preferred_clients == preferring(v).len() % 0x1_0000_0000_0000_0000
}

/// Counting one more or one less is counting the set with one more or one less.
proof fn lemma_gauge(x: u64, n: nat)
    requires
        x == n % 0x1_0000_0000_0000_0000,
    ensures
        plus(x, 1) == (n + 1) % 0x1_0000_0000_0000_0000,
        n > 0 ==> less_one(x) == (n - 1) % 0x1_0000_0000_0000_0000,
{
}

/// The gauges still show what they should where neither the connections nor their preferences
/// have changed.
proof fn lemma_gauges_kept(pre: RelayView, post: RelayView)
    requires
        gauges_ok(pre),
        post.sessions.dom() == pre.sessions.dom(),
        forall|id: u64| #[trigger]
            pre.sessions.contains_key(id) ==> post.sessions[id].preferred
                == pre.sessions[id].preferred && post.sessions[id].connected
                == pre.sessions[id].connected,
        post.metrics.current_clients == pre.metrics.current_clients,
        post.metrics.preferred_clients == pre.metrics.preferred_clients,
    ensures
        gauges_ok(post),
{
    assert forall|id: u64| #[trigger] preferring(post).contains(id) == preferring(pre).contains(
        id,
    ) by {
        assert(pre.sessions.dom().contains(id) == post.sessions.dom().contains(id));
    }
    assert(preferring(post) =~= preferring(pre));
    assert forall|id: u64| #[trigger] post.connected().contains(id) == pre.connected().contains(
        id,
    ) by {
        assert(pre.sessions.dom().contains(id) == post.sessions.dom().contains(id));
    }
    assert(post.connected() =~= pre.connected());
}

/// Offers do not touch the gauges.
proof fn lemma_gauges_offers(pre: RelayView, post: RelayView)
    requires
        gauges_ok(pre),
        same_but_offers(pre, post),
    ensures
        gauges_ok(post),
{
    lemma_gauges_kept(pre, post);
}

/// Whether the gauges can follow what is done: nothing leaves twice, nothing that still prefers
/// this relay is released, and nobody else writes the gauges.
pub open spec fn gauges_can_follow(pre: RelayView, op: Op) -> bool {
    match op {
        Op::Unregister { id } => pre.sessions.contains_key(id) ==> pre.sessions[id].connected,
        Op::Release { id } => pre.sessions.contains_key(id) ==> !pre.sessions[id].preferred,
        Op::WriteMetrics { metrics } => {
            &&& metrics.current_clients == pre.metrics.current_clients
            &&& metrics.preferred_clients == pre.metrics.preferred_clients
        },
        _ => true,
    }
}

/// Whatever is done with the relay that its gauges can follow, they show how many connections have
/// not left and how many prefer this relay.
pub proof fn law_gauges_follow(pre: RelayView, op: Op, post: RelayView)
    requires
        pre.wf(),
        gauges_ok(pre),
        does(pre, op, post),
        gauges_can_follow(pre, op),
    ensures
        gauges_ok(post),
{
    match op {
        Op::Register { joining, now } => {
            lemma_registered(pre, post, joining, now);
            lemma_joined(pre, joining, now);
            let base = pre.joined(joining, now);
            let id = pre.next_id;
            lemma_connected_joined(pre, joining, now);
            assert(preferring(base) =~= preferring(pre));
            lemma_gauge(pre.metrics.current_clients, pre.connected().len());
            lemma_gauges_offers(base, post);
        },
        Op::Unregister { id } => {
            if pre.sessions.contains_key(id) {
                lemma_unregistered(pre, post, id);
                lemma_left(pre, id);
                let left = pre.left(id);
                lemma_connected_left(pre, id);
                assert forall|x: u64| #[trigger] preferring(left).contains(x) == preferring(
                    pre,
                ).remove(id).contains(x) by {
                    assert(left.sessions.dom().contains(x) == pre.sessions.dom().contains(x));
                }
                assert(preferring(left) =~= preferring(pre).remove(id));
                lemma_gauge(pre.metrics.current_clients, pre.connected().len());
                lemma_gauge(pre.metrics.preferred_clients, preferring(pre).len());
                if pre.sessions[id].preferred {
                    assert(preferring(pre).contains(id));
                } else {
                    assert(preferring(pre).remove(id) =~= preferring(pre));
                }
                assert(gauges_ok(left));
                lemma_gauges_offers(left, post);
            }
        },
        Op::Release { id } => {
            assert(preferring(post) =~= preferring(pre));
            assert(post.connected() =~= pre.connected());
        },
        Op::NoteActivity { id } => {
            lemma_gauges_kept(pre, post);
        },
        Op::NotePreferred { id, preferred } => {
            if pre.sessions.contains_key(id) {
                assert(post.sessions.dom() =~= pre.sessions.dom());
                assert(post.connected() =~= pre.connected());
                lemma_gauge(pre.metrics.preferred_clients, preferring(pre).len());
                if preferred {
                    assert(preferring(post) =~= preferring(pre).insert(id));
                    assert(pre.sessions[id].preferred == preferring(pre).contains(id));
                } else {
                    assert(preferring(post) =~= preferring(pre).remove(id));
                    assert(pre.sessions[id].preferred == preferring(pre).contains(id));
                }
            }
        },
        Op::Route { source, src, dst, packet, forwarded, now } => {
            lemma_routed(pre, post, source, src, dst, packet, forwarded, now);
            lemma_gauges_kept(pre, post);
        },
        Op::Watch { id } => {
            if pre.may_mesh(id) {
                lemma_watched(pre, post, id);
                let base = RelayView { watchers: pre.watchers.insert(id), ..pre };
                lemma_gauges_kept(pre, base);
                lemma_gauges_offers(base, post);
            }
        },
        Op::ClosePeer { requester, peer } => {
            assert(post.sessions.dom() =~= pre.sessions.dom());
            lemma_gauges_kept(pre, post);
        },
        Op::BroadcastRestart { reconnect_in_ms, try_for_ms } => {
            lemma_restart_told(pre, post, reconnect_in_ms, try_for_ms);
            lemma_gauges_offers(pre, post);
        },
        Op::SendTo { id, frame } => {
            if pre.sessions.contains_key(id) {
                let ok = choose|ok: bool| post == #[trigger] pre.deliver(Offer { id, frame, ok });
                lemma_one_offer(pre, Offer { id, frame, ok });
                lemma_gauges_offers(pre, post);
            }
        },
        _ => {
            lemma_gauges_kept(pre, post);
        },
    }
}

/// The gauges of an empty relay show what they should, and go on to do so whatever is done that
/// they can follow.
pub proof fn law_gauges_hold_throughout(states: Seq<RelayView>, ops: Seq<Op>, n: int)
    requires
        is_run(states, ops),
        states[0].wf(),
        states[0].sessions.dom() == Set::<u64>::empty(),
        states[0].metrics == zero_metrics(),
        forall|i: int| 0 <= i < ops.len() ==> gauges_can_follow(#[trigger] states[i], ops[i]),
        0 <= n < states.len(),
    ensures
        gauges_ok(states[n]),
    decreases n,
{
    if n == 0 {
        assert(preferring(states[0]) =~= Set::empty());
        assert(states[0].connected() =~= Set::empty());
    } else {
        law_gauges_hold_throughout(states, ops, n - 1);
        law_runs_keep_the_invariant(states, ops, n - 1);
        assert(does(states[n - 1], ops[n - 1], states[n - 1 + 1]));
        assert(gauges_can_follow(states[n - 1], ops[n - 1]));
        law_gauges_follow(states[n - 1], ops[n - 1], states[n]);
    }
}

} // verus!
