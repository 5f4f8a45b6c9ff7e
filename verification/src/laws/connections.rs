//! Who is connected, and who is told of whom.

use vstd::prelude::*;
use vstd::utf8::encode_utf8;

use crate::crypto::NodeKey;
use crate::endpoint::{Endpoint, EndpointView};
use crate::laws::traffic::{stands, up};
use crate::metrics::Metrics;
use crate::protocol::FrameView;
use crate::queue::queue_behind;
use crate::relay::laws::lemma_arrival_plans;
use crate::relay::model::{
    law_offers_are_recorded, lemma_offered, offers_to, plan_ok, to_all, to_each, Joining, Offer,
    RelayView, SessionView,
};
use crate::relay::upkeep::lemma_joined;
use crate::relay::{RegisteredSession, Relay};

verus! {

/// Whether exactly these frames more were offered to a connection, in this order.
pub open spec fn heard(a: SessionView, b: SessionView, frames: Seq<FrameView>) -> bool {
    &&& b.offers.len() == a.offers.len() + frames.len()
    &&& forall|i: int| 0 <= i < a.offers.len() ==> a.offers[i] == #[trigger] b.offers[i]
    &&& forall|i: int| 0 <= i < frames.len() ==> b.offers[a.offers.len() + i].0 == #[trigger] frames[i]
}

/// The frame, where it is due.
pub open spec fn due(b: bool, frame: FrameView) -> Seq<FrameView> {
    if b {
        seq![frame]
    } else {
        seq![]
    }
}

/// The frame that announces a node: 2 for a mesh member, 4 for a prober and 8 for one that is not
/// where it should be, added up, or else 1.
pub open spec fn announced(
    key: Seq<u8>,
    endpoint: EndpointView,
    mesh: bool,
    prober: bool,
    not_ideal: bool,
) -> FrameView {
    let flags: u8 = match (mesh, prober, not_ideal) {
        (false, false, false) => 1,
        (true, false, false) => 2,
        (false, true, false) => 4,
        (true, true, false) => 6,
        (false, false, true) => 8,
        (true, false, true) => 10,
        (false, true, true) => 12,
        (true, true, true) => 14,
    };
    FrameView::PeerPresent { peer: key, endpoint: Some(endpoint), flags: Some(flags), extra: seq![] }
}

/// Whether numbers other than these four are the same.
pub open spec fn others_kept(a: Metrics, b: Metrics) -> bool {
    b == (Metrics {
        current_clients: b.current_clients,
        preferred_clients: b.preferred_clients,
        home_moves_in: b.home_moves_in,
        home_moves_out: b.home_moves_out,
        queue_dropped: b.queue_dropped,
        ..a
    })
}

proof fn lemma_each_once(plan: Seq<Offer>, order: Seq<u64>, frame: FrameView, id: u64)
    requires
        to_each(plan, order, frame),
        order.no_duplicates(),
    ensures
        order.contains(id) ==> offers_to(plan, id).len() == 1 && offers_to(plan, id)[0].0 == frame,
        !order.contains(id) ==> offers_to(plan, id).len() == 0,
    decreases plan.len(),
{
    if plan.len() > 0 {
        let p = plan.drop_last();
        let o = order.drop_last();
        assert(to_each(p, o, frame)) by {
            assert forall|i: int| 0 <= i < p.len() implies (#[trigger] p[i]).id == o[i] && p[i].frame
                == frame by {
                assert(plan[i].id == order[i]);
            }
        }
        assert(o.no_duplicates()) by {
            assert forall|i: int, k: int| 0 <= i < o.len() && 0 <= k < o.len() && i != k implies o[i]
                != o[k] by {
                assert(order[i] != order[k]);
            }
        }
        lemma_each_once(p, o, frame, id);
        let n: int = plan.len() - 1;
        assert(plan[n].id == order[n] && plan[n].frame == frame);
        assert(plan.last() == plan[n]);
        if order[n] == id {
            if o.contains(id) {
                let k = choose|k: int| 0 <= k < o.len() && o[k] == id;
                assert(order[k] != order[n]);
            }
            assert(order.contains(id));
        } else {
            if order.contains(id) {
                let k = choose|k: int| 0 <= k < order.len() && order[k] == id;
                assert(o[k] == id);
            }
            if o.contains(id) {
                let k = choose|k: int| 0 <= k < o.len() && o[k] == id;
                assert(order[k] == id);
            }
        }
    }
}

pub proof fn lemma_each_heard(v: RelayView, plan: Seq<Offer>, order: Seq<u64>, frame: FrameView, id: u64)
    requires
        to_each(plan, order, frame),
        order.no_duplicates(),
        plan_ok(v, plan),
        v.sessions.contains_key(id),
    ensures
        heard(v.sessions[id], v.offered(plan).sessions[id], due(order.contains(id), frame)),
        stands(v.sessions[id], v.offered(plan).sessions[id]),
        v.sessions[id].limiter == v.offered(plan).sessions[id].limiter,
{
    lemma_each_once(plan, order, frame, id);
    law_offers_are_recorded(v, plan, id);
    lemma_offered(v, plan);
    assert(SessionView { offers: v.sessions[id].offers, ..v.offered(plan).sessions[id] }
        == v.sessions[id]);
}

pub proof fn lemma_all_heard(v: RelayView, plan: Seq<Offer>, ids: Set<u64>, frame: FrameView, id: u64)
    requires
        to_all(plan, ids, frame),
        plan_ok(v, plan),
        v.sessions.contains_key(id),
    ensures
        heard(v.sessions[id], v.offered(plan).sessions[id], due(ids.contains(id), frame)),
        stands(v.sessions[id], v.offered(plan).sessions[id]),
        v.sessions[id].limiter == v.offered(plan).sessions[id].limiter,
{
    let order = choose|order: Seq<u64>| #[trigger]
        to_each(plan, order, frame) && order.no_duplicates() && order.to_set() == ids;
    lemma_each_heard(v, plan, order, frame, id);
    assert(order.to_set().contains(id) == order.contains(id));
}

pub proof fn lemma_heard_twice(
    a: SessionView,
    b: SessionView,
    c: SessionView,
    p: Seq<FrameView>,
    q: Seq<FrameView>,
)
    requires
        heard(a, b, p),
        heard(b, c, q),
    ensures
        heard(a, c, p + q),
{
    let all = p + q;
    assert forall|i: int| 0 <= i < a.offers.len() implies a.offers[i] == #[trigger] c.offers[i] by {
        assert(b.offers[i] == c.offers[i]);
    }
    assert forall|i: int| 0 <= i < all.len() implies c.offers[a.offers.len() + i].0
        == #[trigger] all[i] by {
        if i < p.len() {
            assert(all[i] == p[i]);
            assert(b.offers[a.offers.len() + i] == c.offers[a.offers.len() + i]);
        } else {
            assert(all[i] == q[i - p.len()]);
            assert(c.offers[b.offers.len() + (i - p.len())].0 == q[i - p.len()]);
        }
    }
}

#[verifier::rlimit(40)]
proof fn lemma_plans_heard(
    v: RelayView,
    first: Seq<Offer>,
    order: Seq<u64>,
    p: FrameView,
    second: Seq<Offer>,
    ids: Set<u64>,
    q: FrameView,
    id: u64,
)
    requires
        to_each(first, order, p),
        order.no_duplicates(),
        plan_ok(v, first),
        to_all(second, ids, q),
        plan_ok(v.offered(first), second),
        v.sessions.contains_key(id),
    ensures
        ({
            let (s, t) = (v.sessions[id], v.offered(first).offered(second).sessions[id]);
            &&& heard(s, t, due(order.contains(id), p) + due(ids.contains(id), q))
            &&& stands(s, t)
            &&& s.limiter == t.limiter
        }),
{
    let mid = v.offered(first);
    lemma_offered(v, first);
    assert(mid.sessions.contains_key(id));
    lemma_each_heard(v, first, order, p, id);
    lemma_all_heard(mid, second, ids, q, id);
    let post = mid.offered(second);
    lemma_heard_twice(
        v.sessions[id],
        mid.sessions[id],
        post.sessions[id],
        due(order.contains(id), p),
        due(ids.contains(id), q),
    );
}

/// What a client's joining makes of one connection that was there: it is told that its key is in
/// use twice, where that is so, and that the client is here, where it watches; nothing else.
pub open spec fn sees_joining(
    a: RelayView,
    b: RelayView,
    x: u64,
    key: Seq<u8>,
    present: FrameView,
) -> bool {
    let (s, t) = (a.sessions[x], b.sessions[x]);
    let shares = s.connected && s.key == key;
    &&& heard(
        s,
        t,
        due(
            shares,
            FrameView::Health(encode_utf8("duplicate DERP connection for node key"@)),
        ) + due(a.watchers.contains(x), present),
    )
    &&& t.duplicate == (s.duplicate || shares)
    &&& stands(SessionView { duplicate: t.duplicate, ..s }, t)
    &&& t.limiter == s.limiter
}

proof fn lemma_sharing(a: RelayView, j: Joining, now: u64, x: u64)
    requires
        a.wf(),
        a.next_id < u64::MAX,
        a.sessions.contains_key(x),
    ensures
        ({
            let (s, t) = (a.sessions[x], a.joined(j, now).sessions[x]);
            let shares = s.connected && s.key == j.key;
            &&& a.joined(j, now).sessions.contains_key(x)
            &&& a.duplicates(j.key).no_duplicates()
            &&& a.duplicates(j.key).contains(x) == shares
            &&& t.duplicate == (s.duplicate || shares)
            &&& t == SessionView { duplicate: t.duplicate, ..s }
        }),
{
    let base = a.joined(j, now);
    let order = a.duplicates(j.key);
    let s = a.sessions[x];
    lemma_joined(a, j, now);
    assert(a.session_ok(x));
    if a.here(j.key) {
        let list = a.peers[j.key];
        assert(base.list_ok(j.key));
        assert(base.peers[j.key] =~= order);
        assert(a.list_ok(j.key));
        if order.contains(x) {
            let i = choose|i: int| 0 <= i < order.len() && order[i] == x;
            assert(list[i] == x);
        }
        if s.connected && s.key == j.key {
            let i = choose|i: int| 0 <= i < list.len() && list[i] == x;
            assert(order[i] == x);
        }
    }
}

#[verifier::rlimit(40)]
proof fn lemma_sees_joining(a: RelayView, b: RelayView, j: Joining, now: u64, x: u64)
    requires
        a.wf(),
        a.next_id < u64::MAX,
        a.registered(b, j, now),
        a.sessions.contains_key(x),
    ensures
        sees_joining(
            a,
            b,
            x,
            j.key,
            announced(j.key, j.endpoint, j.can_mesh, j.is_prober, j.not_ideal),
        ),
{
    let present = announced(j.key, j.endpoint, j.can_mesh, j.is_prober, j.not_ideal);
    let text = FrameView::Health(encode_utf8("duplicate DERP connection for node key"@));
    assert(a.fresh(j, now).present_frame() == present);
    let base = a.joined(j, now);
    let (health, presence) = lemma_arrival_plans(a, b, j, now);
    let told = base.offered(health);
    let s = a.sessions[x];
    let order = a.duplicates(j.key);
    lemma_sharing(a, j, now, x);
    lemma_plans_heard(base, health, order, text, presence, a.watchers, present, x);
    assert(b.sessions[x].duplicate == base.sessions[x].duplicate);
    assert(base.sessions[x].offers == s.offers);
}

/// What a client gets that joins.
pub open spec fn is_fresh(t: SessionView, id: u64, key: Seq<u8>, shares: bool, now: u64) -> bool {
    &&& t.id == id
    &&& t.key == key
    &&& !t.closed
    &&& t.duplicate == shares
    &&& !t.preferred
    &&& !t.preferred_seen
    &&& t.connected
    &&& t.limiter.tokens == 3_000_000_000
    &&& t.limiter.updated == now
}

/// Whether a client joined: it has the next number and is its node's active connection. Everybody
/// with its key, and it, is told that the key is in use twice; every watcher that it is here.
/// Nobody is told anything else, and nothing else changes.
pub open spec fn joins(a: RelayView, b: RelayView, j: Joining, now: u64) -> bool {
    let id = a.next_id;
    let t = b.sessions[id];
    let shares = a.peers.contains_key(j.key);
    let text = FrameView::Health(encode_utf8("duplicate DERP connection for node key"@));
    &&& b.next_id == id + 1
    &&& b.sessions.dom() == a.sessions.dom().insert(id)
    &&& is_fresh(t, id, j.key, shares, now)
    &&& t.endpoint == j.endpoint
    &&& t.can_mesh == j.can_mesh
    &&& t.can_ack_pings == j.can_ack_pings
    &&& t.is_prober == j.is_prober
    &&& t.not_ideal == j.not_ideal
    &&& t.queue == j.queue
    &&& t.room == a.queue_depth
    &&& t.offers.len() == (if shares {
        1nat
    } else {
        0
    })
    &&& shares ==> t.offers[0].0 == text
    &&& forall|x: u64| #[trigger]
        a.sessions.contains_key(x) ==> sees_joining(
            a,
            b,
            x,
            j.key,
            announced(j.key, j.endpoint, j.can_mesh, j.is_prober, j.not_ideal),
        )
    &&& b.peers.dom() == a.peers.dom().insert(j.key)
    &&& b.peers[j.key] == (if shares {
        a.peers[j.key].push(id)
    } else {
        seq![id]
    })
    &&& forall|k: Seq<u8>|
        a.peers.contains_key(k) && k != j.key ==> #[trigger] b.peers[k] == a.peers[k]
    &&& a.paths == b.paths
    &&& a.watchers == b.watchers
    &&& a.routes == b.routes
    &&& a.mesh_key == b.mesh_key
    &&& a.queue_depth == b.queue_depth
    &&& up(a.metrics.current_clients, 1, b.metrics.current_clients)
    &&& a.metrics.preferred_clients == b.metrics.preferred_clients
    &&& a.metrics.home_moves_in == b.metrics.home_moves_in
    &&& a.metrics.home_moves_out == b.metrics.home_moves_out
    &&& others_kept(a.metrics, b.metrics)
}

/// What the model says of joining, in plain words.
#[verifier::rlimit(40)]
pub proof fn lemma_joins(a: RelayView, b: RelayView, j: Joining, now: u64)
    requires
        a.wf(),
        a.next_id < u64::MAX,
        a.registered(b, j, now),
    ensures
        joins(a, b, j, now),
{
    let id = a.next_id;
    let present = announced(j.key, j.endpoint, j.can_mesh, j.is_prober, j.not_ideal);
    let text = FrameView::Health(encode_utf8("duplicate DERP connection for node key"@));
    assert forall|x: u64| #[trigger] a.sessions.contains_key(x) implies sees_joining(
        a,
        b,
        x,
        j.key,
        present,
    ) by {
        lemma_sees_joining(a, b, j, now, x);
    }
    let base = a.joined(j, now);
    let (health, presence) = lemma_arrival_plans(a, b, j, now);
    let told = base.offered(health);
    lemma_joined(a, j, now);
    lemma_offered(base, health);
    lemma_offered(told, presence);
    let order = a.duplicates(j.key);
    assert(order.no_duplicates()) by {
        if a.here(j.key) {
            assert(base.list_ok(j.key));
            assert(base.peers[j.key] =~= order);
        }
    }
    assert(order.contains(id) == a.here(j.key)) by {
        if a.here(j.key) {
            assert(order[order.len() - 1] == id);
        }
    }
    assert(!a.watchers.contains(id)) by {
        if a.watchers.contains(id) {
            assert(a.may_mesh(id));
            assert(a.session_ok(id));
        }
    }
    assert(a.fresh(j, now).present_frame() == present);
    lemma_plans_heard(base, health, order, text, presence, a.watchers, present, id);
    if a.here(j.key) {
        assert((due(true, text) + due(false, present))[0] == text);
        assert(b.sessions[id].offers[0].0 == text);
    }
    assert(b.sessions.dom() =~= a.sessions.dom().insert(id));
    assert(b.peers.dom() =~= a.peers.dom().insert(j.key));
    assert(b.peers[j.key] =~= (if a.here(j.key) {
        a.peers[j.key].push(id)
    } else {
        seq![id]
    }));
}

/// A client that registers joins as what it is said to be.
pub proof fn law_joining(
    relay: &mut Relay,
    key: NodeKey,
    endpoint: Endpoint,
    can_mesh: bool,
    can_ack_pings: bool,
    is_prober: bool,
    not_ideal: bool,
    now: u64,
    r: RegisteredSession,
)
    requires
        call_ensures(
            Relay::register,
            (relay, key, endpoint, can_mesh, can_ack_pings, is_prober, not_ideal, now),
            r,
        ),
        old(relay).wf(),
        old(relay)@.next_id < u64::MAX,
    ensures
        r.handle == old(relay)@.next_id,
        joins(
            old(relay)@,
            final(relay)@,
            Joining {
                key: key@,
                endpoint: endpoint@,
                can_mesh,
                can_ack_pings,
                is_prober,
                not_ideal,
                queue: queue_behind(r.rx),
            },
            now,
        ),
{
    let j = Joining {
        key: key@,
        endpoint: endpoint@,
        can_mesh,
        can_ack_pings,
        is_prober,
        not_ideal,
        queue: queue_behind(r.rx),
    };
    lemma_joins(old(relay)@, final(relay)@, j, now);
}

} // verus!
