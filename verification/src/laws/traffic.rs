//! Where packets go, who is told of it and what is counted.

use bytes::Bytes;
use vstd::prelude::*;

use crate::crypto::NodeKey;
use crate::metrics::{plus, Metrics};
use crate::protocol::FrameView;
use crate::relay::model::{
    is_disco, tried_routes, Outcome, RelayView, RouteView, SessionView, DISCO_MAGIC,
};
use crate::relay::upkeep::lemma_active;
use crate::relay::{looks_like_disco_wrapper, Relay, SessionId};
use crate::wire::bytes_view;

verus! {

/// Whether a packet begins with `TS` and U+1F4AC in UTF-8 and has a key and a nonce after that.
pub open spec fn asks(packet: Seq<u8>) -> bool {
    &&& packet.len() >= 62
    &&& packet[0] == 0x54
    &&& packet[1] == 0x53
    &&& packet[2] == 0xF0
    &&& packet[3] == 0x9F
    &&& packet[4] == 0x92
    &&& packet[5] == 0xAC
}

/// Whether a connection has a report left: three a second, three at most.
pub open spec fn has_report(s: SessionView, now: u64) -> bool {
    s.limiter.tokens >= 1_000_000_000 || (now > s.limiter.updated && s.limiter.tokens + 3 * (now
        - s.limiter.updated) >= 1_000_000_000)
}

/// Whether a connection's reports were counted: three each second are earned, three at most, and
/// one is used up where it was told something.
pub open spec fn reports_counted(a: SessionView, b: SessionView, now: u64, told: bool) -> bool {
    let since: int = if now >= a.limiter.updated {
        now - a.limiter.updated
    } else {
        0
    };
    let earned = a.limiter.tokens + 3 * since;
    let level: int = if earned < 3_000_000_000 {
        earned
    } else {
        3_000_000_000
    };
    &&& b.limiter.updated == now
    &&& b.limiter.tokens == level - 1_000_000_000 * one_if(told)
}

/// Whether a counter that wraps around at 2^64 went up by `n`.
pub open spec fn up(before: u64, n: nat, after: u64) -> bool {
    after as int == (before + n) % 0x1_0000_0000_0000_0000
}

/// One or none.
pub open spec fn one_if(b: bool) -> nat {
    if b {
        1
    } else {
        0
    }
}

/// Whether a packet of `len` bytes was counted so. No other number changes.
pub open spec fn tallied(
    a: Metrics,
    b: Metrics,
    len: nat,
    from_mesh: bool,
    delivered: bool,
    to_mesh: bool,
    lost: bool,
    refused: bool,
) -> bool {
    &&& up(a.packets_received, 1, b.packets_received)
    &&& up(a.bytes_received, len, b.bytes_received)
    &&& up(a.mesh_forwarded_in, one_if(from_mesh), b.mesh_forwarded_in)
    &&& up(a.packets_sent, one_if(delivered), b.packets_sent)
    &&& up(a.bytes_sent, one_if(delivered) * len, b.bytes_sent)
    &&& up(a.mesh_forwarded_out, one_if(to_mesh), b.mesh_forwarded_out)
    &&& up(a.packets_dropped, one_if(lost), b.packets_dropped)
    &&& up(a.queue_dropped, one_if(refused), b.queue_dropped)
    &&& a.accepts == b.accepts
    &&& a.current_clients == b.current_clients
    &&& a.preferred_clients == b.preferred_clients
    &&& a.home_moves_in == b.home_moves_in
    &&& a.home_moves_out == b.home_moves_out
    &&& a.unknown_frames == b.unknown_frames
    &&& a.websocket_accepts == b.websocket_accepts
    &&& a.stun_requests == b.stun_requests
    &&& a.admission_rejected == b.admission_rejected
}

/// Whether exactly one frame more was offered to a connection, and its queue gave this answer.
pub open spec fn offered_one(a: SessionView, b: SessionView, frame: FrameView, ok: bool) -> bool {
    &&& b.offers.len() == a.offers.len() + 1
    &&& b.offers.last() == (frame, ok)
    &&& forall|i: int| 0 <= i < a.offers.len() ==> b.offers[i] == a.offers[i]
}

/// Whether nothing but what was offered to it, and its reports, changed of a connection.
pub open spec fn stands(a: SessionView, b: SessionView) -> bool {
    &&& a.id == b.id
    &&& a.key == b.key
    &&& a.endpoint == b.endpoint
    &&& a.can_mesh == b.can_mesh
    &&& a.can_ack_pings == b.can_ack_pings
    &&& a.is_prober == b.is_prober
    &&& a.not_ideal == b.not_ideal
    &&& a.closed == b.closed
    &&& a.duplicate == b.duplicate
    &&& a.preferred == b.preferred
    &&& a.preferred_seen == b.preferred_seen
    &&& a.connected == b.connected
    &&& a.queue == b.queue
    &&& a.room == b.room
}

/// Whether nobody came or went between two states, and no connection but one changed.
pub open spec fn only(a: RelayView, b: RelayView, one: u64) -> bool {
    &&& a.peers == b.peers
    &&& a.watchers == b.watchers
    &&& a.next_id == b.next_id
    &&& a.mesh_key == b.mesh_key
    &&& a.queue_depth == b.queue_depth
    &&& a.sessions.dom() == b.sessions.dom()
    &&& forall|id: u64|
        a.sessions.dom().contains(id) && id != one ==> a.sessions[id] == #[trigger] b.sessions[id]
    &&& a.sessions.dom().contains(one) ==> stands(a.sessions[one], b.sessions[one])
}

/// Whether a frame was offered to routes in turn: this many refused it and the next one, if there
/// is one, took it. The others were offered nothing.
pub open spec fn in_turn(a: Seq<RouteView>, b: Seq<RouteView>, frame: FrameView, tried: int) -> bool {
    &&& 0 <= tried <= a.len() == b.len()
    &&& forall|i: int|
        0 <= i < a.len() ==> (#[trigger] b[i]).mesh_id == a[i].mesh_id && b[i].queue == a[i].queue
            && b[i].offers == (if i < tried {
            a[i].offers.push((frame, false))
        } else if i == tried {
            a[i].offers.push((frame, true))
        } else {
            a[i].offers
        })
}

proof fn lemma_disco(packet: Seq<u8>)
    ensures
        is_disco(packet) <==> asks(packet),
{
    if packet.len() >= 62 {
        let head = packet.subrange(0, 6);
        assert(forall|i: int| 0 <= i < 6 ==> head[i] == packet[i]);
        if asks(packet) {
            assert(head =~= DISCO_MAGIC@);
        }
        if is_disco(packet) {
            assert(head[0] == DISCO_MAGIC@[0] && head[1] == DISCO_MAGIC@[1] && head[2]
                == DISCO_MAGIC@[2] && head[3] == DISCO_MAGIC@[3] && head[4] == DISCO_MAGIC@[4]
                && head[5] == DISCO_MAGIC@[5]);
        }
    }
}

proof fn lemma_up(x: u64, n: nat)
    requires
        n <= u64::MAX,
    ensures
        up(x, n, plus(x, n as u64)),
        up(x, 0, x),
{
}

/// A packet counts as a disco message by its six first bytes, where it has 62 or more: whatever
/// comes after changes nothing, however much it is.
pub proof fn law_disco_packets(packet: &[u8], longer: &[u8], r: bool, s: bool)
    requires
        call_ensures(looks_like_disco_wrapper, (packet,), r),
        call_ensures(looks_like_disco_wrapper, (longer,), s),
    ensures
        r <==> asks(packet@),
        packet@.len() >= 62 && packet@.is_prefix_of(longer@) ==> r == s,
{
    lemma_disco(packet@);
    lemma_disco(longer@);
}

/// Whether a node that is here was offered the packet, with its sender's key, on the connection
/// that was active last, and nobody anything else. Taken, the packet is counted as sent and its
/// path is remembered; refused, it is counted as lost.
pub open spec fn delivered(
    a: RelayView,
    b: RelayView,
    src: Seq<u8>,
    dst: Seq<u8>,
    packet: Seq<u8>,
    forwarded: bool,
) -> bool {
    let to = a.peers[dst].last();
    let ok = b.sessions[to].offers.last().1;
    &&& a.sessions.contains_key(to)
    &&& only(a, b, to)
    &&& offered_one(a.sessions[to], b.sessions[to], FrameView::RecvPacket { src, packet }, ok)
    &&& a.sessions[to].limiter == b.sessions[to].limiter
    &&& a.routes == b.routes
    &&& ok ==> b.paths == a.paths.insert((src, dst))
    &&& !ok ==> b.paths == a.paths
    &&& tallied(a.metrics, b.metrics, packet.len(), forwarded, ok, false, !ok, !ok)
}

/// Whether a packet was lost, and its sender told that the node is not here exactly where the
/// packet is a disco message and the sender has a report left. Nobody else is told anything.
pub open spec fn not_here(
    a: RelayView,
    b: RelayView,
    source: u64,
    dst: Seq<u8>,
    packet: Seq<u8>,
    forwarded: bool,
    now: u64,
) -> bool {
    let known = a.sessions.contains_key(source);
    let told = known && asks(packet) && has_report(a.sessions[source], now);
    let ok = b.sessions[source].offers.last().1;
    let gone = FrameView::PeerGone { peer: dst, reason: 1 };
    &&& only(a, b, source)
    &&& told ==> offered_one(a.sessions[source], b.sessions[source], gone, ok)
    &&& known && !told ==> b.sessions[source].offers == a.sessions[source].offers
    &&& known && !asks(packet) ==> b.sessions[source].limiter == a.sessions[source].limiter
    &&& known && asks(packet) ==> reports_counted(a.sessions[source], b.sessions[source], now, told)
    &&& a.routes == b.routes
    &&& a.paths == b.paths
    &&& tallied(a.metrics, b.metrics, packet.len(), forwarded, false, false, true, told && !ok)
}

/// Whether a packet was offered to the ways to its node in turn, with this many refusals. Where one
/// took it, it is counted as sent out and nobody here is told anything. Where none did, it is lost
/// and its sender told as for a node that nobody knows.
pub open spec fn sent_on(
    a: RelayView,
    b: RelayView,
    source: u64,
    src: Seq<u8>,
    dst: Seq<u8>,
    packet: Seq<u8>,
    now: u64,
    tried: int,
) -> bool {
    let known = a.sessions.contains_key(source);
    let taken = tried < a.routes[dst].len();
    let told = !taken && known && asks(packet) && has_report(a.sessions[source], now);
    let ok = b.sessions[source].offers.last().1;
    let gone = FrameView::PeerGone { peer: dst, reason: 1 };
    &&& in_turn(
        a.routes[dst],
        b.routes[dst],
        FrameView::ForwardPacket { src, dst, packet },
        tried,
    )
    &&& a.routes.dom() == b.routes.dom()
    &&& forall|k: Seq<u8>|
        a.routes.dom().contains(k) && k != dst ==> a.routes[k] == #[trigger] b.routes[k]
    &&& a.paths == b.paths
    &&& only(a, b, source)
    &&& taken ==> a.sessions == b.sessions
    &&& told ==> offered_one(a.sessions[source], b.sessions[source], gone, ok)
    &&& known && !told ==> a.sessions[source].offers == b.sessions[source].offers
    &&& known && !asks(packet) ==> b.sessions[source].limiter == a.sessions[source].limiter
    &&& known && asks(packet) && !taken ==> reports_counted(
        a.sessions[source],
        b.sessions[source],
        now,
        told,
    )
    &&& tallied(a.metrics, b.metrics, packet.len(), false, false, taken, !taken, told && !ok)
}

/// Who is told that a node is not here.
#[verifier::rlimit(40)]
proof fn lemma_told(
    v: RelayView,
    b: RelayView,
    source: u64,
    dst: Seq<u8>,
    packet: Seq<u8>,
    now: u64,
    answer: bool,
)
    requires
        b == v.not_here_told(source, dst, packet, now, answer),
    ensures
        ({
            let known = v.sessions.contains_key(source);
            let told = known && asks(packet) && has_report(v.sessions[source], now);
            let ok = b.sessions[source].offers.last().1;
            let gone = FrameView::PeerGone { peer: dst, reason: 1 };
            &&& only(v, b, source)
            &&& told ==> offered_one(v.sessions[source], b.sessions[source], gone, ok)
            &&& known && !told ==> b.sessions[source].offers == v.sessions[source].offers
            &&& known && !asks(packet) ==> b.sessions[source].limiter == v.sessions[source].limiter
            &&& known && asks(packet) ==> reports_counted(
                v.sessions[source],
                b.sessions[source],
                now,
                told,
            )
            &&& v.routes == b.routes
            &&& v.paths == b.paths
            &&& up(v.metrics.queue_dropped, one_if(told && !ok), b.metrics.queue_dropped)
            &&& b.metrics == (Metrics { queue_dropped: b.metrics.queue_dropped, ..v.metrics })
        }),
{
    lemma_disco(packet);
    assert(b.sessions.dom() =~= v.sessions.dom());
}

/// Where no way takes a packet, it is lost and its sender told.
#[verifier::rlimit(40)]
proof fn lemma_lost(
    a: RelayView,
    b: RelayView,
    source: u64,
    src: Seq<u8>,
    dst: Seq<u8>,
    packet: Seq<u8>,
    now: u64,
    o: Outcome,
)
    requires
        !a.peers.contains_key(dst),
        a.routes.contains_key(dst),
        !o.sent_out,
        packet.len() <= usize::MAX,
        b == a.routed_with(source, src, dst, packet, false, now, o),
    ensures
        ({
            let known = a.sessions.contains_key(source);
            let told = known && asks(packet) && has_report(a.sessions[source], now);
            let ok = b.sessions[source].offers.last().1;
            let gone = FrameView::PeerGone { peer: dst, reason: 1 };
            &&& a.paths == b.paths
            &&& only(a, b, source)
            &&& told ==> offered_one(a.sessions[source], b.sessions[source], gone, ok)
            &&& known && !told ==> a.sessions[source].offers == b.sessions[source].offers
            &&& known && !asks(packet) ==> b.sessions[source].limiter == a.sessions[source].limiter
            &&& known && asks(packet) ==> reports_counted(
                a.sessions[source],
                b.sessions[source],
                now,
                told,
            )
            &&& tallied(a.metrics, b.metrics, packet.len(), false, false, false, true, told && !ok)
        }),
{
    let counted = a.counted(packet.len(), false);
    let tried = counted.sent_to_mesh(src, dst, packet, o.tried, false);
    let lost = RelayView {
        metrics: Metrics {
            packets_dropped: plus(tried.metrics.packets_dropped, 1),
            ..tried.metrics
        },
        ..tried
    };
    assert(b == lost.not_here_told(source, dst, packet, now, o.ok));
    lemma_told(lost, b, source, dst, packet, now, o.ok);
    lemma_up(a.metrics.packets_received, 1);
    lemma_up(a.metrics.bytes_received, packet.len());
    assert(0 * packet.len() == 0);
}

/// Whether a packet went where it should: to its node where that is here; else, unless it came from
/// the mesh, over the mesh where a way is known; else nowhere.
#[verifier::opaque]
pub open spec fn relayed(
    a: RelayView,
    b: RelayView,
    source: u64,
    src: Seq<u8>,
    dst: Seq<u8>,
    packet: Seq<u8>,
    forwarded: bool,
    now: u64,
) -> bool {
    if a.peers.contains_key(dst) {
        delivered(a, b, src, dst, packet, forwarded)
    } else if forwarded || !a.routes.contains_key(dst) {
        not_here(a, b, source, dst, packet, forwarded, now)
    } else {
        exists|tried: int| sent_on(a, b, source, src, dst, packet, now, tried)
    }
}

#[verifier::rlimit(40)]
proof fn lemma_delivered(
    a: RelayView,
    b: RelayView,
    source: u64,
    src: Seq<u8>,
    dst: Seq<u8>,
    packet: Seq<u8>,
    forwarded: bool,
    now: u64,
)
    requires
        a.wf(),
        a.peers.contains_key(dst),
        a.routed(b, source, src, dst, packet, forwarded, now),
        packet.len() <= usize::MAX,
    ensures
        delivered(a, b, src, dst, packet, forwarded),
{
    let o = choose|o: Outcome|
        b == #[trigger] a.routed_with(source, src, dst, packet, forwarded, now, o);
    lemma_active(a, dst);
    let to = a.peers[dst].last();
    assert(a.sessions.dom().insert(to) =~= a.sessions.dom());
    lemma_up(a.metrics.packets_received, 1);
    lemma_up(a.metrics.bytes_received, packet.len());
    lemma_up(a.metrics.bytes_sent, packet.len());
    assert(b.sessions.dom() =~= a.sessions.dom());
    let s = b.sessions[to];
    assert(s.offers == a.sessions[to].offers.push(s.offers.last()));
    if s.offers.last().1 {
        assert(1 * packet.len() == packet.len());
    } else {
        assert(0 * packet.len() == 0);
    }
}

#[verifier::rlimit(40)]
proof fn lemma_not_here(
    a: RelayView,
    b: RelayView,
    source: u64,
    src: Seq<u8>,
    dst: Seq<u8>,
    packet: Seq<u8>,
    forwarded: bool,
    now: u64,
)
    requires
        !a.peers.contains_key(dst),
        forwarded || !a.routes.contains_key(dst),
        a.routed(b, source, src, dst, packet, forwarded, now),
        packet.len() <= usize::MAX,
    ensures
        not_here(a, b, source, dst, packet, forwarded, now),
{
    let o = choose|o: Outcome|
        {
            &&& !forwarded ==> a.mesh_answers(dst, o.tried, o.sent_out)
            &&& b == #[trigger] a.routed_with(source, src, dst, packet, forwarded, now, o)
        };
    let counted = a.counted(packet.len(), forwarded);
    let lost = RelayView {
        metrics: Metrics {
            packets_dropped: plus(counted.metrics.packets_dropped, 1),
            ..counted.metrics
        },
        ..counted
    };
    assert(b == lost.not_here_told(source, dst, packet, now, o.ok));
    lemma_told(lost, b, source, dst, packet, now, o.ok);
    lemma_up(a.metrics.packets_received, 1);
    lemma_up(a.metrics.bytes_received, packet.len());
    assert(0 * packet.len() == 0);
}

#[verifier::rlimit(40)]
proof fn lemma_sent_on(
    a: RelayView,
    b: RelayView,
    source: u64,
    src: Seq<u8>,
    dst: Seq<u8>,
    packet: Seq<u8>,
    now: u64,
)
    requires
        !a.peers.contains_key(dst),
        a.routes.contains_key(dst),
        a.routed(b, source, src, dst, packet, false, now),
        packet.len() <= usize::MAX,
    ensures
        exists|tried: int| sent_on(a, b, source, src, dst, packet, now, tried),
{
    let o = choose|o: Outcome|
        {
            &&& a.mesh_answers(dst, o.tried, o.sent_out)
            &&& b == #[trigger] a.routed_with(source, src, dst, packet, false, now, o)
        };
    lemma_disco(packet);
    lemma_up(a.metrics.packets_received, 1);
    lemma_up(a.metrics.bytes_received, packet.len());
    assert(0 * packet.len() == 0);
    assert(b.sessions.dom() =~= a.sessions.dom());
    assert(b.routes.dom() =~= a.routes.dom());
    let p = a.routes[dst];
    let frame = FrameView::ForwardPacket { src, dst, packet };
    assert(b.routes[dst] == tried_routes(p, frame, o.tried, o.sent_out));
    let tried: int = o.tried as int;
    assert(in_turn(p, b.routes[dst], frame, tried));
    if o.sent_out {
        assert(only(a, b, source));
        assert(tallied(a.metrics, b.metrics, packet.len(), false, false, true, false, false));
    } else {
        lemma_lost(a, b, source, src, dst, packet, now, o);
    }
    assert(sent_on(a, b, source, src, dst, packet, now, tried));
}

/// What the model says of routing, in plain words.
pub proof fn lemma_relayed(
    a: RelayView,
    b: RelayView,
    source: u64,
    src: Seq<u8>,
    dst: Seq<u8>,
    packet: Seq<u8>,
    forwarded: bool,
    now: u64,
)
    requires
        a.wf(),
        a.routed(b, source, src, dst, packet, forwarded, now),
        packet.len() <= usize::MAX,
    ensures
        relayed(a, b, source, src, dst, packet, forwarded, now),
{
    reveal(relayed);
    if a.peers.contains_key(dst) {
        lemma_delivered(a, b, source, src, dst, packet, forwarded, now);
    } else if forwarded || !a.routes.contains_key(dst) {
        lemma_not_here(a, b, source, src, dst, packet, forwarded, now);
    } else {
        lemma_sent_on(a, b, source, src, dst, packet, now);
    }
}

/// A packet goes to the active connection of its node, over the mesh or nowhere, and who is told of
/// it and what is counted follows from that.
pub proof fn law_packets_are_relayed(
    relay: &mut Relay,
    source: SessionId,
    src: NodeKey,
    dst: NodeKey,
    packet: Bytes,
    forwarded: bool,
    now: u64,
)
    requires
        call_ensures(Relay::route, (relay, source, src, dst, packet, forwarded, now), ()),
        old(relay).wf(),
        bytes_view(packet).len() <= usize::MAX,
    ensures
        relayed(
            old(relay)@,
            final(relay)@,
            source,
            src@,
            dst@,
            bytes_view(packet),
            forwarded,
            now,
        ),
{
    lemma_relayed(
        old(relay)@,
        final(relay)@,
        source,
        src@,
        dst@,
        bytes_view(packet),
        forwarded,
        now,
    );
}

/// A sender of a disco message to a node that is neither here nor in the mesh is told so, however
/// long the message is, while it has a report left: its last offer says that this node is not here.
pub proof fn law_disco_senders_are_told(
    relay: &mut Relay,
    source: SessionId,
    src: NodeKey,
    dst: NodeKey,
    packet: Bytes,
    now: u64,
)
    requires
        call_ensures(Relay::route, (relay, source, src, dst, packet, false, now), ()),
        old(relay).wf(),
        old(relay)@.sessions.contains_key(source),
        !old(relay)@.peers.contains_key(dst@),
        !old(relay)@.routes.contains_key(dst@),
        has_report(old(relay)@.sessions[source], now),
        asks(bytes_view(packet)),
        bytes_view(packet).len() <= usize::MAX,
    ensures
        ({
            let (p, q) = (old(relay)@.sessions[source].offers, final(relay)@.sessions[source].offers);
            &&& q.len() == p.len() + 1
            &&& q.drop_last() == p
            &&& q.last().0 == (FrameView::PeerGone { peer: dst@, reason: 1 })
        }),
{
    lemma_not_here(
        old(relay)@,
        final(relay)@,
        source,
        src@,
        dst@,
        bytes_view(packet),
        false,
        now,
    );
    let (p, q) = (old(relay)@.sessions[source].offers, final(relay)@.sessions[source].offers);
    assert(q.drop_last() =~= p);
}

/// A delivery that is settled is counted with its bytes and leaves a path where it was taken, and
/// is counted as lost where it was not.
pub proof fn law_deliveries_are_settled(
    relay: &mut Relay,
    src: NodeKey,
    dst: NodeKey,
    len: usize,
    accepted: bool,
)
    requires
        call_ensures(Relay::settle_delivery, (relay, src, dst, len, accepted), ()),
        old(relay)@.peers.contains_key(dst@),
    ensures
        ({
            let (a, b) = (old(relay)@, final(relay)@);
            &&& a.sessions == b.sessions
            &&& a.peers == b.peers
            &&& a.watchers == b.watchers
            &&& a.routes == b.routes
            &&& accepted ==> b.paths == a.paths.insert((src@, dst@)) && up(
                a.metrics.packets_sent,
                1,
                b.metrics.packets_sent,
            ) && up(a.metrics.bytes_sent, len as nat, b.metrics.bytes_sent)
                && a.metrics.packets_dropped == b.metrics.packets_dropped
            &&& !accepted ==> b.paths == a.paths && a.metrics.packets_sent
                == b.metrics.packets_sent && a.metrics.bytes_sent == b.metrics.bytes_sent && up(
                a.metrics.packets_dropped,
                1,
                b.metrics.packets_dropped,
            )
        }),
{
}

} // verus!
