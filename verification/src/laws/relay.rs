//! What each call of the relay does to it: the step of the model that it takes, with its own
//! arguments in their places.

use bytes::Bytes;
use tokio::sync::mpsc::Sender;
use vstd::prelude::*;

use crate::crypto::NodeKey;
use crate::endpoint::Endpoint;
use crate::laws::numbers::listed;
use crate::protocol::Frame;
use crate::queue::{offers, queue_behind, queue_of, reads};
use crate::relay::laws::{does, Op};
use crate::relay::model::Joining;
use crate::relay::{RegisteredSession, Relay, SessionHandle, SessionId};
use crate::wire::bytes_view;

verus! {

/// An empty relay: nobody is here, nothing is counted, and the first connection gets the number
/// one. A queue holds one frame at least.
pub proof fn law_new_relays_are_empty(depth: usize, mesh_key: Option<[u8; 32]>, r: Relay)
    requires
        call_ensures(Relay::new, (depth, mesh_key), r),
    ensures
        r.wf(),
        r@.sessions.dom() == Set::<u64>::empty(),
        r@.peers.dom() == Set::<Seq<u8>>::empty(),
        r@.paths == Set::<(Seq<u8>, Seq<u8>)>::empty(),
        r@.watchers == Set::<u64>::empty(),
        r@.routes.dom() == Set::<Seq<u8>>::empty(),
        r@.next_id == 1,
        r@.queue_depth == (if depth == 0 {
            1
        } else {
            depth
        }),
        r@.mesh_key is Some == mesh_key is Some,
        mesh_key matches Some(k) ==> r@.mesh_key == Some(k@),
        forall|i: int| 0 <= i < 17 ==> (#[trigger] listed(r@.metrics)[i]).2 == 0,
{
    reveal(listed);
}

/// A key is a mesh member's exactly where the relay has one and it is the same.
pub proof fn law_members_share_a_key(relay: &Relay, key: Option<[u8; 32]>, r: bool)
    requires
        call_ensures(Relay::is_mesh_key, (relay, key), r),
    ensures
        r <==> (relay@.mesh_key matches Some(own) && key matches Some(k) && own == k@),
{
}

/// The relay tells how many connections have not left, and how many nodes are here.
pub proof fn law_the_relay_counts(relay: &Relay, clients: usize, nodes: usize)
    requires
        call_ensures(Relay::client_count, (relay,), clients),
        call_ensures(Relay::public_peer_count, (relay,), nodes),
    ensures
        clients == relay@.sessions.dom().filter(|id: u64| relay@.sessions[id].connected).len(),
        nodes == relay@.peers.dom().len(),
{
}

/// A connection is found by its number, with its key and its rights.
pub proof fn law_connections_are_found(
    relay: &Relay,
    id: SessionId,
    s: Option<&SessionHandle>,
    key: Option<NodeKey>,
    member: bool,
)
    requires
        call_ensures(Relay::session, (relay, id), s),
        call_ensures(Relay::session_key, (relay, id), key),
        call_ensures(Relay::is_mesh_member, (relay, id), member),
    ensures
        s is Some == relay@.sessions.dom().contains(id),
        s matches Some(x) ==> x@ == relay@.sessions[id],
        key is Some == relay@.sessions.dom().contains(id),
        key matches Some(k) ==> k@ == relay@.sessions[id].key,
        member <==> relay@.sessions.dom().contains(id) && relay@.sessions[id].can_mesh,
{
}

/// What a connection says of itself is what the model holds of it.
pub proof fn law_connections_tell_of_themselves(s: SessionHandle, closed: bool, acks: bool, f: u8)
    requires
        call_ensures(SessionHandle::is_closed, (&s,), closed),
        call_ensures(SessionHandle::acks_pings, (&s,), acks),
        call_ensures(SessionHandle::flags, (&s,), f),
    ensures
        closed == s@.closed,
        acks == s@.can_ack_pings,
        !s@.can_mesh && !s@.is_prober && !s@.not_ideal ==> f == 1,
        s@.can_mesh || s@.is_prober || s@.not_ideal ==> f == (if s@.can_mesh {
            2int
        } else {
            0
        }) + (if s@.is_prober {
            4int
        } else {
            0
        }) + (if s@.not_ideal {
            8int
        } else {
            0
        }),
{
}

/// A client registers: it joins under the next number, as what it says it is.
pub proof fn law_registering(
    relay: &mut Relay,
    key: NodeKey,
    endpoint: Endpoint,
    can_mesh: bool,
    can_ack_pings: bool,
    is_prober: bool,
    not_ideal: bool,
    now: u64,
    r: RegisteredSession,
)
    requires
        call_ensures(
            Relay::register,
            (relay, key, endpoint, can_mesh, can_ack_pings, is_prober, not_ideal, now),
            r,
        ),
        old(relay)@.next_id < u64::MAX,
    ensures
        r.handle == old(relay)@.next_id,
        reads(r.rx).len() == 0,
        does(
            old(relay)@,
            Op::Register {
                joining: Joining {
                    key: key@,
                    endpoint: endpoint@,
                    can_mesh,
                    can_ack_pings,
                    is_prober,
                    not_ideal,
                    queue: queue_behind(r.rx),
                },
                now,
            },
            final(relay)@,
        ),
{
}

/// A connection leaves, is released or is used, and its client says whether it prefers this relay.
pub proof fn law_of_one_connection(
    a: &mut Relay,
    b: &mut Relay,
    c: &mut Relay,
    d: &mut Relay,
    id: SessionId,
    preferred: bool,
)
    requires
        call_ensures(Relay::unregister, (a, id), ()),
        call_ensures(Relay::release, (b, id), ()),
        call_ensures(Relay::note_activity, (c, id), ()),
        call_ensures(Relay::note_preferred, (d, id, preferred), ()),
    ensures
        does(old(a)@, Op::Unregister { id }, final(a)@),
        does(old(b)@, Op::Release { id }, final(b)@),
        does(old(c)@, Op::NoteActivity { id }, final(c)@),
        does(old(d)@, Op::NotePreferred { id, preferred }, final(d)@),
{
}

/// A packet is routed from its source to its destination.
pub proof fn law_routing(
    relay: &mut Relay,
    source: SessionId,
    src: NodeKey,
    dst: NodeKey,
    packet: Bytes,
    forwarded: bool,
    now: u64,
)
    requires
        call_ensures(Relay::route, (relay, source, src, dst, packet, forwarded, now), ()),
    ensures
        does(
            old(relay)@,
            Op::Route { source, src: src@, dst: dst@, packet: bytes_view(packet), forwarded, now },
            final(relay)@,
        ),
{
}

/// A delivery is settled.
pub proof fn law_settling(relay: &mut Relay, src: NodeKey, dst: NodeKey, len: usize, accepted: bool)
    requires
        call_ensures(Relay::settle_delivery, (relay, src, dst, len, accepted), ()),
        old(relay)@.peers.contains_key(dst@),
    ensures
        does(
            old(relay)@,
            Op::SettleDelivery { src: src@, dst: dst@, len: len as nat, accepted },
            final(relay)@,
        ),
{
}

/// Ways through the mesh come and go.
pub proof fn law_of_mesh_routes(
    a: &mut Relay,
    b: &mut Relay,
    c: &mut Relay,
    mesh_id: u64,
    peer: NodeKey,
    tx: Sender<Frame>,
)
    requires
        call_ensures(Relay::add_mesh_route, (a, mesh_id, peer, tx), ()),
        call_ensures(Relay::remove_mesh_route, (b, mesh_id, peer), ()),
        call_ensures(Relay::remove_mesh, (c, mesh_id), ()),
    ensures
        does(
            old(a)@,
            Op::AddMeshRoute { mesh_id, peer: peer@, queue: queue_of(tx), offers: offers(tx) },
            final(a)@,
        ),
        does(old(b)@, Op::RemoveMeshRoute { mesh_id, peer: peer@ }, final(b)@),
        does(old(c)@, Op::RemoveMesh { mesh_id }, final(c)@),
{
}

/// A mesh member watches, or has a node's connections closed; nobody else may.
pub proof fn law_of_mesh_members(
    a: &mut Relay,
    b: &mut Relay,
    id: SessionId,
    peer: NodeKey,
    watching: bool,
    closing: bool,
)
    requires
        call_ensures(Relay::watch, (a, id), watching),
        call_ensures(Relay::close_peer, (b, id, peer), closing),
    ensures
        watching <==> old(a)@.sessions.contains_key(id) && old(a)@.sessions[id].can_mesh,
        closing <==> old(b)@.sessions.contains_key(id) && old(b)@.sessions[id].can_mesh && old(
            b,
        )@.peers.contains_key(peer@),
        does(old(a)@, Op::Watch { id }, final(a)@),
        does(old(b)@, Op::ClosePeer { requester: id, peer: peer@ }, final(b)@),
{
}

/// Frames that are sent by hand, restarts, and what is counted.
pub proof fn law_of_notices(
    a: &mut Relay,
    b: &mut Relay,
    c: &mut Relay,
    d: &mut Relay,
    id: SessionId,
    frame: Frame,
    taken: bool,
    reconnect_in_ms: u32,
    try_for_ms: u32,
)
    requires
        call_ensures(Relay::send_to, (a, id, frame), taken),
        call_ensures(Relay::broadcast_restart, (b, reconnect_in_ms, try_for_ms), ()),
        call_ensures(Relay::count_rejection, (c,), ()),
        call_ensures(Relay::count_unknown_frame, (d,), ()),
    ensures
        does(old(a)@, Op::SendTo { id, frame: frame@ }, final(a)@),
        old(a)@.sessions.contains_key(id) ==> final(a)@.sessions[id].offers == old(
            a,
        )@.sessions[id].offers.push((frame@, taken)),
        !old(a)@.sessions.contains_key(id) ==> !taken,
        does(old(b)@, Op::BroadcastRestart { reconnect_in_ms, try_for_ms }, final(b)@),
        does(old(c)@, Op::CountRejection, final(c)@),
        does(old(d)@, Op::CountUnknownFrame, final(d)@),
{
    let v = old(a)@;
    if v.sessions.contains_key(id) {
        let o = crate::relay::model::Offer { id, frame: frame@, ok: taken };
        assert(final(a)@ == v.deliver(o));
    }
}

/// A frame that is handed to a connection is offered to its queue; one that is refused is counted.
pub proof fn law_offering(
    s: &mut SessionHandle,
    frame: Frame,
    metrics: &mut crate::metrics::Metrics,
    r: bool,
)
    requires
        call_ensures(SessionHandle::send, (s, frame, metrics), r),
    ensures
        final(s)@.offers == old(s)@.offers.push((frame@, r)),
        final(s)@.queue == old(s)@.queue,
        final(s)@.key == old(s)@.key,
        final(s)@.closed == old(s)@.closed,
        r ==> *final(metrics) == *old(metrics),
        !r ==> final(metrics).queue_dropped == (old(metrics).queue_dropped + 1)
            % 0x1_0000_0000_0000_0000,
        final(metrics).packets_dropped == old(metrics).packets_dropped,
{
}

/// A connection that is closed is closed.
pub proof fn law_closing(s: &mut SessionHandle)
    requires
        call_ensures(SessionHandle::close, (s,), ()),
    ensures
        final(s)@.closed,
        final(s)@.offers == old(s)@.offers,
        final(s)@.key == old(s)@.key,
{
}

/// There is room for another connection while numbers are left and its queue can be made.
pub proof fn law_has_room(relay: &Relay, r: bool)
    requires
        call_ensures(Relay::has_room, (relay,), r),
    ensures
        r <==> relay@.next_id < u64::MAX && relay@.queue_depth <= usize::MAX / 8,
{
}

} // verus!
