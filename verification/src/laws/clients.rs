//! How a client is greeted, identified, admitted and served, and what is written to it.

use bytes::{Bytes, BytesMut};
use tokio::sync::mpsc::Receiver;
use vstd::prelude::*;

use crate::crypto::{box_opened, box_public, box_sealed, KeyError, NodeKey, NodeKeyPair};
use crate::endpoint::Endpoint;
use crate::laws::changes::{
    closes, home_noted, lemma_closes, lemma_used, lemma_watches, used, watches,
};
use crate::laws::connections::{joins, lemma_joins};
use crate::laws::plain::{from, lemma_eight, number, part};
use crate::laws::traffic::{lemma_relayed, offered_one, only, relayed, up};
use crate::metrics::Metrics;
use crate::protocol::{encodings, lemma_encodings_push, ClientInfo, Frame, FrameView, ProtocolError};
use crate::queue::{frames_in, queue_behind, reads};
use crate::relay::laws::lemma_one_offer;
use crate::relay::model::{Joining, Offer, RelayView};
use crate::relay::{RegisteredSession, Relay, SessionId};
use crate::server::{
    check_admission, fill_batch, fill_control, greeting, handle_frame, identify, is_disconnect,
    join, keepalive_frame, keepalive_with, on_tick, welcome, AdmissionReply, Cause, HandshakeError,
    Identified, ReaderError, Refusal, Tick, WriterAction,
};
use crate::wire::{buffer_view, bytes_view};

verus! {

/// The server says first who it is.
pub proof fn law_greetings(key: NodeKeyPair, r: Frame)
    requires
        call_ensures(greeting, (&key,), r),
    ensures
        r matches Frame::ServerKey(k) && k@ == box_public(key.secret()),
{
}

/// A client is who it says it is where its info opens with that key, 24 bytes of nonce in front,
/// and has no more than 256 KiB. Any other first frame is refused.
pub proof fn law_clients_prove_their_key(
    key: NodeKeyPair,
    frame: Frame,
    r: Result<Identified, HandshakeError>,
)
    requires
        call_ensures(identify, (&key, frame), r),
    ensures
        frame !is ClientInfo <==> r == Err::<Identified, HandshakeError>(
            HandshakeError::NotClientInfo,
        ),
        frame matches Frame::ClientInfo { key: client, sealed } ==> {
            let s = bytes_view(sealed);
            let text = box_opened(key.secret(), client@, part(s, 0, 24), from(s, 24));
            let proved = s.len() >= 24 && text is Some;
            &&& !proved ==> r == Err::<Identified, HandshakeError>(HandshakeError::InvalidProof)
            &&& proved && text->0.len() > 262144 ==> r == Err::<Identified, HandshakeError>(
                HandshakeError::InfoTooLarge,
            )
            &&& proved && text->0.len() <= 262144 ==> (r matches Ok(id) && id.client@ == client@
                && id.info_text@ == text->0)
        },
{
}

/// A mesh member is always admitted. Another client is admitted where there is no controller, where
/// it cannot be reached and the server admits without it, and where it answers 2xx and yes; what it
/// is refused for otherwise tells the cases apart.
pub proof fn law_admission(mesh: bool, reply: AdmissionReply, open: bool, r: Result<(), Refusal>)
    requires
        call_ensures(check_admission, (mesh, reply, open), r),
    ensures
        mesh ==> r is Ok,
        !mesh ==> match reply {
            AdmissionReply::NotAsked => r is Ok,
            AdmissionReply::Unreachable => if open {
                r is Ok
            } else {
                r == Err::<(), Refusal>(Refusal::ControllerUnreachable)
            },
            AdmissionReply::Answered { status, allow } => if status < 200 || status > 299 {
                r == Err::<(), Refusal>(Refusal::ControllerStatus(status))
            } else if allow is None {
                r == Err::<(), Refusal>(Refusal::ControllerAnswer)
            } else if allow->0 {
                r is Ok
            } else {
                r == Err::<(), Refusal>(Refusal::Rejected)
            },
        },
{
}

/// Whether a client knows the key that mesh members share.
pub open spec fn knows_the_key(v: RelayView, info: ClientInfo) -> bool {
    v.mesh_key matches Some(own) && info.mesh_key matches Some(k) && k@ == own
}

/// A client that is admitted joins under the key that it proved, as what its info says it is. One
/// that is refused does not, and only a controller's no is counted.
pub proof fn law_admitted_clients_join(
    relay: &mut Relay,
    client: NodeKey,
    info: ClientInfo,
    reply: AdmissionReply,
    open: bool,
    remote: Endpoint,
    not_ideal: bool,
    now: u64,
    r: Result<RegisteredSession, Refusal>,
    answer: Result<(), Refusal>,
)
    requires
        call_ensures(join, (relay, client, info, reply, open, remote, not_ideal, now), r),
        call_ensures(check_admission, (knows_the_key(old(relay)@, info), reply, open), answer),
        old(relay).wf(),
        old(relay)@.next_id < u64::MAX,
    ensures
        r is Ok <==> answer is Ok,
        r matches Ok(s) ==> s.handle == old(relay)@.next_id && reads(s.rx).len() == 0 && joins(
            old(relay)@,
            final(relay)@,
            Joining {
                key: client@,
                endpoint: remote@,
                can_mesh: knows_the_key(old(relay)@, info),
                can_ack_pings: info.can_ack_pings,
                is_prober: info.is_prober,
                not_ideal,
                queue: queue_behind(s.rx),
            },
            now,
        ),
        r matches Err(e) ==> answer == Err::<(), Refusal>(e),
        r matches Err(e) ==> if e is Rejected {
            let (m, n) = (old(relay)@.metrics, final(relay)@.metrics);
            &&& final(relay)@ == RelayView { metrics: n, ..old(relay)@ }
            &&& n == (Metrics { admission_rejected: n.admission_rejected, ..m })
            &&& up(m.admission_rejected, 1, n.admission_rejected)
        } else {
            final(relay)@ == old(relay)@
        },
{
    let v = old(relay)@;
    assert(crate::server::is_member(v, info) == knows_the_key(v, info));
    if let Ok(s) = r {
        let j = Joining {
            key: client@,
            endpoint: remote@,
            can_mesh: knows_the_key(v, info),
            can_ack_pings: info.can_ack_pings,
            is_prober: info.is_prober,
            not_ideal,
            queue: queue_behind(s.rx),
        };
        assert(j == crate::server::applicant(v, client@, info, remote, not_ideal, queue_behind(s.rx)));
        lemma_joins(v, final(relay)@, j, now);
    }
}

/// A client is welcomed with the server's info: 24 bytes of nonce, then the text in a box that the
/// server sealed to it under that nonce.
pub proof fn law_welcomes(key: NodeKeyPair, client: NodeKey, text: &[u8], r: Result<Frame, KeyError>)
    requires
        call_ensures(welcome, (&key, client, text), r),
    ensures
        r matches Ok(f) && f matches Frame::ServerInfo(sealed) && {
            let s = bytes_view(sealed);
            &&& s.len() == 40 + text@.len()
            &&& from(s, 24) == box_sealed(key.secret(), client@, part(s, 0, 24), text@)
        },
{
}

/// Whether only mesh members may send a frame.
pub open spec fn is_for_members(f: Frame) -> bool {
    f is ForwardPacket || f is WatchConns || f is ClosePeer
}

/// Whether a client may send a frame at all.
pub open spec fn is_from_clients(f: Frame) -> bool {
    match f {
        Frame::SendPacket { .. } => true,
        Frame::ForwardPacket { .. } => true,
        Frame::WatchConns => true,
        Frame::ClosePeer(_) => true,
        Frame::Ping(_) => true,
        Frame::Pong(_) => true,
        Frame::KeepAlive => true,
        Frame::NotePreferred(_) => true,
        Frame::Unknown { .. } => true,
        _ => false,
    }
}

/// What a client's frame does once its connection is the active one. Its packets are relayed under
/// its own key; a member's are relayed under the key that it names, as from the mesh.
pub open spec fn acted(a: RelayView, b: RelayView, id: u64, f: Frame, now: u64) -> bool {
    match f {
        Frame::SendPacket { dst, packet } => relayed(
            a,
            b,
            id,
            a.sessions[id].key,
            dst@,
            bytes_view(packet),
            false,
            now,
        ),
        Frame::ForwardPacket { src, dst, packet } => relayed(
            a,
            b,
            id,
            src@,
            dst@,
            bytes_view(packet),
            true,
            now,
        ),
        Frame::WatchConns => watches(a, b, id),
        Frame::ClosePeer(peer) => if a.peers.contains_key(peer@) {
            closes(a, b, peer@)
        } else {
            b == a
        },
        Frame::Ping(value) => {
            let ok = b.sessions[id].offers.last().1;
            &&& only(a, b, id)
            &&& offered_one(a.sessions[id], b.sessions[id], FrameView::Pong(value@), ok)
            &&& a.paths == b.paths
            &&& a.routes == b.routes
        },
        Frame::NotePreferred(preferred) => home_noted(a, b, id, preferred),
        Frame::Unknown { .. } => {
            &&& b == RelayView { metrics: b.metrics, ..a }
            &&& b.metrics == (Metrics { unknown_frames: b.metrics.unknown_frames, ..a.metrics })
            &&& up(a.metrics.unknown_frames, 1, b.metrics.unknown_frames)
        },
        _ => b == a,
    }
}

/// A frame makes its connection the active one and does what it asks. A member's frame from a
/// client that is none, and a frame that only a server sends, end the connection and do nothing
/// more.
#[verifier::rlimit(40)]
pub proof fn law_frames_are_handled(
    relay: &mut Relay,
    id: SessionId,
    f: Frame,
    now: u64,
    r: Result<(), ReaderError>,
)
    requires
        call_ensures(handle_frame, (relay, id, f, now), r),
        old(relay).wf(),
        old(relay)@.sessions.contains_key(id),
        f matches Frame::SendPacket { packet, .. } ==> bytes_view(packet).len() <= usize::MAX,
        f matches Frame::ForwardPacket { packet, .. } ==> bytes_view(packet).len() <= usize::MAX,
    ensures
        ({
            let (a, b) = (old(relay)@, final(relay)@);
            let member = a.sessions[id].can_mesh;
            &&& r == Err::<(), ReaderError>(ReaderError::InsufficientMeshPermissions)
                <==> is_for_members(f) && !member
            &&& r == Err::<(), ReaderError>(ReaderError::UnexpectedFrame) <==> !is_from_clients(f)
            &&& r is Err ==> used(a, b, id)
            &&& r is Ok ==> exists|mid: RelayView| #[trigger]
                used(a, mid, id) && mid.sessions == a.sessions && acted(mid, b, id, f, now)
        }),
{
    let (a, b) = (old(relay)@, final(relay)@);
    let mid = a.active_noted(id);
    lemma_used(a, id);
    crate::relay::upkeep::lemma_active_noted(a, id);
    if r is Ok {
        match f {
            Frame::SendPacket { dst, packet } => {
                let key = a.sessions[id].key;
                lemma_relayed(mid, b, id, key, dst@, bytes_view(packet), false, now);
            },
            Frame::ForwardPacket { src, dst, packet } => {
                lemma_relayed(mid, b, id, src@, dst@, bytes_view(packet), true, now);
            },
            Frame::WatchConns => {
                lemma_watches(mid, b, id);
            },
            Frame::ClosePeer(peer) => {
                lemma_closes(mid, peer@);
            },
            Frame::Ping(value) => {
                let ok = choose|ok: bool|
                    b == #[trigger] mid.deliver(
                        Offer { id, frame: FrameView::Pong(value@), ok },
                    );
                lemma_one_offer(mid, Offer { id, frame: FrameView::Pong(value@), ok });
            },
            _ => {},
        }
        assert(used(a, mid, id) && acted(mid, b, id, f, now));
    }
}

/// A quiet connection is shown to live by a ping with the eight bytes of a number, where the client
/// answers pings, and by a keepalive else.
pub proof fn law_quiet_connections(acks: bool, value: u64, r: Frame, s: Frame)
    requires
        call_ensures(keepalive_with, (acks, value), r),
        call_ensures(keepalive_frame, (acks,), s),
    ensures
        acks ==> (r matches Frame::Ping(p) && p@.len() == 8 && number(p@) == value),
        acks ==> s is Ping,
        !acks ==> r is KeepAlive && s is KeepAlive,
{
    lemma_eight(value);
}

/// When its timers wake it, a connection's writer shows that the connection lives, ends where it
/// was asked to close, and gives up a buffer of more than 8 KiB that was idle for fifteen seconds.
pub proof fn law_timers(relay: &Relay, id: SessionId, tick: Tick, r: WriterAction)
    requires
        call_ensures(on_tick, (relay, id, tick), r),
    ensures
        ({
            let known = relay@.sessions.contains_key(id);
            let s = relay@.sessions[id];
            match tick {
                Tick::KeepAlive => match r {
                    WriterAction::Stop => !known,
                    WriterAction::Write(f) => known && if s.can_ack_pings {
                        f is Ping
                    } else {
                        f is KeepAlive
                    },
                    _ => false,
                },
                Tick::CloseCheck => match r {
                    WriterAction::Stop => !known || s.closed,
                    WriterAction::Wait => known && !s.closed,
                    _ => false,
                },
                Tick::ShrinkCheck { capacity, idle } => match r {
                    WriterAction::ReleaseBuffer => capacity > 8192 && idle >= 15_000_000_000,
                    WriterAction::Wait => capacity <= 8192 || idle < 15_000_000_000,
                    _ => false,
                },
            }
        }),
{
}

/// A connection ended because the other side went away exactly where one of the causes says so.
pub proof fn law_disconnects(causes: &[Cause], r: bool)
    requires
        call_ensures(is_disconnect, (causes,), r),
    ensures
        r <==> causes@.contains(Cause::UnexpectedEof) || causes@.contains(Cause::ConnectionReset)
            || causes@.contains(Cause::BrokenPipe),
{
    let c = causes@;
    if r {
        let i = choose|i: int| 0 <= i < c.len() && !(#[trigger] c[i] is Other);
        assert(c.contains(c[i]));
    }
}

/// Bytes one after the other.
pub open spec fn glued(pieces: Seq<Seq<u8>>) -> Seq<u8>
    decreases pieces.len(),
{
    if pieces.len() == 0 {
        seq![]
    } else {
        glued(pieces.drop_last()) + pieces.last()
    }
}

/// The frames among what attempts to read gave.
pub open spec fn got(attempts: Seq<Option<FrameView>>) -> Seq<FrameView>
    decreases attempts.len(),
{
    if attempts.len() == 0 {
        seq![]
    } else if attempts.last() is Some {
        got(attempts.drop_last()).push(attempts.last()->0)
    } else {
        got(attempts.drop_last())
    }
}

proof fn lemma_got(attempts: Seq<Option<FrameView>>)
    ensures
        got(attempts) == frames_in(attempts),
    decreases attempts.len(),
{
    if attempts.len() > 0 {
        lemma_got(attempts.drop_last());
    }
}

/// Whether bytes are what encoding a frame alone gives.
pub open spec fn is_encoded(frame: FrameView, bytes: Seq<u8>) -> bool {
    forall|f: Frame, raw: Bytes| #[trigger]
        call_ensures(Frame::encode, (&f,), Ok::<Bytes, ProtocolError>(raw)) && f@ == frame
            ==> bytes_view(raw) == bytes
}

/// Whether bytes are these frames, encoded one after the other.
pub open spec fn are_encoded(frames: Seq<FrameView>, bytes: Seq<u8>) -> bool {
    exists|pieces: Seq<Seq<u8>>| #[trigger]
        glued(pieces) == bytes && pieces.len() == frames.len() && (forall|i: int|
            0 <= i < frames.len() ==> is_encoded(frames[i], #[trigger] pieces[i]))
}

proof fn lemma_glued(frames: Seq<FrameView>)
    ensures
        glued(Seq::new(frames.len(), |i: int| frames[i].encoding())) == encodings(frames),
    decreases frames.len(),
{
    let pieces = Seq::new(frames.len(), |i: int| frames[i].encoding());
    if frames.len() > 0 {
        let init = frames.drop_last();
        lemma_glued(init);
        assert(pieces.drop_last() =~= Seq::new(init.len(), |i: int| init[i].encoding()));
        assert(init.push(frames.last()) =~= frames);
        lemma_encodings_push(init, frames.last());
    }
}

proof fn lemma_are_encoded(frames: Seq<FrameView>)
    ensures
        are_encoded(frames, encodings(frames)),
{
    let pieces = Seq::new(frames.len(), |i: int| frames[i].encoding());
    lemma_glued(frames);
    assert forall|i: int| 0 <= i < frames.len() implies is_encoded(frames[i], #[trigger] pieces[i]) by {
        assert forall|f: Frame, raw: Bytes| #[trigger]
            call_ensures(Frame::encode, (&f,), Ok::<Bytes, ProtocolError>(raw)) && f@ == frames[i]
            implies bytes_view(raw) == pieces[i] by {}
    }
    assert(glued(pieces) == encodings(frames));
}

/// A batch holds the first frame and those that waited behind it, in their order, each encoded as
/// it would be alone. It takes frames while one waits, it has fewer than 64 and fewer than 64 KiB.
#[verifier::rlimit(40)]
pub proof fn law_batches_are_filled(
    batch: &mut BytesMut,
    first: Frame,
    rx: &mut Receiver<Frame>,
    r: Result<(), ProtocolError>,
)
    requires
        call_ensures(fill_batch, (batch, first, rx), r),
    ensures
        ({
            let (p, q) = (reads(*old(rx)), reads(*final(rx)));
            let frames = seq![first@] + got(q.skip(p.len() as int));
            &&& p.len() <= q.len()
            &&& q.take(p.len() as int) == p
            &&& frames.len() <= 64
            &&& r is Ok ==> {
                &&& are_encoded(frames, buffer_view(*final(batch)))
                &&& (q.len() > p.len() && q.last() is None) || frames.len() == 64 || buffer_view(
                    *final(batch),
                ).len() >= 65536
            }
            &&& r is Err ==> are_encoded(frames.drop_last(), buffer_view(*final(batch)))
            &&& forall|i: int|
                1 <= i < frames.len() ==> encodings(#[trigger] frames.take(i)).len() < 65536
        }),
{
    let (p, q) = (reads(*old(rx)), reads(*final(rx)));
    let attempts = q.skip(p.len() as int);
    lemma_got(attempts);
    let frames = seq![first@] + got(attempts);
    lemma_are_encoded(frames);
    lemma_are_encoded(frames.drop_last());
    if r is Err {
        let init = frames.drop_last();
        assert forall|i: int| 1 <= i < frames.len() implies encodings(#[trigger] frames.take(i)).len()
            < 65536 by {
            if i < init.len() {
                assert(frames.take(i) =~= init.take(i));
                assert(encodings(init.take(i)).len() < 65536);
            } else {
                assert(frames.take(i) =~= init);
            }
        }
    }
}

/// A frame that is written at once is encoded alone; one over a limit leaves nothing to write.
pub proof fn law_control_frames(
    batch: &mut BytesMut,
    f: Frame,
    r: Result<(), ProtocolError>,
    alone: Result<Bytes, ProtocolError>,
)
    requires
        call_ensures(fill_control, (batch, &f), r),
        call_ensures(Frame::encode, (&f,), alone),
    ensures
        match alone {
            Ok(raw) => r is Ok && buffer_view(*final(batch)) == bytes_view(raw),
            Err(e) => r == Err::<(), ProtocolError>(e) && buffer_view(*final(batch)).len() == 0,
        },
{
}

} // verus!
