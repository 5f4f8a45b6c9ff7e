//! One client's connection: the handshake, what its frames do, and what is written to it.
//!
//! Sockets, clocks and the admission controller belong to the caller. It performs what is asked
//! for here and hands back what came of it.

pub mod conversation;

use bytes::BytesMut;
use rand_core::RngCore;
use tokio::sync::mpsc::Receiver;
use vstd::prelude::*;

use crate::crypto::{box_public, box_sealed, opened, KeyError, NodeKey, NodeKeyPair};
use crate::endpoint::Endpoint;
use crate::limiter::{Pause, TokenBucket, SECOND};
use crate::metrics::{plus, Metrics};
use crate::protocol::{
    encodings, lemma_encodings_push, ClientInfo, Frame, FrameView, ProtocolError, KEY_LEN,
    MAX_CLIENT_INFO_SIZE, MAX_PACKET_SIZE, NONCE_LEN,
};
use crate::queue::{frame_view, frames_in, queue_behind, queue_limit, reads, take};
use crate::relay::laws::newly_offered;
use crate::relay::model::{Joining, Offer, RelayView};
use crate::relay::upkeep::lemma_active;
use crate::relay::{mesh_key_view, RegisteredSession, Relay, SessionId};
use crate::wire::{
    be64, buffer_len, buffer_truncate, buffer_view, bytes_as_slice, bytes_from_vec, write_be64,
};

verus! {

/// The longest payload that is read as the client's first frame: the largest info, with room for
/// its key and its seal.
pub const HANDSHAKE_LIMIT: usize = MAX_CLIENT_INFO_SIZE + KEY_LEN + 64;

/// The longest payload that is read of a client that has joined: the largest packet, with room for
/// two keys and more.
pub const READER_LIMIT: usize = MAX_PACKET_SIZE + KEY_LEN * 2 + 1024;

/// The server's first frame: who it is.
pub fn greeting(key: &NodeKeyPair) -> (r: Frame)
    ensures
        r@ == FrameView::ServerKey(box_public(key.secret())),
{
    Frame::ServerKey(key.public())
}

/// Why a handshake fails on the client's first frame.
#[derive(Clone, Copy, Debug, PartialEq, Eq, Structural)]
pub enum HandshakeError {
    /// The first frame was not the client's info.
    NotClientInfo,
    /// The info is not sealed by the key that it names.
    InvalidProof,
    /// The info is larger than the server takes.
    InfoTooLarge,
}

/// A client that has proved its key, with what it says of itself as text.
pub struct Identified {
    pub client: NodeKey,
    pub info_text: Vec<u8>,
}

/// Who a client's first frame proves it to be, and what it says of itself; or why it does not.
pub open spec fn identified(secret: Seq<u8>, frame: FrameView) -> Result<
    (Seq<u8>, Seq<u8>),
    HandshakeError,
> {
    match frame {
        FrameView::ClientInfo { key: client, sealed } => match opened(secret, client, sealed) {
            None => Err(HandshakeError::InvalidProof),
            Some(text) => if text.len() > MAX_CLIENT_INFO_SIZE {
                Err(HandshakeError::InfoTooLarge)
            } else {
                Ok((client, text))
            },
        },
        _ => Err(HandshakeError::NotClientInfo),
    }
}

/// Takes the client's first frame: its key, and its info sealed by that key.
pub fn identify(key: &NodeKeyPair, frame: Frame) -> (r: Result<Identified, HandshakeError>)
    ensures
        match r {
            Ok(id) => identified(key.secret(), frame@) == Ok::<
                (Seq<u8>, Seq<u8>),
                HandshakeError,
            >((id.client@, id.info_text@)),
            Err(e) => identified(key.secret(), frame@) == Err::<
                (Seq<u8>, Seq<u8>),
                HandshakeError,
            >(e),
        },
{
    match frame {
        Frame::ClientInfo { key: client, sealed } => {
            match key.open_from(client, bytes_as_slice(&sealed)) {
                Ok(info_text) => {
                    if info_text.len() > MAX_CLIENT_INFO_SIZE {
                        Err(HandshakeError::InfoTooLarge)
                    } else {
                        Ok(Identified { client, info_text })
                    }
                },
                Err(_) => Err(HandshakeError::InvalidProof),
            }
        },
        _ => Err(HandshakeError::NotClientInfo),
    }
}

/// What the admission controller answered.
#[derive(Clone, Copy, Debug, PartialEq, Eq, Structural)]
pub enum AdmissionReply {
    /// There is no controller.
    NotAsked,
    /// It could not be reached.
    Unreachable,
    /// It answered with this status, and, where it could be read, whether the client may join.
    Answered { status: u16, allow: Option<bool> },
}

/// Why a client may not join.
#[derive(Clone, Copy, Debug, PartialEq, Eq, Structural)]
pub enum Refusal {
    /// The controller could not be reached, and the server does not admit without it.
    ControllerUnreachable,
    /// The controller answered with a status other than success.
    ControllerStatus(u16),
    /// The controller's answer could not be read.
    ControllerAnswer,
    /// The controller said no.
    Rejected,
}

/// Why a client may not join, if it may not: a mesh member always may.
pub open spec fn refusal(can_mesh: bool, reply: AdmissionReply, fail_open: bool) -> Option<
    Refusal,
> {
    if can_mesh {
        None
    } else {
        match reply {
            AdmissionReply::NotAsked => None,
            AdmissionReply::Unreachable => if fail_open {
                None
            } else {
                Some(Refusal::ControllerUnreachable)
            },
            AdmissionReply::Answered { status, allow } => if !(200 <= status < 300) {
                Some(Refusal::ControllerStatus(status))
            } else {
                match allow {
                    None => Some(Refusal::ControllerAnswer),
                    Some(true) => None,
                    Some(false) => Some(Refusal::Rejected),
                }
            },
        }
    }
}

/// Whether a client is refused, and why.
pub fn check_admission(can_mesh: bool, reply: AdmissionReply, fail_open: bool) -> (r: Result<
    (),
    Refusal,
>)
    ensures
        match r {
            Ok(()) => refusal(can_mesh, reply, fail_open) is None,
            Err(e) => refusal(can_mesh, reply, fail_open) == Some(e),
        },
{
    if can_mesh {
        return Ok(());
    }
    match reply {
        AdmissionReply::NotAsked => Ok(()),
        AdmissionReply::Unreachable => if fail_open {
            Ok(())
        } else {
            Err(Refusal::ControllerUnreachable)
        },
        AdmissionReply::Answered { status, allow } => if status < 200 || status >= 300 {
            Err(Refusal::ControllerStatus(status))
        } else {
            match allow {
                None => Err(Refusal::ControllerAnswer),
                Some(true) => Ok(()),
                Some(false) => Err(Refusal::Rejected),
            }
        },
    }
}

/// The relay with one more client counted that the admission controller rejected.
pub open spec fn rejection_counted(v: RelayView) -> RelayView {
    RelayView {
        metrics: Metrics {
            admission_rejected: plus(v.metrics.admission_rejected, 1),
            ..v.metrics
        },
        ..v
    }
}

/// Whether a client is a mesh member: it knows the key that members share.
pub open spec fn is_member(v: RelayView, info: ClientInfo) -> bool {
    v.mesh_key is Some && mesh_key_view(info.mesh_key) == v.mesh_key
}

/// What joins: the client that proved its key, with what it says of itself.
pub open spec fn applicant(
    v: RelayView,
    client: Seq<u8>,
    info: ClientInfo,
    remote: Endpoint,
    not_ideal: bool,
    queue: int,
) -> Joining {
    Joining {
        key: client,
        endpoint: remote@,
        can_mesh: is_member(v, info),
        can_ack_pings: info.can_ack_pings,
        is_prober: info.is_prober,
        not_ideal,
        queue,
    }
}

/// Whether another connection can be registered.
pub open spec fn has_room(v: RelayView) -> bool {
    v.next_id < u64::MAX && v.queue_depth <= queue_limit()
}

/// Lets a client that proved its key join, unless it is refused.
pub fn join(
    relay: &mut Relay,
    client: NodeKey,
    info: ClientInfo,
    reply: AdmissionReply,
    fail_open: bool,
    remote: Endpoint,
    not_ideal: bool,
    now: u64,
) -> (r: Result<RegisteredSession, Refusal>)
    requires
        old(relay).wf(),
        refusal(is_member(old(relay)@, info), reply, fail_open) is None ==> has_room(old(relay)@),
    ensures
        final(relay).wf(),
        ({
            let can_mesh = is_member(old(relay)@, info);
            match r {
                Ok(s) => {
                    &&& refusal(can_mesh, reply, fail_open) is None
                    &&& s.handle == old(relay)@.next_id
                    &&& reads(s.rx) == Seq::<Option<FrameView>>::empty()
                    &&& old(relay)@.registered(
                        final(relay)@,
                        applicant(
                            old(relay)@,
                            client@,
                            info,
                            remote,
                            not_ideal,
                            queue_behind(s.rx),
                        ),
                        now,
                    )
                },
                Err(e) => {
                    &&& refusal(can_mesh, reply, fail_open) == Some(e)
                    &&& final(relay)@ == (if e == Refusal::Rejected {
                        rejection_counted(old(relay)@)
                    } else {
                        old(relay)@
                    })
                },
            }
        }),
{
    let can_mesh = relay.is_mesh_key(info.mesh_key);
    match check_admission(can_mesh, reply, fail_open) {
        Ok(()) => Ok(
            relay.register(
                client,
                remote,
                can_mesh,
                info.can_ack_pings,
                info.is_prober,
                not_ideal,
                now,
            ),
        ),
        Err(e) => {
            match e {
                Refusal::Rejected => {
                    relay.count_rejection();
                },
                _ => {},
            }
            Err(e)
        },
    }
}

/// Whether a frame is the server's info, sealed to a client.
pub open spec fn welcomes(
    frame: FrameView,
    secret: Seq<u8>,
    client: Seq<u8>,
    text: Seq<u8>,
) -> bool {
    frame matches FrameView::ServerInfo(sealed) && {
        &&& sealed.len() == NONCE_LEN + 16 + text.len()
        &&& sealed.subrange(NONCE_LEN as int, sealed.len() as int) == box_sealed(
            secret,
            client,
            sealed.subrange(0, NONCE_LEN as int),
            text,
        )
        &&& forall|other: Seq<u8>|
            other.len() == KEY_LEN && #[trigger] box_public(other) == client ==> opened(
                other,
                box_public(secret),
                sealed,
            ) == Some(text)
    }
}

/// The server's answer to a client that joined: its info, sealed to the client.
pub fn welcome(key: &NodeKeyPair, client: NodeKey, info_text: &[u8]) -> (r: Result<Frame, KeyError>)
    ensures
        r matches Ok(frame) && welcomes(frame@, key.secret(), client@, info_text@),
{
    match key.seal_to(client, info_text) {
        Ok(sealed) => Ok(Frame::ServerInfo(bytes_from_vec(sealed))),
        Err(e) => Err(e),
    }
}

/// What a frame takes from a client's allowance: 64 bytes, and the packet that it carries.
pub open spec fn cost(frame: FrameView) -> nat {
    match frame {
        FrameView::SendPacket { packet, .. } => packet.len() + 64,
        FrameView::ForwardPacket { packet, .. } => packet.len() + 64,
        _ => 64,
    }
}

/// What a frame takes from a client's allowance.
pub fn frame_cost(frame: &Frame) -> (r: usize)
    requires
        cost(frame@) <= usize::MAX,
    ensures
        r == cost(frame@),
{
    match frame {
        Frame::SendPacket { packet, .. } => bytes_as_slice(packet).len() + 64,
        Frame::ForwardPacket { packet, .. } => bytes_as_slice(packet).len() + 64,
        _ => 64,
    }
}

/// Takes a frame from a client's allowance, unless the client is a mesh member. Tells how long to
/// wait before the frame is handled.
pub fn charge(
    relay: &Relay,
    session: SessionId,
    limiter: &mut TokenBucket,
    frame: &Frame,
    now: u64,
) -> (r: Option<Pause>)
    requires
        cost(frame@) <= usize::MAX,
    ensures
        relay@.may_mesh(session) ==> r is None && final(limiter)@ == old(limiter)@,
        !relay@.may_mesh(session) ==> final(limiter)@ == old(limiter)@.consumed(cost(frame@), now)
            && match r {
            None => old(limiter)@.admits(cost(frame@), now),
            Some(p) => {
                &&& !old(limiter)@.admits(cost(frame@), now)
                &&& p.total() == old(limiter)@.wait(cost(frame@), now)
                &&& p.nanos < SECOND
            },
        },
{
    if relay.is_mesh_member(session) {
        None
    } else {
        limiter.consume(frame_cost(frame), now)
    }
}

/// Why a client's frame ends its connection.
#[derive(Clone, Copy, Debug, PartialEq, Eq, Structural)]
pub enum ReaderError {
    /// The frame is for mesh members only.
    InsufficientMeshPermissions,
    /// Clients do not send such frames.
    UnexpectedFrame,
}

/// Whether a frame is for mesh members only.
pub open spec fn for_mesh_only(frame: FrameView) -> bool {
    frame is ForwardPacket || frame is WatchConns || frame is ClosePeer
}

/// Whether a frame is one that the server sends, and clients do not.
pub open spec fn from_server_only(frame: FrameView) -> bool {
    ||| frame is ServerKey
    ||| frame is ClientInfo
    ||| frame is ServerInfo
    ||| frame is RecvPacket
    ||| frame is PeerGone
    ||| frame is PeerPresent
    ||| frame is Health
    ||| frame is Restarting
}

/// Why a client's frame ends its connection, if it does.
pub open spec fn frame_error(v: RelayView, session: u64, frame: FrameView) -> Option<ReaderError> {
    if for_mesh_only(frame) && !v.may_mesh(session) {
        Some(ReaderError::InsufficientMeshPermissions)
    } else if from_server_only(frame) {
        Some(ReaderError::UnexpectedFrame)
    } else {
        None
    }
}

/// Whether `post` is the relay after a client's frame was handled in state `v`.
pub open spec fn handled(
    v: RelayView,
    post: RelayView,
    session: u64,
    frame: FrameView,
    now: u64,
) -> bool {
    match frame {
        FrameView::SendPacket { dst, packet } => v.routed(
            post,
            session,
            v.sessions[session].key,
            dst,
            packet,
            false,
            now,
        ),
        FrameView::ForwardPacket { src, dst, packet } => v.routed(
            post,
            session,
            src,
            dst,
            packet,
            true,
            now,
        ),
        FrameView::WatchConns => v.watched(post, session),
        FrameView::ClosePeer(peer) => post == if v.here(peer) {
            v.peer_closed(peer)
        } else {
            v
        },
        FrameView::Ping(value) => exists|ok: bool|
            post == #[trigger] v.deliver(
                Offer { id: session, frame: FrameView::Pong(value), ok },
            ),
        FrameView::NotePreferred(preferred) => post == v.preferred_noted(session, preferred),
        FrameView::Unknown { .. } => post == RelayView {
            metrics: Metrics {
                unknown_frames: plus(v.metrics.unknown_frames, 1),
                ..v.metrics
            },
            ..v
        },
        _ => post == v,
    }
}

/// Handles a client's frame. Whatever it is, the connection is its node's active one from then on.
pub fn handle_frame(relay: &mut Relay, session: SessionId, frame: Frame, now: u64) -> (r: Result<
    (),
    ReaderError,
>)
    requires
        old(relay).wf(),
        old(relay)@.sessions.contains_key(session),
    ensures
        final(relay).wf(),
        match r {
            Ok(()) => {
                &&& frame_error(old(relay)@, session, frame@) is None
                &&& handled(
                    old(relay)@.active_noted(session),
                    final(relay)@,
                    session,
                    frame@,
                    now,
                )
            },
            Err(e) => {
                &&& frame_error(old(relay)@, session, frame@) == Some(e)
                &&& final(relay)@ == old(relay)@.active_noted(session)
            },
        },
{
    relay.note_activity(session);
    let ghost noted = relay@;
    let can_mesh = relay.is_mesh_member(session);
    match frame {
        Frame::SendPacket { dst, packet } => {
            if let Some(src) = relay.session_key(session) {
                relay.route(session, src, dst, packet, false, now);
            }
            Ok(())
        },
        Frame::ForwardPacket { src, dst, packet } => {
            if !can_mesh {
                return Err(ReaderError::InsufficientMeshPermissions);
            }
            relay.route(session, src, dst, packet, true, now);
            Ok(())
        },
        Frame::WatchConns => {
            if !relay.watch(session) {
                return Err(ReaderError::InsufficientMeshPermissions);
            }
            Ok(())
        },
        Frame::ClosePeer(peer) => {
            if !can_mesh {
                return Err(ReaderError::InsufficientMeshPermissions);
            }
            relay.close_peer(session, peer);
            Ok(())
        },
        Frame::Ping(value) => {
            let ok = relay.send_to(session, Frame::Pong(value));
            proof {
                let o = Offer { id: session, frame: FrameView::Pong(value@), ok };
                assert(relay@ == noted.deliver(o));
            }
            Ok(())
        },
        Frame::NotePreferred(preferred) => {
            relay.note_preferred(session, preferred);
            Ok(())
        },
        Frame::Pong(_) => Ok(()),
        Frame::KeepAlive => Ok(()),
        Frame::Unknown { .. } => {
            relay.count_unknown_frame();
            Ok(())
        },
        _ => Err(ReaderError::UnexpectedFrame),
    }
}

/// The most frames in a batch after the first one.
pub const MAX_BATCH_MORE: usize = 63;

/// A batch with this many bytes takes no further frame: 64 KiB.
pub const MAX_BATCH_BYTES: usize = 65536;

/// Whether frames may follow each other in one batch: each is within the size limits, and before
/// each but the first the batch had room.
pub open spec fn batch_ok(frames: Seq<FrameView>) -> bool {
    &&& frames.len() <= MAX_BATCH_MORE + 1
    &&& forall|i: int| 0 <= i < frames.len() ==> (#[trigger] frames[i]).oversize() is None
    &&& forall|i: int|
        1 <= i < frames.len() ==> encodings(#[trigger] frames.take(i)).len() < MAX_BATCH_BYTES
}

/// Fills a batch with a frame and with those that wait behind it, until none waits or there is no
/// room. A frame over a size limit ends it with that error.
pub fn fill_batch(batch: &mut BytesMut, first: Frame, rx: &mut Receiver<Frame>) -> (r: Result<
    (),
    ProtocolError,
>)
    ensures
        reads(*old(rx)).len() <= reads(*final(rx)).len(),
        reads(*final(rx)).take(reads(*old(rx)).len() as int) == reads(*old(rx)),
        queue_behind(*final(rx)) == queue_behind(*old(rx)),
        ({
            let attempts = reads(*final(rx)).skip(reads(*old(rx)).len() as int);
            let frames = seq![first@] + frames_in(attempts);
            match r {
                Ok(()) => {
                    &&& batch_ok(frames)
                    &&& buffer_view(*final(batch)) == encodings(frames)
                    &&& (attempts.len() > 0 && attempts.last() is None) || frames.len()
                        == MAX_BATCH_MORE + 1 || encodings(frames).len() >= MAX_BATCH_BYTES
                },
                Err(e) => {
                    &&& batch_ok(frames.drop_last())
                    &&& frames.len() <= MAX_BATCH_MORE + 1
                    &&& encodings(frames.drop_last()).len() < MAX_BATCH_BYTES
                    &&& frames.last().oversize() == Some(e)
                    &&& buffer_view(*final(batch)) == encodings(frames.drop_last())
                },
            }
        }),
{
    buffer_truncate(batch, 0);
    let ghost before = reads(*rx);
    let ghost mut attempts: Seq<Option<FrameView>> = Seq::empty();
    let ghost mut frames: Seq<FrameView> = seq![first@];
    proof {
        assert(buffer_view(*batch) =~= Seq::empty());
        assert(reads(*rx).take(before.len() as int) =~= before);
        assert(reads(*rx).skip(before.len() as int) =~= attempts);
        assert(seq![first@] + frames_in(attempts) =~= frames);
        assert(frames.drop_last() =~= Seq::empty());
    }
    match first.encode_into(batch) {
        Ok(()) => {},
        Err(e) => {
            return Err(e);
        },
    }
    proof {
        lemma_encodings_push(Seq::empty(), first@);
        assert(Seq::empty().push(first@) =~= frames);
    }
    let mut n: usize = 0;
    let mut waiting = true;
    while n < MAX_BATCH_MORE && waiting && buffer_len(batch) < MAX_BATCH_BYTES
        invariant
            n <= MAX_BATCH_MORE,
            before == reads(*old(rx)),
            queue_behind(*rx) == queue_behind(*old(rx)),
            before.len() <= reads(*rx).len(),
            reads(*rx).take(before.len() as int) == before,
            attempts == reads(*rx).skip(before.len() as int),
            frames == seq![first@] + frames_in(attempts),
            waiting ==> frames.len() == n + 1,
            !waiting ==> attempts.len() > 0 && attempts.last() is None,
            batch_ok(frames),
            buffer_view(*batch) == encodings(frames),
        decreases MAX_BATCH_MORE - n,
    {
        let ghost then = attempts;
        let ghost held = frames;
        let next = take(rx);
        proof {
            attempts = then.push(frame_view(next));
            assert(reads(*rx).take(before.len() as int) =~= before);
            assert(reads(*rx).skip(before.len() as int) =~= attempts);
            assert(attempts.drop_last() =~= then);
        }
        match next {
            Some(frame) => {
                proof {
                    frames = held.push(frame@);
                    assert(frames =~= seq![first@] + frames_in(attempts));
                    assert(frames.drop_last() =~= held);
                    assert forall|i: int| 1 <= i < frames.len() implies encodings(
                        #[trigger] frames.take(i),
                    ).len() < MAX_BATCH_BYTES by {
                        if i < held.len() {
                            assert(frames.take(i) =~= held.take(i));
                        } else {
                            assert(frames.take(i) =~= held);
                        }
                    }
                    lemma_encodings_push(held, frame@);
                }
                match frame.encode_into(batch) {
                    Ok(()) => {},
                    Err(e) => {
                        return Err(e);
                    },
                }
            },
            None => {
                waiting = false;
            },
        }
        n += 1;
    }
    Ok(())
}

/// Makes a batch of one frame.
pub fn fill_control(batch: &mut BytesMut, frame: &Frame) -> (r: Result<(), ProtocolError>)
    ensures
        match r {
            Ok(()) => frame@.oversize() is None && buffer_view(*final(batch)) == frame@.encoding(),
            Err(e) => frame@.oversize() == Some(e) && buffer_view(*final(batch))
                == Seq::<u8>::empty(),
        },
{
    buffer_truncate(batch, 0);
    let r = frame.encode_into(batch);
    proof {
        assert(Seq::<u8>::empty() + frame@.encoding() =~= frame@.encoding());
    }
    r
}

/// `rand_core::OsRng::next_u64`: a random number of the operating system, of which nothing is
/// claimed. It panics where the system has none to give, which no argument can rule out.
#[verifier::external_body]
fn random_u64() -> (r: u64) {
    rand_core::OsRng.next_u64()
}

/// The frame that keeps a quiet connection alive: a ping with this value for a client that
/// answers pings.
pub fn keepalive_with(can_ack_pings: bool, value: u64) -> (r: Frame)
    ensures
        r@ == (if can_ack_pings {
            FrameView::Ping(be64(value))
        } else {
            FrameView::KeepAlive
        }),
{
    if can_ack_pings {
        Frame::Ping(write_be64(value))
    } else {
        Frame::KeepAlive
    }
}

/// The frame that keeps a quiet connection alive: a ping with a random value for a client that
/// answers pings.
pub fn keepalive_frame(can_ack_pings: bool) -> (r: Frame)
    ensures
        can_ack_pings ==> exists|value: u64| r@ == FrameView::Ping(#[trigger] be64(value)),
        !can_ack_pings ==> r@ == FrameView::KeepAlive,
{
    let value = random_u64();
    keepalive_with(can_ack_pings, value)
}

/// A batch buffer that is larger than this is given up when it is not used.
pub const SHRINK_ABOVE: usize = 8192;

/// How long the server waits for each step of the handshake, in nanoseconds.
pub const HANDSHAKE_TIMEOUT: u64 = 10_000_000_000;

/// How long the server waits for the admission controller, in nanoseconds.
pub const ADMISSION_TIMEOUT: u64 = 5_000_000_000;

/// How often a connection shows that it lives, in nanoseconds.
pub const KEEPALIVE_EVERY: u64 = 60_000_000_000;

/// How often a connection looks whether it was asked to close, in nanoseconds.
pub const CLOSE_CHECK_EVERY: u64 = 250_000_000;

/// How long a batch buffer is kept without use, in nanoseconds. It is looked at as often.
pub const SHRINK_AFTER: u64 = 15_000_000_000;

/// What woke a connection's writer.
#[derive(Clone, Copy, Debug, PartialEq, Eq, Structural)]
pub enum Tick {
    /// It is time to show that the connection lives.
    KeepAlive,
    /// It is time to look whether the connection was asked to close.
    CloseCheck,
    /// It is time to look whether the batch buffer is in use.
    ShrinkCheck { capacity: usize, idle: u64 },
}

/// What a connection's writer does next.
#[derive(Debug, PartialEq, Eq)]
pub enum WriterAction {
    /// It writes this frame.
    Write(Frame),
    /// It ends the connection.
    Stop,
    /// It gives up its batch buffer.
    ReleaseBuffer,
    /// It waits on.
    Wait,
}

/// What a connection's writer does when its timers wake it. Without a connection it ends.
pub fn on_tick(relay: &Relay, session: SessionId, tick: Tick) -> (r: WriterAction)
    ensures
        match tick {
            Tick::KeepAlive => if !relay@.sessions.contains_key(session) {
                r is Stop
            } else if relay@.sessions[session].can_ack_pings {
                r matches WriterAction::Write(f) && exists|value: u64|
                    f@ == FrameView::Ping(#[trigger] be64(value))
            } else {
                r matches WriterAction::Write(f) && f@ == FrameView::KeepAlive
            },
            Tick::CloseCheck => if !relay@.sessions.contains_key(session)
                || relay@.sessions[session].closed {
                r is Stop
            } else {
                r is Wait
            },
            Tick::ShrinkCheck { capacity, idle } => if capacity > SHRINK_ABOVE && idle
                >= SHRINK_AFTER {
                r is ReleaseBuffer
            } else {
                r is Wait
            },
        },
{
    match tick {
        Tick::KeepAlive => match relay.session(session) {
            Some(s) => WriterAction::Write(keepalive_frame(s.acks_pings())),
            None => WriterAction::Stop,
        },
        Tick::CloseCheck => match relay.session(session) {
            Some(s) => if s.is_closed() {
                WriterAction::Stop
            } else {
                WriterAction::Wait
            },
            None => WriterAction::Stop,
        },
        Tick::ShrinkCheck { capacity, idle } => if capacity > SHRINK_ABOVE && idle >= SHRINK_AFTER {
            WriterAction::ReleaseBuffer
        } else {
            WriterAction::Wait
        },
    }
}

/// Something that led to a connection's end.
#[derive(Clone, Copy, Debug, PartialEq, Eq, Structural)]
pub enum Cause {
    /// The other side stopped in the middle of something.
    UnexpectedEof,
    /// The other side reset the connection.
    ConnectionReset,
    /// The other side no longer reads.
    BrokenPipe,
    /// Anything else.
    Other,
}

/// Whether a connection ended because the other side went away: one of the causes says so.
pub fn is_disconnect(causes: &[Cause]) -> (r: bool)
    ensures
        r == exists|i: int| 0 <= i < causes@.len() && !(#[trigger] causes@[i] is Other),
{
    let mut i: usize = 0;
    while i < causes.len()
        invariant
            i <= causes.len(),
            forall|j: int| 0 <= j < i ==> #[trigger] causes@[j] is Other,
        decreases causes.len() - i,
    {
        match causes[i] {
            Cause::Other => {},
            _ => {
                proof {
                    assert(!(causes@[i as int] is Other));
                }
                return true;
            },
        }
        i += 1;
    }
    false
}

/// A client that is no mesh member joins only where it is admitted: where there is no controller,
/// where it cannot be reached and the server admits without it, or where it allows the client.
pub proof fn law_only_admitted_clients_join(can_mesh: bool, reply: AdmissionReply, fail_open: bool)
    ensures
        refusal(can_mesh, reply, fail_open) is None <==> (can_mesh || reply
            == AdmissionReply::NotAsked || (reply == AdmissionReply::Unreachable && fail_open) || (
        reply matches AdmissionReply::Answered { status, allow } && 200 <= status < 300 && allow
            == Some(true))),
{
}

/// Frames that are for mesh members only end the connection of every other client, and of no
/// member.
pub proof fn law_mesh_frames_need_membership(v: RelayView, session: u64, frame: FrameView)
    requires
        for_mesh_only(frame),
    ensures
        frame_error(v, session, frame) == (if v.may_mesh(session) {
            None::<ReaderError>
        } else {
            Some(ReaderError::InsufficientMeshPermissions)
        }),
{
}

/// A frame of an unknown type does not end the connection: it is counted, and no connection and no
/// node's list is changed by it.
pub proof fn law_unknown_frames_are_counted(v: RelayView, session: u64, kind: u8, payload: Seq<u8>)
    ensures
        frame_error(v, session, FrameView::Unknown { kind, payload }) is None,
        forall|post: RelayView, now: u64| #[trigger]
            handled(v, post, session, FrameView::Unknown { kind, payload }, now) ==> {
                &&& post.metrics.unknown_frames == plus(v.metrics.unknown_frames, 1)
                &&& post.sessions == v.sessions
                &&& post.peers == v.peers
            },
{
}

/// A client that is no mesh member sends packets under its own key only: what is offered to a
/// connection as a packet because of its frame bears its key, and goes to the node that it named.
pub proof fn law_packets_bear_their_senders_key(
    v: RelayView,
    post: RelayView,
    session: u64,
    frame: FrameView,
    now: u64,
    id: u64,
    i: int,
)
    requires
        v.wf(),
        v.sessions.contains_key(session),
        !v.may_mesh(session),
        frame_error(v, session, frame) is None,
        handled(v, post, session, frame, now),
        v.sessions.contains_key(id),
        v.sessions[id].offers.len() <= i < post.sessions[id].offers.len(),
        post.sessions[id].offers[i].0 is RecvPacket,
    ensures
        frame matches FrameView::SendPacket { dst, packet } && {
            &&& dst == v.sessions[id].key
            &&& id == v.active(dst)
            &&& post.sessions[id].offers[i].0 == (FrameView::RecvPacket {
                src: v.sessions[session].key,
                packet,
            })
        },
{
    if let FrameView::SendPacket { dst, packet } = frame {
        if v.here(dst) {
            lemma_active(v, dst);
        }
    }
}

/// A ping is answered on the same connection with a pong of the same value.
pub proof fn law_ping_is_answered(
    v: RelayView,
    post: RelayView,
    session: u64,
    value: Seq<u8>,
    now: u64,
)
    requires
        v.sessions.contains_key(session),
        handled(v, post, session, FrameView::Ping(value), now),
    ensures
        frame_error(v, session, FrameView::Ping(value)) is None,
        newly_offered(v, post, session, FrameView::Pong(value)),
{
    let n = v.sessions[session].offers.len();
    assert(post.sessions[session].offers[n as int].0 == FrameView::Pong(value));
}

/// A batch has at most 64 frames, and less than 64 KiB before its last one.
pub proof fn law_batches_are_bounded(frames: Seq<FrameView>)
    requires
        batch_ok(frames),
        frames.len() > 1,
    ensures
        frames.len() <= 64,
        encodings(frames).len() < MAX_BATCH_BYTES + frames.last().encoding().len(),
{
    let n = frames.len() - 1;
    assert(frames.take(n) =~= frames.drop_last());
    assert(frames.drop_last().push(frames.last()) =~= frames);
    lemma_encodings_push(frames.drop_last(), frames.last());
}

/// Every client info that the server takes fits in what is read for it, and every packet that it
/// relays in what is read of a client.
pub proof fn law_limits_leave_room(f: FrameView)
    requires
        f.oversize() is None,
        f.valid(),
    ensures
        f matches FrameView::ClientInfo { sealed, .. } && sealed.len() <= NONCE_LEN + 16
            + MAX_CLIENT_INFO_SIZE ==> f.payload().len() <= HANDSHAKE_LIMIT,
        f is SendPacket || f is ForwardPacket ==> f.payload().len() <= READER_LIMIT,
{
}

} // verus!
