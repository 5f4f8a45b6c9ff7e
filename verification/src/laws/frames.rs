//! Frames on the wire, byte by byte.

use bytes::{Bytes, BytesMut};
use vstd::prelude::*;

use crate::crypto::{lemma_key_len, valid_key, NodeKey};
use crate::endpoint::{Endpoint, IpAddress};
use crate::laws::plain::{from, lemma_number, number, part};
use crate::protocol::{
    decode_spec, frame_type, law_frame_type_of_code, read_header, Frame, FrameType, FrameView,
    ProtocolError, ServerInfo, MAGIC,
};
use crate::wire::{buffer_view, bytes_view};

verus! {

/// Whether bytes can name a node: there are thirty-two, and not all of them are zero.
pub open spec fn names_a_node(bytes: Seq<u8>) -> bool {
    bytes.len() == 32 && exists|i: int| 0 <= i < 32 && #[trigger] bytes[i] != 0
}

/// Whether bytes are one frame: a type byte, four bytes that spell how many follow, and those.
pub open spec fn is_framed(raw: Seq<u8>, kind: u8, payload: Seq<u8>) -> bool {
    &&& raw.len() == 5 + payload.len()
    &&& raw[0] == kind
    &&& number(part(raw, 1, 5)) == payload.len()
    &&& from(raw, 5) == payload
}

/// The sixteen octets of an address on the wire: an IPv4 address stands behind ten zeros and two
/// bytes of ones.
pub open spec fn is_wire_address(octets: Seq<u8>, ip: IpAddress) -> bool {
    octets.len() == 16 && match ip {
        IpAddress::V4(o) => {
            &&& forall|i: int| 0 <= i < 10 ==> #[trigger] octets[i] == 0
            &&& octets[10] == 255 && octets[11] == 255
            &&& forall|i: int| 0 <= i < 4 ==> octets[12 + i] == #[trigger] o@[i]
        },
        IpAddress::V6(o) => octets == o@,
    }
}

/// Whether bytes are what a frame says after its header.
pub open spec fn is_payload(f: Frame, p: Seq<u8>) -> bool {
    match f {
        Frame::ServerKey(key) => {
            &&& p.len() == 40
            &&& part(p, 0, 8) == seq![0x44u8, 0x45, 0x52, 0x50, 0xF0, 0x9F, 0x94, 0x91]
            &&& part(p, 8, 40) == key@
        },
        Frame::ClientInfo { key, sealed } => {
            &&& p.len() == 32 + bytes_view(sealed).len()
            &&& part(p, 0, 32) == key@
            &&& from(p, 32) == bytes_view(sealed)
        },
        Frame::ServerInfo(sealed) => p == bytes_view(sealed),
        Frame::SendPacket { dst, packet } => {
            &&& p.len() == 32 + bytes_view(packet).len()
            &&& part(p, 0, 32) == dst@
            &&& from(p, 32) == bytes_view(packet)
        },
        Frame::ForwardPacket { src, dst, packet } => {
            &&& p.len() == 64 + bytes_view(packet).len()
            &&& part(p, 0, 32) == src@
            &&& part(p, 32, 64) == dst@
            &&& from(p, 64) == bytes_view(packet)
        },
        Frame::RecvPacket { src, packet } => {
            &&& p.len() == 32 + bytes_view(packet).len()
            &&& part(p, 0, 32) == src@
            &&& from(p, 32) == bytes_view(packet)
        },
        Frame::KeepAlive => p.len() == 0,
        Frame::NotePreferred(preferred) => p.len() == 1 && p[0] == if preferred {
            1u8
        } else {
            0u8
        },
        Frame::PeerGone { peer, reason } => {
            &&& p.len() == 33
            &&& part(p, 0, 32) == peer@
            &&& p[32] == reason
        },
        Frame::PeerPresent { peer, endpoint, flags, extra } => {
            &&& p.len() >= 32
            &&& part(p, 0, 32) == peer@
            &&& match endpoint {
                None => p.len() == 32,
                Some(e) => {
                    &&& p.len() >= 50
                    &&& is_wire_address(part(p, 32, 48), e.ip)
                    &&& number(part(p, 48, 50)) == e.port
                    &&& match flags {
                        None => from(p, 50) == bytes_view(extra),
                        Some(f) => p.len() >= 51 && p[50] == f && from(p, 51) == bytes_view(extra),
                    }
                },
            }
        },
        Frame::WatchConns => p.len() == 0,
        Frame::ClosePeer(peer) => p == peer@,
        Frame::Ping(value) => p == value@,
        Frame::Pong(value) => p == value@,
        Frame::Health(text) => p == bytes_view(text),
        Frame::Restarting { reconnect_in_ms, try_for_ms } => {
            &&& p.len() == 8
            &&& number(part(p, 0, 4)) == reconnect_in_ms
            &&& number(part(p, 4, 8)) == try_for_ms
        },
        Frame::Unknown { payload, .. } => p == bytes_view(payload),
    }
}

/// The type byte of a frame.
pub open spec fn type_byte(f: Frame) -> u8 {
    match f {
        Frame::ServerKey(_) => 1,
        Frame::ClientInfo { .. } => 2,
        Frame::ServerInfo(_) => 3,
        Frame::SendPacket { .. } => 4,
        Frame::RecvPacket { .. } => 5,
        Frame::KeepAlive => 6,
        Frame::NotePreferred(_) => 7,
        Frame::PeerGone { .. } => 8,
        Frame::PeerPresent { .. } => 9,
        Frame::ForwardPacket { .. } => 10,
        Frame::WatchConns => 16,
        Frame::ClosePeer(_) => 17,
        Frame::Ping(_) => 18,
        Frame::Pong(_) => 19,
        Frame::Health(_) => 20,
        Frame::Restarting { .. } => 21,
        Frame::Unknown { kind, .. } => kind,
    }
}

/// The packet that a frame carries.
pub open spec fn carried(f: Frame) -> Option<Seq<u8>> {
    match f {
        Frame::SendPacket { packet, .. } => Some(bytes_view(packet)),
        Frame::ForwardPacket { packet, .. } => Some(bytes_view(packet)),
        Frame::RecvPacket { packet, .. } => Some(bytes_view(packet)),
        _ => None,
    }
}

pub proof fn lemma_names(bytes: Seq<u8>)
    ensures
        names_a_node(bytes) == valid_key(bytes),
{
    if names_a_node(bytes) {
        let i = choose|i: int| 0 <= i < 32 && #[trigger] bytes[i] != 0;
        assert(bytes[i] != 0);
    }
    if valid_key(bytes) {
        assert(exists|i: int| 0 <= i < 32 && #[trigger] bytes[i] != 0);
    }
}

/// The model of a frame has each field in its place, and that of an endpoint its octets and port.
pub proof fn law_models_hold_the_fields(f: Frame, e: Endpoint)
    ensures
        match f {
            Frame::ServerKey(key) => f@ == FrameView::ServerKey(key@),
            Frame::ClientInfo { key, sealed } => f@ == (FrameView::ClientInfo {
                key: key@,
                sealed: bytes_view(sealed),
            }),
            Frame::ServerInfo(sealed) => f@ == FrameView::ServerInfo(bytes_view(sealed)),
            Frame::SendPacket { dst, packet } => f@ == (FrameView::SendPacket {
                dst: dst@,
                packet: bytes_view(packet),
            }),
            Frame::ForwardPacket { src, dst, packet } => f@ == (FrameView::ForwardPacket {
                src: src@,
                dst: dst@,
                packet: bytes_view(packet),
            }),
            Frame::RecvPacket { src, packet } => f@ == (FrameView::RecvPacket {
                src: src@,
                packet: bytes_view(packet),
            }),
            Frame::KeepAlive => f@ is KeepAlive,
            Frame::NotePreferred(b) => f@ == FrameView::NotePreferred(b),
            Frame::PeerGone { peer, reason } => f@ == (FrameView::PeerGone { peer: peer@, reason }),
            Frame::PeerPresent { peer, endpoint, flags, extra } => f@ == (FrameView::PeerPresent {
                peer: peer@,
                endpoint: match endpoint {
                    Some(x) => Some(x@),
                    None => None,
                },
                flags,
                extra: bytes_view(extra),
            }),
            Frame::WatchConns => f@ is WatchConns,
            Frame::ClosePeer(peer) => f@ == FrameView::ClosePeer(peer@),
            Frame::Ping(value) => f@ == FrameView::Ping(value@),
            Frame::Pong(value) => f@ == FrameView::Pong(value@),
            Frame::Health(text) => f@ == FrameView::Health(bytes_view(text)),
            Frame::Restarting { reconnect_in_ms, try_for_ms } => f@ == (FrameView::Restarting {
                reconnect_in_ms,
                try_for_ms,
            }),
            Frame::Unknown { kind, payload } => f@ == (FrameView::Unknown {
                kind,
                payload: bytes_view(payload),
            }),
        },
        e@.port == e.port,
        e.ip matches IpAddress::V4(o) ==> e@.octets == o@,
        e.ip matches IpAddress::V6(o) ==> e@.octets == o@,
{
}

/// What a frame says after its header.
#[verifier::rlimit(40)]
proof fn lemma_payload(f: Frame)
    ensures
        is_payload(f, f@.payload()),
{
    let p = f@.payload();
    match f {
        Frame::ServerKey(key) => {
            lemma_key_len(key);
            assert(part(p, 0, 8) =~= seq![0x44u8, 0x45, 0x52, 0x50, 0xF0, 0x9F, 0x94, 0x91]);
            assert(part(p, 8, 40) =~= key@);
        },
        Frame::ClientInfo { key, sealed } => {
            lemma_key_len(key);
            assert(part(p, 0, 32) =~= key@);
            assert(from(p, 32) =~= bytes_view(sealed));
        },
        Frame::SendPacket { dst, packet } => {
            lemma_key_len(dst);
            assert(part(p, 0, 32) =~= dst@);
            assert(from(p, 32) =~= bytes_view(packet));
        },
        Frame::ForwardPacket { src, dst, packet } => {
            lemma_key_len(src);
            lemma_key_len(dst);
            assert(part(p, 0, 32) =~= src@);
            assert(part(p, 32, 64) =~= dst@);
            assert(from(p, 64) =~= bytes_view(packet));
        },
        Frame::RecvPacket { src, packet } => {
            lemma_key_len(src);
            assert(part(p, 0, 32) =~= src@);
            assert(from(p, 32) =~= bytes_view(packet));
        },
        Frame::PeerGone { peer, reason } => {
            lemma_key_len(peer);
            assert(part(p, 0, 32) =~= peer@);
        },
        Frame::PeerPresent { peer, endpoint, flags, extra } => {
            lemma_key_len(peer);
            assert(part(p, 0, 32) =~= peer@);
            if let Some(e) = endpoint {
                lemma_announced(peer, e, flags, extra);
            }
        },
        Frame::ClosePeer(peer) => {
            lemma_key_len(peer);
        },
        Frame::Restarting { reconnect_in_ms, try_for_ms } => {
            lemma_number(part(p, 0, 4));
            lemma_number(part(p, 4, 8));
        },
        _ => {},
    }
}

/// What a frame says that announces a peer with its endpoint.
proof fn lemma_announced(peer: NodeKey, e: Endpoint, flags: Option<u8>, extra: Bytes)
    ensures
        is_payload(
            Frame::PeerPresent { peer, endpoint: Some(e), flags, extra },
            (Frame::PeerPresent { peer, endpoint: Some(e), flags, extra })@.payload(),
        ),
{
    let p = (Frame::PeerPresent { peer, endpoint: Some(e), flags, extra })@.payload();
    lemma_key_len(peer);
    assert(part(p, 0, 32) =~= peer@);
    let octets = part(p, 32, 48);
    match e.ip {
        IpAddress::V4(o) => {
            assert forall|i: int| 0 <= i < 4 implies octets[12 + i] == #[trigger] o@[i] by {}
        },
        IpAddress::V6(o) => {
            assert(octets =~= o@);
        },
    }
    lemma_number(part(p, 48, 50));
    match flags {
        None => {
            assert(from(p, 50) =~= bytes_view(extra));
        },
        Some(_) => {
            assert(from(p, 51) =~= bytes_view(extra));
        },
    }
}

/// An encoded frame is its type byte, the length of what follows, and what the frame says, part by
/// part.
pub proof fn law_encoded_bytes(f: Frame, raw: Bytes)
    requires
        call_ensures(Frame::encode, (&f,), Ok::<Bytes, ProtocolError>(raw)),
    ensures
        bytes_view(raw).len() >= 5,
        is_framed(bytes_view(raw), type_byte(f), from(bytes_view(raw), 5)),
        is_payload(f, from(bytes_view(raw), 5)),
{
    let r = bytes_view(raw);
    assert(from(r, 5) =~= f@.payload());
    lemma_number(part(r, 1, 5));
    lemma_payload(f);
}

/// A frame is encoded unless its packet has more than 64 KiB, or what follows the header more bytes
/// than four bytes can count; the error tells how many there are.
#[verifier::rlimit(40)]
pub proof fn law_what_is_encoded(f: Frame, r: Result<Bytes, ProtocolError>, n: nat)
    requires
        call_ensures(Frame::encode, (&f,), r),
        exists|p: Seq<u8>| #[trigger] is_payload(f, p) && p.len() == n,
        n <= usize::MAX,
    ensures
        carried(f) matches Some(packet) && packet.len() > 65536 ==> r == Err::<
            Bytes,
            ProtocolError,
        >(ProtocolError::PacketTooLarge(carried(f)->0.len() as usize)),
        !(carried(f) matches Some(packet) && packet.len() > 65536) && n > 0xffff_ffff ==> r == Err::<
            Bytes,
            ProtocolError,
        >(ProtocolError::FrameTooLarge(n as usize)),
        !(carried(f) matches Some(packet) && packet.len() > 65536) && n <= 0xffff_ffff ==> r is Ok,
{
    let p = choose|p: Seq<u8>| #[trigger] is_payload(f, p) && p.len() == n;
    match f {
        Frame::ServerKey(key) => {
            lemma_key_len(key);
        },
        Frame::ClientInfo { key, .. } => {
            lemma_key_len(key);
        },
        Frame::SendPacket { dst, .. } => {
            lemma_key_len(dst);
        },
        Frame::ForwardPacket { src, dst, .. } => {
            lemma_key_len(src);
            lemma_key_len(dst);
        },
        Frame::RecvPacket { src, .. } => {
            lemma_key_len(src);
        },
        Frame::PeerGone { peer, .. } => {
            lemma_key_len(peer);
        },
        Frame::PeerPresent { peer, endpoint, flags, extra } => {
            lemma_key_len(peer);
            assert(f@.payload().len() == p.len()) by {
                if let Some(e) = endpoint {
                    match flags {
                        None => {
                            assert(from(p, 50).len() == bytes_view(extra).len());
                        },
                        Some(_) => {
                            assert(from(p, 51).len() == bytes_view(extra).len());
                        },
                    }
                }
            }
        },
        _ => {},
    }
}

/// Adding a frame to a batch adds what encoding it alone gives, and fails where that fails, the
/// batch then being left as it was.
pub proof fn law_batches_grow_by_encoded_frames(
    f: Frame,
    out: &mut BytesMut,
    r: Result<(), ProtocolError>,
    alone: Result<Bytes, ProtocolError>,
)
    requires
        call_ensures(Frame::encode_into, (&f, out), r),
        call_ensures(Frame::encode, (&f,), alone),
    ensures
        match alone {
            Ok(raw) => r is Ok && buffer_view(*final(out)) == buffer_view(*old(out)) + bytes_view(
                raw,
            ),
            Err(e) => r == Err::<(), ProtocolError>(e) && buffer_view(*final(out)) == buffer_view(
                *old(out),
            ),
        },
{
}

/// A frame's clone says the same.
pub proof fn law_clones_say_the_same(f: Frame, r: Frame)
    requires
        call_ensures(Frame::clone, (&f,), r),
    ensures
        r@ == f@,
{
}

/// A kind's type byte announces that kind.
pub proof fn law_type_bytes_are_read_back(t: FrameType, code: u8, r: Option<FrameType>)
    requires
        call_ensures(FrameType::code, (t,), code),
        call_ensures(FrameType::from_u8, (code,), r),
    ensures
        r == Some(t),
{
    law_frame_type_of_code(t);
}

/// The type bytes: each kind of frame has its own, and every other byte announces no kind.
pub proof fn law_type_bytes(f: Frame, kind: u8, value: u8, t: Option<FrameType>)
    requires
        call_ensures(Frame::kind, (&f,), kind),
        call_ensures(FrameType::from_u8, (value,), t),
    ensures
        kind == type_byte(f),
        t is Some <==> 1 <= value <= 10 || 16 <= value <= 21,
        t matches Some(FrameType::ServerKey) <==> value == 1,
        t matches Some(FrameType::ClientInfo) <==> value == 2,
        t matches Some(FrameType::ServerInfo) <==> value == 3,
        t matches Some(FrameType::SendPacket) <==> value == 4,
        t matches Some(FrameType::RecvPacket) <==> value == 5,
        t matches Some(FrameType::KeepAlive) <==> value == 6,
        t matches Some(FrameType::NotePreferred) <==> value == 7,
        t matches Some(FrameType::PeerGone) <==> value == 8,
        t matches Some(FrameType::PeerPresent) <==> value == 9,
        t matches Some(FrameType::ForwardPacket) <==> value == 10,
        t matches Some(FrameType::WatchConns) <==> value == 16,
        t matches Some(FrameType::ClosePeer) <==> value == 17,
        t matches Some(FrameType::Ping) <==> value == 18,
        t matches Some(FrameType::Pong) <==> value == 19,
        t matches Some(FrameType::Health) <==> value == 20,
        t matches Some(FrameType::Restarting) <==> value == 21,
{
    lemma_types();
}

/// Every type byte is found.
proof fn lemma_types()
    ensures
        forall|v: u8| #[trigger] frame_type(v) == type_of(v),
{
    law_frame_type_of_code(FrameType::ServerKey);
    law_frame_type_of_code(FrameType::ClientInfo);
    law_frame_type_of_code(FrameType::ServerInfo);
    law_frame_type_of_code(FrameType::SendPacket);
    law_frame_type_of_code(FrameType::RecvPacket);
    law_frame_type_of_code(FrameType::KeepAlive);
    law_frame_type_of_code(FrameType::NotePreferred);
    law_frame_type_of_code(FrameType::PeerGone);
    law_frame_type_of_code(FrameType::PeerPresent);
    law_frame_type_of_code(FrameType::ForwardPacket);
    law_frame_type_of_code(FrameType::WatchConns);
    law_frame_type_of_code(FrameType::ClosePeer);
    law_frame_type_of_code(FrameType::Ping);
    law_frame_type_of_code(FrameType::Pong);
    law_frame_type_of_code(FrameType::Health);
    law_frame_type_of_code(FrameType::Restarting);
    assert forall|v: u8| #[trigger] frame_type(v) == type_of(v) by {
        if type_of(v) is None {
            assert forall|t: FrameType| #[trigger] t.spec_code() != v by {}
        }
    }
}

/// The kind of frame that a byte announces.
spec fn type_of(value: u8) -> Option<FrameType> {
    match value {
        1 => Some(FrameType::ServerKey),
        2 => Some(FrameType::ClientInfo),
        3 => Some(FrameType::ServerInfo),
        4 => Some(FrameType::SendPacket),
        5 => Some(FrameType::RecvPacket),
        6 => Some(FrameType::KeepAlive),
        7 => Some(FrameType::NotePreferred),
        8 => Some(FrameType::PeerGone),
        9 => Some(FrameType::PeerPresent),
        10 => Some(FrameType::ForwardPacket),
        16 => Some(FrameType::WatchConns),
        17 => Some(FrameType::ClosePeer),
        18 => Some(FrameType::Ping),
        19 => Some(FrameType::Pong),
        20 => Some(FrameType::Health),
        21 => Some(FrameType::Restarting),
        _ => None,
    }
}

/// Whether a payload can be read under a type byte.
pub open spec fn is_readable(kind: u8, p: Seq<u8>) -> bool {
    match kind {
        1 => p.len() >= 40 && part(p, 0, 8) == seq![
            0x44u8,
            0x45,
            0x52,
            0x50,
            0xF0,
            0x9F,
            0x94,
            0x91,
        ] && names_a_node(part(p, 8, 40)),
        2 => p.len() >= 56 && names_a_node(part(p, 0, 32)),
        3 => p.len() >= 24,
        4 => 32 <= p.len() <= 32 + 65536 && names_a_node(part(p, 0, 32)),
        5 => 32 <= p.len() <= 32 + 65536 && names_a_node(part(p, 0, 32)),
        6 => p.len() == 0,
        7 => p.len() == 1,
        8 => p.len() >= 32 && names_a_node(part(p, 0, 32)),
        9 => p.len() >= 32 && names_a_node(part(p, 0, 32)),
        10 => 64 <= p.len() <= 64 + 65536 && names_a_node(part(p, 0, 32)) && names_a_node(
            part(p, 32, 64),
        ),
        16 => p.len() == 0,
        17 => p.len() == 32 && names_a_node(p),
        18 => 8 <= p.len() <= 1000,
        19 => 8 <= p.len() <= 1000,
        20 => true,
        21 => p.len() >= 8,
        _ => true,
    }
}

/// Whether a frame is what a payload says.
pub open spec fn is_said(f: Frame, p: Seq<u8>) -> bool {
    match f {
        Frame::ServerKey(key) => key@ == part(p, 8, 40),
        Frame::ClientInfo { key, sealed } => key@ == part(p, 0, 32) && bytes_view(sealed) == from(
            p,
            32,
        ),
        Frame::ServerInfo(sealed) => bytes_view(sealed) == p,
        Frame::SendPacket { dst, packet } => dst@ == part(p, 0, 32) && bytes_view(packet) == from(
            p,
            32,
        ),
        Frame::ForwardPacket { src, dst, packet } => src@ == part(p, 0, 32) && dst@ == part(
            p,
            32,
            64,
        ) && bytes_view(packet) == from(p, 64),
        Frame::RecvPacket { src, packet } => src@ == part(p, 0, 32) && bytes_view(packet) == from(
            p,
            32,
        ),
        Frame::KeepAlive => true,
        Frame::NotePreferred(preferred) => preferred == (p[0] != 0),
        Frame::PeerGone { peer, reason } => peer@ == part(p, 0, 32) && reason == if p.len() > 32 {
            p[32]
        } else {
            0
        },
        Frame::PeerPresent { peer, endpoint, flags, extra } => {
            &&& peer@ == part(p, 0, 32)
            &&& endpoint is Some <==> p.len() >= 50
            &&& endpoint matches Some(e) ==> (e.ip matches IpAddress::V6(o) && o@ == part(
                p,
                32,
                48,
            )) && e.port == number(part(p, 48, 50))
            &&& flags is Some <==> p.len() >= 51
            &&& flags matches Some(f) ==> f == p[50]
            &&& if p.len() >= 51 {
                bytes_view(extra) == from(p, 51)
            } else {
                bytes_view(extra).len() == 0
            }
        },
        Frame::WatchConns => true,
        Frame::ClosePeer(peer) => peer@ == p,
        Frame::Ping(value) => value@ == part(p, 0, 8),
        Frame::Pong(value) => value@ == part(p, 0, 8),
        Frame::Health(text) => bytes_view(text) == p,
        Frame::Restarting { reconnect_in_ms, try_for_ms } => reconnect_in_ms == number(
            part(p, 0, 4),
        ) && try_for_ms == number(part(p, 4, 8)),
        Frame::Unknown { payload, .. } => bytes_view(payload) == p,
    }
}

/// A payload is read exactly where its length and its keys fit its type byte; what comes out is a
/// frame of that type, with each part taken from its place in the payload.
#[verifier::rlimit(40)]
pub proof fn law_decoded_bytes(kind: u8, payload: Bytes, r: Result<Frame, ProtocolError>)
    requires
        call_ensures(Frame::decode, (kind, payload), r),
    ensures
        r is Ok <==> is_readable(kind, bytes_view(payload)),
        r matches Ok(f) ==> {
            &&& type_byte(f) == kind
            &&& f is Unknown <==> !(1 <= kind <= 10 || 16 <= kind <= 21)
            &&& is_said(f, bytes_view(payload))
        },
{
    let p = bytes_view(payload);
    lemma_types();
    lemma_names(part(p, 0, 32));
    lemma_names(part(p, 8, 40));
    lemma_names(part(p, 32, 64));
    lemma_names(p);
    lemma_number(part(p, 48, 50));
    lemma_number(part(p, 0, 4));
    lemma_number(part(p, 4, 8));
    assert(MAGIC@ =~= seq![0x44u8, 0x45, 0x52, 0x50, 0xF0, 0x9F, 0x94, 0x91]);
    if let Ok(f) = r {
        lemma_said(kind, p, f);
    }
}

#[verifier::rlimit(40)]
proof fn lemma_said(kind: u8, p: Seq<u8>, f: Frame)
    requires
        decode_spec(kind, p) == Ok::<
            FrameView,
            ProtocolError,
        >(f@),
    ensures
        type_byte(f) == kind,
        f is Unknown <==> !(1 <= kind <= 10 || 16 <= kind <= 21),
        is_said(f, p),
{
    lemma_types();
    lemma_number(part(p, 48, 50));
    lemma_number(part(p, 0, 4));
    lemma_number(part(p, 4, 8));
    match f {
        Frame::PeerPresent { peer, endpoint, flags, extra } => {
            if let Some(e) = endpoint {
                match e.ip {
                    IpAddress::V4(o) => {
                        assert(o@.len() == 4);
                    },
                    IpAddress::V6(o) => {},
                }
            }
            if p.len() == 51 {
                assert(from(p, 51) =~= Seq::empty());
            }
        },
        _ => {},
    }
}

/// How a payload is named that does not fit its type.
pub open spec fn misfit(kind: u8, n: nat) -> Seq<char> {
    match kind {
        1 => "bad server greeting"@,
        2 => "short client info"@,
        3 => "short server info"@,
        4 => "short send packet"@,
        5 => "short recv packet"@,
        6 => "keepalive"@,
        7 => "note preferred"@,
        8 => "short peer gone"@,
        9 => "short peer present"@,
        10 => "short forward packet"@,
        16 => "watch conns"@,
        17 => "close peer"@,
        21 => "short restarting"@,
        _ => if n < 8 {
            "short ping/pong"@
        } else {
            "oversized ping/pong"@
        },
    }
}

/// What is wrong with a payload that cannot be read: it is too short or too long for its type, its
/// packet is too large, or a key in it is all zero, in this order.
#[verifier::rlimit(40)]
pub proof fn law_decode_faults(kind: u8, payload: Bytes, e: ProtocolError)
    requires
        call_ensures(Frame::decode, (kind, payload), Err::<Frame, ProtocolError>(e)),
        bytes_view(payload).len() <= usize::MAX,
    ensures
        ({
            let p = bytes_view(payload);
            let n = p.len();
            let packet_at: nat = if kind == 10 {
                64
            } else {
                32
            };
            &&& !is_readable(kind, p)
            &&& (e matches ProtocolError::PacketTooLarge(size) ==> size == n - packet_at)
            &&& e is PacketTooLarge <==> (kind == 4 || kind == 5 || kind == 10) && n > packet_at
                + 65536
            &&& e is InvalidKey <==> match kind {
                1 => n >= 40 && part(p, 0, 8) == seq![
                    0x44u8,
                    0x45,
                    0x52,
                    0x50,
                    0xF0,
                    0x9F,
                    0x94,
                    0x91,
                ],
                2 => n >= 56,
                4 => 32 <= n <= 32 + 65536,
                5 => 32 <= n <= 32 + 65536,
                8 => n >= 32,
                9 => n >= 32,
                10 => 64 <= n <= 64 + 65536,
                17 => n == 32,
                _ => false,
            }
            &&& !(e is FrameTooLarge)
            &&& (e matches ProtocolError::Invalid(why) ==> why@ == misfit(kind, n))
        }),
{
    law_decoded_bytes(kind, payload, Err(e));
    let p = bytes_view(payload);
    lemma_types();
    assert(MAGIC@ =~= seq![0x44u8, 0x45, 0x52, 0x50, 0xF0, 0x9F, 0x94, 0x91]);
}

/// A header is its type byte and four bytes that spell how much follows; more than the reader takes
/// is refused.
pub proof fn law_headers(header: [u8; 5], max: usize, r: Result<(u8, usize), ProtocolError>)
    requires
        call_ensures(read_header, (&header, max), r),
    ensures
        ({
            let n = number(part(header@, 1, 5));
            if n <= max {
                r == Ok::<(u8, usize), ProtocolError>((header@[0], n as usize))
            } else {
                r == Err::<(u8, usize), ProtocolError>(ProtocolError::FrameTooLarge(n as usize))
            }
        }),
{
    lemma_number(part(header@, 1, 5));
}

/// What the server says of its limit is the limit, and nothing where there is none.
pub proof fn law_server_info(rate: u64, burst: u64, r: ServerInfo)
    requires
        call_ensures(ServerInfo::with_limit, (rate, burst), r),
    ensures
        r.version == 2,
        r.token_bucket_bytes_per_second == (if rate == 0 {
            None::<u64>
        } else {
            Some(rate)
        }),
        r.token_bucket_bytes_burst == (if rate == 0 {
            None::<u64>
        } else {
            Some(burst)
        }),
{
}

/// An address that must travel in sixteen octets: an IPv6 address as it is, an IPv4 address behind
/// ten zeros and two bytes of ones.
pub proof fn law_mapped_addresses(ip: IpAddress, r: [u8; 16])
    requires
        call_ensures(IpAddress::to_mapped, (&ip,), r),
    ensures
        is_wire_address(r@, ip),
{
    if let IpAddress::V4(o) = ip {
        assert forall|i: int| 0 <= i < 4 implies r@[12 + i] == #[trigger] o@[i] by {}
    }
}

} // verus!
