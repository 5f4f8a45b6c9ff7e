//! The DERP v2 frame format.

pub mod peer_gone_reason;
pub mod peer_present_flags;

use bytes::{Bytes, BytesMut};
use vstd::prelude::*;
use vstd::slice::slice_subrange;

use crate::crypto::{valid_key, NodeKey};
use crate::endpoint::{mapped_octets, Endpoint, EndpointView, IpAddress};
use crate::wire::{
    array16, array8, be16, be32, buffer_empty, buffer_extend, buffer_freeze, buffer_len,
    buffer_overwrite, buffer_put_u16, buffer_put_u32, buffer_put_u8, buffer_truncate, buffer_view,
    bytes_as_slice, bytes_empty, bytes_tail, bytes_view, from_be16, from_be32, has_prefix,
    law_be16_round_trip, law_be32_round_trip, read_be16, read_be32, write_be32,
};

verus! {

/// The bytes that open a server's greeting: `DERP` and the key sign U+1F511 in UTF-8.
pub const MAGIC: [u8; 8] = [0x44, 0x45, 0x52, 0x50, 0xF0, 0x9F, 0x94, 0x91];

/// The protocol version that the handshake announces.
pub const PROTOCOL_VERSION: u32 = 2;

/// A frame's type byte and its four-byte length.
pub const FRAME_HEADER_LEN: usize = 5;

/// The length of a node key.
pub const KEY_LEN: usize = 32;

/// The length of a box's nonce.
pub const NONCE_LEN: usize = 24;

/// The largest packet that is relayed: 64 KiB.
pub const MAX_PACKET_SIZE: usize = 65536;

/// The largest server info frame that a mesh client takes: 1 MiB.
pub const MAX_INFO_SIZE: usize = 1048576;

/// The largest client info text that the server takes: 256 KiB.
pub const MAX_CLIENT_INFO_SIZE: usize = 262144;

/// What is wrong with a frame.
#[derive(Clone, Copy, Debug, PartialEq, Eq)]
pub enum ProtocolError {
    /// A frame's payload has this many bytes, more than are taken or than its length field holds.
    FrameTooLarge(usize),
    /// A packet has this many bytes, more than are relayed.
    PacketTooLarge(usize),
    /// The payload does not fit the frame's type.
    Invalid(&'static str),
    /// A node key is all zero or of the wrong length.
    InvalidKey,
}

/// The kinds of frame that DERP v2 defines.
#[derive(Clone, Copy, Debug, PartialEq, Eq, Structural)]
pub enum FrameType {
    ServerKey,
    ClientInfo,
    ServerInfo,
    SendPacket,
    RecvPacket,
    KeepAlive,
    NotePreferred,
    PeerGone,
    PeerPresent,
    ForwardPacket,
    WatchConns,
    ClosePeer,
    Ping,
    Pong,
    Health,
    Restarting,
}

impl FrameType {
    /// The type byte on the wire.
    pub open spec fn spec_code(self) -> u8 {
        match self {
            FrameType::ServerKey => 0x01,
            FrameType::ClientInfo => 0x02,
            FrameType::ServerInfo => 0x03,
            FrameType::SendPacket => 0x04,
            FrameType::RecvPacket => 0x05,
            FrameType::KeepAlive => 0x06,
            FrameType::NotePreferred => 0x07,
            FrameType::PeerGone => 0x08,
            FrameType::PeerPresent => 0x09,
            FrameType::ForwardPacket => 0x0a,
            FrameType::WatchConns => 0x10,
            FrameType::ClosePeer => 0x11,
            FrameType::Ping => 0x12,
            FrameType::Pong => 0x13,
            FrameType::Health => 0x14,
            FrameType::Restarting => 0x15,
        }
    }

    /// The type byte on the wire.
    pub fn code(self) -> (r: u8)
        ensures
            r == self.spec_code(),
    {
        match self {
            FrameType::ServerKey => 0x01,
            FrameType::ClientInfo => 0x02,
            FrameType::ServerInfo => 0x03,
            FrameType::SendPacket => 0x04,
            FrameType::RecvPacket => 0x05,
            FrameType::KeepAlive => 0x06,
            FrameType::NotePreferred => 0x07,
            FrameType::PeerGone => 0x08,
            FrameType::PeerPresent => 0x09,
            FrameType::ForwardPacket => 0x0a,
            FrameType::WatchConns => 0x10,
            FrameType::ClosePeer => 0x11,
            FrameType::Ping => 0x12,
            FrameType::Pong => 0x13,
            FrameType::Health => 0x14,
            FrameType::Restarting => 0x15,
        }
    }

    /// The kind of frame that a type byte announces, if it is one of those defined.
    pub fn from_u8(value: u8) -> (r: Option<FrameType>)
        ensures
            match r {
                Some(t) => t.spec_code() == value,
                None => forall|t: FrameType| t.spec_code() != value,
            },
            r == frame_type(value),
    {
        let t = match value {
            0x01 => FrameType::ServerKey,
            0x02 => FrameType::ClientInfo,
            0x03 => FrameType::ServerInfo,
            0x04 => FrameType::SendPacket,
            0x05 => FrameType::RecvPacket,
            0x06 => FrameType::KeepAlive,
            0x07 => FrameType::NotePreferred,
            0x08 => FrameType::PeerGone,
            0x09 => FrameType::PeerPresent,
            0x0a => FrameType::ForwardPacket,
            0x10 => FrameType::WatchConns,
            0x11 => FrameType::ClosePeer,
            0x12 => FrameType::Ping,
            0x13 => FrameType::Pong,
            0x14 => FrameType::Health,
            0x15 => FrameType::Restarting,
            _ => {
                return None;
            },
        };
        proof {
            law_frame_type_of_code(t);
        }
        Some(t)
    }
}

/// The kind of frame with this type byte, if there is one.
pub open spec fn frame_type(value: u8) -> Option<FrameType> {
    if exists|t: FrameType| #[trigger] t.spec_code() == value {
        Some(choose|t: FrameType| #[trigger] t.spec_code() == value)
    } else {
        None
    }
}

/// Every kind of frame is found again by its type byte: no two kinds share one.
pub proof fn law_frame_type_of_code(t: FrameType)
    ensures
        frame_type(t.spec_code()) == Some(t),
{
}

/// One DERP frame.
#[derive(Debug, PartialEq, Eq)]
pub enum Frame {
    ServerKey(NodeKey),
    ClientInfo { key: NodeKey, sealed: Bytes },
    ServerInfo(Bytes),
    SendPacket { dst: NodeKey, packet: Bytes },
    ForwardPacket { src: NodeKey, dst: NodeKey, packet: Bytes },
    RecvPacket { src: NodeKey, packet: Bytes },
    KeepAlive,
    NotePreferred(bool),
    PeerGone { peer: NodeKey, reason: u8 },
    PeerPresent { peer: NodeKey, endpoint: Option<Endpoint>, flags: Option<u8>, extra: Bytes },
    WatchConns,
    ClosePeer(NodeKey),
    Ping([u8; 8]),
    Pong([u8; 8]),
    Health(Bytes),
    Restarting { reconnect_in_ms: u32, try_for_ms: u32 },
    Unknown { kind: u8, payload: Bytes },
}

/// The model of a frame: keys, packets and payloads as byte sequences.
pub enum FrameView {
    ServerKey(Seq<u8>),
    ClientInfo { key: Seq<u8>, sealed: Seq<u8> },
    ServerInfo(Seq<u8>),
    SendPacket { dst: Seq<u8>, packet: Seq<u8> },
    ForwardPacket { src: Seq<u8>, dst: Seq<u8>, packet: Seq<u8> },
    RecvPacket { src: Seq<u8>, packet: Seq<u8> },
    KeepAlive,
    NotePreferred(bool),
    PeerGone { peer: Seq<u8>, reason: u8 },
    PeerPresent {
        peer: Seq<u8>,
        endpoint: Option<EndpointView>,
        flags: Option<u8>,
        extra: Seq<u8>,
    },
    WatchConns,
    ClosePeer(Seq<u8>),
    Ping(Seq<u8>),
    Pong(Seq<u8>),
    Health(Seq<u8>),
    Restarting { reconnect_in_ms: u32, try_for_ms: u32 },
    Unknown { kind: u8, payload: Seq<u8> },
}

/// The model of an optional endpoint.
pub open spec fn endpoint_view(endpoint: Option<Endpoint>) -> Option<EndpointView> {
    match endpoint {
        Some(e) => Some(e@),
        None => None,
    }
}

impl View for Frame {
    type V = FrameView;

    open spec fn view(&self) -> FrameView {
        match self {
            Frame::ServerKey(key) => FrameView::ServerKey(key@),
            Frame::ClientInfo { key, sealed } => FrameView::ClientInfo {
                key: key@,
                sealed: bytes_view(*sealed),
            },
            Frame::ServerInfo(sealed) => FrameView::ServerInfo(bytes_view(*sealed)),
            Frame::SendPacket { dst, packet } => FrameView::SendPacket {
                dst: dst@,
                packet: bytes_view(*packet),
            },
            Frame::ForwardPacket { src, dst, packet } => FrameView::ForwardPacket {
                src: src@,
                dst: dst@,
                packet: bytes_view(*packet),
            },
            Frame::RecvPacket { src, packet } => FrameView::RecvPacket {
                src: src@,
                packet: bytes_view(*packet),
            },
            Frame::KeepAlive => FrameView::KeepAlive,
            Frame::NotePreferred(value) => FrameView::NotePreferred(*value),
            Frame::PeerGone { peer, reason } => FrameView::PeerGone {
                peer: peer@,
                reason: *reason,
            },
            Frame::PeerPresent { peer, endpoint, flags, extra } => FrameView::PeerPresent {
                peer: peer@,
                endpoint: endpoint_view(*endpoint),
                flags: *flags,
                extra: bytes_view(*extra),
            },
            Frame::WatchConns => FrameView::WatchConns,
            Frame::ClosePeer(peer) => FrameView::ClosePeer(peer@),
            Frame::Ping(value) => FrameView::Ping(value@),
            Frame::Pong(value) => FrameView::Pong(value@),
            Frame::Health(text) => FrameView::Health(bytes_view(*text)),
            Frame::Restarting { reconnect_in_ms, try_for_ms } => FrameView::Restarting {
                reconnect_in_ms: *reconnect_in_ms,
                try_for_ms: *try_for_ms,
            },
            Frame::Unknown { kind, payload } => FrameView::Unknown {
                kind: *kind,
                payload: bytes_view(*payload),
            },
        }
    }
}

impl Clone for Frame {
    /// Another handle on the same frame; byte strings are shared.
    fn clone(&self) -> (r: Frame)
        ensures
            r@ == self@,
    {
        match self {
            Frame::ServerKey(key) => Frame::ServerKey(*key),
            Frame::ClientInfo { key, sealed } => Frame::ClientInfo {
                key: *key,
                sealed: sealed.clone(),
            },
            Frame::ServerInfo(sealed) => Frame::ServerInfo(sealed.clone()),
            Frame::SendPacket { dst, packet } => Frame::SendPacket {
                dst: *dst,
                packet: packet.clone(),
            },
            Frame::ForwardPacket { src, dst, packet } => Frame::ForwardPacket {
                src: *src,
                dst: *dst,
                packet: packet.clone(),
            },
            Frame::RecvPacket { src, packet } => Frame::RecvPacket {
                src: *src,
                packet: packet.clone(),
            },
            Frame::KeepAlive => Frame::KeepAlive,
            Frame::NotePreferred(value) => Frame::NotePreferred(*value),
            Frame::PeerGone { peer, reason } => Frame::PeerGone { peer: *peer, reason: *reason },
            Frame::PeerPresent { peer, endpoint, flags, extra } => Frame::PeerPresent {
                peer: *peer,
                endpoint: *endpoint,
                flags: *flags,
                extra: extra.clone(),
            },
            Frame::WatchConns => Frame::WatchConns,
            Frame::ClosePeer(peer) => Frame::ClosePeer(*peer),
            Frame::Ping(value) => Frame::Ping(*value),
            Frame::Pong(value) => Frame::Pong(*value),
            Frame::Health(text) => Frame::Health(text.clone()),
            Frame::Restarting { reconnect_in_ms, try_for_ms } => Frame::Restarting {
                reconnect_in_ms: *reconnect_in_ms,
                try_for_ms: *try_for_ms,
            },
            Frame::Unknown { kind, payload } => Frame::Unknown {
                kind: *kind,
                payload: payload.clone(),
            },
        }
    }
}

impl FrameView {
    /// The type byte on the wire.
    pub open spec fn kind(self) -> u8 {
        match self {
            FrameView::ServerKey(_) => FrameType::ServerKey.spec_code(),
            FrameView::ClientInfo { .. } => FrameType::ClientInfo.spec_code(),
            FrameView::ServerInfo(_) => FrameType::ServerInfo.spec_code(),
            FrameView::SendPacket { .. } => FrameType::SendPacket.spec_code(),
            FrameView::ForwardPacket { .. } => FrameType::ForwardPacket.spec_code(),
            FrameView::RecvPacket { .. } => FrameType::RecvPacket.spec_code(),
            FrameView::KeepAlive => FrameType::KeepAlive.spec_code(),
            FrameView::NotePreferred(_) => FrameType::NotePreferred.spec_code(),
            FrameView::PeerGone { .. } => FrameType::PeerGone.spec_code(),
            FrameView::PeerPresent { .. } => FrameType::PeerPresent.spec_code(),
            FrameView::WatchConns => FrameType::WatchConns.spec_code(),
            FrameView::ClosePeer(_) => FrameType::ClosePeer.spec_code(),
            FrameView::Ping(_) => FrameType::Ping.spec_code(),
            FrameView::Pong(_) => FrameType::Pong.spec_code(),
            FrameView::Health(_) => FrameType::Health.spec_code(),
            FrameView::Restarting { .. } => FrameType::Restarting.spec_code(),
            FrameView::Unknown { kind, .. } => kind,
        }
    }

    /// The bytes after the header. A peer without an endpoint is announced by its key alone.
    pub open spec fn payload(self) -> Seq<u8> {
        match self {
            FrameView::ServerKey(key) => MAGIC@ + key,
            FrameView::ClientInfo { key, sealed } => key + sealed,
            FrameView::ServerInfo(sealed) => sealed,
            FrameView::SendPacket { dst, packet } => dst + packet,
            FrameView::ForwardPacket { src, dst, packet } => src + dst + packet,
            FrameView::RecvPacket { src, packet } => src + packet,
            FrameView::KeepAlive => Seq::empty(),
            FrameView::NotePreferred(value) => seq![
                if value {
                    1u8
                } else {
                    0u8
                },
            ],
            FrameView::PeerGone { peer, reason } => peer.push(reason),
            FrameView::PeerPresent { peer, endpoint, flags, extra } => match endpoint {
                Some(e) => {
                    let flag = match flags {
                        Some(f) => seq![f],
                        None => Seq::empty(),
                    };
                    peer + mapped_octets(e.octets) + be16(e.port) + flag + extra
                },
                None => peer,
            },
            FrameView::WatchConns => Seq::empty(),
            FrameView::ClosePeer(peer) => peer,
            FrameView::Ping(value) => value,
            FrameView::Pong(value) => value,
            FrameView::Health(text) => text,
            FrameView::Restarting { reconnect_in_ms, try_for_ms } => be32(reconnect_in_ms) + be32(
                try_for_ms,
            ),
            FrameView::Unknown { payload, .. } => payload,
        }
    }

    /// The packet that the frame relays, if it relays one.
    pub open spec fn packet(self) -> Option<Seq<u8>> {
        match self {
            FrameView::SendPacket { packet, .. } => Some(packet),
            FrameView::ForwardPacket { packet, .. } => Some(packet),
            FrameView::RecvPacket { packet, .. } => Some(packet),
            _ => None,
        }
    }

    /// The size limit that the frame breaks, if it breaks one: that on packets comes first.
    pub open spec fn oversize(self) -> Option<ProtocolError> {
        if self.packet() is Some && self.packet()->0.len() > MAX_PACKET_SIZE {
            Some(ProtocolError::PacketTooLarge(self.packet()->0.len() as usize))
        } else if self.payload().len() > u32::MAX {
            Some(ProtocolError::FrameTooLarge(self.payload().len() as usize))
        } else {
            None
        }
    }

    /// The frame on the wire: type byte, payload length, payload.
    pub open spec fn encoding(self) -> Seq<u8> {
        seq![self.kind()] + be32(self.payload().len() as u32) + self.payload()
    }
}

fn validate_packet(packet: &[u8]) -> (r: Result<(), ProtocolError>)
    ensures
        r == (if packet@.len() > MAX_PACKET_SIZE {
            Err::<(), ProtocolError>(ProtocolError::PacketTooLarge(packet@.len() as usize))
        } else {
            Ok(())
        }),
{
    if packet.len() > MAX_PACKET_SIZE {
        Err(ProtocolError::PacketTooLarge(packet.len()))
    } else {
        Ok(())
    }
}

impl Frame {
    /// The type byte on the wire.
    pub fn kind(&self) -> (r: u8)
        ensures
            r == self@.kind(),
    {
        match self {
            Frame::ServerKey(_) => FrameType::ServerKey.code(),
            Frame::ClientInfo { .. } => FrameType::ClientInfo.code(),
            Frame::ServerInfo(_) => FrameType::ServerInfo.code(),
            Frame::SendPacket { .. } => FrameType::SendPacket.code(),
            Frame::ForwardPacket { .. } => FrameType::ForwardPacket.code(),
            Frame::RecvPacket { .. } => FrameType::RecvPacket.code(),
            Frame::KeepAlive => FrameType::KeepAlive.code(),
            Frame::NotePreferred(_) => FrameType::NotePreferred.code(),
            Frame::PeerGone { .. } => FrameType::PeerGone.code(),
            Frame::PeerPresent { .. } => FrameType::PeerPresent.code(),
            Frame::WatchConns => FrameType::WatchConns.code(),
            Frame::ClosePeer(_) => FrameType::ClosePeer.code(),
            Frame::Ping(_) => FrameType::Ping.code(),
            Frame::Pong(_) => FrameType::Pong.code(),
            Frame::Health(_) => FrameType::Health.code(),
            Frame::Restarting { .. } => FrameType::Restarting.code(),
            Frame::Unknown { kind, .. } => *kind,
        }
    }

    /// The frame on the wire, or the size limit that it breaks.
    pub fn encode(&self) -> (r: Result<Bytes, ProtocolError>)
        ensures
            match r {
                Ok(raw) => self@.oversize() is None && bytes_view(raw) == self@.encoding(),
                Err(e) => self@.oversize() == Some(e),
            },
    {
        let mut out = buffer_empty();
        match self.encode_into(&mut out) {
            Ok(()) => {
                proof {
                    assert(Seq::<u8>::empty() + self@.encoding() =~= self@.encoding());
                }
                Ok(buffer_freeze(out))
            },
            Err(e) => Err(e),
        }
    }

    /// Appends the encoded frame to a batch. A frame over a size limit is refused and leaves
    /// the batch as it was.
    pub fn encode_into(&self, out: &mut BytesMut) -> (r: Result<(), ProtocolError>)
        ensures
            match r {
                Ok(()) => self@.oversize() is None && buffer_view(*final(out)) == buffer_view(
                    *old(out),
                ) + self@.encoding(),
                Err(e) => self@.oversize() == Some(e) && buffer_view(*final(out)) == buffer_view(
                    *old(out),
                ),
            },
    {
        let frame_start = buffer_len(out);
        let ghost before = buffer_view(*out);
        buffer_put_u8(out, self.kind());
        buffer_put_u32(out, 0);
        let payload_start = buffer_len(out);
        let ghost headed = buffer_view(*out);
        proof {
            assert(headed.len() == before.len() + 5);
            assert(headed.subrange(0, before.len() as int) =~= before);
        }
        match self.put_payload(out) {
            Ok(()) => {},
            Err(e) => {
                buffer_truncate(out, frame_start);
                return Err(e);
            },
        }
        proof {
            assert(buffer_view(*out).subrange(0, before.len() as int) =~= before);
        }
        let payload_len = buffer_len(out) - payload_start;
        if payload_len as u64 > 0xffff_ffff {
            buffer_truncate(out, frame_start);
            return Err(ProtocolError::FrameTooLarge(payload_len));
        }
        let length = write_be32(payload_len as u32);
        buffer_overwrite(out, frame_start + 1, frame_start + FRAME_HEADER_LEN, length.as_slice());
        proof {
            assert(buffer_view(*out) =~= before + self@.encoding());
        }
        Ok(())
    }

    /// Appends the payload. A packet over the limit is refused and nothing is appended.
    fn put_payload(&self, out: &mut BytesMut) -> (r: Result<(), ProtocolError>)
        ensures
            match r {
                Ok(()) => (self@.packet() matches Some(p) ==> p.len() <= MAX_PACKET_SIZE)
                    && buffer_view(*final(out)) == buffer_view(*old(out)) + self@.payload(),
                Err(e) => self@.packet() matches Some(p) && p.len() > MAX_PACKET_SIZE && e
                    == ProtocolError::PacketTooLarge(p.len() as usize) && buffer_view(*final(out))
                    == buffer_view(*old(out)),
            },
    {
        let ghost before = buffer_view(*out);
        match self {
            Frame::ServerKey(key) => {
                buffer_extend(out, MAGIC.as_slice());
                buffer_extend(out, key.as_bytes().as_slice());
                proof {
                    assert(buffer_view(*out) =~= before + self@.payload());
                }
            },
            Frame::ClientInfo { key, sealed } => {
                buffer_extend(out, key.as_bytes().as_slice());
                buffer_extend(out, bytes_as_slice(sealed));
                proof {
                    assert(buffer_view(*out) =~= before + self@.payload());
                }
            },
            Frame::ServerInfo(sealed) | Frame::Health(sealed) => {
                buffer_extend(out, bytes_as_slice(sealed));
            },
            Frame::SendPacket { dst, packet } => {
                match validate_packet(bytes_as_slice(packet)) {
                    Ok(()) => {},
                    Err(e) => {
                        return Err(e);
                    },
                }
                buffer_extend(out, dst.as_bytes().as_slice());
                buffer_extend(out, bytes_as_slice(packet));
                proof {
                    assert(buffer_view(*out) =~= before + self@.payload());
                }
            },
            Frame::ForwardPacket { src, dst, packet } => {
                match validate_packet(bytes_as_slice(packet)) {
                    Ok(()) => {},
                    Err(e) => {
                        return Err(e);
                    },
                }
                buffer_extend(out, src.as_bytes().as_slice());
                buffer_extend(out, dst.as_bytes().as_slice());
                buffer_extend(out, bytes_as_slice(packet));
                proof {
                    assert(buffer_view(*out) =~= before + self@.payload());
                }
            },
            Frame::RecvPacket { src, packet } => {
                match validate_packet(bytes_as_slice(packet)) {
                    Ok(()) => {},
                    Err(e) => {
                        return Err(e);
                    },
                }
                buffer_extend(out, src.as_bytes().as_slice());
                buffer_extend(out, bytes_as_slice(packet));
                proof {
                    assert(buffer_view(*out) =~= before + self@.payload());
                }
            },
            Frame::KeepAlive | Frame::WatchConns => {
                proof {
                    assert(buffer_view(*out) =~= before + self@.payload());
                }
            },
            Frame::NotePreferred(value) => {
                buffer_put_u8(
                    out,
                    if *value {
                        1
                    } else {
                        0
                    },
                );
                proof {
                    assert(buffer_view(*out) =~= before + self@.payload());
                }
            },
            Frame::PeerGone { peer, reason } => {
                buffer_extend(out, peer.as_bytes().as_slice());
                buffer_put_u8(out, *reason);
                proof {
                    assert(buffer_view(*out) =~= before + self@.payload());
                }
            },
            Frame::PeerPresent { peer, endpoint, flags, extra } => {
                buffer_extend(out, peer.as_bytes().as_slice());
                if let Some(endpoint) = endpoint {
                    let octets = endpoint.ip.to_mapped();
                    buffer_extend(out, octets.as_slice());
                    buffer_put_u16(out, endpoint.port);
                    if let Some(flags) = flags {
                        buffer_put_u8(out, *flags);
                    }
                    buffer_extend(out, bytes_as_slice(extra));
                }
                proof {
                    assert(buffer_view(*out) =~= before + self@.payload());
                }
            },
            Frame::ClosePeer(peer) => {
                buffer_extend(out, peer.as_bytes().as_slice());
            },
            Frame::Ping(value) | Frame::Pong(value) => {
                buffer_extend(out, value.as_slice());
            },
            Frame::Restarting { reconnect_in_ms, try_for_ms } => {
                buffer_put_u32(out, *reconnect_in_ms);
                buffer_put_u32(out, *try_for_ms);
                proof {
                    assert(buffer_view(*out) =~= before + self@.payload());
                }
            },
            Frame::Unknown { payload, .. } => {
                buffer_extend(out, bytes_as_slice(payload));
            },
        }
        Ok(())
    }
}

/// The frame whose decoded key is `key`, or the error on an all-zero key.
pub open spec fn keyed(key: Seq<u8>, frame: FrameView) -> Result<FrameView, ProtocolError> {
    if valid_key(key) {
        Ok(frame)
    } else {
        Err(ProtocolError::InvalidKey)
    }
}

/// What a payload of the given type means, or what is wrong with it. A type that is not defined
/// keeps its payload unread.
pub open spec fn decode_spec(kind: u8, p: Seq<u8>) -> Result<FrameView, ProtocolError> {
    let n = p.len() as int;
    match frame_type(kind) {
        None => Ok(FrameView::Unknown { kind, payload: p }),
        Some(FrameType::ServerKey) => if n < 40 || p.subrange(0, 8) != MAGIC@ {
            Err(ProtocolError::Invalid("bad server greeting"))
        } else {
            keyed(p.subrange(8, 40), FrameView::ServerKey(p.subrange(8, 40)))
        },
        Some(FrameType::ClientInfo) => if n < 56 {
            Err(ProtocolError::Invalid("short client info"))
        } else {
            keyed(
                p.subrange(0, 32),
                FrameView::ClientInfo { key: p.subrange(0, 32), sealed: p.subrange(32, n) },
            )
        },
        Some(FrameType::ServerInfo) => if n < 24 {
            Err(ProtocolError::Invalid("short server info"))
        } else {
            Ok(FrameView::ServerInfo(p))
        },
        Some(FrameType::SendPacket) => if n < 32 {
            Err(ProtocolError::Invalid("short send packet"))
        } else if n - 32 > MAX_PACKET_SIZE {
            Err(ProtocolError::PacketTooLarge((n - 32) as usize))
        } else {
            keyed(
                p.subrange(0, 32),
                FrameView::SendPacket { dst: p.subrange(0, 32), packet: p.subrange(32, n) },
            )
        },
        Some(FrameType::ForwardPacket) => if n < 64 {
            Err(ProtocolError::Invalid("short forward packet"))
        } else if n - 64 > MAX_PACKET_SIZE {
            Err(ProtocolError::PacketTooLarge((n - 64) as usize))
        } else if !valid_key(p.subrange(0, 32)) {
            Err(ProtocolError::InvalidKey)
        } else {
            keyed(
                p.subrange(32, 64),
                FrameView::ForwardPacket {
                    src: p.subrange(0, 32),
                    dst: p.subrange(32, 64),
                    packet: p.subrange(64, n),
                },
            )
        },
        Some(FrameType::RecvPacket) => if n < 32 {
            Err(ProtocolError::Invalid("short recv packet"))
        } else if n - 32 > MAX_PACKET_SIZE {
            Err(ProtocolError::PacketTooLarge((n - 32) as usize))
        } else {
            keyed(
                p.subrange(0, 32),
                FrameView::RecvPacket { src: p.subrange(0, 32), packet: p.subrange(32, n) },
            )
        },
        Some(FrameType::KeepAlive) => if n != 0 {
            Err(ProtocolError::Invalid("keepalive"))
        } else {
            Ok(FrameView::KeepAlive)
        },
        Some(FrameType::NotePreferred) => if n != 1 {
            Err(ProtocolError::Invalid("note preferred"))
        } else {
            Ok(FrameView::NotePreferred(p[0] != 0))
        },
        Some(FrameType::PeerGone) => if n < 32 {
            Err(ProtocolError::Invalid("short peer gone"))
        } else {
            keyed(
                p.subrange(0, 32),
                FrameView::PeerGone {
                    peer: p.subrange(0, 32),
                    reason: if n > 32 {
                        p[32]
                    } else {
                        peer_gone_reason::DISCONNECTED
                    },
                },
            )
        },
        Some(FrameType::PeerPresent) => if n < 32 {
            Err(ProtocolError::Invalid("short peer present"))
        } else {
            keyed(
                p.subrange(0, 32),
                FrameView::PeerPresent {
                    peer: p.subrange(0, 32),
                    endpoint: if n >= 50 {
                        Some(
                            EndpointView {
                                octets: p.subrange(32, 48),
                                port: from_be16(p[48], p[49]) as u16,
                            },
                        )
                    } else {
                        None
                    },
                    flags: if n > 50 {
                        Some(p[50])
                    } else {
                        None
                    },
                    extra: if n > 51 {
                        p.subrange(51, n)
                    } else {
                        Seq::empty()
                    },
                },
            )
        },
        Some(FrameType::WatchConns) => if n != 0 {
            Err(ProtocolError::Invalid("watch conns"))
        } else {
            Ok(FrameView::WatchConns)
        },
        Some(FrameType::ClosePeer) => if n != 32 {
            Err(ProtocolError::Invalid("close peer"))
        } else {
            keyed(p, FrameView::ClosePeer(p))
        },
        Some(FrameType::Ping) => if n < 8 {
            Err(ProtocolError::Invalid("short ping/pong"))
        } else if n > 1000 {
            Err(ProtocolError::Invalid("oversized ping/pong"))
        } else {
            Ok(FrameView::Ping(p.subrange(0, 8)))
        },
        Some(FrameType::Pong) => if n < 8 {
            Err(ProtocolError::Invalid("short ping/pong"))
        } else if n > 1000 {
            Err(ProtocolError::Invalid("oversized ping/pong"))
        } else {
            Ok(FrameView::Pong(p.subrange(0, 8)))
        },
        Some(FrameType::Health) => Ok(FrameView::Health(p)),
        Some(FrameType::Restarting) => if n < 8 {
            Err(ProtocolError::Invalid("short restarting"))
        } else {
            Ok(
                FrameView::Restarting {
                    reconnect_in_ms: from_be32(p[0], p[1], p[2], p[3]) as u32,
                    try_for_ms: from_be32(p[4], p[5], p[6], p[7]) as u32,
                },
            )
        },
    }
}

fn require_len(payload: &[u8], len: usize, why: &'static str) -> (r: Result<(), ProtocolError>)
    ensures
        r == (if payload@.len() < len {
            Err::<(), ProtocolError>(ProtocolError::Invalid(why))
        } else {
            Ok(())
        }),
{
    if payload.len() < len {
        Err(ProtocolError::Invalid(why))
    } else {
        Ok(())
    }
}

fn require_exact(payload: &[u8], len: usize, why: &'static str) -> (r: Result<(), ProtocolError>)
    ensures
        r == (if payload@.len() != len {
            Err::<(), ProtocolError>(ProtocolError::Invalid(why))
        } else {
            Ok(())
        }),
{
    if payload.len() != len {
        Err(ProtocolError::Invalid(why))
    } else {
        Ok(())
    }
}

impl Frame {
    /// Reads a frame's payload by its type byte.
    pub fn decode(kind: u8, payload: Bytes) -> (r: Result<Frame, ProtocolError>)
        ensures
            match r {
                Ok(frame) => decode_spec(kind, bytes_view(payload)) == Ok::<
                    FrameView,
                    ProtocolError,
                >(frame@),
                Err(e) => decode_spec(kind, bytes_view(payload)) == Err::<FrameView, ProtocolError>(
                    e,
                ),
            },
    {
        let frame_type = match FrameType::from_u8(kind) {
            Some(t) => t,
            None => {
                return Ok(Frame::Unknown { kind, payload });
            },
        };
        let data = bytes_as_slice(&payload);
        match frame_type {
            FrameType::ServerKey => {
                if data.len() < MAGIC.len() + KEY_LEN || !has_prefix(data, MAGIC.as_slice()) {
                    return Err(ProtocolError::Invalid("bad server greeting"));
                }
                let key = NodeKey::from_slice(slice_subrange(data, 8, 40))?;
                Ok(Frame::ServerKey(key))
            },
            FrameType::ClientInfo => {
                require_len(data, KEY_LEN + NONCE_LEN, "short client info")?;
                let key = NodeKey::from_slice(slice_subrange(data, 0, KEY_LEN))?;
                Ok(Frame::ClientInfo { key, sealed: bytes_tail(&payload, KEY_LEN) })
            },
            FrameType::ServerInfo => {
                require_len(data, NONCE_LEN, "short server info")?;
                Ok(Frame::ServerInfo(payload))
            },
            FrameType::SendPacket => {
                require_len(data, KEY_LEN, "short send packet")?;
                let packet = bytes_tail(&payload, KEY_LEN);
                validate_packet(bytes_as_slice(&packet))?;
                let dst = NodeKey::from_slice(slice_subrange(data, 0, KEY_LEN))?;
                Ok(Frame::SendPacket { dst, packet })
            },
            FrameType::ForwardPacket => {
                require_len(data, KEY_LEN * 2, "short forward packet")?;
                let packet = bytes_tail(&payload, KEY_LEN * 2);
                validate_packet(bytes_as_slice(&packet))?;
                let src = NodeKey::from_slice(slice_subrange(data, 0, KEY_LEN))?;
                let dst = NodeKey::from_slice(slice_subrange(data, KEY_LEN, KEY_LEN * 2))?;
                Ok(Frame::ForwardPacket { src, dst, packet })
            },
            FrameType::RecvPacket => {
                require_len(data, KEY_LEN, "short recv packet")?;
                let packet = bytes_tail(&payload, KEY_LEN);
                validate_packet(bytes_as_slice(&packet))?;
                let src = NodeKey::from_slice(slice_subrange(data, 0, KEY_LEN))?;
                Ok(Frame::RecvPacket { src, packet })
            },
            FrameType::KeepAlive => {
                require_exact(data, 0, "keepalive")?;
                Ok(Frame::KeepAlive)
            },
            FrameType::NotePreferred => {
                require_exact(data, 1, "note preferred")?;
                Ok(Frame::NotePreferred(data[0] != 0))
            },
            FrameType::PeerGone => {
                require_len(data, KEY_LEN, "short peer gone")?;
                let peer = NodeKey::from_slice(slice_subrange(data, 0, KEY_LEN))?;
                let reason = if data.len() > KEY_LEN {
                    data[KEY_LEN]
                } else {
                    peer_gone_reason::DISCONNECTED
                };
                Ok(Frame::PeerGone { peer, reason })
            },
            FrameType::PeerPresent => {
                require_len(data, KEY_LEN, "short peer present")?;
                let peer = NodeKey::from_slice(slice_subrange(data, 0, KEY_LEN))?;
                let endpoint = if data.len() >= KEY_LEN + 18 {
                    let octets = array16(slice_subrange(data, KEY_LEN, KEY_LEN + 16));
                    let port = read_be16(data[KEY_LEN + 16], data[KEY_LEN + 17]);
                    Some(Endpoint { ip: IpAddress::V6(octets), port })
                } else {
                    None
                };
                let flags = if data.len() > KEY_LEN + 18 {
                    Some(data[KEY_LEN + 18])
                } else {
                    None
                };
                let extra = if data.len() > KEY_LEN + 19 {
                    bytes_tail(&payload, KEY_LEN + 19)
                } else {
                    bytes_empty()
                };
                Ok(Frame::PeerPresent { peer, endpoint, flags, extra })
            },
            FrameType::WatchConns => {
                require_exact(data, 0, "watch conns")?;
                Ok(Frame::WatchConns)
            },
            FrameType::ClosePeer => {
                require_exact(data, KEY_LEN, "close peer")?;
                let peer = NodeKey::from_slice(data)?;
                Ok(Frame::ClosePeer(peer))
            },
            FrameType::Ping | FrameType::Pong => {
                require_len(data, 8, "short ping/pong")?;
                if data.len() > 1000 {
                    return Err(ProtocolError::Invalid("oversized ping/pong"));
                }
                let value = array8(slice_subrange(data, 0, 8));
                if frame_type == FrameType::Ping {
                    Ok(Frame::Ping(value))
                } else {
                    Ok(Frame::Pong(value))
                }
            },
            FrameType::Health => Ok(Frame::Health(payload)),
            FrameType::Restarting => {
                require_len(data, 8, "short restarting")?;
                Ok(
                    Frame::Restarting {
                        reconnect_in_ms: read_be32(data[0], data[1], data[2], data[3]),
                        try_for_ms: read_be32(data[4], data[5], data[6], data[7]),
                    },
                )
            },
        }
    }
}

impl FrameView {
    /// What holds of the model of every frame: keys name nodes, addresses have four or sixteen
    /// octets, pings eight bytes.
    pub open spec fn valid(self) -> bool {
        match self {
            FrameView::ServerKey(key) => valid_key(key),
            FrameView::ClientInfo { key, .. } => valid_key(key),
            FrameView::SendPacket { dst, .. } => valid_key(dst),
            FrameView::ForwardPacket { src, dst, .. } => valid_key(src) && valid_key(dst),
            FrameView::RecvPacket { src, .. } => valid_key(src),
            FrameView::PeerGone { peer, .. } => valid_key(peer),
            FrameView::PeerPresent { peer, endpoint, .. } => valid_key(peer) && (endpoint matches Some(
                e,
            ) ==> e.octets.len() == 4 || e.octets.len() == 16),
            FrameView::ClosePeer(peer) => valid_key(peer),
            FrameView::Ping(value) => value.len() == 8,
            FrameView::Pong(value) => value.len() == 8,
            _ => true,
        }
    }

    /// Whether the payload says all that the frame does. It does not where a box is shorter than
    /// its nonce, where an IPv4 endpoint travels as IPv6, where flags or extra bytes are given
    /// without what comes before them, and where an undefined frame has a defined type byte.
    pub open spec fn faithful(self) -> bool {
        match self {
            FrameView::ClientInfo { sealed, .. } => sealed.len() >= NONCE_LEN,
            FrameView::ServerInfo(sealed) => sealed.len() >= NONCE_LEN,
            FrameView::PeerPresent { endpoint, flags, extra, .. } => match endpoint {
                Some(e) => e.octets.len() == 16 && (flags is Some || extra.len() == 0),
                None => flags is None && extra.len() == 0,
            },
            FrameView::Unknown { kind, .. } => frame_type(kind) is None,
            _ => true,
        }
    }
}

/// Decoding an encoded frame gives the frame back, for every frame within the size limits whose
/// payload says all that the frame does, and for no other.
pub proof fn law_decode_encode_round_trip(f: FrameView)
    requires
        f.valid(),
        f.oversize() is None,
    ensures
        f.faithful() <==> decode_spec(f.kind(), f.payload()) == Ok::<FrameView, ProtocolError>(f),
{
    let p = f.payload();
    let n = p.len() as int;
    match f {
        FrameView::ServerKey(key) => {
            law_frame_type_of_code(FrameType::ServerKey);
            assert(p.subrange(0, 8) =~= MAGIC@);
            assert(p.subrange(8, 40) =~= key);
        },
        FrameView::ClientInfo { key, sealed } => {
            law_frame_type_of_code(FrameType::ClientInfo);
            assert(p.subrange(0, 32) =~= key);
            assert(p.subrange(32, n) =~= sealed);
        },
        FrameView::ServerInfo(_) => {
            law_frame_type_of_code(FrameType::ServerInfo);
        },
        FrameView::SendPacket { dst, packet } => {
            law_frame_type_of_code(FrameType::SendPacket);
            assert(p.subrange(0, 32) =~= dst);
            assert(p.subrange(32, n) =~= packet);
        },
        FrameView::ForwardPacket { src, dst, packet } => {
            law_frame_type_of_code(FrameType::ForwardPacket);
            assert(p.subrange(0, 32) =~= src);
            assert(p.subrange(32, 64) =~= dst);
            assert(p.subrange(64, n) =~= packet);
        },
        FrameView::RecvPacket { src, packet } => {
            law_frame_type_of_code(FrameType::RecvPacket);
            assert(p.subrange(0, 32) =~= src);
            assert(p.subrange(32, n) =~= packet);
        },
        FrameView::KeepAlive => {
            law_frame_type_of_code(FrameType::KeepAlive);
        },
        FrameView::NotePreferred(_) => {
            law_frame_type_of_code(FrameType::NotePreferred);
        },
        FrameView::PeerGone { peer, reason } => {
            law_frame_type_of_code(FrameType::PeerGone);
            assert(p.subrange(0, 32) =~= peer);
            assert(p[32] == reason);
        },
        FrameView::PeerPresent { peer, endpoint, flags, extra } => {
            law_frame_type_of_code(FrameType::PeerPresent);
            assert(p.subrange(0, 32) =~= peer);
            if let Some(e) = endpoint {
                assert(mapped_octets(e.octets).len() == 16);
                assert(p.subrange(32, 48) =~= mapped_octets(e.octets));
                assert(p[48] == be16(e.port)[0]);
                assert(p[49] == be16(e.port)[1]);
                law_be16_round_trip(e.port);
                if let Some(flag) = flags {
                    assert(p[50] == flag);
                    if n > 51 {
                        assert(p.subrange(51, n) =~= extra);
                    } else {
                        assert(extra =~= Seq::empty());
                    }
                } else if extra.len() == 0 {
                    assert(extra =~= Seq::empty());
                }
            } else if extra.len() == 0 {
                assert(extra =~= Seq::empty());
            }
        },
        FrameView::WatchConns => {
            law_frame_type_of_code(FrameType::WatchConns);
        },
        FrameView::ClosePeer(_) => {
            law_frame_type_of_code(FrameType::ClosePeer);
        },
        FrameView::Ping(value) => {
            law_frame_type_of_code(FrameType::Ping);
            assert(p.subrange(0, 8) =~= value);
        },
        FrameView::Pong(value) => {
            law_frame_type_of_code(FrameType::Pong);
            assert(p.subrange(0, 8) =~= value);
        },
        FrameView::Health(_) => {
            law_frame_type_of_code(FrameType::Health);
        },
        FrameView::Restarting { reconnect_in_ms, try_for_ms } => {
            law_frame_type_of_code(FrameType::Restarting);
            assert(forall|i: int| 0 <= i < 4 ==> p[i] == be32(reconnect_in_ms)[i]);
            assert(forall|i: int| 0 <= i < 4 ==> p[i + 4] == #[trigger] be32(try_for_ms)[i]);
            law_be32_round_trip(reconnect_in_ms);
            law_be32_round_trip(try_for_ms);
        },
        FrameView::Unknown { kind, payload } => {
            if let Some(t) = frame_type(kind) {
                law_frame_type_of_code(t);
            }
        },
    }
}

/// What decoding gives is the model of a frame.
pub proof fn law_decoded_frames_are_valid(kind: u8, payload: Seq<u8>)
    ensures
        decode_spec(kind, payload) matches Ok(f) ==> f.valid(),
{
}

/// The frames of a byte stream, in order, each cut off by its own length field; `None` where
/// the stream ends within a frame or holds one that does not decode.
pub open spec fn read_stream(s: Seq<u8>) -> Option<Seq<FrameView>>
    decreases s.len(),
{
    if s.len() == 0 {
        Some(Seq::empty())
    } else if s.len() < FRAME_HEADER_LEN {
        None
    } else {
        let end = FRAME_HEADER_LEN + from_be32(s[1], s[2], s[3], s[4]);
        if s.len() < end {
            None
        } else {
            match (
                decode_spec(s[0], s.subrange(FRAME_HEADER_LEN as int, end)),
                read_stream(s.subrange(end, s.len() as int)),
            ) {
                (Ok(first), Some(rest)) => Some(seq![first] + rest),
                _ => None,
            }
        }
    }
}

/// The encodings of the frames, one after the other.
pub open spec fn encodings(frames: Seq<FrameView>) -> Seq<u8>
    decreases frames.len(),
{
    if frames.len() == 0 {
        Seq::empty()
    } else {
        frames[0].encoding() + encodings(frames.drop_first())
    }
}

/// Cutting one framed payload off the front of a stream.
proof fn lemma_stream_step(kind: u8, p: Seq<u8>, tail: Seq<u8>, f: FrameView, rest: Seq<FrameView>)
    requires
        p.len() <= u32::MAX,
        decode_spec(kind, p) == Ok::<FrameView, ProtocolError>(f),
        read_stream(tail) == Some(rest),
    ensures
        read_stream(seq![kind] + be32(p.len() as u32) + p + tail) == Some(seq![f] + rest),
{
    let s = seq![kind] + be32(p.len() as u32) + p + tail;
    let end = 5 + p.len() as int;
    law_be32_round_trip(p.len() as u32);
    assert(s[0] == kind);
    assert(s[1] == be32(p.len() as u32)[0]);
    assert(s[2] == be32(p.len() as u32)[1]);
    assert(s[3] == be32(p.len() as u32)[2]);
    assert(s[4] == be32(p.len() as u32)[3]);
    assert(s.subrange(5, end) =~= p);
    assert(s.subrange(end, s.len() as int) =~= tail);
}

/// A batch of encoded frames reads back as the same frames in the same order: the stream never
/// gets out of step.
pub proof fn law_batch_reads_back(frames: Seq<FrameView>)
    requires
        forall|i: int|
            0 <= i < frames.len() ==> (#[trigger] frames[i]).valid() && frames[i].oversize() is None
                && frames[i].faithful(),
    ensures
        read_stream(encodings(frames)) == Some(frames),
    decreases frames.len(),
{
    if frames.len() == 0 {
        assert(frames =~= Seq::empty());
    } else {
        let rest = frames.drop_first();
        assert forall|i: int| 0 <= i < rest.len() implies (#[trigger] rest[i]).valid()
            && rest[i].oversize() is None && rest[i].faithful() by {
            assert(rest[i] == frames[i + 1]);
        }
        law_batch_reads_back(rest);
        law_decode_encode_round_trip(frames[0]);
        lemma_stream_step(
            frames[0].kind(),
            frames[0].payload(),
            encodings(rest),
            frames[0],
            rest,
        );
        assert(seq![frames[0]] + rest =~= frames);
    }
}

/// The encodings of a batch with one frame more.
pub proof fn lemma_encodings_push(frames: Seq<FrameView>, last: FrameView)
    ensures
        encodings(frames.push(last)) == encodings(frames) + last.encoding(),
    decreases frames.len(),
{
    let all = frames.push(last);
    if frames.len() == 0 {
        assert(all.drop_first() =~= Seq::empty());
        assert(encodings(all.drop_first()) =~= Seq::empty());
        assert(encodings(all) =~= encodings(frames) + last.encoding());
    } else {
        assert(all.drop_first() =~= frames.drop_first().push(last));
        lemma_encodings_push(frames.drop_first(), last);
        assert(encodings(all) =~= encodings(frames) + last.encoding());
    }
}

/// Reads a frame's header: its type byte and the length of the payload that follows, which may
/// not exceed `max`.
pub fn read_header(header: &[u8; FRAME_HEADER_LEN], max: usize) -> (r: Result<
    (u8, usize),
    ProtocolError,
>)
    ensures
        ({
            let len = from_be32(header@[1], header@[2], header@[3], header@[4]);
            match r {
                Ok(h) => len <= max && h.0 == header@[0] && h.1 == len,
                Err(e) => len > max && e == ProtocolError::FrameTooLarge(len as usize),
            }
        }),
{
    let len: u32 = read_be32(header[1], header[2], header[3], header[4]);
    if len as usize > max {
        return Err(ProtocolError::FrameTooLarge(len as usize));
    }
    Ok((header[0], len as usize))
}

/// What a client says of itself in the handshake.
#[derive(Clone, Copy, Debug, PartialEq, Eq)]
pub struct ClientInfo {
    /// The key that mesh members share, from a client that is one.
    pub mesh_key: Option<[u8; 32]>,
    pub version: u32,
    /// Whether the client answers pings.
    pub can_ack_pings: bool,
    /// Whether the client only probes.
    pub is_prober: bool,
}

impl Default for ClientInfo {
    /// A client that says nothing of itself.
    fn default() -> (r: ClientInfo)
        ensures
            r == (ClientInfo { mesh_key: None, version: 0, can_ack_pings: false, is_prober: false }),
    {
        ClientInfo { mesh_key: None, version: 0, can_ack_pings: false, is_prober: false }
    }
}

/// What the server says of itself in the handshake.
#[derive(Clone, Copy, Debug, PartialEq, Eq)]
pub struct ServerInfo {
    pub version: u32,
    /// The bytes per second that the client may send, where there is a limit.
    pub token_bucket_bytes_per_second: Option<u64>,
    /// The bytes that the client may send at once, where there is a limit.
    pub token_bucket_bytes_burst: Option<u64>,
}

impl ServerInfo {
    /// What a server with this rate limit says; a rate of zero is no limit.
    pub fn with_limit(rate_limit: u64, rate_burst: u64) -> (r: ServerInfo)
        ensures
            r == (ServerInfo {
                version: PROTOCOL_VERSION,
                token_bucket_bytes_per_second: if rate_limit > 0 {
                    Some(rate_limit)
                } else {
                    None
                },
                token_bucket_bytes_burst: if rate_limit > 0 {
                    Some(rate_burst)
                } else {
                    None
                },
            }),
    {
        if rate_limit > 0 {
            ServerInfo {
                version: PROTOCOL_VERSION,
                token_bucket_bytes_per_second: Some(rate_limit),
                token_bucket_bytes_burst: Some(rate_burst),
            }
        } else {
            ServerInfo {
                version: PROTOCOL_VERSION,
                token_bucket_bytes_per_second: None,
                token_bucket_bytes_burst: None,
            }
        }
    }
}

} // verus!
