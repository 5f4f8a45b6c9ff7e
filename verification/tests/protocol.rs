use bytes::{Bytes, BytesMut};
use derp_rs::endpoint::{Endpoint, IpAddress};
use derp_rs::protocol::{
    peer_gone_reason, peer_present_flags, read_header, ClientInfo, Frame, FrameType, ProtocolError,
    ServerInfo, FRAME_HEADER_LEN, MAGIC, MAX_PACKET_SIZE, PROTOCOL_VERSION,
};
use derp_rs::NodeKey;

fn key(n: u8) -> NodeKey {
    NodeKey::new([n; 32]).unwrap()
}

#[test]
fn all_frames_round_trip() {
    let key = NodeKey::new([7; 32]).unwrap();
    let cases = [
        Frame::ServerKey(key),
        Frame::Ping(*b"12345678"),
        Frame::Pong(*b"abcdefgh"),
        Frame::KeepAlive,
        Frame::NotePreferred(true),
        Frame::PeerGone { peer: key, reason: 1 },
        Frame::Restarting { reconnect_in_ms: 10, try_for_ms: 20 },
    ];
    for frame in cases {
        let raw = frame.encode().unwrap();
        let got = Frame::decode(raw[0], raw.slice(5..)).unwrap();
        assert_eq!(frame, got);
    }
}

#[test]
fn official_greeting_vector() {
    let key = NodeKey::new([1; 32]).unwrap();
    let raw = Frame::ServerKey(key).encode().unwrap();
    assert_eq!(&raw[..5], &[1, 0, 0, 0, 40]);
    assert_eq!(&raw[5..13], &MAGIC);
}

#[test]
fn encodes_multiple_frames_into_one_batch() {
    let frames = [
        Frame::Ping(*b"12345678"),
        Frame::Health(Bytes::from_static(b"healthy")),
        Frame::KeepAlive,
    ];
    let mut batch = BytesMut::new();
    for frame in &frames {
        frame.encode_into(&mut batch).unwrap();
    }
    let mut batch = batch.freeze();
    for frame in frames {
        let kind = batch[0];
        let len = u32::from_be_bytes(batch[1..5].try_into().unwrap()) as usize;
        let encoded = batch.split_to(FRAME_HEADER_LEN + len);
        assert_eq!(
            Frame::decode(kind, encoded.slice(FRAME_HEADER_LEN..)).unwrap(),
            frame
        );
    }
    assert!(batch.is_empty());
}

#[test]
fn remaining_frames_round_trip() {
    let v6 = Endpoint { ip: IpAddress::V6([9; 16]), port: 0x1234 };
    let cases = [
        Frame::ClientInfo { key: key(1), sealed: Bytes::from(vec![5; 24]) },
        Frame::ServerInfo(Bytes::from(vec![6; 30])),
        Frame::SendPacket { dst: key(2), packet: Bytes::from_static(b"abc") },
        Frame::ForwardPacket { src: key(3), dst: key(4), packet: Bytes::from_static(b"abc") },
        Frame::RecvPacket { src: key(5), packet: Bytes::new() },
        Frame::NotePreferred(false),
        Frame::PeerPresent { peer: key(6), endpoint: None, flags: None, extra: Bytes::new() },
        Frame::PeerPresent { peer: key(6), endpoint: Some(v6), flags: None, extra: Bytes::new() },
        Frame::PeerPresent {
            peer: key(6),
            endpoint: Some(v6),
            flags: Some(9),
            extra: Bytes::from_static(b"xy"),
        },
        Frame::WatchConns,
        Frame::ClosePeer(key(7)),
        Frame::Health(Bytes::new()),
        Frame::Unknown { kind: 0x7f, payload: Bytes::from_static(b"later") },
    ];
    for frame in cases {
        let raw = frame.encode().unwrap();
        assert_eq!(raw[0], frame.kind());
        assert_eq!(Frame::decode(raw[0], raw.slice(5..)).unwrap(), frame);
    }
}

#[test]
fn ipv4_endpoints_travel_mapped() {
    let frame = Frame::PeerPresent {
        peer: key(6),
        endpoint: Some(Endpoint { ip: IpAddress::V4([192, 0, 2, 1]), port: 1 }),
        flags: Some(peer_present_flags::REGULAR),
        extra: Bytes::new(),
    };
    let raw = frame.encode().unwrap();
    assert_eq!(
        &raw[37..53],
        &[0, 0, 0, 0, 0, 0, 0, 0, 0, 0, 0xff, 0xff, 192, 0, 2, 1]
    );
    assert_eq!(&raw[53..56], &[0, 1, 1]);
    let back = Frame::decode(raw[0], raw.slice(5..)).unwrap();
    let mapped = [0, 0, 0, 0, 0, 0, 0, 0, 0, 0, 0xff, 0xff, 192, 0, 2, 1];
    assert_eq!(
        back,
        Frame::PeerPresent {
            peer: key(6),
            endpoint: Some(Endpoint { ip: IpAddress::V6(mapped), port: 1 }),
            flags: Some(1),
            extra: Bytes::new(),
        }
    );
}

#[test]
fn exact_encodings() {
    assert_eq!(
        &Frame::Restarting { reconnect_in_ms: 0x01020304, try_for_ms: 5 }.encode().unwrap()[..],
        &[0x15, 0, 0, 0, 8, 1, 2, 3, 4, 0, 0, 0, 5]
    );
    assert_eq!(&Frame::KeepAlive.encode().unwrap()[..], &[6, 0, 0, 0, 0]);
    assert_eq!(&Frame::NotePreferred(true).encode().unwrap()[..], &[7, 0, 0, 0, 1, 1]);
}

#[test]
fn type_bytes() {
    for code in 0u8..=255 {
        match FrameType::from_u8(code) {
            Some(t) => assert_eq!(t.code(), code),
            None => assert!(!(1..=10).contains(&code) && !(0x10..=0x15).contains(&code)),
        }
    }
    assert_eq!(FrameType::from_u8(0x0a), Some(FrameType::ForwardPacket));
}

#[test]
fn large_packets_are_refused_and_leave_the_batch_alone() {
    let mut batch = BytesMut::new();
    Frame::KeepAlive.encode_into(&mut batch).unwrap();
    let packet = Bytes::from(vec![0; MAX_PACKET_SIZE + 1]);
    let frame = Frame::SendPacket { dst: key(1), packet };
    assert_eq!(
        frame.encode_into(&mut batch),
        Err(ProtocolError::PacketTooLarge(MAX_PACKET_SIZE + 1))
    );
    assert_eq!(&batch[..], &[6, 0, 0, 0, 0]);
    let fits = Frame::SendPacket { dst: key(1), packet: Bytes::from(vec![0; MAX_PACKET_SIZE]) };
    assert_eq!(fits.encode().unwrap().len(), 5 + 32 + MAX_PACKET_SIZE);
}

#[test]
fn malformed_payloads_are_refused() {
    let bad = |kind: u8, payload: Vec<u8>| Frame::decode(kind, Bytes::from(payload)).unwrap_err();
    assert_eq!(bad(1, vec![0; 40]), ProtocolError::Invalid("bad server greeting"));
    assert_eq!(bad(2, vec![1; 55]), ProtocolError::Invalid("short client info"));
    assert_eq!(bad(3, vec![1; 23]), ProtocolError::Invalid("short server info"));
    assert_eq!(bad(4, vec![1; 31]), ProtocolError::Invalid("short send packet"));
    assert_eq!(bad(4, vec![0; 32]), ProtocolError::InvalidKey);
    assert_eq!(
        bad(5, vec![1; 32 + MAX_PACKET_SIZE + 1]),
        ProtocolError::PacketTooLarge(MAX_PACKET_SIZE + 1)
    );
    assert_eq!(bad(6, vec![1]), ProtocolError::Invalid("keepalive"));
    assert_eq!(bad(7, vec![]), ProtocolError::Invalid("note preferred"));
    assert_eq!(bad(8, vec![1; 31]), ProtocolError::Invalid("short peer gone"));
    assert_eq!(bad(0x0a, vec![1; 63]), ProtocolError::Invalid("short forward packet"));
    assert_eq!(bad(0x10, vec![1]), ProtocolError::Invalid("watch conns"));
    assert_eq!(bad(0x11, vec![1; 33]), ProtocolError::Invalid("close peer"));
    assert_eq!(bad(0x12, vec![1; 7]), ProtocolError::Invalid("short ping/pong"));
    assert_eq!(bad(0x13, vec![1; 1001]), ProtocolError::Invalid("oversized ping/pong"));
    assert_eq!(bad(0x15, vec![1; 7]), ProtocolError::Invalid("short restarting"));
}

#[test]
fn short_forms_are_read() {
    let gone = Frame::decode(8, Bytes::from(vec![1; 32])).unwrap();
    assert_eq!(gone, Frame::PeerGone { peer: key(1), reason: peer_gone_reason::DISCONNECTED });
    let ping = Frame::decode(0x12, Bytes::from(vec![3; 1000])).unwrap();
    assert_eq!(ping, Frame::Ping([3; 8]));
    assert_eq!(
        Frame::decode(7, Bytes::from(vec![9])).unwrap(),
        Frame::NotePreferred(true)
    );
}

#[test]
fn headers() {
    assert_eq!(read_header(&[4, 0, 0, 1, 2], 258), Ok((4, 258)));
    assert_eq!(
        read_header(&[4, 0, 0, 1, 2], 257),
        Err(ProtocolError::FrameTooLarge(258))
    );
}

#[test]
fn infos() {
    assert_eq!(
        ClientInfo::default(),
        ClientInfo { mesh_key: None, version: 0, can_ack_pings: false, is_prober: false }
    );
    assert_eq!(
        ServerInfo::with_limit(0, 7),
        ServerInfo {
            version: PROTOCOL_VERSION,
            token_bucket_bytes_per_second: None,
            token_bucket_bytes_burst: None,
        }
    );
    let limited = ServerInfo::with_limit(5, 7);
    assert_eq!(limited.token_bucket_bytes_per_second, Some(5));
    assert_eq!(limited.token_bucket_bytes_burst, Some(7));
}
