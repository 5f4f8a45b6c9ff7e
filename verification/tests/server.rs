use bytes::{Bytes, BytesMut};
use derp_rs::endpoint::{Endpoint, IpAddress};
use derp_rs::limiter::{Pause, TokenBucket};
use derp_rs::protocol::{ClientInfo, Frame, ProtocolError, MAX_CLIENT_INFO_SIZE, MAX_PACKET_SIZE};
use derp_rs::relay::RegisteredSession;
use derp_rs::server::{
    charge, check_admission, fill_batch, fill_control, frame_cost, greeting, handle_frame, identify,
    is_disconnect, join, keepalive_frame, keepalive_with, on_tick, welcome, AdmissionReply, Cause,
    HandshakeError, ReaderError, Refusal, Tick, WriterAction, HANDSHAKE_LIMIT, READER_LIMIT,
};
use derp_rs::{NodeKey, NodeKeyPair, Relay};

const SECOND: u64 = 1_000_000_000;

fn key(n: u8) -> NodeKey {
    NodeKey::new([n; 32]).unwrap()
}

fn ep(n: u16) -> Endpoint {
    Endpoint { ip: IpAddress::V4([127, 0, 0, 1]), port: n }
}

fn client(relay: &mut Relay, n: u8, mesh: bool) -> RegisteredSession {
    relay.register(key(n), ep(n as u16), mesh, true, false, false, 0)
}

fn drain(session: &mut RegisteredSession) -> Vec<Frame> {
    let mut frames = Vec::new();
    while let Ok(frame) = session.rx.try_recv() {
        frames.push(frame);
    }
    frames
}

#[test]
fn handshake() {
    let server = NodeKeyPair::generate();
    let client = NodeKeyPair::generate();
    assert_eq!(greeting(&server), Frame::ServerKey(server.public()));
    let sealed = Bytes::from(client.seal_to(server.public(), b"{}").unwrap());
    let first = Frame::ClientInfo { key: client.public(), sealed };
    let known = identify(&server, first).unwrap();
    assert_eq!(known.client, client.public());
    assert_eq!(known.info_text, b"{}");
    match welcome(&server, known.client, b"{\"version\":2}").unwrap() {
        Frame::ServerInfo(sealed) => {
            assert_eq!(
                client.open_from(server.public(), &sealed).unwrap(),
                b"{\"version\":2}"
            )
        }
        other => panic!("{other:?}"),
    }
}

#[test]
fn handshake_failures() {
    let server = NodeKeyPair::generate();
    let client = NodeKeyPair::generate();
    let other = NodeKeyPair::generate();
    assert_eq!(identify(&server, Frame::KeepAlive).err(), Some(HandshakeError::NotClientInfo));
    let sealed = Bytes::from(client.seal_to(server.public(), b"{}").unwrap());
    let stolen = Frame::ClientInfo { key: other.public(), sealed };
    assert_eq!(identify(&server, stolen).err(), Some(HandshakeError::InvalidProof));
    let text = vec![b' '; MAX_CLIENT_INFO_SIZE + 1];
    let sealed = Bytes::from(client.seal_to(server.public(), &text).unwrap());
    let large = Frame::ClientInfo { key: client.public(), sealed };
    assert_eq!(identify(&server, large).err(), Some(HandshakeError::InfoTooLarge));
    let sealed = Bytes::from(client.seal_to(server.public(), &text[1..]).unwrap());
    let fits = Frame::ClientInfo { key: client.public(), sealed };
    assert!(identify(&server, fits).is_ok());
}

#[test]
fn limits_leave_room() {
    let sealed = Bytes::from(vec![0; 24 + 16 + MAX_CLIENT_INFO_SIZE]);
    let info = Frame::ClientInfo { key: key(1), sealed };
    assert!(info.encode().unwrap().len() - 5 <= HANDSHAKE_LIMIT);
    let packet = Bytes::from(vec![0; MAX_PACKET_SIZE]);
    let forward = Frame::ForwardPacket { src: key(1), dst: key(2), packet };
    assert!(forward.encode().unwrap().len() - 5 <= READER_LIMIT);
}

#[test]
fn admission() {
    let yes = AdmissionReply::Answered { status: 200, allow: Some(true) };
    let no = AdmissionReply::Answered { status: 200, allow: Some(false) };
    assert_eq!(check_admission(false, AdmissionReply::NotAsked, false), Ok(()));
    assert_eq!(check_admission(false, AdmissionReply::Unreachable, true), Ok(()));
    assert_eq!(
        check_admission(false, AdmissionReply::Unreachable, false),
        Err(Refusal::ControllerUnreachable)
    );
    let failed = AdmissionReply::Answered { status: 503, allow: Some(true) };
    assert_eq!(check_admission(false, failed, true), Err(Refusal::ControllerStatus(503)));
    let garbled = AdmissionReply::Answered { status: 299, allow: None };
    assert_eq!(check_admission(false, garbled, true), Err(Refusal::ControllerAnswer));
    assert_eq!(check_admission(false, yes, false), Ok(()));
    assert_eq!(check_admission(false, no, true), Err(Refusal::Rejected));
    assert_eq!(check_admission(true, no, false), Ok(()));
}

#[test]
fn joining() {
    let mut relay = Relay::new(8, Some([5; 32]));
    let no = AdmissionReply::Answered { status: 200, allow: Some(false) };
    let info = ClientInfo { can_ack_pings: true, ..ClientInfo::default() };
    let refused = join(&mut relay, key(1), info, no, true, ep(1), false, 0);
    assert_eq!(refused.err(), Some(Refusal::Rejected));
    assert_eq!(relay.metrics.admission_rejected, 1);
    let down = join(&mut relay, key(1), info, AdmissionReply::Unreachable, false, ep(1), false, 0);
    assert_eq!(down.err(), Some(Refusal::ControllerUnreachable));
    assert_eq!((relay.metrics.admission_rejected, relay.client_count()), (1, 0));
    let member = ClientInfo { mesh_key: Some([5; 32]), ..info };
    let joined = join(&mut relay, key(1), member, no, false, ep(1), true, 0).unwrap();
    let session = relay.session(joined.handle).unwrap();
    assert!(session.can_mesh && session.can_ack_pings && session.not_ideal && !session.is_prober);
    assert_eq!((session.key, session.endpoint), (key(1), ep(1)));
    let wrong = ClientInfo { mesh_key: Some([6; 32]), ..info };
    let joined = join(&mut relay, key(2), wrong, AdmissionReply::NotAsked, false, ep(2), false, 0)
        .unwrap();
    assert!(!relay.session(joined.handle).unwrap().can_mesh);
}

#[test]
fn costs() {
    let packet = Bytes::from(vec![0; 100]);
    assert_eq!(frame_cost(&Frame::KeepAlive), 64);
    assert_eq!(frame_cost(&Frame::SendPacket { dst: key(1), packet: packet.clone() }), 164);
    assert_eq!(frame_cost(&Frame::RecvPacket { src: key(1), packet }), 64);
}

#[test]
fn members_are_not_charged() {
    let mut relay = Relay::new(8, None);
    let a = client(&mut relay, 1, false);
    let w = client(&mut relay, 2, true);
    let mut bucket = TokenBucket::new(64, 64, 0);
    assert_eq!(charge(&relay, w.handle, &mut bucket, &Frame::KeepAlive, 0), None);
    assert_eq!(charge(&relay, w.handle, &mut bucket, &Frame::KeepAlive, 0), None);
    assert_eq!(charge(&relay, a.handle, &mut bucket, &Frame::KeepAlive, 0), None);
    assert_eq!(
        charge(&relay, a.handle, &mut bucket, &Frame::KeepAlive, 0),
        Some(Pause { secs: 1, nanos: 0 })
    );
}

#[test]
fn client_frames() {
    let mut relay = Relay::new(8, None);
    let mut a = client(&mut relay, 1, false);
    let mut b = client(&mut relay, 2, false);
    let packet = Bytes::from_static(b"hi");
    let send = Frame::SendPacket { dst: key(2), packet: packet.clone() };
    assert_eq!(handle_frame(&mut relay, a.handle, send, 0), Ok(()));
    assert_eq!(drain(&mut b), vec![Frame::RecvPacket { src: key(1), packet }]);
    assert_eq!(handle_frame(&mut relay, a.handle, Frame::Ping(*b"12345678"), 0), Ok(()));
    assert_eq!(drain(&mut a), vec![Frame::Pong(*b"12345678")]);
    assert_eq!(handle_frame(&mut relay, a.handle, Frame::NotePreferred(true), 0), Ok(()));
    assert_eq!(relay.metrics.preferred_clients, 1);
    assert_eq!(handle_frame(&mut relay, a.handle, Frame::Pong([0; 8]), 0), Ok(()));
    assert_eq!(handle_frame(&mut relay, a.handle, Frame::KeepAlive, 0), Ok(()));
    let later = Frame::Unknown { kind: 0x77, payload: Bytes::new() };
    assert_eq!(handle_frame(&mut relay, a.handle, later, 0), Ok(()));
    assert_eq!(relay.metrics.unknown_frames, 1);
    assert_eq!(
        handle_frame(&mut relay, a.handle, Frame::Health(Bytes::new()), 0),
        Err(ReaderError::UnexpectedFrame)
    );
    assert_eq!(drain(&mut a), vec![]);
}

#[test]
fn mesh_frames_need_membership() {
    let mut relay = Relay::new(8, None);
    let a = client(&mut relay, 1, false);
    let mut b = client(&mut relay, 2, false);
    let mut w = client(&mut relay, 3, true);
    let forward = || Frame::ForwardPacket {
        src: key(9),
        dst: key(2),
        packet: Bytes::from_static(b"x"),
    };
    for frame in [forward(), Frame::WatchConns, Frame::ClosePeer(key(2))] {
        assert_eq!(
            handle_frame(&mut relay, a.handle, frame, 0),
            Err(ReaderError::InsufficientMeshPermissions)
        );
    }
    assert_eq!(drain(&mut b), vec![]);
    assert_eq!(handle_frame(&mut relay, w.handle, forward(), 0), Ok(()));
    assert_eq!(drain(&mut b).len(), 1);
    assert_eq!(relay.metrics.mesh_forwarded_in, 1);
    assert_eq!(handle_frame(&mut relay, w.handle, Frame::WatchConns, 0), Ok(()));
    assert_eq!(drain(&mut w).len(), 3);
    assert_eq!(handle_frame(&mut relay, w.handle, Frame::ClosePeer(key(2)), 0), Ok(()));
    assert!(relay.session(b.handle).unwrap().is_closed());
    assert_eq!(handle_frame(&mut relay, w.handle, Frame::ClosePeer(key(8)), 0), Ok(()));
}

#[test]
fn any_frame_is_activity() {
    let mut relay = Relay::new(8, None);
    let mut a = client(&mut relay, 1, false);
    let b = client(&mut relay, 1, false);
    let s = client(&mut relay, 2, false);
    drain(&mut a);
    handle_frame(&mut relay, a.handle, Frame::KeepAlive, 0).unwrap();
    relay.route(s.handle, key(2), key(1), Bytes::from_static(b"x"), false, 0);
    assert_eq!(drain(&mut a).len(), 1);
    handle_frame(&mut relay, b.handle, Frame::WatchConns, 0).unwrap_err();
    relay.route(s.handle, key(2), key(1), Bytes::from_static(b"x"), false, 0);
    assert_eq!(drain(&mut a).len(), 0);
}

#[test]
fn batches() {
    let (tx, mut rx) = tokio::sync::mpsc::channel(128);
    let mut batch = BytesMut::from(&b"left over"[..]);
    tx.try_send(Frame::Ping([1; 8])).unwrap();
    fill_batch(&mut batch, Frame::KeepAlive, &mut rx).unwrap();
    assert_eq!(
        &batch[..],
        &[6, 0, 0, 0, 0, 0x12, 0, 0, 0, 8, 1, 1, 1, 1, 1, 1, 1, 1]
    );
    for _ in 0..70 {
        tx.try_send(Frame::KeepAlive).unwrap();
    }
    fill_batch(&mut batch, Frame::KeepAlive, &mut rx).unwrap();
    assert_eq!(batch.len(), 64 * 5);
    assert_eq!(rx.len(), 7);
}

#[test]
fn batches_are_bounded() {
    let (tx, mut rx) = tokio::sync::mpsc::channel(128);
    let mut batch = BytesMut::new();
    let half = || Frame::RecvPacket { src: key(1), packet: Bytes::from(vec![0; 40000]) };
    tx.try_send(half()).unwrap();
    tx.try_send(half()).unwrap();
    fill_batch(&mut batch, half(), &mut rx).unwrap();
    assert_eq!(batch.len(), 2 * (5 + 32 + 40000));
    assert_eq!(rx.len(), 1);
    let large = || Frame::RecvPacket {
        src: key(1),
        packet: Bytes::from(vec![0; MAX_PACKET_SIZE + 1]),
    };
    tx.try_send(large()).unwrap();
    let fault = Err(ProtocolError::PacketTooLarge(MAX_PACKET_SIZE + 1));
    assert_eq!(fill_batch(&mut batch, Frame::KeepAlive, &mut rx), fault);
    assert_eq!(batch.len(), 5 + 5 + 32 + 40000);
    assert_eq!(fill_batch(&mut batch, large(), &mut rx), fault);
    assert_eq!(batch.len(), 0);
}

#[test]
fn control_frames() {
    let mut batch = BytesMut::from(&b"left over"[..]);
    assert_eq!(fill_control(&mut batch, &Frame::KeepAlive), Ok(()));
    assert_eq!(&batch[..], &[6, 0, 0, 0, 0]);
    let packet = Bytes::from(vec![0; MAX_PACKET_SIZE + 1]);
    assert!(fill_control(&mut batch, &Frame::RecvPacket { src: key(1), packet }).is_err());
    assert!(batch.is_empty());
}

#[test]
fn keepalives() {
    assert_eq!(keepalive_with(false, 1), Frame::KeepAlive);
    assert_eq!(
        keepalive_with(true, 0x0102030405060708),
        Frame::Ping([1, 2, 3, 4, 5, 6, 7, 8])
    );
    assert_eq!(keepalive_frame(false), Frame::KeepAlive);
    let pings: Vec<Frame> = (0..4).map(|_| keepalive_frame(true)).collect();
    assert!(pings.iter().all(|p| matches!(p, Frame::Ping(_))));
    assert!(pings.iter().any(|p| *p != pings[0]));
}

#[test]
fn writer_ticks() {
    let mut relay = Relay::new(8, None);
    let a = client(&mut relay, 1, false);
    let w = client(&mut relay, 2, true);
    let quiet = relay.register(key(3), ep(3), false, false, false, false, 0);
    assert!(matches!(
        on_tick(&relay, a.handle, Tick::KeepAlive),
        WriterAction::Write(Frame::Ping(_))
    ));
    assert_eq!(
        on_tick(&relay, quiet.handle, Tick::KeepAlive),
        WriterAction::Write(Frame::KeepAlive)
    );
    assert_eq!(on_tick(&relay, a.handle, Tick::CloseCheck), WriterAction::Wait);
    relay.close_peer(w.handle, key(1));
    assert_eq!(on_tick(&relay, a.handle, Tick::CloseCheck), WriterAction::Stop);
    assert_eq!(on_tick(&relay, 99, Tick::KeepAlive), WriterAction::Stop);
    assert_eq!(on_tick(&relay, 99, Tick::CloseCheck), WriterAction::Stop);
    let check = |capacity, idle| on_tick(&relay, a.handle, Tick::ShrinkCheck { capacity, idle });
    assert_eq!(check(8193, 15 * SECOND), WriterAction::ReleaseBuffer);
    assert_eq!(check(8192, 15 * SECOND), WriterAction::Wait);
    assert_eq!(check(8193, 15 * SECOND - 1), WriterAction::Wait);
}

#[test]
fn disconnects() {
    assert!(!is_disconnect(&[]));
    assert!(!is_disconnect(&[Cause::Other]));
    assert!(is_disconnect(&[Cause::Other, Cause::BrokenPipe]));
    assert!(is_disconnect(&[Cause::UnexpectedEof]));
    assert!(is_disconnect(&[Cause::ConnectionReset, Cause::Other]));
}
