use bytes::Bytes;
use derp_rs::endpoint::{Endpoint, IpAddress};
use derp_rs::mesh::link::{Link, LinkAction, LinkEvent, LinkFault, LinkStage};
use derp_rs::mesh::MeshError;
use derp_rs::protocol::{ClientInfo, Frame};
use derp_rs::server::conversation::{Action, Conversation, Event, Fault, Stage};
use derp_rs::server::{AdmissionReply, HandshakeError, Refusal};
use derp_rs::{NodeKey, NodeKeyPair, Relay};

fn ep() -> Endpoint {
    Endpoint { ip: IpAddress::V4([127, 0, 0, 1]), port: 1 }
}

fn first_frame(server: &NodeKeyPair, client: &NodeKeyPair) -> Frame {
    let sealed = Bytes::from(client.seal_to(server.public(), b"{}").unwrap());
    Frame::ClientInfo { key: client.public(), sealed }
}

/// A conversation with a client that has proved its key and said who it is.
fn applying(relay: &mut Relay, server: &NodeKeyPair, info: ClientInfo) -> (Conversation, NodeKey) {
    let client = NodeKeyPair::generate();
    let mut talk = Conversation::new(ep(), false, false);
    match talk.turn(relay, server, Event::Accepted, 0) {
        Action::Write(frame) => assert_eq!(frame, Frame::ServerKey(server.public())),
        _ => panic!("no greeting"),
    }
    assert!(matches!(talk.turn(relay, server, Event::Written, 0), Action::ReadFirstFrame));
    let first = Event::FirstFrame(first_frame(server, &client));
    match talk.turn(relay, server, first, 0) {
        Action::ReadInfo(text) => assert_eq!(text, b"{}"),
        _ => panic!("not identified"),
    }
    match talk.turn(relay, server, Event::Info(info), 0) {
        Action::AskAdmission(key) => assert_eq!(key, client.public()),
        Action::AskNobody => assert!(relay.is_mesh_key(info.mesh_key)),
        _ => panic!("not applying"),
    }
    (talk, client.public())
}

#[test]
fn a_client_joins_and_leaves() {
    let server = NodeKeyPair::generate();
    let mut relay = Relay::new(8, None);
    let (mut talk, key) = applying(&mut relay, &server, ClientInfo::default());
    assert_eq!(relay.client_count(), 0);
    let reply = Event::Reply(AdmissionReply::NotAsked);
    let joined = talk.turn(&mut relay, &server, reply, 0);
    assert!(matches!(joined, Action::PutInfoTogether(_)));
    assert_eq!((relay.client_count(), relay.session_key(1)), (1, Some(key)));
    match talk.turn(&mut relay, &server, Event::OwnInfo(b"{}".to_vec()), 0) {
        Action::Write(Frame::ServerInfo(sealed)) => assert_eq!(sealed.len(), 24 + 16 + 2),
        _ => panic!("no welcome"),
    }
    let served = talk.turn(&mut relay, &server, Event::Written, 0);
    assert!(matches!(served, Action::Serve(1)));
    assert!(matches!(talk.turn(&mut relay, &server, Event::Over, 0), Action::Close));
    assert!(matches!(talk.stage, Stage::Ended));
    assert_eq!((relay.client_count(), relay.metrics.current_clients), (0, 0));
    assert!(relay.session(1).is_none());
    assert!(matches!(talk.turn(&mut relay, &server, Event::Over, 0), Action::Close));
    assert_eq!(relay.metrics.current_clients, 0);
}

#[test]
fn refused_clients_do_not_join() {
    let server = NodeKeyPair::generate();
    let mut relay = Relay::new(usize::MAX, None);
    let (mut talk, _) = applying(&mut relay, &server, ClientInfo::default());
    let reply = AdmissionReply::Answered { status: 200, allow: Some(false) };
    match talk.turn(&mut relay, &server, Event::Reply(reply), 0) {
        Action::Fail(fault) => assert_eq!(fault, Fault::Refused(Refusal::Rejected)),
        _ => panic!("joined"),
    }
    assert_eq!((relay.client_count(), relay.metrics.admission_rejected), (0, 1));
    let (mut talk, _) = applying(&mut relay, &server, ClientInfo::default());
    match talk.turn(&mut relay, &server, Event::Reply(AdmissionReply::NotAsked), 0) {
        Action::Fail(fault) => assert_eq!(fault, Fault::NoRoom),
        _ => panic!("joined"),
    }
}

#[test]
fn members_are_not_asked_about() {
    let server = NodeKeyPair::generate();
    let mut relay = Relay::new(8, Some([7; 32]));
    let info = ClientInfo { mesh_key: Some([7; 32]), ..ClientInfo::default() };
    let (mut talk, _) = applying(&mut relay, &server, info);
    let reply = Event::Reply(AdmissionReply::Unreachable);
    let joined = talk.turn(&mut relay, &server, reply, 0);
    assert!(matches!(joined, Action::PutInfoTogether(_)));
    assert!(relay.is_mesh_member(1));
}

#[test]
fn clients_that_speak_out_of_turn_leave() {
    let server = NodeKeyPair::generate();
    let mut relay = Relay::new(8, None);
    let (mut talk, _) = applying(&mut relay, &server, ClientInfo::default());
    talk.turn(&mut relay, &server, Event::Reply(AdmissionReply::NotAsked), 0);
    assert_eq!(relay.client_count(), 1);
    match talk.turn(&mut relay, &server, Event::Written, 0) {
        Action::Fail(fault) => assert_eq!(fault, Fault::OutOfTurn),
        _ => panic!("served without a welcome"),
    }
    assert_eq!((relay.client_count(), relay.metrics.current_clients), (0, 0));
    let mut talk = Conversation::new(ep(), false, false);
    talk.turn(&mut relay, &server, Event::Accepted, 0);
    talk.turn(&mut relay, &server, Event::Written, 0);
    match talk.turn(&mut relay, &server, Event::FirstFrame(Frame::KeepAlive), 0) {
        Action::Fail(fault) => {
            assert_eq!(fault, Fault::Handshake(HandshakeError::NotClientInfo))
        }
        _ => panic!("identified"),
    }
}

/// A link that has been granted DERP and knows its peer's key.
fn greeted(relay: &mut Relay, own: &NodeKeyPair, peer: NodeKey) -> Link {
    let mut link = Link::new(5);
    assert!(matches!(link.turn(relay, own, LinkEvent::Connected), LinkAction::Ask));
    let answer = LinkEvent::Answer(b"HTTP/1.1 101 Switching Protocols\r\n\r\n".to_vec());
    assert!(matches!(link.turn(relay, own, answer), LinkAction::ReadKey));
    let read = LinkEvent::Read(Frame::ServerKey(peer));
    assert!(matches!(link.turn(relay, own, read), LinkAction::PutInfoTogether));
    link
}

#[test]
fn links_watch_after_the_peers_info() {
    let own = NodeKeyPair::generate();
    let peer = NodeKeyPair::generate();
    let mut relay = Relay::new(8, None);
    let mut link = greeted(&mut relay, &own, peer.public());
    match link.turn(&mut relay, &own, LinkEvent::OwnInfo(b"{}".to_vec())) {
        LinkAction::Write(Frame::ClientInfo { key, sealed }) => {
            assert_eq!(key, own.public());
            assert_eq!(peer.open_from(key, &sealed).unwrap(), b"{}");
        }
        _ => panic!("not introduced"),
    }
    let written = link.turn(&mut relay, &own, LinkEvent::Written);
    assert!(matches!(written, LinkAction::ReadInfo));
    let info = LinkEvent::Read(Frame::ServerInfo(Bytes::new()));
    let subscribed = link.turn(&mut relay, &own, info);
    assert!(matches!(subscribed, LinkAction::Write(Frame::WatchConns)));
    let up = link.turn(&mut relay, &own, LinkEvent::Written);
    assert!(matches!(up, LinkAction::Serve) && matches!(link.stage, LinkStage::Up));
    let a = relay.register(own.public(), ep(), false, true, false, false, 0);
    let (tx, mut rx) = tokio::sync::mpsc::channel(8);
    relay.add_mesh_route(5, peer.public(), tx);
    let packet = Bytes::from_static(b"x");
    relay.route(a.handle, own.public(), peer.public(), packet.clone(), false, 0);
    assert!(rx.try_recv().is_ok());
    assert!(matches!(link.turn(&mut relay, &own, LinkEvent::Over), LinkAction::Close));
    relay.route(a.handle, own.public(), peer.public(), packet, false, 0);
    assert!(rx.try_recv().is_err());
}

#[test]
fn links_that_fail() {
    let own = NodeKeyPair::generate();
    let peer = NodeKeyPair::generate();
    let mut relay = Relay::new(8, None);
    let mut link = Link::new(1);
    link.turn(&mut relay, &own, LinkEvent::Connected);
    match link.turn(&mut relay, &own, LinkEvent::Answer(b"HTTP/1.1 404 no\r\n\r\n".to_vec())) {
        LinkAction::Fail(LinkFault::Upgrade(text)) => {
            assert_eq!(text, "mesh upgrade failed: HTTP/1.1 404 no")
        }
        _ => panic!("granted"),
    }
    let mut link = greeted(&mut relay, &own, peer.public());
    link.turn(&mut relay, &own, LinkEvent::OwnInfo(Vec::new()));
    link.turn(&mut relay, &own, LinkEvent::Written);
    match link.turn(&mut relay, &own, LinkEvent::Read(Frame::KeepAlive)) {
        LinkAction::Fail(LinkFault::Handshake(e)) => assert_eq!(e, MeshError::NoServerInfo),
        _ => panic!("subscribed"),
    }
    let mut link = Link::new(2);
    match link.turn(&mut relay, &own, LinkEvent::Written) {
        LinkAction::Fail(LinkFault::OutOfTurn) => {}
        _ => panic!("out of turn"),
    }
}
