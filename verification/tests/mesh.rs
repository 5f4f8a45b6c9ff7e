use bytes::Bytes;
use derp_rs::endpoint::{Endpoint, IpAddress};
use derp_rs::mesh::{
    answer_progress, check_upgrade, expect_server_info, expect_server_key, handle_mesh_frame,
    introduce, link_depth, mesh_client_info, mesh_target, target_from, AnswerProgress, MeshError,
    MeshNote, Transport, UrlError, UrlParts, MAX_ANSWER,
};
use derp_rs::protocol::Frame;
use derp_rs::{NodeKey, NodeKeyPair, Relay};

fn key(n: u8) -> NodeKey {
    NodeKey::new([n; 32]).unwrap()
}

#[test]
fn targets() {
    let t = mesh_target("https://derp.example.com/derp").unwrap();
    assert_eq!((t.host.as_str(), t.port, t.transport), ("derp.example.com", 443, Transport::Tls));
    assert_eq!(
        t.request,
        "GET /derp HTTP/1.1\r\nHost: derp.example.com:443\r\nConnection: Upgrade\r\n\
         Upgrade: DERP\r\n\r\n"
    );
    let t = mesh_target("http://127.0.0.1:3340/x?y").unwrap();
    assert_eq!((t.host.as_str(), t.port, t.transport), ("127.0.0.1", 3340, Transport::Plain));
    assert!(t.request.starts_with("GET /x HTTP/1.1\r\nHost: 127.0.0.1:3340\r\n"));
    let t = mesh_target("ftp://a/").unwrap();
    assert_eq!((t.transport, t.scheme.as_str(), t.port), (Transport::Unsupported, "ftp", 21));
}

#[test]
fn urls_that_lead_nowhere() {
    assert_eq!(mesh_target("no url").err(), Some(UrlError::Invalid));
    assert_eq!(mesh_target("data:abc").err(), Some(UrlError::NoHost));
    assert_eq!(mesh_target("foo://host").err(), Some(UrlError::NoPort));
}

#[test]
fn missing_paths_ask_for_derp() {
    let parts = |path: &str| UrlParts {
        scheme: "http".into(),
        host: Some("h".into()),
        port: Some(80),
        path: path.into(),
    };
    assert!(target_from(Some(parts(""))).unwrap().request.starts_with("GET /derp HTTP/1.1\r\n"));
    assert!(target_from(Some(parts("/"))).unwrap().request.starts_with("GET / HTTP/1.1\r\n"));
    assert_eq!(target_from(None).err(), Some(UrlError::Invalid));
}

#[test]
fn answers() {
    assert_eq!(answer_progress(b"HTTP/1.1 101 x\r\n\r"), AnswerProgress::More);
    assert_eq!(answer_progress(b"HTTP/1.1 101 x\r\n\r\n"), AnswerProgress::Complete);
    assert_eq!(answer_progress(&vec![0; MAX_ANSWER]), AnswerProgress::More);
    assert_eq!(answer_progress(&vec![0; MAX_ANSWER + 1]), AnswerProgress::TooLarge);
    assert_eq!(check_upgrade(b"HTTP/1.1 101 Switching Protocols\r\n\r\n"), Ok(()));
    assert_eq!(
        check_upgrade(b"HTTP/1.1 404 Not Found\r\nA: b\r\n\r\n"),
        Err("mesh upgrade failed: HTTP/1.1 404 Not Found".to_string())
    );
    assert_eq!(check_upgrade(b"\r\n\r\n"), Err("mesh upgrade failed: ".to_string()));
    assert_eq!(check_upgrade(b""), Err("mesh upgrade failed: empty response".to_string()));
    assert_eq!(
        check_upgrade(b"\xff\r"),
        Err("mesh upgrade failed: \u{fffd}\r".to_string())
    );
}

#[test]
fn introductions() {
    let us = NodeKeyPair::generate();
    let them = NodeKeyPair::generate();
    assert_eq!(expect_server_key(Frame::ServerKey(them.public())), Ok(them.public()));
    assert_eq!(expect_server_key(Frame::KeepAlive), Err(MeshError::NoServerKey));
    assert_eq!(expect_server_info(Frame::ServerInfo(Bytes::new())), Ok(()));
    assert_eq!(expect_server_info(Frame::KeepAlive), Err(MeshError::NoServerInfo));
    match introduce(&us, them.public(), b"info").unwrap() {
        Frame::ClientInfo { key, sealed } => {
            assert_eq!(key, us.public());
            assert_eq!(them.open_from(key, &sealed).unwrap(), b"info");
        }
        other => panic!("{other:?}"),
    }
    let info = mesh_client_info([3; 32]);
    assert_eq!((info.mesh_key, info.version), (Some([3; 32]), 2));
    assert!(info.can_ack_pings && !info.is_prober);
    assert_eq!((link_depth(3), link_depth(64), link_depth(65)), (64, 64, 65));
}

#[test]
fn announcements() {
    let mut relay = Relay::new(8, None);
    let remote = Endpoint { ip: IpAddress::V4([1, 2, 3, 4]), port: 5 };
    let a = relay.register(key(1), remote, false, true, false, false, 0);
    let (mut link, mut out) = tokio::sync::mpsc::channel(8);
    let present = Frame::PeerPresent {
        peer: key(2),
        endpoint: None,
        flags: None,
        extra: Bytes::new(),
    };
    assert_eq!(handle_mesh_frame(&mut relay, 4, &mut link, present), MeshNote::Handled);
    relay.route(a.handle, key(1), key(2), Bytes::from_static(b"x"), false, 0);
    assert_eq!(
        out.try_recv(),
        Ok(Frame::ForwardPacket { src: key(1), dst: key(2), packet: Bytes::from_static(b"x") })
    );
    let gone = Frame::PeerGone { peer: key(2), reason: 0 };
    assert_eq!(handle_mesh_frame(&mut relay, 4, &mut link, gone), MeshNote::Handled);
    relay.route(a.handle, key(1), key(2), Bytes::from_static(b"x"), false, 0);
    assert!(out.try_recv().is_err());
    let ping = Frame::Ping([7; 8]);
    assert_eq!(handle_mesh_frame(&mut relay, 4, &mut link, ping), MeshNote::Handled);
    assert_eq!(out.try_recv(), Ok(Frame::Pong([7; 8])));
    assert_eq!(
        handle_mesh_frame(&mut relay, 4, &mut link, Frame::KeepAlive),
        MeshNote::Handled
    );
    assert_eq!(
        handle_mesh_frame(&mut relay, 4, &mut link, Frame::WatchConns),
        MeshNote::Unexpected
    );
}
