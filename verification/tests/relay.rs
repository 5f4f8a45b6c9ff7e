use bytes::Bytes;
use derp_rs::endpoint::{Endpoint, IpAddress};
use derp_rs::protocol::{peer_gone_reason, peer_present_flags, Frame};
use derp_rs::relay::{looks_like_disco_wrapper, RegisteredSession};
use derp_rs::{NodeKey, Relay};

const SECOND: u64 = 1_000_000_000;

fn key(n: u8) -> NodeKey {
    NodeKey::new([n; 32]).unwrap()
}

fn ep(n: u16) -> Endpoint {
    Endpoint { ip: IpAddress::V4([127, 0, 0, 1]), port: n }
}

fn client(relay: &mut Relay, n: u8) -> RegisteredSession {
    relay.register(key(n), ep(n as u16), false, true, false, false, 0)
}

fn member(relay: &mut Relay, n: u8) -> RegisteredSession {
    relay.register(key(n), ep(n as u16), true, true, false, false, 0)
}

fn gone(n: u8, reason: u8) -> Frame {
    Frame::PeerGone { peer: key(n), reason }
}

fn drain(session: &mut RegisteredSession) -> Vec<Frame> {
    let mut frames = Vec::new();
    while let Ok(frame) = session.rx.try_recv() {
        frames.push(frame);
    }
    frames
}

fn disco() -> Bytes {
    let mut disco = vec![0u8; 62];
    disco[..6].copy_from_slice(b"TS\xF0\x9F\x92\xAC");
    Bytes::from(disco)
}

#[test]
fn routes_and_reports_disconnect() {
    let mut relay = Relay::new(8, None);
    let a = relay.register(key(1), ep(1), false, true, false, false, 0);
    let mut b = relay.register(key(2), ep(2), false, true, false, false, 0);
    relay.route(
        a.handle,
        key(1),
        key(2),
        Bytes::from_static(b"packet"),
        false,
        0,
    );
    assert_eq!(
        b.rx.try_recv(),
        Ok(Frame::RecvPacket {
            src: key(1),
            packet: Bytes::from_static(b"packet")
        })
    );
    relay.unregister(a.handle);
    assert_eq!(
        b.rx.try_recv(),
        Ok(Frame::PeerGone {
            peer: key(1),
            reason: 0
        })
    );
}

#[test]
fn duplicate_health_is_cleared() {
    let mut relay = Relay::new(8, None);
    let mut a = relay.register(key(1), ep(1), false, true, false, false, 0);
    let b = relay.register(key(1), ep(2), false, true, false, false, 0);
    assert!(matches!(a.rx.try_recv(), Ok(Frame::Health(_))));
    relay.unregister(b.handle);
    assert_eq!(a.rx.try_recv(), Ok(Frame::Health(Bytes::new())));
}

#[test]
fn not_here_is_only_sent_for_disco_and_is_rate_limited() {
    let mut relay = Relay::new(8, None);
    let mut a = relay.register(key(1), ep(1), false, true, false, false, 0);
    relay.route(
        a.handle,
        key(1),
        key(2),
        Bytes::from_static(b"ordinary packet"),
        false,
        0,
    );
    assert!(a.rx.try_recv().is_err());

    let mut disco = vec![0u8; 62];
    disco[..6].copy_from_slice(b"TS\xF0\x9F\x92\xAC");
    for _ in 0..4 {
        relay.route(
            a.handle,
            key(1),
            key(2),
            Bytes::copy_from_slice(&disco),
            false,
            0,
        );
    }
    for _ in 0..3 {
        assert_eq!(
            a.rx.try_recv(),
            Ok(Frame::PeerGone {
                peer: key(2),
                reason: peer_gone_reason::NOT_HERE
            })
        );
    }
    assert!(a.rx.try_recv().is_err());
}

#[test]
fn preferred_gauge_tracks_state_and_disconnect() {
    let mut relay = Relay::new(8, None);
    let a = relay.register(key(1), ep(1), false, true, false, false, 0);
    relay.note_preferred(a.handle, true);
    assert_eq!(relay.metrics.preferred_clients, 1);
    relay.note_preferred(a.handle, false);
    assert_eq!(relay.metrics.preferred_clients, 0);
    relay.note_preferred(a.handle, true);
    relay.unregister(a.handle);
    assert_eq!(relay.metrics.preferred_clients, 0);
}

#[test]
fn home_moves_are_counted_after_the_first_report() {
    let mut relay = Relay::new(8, None);
    let a = client(&mut relay, 1);
    relay.note_preferred(a.handle, true);
    relay.note_preferred(a.handle, true);
    assert_eq!((relay.metrics.home_moves_in, relay.metrics.home_moves_out), (0, 0));
    relay.note_preferred(a.handle, false);
    relay.note_preferred(a.handle, true);
    assert_eq!((relay.metrics.home_moves_in, relay.metrics.home_moves_out), (1, 1));
    let b = client(&mut relay, 2);
    relay.note_preferred(b.handle, false);
    assert_eq!((relay.metrics.home_moves_in, relay.metrics.home_moves_out), (1, 1));
}

#[test]
fn departures_are_told_again_after_a_reconnect() {
    let mut relay = Relay::new(8, None);
    let mut b = client(&mut relay, 2);
    for _ in 0..3 {
        let a = client(&mut relay, 1);
        relay.route(a.handle, key(1), key(2), Bytes::from_static(b"x"), false, 0);
        relay.unregister(a.handle);
        let frames = drain(&mut b);
        assert_eq!(frames.len(), 2);
        assert_eq!(frames[1], gone(1, peer_gone_reason::DISCONNECTED));
    }
}

#[test]
fn departures_are_told_to_receivers_only() {
    let mut relay = Relay::new(8, None);
    let a = client(&mut relay, 1);
    let second = client(&mut relay, 1);
    let mut b = client(&mut relay, 2);
    let mut c = client(&mut relay, 3);
    relay.route(a.handle, key(1), key(2), Bytes::from_static(b"x"), false, 0);
    relay.route(b.handle, key(2), key(1), Bytes::from_static(b"y"), false, 0);
    drain(&mut b);
    relay.unregister(a.handle);
    assert_eq!(drain(&mut b), vec![]);
    relay.unregister(second.handle);
    assert_eq!(drain(&mut b), vec![gone(1, peer_gone_reason::DISCONNECTED)]);
    assert_eq!(drain(&mut c), vec![]);
    relay.unregister(b.handle);
    relay.unregister(99);
    assert_eq!(relay.client_count(), 1);
}

#[test]
fn forgotten_destinations_are_not_told() {
    let mut relay = Relay::new(8, None);
    let a = client(&mut relay, 1);
    let b = client(&mut relay, 2);
    relay.route(a.handle, key(1), key(2), Bytes::from_static(b"x"), false, 0);
    relay.unregister(b.handle);
    let mut again = client(&mut relay, 2);
    relay.unregister(a.handle);
    assert_eq!(drain(&mut again), vec![]);
}

#[test]
fn the_last_active_connection_gets_the_packets() {
    let mut relay = Relay::new(8, None);
    let s = client(&mut relay, 9);
    let mut a = client(&mut relay, 1);
    let mut b = client(&mut relay, 1);
    let mut c = client(&mut relay, 1);
    for session in [&mut a, &mut b, &mut c] {
        drain(session);
    }
    let packet = Bytes::from_static(b"p");
    let got = vec![Frame::RecvPacket { src: key(9), packet: packet.clone() }];
    relay.route(s.handle, key(9), key(1), packet.clone(), false, 0);
    assert_eq!(drain(&mut c), got);
    relay.note_activity(a.handle);
    relay.route(s.handle, key(9), key(1), packet.clone(), false, 0);
    assert_eq!(drain(&mut a), got);
    relay.unregister(b.handle);
    relay.route(s.handle, key(9), key(1), packet.clone(), false, 0);
    assert_eq!(drain(&mut a), got);
    relay.unregister(a.handle);
    drain(&mut c);
    relay.route(s.handle, key(9), key(1), packet.clone(), false, 0);
    assert_eq!(drain(&mut c), got);
}

#[test]
fn all_duplicates_are_told() {
    let mut relay = Relay::new(8, None);
    let mut a = client(&mut relay, 1);
    let mut b = client(&mut relay, 1);
    let mut c = client(&mut relay, 1);
    let health = Frame::Health(Bytes::from_static(b"duplicate DERP connection for node key"));
    assert_eq!(drain(&mut a), vec![health.clone(), health.clone()]);
    assert_eq!(drain(&mut b), vec![health.clone(), health.clone()]);
    assert_eq!(drain(&mut c), vec![health]);
    relay.unregister(a.handle);
    assert_eq!(drain(&mut b), vec![]);
    relay.unregister(c.handle);
    assert_eq!(drain(&mut b), vec![Frame::Health(Bytes::new())]);
}

#[test]
fn not_here_reports_are_earned_over_time() {
    let mut relay = Relay::new(64, None);
    let mut a = client(&mut relay, 1);
    let ask = |relay: &mut Relay, now: u64| {
        relay.route(a.handle, key(1), key(2), disco(), false, now)
    };
    for _ in 0..5 {
        ask(&mut relay, 0);
    }
    ask(&mut relay, SECOND / 3);
    ask(&mut relay, SECOND / 3 + 1);
    for _ in 0..9 {
        ask(&mut relay, 100 * SECOND);
    }
    assert_eq!(drain(&mut a).len(), 3 + 1 + 3);
    assert_eq!(relay.metrics.packets_dropped, 16);
}

#[test]
fn wrapped_disco_messages() {
    assert!(looks_like_disco_wrapper(&disco()));
    assert!(!looks_like_disco_wrapper(&disco()[..61]));
    let mut other = disco().to_vec();
    other[5] = 0;
    assert!(!looks_like_disco_wrapper(&other));
}

#[test]
fn full_queues_drop_packets() {
    let mut relay = Relay::new(0, None);
    let a = client(&mut relay, 1);
    let mut b = client(&mut relay, 2);
    for _ in 0..3 {
        relay.route(a.handle, key(1), key(2), Bytes::from_static(b"abc"), false, 0);
    }
    let m = relay.metrics;
    assert_eq!((m.packets_received, m.bytes_received), (3, 9));
    assert_eq!((m.packets_sent, m.bytes_sent), (1, 3));
    assert_eq!((m.packets_dropped, m.queue_dropped), (2, 2));
    assert_eq!(drain(&mut b).len(), 1);
}

#[test]
fn watchers_learn_who_comes_and_goes() {
    let mut relay = Relay::new(8, Some([7; 32]));
    let a = client(&mut relay, 1);
    let mut w = member(&mut relay, 2);
    assert!(!relay.watch(a.handle));
    assert!(!relay.watch(77));
    assert!(relay.watch(w.handle));
    let mut seen = drain(&mut w);
    seen.sort_by_key(|f| f.encode().unwrap().to_vec());
    let present = |n: u8, flags: u8| Frame::PeerPresent {
        peer: key(n),
        endpoint: Some(ep(n as u16)),
        flags: Some(flags),
        extra: Bytes::new(),
    };
    assert_eq!(
        seen,
        vec![present(1, peer_present_flags::REGULAR), present(2, peer_present_flags::MESH)]
    );
    let p = relay.register(key(3), ep(3), false, false, true, true, 0);
    assert_eq!(
        drain(&mut w),
        vec![present(3, peer_present_flags::PROBER + peer_present_flags::NOT_IDEAL)]
    );
    relay.unregister(p.handle);
    assert_eq!(drain(&mut w), vec![gone(3, peer_gone_reason::DISCONNECTED)]);
    relay.unregister(w.handle);
    relay.unregister(a.handle);
    assert_eq!(drain(&mut w), vec![]);
}

#[test]
fn only_members_close_peers() {
    let mut relay = Relay::new(8, None);
    let a = client(&mut relay, 1);
    let b = client(&mut relay, 1);
    let w = member(&mut relay, 2);
    assert!(!relay.close_peer(a.handle, key(1)));
    assert!(!relay.session(a.handle).unwrap().is_closed());
    assert!(!relay.close_peer(w.handle, key(3)));
    assert!(relay.close_peer(w.handle, key(1)));
    assert!(relay.session(a.handle).unwrap().is_closed());
    assert!(relay.session(b.handle).unwrap().is_closed());
    assert!(!relay.session(w.handle).unwrap().is_closed());
}

#[test]
fn restarts_are_told_to_everybody() {
    let mut relay = Relay::new(8, None);
    let mut a = client(&mut relay, 1);
    let mut b = client(&mut relay, 1);
    let mut c = client(&mut relay, 2);
    drain(&mut a);
    drain(&mut b);
    relay.broadcast_restart(5, 15);
    let told = vec![Frame::Restarting { reconnect_in_ms: 5, try_for_ms: 15 }];
    assert_eq!(drain(&mut a), told);
    assert_eq!(drain(&mut b), told);
    assert_eq!(drain(&mut c), told);
}

#[test]
fn mesh_routes_are_tried_in_turn() {
    let mut relay = Relay::new(8, None);
    let mut a = client(&mut relay, 1);
    let (tx1, rx1) = tokio::sync::mpsc::channel(1);
    let (tx2, mut rx2) = tokio::sync::mpsc::channel(1);
    drop(rx1);
    relay.add_mesh_route(1, key(2), tx1.clone());
    relay.add_mesh_route(1, key(2), tx2.clone());
    relay.route(a.handle, key(1), key(2), disco(), false, 0);
    assert_eq!(relay.metrics.mesh_forwarded_out, 0);
    assert_eq!(drain(&mut a), vec![gone(2, peer_gone_reason::NOT_HERE)]);
    relay.add_mesh_route(2, key(2), tx2);
    relay.route(a.handle, key(1), key(2), disco(), false, 0);
    assert_eq!(relay.metrics.mesh_forwarded_out, 1);
    assert_eq!(
        rx2.try_recv(),
        Ok(Frame::ForwardPacket { src: key(1), dst: key(2), packet: disco() })
    );
    assert_eq!(drain(&mut a), vec![]);
}

#[test]
fn forwarded_packets_are_not_forwarded_again() {
    let mut relay = Relay::new(8, None);
    let w = member(&mut relay, 1);
    let (tx, mut rx) = tokio::sync::mpsc::channel(4);
    relay.add_mesh_route(1, key(2), tx);
    relay.route(w.handle, key(9), key(2), Bytes::from_static(b"x"), true, 0);
    assert!(rx.try_recv().is_err());
    let m = relay.metrics;
    assert_eq!((m.mesh_forwarded_in, m.mesh_forwarded_out, m.packets_dropped), (1, 0, 1));
}

#[test]
fn ended_mesh_connections_are_forgotten() {
    let mut relay = Relay::new(8, None);
    let a = client(&mut relay, 1);
    let (tx1, mut rx1) = tokio::sync::mpsc::channel(8);
    let (tx2, mut rx2) = tokio::sync::mpsc::channel(8);
    for n in 2..5 {
        relay.add_mesh_route(1, key(n), tx1.clone());
    }
    relay.add_mesh_route(2, key(3), tx2);
    relay.remove_mesh_route(1, key(2));
    relay.remove_mesh_route(1, key(50));
    for n in 2..5 {
        relay.route(a.handle, key(1), key(n), Bytes::from_static(b"x"), false, 0);
    }
    assert_eq!(relay.metrics.mesh_forwarded_out, 2);
    assert!(rx1.try_recv().is_ok() && rx1.try_recv().is_ok() && rx1.try_recv().is_err());
    relay.remove_mesh(1);
    for n in 2..5 {
        relay.route(a.handle, key(1), key(n), Bytes::from_static(b"x"), false, 0);
    }
    assert!(rx1.try_recv().is_err());
    assert!(rx2.try_recv().is_ok());
    assert_eq!(relay.metrics.mesh_forwarded_out, 3);
}

#[test]
fn packets_cross_two_relays() {
    let mut here = Relay::new(8, Some([1; 32]));
    let mut there = Relay::new(8, Some([1; 32]));
    let a = client(&mut here, 1);
    let link = member(&mut there, 100);
    let mut b = client(&mut there, 2);
    let (tx, mut rx) = tokio::sync::mpsc::channel(8);
    here.add_mesh_route(1, key(2), tx);
    here.route(a.handle, key(1), key(2), Bytes::from_static(b"across-mesh"), false, 0);
    match rx.try_recv() {
        Ok(Frame::ForwardPacket { src, dst, packet }) => {
            there.route(link.handle, src, dst, packet, true, 0)
        }
        other => panic!("{other:?}"),
    }
    assert_eq!(
        drain(&mut b),
        vec![Frame::RecvPacket { src: key(1), packet: Bytes::from_static(b"across-mesh") }]
    );
}

#[test]
fn mesh_keys() {
    let relay = Relay::new(8, Some([7; 32]));
    assert!(relay.is_mesh_key(Some([7; 32])));
    assert!(!relay.is_mesh_key(Some([8; 32])));
    assert!(!relay.is_mesh_key(None));
    assert!(!Relay::new(8, None).is_mesh_key(Some([7; 32])));
    assert!(!Relay::new(8, None).is_mesh_key(None));
}

#[test]
fn gauges_follow() {
    let mut relay = Relay::new(8, None);
    assert!(relay.has_room());
    let a = client(&mut relay, 1);
    let b = client(&mut relay, 1);
    let c = client(&mut relay, 2);
    assert_eq!((a.handle, b.handle, c.handle), (1, 2, 3));
    assert_eq!((relay.client_count(), relay.public_peer_count()), (3, 2));
    assert_eq!(relay.metrics.current_clients, 3);
    relay.unregister(b.handle);
    assert_eq!((relay.client_count(), relay.public_peer_count()), (2, 2));
    assert_eq!(relay.metrics.current_clients, 2);
    relay.unregister(c.handle);
    assert_eq!((relay.client_count(), relay.public_peer_count()), (1, 1));
}

#[test]
fn deep_queues_leave_no_room() {
    assert!(!Relay::new(usize::MAX, None).has_room());
    assert!(Relay::new(usize::MAX >> 3, None).has_room());
}

#[test]
fn settled_deliveries() {
    let mut relay = Relay::new(8, None);
    let a = client(&mut relay, 1);
    let mut b = client(&mut relay, 2);
    relay.settle_delivery(key(1), key(2), 5, false);
    assert_eq!((relay.metrics.packets_sent, relay.metrics.packets_dropped), (0, 1));
    relay.settle_delivery(key(1), key(2), 5, true);
    assert_eq!((relay.metrics.packets_sent, relay.metrics.bytes_sent), (1, 5));
    relay.unregister(a.handle);
    assert_eq!(drain(&mut b), vec![gone(1, peer_gone_reason::DISCONNECTED)]);
}

#[test]
fn packets_are_accounted_for() {
    let mut relay = Relay::new(2, None);
    let a = client(&mut relay, 1);
    let _b = client(&mut relay, 2);
    let (tx, _rx) = tokio::sync::mpsc::channel(1);
    relay.add_mesh_route(1, key(3), tx);
    for n in [2, 2, 2, 3, 3, 4] {
        relay.route(a.handle, key(1), key(n), Bytes::from_static(b"x"), false, 0);
    }
    let m = relay.metrics;
    assert_eq!(m.packets_received, 6);
    assert_eq!((m.packets_sent, m.mesh_forwarded_out, m.packets_dropped), (2, 1, 3));
}

#[test]
fn others_leave_the_active_connection_alone() {
    let mut relay = Relay::new(8, None);
    let mut first = client(&mut relay, 1);
    let second = client(&mut relay, 1);
    let third = client(&mut relay, 1);
    let other = client(&mut relay, 2);
    relay.note_activity(first.handle);
    relay.note_activity(other.handle);
    relay.unregister(third.handle);
    relay.unregister(second.handle);
    drain(&mut first);
    relay.route(other.handle, key(2), key(1), Bytes::from_static(b"x"), false, 0);
    let packet = Bytes::from_static(b"x");
    assert_eq!(drain(&mut first), vec![Frame::RecvPacket { src: key(2), packet }]);
}

#[test]
fn connections_that_have_left_are_counted_again() {
    let mut relay = Relay::new(8, None);
    let mut a = client(&mut relay, 1);
    let b = client(&mut relay, 1);
    relay.note_preferred(b.handle, true);
    relay.unregister(b.handle);
    assert_eq!(relay.metrics.preferred_clients, 0);
    assert!(relay.session(b.handle).unwrap().is_closed());
    drain(&mut a);
    relay.note_preferred(b.handle, true);
    assert_eq!((relay.metrics.preferred_clients, relay.metrics.home_moves_in), (1, 1));
    relay.unregister(b.handle);
    let m = relay.metrics;
    assert_eq!((m.current_clients, m.preferred_clients), (0, 0));
    assert_eq!((relay.client_count(), relay.public_peer_count()), (1, 1));
    assert_eq!(drain(&mut a), vec![Frame::Health(Bytes::new())]);
    relay.unregister(a.handle);
    relay.unregister(a.handle);
    assert_eq!(relay.metrics.current_clients, u64::MAX - 1);
    assert_eq!((relay.client_count(), relay.public_peer_count()), (0, 0));
}

#[test]
fn members_that_have_left_still_watch_and_close() {
    let mut relay = Relay::new(8, None);
    let mut w = member(&mut relay, 1);
    let b = client(&mut relay, 2);
    relay.unregister(w.handle);
    assert!(relay.watch(w.handle));
    assert_eq!(drain(&mut w).len(), 1);
    assert!(relay.close_peer(w.handle, key(2)));
    assert!(relay.session(b.handle).unwrap().is_closed());
    relay.unregister(b.handle);
    assert_eq!(drain(&mut w), vec![gone(2, peer_gone_reason::DISCONNECTED)]);
    relay.release(w.handle);
    assert!(relay.session(w.handle).is_some());
    relay.unregister(w.handle);
    relay.release(w.handle);
    assert!(relay.session(w.handle).is_none());
}

#[test]
fn senders_that_have_left_are_told() {
    let mut relay = Relay::new(8, None);
    let mut a = client(&mut relay, 1);
    relay.unregister(a.handle);
    relay.note_activity(a.handle);
    relay.route(a.handle, key(1), key(2), disco(), false, 0);
    assert_eq!(drain(&mut a), vec![gone(2, peer_gone_reason::NOT_HERE)]);
    assert!(relay.send_to(a.handle, Frame::KeepAlive));
    relay.broadcast_restart(1, 3);
    assert_eq!(drain(&mut a), vec![Frame::KeepAlive]);
    relay.release(a.handle);
    relay.route(a.handle, key(1), key(2), disco(), false, 0);
    assert!(!relay.watch(a.handle) && !relay.send_to(a.handle, Frame::KeepAlive));
    assert_eq!(drain(&mut a), vec![]);
}

#[test]
fn connected_sessions_are_not_released() {
    let mut relay = Relay::new(8, None);
    let a = client(&mut relay, 1);
    relay.release(a.handle);
    relay.release(99);
    assert_eq!(relay.client_count(), 1);
    assert!(relay.session(a.handle).is_some());
}

#[test]
fn connections_are_told_rarely() {
    let mut relay = Relay::new(1000, None);
    let mut a = client(&mut relay, 1);
    for ms in 0..2000 {
        relay.route(a.handle, key(1), key(9), disco(), false, 5 * SECOND + ms * 1_000_000);
    }
    let told = drain(&mut a).len();
    assert!((8..=9).contains(&told), "{told}");
}

#[test]
fn late_activity_selects_the_newest() {
    let mut relay = Relay::new(8, None);
    let mut first = client(&mut relay, 1);
    let mut second = client(&mut relay, 1);
    let third = client(&mut relay, 1);
    let other = client(&mut relay, 2);
    relay.unregister(third.handle);
    relay.note_activity(first.handle);
    relay.note_activity(third.handle);
    drain(&mut first);
    drain(&mut second);
    relay.route(other.handle, key(2), key(1), Bytes::from_static(b"x"), false, 0);
    assert_eq!((drain(&mut first).len(), drain(&mut second).len()), (0, 1));
    relay.unregister(other.handle);
    relay.note_activity(other.handle);
    assert_eq!((relay.client_count(), relay.public_peer_count()), (2, 1));
}
