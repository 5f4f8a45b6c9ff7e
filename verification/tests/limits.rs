use derp_rs::limiter::{Pause, PeerGoneLimiter, TokenBucket};
use derp_rs::metrics::Metrics;

const SECOND: u64 = 1_000_000_000;

#[test]
fn reports_are_limited() {
    let mut l = PeerGoneLimiter::new(7);
    let mut allowed = 0;
    for ms in 0..10_000u64 {
        if l.allow(7 + ms * 1_000_000) {
            allowed += 1;
        }
    }
    assert!((32..=33).contains(&allowed), "{allowed}");
    assert!(!PeerGoneLimiter { tokens: 999_999_999, updated: 5 }.allow(5));
    assert!(PeerGoneLimiter { tokens: 999_999_999, updated: 5 }.allow(6));
    assert!(!PeerGoneLimiter { tokens: 0, updated: 5 }.allow(4));
}

#[test]
fn buckets_refill() {
    let mut b = TokenBucket::new(100, 200, 0);
    assert_eq!(b.consume(200, 0), None);
    assert_eq!(b.consume(50, SECOND / 2), None);
    assert_eq!(b.consume(1, SECOND / 2), Some(Pause { secs: 0, nanos: 10_000_000 }));
    b.slept(SECOND);
    assert_eq!(b.consume(100, 2 * SECOND), None);
    assert_eq!(b.consume(201, 100 * SECOND), Some(Pause { secs: 0, nanos: 10_000_000 }));
}

#[test]
fn pauses_are_rounded() {
    let mut b = TokenBucket::new(3, 0, 0);
    assert_eq!(b.consume(100, 0), Some(Pause { secs: 33, nanos: 333_333_333 }));
    let mut b = TokenBucket::new(3, 0, 0);
    assert_eq!(b.consume(200, 0), Some(Pause { secs: 66, nanos: 666_666_667 }));
}

#[test]
fn no_rate_is_no_limit() {
    let mut b = TokenBucket::new(0, 0, 0);
    assert_eq!(b.consume(usize::MAX, 0), None);
}

#[test]
fn large_numbers_fit() {
    let mut b = TokenBucket::new(u64::MAX, u64::MAX, 0);
    assert_eq!(b.consume(usize::MAX, u64::MAX), None);
    let mut slow = TokenBucket::new(1, 0, 0);
    assert_eq!(
        slow.consume(usize::MAX, 0),
        Some(Pause { secs: usize::MAX as u64, nanos: 0 })
    );
}

#[test]
fn a_waiting_client_keeps_its_rate() {
    let mut b = TokenBucket::new(1000, 5000, 0);
    let mut now = 0u64;
    let mut sent = 0u64;
    while sent < 50_000 {
        if let Some(p) = b.consume(700, now) {
            now += p.secs * SECOND + p.nanos as u64;
            b.slept(now);
        }
        sent += 700;
    }
    assert!(sent * SECOND <= 5000 * SECOND + 1000 * now + 1000 * 100);
    assert!(now > 44 * SECOND && now < 46 * SECOND);
}

#[test]
fn counters_wrap() {
    let mut v = u64::MAX - 1;
    Metrics::inc(&mut v, 3);
    assert_eq!(v, 1);
    Metrics::dec(&mut v);
    Metrics::dec(&mut v);
    assert_eq!(v, u64::MAX);
}

#[test]
fn prometheus_text() {
    let mut m = Metrics::default();
    m.accepts = 12;
    m.mesh_forwarded_out = 18446744073709551615;
    let text = m.prometheus();
    assert!(text.starts_with(
        "# TYPE derp_accepts_total counter\nderp_accepts_total 12\n\
         # TYPE derp_current_clients gauge\nderp_current_clients 0\n"
    ));
    assert!(text.ends_with(
        "# TYPE derp_mesh_forwarded_out_total counter\n\
         derp_mesh_forwarded_out_total 18446744073709551615\n"
    ));
    assert_eq!(text.lines().count(), 34);
}
