use derp_rs::endpoint::{Endpoint, IpAddress};
use derp_rs::http::{
    bridge, derp_upgrade, parse_request, progress, request_from, websocket_upgrade_with,
    write_response, BridgeAction, Head, Header, Incoming, Page, Prefix, Progress, RawHeader, Request,
    RequestError, MAX_HTTP_HEADER,
};
use derp_rs::{NodeKey, Relay};

fn get(path: &str, headers: &str) -> Request {
    let text = format!("GET {path} HTTP/1.1\r\nHost: x\r\n{headers}\r\n");
    parse_request(text.as_bytes()).unwrap()
}

fn answer(request: &Request) -> String {
    let relay = Relay::new(8, None);
    String::from_utf8(request.respond(&relay, None).unwrap()).unwrap()
}

#[test]
fn heads_end_at_the_first_blank_line() {
    assert_eq!(progress(b""), Progress::More);
    assert_eq!(progress(b"GET / HTTP/1.1\r\n\r"), Progress::More);
    assert_eq!(progress(b"a\r\n\r\n\r\n\r\n"), Progress::Complete(5));
    assert_eq!(progress(&vec![b'a'; MAX_HTTP_HEADER - 1]), Progress::More);
    let mut large = vec![b'a'; MAX_HTTP_HEADER];
    assert_eq!(progress(&large), Progress::TooLarge);
    large.extend_from_slice(b"\r\n\r\n");
    assert_eq!(progress(&large), Progress::Complete(MAX_HTTP_HEADER + 4));
}

#[test]
fn requests_are_read() {
    let q = get("/x?y", "X-One:  a b \r\nx-one: last\r\nIdeal-Node: 1\r\n");
    assert_eq!((q.method.as_str(), q.path.as_str()), ("GET", "/x?y"));
    assert_eq!(q.header("x-one"), Some("last"));
    assert_eq!(q.header("host"), Some("x"));
    assert_eq!(q.header("X-One"), None);
    assert!(q.not_ideal());
    assert!(!get("/", "").not_ideal());
}

#[test]
fn values_that_are_not_utf8_are_mended() {
    let mut raw = b"GET / HTTP/1.1\r\nA: x".to_vec();
    raw.push(0xff);
    raw.extend_from_slice(b"\r\n\r\n");
    assert_eq!(parse_request(&raw).unwrap().header("a"), Some("x\u{fffd}"));
}

#[test]
fn request_errors() {
    assert_eq!(parse_request(b"nonsense\r\n\r\n").err(), Some(RequestError::Malformed));
    assert_eq!(parse_request(b"GET / HT").err(), Some(RequestError::Incomplete));
    let mut many = String::from("GET / HTTP/1.1\r\n");
    for i in 0..65 {
        many.push_str(&format!("h{i}: v\r\n"));
    }
    many.push_str("\r\n");
    assert_eq!(parse_request(many.as_bytes()).err(), Some(RequestError::Malformed));
    let headless = |method: Option<&str>, path: Option<&str>| {
        request_from(Head::Complete {
            method: method.map(String::from),
            path: path.map(String::from),
            headers: vec![],
        })
    };
    assert_eq!(headless(None, Some("/")).err(), Some(RequestError::MissingMethod));
    assert_eq!(headless(Some("GET"), None).err(), Some(RequestError::MissingPath));
    assert!(headless(Some("GET"), Some("/")).is_ok());
}

#[test]
fn parsed_heads_become_requests() {
    let q = request_from(Head::Complete {
        method: Some("HEAD".into()),
        path: Some("/derp/probe".into()),
        headers: vec![RawHeader { name: "AbC".into(), value: b"\t v ".to_vec() }],
    })
    .unwrap();
    assert_eq!(q.header("abc"), Some("v"));
    assert_eq!(q.page(), Page::Probe);
}

#[test]
fn pages() {
    let page = |path: &str| get(path, "").page();
    assert_eq!(page("/derp"), Page::UpgradeRequired);
    assert_eq!(page("/derp?x"), Page::NotFound);
    assert_eq!(page("/derp/probe"), Page::Probe);
    assert_eq!(page("/derp/latency-check?a?b"), Page::Probe);
    assert_eq!(page("/generate_204"), Page::Generate204);
    assert_eq!(page("/bootstrap-dns?q=1"), Page::BootstrapDns);
    assert_eq!(page("/metrics"), Page::Metrics);
    assert_eq!(page("/debug/vars"), Page::Metrics);
    assert_eq!(page("/debug/check"), Page::Check);
    assert_eq!(page("/robots.txt"), Page::Robots);
    assert_eq!(page("/?"), Page::Home);
    assert_eq!(page("/other"), Page::NotFound);
    let post = parse_request(b"POST /derp/probe HTTP/1.1\r\n\r\n").unwrap();
    assert_eq!(post.page(), Page::BogusProbe);
}

#[test]
fn upgrades() {
    let page = |headers: &str| get("/derp", headers).page();
    assert_eq!(page("Upgrade: DERP\r\n"), Page::Derp { fast: false });
    assert_eq!(page("Upgrade: derp\r\nDerp-Fast-Start: 1\r\n"), Page::Derp { fast: true });
    assert_eq!(page("Upgrade: derp\r\nDerp-Fast-Start: 2\r\n"), Page::Derp { fast: false });
    assert_eq!(page("Upgrade: WebSocket\r\n"), Page::Derp { fast: false });
    let offer = |list: &str| page(&format!("Upgrade: websocket\r\nSec-WebSocket-Protocol: {list}\r\n"));
    assert_eq!(offer("derp"), Page::WebSocket);
    assert_eq!(offer("chat, derp ,x"), Page::WebSocket);
    assert_eq!(offer("chat,x,derp"), Page::WebSocket);
    assert_eq!(offer("derpy, xderp"), Page::Derp { fast: false });
    assert_eq!(page("Upgrade: h2c\r\n"), Page::UpgradeRequired);
}

#[test]
fn responses() {
    assert_eq!(
        answer(&get("/derp", "")),
        "HTTP/1.1 426 Upgrade Required\r\nContent-Length: 33\r\nConnection: close\r\n\
         Content-Type: text/plain\r\n\r\nDERP requires connection upgrade\n"
    );
    assert_eq!(
        answer(&get("/derp/probe", "")),
        "HTTP/1.1 200 OK\r\nContent-Length: 0\r\nConnection: close\r\n\
         Access-Control-Allow-Origin: *\r\n\r\n"
    );
    assert_eq!(
        answer(&parse_request(b"PUT /derp/probe HTTP/1.1\r\n\r\n").unwrap()),
        "HTTP/1.1 405 Method Not Allowed\r\nContent-Length: 19\r\nConnection: close\r\n\r\n\
         bogus probe method\n"
    );
    assert_eq!(
        answer(&get("/bootstrap-dns", "")),
        "HTTP/1.1 200 OK\r\nContent-Length: 3\r\nConnection: close\r\n\
         Content-Type: application/json\r\nAccess-Control-Allow-Origin: *\r\n\r\n{}\n"
    );
    assert!(answer(&get("/robots.txt", "")).ends_with("\r\n\r\nUser-agent: *\nDisallow: /\n"));
    assert!(answer(&get("/", "")).contains("<h1>DERP</h1>"));
    assert!(answer(&get("/x", "")).starts_with("HTTP/1.1 404 Not Found\r\n"));
    let relay = Relay::new(8, None);
    assert!(get("/derp", "Upgrade: derp\r\n").respond(&relay, None).is_none());
    let dns = get("/bootstrap-dns", "").respond(&relay, Some(b"{\"a\":1}".to_vec())).unwrap();
    assert!(dns.ends_with(b"\r\n\r\n{\"a\":1}"));
}

#[test]
fn relay_pages() {
    let mut relay = Relay::new(8, None);
    let key = NodeKey::new([1; 32]).unwrap();
    let remote = Endpoint { ip: IpAddress::V4([1, 2, 3, 4]), port: 5 };
    relay.register(key, remote, false, false, false, false, 0);
    relay.register(key, remote, false, false, false, false, 0);
    let check = get("/debug/check", "").respond(&relay, None).unwrap();
    assert!(check.ends_with(b"\r\n\r\nderp-rs consistency check okay; 2 sessions, 1 peers\n"));
    let metrics = get("/metrics", "").respond(&relay, None).unwrap();
    let text = String::from_utf8(metrics).unwrap();
    assert!(text.contains("Content-Type: text/plain; version=0.0.4\r\n"));
    assert!(text.ends_with(&relay.metrics.prometheus()));
    assert!(text.contains("derp_current_clients 2\n"));
}

#[test]
fn challenges() {
    let challenge = |value: &str| {
        answer(&get("/generate_204", &format!("X-Tailscale-Challenge: {value}\r\n")))
    };
    let head = "HTTP/1.1 204 No Content\r\nContent-Length: 0\r\nConnection: close\r\n\
                Cache-Control: no-cache, no-store, must-revalidate, no-transform, max-age=0\r\n";
    assert_eq!(challenge("a.B-9_:"), format!("{head}X-Tailscale-Response: response a.B-9_:\r\n\r\n"));
    assert_eq!(challenge("a b"), format!("{head}\r\n"));
    let longest = "x".repeat(64);
    assert!(challenge(&longest).contains(&format!("response {longest}\r\n")));
    assert_eq!(challenge(&"x".repeat(65)), format!("{head}\r\n"));
    assert_eq!(answer(&get("/generate_204", "")), format!("{head}\r\n"));
}

#[test]
fn derp_upgrades_name_the_key() {
    let key = NodeKey::new([0xab; 32]).unwrap();
    assert_eq!(
        derp_upgrade(key),
        format!(
            "HTTP/1.1 101 Switching Protocols\r\nUpgrade: DERP\r\nConnection: Upgrade\r\n\
             Derp-Version: 2\r\nDerp-Public-Key: {}\r\n\r\n",
            "ab".repeat(32)
        )
    );
}

#[test]
fn websocket_upgrades_prove_the_key() {
    let q = get("/derp", "Sec-WebSocket-Key: dGhlIHNhbXBsZSBub25jZQ==\r\n");
    let want = "HTTP/1.1 101 Switching Protocols\r\nUpgrade: websocket\r\nConnection: Upgrade\r\n\
                Sec-WebSocket-Accept: s3pPLMBiTxaQ9kYGzzhZRbK+xOo=\r\n\
                Sec-WebSocket-Protocol: derp\r\n\r\n";
    assert_eq!(q.websocket_upgrade().as_deref(), Some(want));
    assert_eq!(websocket_upgrade_with("s3pPLMBiTxaQ9kYGzzhZRbK+xOo="), want);
    assert_eq!(get("/derp", "").websocket_upgrade(), None);
}

#[test]
fn written_responses() {
    let headers = [
        Header { name: "A".into(), value: "b".into() },
        Header { name: "C".into(), value: "".into() },
    ];
    assert_eq!(
        write_response(65535, "Odd", &headers, &[0, 255]),
        b"HTTP/1.1 65535 Odd\r\nContent-Length: 2\r\nConnection: close\r\nA: b\r\nC: \r\n\r\n\x00\xff"
    );
}

#[test]
fn bridging() {
    assert_eq!(bridge(Incoming::Binary), BridgeAction::HandOn);
    assert_eq!(bridge(Incoming::Ping), BridgeAction::Pong);
    assert_eq!(bridge(Incoming::Close), BridgeAction::Stop);
    assert_eq!(bridge(Incoming::End), BridgeAction::Stop);
    assert_eq!(bridge(Incoming::Other), BridgeAction::Ignore);
}

#[test]
fn prefixes_are_handed_out_in_order() {
    let mut p = Prefix::new(b"abcdef".to_vec());
    assert_eq!(p.hand_out(4), b"abcd");
    assert_eq!(p.hand_out(0), b"");
    assert!(!p.is_empty());
    assert_eq!(p.hand_out(4), b"ef");
    assert!(p.is_empty());
    assert_eq!(p.hand_out(4), b"");
}
