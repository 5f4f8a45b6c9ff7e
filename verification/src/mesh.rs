//! The regional mesh: connecting to another server, and what it announces.

pub mod link;

use tokio::sync::mpsc::Sender;
use vstd::prelude::*;
use vstd::slice::slice_subrange;
use vstd::string::*;

use crate::crypto::{box_public, box_sealed, opened, KeyError, NodeKey, NodeKeyPair};
use crate::http::{lossy, lossy_text};
use crate::protocol::{
    ClientInfo, Frame, FrameView, KEY_LEN, MAX_PACKET_SIZE, NONCE_LEN, PROTOCOL_VERSION,
};
use crate::queue::{offer, offers, queue_of, sender_handle};
use crate::relay::model::RelayView;
use crate::relay::Relay;
use crate::text::{chars_of, decimal, push_decimal, same_text, text_of};
use crate::wire::{bytes_from_vec, has_prefix, same_bytes};

verus! {

/// The longest payload that is read as a mesh peer's greeting.
pub const GREETING_LIMIT: usize = 1024;

/// The longest payload that is read of a mesh peer after the handshake.
pub const MESH_READER_LIMIT: usize = MAX_PACKET_SIZE + 128;

/// How long a server waits before it tries again to reach a mesh peer, in nanoseconds.
pub const RETRY_AFTER: u64 = 2_000_000_000;

/// The parts of a URL that a connection needs.
pub struct UrlParts {
    pub scheme: String,
    pub host: Option<String>,
    pub port: Option<u16>,
    pub path: String,
}

/// The model of the parts of a URL.
#[verifier::ext_equal]
pub struct UrlView {
    pub scheme: Seq<char>,
    pub host: Option<Seq<char>>,
    pub port: Option<u16>,
    pub path: Seq<char>,
}

impl View for UrlParts {
    type V = UrlView;

    open spec fn view(&self) -> UrlView {
        UrlView {
            scheme: self.scheme@,
            host: match self.host {
                Some(h) => Some(h@),
                None => None,
            },
            port: self.port,
            path: self.path@,
        }
    }
}

/// The model of the parts of a URL, if it is one.
pub open spec fn url_view(parts: Option<UrlParts>) -> Option<UrlView> {
    match parts {
        Some(p) => Some(p@),
        None => None,
    }
}

/// The parts of a URL, where a text is one.
pub uninterp spec fn url_parts(text: Seq<char>) -> Option<UrlView>;

/// `url::Url::parse`, and of what it gives `scheme`, `host_str`, `port_or_known_default` and
/// `path`: all of them are functions of the text.
#[verifier::external_body]
fn parse_url(text: &str) -> (r: Option<UrlParts>)
    ensures
        url_view(r) == url_parts(text@),
{
    url::Url::parse(text).ok().map(
        |url| UrlParts {
            scheme: url.scheme().to_string(),
            host: url.host_str().map(|host| host.to_string()),
            port: url.port_or_known_default(),
            path: url.path().to_string(),
        },
    )
}

/// Why a mesh peer's URL leads nowhere.
#[derive(Clone, Copy, Debug, PartialEq, Eq, Structural)]
pub enum UrlError {
    Invalid,
    NoHost,
    NoPort,
}

/// How a mesh peer is spoken to.
#[derive(Clone, Copy, Debug, PartialEq, Eq, Structural)]
pub enum Transport {
    Plain,
    Tls,
    /// The URL asks for something else.
    Unsupported,
}

/// Where a mesh peer is, and what is said to it first.
pub struct Target {
    pub host: String,
    pub port: u16,
    pub scheme: String,
    pub transport: Transport,
    pub request: String,
}

/// The model of where a mesh peer is.
#[verifier::ext_equal]
pub struct TargetView {
    pub host: Seq<char>,
    pub port: u16,
    pub scheme: Seq<char>,
    pub transport: Transport,
    pub request: Seq<char>,
}

impl View for Target {
    type V = TargetView;

    open spec fn view(&self) -> TargetView {
        TargetView {
            host: self.host@,
            port: self.port,
            scheme: self.scheme@,
            transport: self.transport,
            request: self.request@,
        }
    }
}

/// The request that asks a mesh peer for DERP.
pub open spec fn upgrade_request(path: Seq<char>, host: Seq<char>, port: u16) -> Seq<char> {
    "GET "@ + path + " HTTP/1.1\r\nHost: "@ + host + ":"@ + decimal(port as nat)
        + "\r\nConnection: Upgrade\r\nUpgrade: DERP\r\n\r\n"@
}

/// How a mesh peer is spoken to under a URL scheme.
pub open spec fn transport_of(scheme: Seq<char>) -> Transport {
    if scheme == "http"@ {
        Transport::Plain
    } else if scheme == "https"@ {
        Transport::Tls
    } else {
        Transport::Unsupported
    }
}

/// Where a URL leads, or why it leads nowhere. A URL without a path asks for `/derp`.
pub open spec fn target_of(url: Option<UrlView>) -> Result<TargetView, UrlError> {
    match url {
        None => Err(UrlError::Invalid),
        Some(u) => match (u.host, u.port) {
            (None, _) => Err(UrlError::NoHost),
            (Some(_), None) => Err(UrlError::NoPort),
            (Some(host), Some(port)) => Ok(
                TargetView {
                    host,
                    port,
                    scheme: u.scheme,
                    transport: transport_of(u.scheme),
                    request: upgrade_request(
                        if u.path.len() == 0 {
                            "/derp"@
                        } else {
                            u.path
                        },
                        host,
                        port,
                    ),
                },
            ),
        },
    }
}

/// Finds out where a mesh peer's URL leads.
pub fn mesh_target(url: &str) -> (r: Result<Target, UrlError>)
    ensures
        match r {
            Ok(t) => target_of(url_parts(url@)) == Ok::<TargetView, UrlError>(t@),
            Err(e) => target_of(url_parts(url@)) == Err::<TargetView, UrlError>(e),
        },
{
    target_from(parse_url(url))
}

/// Finds out where the parts of a URL lead.
pub fn target_from(url: Option<UrlParts>) -> (r: Result<Target, UrlError>)
    ensures
        match r {
            Ok(t) => target_of(url_view(url)) == Ok::<TargetView, UrlError>(t@),
            Err(e) => target_of(url_view(url)) == Err::<TargetView, UrlError>(e),
        },
{
    let url = match url {
        Some(url) => url,
        None => {
            return Err(UrlError::Invalid);
        },
    };
    let host = match url.host {
        Some(host) => host,
        None => {
            return Err(UrlError::NoHost);
        },
    };
    let port = match url.port {
        Some(port) => port,
        None => {
            return Err(UrlError::NoPort);
        },
    };
    let transport = if same_text(url.scheme.as_str(), "http") {
        Transport::Plain
    } else if same_text(url.scheme.as_str(), "https") {
        Transport::Tls
    } else {
        Transport::Unsupported
    };
    let path: &str = if url.path.as_str().unicode_len() == 0 {
        "/derp"
    } else {
        url.path.as_str()
    };
    let mut request = String::from_str("GET ");
    request.append(path);
    request.append(" HTTP/1.1\r\nHost: ");
    request.append(host.as_str());
    request.append(":");
    push_decimal(&mut request, port as u64);
    request.append("\r\nConnection: Upgrade\r\nUpgrade: DERP\r\n\r\n");
    proof {
        assert(request@ == upgrade_request(path@, host@, port));
    }
    Ok(Target { host, port, scheme: url.scheme, transport, request })
}

/// The bytes that end the head of an answer.
pub const ANSWER_END: [u8; 4] = [0x0d, 0x0a, 0x0d, 0x0a];

/// The bytes that an answer begins with where the upgrade was granted: `HTTP/1.1 101 `.
pub const GRANTED: [u8; 13] = [
    0x48, 0x54, 0x54, 0x50, 0x2f, 0x31, 0x2e, 0x31, 0x20, 0x31, 0x30, 0x31, 0x20,
];

/// The most bytes of an answer's head that are read: 32 KiB.
pub const MAX_ANSWER: usize = 32768;

/// How far the reading of a mesh peer's answer has come.
#[derive(Clone, Copy, Debug, PartialEq, Eq, Structural)]
pub enum AnswerProgress {
    /// The head is complete.
    Complete,
    /// There is more of it than is read.
    TooLarge,
    /// The next byte is to be read.
    More,
}

/// Whether a byte string ends with another.
pub open spec fn ends_in(data: Seq<u8>, end: Seq<u8>) -> bool {
    data.len() >= end.len() && data.subrange(data.len() - end.len(), data.len() as int) == end
}

/// How far the reading of a mesh peer's answer has come, after what was read so far.
pub fn answer_progress(data: &[u8]) -> (r: AnswerProgress)
    ensures
        r == (if ends_in(data@, ANSWER_END@) {
            AnswerProgress::Complete
        } else if data@.len() > MAX_ANSWER {
            AnswerProgress::TooLarge
        } else {
            AnswerProgress::More
        }),
{
    let n = data.len();
    if n >= 4 && same_bytes(slice_subrange(data, n - 4, n), ANSWER_END.as_slice()) {
        AnswerProgress::Complete
    } else if n > MAX_ANSWER {
        AnswerProgress::TooLarge
    } else {
        AnswerProgress::More
    }
}

/// The first line of a text, without what ends it; nothing where the text is empty.
pub open spec fn first_line(text: Seq<char>) -> Option<Seq<char>> {
    if text.len() == 0 {
        None
    } else {
        Some(without_return(text.take(line_len(text) as int), line_len(text) < text.len()))
    }
}

/// The number of characters before the first line feed.
pub open spec fn line_len(text: Seq<char>) -> nat
    decreases text.len(),
{
    if text.len() == 0 || text[0] == '\n' {
        0
    } else {
        1 + line_len(text.drop_first())
    }
}

/// The line without a carriage return before its line feed.
pub open spec fn without_return(line: Seq<char>, fed: bool) -> Seq<char> {
    if fed && line.len() > 0 && line.last() == '\r' {
        line.drop_last()
    } else {
        line
    }
}

/// The first line of a text, without what ends it; nothing where the text is empty.
fn cut_line(text: &str) -> (r: Option<String>)
    ensures
        match r {
            Some(line) => first_line(text@) == Some(line@),
            None => first_line(text@) is None,
        },
{
    let chars = chars_of(text);
    if chars.len() == 0 {
        return None;
    }
    let mut n: usize = 0;
    proof {
        assert(text@.skip(0) =~= text@);
    }
    while n < chars.len() && chars[n] != '\n'
        invariant
            chars@ == text@,
            n <= chars.len(),
            line_len(text@) == n + line_len(text@.skip(n as int)),
        decreases chars.len() - n,
    {
        proof {
            assert(text@.skip(n as int).drop_first() =~= text@.skip(n + 1));
            assert(text@.skip(n as int)[0] == text@[n as int]);
        }
        n += 1;
    }
    proof {
        let rest = text@.skip(n as int);
        assert(rest.len() > 0 ==> rest[0] == text@[n as int]);
        assert(line_len(text@) == n);
    }
    let mut end = n;
    if n < chars.len() && n > 0 && chars[n - 1] == '\r' {
        end = n - 1;
    }
    proof {
        assert(text@.take(n as int).len() == n);
        assert(chars@.subrange(0, end as int) =~= without_return(
            text@.take(n as int),
            n < text@.len(),
        ));
    }
    Some(text_of(slice_subrange(chars.as_slice(), 0, end)))
}

/// What is wrong with a mesh peer's answer, if the upgrade was not granted: its first line.
pub open spec fn upgrade_fault(data: Seq<u8>) -> Option<Seq<char>> {
    if GRANTED@.len() <= data.len() && data.subrange(0, GRANTED@.len() as int) == GRANTED@ {
        None
    } else {
        Some(
            "mesh upgrade failed: "@ + match first_line(lossy_text(data)) {
                Some(line) => line,
                None => "empty response"@,
            },
        )
    }
}

/// Checks that a mesh peer's answer grants the upgrade.
pub fn check_upgrade(data: &[u8]) -> (r: Result<(), String>)
    ensures
        match r {
            Ok(()) => upgrade_fault(data@) is None,
            Err(e) => upgrade_fault(data@) == Some(e@),
        },
{
    if has_prefix(data, GRANTED.as_slice()) {
        return Ok(());
    }
    let text = lossy(data);
    let mut fault = String::from_str("mesh upgrade failed: ");
    match cut_line(text.as_str()) {
        Some(line) => {
            fault.append(line.as_str());
        },
        None => {
            fault.append("empty response");
        },
    }
    Err(fault)
}

/// What this server says of itself to a mesh peer.
pub fn mesh_client_info(mesh_key: [u8; 32]) -> (r: ClientInfo)
    ensures
        r == (ClientInfo {
            mesh_key: Some(mesh_key),
            version: PROTOCOL_VERSION,
            can_ack_pings: true,
            is_prober: false,
        }),
{
    ClientInfo {
        mesh_key: Some(mesh_key),
        version: PROTOCOL_VERSION,
        can_ack_pings: true,
        is_prober: false,
    }
}

/// Why the handshake with a mesh peer fails.
#[derive(Clone, Copy, Debug, PartialEq, Eq, Structural)]
pub enum MeshError {
    /// Its first frame did not say who it is.
    NoServerKey,
    /// Its second frame was not its info.
    NoServerInfo,
}

/// Takes a mesh peer's first frame: who it is.
pub fn expect_server_key(frame: Frame) -> (r: Result<NodeKey, MeshError>)
    ensures
        match r {
            Ok(key) => frame@ == FrameView::ServerKey(key@),
            Err(e) => frame@ !is ServerKey && e == MeshError::NoServerKey,
        },
{
    match frame {
        Frame::ServerKey(key) => Ok(key),
        _ => Err(MeshError::NoServerKey),
    }
}

/// Takes a mesh peer's second frame: its info.
pub fn expect_server_info(frame: Frame) -> (r: Result<(), MeshError>)
    ensures
        match r {
            Ok(()) => frame@ is ServerInfo,
            Err(e) => frame@ !is ServerInfo && e == MeshError::NoServerInfo,
        },
{
    match frame {
        Frame::ServerInfo(_) => Ok(()),
        _ => Err(MeshError::NoServerInfo),
    }
}

/// Whether a frame is a server's key and its info, sealed to a peer.
pub open spec fn introduces(
    frame: FrameView,
    secret: Seq<u8>,
    peer: Seq<u8>,
    text: Seq<u8>,
) -> bool {
    frame matches FrameView::ClientInfo { key: own, sealed } && {
        &&& own == box_public(secret)
        &&& sealed.len() == NONCE_LEN + 16 + text.len()
        &&& sealed.subrange(NONCE_LEN as int, sealed.len() as int) == box_sealed(
            secret,
            peer,
            sealed.subrange(0, NONCE_LEN as int),
            text,
        )
        &&& forall|other: Seq<u8>|
            other.len() == KEY_LEN && #[trigger] box_public(other) == peer ==> opened(
                other,
                own,
                sealed,
            ) == Some(text)
    }
}

/// This server's answer to a mesh peer's greeting: its key, and its info sealed to the peer.
pub fn introduce(key: &NodeKeyPair, peer: NodeKey, info_text: &[u8]) -> (r: Result<Frame, KeyError>)
    ensures
        r matches Ok(frame) && introduces(frame@, key.secret(), peer@, info_text@),
{
    match key.seal_to(peer, info_text) {
        Ok(sealed) => Ok(
            Frame::ClientInfo { key: key.public(), sealed: bytes_from_vec(sealed) },
        ),
        Err(e) => Err(e),
    }
}

/// How many frames wait for a mesh peer at most: as for a client, 64 at least.
pub fn link_depth(queue_depth: usize) -> (r: usize)
    ensures
        r == (if queue_depth < 64 {
            64
        } else {
            queue_depth
        }),
{
    if queue_depth < 64 {
        64
    } else {
        queue_depth
    }
}

/// What became of a mesh peer's frame.
#[derive(Clone, Copy, Debug, PartialEq, Eq, Structural)]
pub enum MeshNote {
    Handled,
    /// Mesh peers do not send such frames; it was ignored.
    Unexpected,
}

/// Whether a frame is one that mesh peers send.
pub open spec fn from_mesh(frame: FrameView) -> bool {
    ||| frame is PeerPresent
    ||| frame is PeerGone
    ||| frame is Ping
    ||| frame is KeepAlive
    ||| frame is ServerInfo
}

/// The relay after a mesh peer's frame: a peer that is present there can be reached through it,
/// one that is gone cannot.
pub open spec fn mesh_noted(v: RelayView, mesh_id: u64, queue: int, frame: FrameView) -> RelayView {
    match frame {
        FrameView::PeerPresent { peer, .. } => v.route_added(mesh_id, peer, queue, Seq::empty()),
        FrameView::PeerGone { peer, .. } => v.route_removed(mesh_id, peer),
        _ => v,
    }
}

/// Whether one more frame was offered, whatever came of it.
pub open spec fn one_more(
    before: Seq<(FrameView, bool)>,
    after: Seq<(FrameView, bool)>,
    frame: FrameView,
) -> bool {
    &&& after.len() > 0
    &&& after.drop_last() == before
    &&& after.last().0 == frame
}

/// Handles a mesh peer's frame. Pings are answered through `link`, by which also packets go out.
pub fn handle_mesh_frame(
    relay: &mut Relay,
    mesh_id: u64,
    link: &mut Sender<Frame>,
    frame: Frame,
) -> (r: MeshNote)
    requires
        old(relay).wf(),
    ensures
        final(relay).wf(),
        (r == MeshNote::Handled) == from_mesh(frame@),
        final(relay)@ == mesh_noted(old(relay)@, mesh_id, queue_of(*old(link)), frame@),
        frame@ matches FrameView::Ping(value) ==> one_more(
            offers(*old(link)),
            offers(*final(link)),
            FrameView::Pong(value),
        ),
        frame@ !is Ping ==> offers(*final(link)) == offers(*old(link)),
        queue_of(*final(link)) == queue_of(*old(link)),
{
    match frame {
        Frame::PeerPresent { peer, .. } => {
            let tx = sender_handle(link);
            relay.add_mesh_route(mesh_id, peer, tx);
            MeshNote::Handled
        },
        Frame::PeerGone { peer, .. } => {
            relay.remove_mesh_route(mesh_id, peer);
            MeshNote::Handled
        },
        Frame::Ping(value) => {
            let ghost before = offers(*link);
            let ok = offer(link, Frame::Pong(value));
            proof {
                let o = (FrameView::Pong(value@), ok);
                assert(offers(*link).last() == o);
                assert(offers(*link).drop_last() =~= before);
                assert(one_more(before, offers(*link), FrameView::Pong(value@)));
            }
            MeshNote::Handled
        },
        Frame::KeepAlive => MeshNote::Handled,
        Frame::ServerInfo(_) => MeshNote::Handled,
        _ => MeshNote::Unexpected,
    }
}

/// A peer that a mesh connection announces has a route through it; one that it says is gone has
/// none.
pub proof fn law_announced_peers_are_reached(
    v: RelayView,
    mesh_id: u64,
    queue: int,
    frame: FrameView,
)
    ensures
        frame matches FrameView::PeerPresent { peer, .. } ==> exists|i: int|
            0 <= i < mesh_noted(v, mesh_id, queue, frame).routes_to(peer).len() && (
            #[trigger] mesh_noted(v, mesh_id, queue, frame).routes_to(peer)[i]).mesh_id == mesh_id,
        frame matches FrameView::PeerGone { peer, .. } ==> forall|i: int|
            0 <= i < mesh_noted(v, mesh_id, queue, frame).routes_to(peer).len() ==> (
            #[trigger] mesh_noted(v, mesh_id, queue, frame).routes_to(peer)[i]).mesh_id != mesh_id,
{
    let post = mesh_noted(v, mesh_id, queue, frame);
    if let FrameView::PeerPresent { peer, .. } = frame {
        let before = v.routes_to(peer);
        if exists|i: int| 0 <= i < before.len() && (#[trigger] before[i]).mesh_id == mesh_id {
            let i = choose|i: int| 0 <= i < before.len() && (#[trigger] before[i]).mesh_id
                == mesh_id;
            assert(post.routes_to(peer)[i].mesh_id == mesh_id);
        } else {
            assert(post.routes_to(peer)[before.len() as int].mesh_id == mesh_id);
        }
    }
    if let FrameView::PeerGone { peer, .. } = frame {
        let p = |r: crate::relay::model::RouteView| r.mesh_id != mesh_id;
        let kept = v.other_routes(mesh_id, peer);
        assert forall|i: int| 0 <= i < post.routes_to(peer).len() implies (
        #[trigger] post.routes_to(peer)[i]).mesh_id != mesh_id by {
            v.routes_to(peer).lemma_filter_pred(p, i);
        }
    }
}

} // verus!
