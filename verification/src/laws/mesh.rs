//! How another server of the mesh is reached and what it announces.

use tokio::sync::mpsc::Sender;
use vstd::prelude::*;

use crate::crypto::{box_public, box_sealed, KeyError, NodeKey, NodeKeyPair};
use crate::http::lossy_text;
use crate::laws::changes::{lemma_way_noted, lemma_ways_lost, mesh_ended, way_lost, way_noted};
use crate::laws::plain::{from, lemma_spelled, part, spells};
use crate::mesh::link::{Link, LinkAction, LinkEvent, LinkFault, LinkStage};
use crate::mesh::{
    answer_progress, check_upgrade, expect_server_info, expect_server_key, first_line,
    handle_mesh_frame, introduce, line_len, link_depth, mesh_client_info, mesh_target, target_from,
    url_parts, url_view, AnswerProgress, MeshError, MeshNote, Target, Transport, UrlError,
    UrlParts,
};
use crate::protocol::{ClientInfo, Frame, FrameView};
use crate::queue::{offers, queue_of};
use crate::relay::model::RouteView;
use crate::relay::Relay;
use crate::text::decimal;

verus! {

/// Whether a text asks for DERP under a path, of a host and a port.
pub open spec fn asks_for_derp(text: Seq<char>, path: Seq<char>, host: Seq<char>, port: u16) -> bool {
    exists|digits: Seq<char>| #[trigger]
        spells(digits, port as nat) && text == "GET "@ + path + " HTTP/1.1\r\nHost: "@ + host + ":"@
            + digits + "\r\nConnection: Upgrade\r\nUpgrade: DERP\r\n\r\n"@
}

/// A URL leads to its host and port, over TLS where it says `https`, and without where it says
/// `http`. It asks for DERP under its path, or under `/derp` where it has none.
pub proof fn law_urls_lead_to_peers(url: Option<UrlParts>, r: Result<Target, UrlError>)
    requires
        call_ensures(target_from, (url,), r),
    ensures
        match url {
            None => r == Err::<Target, UrlError>(UrlError::Invalid),
            Some(u) => if u.host is None {
                r == Err::<Target, UrlError>(UrlError::NoHost)
            } else if u.port is None {
                r == Err::<Target, UrlError>(UrlError::NoPort)
            } else {
                r matches Ok(t) && {
                    &&& t.host@ == u.host->0@
                    &&& t.port == u.port->0
                    &&& t.scheme@ == u.scheme@
                    &&& t.transport == Transport::Plain <==> u.scheme@ == "http"@
                    &&& t.transport == Transport::Tls <==> u.scheme@ == "https"@
                    &&& asks_for_derp(
                        t.request@,
                        if u.path@.len() == 0 {
                            "/derp"@
                        } else {
                            u.path@
                        },
                        t.host@,
                        t.port,
                    )
                }
            },
        },
{
    if let Ok(t) = r {
        lemma_spelled(t.port as nat);
        assert(spells(decimal(t.port as nat), t.port as nat));
        assert("http"@ != "https"@) by {
            reveal_strlit("http");
            reveal_strlit("https");
            assert("http"@.len() != "https"@.len());
        }
    }
}

/// A text leads where its parts do, as `url` finds them.
pub proof fn law_texts_lead_to_peers(
    text: &str,
    r: Result<Target, UrlError>,
    url: Option<UrlParts>,
    t: Result<Target, UrlError>,
)
    requires
        call_ensures(mesh_target, (text,), r),
        call_ensures(target_from, (url,), t),
        url_view(url) == url_parts(text@),
    ensures
        r is Ok == t is Ok,
        r matches Ok(x) ==> (t matches Ok(y) && x@ == y@),
        r matches Err(e) ==> t == Err::<Target, UrlError>(e),
{
}

/// An answer's head is complete with an empty line, and too large after 32 KiB without one.
pub proof fn law_answers_are_read(data: &[u8], r: AnswerProgress)
    requires
        call_ensures(answer_progress, (data,), r),
    ensures
        ({
            let n = data@.len() as int;
            let ended = n >= 4 && data@[n - 4] == 13 && data@[n - 3] == 10 && data@[n - 2] == 13
                && data@[n - 1] == 10;
            match r {
                AnswerProgress::Complete => ended,
                AnswerProgress::TooLarge => !ended && n > 32768,
                AnswerProgress::More => !ended && n <= 32768,
            }
        }),
{
    let d = data@;
    let n = d.len() as int;
    if n >= 4 {
        let tail = d.subrange(n - 4, n);
        assert(forall|i: int| 0 <= i < 4 ==> tail[i] == d[n - 4 + i]);
        if d[n - 4] == 13 && d[n - 3] == 10 && d[n - 2] == 13 && d[n - 1] == 10 {
            assert(tail =~= crate::mesh::ANSWER_END@);
        } else {
            assert(tail != crate::mesh::ANSWER_END@) by {
                if tail == crate::mesh::ANSWER_END@ {
                    assert(tail[0] == 13 && tail[1] == 10 && tail[2] == 13 && tail[3] == 10);
                }
            }
        }
    }
}

/// Whether a line is a text's first: what stands before its first line feed, without a carriage
/// return there.
pub open spec fn is_first_line(line: Seq<char>, text: Seq<char>) -> bool {
    exists|n: int|
        {
            &&& 0 <= n <= text.len()
            &&& !(#[trigger] text.take(n)).contains('\n')
            &&& n < text.len() ==> text[n] == '\n'
            &&& line == if n < text.len() && n > 0 && text[n - 1] == '\r' {
                text.take(n - 1)
            } else {
                text.take(n)
            }
        }
}

proof fn lemma_line_len(text: Seq<char>)
    ensures
        line_len(text) <= text.len(),
        !text.take(line_len(text) as int).contains('\n'),
        line_len(text) < text.len() ==> text[line_len(text) as int] == '\n',
    decreases text.len(),
{
    if text.len() > 0 && text[0] != '\n' {
        let rest = text.drop_first();
        lemma_line_len(rest);
        let n = line_len(rest) as int;
        let t = text.take(n + 1);
        if t.contains('\n') {
            let i = choose|i: int| 0 <= i < t.len() && t[i] == '\n';
            assert(rest.take(n)[i - 1] == '\n');
            assert(rest.take(n).contains('\n'));
        }
    }
}

/// An upgrade is granted by an answer that begins with `HTTP/1.1 101 `, and by no other. What is
/// said of another one is its first line.
pub proof fn law_upgrades_are_granted(data: &[u8], r: Result<(), String>)
    requires
        call_ensures(check_upgrade, (data,), r),
    ensures
        ({
            let granted = seq![
                0x48u8, 0x54, 0x54, 0x50, 0x2f, 0x31, 0x2e, 0x31, 0x20, 0x31, 0x30, 0x31, 0x20,
            ];
            r is Ok <==> data@.len() >= 13 && part(data@, 0, 13) == granted
        }),
        r matches Err(e) ==> exists|line: Seq<char>|
            e@ == #[trigger] ("mesh upgrade failed: "@ + line) && if lossy_text(data@).len() == 0 {
                line == "empty response"@
            } else {
                is_first_line(line, lossy_text(data@))
            },
{
    assert(crate::mesh::GRANTED@ =~= seq![
        0x48u8, 0x54, 0x54, 0x50, 0x2f, 0x31, 0x2e, 0x31, 0x20, 0x31, 0x30, 0x31, 0x20,
    ]);
    if let Err(e) = r {
        let text = lossy_text(data@);
        if text.len() == 0 {
            assert(e@ == "mesh upgrade failed: "@ + "empty response"@);
        } else {
            lemma_line_len(text);
            let n = line_len(text) as int;
            let line = first_line(text)->0;
            assert(text.take(n).len() == n);
            assert(n < text.len() && n > 0 && text[n - 1] == '\r' ==> line =~= text.take(n - 1));
            assert(is_first_line(line, text));
            assert(e@ == "mesh upgrade failed: "@ + line);
        }
    }
}

/// What this server says of itself in the mesh: it knows the key, speaks version 2, answers pings
/// and is no prober.
pub proof fn law_mesh_info(mesh_key: [u8; 32], r: ClientInfo)
    requires
        call_ensures(mesh_client_info, (mesh_key,), r),
    ensures
        r.mesh_key == Some(mesh_key),
        r.version == 2,
        r.can_ack_pings,
        !r.is_prober,
{
}

/// A mesh peer's first frame is its key and its second its info; any other is a fault.
pub proof fn law_mesh_greetings(
    f: Frame,
    first: Result<NodeKey, MeshError>,
    second: Result<(), MeshError>,
)
    requires
        call_ensures(expect_server_key, (f,), first),
        call_ensures(expect_server_info, (f,), second),
    ensures
        f matches Frame::ServerKey(k) ==> first matches Ok(key) && key@ == k@,
        f !is ServerKey ==> first == Err::<NodeKey, MeshError>(MeshError::NoServerKey),
        f is ServerInfo ==> second is Ok,
        f !is ServerInfo ==> second == Err::<(), MeshError>(MeshError::NoServerInfo),
{
}

/// A server introduces itself with its public key, 24 bytes of nonce, and its info in a box that it
/// sealed to the peer under that nonce.
pub proof fn law_introductions(
    key: NodeKeyPair,
    peer: NodeKey,
    text: &[u8],
    r: Result<Frame, KeyError>,
)
    requires
        call_ensures(introduce, (&key, peer, text), r),
    ensures
        r matches Ok(f) && f matches Frame::ClientInfo { key: own, sealed } && {
            let s = crate::wire::bytes_view(sealed);
            &&& own@ == box_public(key.secret())
            &&& s.len() == 40 + text@.len()
            &&& from(s, 24) == box_sealed(key.secret(), peer@, part(s, 0, 24), text@)
        },
{
}

/// For a mesh peer 64 frames wait at least.
pub proof fn law_mesh_queues(depth: usize, r: usize)
    requires
        call_ensures(link_depth, (depth,), r),
    ensures
        r >= 64,
        r >= depth,
        r == 64 || r == depth,
{
}

/// A node that a mesh peer announces is reached through it, and no longer where it says that the
/// node is gone. A ping is answered through it with a pong of the same value; no other frame is
/// answered.
pub proof fn law_mesh_frames(
    relay: &mut Relay,
    mesh_id: u64,
    link: &mut Sender<Frame>,
    f: Frame,
    r: MeshNote,
)
    requires
        call_ensures(handle_mesh_frame, (relay, mesh_id, link, f), r),
    ensures
        r == MeshNote::Handled <==> f is PeerPresent || f is PeerGone || f is Ping || f is KeepAlive
            || f is ServerInfo,
        f matches Frame::PeerPresent { peer, .. } ==> way_noted(
            old(relay)@,
            final(relay)@,
            mesh_id,
            peer@,
            RouteView { mesh_id, queue: queue_of(*old(link)), offers: seq![] },
        ),
        f matches Frame::PeerGone { peer, .. } ==> way_lost(
            old(relay)@,
            final(relay)@,
            mesh_id,
            peer@,
        ),
        f !is PeerPresent && f !is PeerGone ==> final(relay)@ == old(relay)@,
        f matches Frame::Ping(value) ==> {
            let (p, q) = (offers(*old(link)), offers(*final(link)));
            &&& q.len() == p.len() + 1
            &&& q.drop_last() == p
            &&& q.last().0 == FrameView::Pong(value@)
        },
        f !is Ping ==> offers(*final(link)) == offers(*old(link)),
{
    match f {
        Frame::PeerPresent { peer, .. } => {
            let way = RouteView { mesh_id, queue: queue_of(*old(link)), offers: seq![] };
            lemma_way_noted(old(relay)@, peer@, way);
        },
        Frame::PeerGone { peer, .. } => {
            lemma_ways_lost(old(relay)@, mesh_id, peer@);
        },
        _ => {},
    }
}

/// Whether a connection to a mesh peer went from one stage to the next, with this to do.
pub open spec fn step(l: Link, e: LinkEvent, m: Link, r: LinkAction) -> bool {
    match (l.stage, e) {
        (LinkStage::Fresh, LinkEvent::Connected) => m.stage is Asked && r is Ask,
        (LinkStage::Introducing, LinkEvent::Written) => m.stage is Introduced && r is ReadInfo,
        (LinkStage::Subscribing, LinkEvent::Written) => m.stage is Up && r is Serve,
        (LinkStage::Granted, LinkEvent::Read(Frame::ServerKey(k))) => r is PutInfoTogether
            && (m.stage matches LinkStage::Greeted { peer } && peer@ == k@),
        (LinkStage::Introduced, LinkEvent::Read(Frame::ServerInfo(_))) => m.stage is Subscribing
            && (r matches LinkAction::Write(f) && f is WatchConns),
        _ => false,
    }
}

/// Whether an event brings a connection to a mesh peer one stage further.
pub open spec fn is_due(l: Link, e: LinkEvent) -> bool {
    match (l.stage, e) {
        (LinkStage::Fresh, LinkEvent::Connected) => true,
        (LinkStage::Introducing, LinkEvent::Written) => true,
        (LinkStage::Subscribing, LinkEvent::Written) => true,
        (LinkStage::Granted, LinkEvent::Read(f)) => f is ServerKey,
        (LinkStage::Introduced, LinkEvent::Read(f)) => f is ServerInfo,
        _ => false,
    }
}

/// A connection to a mesh peer goes from asking for DERP over the peer's key, this server's info
/// and the peer's info to watching; whatever else happens ends it. Its ways are forgotten where it
/// was up, and nothing else of the relay changes.
pub proof fn law_links_take_turns(
    l: &mut Link,
    relay: &mut Relay,
    key: NodeKeyPair,
    e: LinkEvent,
    r: LinkAction,
)
    requires
        call_ensures(Link::turn, (l, relay, &key, e), r),
    ensures
        final(l).mesh_id == old(l).mesh_id,
        !(old(l).stage is Up) ==> final(relay)@ == old(relay)@,
        old(l).stage is Up ==> final(l).stage is Ended && mesh_ended(
            old(relay)@,
            final(relay)@,
            old(l).mesh_id,
        ),
        is_due(*old(l), e) ==> step(*old(l), e, *final(l), r),
        !is_due(*old(l), e) && !(old(l).stage is Asked && e is Answer) && !(old(l).stage is Greeted
            && e is OwnInfo) ==> final(l).stage is Ended && match (old(l).stage, e) {
            (_, LinkEvent::Over) => r is Close,
            (LinkStage::Granted, LinkEvent::Read(_)) => r == LinkAction::Fail(
                LinkFault::Handshake(MeshError::NoServerKey),
            ),
            (LinkStage::Introduced, LinkEvent::Read(_)) => r == LinkAction::Fail(
                LinkFault::Handshake(MeshError::NoServerInfo),
            ),
            _ => r == LinkAction::Fail(LinkFault::OutOfTurn),
        },
{
    lemma_ways_lost(old(relay)@, old(l).mesh_id, seq![]);
}

/// An answer that grants the upgrade lets the peer's key be read; one that does not ends the
/// connection with what is said of it.
pub proof fn law_links_are_granted(
    l: &mut Link,
    relay: &mut Relay,
    key: NodeKeyPair,
    data: Vec<u8>,
    r: LinkAction,
    head: &[u8],
    granted: Result<(), String>,
)
    requires
        call_ensures(Link::turn, (l, relay, &key, LinkEvent::Answer(data)), r),
        old(l).stage is Asked,
        call_ensures(check_upgrade, (head,), granted),
        head@ == data@,
    ensures
        granted is Ok ==> final(l).stage is Granted && r is ReadKey,
        granted matches Err(text) ==> final(l).stage is Ended && (r matches LinkAction::Fail(fault)
            && fault matches LinkFault::Upgrade(said) && said@ == text@),
{
}

/// Once the peer is known, this server introduces itself to that peer.
pub proof fn law_links_introduce(
    l: &mut Link,
    relay: &mut Relay,
    key: NodeKeyPair,
    text: Vec<u8>,
    r: LinkAction,
    peer: NodeKey,
)
    requires
        call_ensures(Link::turn, (l, relay, &key, LinkEvent::OwnInfo(text)), r),
        old(l).stage == (LinkStage::Greeted { peer }),
    ensures
        final(l).stage is Introducing,
        r matches LinkAction::Write(f) && f matches Frame::ClientInfo { key: own, sealed } && {
            let s = crate::wire::bytes_view(sealed);
            &&& own@ == box_public(key.secret())
            &&& s.len() == 40 + text@.len()
            &&& from(s, 24) == box_sealed(key.secret(), peer@, part(s, 0, 24), text@)
        },
{
}

/// A connection to a mesh peer begins with nothing said, under its number.
pub proof fn law_new_links(mesh_id: u64, r: Link)
    requires
        call_ensures(Link::new, (mesh_id,), r),
    ensures
        r.stage is Fresh,
        r.mesh_id == mesh_id,
{
}

} // verus!
