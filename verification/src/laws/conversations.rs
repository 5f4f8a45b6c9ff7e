//! The turns that a client's connection takes.

use vstd::prelude::*;

use crate::crypto::{box_opened, box_public, box_sealed, NodeKey, NodeKeyPair};
use crate::endpoint::Endpoint;
use crate::laws::clients::knows_the_key;
use crate::laws::connections::{joins, lemma_joins};
use crate::laws::departures::{leaves, lemma_leaves};
use crate::laws::plain::{from, part};
use crate::laws::traffic::up;
use crate::metrics::Metrics;
use crate::protocol::{ClientInfo, Frame};
use crate::queue::{queue_behind, reads};
use crate::relay::model::{Joining, RelayView};
use crate::relay::Relay;
use crate::server::conversation::{Action, Conversation, Event, Fault, Stage};
use crate::server::{
    applicant, check_admission, is_member, AdmissionReply, HandshakeError, Refusal,
};
use crate::wire::bytes_view;

verus! {

/// The number of the connection in the relay, from joining to leaving.
pub open spec fn number_of(stage: Stage) -> Option<u64> {
    match stage {
        Stage::Joined { session, .. } => Some(session),
        Stage::Welcoming { session } => Some(session),
        Stage::Serving { session } => Some(session),
        _ => None,
    }
}

/// Whether a connection is over, and gone from the relay where it had joined.
pub open spec fn is_over(c: Conversation, a: RelayView, d: Conversation, b: RelayView) -> bool {
    &&& d.stage is Ended
    &&& match number_of(c.stage) {
        None => b == a,
        Some(id) => a.sessions.contains_key(id) && a.sessions[id].connected ==> exists|
            mid: RelayView,
        | #[trigger]
            leaves(a, mid, id) && b == (RelayView { sessions: mid.sessions.remove(id), ..mid }),
    }
}

proof fn lemma_over(c: Conversation, a: RelayView, d: Conversation, b: RelayView)
    requires
        a.wf(),
        d.stage is Ended,
        crate::server::conversation::left(a, b, c.stage.session()),
    ensures
        is_over(c, a, d, b),
{
    if let Some(id) = number_of(c.stage) {
        if a.sessions.contains_key(id) && a.sessions[id].connected {
            let mid = choose|mid: RelayView| #[trigger]
                a.unregistered(mid, id) && b == mid.released(id);
            lemma_leaves(a, mid, id);
            assert(leaves(a, mid, id) && b == (RelayView {
                sessions: mid.sessions.remove(id),
                ..mid
            }));
        }
    }
}

/// Whether an event has its place at a stage.
pub open spec fn in_turn(stage: Stage, e: Event) -> bool {
    match (stage, e) {
        (Stage::Fresh, Event::Accepted) => true,
        (Stage::Greeting, Event::Written) => true,
        (Stage::Greeted, Event::FirstFrame(_)) => true,
        (Stage::Identified { .. }, Event::Info(_)) => true,
        (Stage::Applying { .. }, Event::Reply(_)) => true,
        (Stage::Joined { .. }, Event::OwnInfo(_)) => true,
        (Stage::Welcoming { .. }, Event::Written) => true,
        _ => false,
    }
}

/// A connection begins with nothing said.
pub proof fn law_new_conversations(remote: Endpoint, not_ideal: bool, open: bool, r: Conversation)
    requires
        call_ensures(Conversation::new, (remote, not_ideal, open), r),
    ensures
        r.stage is Fresh,
        r.remote == remote,
        r.not_ideal == not_ideal,
        r.fail_open == open,
{
}

/// A client is greeted with the server's key, its first frame is read, and a client that has been
/// welcomed is served. What happens out of turn, or at the end, ends the connection, and the relay
/// lets go of it where it had joined.
#[verifier::rlimit(40)]
pub proof fn law_conversations_take_turns(
    c: &mut Conversation,
    relay: &mut Relay,
    key: NodeKeyPair,
    e: Event,
    now: u64,
    r: Action,
)
    requires
        call_ensures(Conversation::turn, (c, relay, &key, e, now), r),
        old(relay).wf(),
    ensures
        final(c).remote == old(c).remote,
        final(c).not_ideal == old(c).not_ideal,
        final(c).fail_open == old(c).fail_open,
        old(c).stage is Fresh && e is Accepted ==> {
            &&& final(c).stage is Greeting
            &&& final(relay)@ == old(relay)@
            &&& r matches Action::Write(f) && f matches Frame::ServerKey(k) && k@ == box_public(
                key.secret(),
            )
        },
        old(c).stage is Greeting && e is Written ==> {
            &&& final(c).stage is Greeted
            &&& final(relay)@ == old(relay)@
            &&& r is ReadFirstFrame
        },
        old(c).stage matches Stage::Welcoming { session } ==> e is Written ==> {
            &&& final(c).stage == (Stage::Serving { session })
            &&& final(relay)@ == old(relay)@
            &&& r == Action::Serve(session)
        },
        e is Over ==> r is Close && is_over(*old(c), old(relay)@, *final(c), final(relay)@),
        e !is Over && !in_turn(old(c).stage, e) ==> r == Action::Fail(Fault::OutOfTurn) && is_over(
            *old(c),
            old(relay)@,
            *final(c),
            final(relay)@,
        ),
{
    if e is Over || !in_turn(old(c).stage, e) {
        lemma_over(*old(c), old(relay)@, *final(c), final(relay)@);
    }
}

/// A client's first frame proves its key or ends the connection.
pub proof fn law_conversations_identify(
    c: &mut Conversation,
    relay: &mut Relay,
    key: NodeKeyPair,
    f: Frame,
    now: u64,
    r: Action,
)
    requires
        call_ensures(Conversation::turn, (c, relay, &key, Event::FirstFrame(f), now), r),
        old(c).stage is Greeted,
        old(relay).wf(),
    ensures
        final(relay)@ == old(relay)@,
        f !is ClientInfo ==> final(c).stage is Ended && r == Action::Fail(
            Fault::Handshake(HandshakeError::NotClientInfo),
        ),
        f matches Frame::ClientInfo { key: client, sealed } ==> {
            let s = bytes_view(sealed);
            let text = box_opened(key.secret(), client@, part(s, 0, 24), from(s, 24));
            if s.len() < 24 || text is None {
                final(c).stage is Ended && r == Action::Fail(
                    Fault::Handshake(HandshakeError::InvalidProof),
                )
            } else if text->0.len() > 262144 {
                final(c).stage is Ended && r == Action::Fail(
                    Fault::Handshake(HandshakeError::InfoTooLarge),
                )
            } else {
                &&& final(c).stage matches Stage::Identified { client: k } && k@ == client@
                &&& r matches Action::ReadInfo(t) && t@ == text->0
            }
        },
{
}

/// The admission controller is asked about every client but mesh members.
pub proof fn law_conversations_ask(
    c: &mut Conversation,
    relay: &mut Relay,
    key: NodeKeyPair,
    info: ClientInfo,
    now: u64,
    r: Action,
    client: NodeKey,
)
    requires
        call_ensures(Conversation::turn, (c, relay, &key, Event::Info(info), now), r),
        old(c).stage == (Stage::Identified { client }),
    ensures
        final(c).stage == (Stage::Applying { client, info }),
        final(relay)@ == old(relay)@,
        knows_the_key(old(relay)@, info) ==> r is AskNobody,
        !knows_the_key(old(relay)@, info) ==> r == Action::AskAdmission(client),
{
    assert(is_member(old(relay)@, info) == knows_the_key(old(relay)@, info));
}

/// A client that is admitted joins, where there is room; one that is not, is not let in, and only a
/// controller's no is counted.
#[verifier::rlimit(40)]
pub proof fn law_conversations_admit(
    c: &mut Conversation,
    relay: &mut Relay,
    key: NodeKeyPair,
    reply: AdmissionReply,
    now: u64,
    r: Action,
    client: NodeKey,
    info: ClientInfo,
    answer: Result<(), Refusal>,
    room: bool,
)
    requires
        call_ensures(Conversation::turn, (c, relay, &key, Event::Reply(reply), now), r),
        old(c).stage == (Stage::Applying { client, info }),
        call_ensures(
            check_admission,
            (knows_the_key(old(relay)@, info), reply, old(c).fail_open),
            answer,
        ),
        room == (old(relay)@.next_id < u64::MAX && old(relay)@.queue_depth <= usize::MAX / 8),
        old(relay).wf(),
    ensures
        answer is Ok && room ==> {
            &&& final(c).stage == (Stage::Joined { client, session: old(relay)@.next_id })
            &&& r matches Action::PutInfoTogether(rx) && reads(rx).len() == 0 && joins(
                old(relay)@,
                final(relay)@,
                Joining {
                    key: client@,
                    endpoint: old(c).remote@,
                    can_mesh: knows_the_key(old(relay)@, info),
                    can_ack_pings: info.can_ack_pings,
                    is_prober: info.is_prober,
                    not_ideal: old(c).not_ideal,
                    queue: queue_behind(rx),
                },
                now,
            )
        },
        answer is Ok && !room ==> final(c).stage is Ended && r == Action::Fail(Fault::NoRoom)
            && final(relay)@ == old(relay)@,
        answer matches Err(e) ==> final(c).stage is Ended && r == Action::Fail(Fault::Refused(e)),
        answer matches Err(e) ==> if e is Rejected {
            let (m, n) = (old(relay)@.metrics, final(relay)@.metrics);
            &&& final(relay)@ == RelayView { metrics: n, ..old(relay)@ }
            &&& n == (Metrics { admission_rejected: n.admission_rejected, ..m })
            &&& up(m.admission_rejected, 1, n.admission_rejected)
        } else {
            final(relay)@ == old(relay)@
        },
{
    let v = old(relay)@;
    assert(is_member(v, info) == knows_the_key(v, info));
    if answer is Ok && room {
        if let Action::PutInfoTogether(rx) = r {
            let j = applicant(
                v,
                client@,
                info,
                old(c).remote,
                old(c).not_ideal,
                queue_behind(rx),
            );
            lemma_joins(v, final(relay)@, j, now);
        }
    }
}

/// A client that has joined is welcomed with the server's info, sealed to it.
pub proof fn law_conversations_welcome(
    c: &mut Conversation,
    relay: &mut Relay,
    key: NodeKeyPair,
    text: Vec<u8>,
    now: u64,
    r: Action,
    client: NodeKey,
    session: u64,
)
    requires
        call_ensures(Conversation::turn, (c, relay, &key, Event::OwnInfo(text), now), r),
        old(c).stage == (Stage::Joined { client, session }),
    ensures
        final(c).stage == (Stage::Welcoming { session }),
        final(relay)@ == old(relay)@,
        r matches Action::Write(f) && f matches Frame::ServerInfo(sealed) && {
            let s = bytes_view(sealed);
            &&& s.len() == 40 + text@.len()
            &&& from(s, 24) == box_sealed(key.secret(), client@, part(s, 0, 24), text@)
        },
{
}

} // verus!
