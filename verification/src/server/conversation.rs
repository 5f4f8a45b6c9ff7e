//! The order of a client's connection: who is greeted, when it joins, when it is welcomed, and
//! that it leaves.
//!
//! The caller performs each action and hands back what came of it.

use tokio::sync::mpsc::Receiver;
use vstd::prelude::*;

use crate::crypto::{box_public, KeyError, NodeKey, NodeKeyPair};
use crate::endpoint::Endpoint;
use crate::protocol::{ClientInfo, Frame, FrameView};
use crate::queue::{queue_behind, reads};
use crate::relay::model::RelayView;
use crate::relay::{Relay, SessionId};
use crate::server::{
    applicant, check_admission, greeting, has_room, identified, identify, is_member, join, refusal,
    rejection_counted, welcome, welcomes, AdmissionReply, HandshakeError, Refusal,
};

verus! {

/// How far a client's connection has come.
#[derive(Clone, Copy)]
pub enum Stage {
    /// Nothing was said.
    Fresh,
    /// The server's key is being written.
    Greeting,
    /// The client's info is awaited.
    Greeted,
    /// The client has proved its key; its info is being read.
    Identified { client: NodeKey },
    /// The client asks to join.
    Applying { client: NodeKey, info: ClientInfo },
    /// The client has joined; the server's info is being put together.
    Joined { client: NodeKey, session: SessionId },
    /// The server's info is being written.
    Welcoming { session: SessionId },
    /// Frames are exchanged.
    Serving { session: SessionId },
    /// The connection is over.
    Ended,
}

impl Stage {
    /// The connection that the relay knows, from joining to leaving.
    pub open spec fn session(self) -> Option<SessionId> {
        match self {
            Stage::Joined { session, .. } => Some(session),
            Stage::Welcoming { session } => Some(session),
            Stage::Serving { session } => Some(session),
            _ => None,
        }
    }
}

/// What happened on a client's connection.
pub enum Event {
    /// It was accepted.
    Accepted,
    /// What was to be written was written.
    Written,
    /// The first frame was read.
    FirstFrame(Frame),
    /// The client's info was understood.
    Info(ClientInfo),
    /// The admission controller replied.
    Reply(AdmissionReply),
    /// The server's info was put together.
    OwnInfo(Vec<u8>),
    /// It ended, or something went wrong on it.
    Over,
}

/// What a client's connection fails of.
#[derive(Clone, Copy, Debug, PartialEq, Eq)]
pub enum Fault {
    Handshake(HandshakeError),
    Refused(Refusal),
    /// The relay takes no further connection.
    NoRoom,
    Seal(KeyError),
    /// What happened has no place at this stage.
    OutOfTurn,
}

/// What is done next on a client's connection.
pub enum Action {
    /// This frame is written.
    Write(Frame),
    /// The client's first frame is read.
    ReadFirstFrame,
    /// The client's info is read from this text.
    ReadInfo(Vec<u8>),
    /// The admission controller is asked whether the client may join.
    AskAdmission(NodeKey),
    /// Nobody is asked: the client is a mesh member.
    AskNobody,
    /// The server's info is put together. The client's frames come out of this queue.
    PutInfoTogether(Receiver<Frame>),
    /// Frames are exchanged.
    Serve(SessionId),
    /// The connection is closed.
    Close,
    /// The connection is closed because of a fault.
    Fail(Fault),
}

/// A client's connection, from being accepted to its end.
pub struct Conversation {
    pub stage: Stage,
    pub remote: Endpoint,
    pub not_ideal: bool,
    /// Whether clients join where the admission controller cannot be reached.
    pub fail_open: bool,
}

/// Whether `post` is the relay after a connection left and was released; nothing changes where it
/// has not joined.
pub open spec fn left(v: RelayView, post: RelayView, session: Option<SessionId>) -> bool {
    match session {
        None => post == v,
        Some(id) => exists|mid: RelayView| #[trigger]
            v.unregistered(mid, id) && post == mid.released(id),
    }
}

/// Whether the connection failed of this, and left.
pub open spec fn failed(
    c: Conversation,
    v: RelayView,
    d: Conversation,
    post: RelayView,
    r: Action,
    fault: Fault,
) -> bool {
    &&& r == Action::Fail(fault)
    &&& d.stage == Stage::Ended
    &&& left(v, post, c.stage.session())
}

/// Whether a client's request to join came to this.
pub open spec fn applied(
    c: Conversation,
    v: RelayView,
    client: NodeKey,
    info: ClientInfo,
    reply: AdmissionReply,
    now: u64,
    d: Conversation,
    post: RelayView,
    r: Action,
) -> bool {
    match refusal(is_member(v, info), reply, c.fail_open) {
        Some(e) => {
            &&& r == Action::Fail(Fault::Refused(e))
            &&& d.stage == Stage::Ended
            &&& post == if e == Refusal::Rejected {
                rejection_counted(v)
            } else {
                v
            }
        },
        None => if has_room(v) {
            &&& r matches Action::PutInfoTogether(rx) && {
                &&& reads(rx) == Seq::<Option<FrameView>>::empty()
                &&& v.registered(
                    post,
                    applicant(v, client@, info, c.remote, c.not_ideal, queue_behind(rx)),
                    now,
                )
            }
            &&& d.stage == (Stage::Joined { client, session: v.next_id })
        } else {
            failed(c, v, d, post, r, Fault::NoRoom)
        },
    }
}

/// Whether a turn of a connection came to this: where it stands after the event, what the relay
/// became, and what is done next.
pub open spec fn turned(
    c: Conversation,
    v: RelayView,
    key: NodeKeyPair,
    event: Event,
    now: u64,
    d: Conversation,
    post: RelayView,
    r: Action,
) -> bool {
    &&& d == Conversation { stage: d.stage, ..c }
    &&& match (c.stage, event) {
        (Stage::Fresh, Event::Accepted) => {
            &&& d.stage == Stage::Greeting
            &&& post == v
            &&& r matches Action::Write(f) && f@ == FrameView::ServerKey(box_public(key.secret()))
        },
        (Stage::Greeting, Event::Written) => {
            &&& d.stage == Stage::Greeted
            &&& post == v
            &&& r == Action::ReadFirstFrame
        },
        (Stage::Greeted, Event::FirstFrame(frame)) => match identified(key.secret(), frame@) {
            Ok((client, text)) => {
                &&& d.stage matches Stage::Identified { client: k } && k@ == client
                &&& post == v
                &&& r matches Action::ReadInfo(t) && t@ == text
            },
            Err(e) => failed(c, v, d, post, r, Fault::Handshake(e)),
        },
        (Stage::Identified { client }, Event::Info(info)) => {
            &&& d.stage == (Stage::Applying { client, info })
            &&& post == v
            &&& r == if is_member(v, info) {
                Action::AskNobody
            } else {
                Action::AskAdmission(client)
            }
        },
        (Stage::Applying { client, info }, Event::Reply(reply)) => applied(
            c,
            v,
            client,
            info,
            reply,
            now,
            d,
            post,
            r,
        ),
        (Stage::Joined { client, session }, Event::OwnInfo(text)) => {
            &&& d.stage == (Stage::Welcoming { session })
            &&& post == v
            &&& r matches Action::Write(f) && welcomes(f@, key.secret(), client@, text@)
        },
        (Stage::Welcoming { session }, Event::Written) => {
            &&& d.stage == (Stage::Serving { session })
            &&& post == v
            &&& r == Action::Serve(session)
        },
        (_, Event::Over) => {
            &&& d.stage == Stage::Ended
            &&& left(v, post, c.stage.session())
            &&& r == Action::Close
        },
        _ => failed(c, v, d, post, r, Fault::OutOfTurn),
    }
}

impl Conversation {
    /// A connection on which nothing was said.
    pub fn new(remote: Endpoint, not_ideal: bool, fail_open: bool) -> (r: Conversation)
        ensures
            r == (Conversation { stage: Stage::Fresh, remote, not_ideal, fail_open }),
    {
        Conversation { stage: Stage::Fresh, remote, not_ideal, fail_open }
    }

    /// The relay lets go of the connection, where it has joined.
    fn leave(&mut self, relay: &mut Relay)
        requires
            old(relay).wf(),
        ensures
            final(relay).wf(),
            *final(self) == (Conversation { stage: Stage::Ended, ..*old(self) }),
            left(old(relay)@, final(relay)@, old(self).stage.session()),
    {
        let session: Option<SessionId> = match self.stage {
            Stage::Joined { session, .. } => Some(session),
            Stage::Welcoming { session } => Some(session),
            Stage::Serving { session } => Some(session),
            _ => None,
        };
        self.stage = Stage::Ended;
        if let Some(id) = session {
            let ghost v = relay@;
            relay.unregister(id);
            let ghost mid = relay@;
            relay.release(id);
            proof {
                assert(v.unregistered(mid, id));
            }
        }
    }

    /// Takes the connection one step further after something happened on it.
    pub fn turn(&mut self, relay: &mut Relay, key: &NodeKeyPair, event: Event, now: u64) -> (r:
        Action)
        requires
            old(relay).wf(),
        ensures
            final(relay).wf(),
            turned(
                *old(self),
                old(relay)@,
                *key,
                event,
                now,
                *final(self),
                final(relay)@,
                r,
            ),
    {
        match (self.stage, event) {
            (Stage::Fresh, Event::Accepted) => {
                self.stage = Stage::Greeting;
                Action::Write(greeting(key))
            },
            (Stage::Greeting, Event::Written) => {
                self.stage = Stage::Greeted;
                Action::ReadFirstFrame
            },
            (Stage::Greeted, Event::FirstFrame(frame)) => match identify(key, frame) {
                Ok(id) => {
                    self.stage = Stage::Identified { client: id.client };
                    Action::ReadInfo(id.info_text)
                },
                Err(e) => {
                    self.leave(relay);
                    Action::Fail(Fault::Handshake(e))
                },
            },
            (Stage::Identified { client }, Event::Info(info)) => {
                self.stage = Stage::Applying { client, info };
                if relay.is_mesh_key(info.mesh_key) {
                    Action::AskNobody
                } else {
                    Action::AskAdmission(client)
                }
            },
            (Stage::Applying { client, info }, Event::Reply(reply)) => {
                let can_mesh = relay.is_mesh_key(info.mesh_key);
                if check_admission(can_mesh, reply, self.fail_open).is_ok() && !relay.has_room() {
                    self.leave(relay);
                    return Action::Fail(Fault::NoRoom);
                }
                let joined = join(
                    relay,
                    client,
                    info,
                    reply,
                    self.fail_open,
                    self.remote,
                    self.not_ideal,
                    now,
                );
                match joined {
                    Ok(registered) => {
                        self.stage = Stage::Joined { client, session: registered.handle };
                        Action::PutInfoTogether(registered.rx)
                    },
                    Err(e) => {
                        self.stage = Stage::Ended;
                        Action::Fail(Fault::Refused(e))
                    },
                }
            },
            (Stage::Joined { client, session }, Event::OwnInfo(text)) => {
                match welcome(key, client, text.as_slice()) {
                    Ok(frame) => {
                        self.stage = Stage::Welcoming { session };
                        Action::Write(frame)
                    },
                    Err(e) => {
                        self.leave(relay);
                        Action::Fail(Fault::Seal(e))
                    },
                }
            },
            (Stage::Welcoming { session }, Event::Written) => {
                self.stage = Stage::Serving { session };
                Action::Serve(session)
            },
            (_, Event::Over) => {
                self.leave(relay);
                Action::Close
            },
            _ => {
                self.leave(relay);
                Action::Fail(Fault::OutOfTurn)
            },
        }
    }
}

/// One turn of a connection. Between turns, others may change the relay.
pub struct Turn {
    pub event: Event,
    pub now: u64,
    pub before: RelayView,
    pub after: RelayView,
    pub action: Action,
}

/// Whether these turns lead a connection from each of these states to the next, from the start.
pub open spec fn is_talk(states: Seq<Conversation>, turns: Seq<Turn>, key: NodeKeyPair) -> bool {
    &&& states.len() == turns.len() + 1
    &&& states[0].stage == Stage::Fresh
    &&& forall|i: int|
        0 <= i < turns.len() ==> turned(
            #[trigger] states[i],
            turns[i].before,
            key,
            turns[i].event,
            turns[i].now,
            states[i + 1],
            turns[i].after,
            turns[i].action,
        )
}

/// Whether a client joined the relay in this turn.
pub open spec fn joins(c: Conversation, d: Conversation) -> bool {
    c.stage.session() is None && d.stage.session() is Some
}

/// Whether a client left the relay in this turn.
pub open spec fn leaves(c: Conversation, d: Conversation) -> bool {
    c.stage.session() is Some && d.stage.session() is None
}

/// How often a client joined in the first turns.
pub open spec fn joined_in(states: Seq<Conversation>, n: nat) -> nat
    decreases n,
{
    if n == 0 {
        0
    } else {
        joined_in(states, (n - 1) as nat) + (if joins(states[n - 1], states[n as int]) {
            1nat
        } else {
            0nat
        })
    }
}

/// How often a client left in the first turns.
pub open spec fn left_in(states: Seq<Conversation>, n: nat) -> nat
    decreases n,
{
    if n == 0 {
        0
    } else {
        left_in(states, (n - 1) as nat) + (if leaves(states[n - 1], states[n as int]) {
            1nat
        } else {
            0nat
        })
    }
}

/// The relay registers a connection in the turn in which the client joins, lets go of it in the
/// turn in which it leaves, and in every other turn is left alone, but that a rejected client is
/// counted. The connection is the same from joining to leaving.
pub proof fn law_turns_register_and_unregister(
    c: Conversation,
    v: RelayView,
    key: NodeKeyPair,
    event: Event,
    now: u64,
    d: Conversation,
    post: RelayView,
    r: Action,
)
    requires
        turned(c, v, key, event, now, d, post, r),
    ensures
        joins(c, d) ==> d.stage.session() == Some(v.next_id) && (c.stage matches Stage::Applying {
            client,
            info,
        } && r matches Action::PutInfoTogether(rx) && v.registered(
            post,
            applicant(v, client@, info, c.remote, c.not_ideal, queue_behind(rx)),
            now,
        )),
        leaves(c, d) ==> left(v, post, c.stage.session()),
        !joins(c, d) && !leaves(c, d) ==> (post == v || (post == rejection_counted(v) && r
            == Action::Fail(Fault::Refused(Refusal::Rejected)))) && d.stage.session()
            == c.stage.session(),
{
}

/// The server's info is written only on a connection that has joined, and frames are exchanged
/// only after it was written.
pub proof fn law_info_follows_joining(
    c: Conversation,
    v: RelayView,
    key: NodeKeyPair,
    event: Event,
    now: u64,
    d: Conversation,
    post: RelayView,
    r: Action,
)
    requires
        turned(c, v, key, event, now, d, post, r),
    ensures
        r matches Action::Write(f) && f@ is ServerInfo ==> c.stage is Joined && d.stage
            == (Stage::Welcoming { session: c.stage.session()->0 }),
        d.stage is Welcoming ==> (r matches Action::Write(f) && f@ is ServerInfo),
        d.stage is Serving ==> c.stage is Welcoming && event is Written && d.stage.session()
            == c.stage.session(),
        r matches Action::Serve(session) ==> d.stage == (Stage::Serving { session }),
{
}

/// Where a connection stands that has not joined yet.
spec fn before_joining(stage: Stage) -> bool {
    ||| stage is Fresh
    ||| stage is Greeting
    ||| stage is Greeted
    ||| stage is Identified
    ||| stage is Applying
}

proof fn lemma_balance(states: Seq<Conversation>, turns: Seq<Turn>, key: NodeKeyPair, n: nat)
    requires
        is_talk(states, turns, key),
        n < states.len(),
    ensures
        joined_in(states, n) == left_in(states, n) + (if states[n as int].stage.session() is Some {
            1nat
        } else {
            0nat
        }),
        joined_in(states, n) <= 1,
        before_joining(states[n as int].stage) ==> joined_in(states, n) == 0,
    decreases n,
{
    if n > 0 {
        let m = n - 1;
        lemma_balance(states, turns, key, m as nat);
        assert(turned(
            states[m],
            turns[m].before,
            key,
            turns[m].event,
            turns[m].now,
            states[m + 1],
            turns[m].after,
            turns[m].action,
        ));
    }
}

/// However a connection goes, its client joins once at most, and has left as often as it joined
/// once the connection is over: no connection is left behind in the relay, and none leaves twice.
pub proof fn law_every_join_is_left(
    states: Seq<Conversation>,
    turns: Seq<Turn>,
    key: NodeKeyPair,
)
    requires
        is_talk(states, turns, key),
    ensures
        joined_in(states, turns.len()) <= 1,
        left_in(states, turns.len()) <= joined_in(states, turns.len()),
        states.last().stage is Ended ==> left_in(states, turns.len()) == joined_in(
            states,
            turns.len(),
        ),
{
    lemma_balance(states, turns, key, turns.len());
}

/// A connection that is over stays so.
pub proof fn law_over_is_over(
    c: Conversation,
    v: RelayView,
    key: NodeKeyPair,
    event: Event,
    now: u64,
    d: Conversation,
    post: RelayView,
    r: Action,
)
    requires
        turned(c, v, key, event, now, d, post, r),
        c.stage is Ended,
    ensures
        d.stage is Ended,
        post == v,
{
}

} // verus!
