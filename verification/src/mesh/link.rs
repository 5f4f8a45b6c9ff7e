//! The order of a connection to a mesh peer: what is said and expected in turn, and that its routes
//! are forgotten when it ends.
//!
//! The caller performs each action and hands back what came of it.

use vstd::prelude::*;
use vstd::string::*;

use crate::crypto::{KeyError, NodeKey, NodeKeyPair};
use crate::mesh::{
    check_upgrade, expect_server_info, expect_server_key, introduce, introduces, upgrade_fault,
    MeshError,
};
use crate::protocol::{Frame, FrameView};
use crate::relay::model::RelayView;
use crate::relay::Relay;

verus! {

/// How far the connection to a mesh peer has come.
#[derive(Clone, Copy)]
pub enum LinkStage {
    /// Nothing was said.
    Fresh,
    /// DERP was asked for; the answer is awaited.
    Asked,
    /// DERP was granted; the peer's key is awaited.
    Granted,
    /// The peer is known; this server's info is being put together.
    Greeted { peer: NodeKey },
    /// This server's info is being written.
    Introducing,
    /// The peer's info is awaited.
    Introduced,
    /// The peer is being asked to tell who comes and goes there.
    Subscribing,
    /// Frames are exchanged.
    Up,
    /// The connection is over.
    Ended,
}

/// What happened on the connection to a mesh peer.
pub enum LinkEvent {
    /// The peer was reached.
    Connected,
    /// The head of its answer was read.
    Answer(Vec<u8>),
    /// A frame was read.
    Read(Frame),
    /// This server's info was put together.
    OwnInfo(Vec<u8>),
    /// What was to be written was written.
    Written,
    /// It ended, or something went wrong on it.
    Over,
}

/// What the connection to a mesh peer fails of.
pub enum LinkFault {
    /// The upgrade was not granted.
    Upgrade(String),
    Handshake(MeshError),
    Seal(KeyError),
    /// What happened has no place at this stage.
    OutOfTurn,
}

/// What is done next on the connection to a mesh peer.
pub enum LinkAction {
    /// The peer is asked for DERP, and the head of its answer read.
    Ask,
    /// The peer's first frame is read: who it is.
    ReadKey,
    /// This server's info is put together.
    PutInfoTogether,
    /// This frame is written.
    Write(Frame),
    /// The peer's second frame is read: its info.
    ReadInfo,
    /// Frames are exchanged.
    Serve,
    /// The connection is closed.
    Close,
    /// The connection is closed because of a fault.
    Fail(LinkFault),
}

/// The connection to a mesh peer, from being reached to its end.
pub struct Link {
    pub stage: LinkStage,
    /// The number under which its routes are known.
    pub mesh_id: u64,
}

/// The relay after the connection ended: where frames were exchanged, its routes are forgotten.
pub open spec fn unlinked(l: Link, v: RelayView) -> RelayView {
    if l.stage is Up {
        v.mesh_removed(l.mesh_id)
    } else {
        v
    }
}

/// Whether the connection failed.
pub open spec fn link_failed(
    l: Link,
    v: RelayView,
    m: Link,
    post: RelayView,
    r: LinkAction,
) -> bool {
    &&& r is Fail
    &&& m.stage == LinkStage::Ended
    &&& post == unlinked(l, v)
}

/// Whether a turn of the connection came to this: where it stands after the event, what the relay
/// became, and what is done next.
pub open spec fn link_turned(
    l: Link,
    v: RelayView,
    key: NodeKeyPair,
    event: LinkEvent,
    m: Link,
    post: RelayView,
    r: LinkAction,
) -> bool {
    &&& m.mesh_id == l.mesh_id
    &&& match (l.stage, event) {
        (LinkStage::Fresh, LinkEvent::Connected) => {
            &&& m.stage == LinkStage::Asked
            &&& post == v
            &&& r == LinkAction::Ask
        },
        (LinkStage::Asked, LinkEvent::Answer(data)) => match upgrade_fault(data@) {
            None => {
                &&& m.stage == LinkStage::Granted
                &&& post == v
                &&& r == LinkAction::ReadKey
            },
            Some(text) => {
                &&& link_failed(l, v, m, post, r)
                &&& r matches LinkAction::Fail(LinkFault::Upgrade(e)) && e@ == text
            },
        },
        (LinkStage::Granted, LinkEvent::Read(frame)) => match frame@ {
            FrameView::ServerKey(peer) => {
                &&& m.stage matches LinkStage::Greeted { peer: k } && k@ == peer
                &&& post == v
                &&& r == LinkAction::PutInfoTogether
            },
            _ => {
                &&& link_failed(l, v, m, post, r)
                &&& r == LinkAction::Fail(LinkFault::Handshake(MeshError::NoServerKey))
            },
        },
        (LinkStage::Greeted { peer }, LinkEvent::OwnInfo(text)) => {
            &&& m.stage == LinkStage::Introducing
            &&& post == v
            &&& r matches LinkAction::Write(f) && introduces(f@, key.secret(), peer@, text@)
        },
        (LinkStage::Introducing, LinkEvent::Written) => {
            &&& m.stage == LinkStage::Introduced
            &&& post == v
            &&& r == LinkAction::ReadInfo
        },
        (LinkStage::Introduced, LinkEvent::Read(frame)) => if frame@ is ServerInfo {
            &&& m.stage == LinkStage::Subscribing
            &&& post == v
            &&& r == LinkAction::Write(Frame::WatchConns)
        } else {
            &&& link_failed(l, v, m, post, r)
            &&& r == LinkAction::Fail(LinkFault::Handshake(MeshError::NoServerInfo))
        },
        (LinkStage::Subscribing, LinkEvent::Written) => {
            &&& m.stage == LinkStage::Up
            &&& post == v
            &&& r == LinkAction::Serve
        },
        (_, LinkEvent::Over) => {
            &&& m.stage == LinkStage::Ended
            &&& post == unlinked(l, v)
            &&& r == LinkAction::Close
        },
        _ => {
            &&& link_failed(l, v, m, post, r)
            &&& r == LinkAction::Fail(LinkFault::OutOfTurn)
        },
    }
}

impl Link {
    /// A connection on which nothing was said.
    pub fn new(mesh_id: u64) -> (r: Link)
        ensures
            r == (Link { stage: LinkStage::Fresh, mesh_id }),
    {
        Link { stage: LinkStage::Fresh, mesh_id }
    }

    /// The connection is over: where frames were exchanged, its routes are forgotten.
    fn end(&mut self, relay: &mut Relay)
        requires
            old(relay).wf(),
        ensures
            final(relay).wf(),
            final(relay)@ == unlinked(*old(self), old(relay)@),
            *final(self) == (Link { stage: LinkStage::Ended, ..*old(self) }),
    {
        match self.stage {
            LinkStage::Up => {
                relay.remove_mesh(self.mesh_id);
            },
            _ => {},
        }
        self.stage = LinkStage::Ended;
    }

    /// Takes the connection one step further after something happened on it.
    pub fn turn(&mut self, relay: &mut Relay, key: &NodeKeyPair, event: LinkEvent) -> (r:
        LinkAction)
        requires
            old(relay).wf(),
        ensures
            final(relay).wf(),
            link_turned(*old(self), old(relay)@, *key, event, *final(self), final(relay)@, r),
    {
        match (self.stage, event) {
            (LinkStage::Fresh, LinkEvent::Connected) => {
                self.stage = LinkStage::Asked;
                LinkAction::Ask
            },
            (LinkStage::Asked, LinkEvent::Answer(data)) => match check_upgrade(data.as_slice()) {
                Ok(()) => {
                    self.stage = LinkStage::Granted;
                    LinkAction::ReadKey
                },
                Err(e) => {
                    self.end(relay);
                    LinkAction::Fail(LinkFault::Upgrade(e))
                },
            },
            (LinkStage::Granted, LinkEvent::Read(frame)) => match expect_server_key(frame) {
                Ok(peer) => {
                    self.stage = LinkStage::Greeted { peer };
                    LinkAction::PutInfoTogether
                },
                Err(e) => {
                    self.end(relay);
                    LinkAction::Fail(LinkFault::Handshake(e))
                },
            },
            (LinkStage::Greeted { peer }, LinkEvent::OwnInfo(text)) => {
                match introduce(key, peer, text.as_slice()) {
                    Ok(frame) => {
                        self.stage = LinkStage::Introducing;
                        LinkAction::Write(frame)
                    },
                    Err(e) => {
                        self.end(relay);
                        LinkAction::Fail(LinkFault::Seal(e))
                    },
                }
            },
            (LinkStage::Introducing, LinkEvent::Written) => {
                self.stage = LinkStage::Introduced;
                LinkAction::ReadInfo
            },
            (LinkStage::Introduced, LinkEvent::Read(frame)) => match expect_server_info(frame) {
                Ok(()) => {
                    self.stage = LinkStage::Subscribing;
                    LinkAction::Write(Frame::WatchConns)
                },
                Err(e) => {
                    self.end(relay);
                    LinkAction::Fail(LinkFault::Handshake(e))
                },
            },
            (LinkStage::Subscribing, LinkEvent::Written) => {
                self.stage = LinkStage::Up;
                LinkAction::Serve
            },
            (_, LinkEvent::Over) => {
                self.end(relay);
                LinkAction::Close
            },
            _ => {
                self.end(relay);
                LinkAction::Fail(LinkFault::OutOfTurn)
            },
        }
    }
}

/// A mesh peer is asked to tell who comes and goes only once it has sent its info, and frames are
/// exchanged only after that was written.
pub proof fn law_watching_follows_the_peers_info(
    l: Link,
    v: RelayView,
    key: NodeKeyPair,
    event: LinkEvent,
    m: Link,
    post: RelayView,
    r: LinkAction,
)
    requires
        link_turned(l, v, key, event, m, post, r),
    ensures
        r matches LinkAction::Write(f) && f@ is WatchConns ==> l.stage is Introduced && (
        event matches LinkEvent::Read(info) && info@ is ServerInfo) && m.stage is Subscribing,
        m.stage is Subscribing ==> (r matches LinkAction::Write(f) && f@ is WatchConns),
        m.stage is Up ==> l.stage is Subscribing && event is Written && r is Serve,
        r is Serve ==> m.stage is Up,
{
}

/// The relay is left alone until frames are exchanged; when such a connection ends, however it
/// ends, its routes are forgotten, and no route leads through it from then on.
pub proof fn law_routes_end_with_the_link(
    l: Link,
    v: RelayView,
    key: NodeKeyPair,
    event: LinkEvent,
    m: Link,
    post: RelayView,
    r: LinkAction,
)
    requires
        link_turned(l, v, key, event, m, post, r),
    ensures
        l.stage is Up ==> m.stage is Ended && post == v.mesh_removed(l.mesh_id),
        !(l.stage is Up) ==> post == v,
        l.stage is Ended ==> m.stage is Ended,
{
}

} // verus!
