//! The bounded queue between the relay and one connection's writer.
//!
//! A sender's model is the history of what was offered through it, each frame with whether the
//! queue took it. That depends on how fast the other end reads, and on whether it is still there,
//! so no contract here promises that a frame is taken.

use tokio::sync::mpsc::{Receiver, Sender};
use vstd::prelude::*;

use crate::protocol::{Frame, FrameView};

verus! {

/// The sending end of a bounded channel of `tokio`.
#[verifier::external_type_specification]
#[verifier::external_body]
#[verifier::reject_recursive_types(T)]
pub struct ExSender<T>(tokio::sync::mpsc::Sender<T>);

/// The receiving end of a bounded channel of `tokio`.
#[verifier::external_type_specification]
#[verifier::external_body]
#[verifier::reject_recursive_types(T)]
pub struct ExReceiver<T>(tokio::sync::mpsc::Receiver<T>);

/// The frames that were offered through this handle, oldest first, each with whether it was taken.
pub uninterp spec fn offers(tx: Sender<Frame>) -> Seq<(FrameView, bool)>;

/// What came of each attempt to take a frame out through this end, oldest first: the frame, or
/// nothing where none waited.
pub uninterp spec fn reads(rx: Receiver<Frame>) -> Seq<Option<FrameView>>;

/// Which queue this handle offers to.
pub uninterp spec fn queue_of(tx: Sender<Frame>) -> int;

/// How many frames the queue behind this handle was made to hold.
pub uninterp spec fn room_of(tx: Sender<Frame>) -> nat;

/// Which queue this end takes from.
pub uninterp spec fn queue_behind(rx: Receiver<Frame>) -> int;

/// The frames among what attempts to read gave, in order.
pub open spec fn frames_in(attempts: Seq<Option<FrameView>>) -> Seq<FrameView>
    decreases attempts.len(),
{
    if attempts.len() == 0 {
        Seq::empty()
    } else {
        match attempts.last() {
            Some(f) => frames_in(attempts.drop_last()).push(f),
            None => frames_in(attempts.drop_last()),
        }
    }
}

/// The most frames that a queue can be made to hold, 2^29 - 1 on a 32-bit machine.
pub open spec fn queue_limit() -> nat {
    (usize::MAX / 8) as nat
}

/// `tokio::sync::mpsc::channel`: a queue that holds up to `depth` frames, with nothing offered or
/// read yet, and both of its ends. It panics on a depth of zero and on one over `usize::MAX >> 3`.
#[verifier::external_body]
pub(crate) fn open_queue(depth: usize) -> (r: (Sender<Frame>, Receiver<Frame>))
    requires
        0 < depth <= queue_limit(),
    ensures
        offers(r.0) == Seq::<(FrameView, bool)>::empty(),
        reads(r.1) == Seq::<Option<FrameView>>::empty(),
        queue_of(r.0) == queue_behind(r.1),
        room_of(r.0) == depth,
{
    tokio::sync::mpsc::channel(depth)
}

/// `tokio::sync::mpsc::Sender::try_send`: offers a frame and tells whether the queue took it.
#[verifier::external_body]
pub(crate) fn offer(tx: &mut Sender<Frame>, frame: Frame) -> (r: bool)
    ensures
        offers(*final(tx)) == offers(*old(tx)).push((frame@, r)),
        queue_of(*final(tx)) == queue_of(*old(tx)),
        room_of(*final(tx)) == room_of(*old(tx)),
{
    tx.try_send(frame).is_ok()
}

/// `tokio::sync::mpsc::Sender::clone`: another handle on the same queue, through which nothing was
/// offered yet.
#[verifier::external_body]
pub(crate) fn sender_handle(tx: &Sender<Frame>) -> (r: Sender<Frame>)
    ensures
        offers(r) == Seq::<(FrameView, bool)>::empty(),
        queue_of(r) == queue_of(*tx),
        room_of(r) == room_of(*tx),
{
    tx.clone()
}

/// `tokio::sync::mpsc::Receiver::try_recv`: the next frame, where one waits.
#[verifier::external_body]
pub(crate) fn take(rx: &mut Receiver<Frame>) -> (r: Option<Frame>)
    ensures
        reads(*final(rx)) == reads(*old(rx)).push(frame_view(r)),
        queue_behind(*final(rx)) == queue_behind(*old(rx)),
{
    rx.try_recv().ok()
}

/// The model of an optional frame.
pub open spec fn frame_view(frame: Option<Frame>) -> Option<FrameView> {
    match frame {
        Some(f) => Some(f@),
        None => None,
    }
}

} // verus!
