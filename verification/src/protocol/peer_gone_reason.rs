//! Why a peer is gone, as a `PeerGone` frame says it.

use vstd::prelude::*;

verus! {

/// The peer's last connection to this server ended.
pub const DISCONNECTED: u8 = 0x00;

/// The server does not know the peer.
pub const NOT_HERE: u8 = 0x01;

} // verus!
