//! What kind of connection a `PeerPresent` frame announces.

use vstd::prelude::*;

verus! {

/// An ordinary client.
pub const REGULAR: u8 = 1;

/// Another server of the region.
pub const MESH: u8 = 2;

/// A monitoring probe.
pub const PROBER: u8 = 4;

/// A client for which this server is not the best one.
pub const NOT_IDEAL: u8 = 8;

} // verus!
