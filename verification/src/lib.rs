//! A wire-compatible DERP relay: frame codec, node keys, packet routing, regional mesh,
//! STUN and the HTTP front end, with every operation stated in a contract and proved.

pub mod config;
pub mod crypto;
pub mod endpoint;
pub mod http;
pub mod index;
pub mod laws;
pub mod limiter;
pub mod mesh;
pub mod metrics;
pub mod protocol;
pub mod queue;
pub mod relay;
pub mod server;
pub mod stun;
pub mod text;
pub mod wire;

pub use crypto::{NodeKey, NodeKeyPair};
pub use protocol::{Frame, FrameType};
pub use relay::Relay;
