//! What the library's functions do, stated of their arguments and results alone: bytes, numbers and
//! texts, with nothing of how a function is written or specified.
//!
//! Each law speaks of calls: `call_ensures(f, (a, b), r)` says that `f` was called with `a` and `b`
//! and gave `r`.

pub mod changes;
pub mod clients;
pub mod connections;
pub mod conversations;
pub mod departures;
pub mod frames;
pub mod keys;
pub mod limits;
pub mod mesh;
pub mod numbers;
pub mod pages;
pub mod plain;
pub mod relay;
pub mod settings;
pub mod stun;
pub mod traffic;
