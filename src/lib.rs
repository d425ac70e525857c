//! Passive TCP stream capture for attack-defense traffic inspection:
//! watched-port registry, frame decoding, per-conversation stream tracking
//! with TTL reaping, and regex-rule highlighting of payloads.
use vstd::prelude::*;

pub mod clock;
pub mod decode;
pub mod domain;
pub mod handler;
pub mod highlight;
pub mod ports;
pub mod rules;
pub mod sniffer;
pub mod store;
pub mod types;

verus! {

} // verus!
