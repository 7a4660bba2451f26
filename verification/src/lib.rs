//! The message layer of a peer-to-peer RPC network: wire format, handshake
//! and rate limits.

pub mod buffer;
pub mod cli;
pub mod clock;
pub mod decimal;
pub mod double;
pub mod frame;
pub mod greeter;
pub mod handshake;
pub mod inbound_rate_limit;
pub mod ip_map;
pub mod message;
pub mod rate_limit;
pub mod rounding;
pub mod token_bucket;
pub mod version;
