//! The verified core of a multiplexed tunnel server: the registry of live tunnels, the
//! per-tunnel lifecycle state machine with its dispatch decisions, the sub-stream
//! handshake framing, the TCP proxy's route-address grammar and connection choices, and
//! the result mapping of the bridge to foreign hosts.

pub mod ffi;
pub mod id;
pub mod lifecycle;
pub mod negotiation;
pub mod protocol;
pub mod proxy_tcp;
pub mod registry;
pub mod text;
