use vstd::prelude::*;

use crate::lifecycle::TunnelError;

verus! {

/// Why a request could not be routed to a tunnel.
#[derive(Debug)]
pub enum RoutingError {
    NoMatchingTunnel,
    LinkOpenFailure(TunnelError),
}

/// Why a client gave up on a sub-stream.
#[derive(Debug)]
pub enum ClientError {
    InvalidAddress,
    Refused,
    UnexpectedEnd,
    IllegalResponse,
}

/// Why a service gave up on a sub-stream.
#[derive(Debug)]
pub enum ServiceError {
    Refused,
    UnexpectedEnd,
    IllegalResponse,
    AddressError,
    DependencyFailure,
    BacktraceDependencyFailure(String),
    InternalFailure(String),
}

} // verus!
