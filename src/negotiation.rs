use vstd::prelude::*;

use crate::lifecycle::NegotiationError;

verus! {

/// The version of the sub-stream handshake spoken here.
pub const PROTOCOL_VERSION: u8 = 1;

/// The longest route address a peer may send, in bytes.
pub const MAX_ADDRESS_LEN: u16 = 4096;

/// Byte sent back when a service accepted the address.
pub const REPLY_ACCEPTED: u8 = 0;

/// Byte sent back when no service accepts the address.
pub const REPLY_REFUSED: u8 = 1;

/// The length of the route address that a handshake header announces: the header is the
/// protocol version, then the address length as two big-endian bytes.
pub fn address_length(version: u8, high: u8, low: u8) -> (r: Result<usize, NegotiationError>)
    ensures
        version != PROTOCOL_VERSION ==> r == Err::<usize, _>(NegotiationError::UnsupportedProtocolVersion),
        version == PROTOCOL_VERSION && high as int * 256 + low as int > MAX_ADDRESS_LEN ==> r
            == Err::<usize, _>(NegotiationError::ProtocolViolation),
        r is Ok <==> version == PROTOCOL_VERSION && high as int * 256 + low as int <= MAX_ADDRESS_LEN,
        r is Ok ==> r->Ok_0 == high as int * 256 + low as int,
{
    if version != PROTOCOL_VERSION {
        return Err(NegotiationError::UnsupportedProtocolVersion);
    }
    let len: u16 = (high as u16) * 256 + (low as u16);
    if len > MAX_ADDRESS_LEN {
        return Err(NegotiationError::ProtocolViolation);
    }
    Ok(len as usize)
}

/// The header an initiator sends before an address of `len` bytes, where that length is
/// within bounds.
pub fn address_header(len: usize) -> (r: Option<[u8; 3]>)
    ensures
        r is Some <==> len <= MAX_ADDRESS_LEN,
        r is Some ==> r->0@[0] == PROTOCOL_VERSION && r->0@[1] as int * 256 + r->0@[2] as int == len,
{
    if len > MAX_ADDRESS_LEN as usize {
        return None;
    }
    let high = (len / 256) as u8;
    let low = (len % 256) as u8;
    Some([PROTOCOL_VERSION, high, low])
}

/// The reply to a handshake: accepted where a service was found, refused otherwise.
pub fn reply_byte(found: bool) -> (r: u8)
    ensures
        r == if found { REPLY_ACCEPTED } else { REPLY_REFUSED },
{
    if found {
        REPLY_ACCEPTED
    } else {
        REPLY_REFUSED
    }
}

} // verus!
