//! The error taxonomy: per-connection failures that become a Disconnect event
//! for the affected peer, and fatal failures that abort the reactor tick.

use vstd::prelude::*;

verus! {

/// The kind of a transport or protocol failure, held as the library's own
/// plain value. The reactor shell reports the transport's failures in these
/// terms; `InvalidData` is the protocol violation of a zero-length header.
#[derive(Clone, Copy, Debug, PartialEq, Eq, Structural)]
pub enum IoErrorKind {
    WouldBlock,
    ConnectionRefused,
    ConnectionReset,
    ConnectionAborted,
    BrokenPipe,
    InvalidData,
    NotFound,
    Other,
}

/// A failure the reactor resolves at peer granularity: connection reset,
/// aborted, refused, broken pipe, or a malformed frame. Everything else,
/// would-block included, is not; would-block is flow control and must be
/// handled before a failure is ever reported.
pub open spec fn spec_recoverable(k: IoErrorKind) -> bool {
    match k {
        IoErrorKind::InvalidData => true,
        IoErrorKind::ConnectionRefused => true,
        IoErrorKind::ConnectionReset => true,
        IoErrorKind::ConnectionAborted => true,
        IoErrorKind::BrokenPipe => true,
        _ => false,
    }
}

/// Whether a failure is resolved by disconnecting the one affected peer.
pub fn recoverable(k: IoErrorKind) -> (r: bool)
    ensures
        r == spec_recoverable(k),
{
    match k {
        IoErrorKind::InvalidData => true,
        IoErrorKind::ConnectionRefused => true,
        IoErrorKind::ConnectionReset => true,
        IoErrorKind::ConnectionAborted => true,
        IoErrorKind::BrokenPipe => true,
        _ => false,
    }
}

} // verus!
