//! The ways in which reading, writing and the protocol can fail.

use vstd::prelude::*;

verus! {

/// Why a read, a write or a protocol step failed.
#[derive(Clone, Copy, Debug, PartialEq, Eq, Structural)]
pub enum ProtocolError {
    /// The stream ended before the expected bytes arrived.
    Truncated,
    /// A framing or length rule was violated.
    Malformed,
    /// A payload claimed as text is not valid UTF-8.
    InvalidEncoding,
    /// The handshake packet carried this opcode instead of `0`.
    UnexpectedOpcode(u8),
    /// The handshake asked for this next state, which is neither status nor login.
    UnexpectedState(u8),
}

} // verus!
